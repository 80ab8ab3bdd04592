use yaros::process::command::{exec, parse_command};
use yaros::process::manager::ProcessManager;
use yaros::process::pid::PidAllocator;
use yaros::process::unit::{ChildState, TaskStatus, alloc_fd, wait, waitpid};
use yaros::syscall::process::{sys_exit, sys_yield};

fn child(pid: usize, status: TaskStatus, exit_code: i32) -> ChildState<u32> {
    ChildState { pid, status, exit_code, handle: pid as u32 }
}

#[test]
fn pids_are_fresh_and_recycled() {
    let mut a = PidAllocator::new();
    let p0 = a.allocate();
    let p1 = a.allocate();
    assert_eq!(p0.value(), 0);
    assert_eq!(p1.value(), 1);
    a.dealloc(0);
    assert_eq!(a.allocate().value(), 0);
    assert_eq!(a.allocate().value(), 2);
}

#[test]
fn waitpid_reaps_a_zombie_and_requeues_a_live_child() {
    let mut children = vec![child(3, TaskStatus::Running, 0), child(4, TaskStatus::Zombie, 7)];
    let r = waitpid(&mut children, 4);
    assert_eq!(r.ret, 4);
    assert_eq!(r.reaped.unwrap().exit_code, 7);
    assert_eq!(children.len(), 1);
    let r = waitpid(&mut children, 3);
    assert_eq!(r.ret, -2);
    assert!(r.reaped.is_none());
    assert_eq!(children.len(), 1);
    assert_eq!(waitpid(&mut children, 9).ret, -1);
}

#[test]
fn wait_takes_the_first_zombie() {
    let mut none: Vec<ChildState<u32>> = Vec::new();
    assert_eq!(wait(&mut none).ret, -1);
    let mut children = vec![child(1, TaskStatus::Ready, 0), child(2, TaskStatus::Suspend, 0)];
    assert_eq!(wait(&mut children).ret, -2);
    children.push(child(5, TaskStatus::Zombie, -3));
    children.push(child(6, TaskStatus::Zombie, 1));
    let r = wait(&mut children);
    assert_eq!(r.ret, 5);
    assert_eq!(r.reaped.unwrap().exit_code, -3);
    assert_eq!(children.len(), 3);
}

#[test]
fn alloc_fd_takes_the_lowest_free_slot() {
    let mut table = vec![Some(0u8), None, Some(2)];
    assert_eq!(alloc_fd(&mut table), 1);
    table[1] = Some(1);
    assert_eq!(alloc_fd(&mut table), 3);
    assert_eq!(table.len(), 4);
}

#[test]
fn manager_exits_and_yields_in_queue_order() {
    let mut m: ProcessManager<u32> = ProcessManager::new();
    let mut status = TaskStatus::Running;
    assert_eq!(sys_yield(&mut m, &mut status), -1);
    assert!(status == TaskStatus::Running);
    m.push_process(1);
    m.push_process(2);
    assert_eq!(sys_yield(&mut m, &mut status), 0);
    assert!(status == TaskStatus::Running);
    assert_eq!(m.current(), Some(&1));
    assert_eq!(sys_yield(&mut m, &mut status), 0);
    assert!(status == TaskStatus::Suspend);
    assert_eq!(m.current(), Some(&2));
    assert_eq!(m.pop_process(), Some(1));
    let mut status = TaskStatus::Running;
    let mut code = 0;
    let (exited, ret) = sys_exit(&mut m, 7, &mut status, &mut code);
    assert_eq!(exited, Some(2));
    assert_eq!(ret, -1);
    assert!(status == TaskStatus::Zombie);
    assert_eq!(code, 7);
    assert!(m.current().is_none());
}

#[test]
fn yield_alone_keeps_the_process_running() {
    let mut m: ProcessManager<u32> = ProcessManager::new();
    m.set_current(5);
    let mut status = TaskStatus::Running;
    assert_eq!(sys_yield(&mut m, &mut status), -1);
    assert!(status == TaskStatus::Running);
    assert_eq!(m.current(), Some(&5));
}

#[test]
fn exit_runs_the_next_process() {
    let mut m: ProcessManager<u32> = ProcessManager::new();
    m.set_current(1);
    m.push_process(2);
    m.push_process(3);
    let mut status = TaskStatus::Running;
    let mut code = 0;
    assert_eq!(sys_exit(&mut m, -2, &mut status, &mut code), (Some(1), 0));
    assert!(status == TaskStatus::Zombie);
    assert_eq!(code, -2);
    assert_eq!(m.current(), Some(&2));
    assert_eq!(m.process.iter().copied().collect::<Vec<u32>>(), vec![3]);
}

#[test]
fn exec_command_line_splits_back() {
    let args = vec![b"-l".to_vec(), b"bin".to_vec()];
    let line = exec(b"ls", &args);
    assert_eq!(line, b"ls -l bin".to_vec());
    let (path, rest) = parse_command(&line).unwrap();
    assert_eq!(path, b"ls".to_vec());
    assert_eq!(rest, args);
}

#[test]
fn parse_command_skips_runs_of_spaces() {
    let (path, rest) = parse_command(b"  shell   a  b ").unwrap();
    assert_eq!(path, b"shell".to_vec());
    assert_eq!(rest, vec![b"a".to_vec(), b"b".to_vec()]);
    let (path, rest) = parse_command(b"init").unwrap();
    assert_eq!(path, b"init".to_vec());
    assert!(rest.is_empty());
    assert!(parse_command(b"   ").is_none());
}

#[test]
fn exec_queues_the_running_process_and_runs_the_new_one() {
    let mut m: yaros::process::manager::ProcessManager<u32> = yaros::process::manager::ProcessManager::new();
    let mut status = TaskStatus::Ready;
    m.exec_current(1, &mut status);
    assert!(status == TaskStatus::Ready);
    assert_eq!(m.current, Some(1));
    assert!(m.process.is_empty());
    m.push_process(2);
    let mut status = TaskStatus::Running;
    m.exec_current(3, &mut status);
    assert!(status == TaskStatus::Suspend);
    assert_eq!(m.current, Some(3));
    assert_eq!(m.process.iter().copied().collect::<Vec<u32>>(), vec![2, 1]);
}
