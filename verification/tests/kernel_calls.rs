use yaros::fs::inode::split_path;
use yaros::process::command::split_on;
use yaros::context::{Context, SPP};
use yaros::fs::buffer::UserBuffer;
use yaros::fs::inode::OpenFlags;
use yaros::fs::pipe::{PipeRead, PipeRingBuffer};
use yaros::process::unit::{ChildState, TaskStatus};
use yaros::sbi::hsm::{HSMHartStates, sbi_hart_get_status, sbi_hart_start};
use yaros::sbi::legacy::{console_putchar, set_timer};
use yaros::sbi::ret::ErrorType;
use yaros::sbi::srst::{ResetReason, ResetType, reboot, shutdown};
use yaros::syscall::dispatch::{SyscallRequest, is_process_call, syscall};
use yaros::syscall::fs::sys_close;
use yaros::syscall::process::{sys_get_time, sys_getpid, sys_waitpid};
use yaros::trap::handler::{Exception, Interrupt, Trap, TrapAction, handle_trap};
use yaros::trap::timer::{get_time_ms, set_next_trigger};

#[test]
fn syscall_numbers_decode_to_requests() {
    assert!(matches!(syscall(64, [1, 0x1000, 5]), SyscallRequest::Write { fd: 1, buf: 0x1000, len: 5 }));
    assert!(matches!(syscall(63, [0, 0x2000, 1]), SyscallRequest::Read { fd: 0, buf: 0x2000, len: 1 }));
    assert!(matches!(syscall(93, [usize::MAX, 0, 0]), SyscallRequest::Exit { code: -1 }));
    assert!(matches!(syscall(124, [0, 0, 0]), SyscallRequest::Yield));
    assert!(matches!(syscall(169, [0, 0, 0]), SyscallRequest::GetTime));
    assert!(matches!(syscall(172, [0, 0, 0]), SyscallRequest::GetPid));
    assert!(matches!(syscall(220, [0, 0, 0]), SyscallRequest::Fork));
    assert!(matches!(syscall(221, [0x30, 4, 0]), SyscallRequest::Exec { args: 0x30, len: 4 }));
    assert!(matches!(syscall(260, [usize::MAX, 0x40, 0]), SyscallRequest::Waitpid { pid: -1, exit_code: 0x40 }));
}

#[test]
fn process_calls_are_the_scheduling_ones() {
    for id in [93, 124, 220, 221, 260] {
        assert!(is_process_call(id));
    }
    for id in [63, 64, 169, 172, 0] {
        assert!(!is_process_call(id));
    }
}

#[test]
fn close_empties_a_slot() {
    let mut t = vec![Some(1u8), Some(2)];
    assert_eq!(sys_close(&mut t, 1), 0);
    assert_eq!(t, vec![Some(1), None]);
    assert_eq!(sys_close(&mut t, 5), -1);
}

#[test]
fn time_pid_and_wait_calls() {
    assert_eq!(get_time_ms(25_000), 2);
    assert_eq!(sys_get_time(12_499), 0);
    assert_eq!(sys_get_time(125_000), 10);
    assert_eq!(sys_getpid(Some(3)), 3);
    assert_eq!(sys_getpid(None), -1);
    let mut kids = vec![ChildState { pid: 2, status: TaskStatus::Zombie, exit_code: 4, handle: () }];
    assert_eq!(sys_waitpid(&mut kids, 5).ret, -1);
    assert_eq!(sys_waitpid(&mut kids, -1).ret, 2);
    assert!(kids.is_empty());
}

#[test]
fn timer_programs_one_tick_ahead() {
    let call = set_next_trigger(1000);
    assert_eq!(call.eid, 0);
    assert_eq!(call.args[0], 1000 + 125_000);
    assert_eq!(set_timer(7).args[0], 7);
}

#[test]
fn traps_step_over_the_instruction_and_pick_an_action() {
    let mut cx = Context::init_context(SPP::User, 0x100, 0, 0, 0, 0, 0);
    cx.a7 = 64;
    cx.a0 = 1;
    cx.a1 = 0x2000;
    cx.a2 = 3;
    let a = handle_trap(Trap::Exception(Exception::UserEnvCall), &mut cx);
    assert!(matches!(a, TrapAction::Syscall { id: 64, args: [1, 0x2000, 3] }));
    assert_eq!(cx.sepc, 0x104);
    assert!(matches!(handle_trap(Trap::Exception(Exception::IllegalInstruction), &mut cx), TrapAction::Kill { code: -3 }));
    assert!(matches!(handle_trap(Trap::Exception(Exception::LoadPageFault), &mut cx), TrapAction::Kill { code: -2 }));
    assert!(matches!(handle_trap(Trap::Exception(Exception::Breakpoint), &mut cx), TrapAction::Resume));
    assert_eq!(cx.sepc, 0x110);
    assert!(matches!(handle_trap(Trap::Interrupt(Interrupt::SupervisorTimer), &mut cx), TrapAction::Tick));
    assert!(matches!(handle_trap(Trap::Interrupt(Interrupt::UserSoft), &mut cx), TrapAction::Resume));
    assert_eq!(cx.sepc, 0x110);
}

#[test]
fn sbi_calls_and_errors() {
    assert_eq!(console_putchar(b'a').args[0], 97);
    let s = sbi_hart_start(1, 0x8000, 9);
    assert_eq!(s.eid, 0x48534D);
    assert_eq!(s.fid, 0);
    assert_eq!(s.args, [1, 0x8000, 9, 0, 0]);
    assert_eq!(sbi_hart_get_status(3).fid, 2);
    assert_eq!(shutdown(ResetReason::NoReason).args[0], 0);
    assert_eq!(reboot(ResetType::ColdReboot, ResetReason::SystemFailure).args[..2], [1, 1]);
    assert_eq!(ErrorType::from_code(-3).code(), -3);
    assert_eq!(ErrorType::from_code(-42).code(), -42);
    let _ = HSMHartStates::STOPPED;
}

#[test]
fn pipe_is_first_in_first_out_and_bounded() {
    let mut p = PipeRingBuffer::new();
    assert_eq!(p.available_read(), 0);
    assert_eq!(p.available_write(), 32);
    let buf = UserBuffer::new(vec![vec![1, 2, 3], vec![4]]);
    assert_eq!(buf.len(), 4);
    assert_eq!(p.write_from(&buf), 4);
    assert_eq!(p.read_into(2), vec![1, 2]);
    let big = UserBuffer::new(vec![vec![9u8; 40]]);
    assert_eq!(p.write_from(&big), 30);
    assert_eq!(p.available_write(), 0);
    assert_eq!(p.read_byte(), 3);
    assert_eq!(p.read_byte(), 4);
    assert_eq!(p.read_into(100).len(), 30);
}

#[test]
fn open_flags_read_write() {
    assert_eq!(OpenFlags::RDONLY().read_write(), (true, false));
    assert_eq!(OpenFlags::WRONLY().read_write(), (false, true));
    assert_eq!(OpenFlags::RDWR().read_write(), (true, true));
    assert!(OpenFlags::from_bits(1 << 20).is_none());
}

#[test]
fn pipe_ends_take_the_lowest_free_descriptors() {
    let mut table: Vec<Option<u8>> = vec![Some(0), None, Some(2)];
    let (r, w) = yaros::syscall::sys_pipe(&mut table, 10u8, 11u8);
    assert_eq!((r, w), (1, 3));
    assert_eq!(table, vec![Some(0), Some(10), Some(2), Some(11)]);
    let mut full: Vec<Option<u8>> = vec![Some(5)];
    assert_eq!(yaros::syscall::sys_pipe(&mut full, 1, 2), (1, 2));
    assert_eq!(full, vec![Some(5), Some(1), Some(2)]);
}

#[test]
fn open_installs_the_found_file_or_fails() {
    let mut table: Vec<Option<u8>> = vec![Some(0), Some(1)];
    assert_eq!(yaros::syscall::sys_open(&mut table, None), -1);
    assert_eq!(table, vec![Some(0), Some(1)]);
    assert_eq!(yaros::syscall::sys_open(&mut table, Some(7u8)), 2);
    assert_eq!(table, vec![Some(0), Some(1), Some(7)]);
    table[0] = None;
    assert_eq!(yaros::syscall::sys_open(&mut table, Some(9u8)), 0);
    assert_eq!(table, vec![Some(9), Some(1), Some(7)]);
}

#[test]
fn a_path_splits_into_directories_and_a_file_name() {
    let (dirs, name) = split_path(b"/bin/shell").unwrap();
    assert_eq!(dirs, vec![b"bin".to_vec()]);
    assert_eq!(name, b"shell".to_vec());
    let (dirs, name) = split_path(b"shell").unwrap();
    assert!(dirs.is_empty());
    assert_eq!(name, b"shell".to_vec());
    let (dirs, name) = split_path(b"//usr//lib/x/").unwrap();
    assert_eq!(dirs, vec![b"usr".to_vec(), b"lib".to_vec()]);
    assert_eq!(name, b"x".to_vec());
    assert!(split_path(b"/").is_none());
    assert!(split_path(b"").is_none());
}

#[test]
fn split_on_drops_empty_pieces() {
    assert_eq!(split_on(b" a  bc ", b' '), vec![b"a".to_vec(), b"bc".to_vec()]);
    assert!(split_on(b"///", b'/').is_empty());
}

#[test]
fn a_pipe_read_waits_until_the_write_end_closes() {
    let mut ring = PipeRingBuffer::new();
    let n = ring.write_from(&UserBuffer::new(vec![b"abc".to_vec()]));
    assert_eq!(n, 3);
    let (bytes, next) = ring.read_round(2, 0, false);
    assert_eq!(bytes, b"ab".to_vec());
    assert!(matches!(next, PipeRead::Wait));
    let (bytes, next) = ring.read_round(5, 2, true);
    assert_eq!(bytes, b"c".to_vec());
    assert!(matches!(next, PipeRead::Done(3)));
    let (bytes, next) = ring.read_round(5, 3, true);
    assert!(bytes.is_empty());
    assert!(matches!(next, PipeRead::Done(3)));
}
