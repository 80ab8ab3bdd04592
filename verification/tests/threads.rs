use yaros::context::{Context, SPP};
use yaros::mm::memory::PhysMemory;
use yaros::mm::loader::UserEnv;
use yaros::process::args::{exec_args, push_args};
use yaros::sbi::hsm::HSMHartStates;
use yaros::task::TaskUnit;
use yaros::thread::{Thread, ThreadPoolInner, first_stopped, thread_context};

#[test]
fn first_stopped_hart_is_picked() {
    let states = vec![HSMHartStates::STARTED, HSMHartStates::STOPPED, HSMHartStates::STOPPED];
    assert_eq!(first_stopped(&states), Some(1));
    assert_eq!(first_stopped(&vec![HSMHartStates::STARTED]), None);
}

#[test]
fn thread_context_carries_the_closure() {
    let cx = thread_context(0x8020_0000, 77, 0x9000, 0x8020_1000, 1, 2, 3);
    assert_eq!(cx.sepc, 0x8020_0000);
    assert_eq!(cx.satp, 77);
    assert_eq!(cx.kernel_satp, 77);
    assert_eq!(cx.sp, 0x9000);
    assert_eq!((cx.a1, cx.a2, cx.a3), (1, 2, 3));
    assert_eq!(cx.sstatus, 1 << 8);
}

#[test]
fn pool_keeps_one_thread_per_hart() {
    let mut pool = ThreadPoolInner::new();
    pool.insert(Thread { hart_id: 1, name: "a".to_string(), state: HSMHartStates::STARTED, context: 0 });
    pool.insert(Thread { hart_id: 2, name: "b".to_string(), state: HSMHartStates::STARTED, context: 0 });
    pool.insert(Thread { hart_id: 1, name: "c".to_string(), state: HSMHartStates::STOPPED, context: 0 });
    assert_eq!(pool.num_thread(), 2);
    assert_eq!(pool.threads.get(&1).unwrap().name, "c");
}

#[test]
fn push_args_lays_out_the_arguments() {
    let mut cx = Context::init_context(SPP::User, 0, 0, 0x1000, 0, 0, 0);
    let block = push_args(&mut cx, b"echo", &vec![b"hi".to_vec()]);
    assert_eq!(block, b"echo\0hi\0".to_vec());
    assert_eq!(cx.sp, 0x1000 - 8);
    assert_eq!(cx.a1, 0x1000 - 8);
    assert_eq!(cx.a0, 2);
}

#[test]
fn task_of_no_elf_file_is_none() {
    let mut mem = PhysMemory::new(0x80400, 0x80480);
    let env = UserEnv { sasm: 0x80201000, easm: 0x80202000, kernel_satp: 0, trap_handler: 0 };
    assert!(TaskUnit::new(&mut mem, &[0u8; 10], &env).is_none());
}

#[test]
fn exec_args_refuses_what_does_not_fit_below_the_stack() {
    let cx = Context::init_context(SPP::User, 0, 0, 8, 0, 0, 0);
    let (started, block) = exec_args(&cx, b"echo", &vec![b"hi".to_vec()]).unwrap();
    assert_eq!(block, b"echo\0hi\0".to_vec());
    assert_eq!(started.sp, 0);
    assert_eq!(started.a0, 2);
    assert!(exec_args(&cx, b"echo", &vec![b"hi!".to_vec()]).is_none());
    let tight = Context::init_context(SPP::User, 0, 0, 4, 0, 0, 0);
    assert!(exec_args(&tight, b"echo", &vec![]).is_none());
}
