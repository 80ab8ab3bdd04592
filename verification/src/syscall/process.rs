//! Process system calls that are decided from plain values.

use vstd::prelude::*;

use crate::process::manager::ProcessManager;
use crate::process::unit::{ChildState, TaskStatus, WaitOutcome, wait, wait_post, waitpid, waitpid_post};
use crate::trap::timer::{get_time_ms, spec_time_ms};

verus! {

/// The time in milliseconds for the timer value `ticks`.
pub fn sys_get_time(ticks: usize) -> (r: isize)
    ensures
        r == spec_time_ms(ticks) as isize,
{
    get_time_ms(ticks) as isize
}

/// The identifier of the current process, or -1 when there is none.
pub fn sys_getpid(current: Option<usize>) -> (r: isize)
    ensures
        r == match current {
            Some(pid) => pid as isize,
            None => -1isize,
        },
{
    match current {
        Some(pid) => pid as isize,
        None => -1,
    }
}

/// Waits, on behalf of the current process, for any child when `pid` is -1
/// and for the child `pid` otherwise.
pub fn sys_waitpid<T>(children: &mut Vec<ChildState<T>>, pid: isize) -> (r: WaitOutcome<T>)
    ensures
        pid == -1 ==> wait_post(old(children)@, final(children)@, r),
        pid != -1 ==> waitpid_post(old(children)@, final(children)@, pid, r),
{
    if pid == -1 {
        wait(children)
    } else {
        waitpid(children, pid)
    }
}

/// Ends the current process with `exit_code` and hands the processor to the
/// front of the queue.  `status` and `code` are the status and exit code of
/// the process that runs now: if there is one, it is taken out, becoming a
/// zombie with exit code `exit_code`, and returned.  Returns 0 when a process
/// from the queue became current, and -1, with no process current, when the
/// queue was empty.
pub fn sys_exit<T>(manager: &mut ProcessManager<T>, exit_code: i32, status: &mut TaskStatus, code: &mut i32) -> (r: (
    Option<T>,
    isize,
))
    ensures
        r.0 == old(manager).current,
        old(manager).current.is_some() ==> *final(status) == TaskStatus::Zombie && *final(code) == exit_code,
        old(manager).current.is_none() ==> *final(status) == *old(status) && *final(code) == *old(code),
        old(manager).process@.len() == 0 ==> r.1 == -1 && final(manager).current.is_none()
            && final(manager).process@ == old(manager).process@,
        old(manager).process@.len() > 0 ==> r.1 == 0 && final(manager).current == Some(old(manager).process@[0])
            && final(manager).process@ == old(manager).process@.drop_first(),
{
    let exited = manager.take_current();
    if exited.is_some() {
        *status = TaskStatus::Zombie;
        *code = exit_code;
    }
    match manager.pop_process() {
        Some(next) => {
            manager.set_current(next);
            (exited, 0)
        },
        None => (exited, -1),
    }
}

/// Hands the processor to the front of the queue.  When the queue is empty
/// nothing changes and -1 is returned.  Otherwise the process that runs now,
/// if any, is suspended (its status `status` becomes `Suspend`) and goes to
/// the back of the queue, the front of the queue becomes current, and 0 is
/// returned.
pub fn sys_yield<T>(manager: &mut ProcessManager<T>, status: &mut TaskStatus) -> (r: isize)
    ensures
        old(manager).process@.len() == 0 ==> r == -1 && final(manager).current == old(manager).current
            && final(manager).process@ == old(manager).process@ && *final(status) == *old(status),
        old(manager).process@.len() > 0 ==> {
            &&& r == 0
            &&& final(manager).current == Some(old(manager).process@[0])
            &&& final(manager).process@ == match old(manager).current {
                Some(c) => old(manager).process@.drop_first().push(c),
                None => old(manager).process@.drop_first(),
            }
            &&& *final(status) == if old(manager).current.is_some() {
                TaskStatus::Suspend
            } else {
                *old(status)
            }
        },
{
    match manager.pop_process() {
        Some(next) => {
            match manager.take_current() {
                Some(cur) => {
                    *status = TaskStatus::Suspend;
                    manager.push_process(cur);
                },
                None => {},
            }
            manager.set_current(next);
            0
        },
        None => -1,
    }
}

} // verus!
