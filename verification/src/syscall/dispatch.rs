//! Decoding a system call from its number and argument registers.

use vstd::prelude::*;

verus! {

pub const SYSCALL_READ: usize = 63;

pub const SYSCALL_WRITE: usize = 64;

pub const SYSCALL_EXIT: usize = 93;

pub const SYSCALL_YIELD: usize = 124;

pub const SYSCALL_GET_TIME: usize = 169;

pub const SYSCALL_GETPID: usize = 172;

pub const SYSCALL_FORK: usize = 220;

pub const SYSCALL_EXEC: usize = 221;

pub const SYSCALL_WAITPID: usize = 260;

/// A system call with its arguments, as the kernel is asked to perform it.
/// Buffers and strings are user addresses.
#[derive(Clone, Copy, PartialEq, Eq, Structural)]
pub enum SyscallRequest {
    Read { fd: usize, buf: usize, len: usize },
    Write { fd: usize, buf: usize, len: usize },
    Exit { code: i32 },
    Yield,
    GetTime,
    GetPid,
    Fork,
    Exec { args: usize, len: usize },
    Waitpid { pid: isize, exit_code: usize },
}

/// Whether the kernel serves the call number `id`.
pub open spec fn supported(id: usize) -> bool {
    id == SYSCALL_READ || id == SYSCALL_WRITE || id == SYSCALL_EXIT || id == SYSCALL_YIELD || id
        == SYSCALL_GET_TIME || id == SYSCALL_GETPID || id == SYSCALL_FORK || id == SYSCALL_EXEC || id
        == SYSCALL_WAITPID
}

/// The request that call number `id` with arguments `args` makes.
pub open spec fn spec_request(id: usize, args: [usize; 3]) -> SyscallRequest {
    if id == SYSCALL_READ {
        SyscallRequest::Read { fd: args[0], buf: args[1], len: args[2] }
    } else if id == SYSCALL_WRITE {
        SyscallRequest::Write { fd: args[0], buf: args[1], len: args[2] }
    } else if id == SYSCALL_EXIT {
        SyscallRequest::Exit { code: args[0] as i32 }
    } else if id == SYSCALL_YIELD {
        SyscallRequest::Yield
    } else if id == SYSCALL_GET_TIME {
        SyscallRequest::GetTime
    } else if id == SYSCALL_GETPID {
        SyscallRequest::GetPid
    } else if id == SYSCALL_FORK {
        SyscallRequest::Fork
    } else if id == SYSCALL_EXEC {
        SyscallRequest::Exec { args: args[0], len: args[1] }
    } else {
        SyscallRequest::Waitpid { pid: args[0] as isize, exit_code: args[1] }
    }
}

/// Whether the kernel serves the call number `id`.
pub fn is_supported(id: usize) -> (r: bool)
    ensures
        r == supported(id),
{
    id == SYSCALL_READ || id == SYSCALL_WRITE || id == SYSCALL_EXIT || id == SYSCALL_YIELD || id
        == SYSCALL_GET_TIME || id == SYSCALL_GETPID || id == SYSCALL_FORK || id == SYSCALL_EXEC || id
        == SYSCALL_WAITPID
}

/// The request that call number `id` makes with the argument registers
/// `args`; the kernel serves only the numbers it knows.
pub fn syscall(id: usize, args: [usize; 3]) -> (r: SyscallRequest)
    requires
        supported(id),
    ensures
        r == spec_request(id, args),
{
    if id == SYSCALL_READ {
        SyscallRequest::Read { fd: args[0], buf: args[1], len: args[2] }
    } else if id == SYSCALL_WRITE {
        SyscallRequest::Write { fd: args[0], buf: args[1], len: args[2] }
    } else if id == SYSCALL_EXIT {
        SyscallRequest::Exit { code: args[0] as i32 }
    } else if id == SYSCALL_YIELD {
        SyscallRequest::Yield
    } else if id == SYSCALL_GET_TIME {
        SyscallRequest::GetTime
    } else if id == SYSCALL_GETPID {
        SyscallRequest::GetPid
    } else if id == SYSCALL_FORK {
        SyscallRequest::Fork
    } else if id == SYSCALL_EXEC {
        SyscallRequest::Exec { args: args[0], len: args[1] }
    } else {
        SyscallRequest::Waitpid { pid: args[0] as isize, exit_code: args[1] }
    }
}

/// Whether call number `id` may change which process runs: exit, yield,
/// fork, exec and waitpid.
pub fn is_process_call(id: usize) -> (r: bool)
    ensures
        r == (id == SYSCALL_EXIT || id == SYSCALL_YIELD || id == SYSCALL_FORK || id == SYSCALL_EXEC
            || id == SYSCALL_WAITPID),
{
    match id {
        SYSCALL_EXIT => true,
        SYSCALL_YIELD => true,
        SYSCALL_FORK => true,
        SYSCALL_EXEC => true,
        SYSCALL_WAITPID => true,
        _ => false,
    }
}

} // verus!
