//! System calls: which request a call number and its three arguments make,
//! and the parts of the calls that are decided from plain values.

pub mod dispatch;
pub mod fs;
pub mod process;

pub use dispatch::{SyscallRequest, is_process_call, is_supported, syscall};
pub use fs::{sys_close, sys_open, sys_pipe};
pub use process::{sys_get_time, sys_getpid, sys_waitpid};
