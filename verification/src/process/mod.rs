//! Process bookkeeping: identifiers, statuses, children and descriptor
//! tables, the run queue, and the command line of `exec`.

pub mod args;
pub mod command;
pub mod cpu;
pub mod manager;
pub mod pid;
pub mod unit;

pub use cpu::CPU;
pub use manager::ProcessManager;
pub use pid::{Pid, PidAllocator};
pub use unit::{ChildState, TaskStatus, WaitOutcome, alloc_fd, wait, wait_post, waitpid, waitpid_post};
pub use command::{exec, parse_command};
pub use args::push_args;
