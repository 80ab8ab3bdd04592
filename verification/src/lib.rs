//! A small RISC-V (Sv39) teaching kernel, modelled so that its memory
//! management, process bookkeeping, pipes and SBI encodings can be verified.

pub mod config;
pub mod context;
pub mod fs;
pub mod mm;
pub mod process;
pub mod sbi;
pub mod syscall;
pub mod task;
pub mod thread;
pub mod trap;
