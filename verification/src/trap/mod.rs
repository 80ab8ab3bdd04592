//! Traps: what the kernel does for each interrupt and exception, and the
//! supervisor timer.

pub mod handler;
pub mod timer;

pub use handler::{Exception, Interrupt, Trap, TrapAction, exception_handler, handle_trap, interrupt_handler};
pub use timer::{get_time_ms, set_next_trigger};
