//! Encodings of the Supervisor Binary Interface calls that the kernel makes:
//! which extension, function and arguments each call passes, and how the
//! two result registers are read back.

pub mod call;
pub mod hsm;
pub mod legacy;
pub mod ret;
pub mod srst;

pub use call::SbiCall;
pub use hsm::{HSMHartStates, sbi_hart_get_status, sbi_hart_start, sbi_hart_stop};
pub use legacy::{console_getchar, console_getchar_value, console_putchar, set_timer};
pub use ret::{ErrorType, Ret, SbiRet};
pub use srst::{ResetReason, ResetType, reboot, shutdown};
