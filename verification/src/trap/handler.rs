//! The decisions of the trap handler: for each cause, the change to the
//! saved context and the action that the kernel then takes.

use vstd::prelude::*;

use crate::context::Context;

verus! {

/// Interrupt causes.
#[derive(Clone, Copy, PartialEq, Eq, Structural)]
pub enum Interrupt {
    UserSoft,
    SupervisorSoft,
    UserTimer,
    SupervisorTimer,
    UserExternal,
    SupervisorExternal,
    Unknown,
}

/// Exception causes.
#[derive(Clone, Copy, PartialEq, Eq, Structural)]
pub enum Exception {
    InstructionMisaligned,
    InstructionFault,
    IllegalInstruction,
    Breakpoint,
    LoadFault,
    StoreMisaligned,
    StoreFault,
    UserEnvCall,
    InstructionPageFault,
    LoadPageFault,
    StorePageFault,
    Unknown,
}

/// The cause of a trap.
#[derive(Clone, Copy, PartialEq, Eq, Structural)]
pub enum Trap {
    Interrupt(Interrupt),
    Exception(Exception),
}

/// What the kernel does after a trap has been handled.
#[derive(Clone, Copy)]
pub enum TrapAction {
    /// Return to the interrupted code.
    Resume,
    /// Program the next timer tick and suspend the current process.
    Tick,
    /// Serve system call `id` with the argument registers `args`; its result
    /// goes to `a0`.
    Syscall { id: usize, args: [usize; 3] },
    /// Report the fault and end the current process with exit code `code`.
    Kill { code: i32 },
}

/// The action for an interrupt.
pub open spec fn interrupt_action(cause: Interrupt) -> TrapAction {
    if cause == Interrupt::SupervisorTimer {
        TrapAction::Tick
    } else {
        TrapAction::Resume
    }
}

/// The action for an exception taken with saved context `cx`.
pub open spec fn exception_action(cause: Exception, cx: Context) -> TrapAction {
    match cause {
        Exception::IllegalInstruction => TrapAction::Kill { code: -3i32 },
        Exception::LoadPageFault => TrapAction::Kill { code: -2i32 },
        Exception::UserEnvCall => TrapAction::Syscall { id: cx.a7, args: [cx.a0, cx.a1, cx.a2] },
        _ => TrapAction::Resume,
    }
}

/// The saved context once the trapping instruction has been stepped over.
pub open spec fn stepped(cx: Context) -> Context {
    Context { sepc: (cx.sepc + 4) as usize, ..cx }
}

/// The action for an interrupt: a supervisor timer interrupt starts the
/// next tick and suspends the current process; the others are ignored.
pub fn interrupt_handler(cause: Interrupt) -> (r: TrapAction)
    ensures
        r == interrupt_action(cause),
{
    match cause {
        Interrupt::SupervisorTimer => TrapAction::Tick,
        _ => TrapAction::Resume,
    }
}

/// The action for an exception.  The saved `sepc` moves past the 4-byte
/// instruction that trapped; an environment call asks for the system call
/// in `a7` with `a0`..`a2`; an illegal instruction ends the process with
/// -3 and a load page fault with -2; the others are ignored.
pub fn exception_handler(cause: Exception, cx: &mut Context) -> (r: TrapAction)
    requires
        old(cx).sepc + 4 <= usize::MAX,
    ensures
        *final(cx) == stepped(*old(cx)),
        r == exception_action(cause, *old(cx)),
{
    cx.sepc = cx.sepc + 4;
    match cause {
        Exception::IllegalInstruction => TrapAction::Kill { code: -3 },
        Exception::LoadPageFault => TrapAction::Kill { code: -2 },
        Exception::UserEnvCall => TrapAction::Syscall { id: cx.a7, args: [cx.a0, cx.a1, cx.a2] },
        _ => TrapAction::Resume,
    }
}

/// The action for a trap of cause `cause` taken with saved context `cx`:
/// interrupts leave the context as it is, exceptions step over the
/// trapping instruction.
pub fn handle_trap(cause: Trap, cx: &mut Context) -> (r: TrapAction)
    requires
        old(cx).sepc + 4 <= usize::MAX,
    ensures
        cause is Interrupt ==> *final(cx) == *old(cx) && r == interrupt_action(cause->Interrupt_0),
        cause is Exception ==> *final(cx) == stepped(*old(cx)) && r == exception_action(cause->Exception_0, *old(cx)),
{
    match cause {
        Trap::Interrupt(i) => interrupt_handler(i),
        Trap::Exception(e) => exception_handler(e, cx),
    }
}

} // verus!
