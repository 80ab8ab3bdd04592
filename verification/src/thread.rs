//! Kernel threads on spare harts: which hart a new thread goes to, the
//! context it starts from, and the pool that records the running threads.

use vstd::prelude::*;

use std::collections::BTreeMap;

use crate::context::{Context, SPP};
use crate::sbi::hsm::HSMHartStates;

verus! {

/// Harts that the kernel may start threads on.
pub const NUM_HART: usize = 8;

/// Size of the stack of a thread.
pub const THREAD_STACK_SIZE: usize = 2048;

/// The first hart whose state in `states` is `STOPPED`.
pub fn first_stopped(states: &Vec<HSMHartStates>) -> (r: Option<usize>)
    ensures
        r matches Some(h) ==> h < states@.len() && states@[h as int] == HSMHartStates::STOPPED && forall|j: int|
            0 <= j < h ==> #[trigger] states@[j] != HSMHartStates::STOPPED,
        r.is_none() ==> forall|j: int| 0 <= j < states@.len() ==> #[trigger] states@[j] != HSMHartStates::STOPPED,
{
    let mut i: usize = 0;
    while i < states.len()
        invariant
            i <= states@.len(),
            forall|j: int| 0 <= j < i ==> #[trigger] states@[j] != HSMHartStates::STOPPED,
        decreases states@.len() - i,
    {
        if states[i] == HSMHartStates::STOPPED {
            return Some(i);
        }
        i = i + 1;
    }
    None
}

/// The context that a new thread starts from: supervisor mode at `entry`,
/// in the kernel's address space `kernel_satp`, on the stack that ends at
/// `stack_top`, with the closure to run (`pointer`, `vtable`) and the
/// context's own address `cx_ptr` in `a1`..`a3`.
pub open spec fn spec_thread_context(
    entry: usize,
    kernel_satp: usize,
    stack_top: usize,
    trap_handler: usize,
    pointer: usize,
    vtable: usize,
    cx_ptr: usize,
) -> Context {
    Context {
        a1: pointer,
        a2: vtable,
        a3: cx_ptr,
        ..Context::spec_init(SPP::Supervisor, entry, kernel_satp, stack_top, kernel_satp, 0, trap_handler)
    }
}

/// The context that a new thread starts from (see `spec_thread_context`).
pub fn thread_context(
    entry: usize,
    kernel_satp: usize,
    stack_top: usize,
    trap_handler: usize,
    pointer: usize,
    vtable: usize,
    cx_ptr: usize,
) -> (r: Context)
    ensures
        r == spec_thread_context(entry, kernel_satp, stack_top, trap_handler, pointer, vtable, cx_ptr),
{
    let mut cx = Context::init_context(SPP::Supervisor, entry, kernel_satp, stack_top, kernel_satp, 0, trap_handler);
    cx.a1 = pointer;
    cx.a2 = vtable;
    cx.a3 = cx_ptr;
    cx
}

/// A thread running on a hart.
pub struct Thread {
    pub hart_id: usize,
    pub name: String,
    pub state: HSMHartStates,
    pub context: usize,
}

/// The threads, keyed by the hart they run on.
pub struct ThreadPoolInner {
    pub threads: BTreeMap<usize, Thread>,
}

impl ThreadPoolInner {
    /// A pool with no thread.
    pub fn new() -> (r: Self)
        ensures
            r.threads@ == Map::<usize, Thread>::empty(),
    {
        Self { threads: BTreeMap::new() }
    }

    /// Records `thread` under its hart, replacing any thread recorded there.
    pub fn insert(&mut self, thread: Thread)
        ensures
            final(self).threads@ == old(self).threads@.insert(thread.hart_id, thread),
    {
        let hart = thread.hart_id;
        self.threads.insert(hart, thread);
    }

    /// Number of threads recorded.
    pub fn num_thread(&self) -> (r: usize)
        ensures
            r == self.threads@.len(),
    {
        self.threads.len()
    }
}

} // verus!
