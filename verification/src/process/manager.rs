//! The run queue and the current process, and how `exec` moves processes
//! between them.

use vstd::prelude::*;

use std::collections::VecDeque;

use super::unit::TaskStatus;

verus! {

/// Processes ready to run, in order, and the one running now.
pub struct ProcessManager<T> {
    pub process: VecDeque<T>,
    pub current: Option<T>,
}

impl<T> ProcessManager<T> {
    /// An empty queue and no current process.
    pub fn new() -> (r: Self)
        ensures
            r.process@ == Seq::<T>::empty(),
            r.current.is_none(),
    {
        Self { process: VecDeque::new(), current: None }
    }

    /// Appends a process to the back of the queue.
    pub fn push_process(&mut self, process: T)
        ensures
            final(self).process@ == old(self).process@.push(process),
            final(self).current == old(self).current,
    {
        self.process.push_back(process);
    }

    /// Takes the process at the front of the queue.
    pub fn pop_process(&mut self) -> (r: Option<T>)
        ensures
            old(self).process@.len() == 0 ==> r.is_none() && final(self).process@ == old(self).process@,
            old(self).process@.len() > 0 ==> r == Some(old(self).process@[0]) && final(self).process@
                == old(self).process@.drop_first(),
            final(self).current == old(self).current,
    {
        self.process.pop_front()
    }

    /// The current process.
    pub fn current(&self) -> (r: Option<&T>)
        ensures
            r == match self.current {
                Some(c) => Some(&c),
                None => None,
            },
    {
        self.current.as_ref()
    }

    /// Takes the current process out, leaving none.
    pub fn take_current(&mut self) -> (r: Option<T>)
        ensures
            r == old(self).current,
            final(self).current.is_none(),
            final(self).process@ == old(self).process@,
    {
        self.current.take()
    }

    /// Makes `process` the current process.
    pub fn set_current(&mut self, process: T)
        ensures
            final(self).current == Some(process),
            final(self).process@ == old(self).process@,
    {
        self.current = Some(process);
    }

    /// The scheduling part of `exec`: the process that ran (if any) is
    /// suspended, its status `status` becoming `Suspend`, and goes to the
    /// back of the queue; the new process `process` becomes current.
    pub fn exec_current(&mut self, process: T, status: &mut TaskStatus)
        ensures
            final(self).current == Some(process),
            final(self).process@ == match old(self).current {
                Some(c) => old(self).process@.push(c),
                None => old(self).process@,
            },
            *final(status) == if old(self).current.is_some() {
                TaskStatus::Suspend
            } else {
                *old(status)
            },
    {
        match self.take_current() {
            Some(old_current) => {
                *status = TaskStatus::Suspend;
                self.push_process(old_current);
            },
            None => {},
        }
        self.set_current(process);
    }
}

/// The processes that a manager holds: the queue, then the current one.
pub open spec fn held<T>(m: Seq<T>, current: Option<T>) -> Seq<T> {
    match current {
        Some(c) => m.push(c),
        None => m,
    }
}

/// Yielding never loses or duplicates a process: the processes held after a
/// yield are those held before, in some order.
pub proof fn law_yield_keeps_processes<T>(
    q0: Seq<T>,
    c0: Option<T>,
    q1: Seq<T>,
    c1: Option<T>,
)
    requires
        q0.len() > 0,
        c1 == Some(q0[0]),
        q1 == match c0 {
            Some(c) => q0.drop_first().push(c),
            None => q0.drop_first(),
        },
    ensures
        held(q1, c1).to_multiset() == held(q0, c0).to_multiset(),
{
    broadcast use vstd::seq_lib::group_seq_properties;
    broadcast use vstd::multiset::group_multiset_axioms;
    let rest = q0.drop_first();
    assert(q0 =~= seq![q0[0]] + rest);
    vstd::seq_lib::lemma_multiset_commutative(seq![q0[0]], rest);
    match c0 {
        Some(c) => {
            assert(held(q1, c1) =~= rest.push(c).push(q0[0]));
            assert(held(q0, c0) =~= q0.push(c));
            vstd::seq_lib::lemma_multiset_commutative(rest, seq![c]);
            assert(rest.push(c) =~= rest + seq![c]);
            assert(rest.push(c).push(q0[0]) =~= (rest + seq![c]) + seq![q0[0]]);
            assert(q0.push(c) =~= (seq![q0[0]] + rest) + seq![c]);
            vstd::seq_lib::lemma_multiset_commutative(rest + seq![c], seq![q0[0]]);
            vstd::seq_lib::lemma_multiset_commutative(seq![q0[0]] + rest, seq![c]);
        },
        None => {
            assert(held(q1, c1) =~= rest.push(q0[0]));
            assert(rest.push(q0[0]) =~= rest + seq![q0[0]]);
            vstd::seq_lib::lemma_multiset_commutative(rest, seq![q0[0]]);
        },
    }
}

} // verus!
