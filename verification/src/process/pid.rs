//! Process identifiers: a counter of fresh identifiers plus a stack of
//! identifiers given back.

use vstd::prelude::*;

verus! {

/// Hands out process identifiers: the most recently recycled one if any,
/// otherwise the next never-used one.
pub struct PidAllocator {
    pub current: usize,
    pub recycled: Vec<usize>,
}

/// A process identifier.
pub struct Pid(pub usize);

impl Pid {
    /// The identifier as an integer.
    pub fn value(&self) -> (r: usize)
        ensures
            r == self.0,
    {
        self.0
    }
}

/// One allocation from `a0`, leaving `a1`, handed out `p`: the last
/// recycled identifier, taken off the list, or else the counter, which then
/// moves on by one.
pub open spec fn alloc_step(a0: PidAllocator, a1: PidAllocator, p: int) -> bool {
    &&& p == if a0.recycled@.len() > 0 {
        a0.recycled@.last() as int
    } else {
        a0.current as int
    }
    &&& a0.recycled@.len() > 0 ==> a1.current == a0.current && a1.recycled@ == a0.recycled@.drop_last()
    &&& a0.recycled@.len() == 0 ==> a1.current == a0.current + 1 && a1.recycled@ == a0.recycled@
}

impl PidAllocator {
    /// Recycled identifiers were handed out before and are listed once.
    pub open spec fn wf(&self) -> bool {
        &&& self.recycled@.no_duplicates()
        &&& forall|i: int| 0 <= i < self.recycled@.len() ==> #[trigger] self.recycled@[i] < self.current
    }

    /// Whether identifier `p` is currently in use.
    pub open spec fn in_use(&self, p: int) -> bool {
        0 <= p < self.current && !self.recycled@.contains(p as usize)
    }

    /// An allocator that has handed out nothing.
    pub fn new() -> (r: Self)
        ensures
            r.wf(),
            r.current == 0,
            r.recycled@.len() == 0,
            forall|p: int| !#[trigger] r.in_use(p),
    {
        Self { current: 0, recycled: Vec::new() }
    }

    /// A fresh identifier: the last recycled one if any, otherwise the next
    /// never-used one.
    pub fn allocate(&mut self) -> (r: Pid)
        requires
            old(self).wf(),
            old(self).recycled@.len() > 0 || old(self).current < usize::MAX,
        ensures
            final(self).wf(),
            r.0 == if old(self).recycled@.len() > 0 {
                old(self).recycled@.last()
            } else {
                old(self).current
            },
            old(self).recycled@.len() > 0 ==> final(self).current == old(self).current
                && final(self).recycled@ == old(self).recycled@.drop_last(),
            old(self).recycled@.len() == 0 ==> final(self).current == old(self).current + 1
                && final(self).recycled@ == old(self).recycled@,
            alloc_step(*old(self), *final(self), r.0 as int),
            !old(self).in_use(r.0 as int),
            final(self).in_use(r.0 as int),
            forall|p: int| p != r.0 ==> #[trigger] final(self).in_use(p) == old(self).in_use(p),
    {
        match self.recycled.pop() {
            Some(value) => {
                proof {
                    let old_r = old(self).recycled@;
                    assert(old_r =~= self.recycled@.push(value));
                    assert(self.recycled@ =~= old_r.drop_last());
                    assert(old_r[old_r.len() - 1] == value);
                    assert(old_r.contains(value));
                    assert(!self.recycled@.contains(value)) by {
                        if self.recycled@.contains(value) {
                            let k = choose|k: int| 0 <= k < self.recycled@.len() && self.recycled@[k] == value;
                            assert(old_r[k] == old_r[old_r.len() - 1]);
                        }
                    }
                    assert forall|p: int| p != value implies #[trigger] self.in_use(p) == old(self).in_use(p) by {
                        if 0 <= p < self.current {
                            if old_r.contains(p as usize) {
                                let k = choose|k: int| 0 <= k < old_r.len() && old_r[k] == p as usize;
                                assert(k != old_r.len() - 1);
                                assert(self.recycled@[k] == p as usize);
                            }
                            if self.recycled@.contains(p as usize) {
                                let k = choose|k: int| 0 <= k < self.recycled@.len() && self.recycled@[k] == p as usize;
                                assert(old_r[k] == p as usize);
                            }
                        }
                    }
                }
                Pid(value)
            },
            None => {
                self.current += 1;
                proof {
                    assert(!old(self).recycled@.contains(old(self).current)) by {
                        if old(self).recycled@.contains(old(self).current) {
                            let k = choose|k: int| 0 <= k < old(self).recycled@.len() && old(self).recycled@[k] == old(self).current;
                        }
                    }
                }
                Pid(self.current - 1)
            },
        }
    }

    /// Gives identifier `pid`, which is in use, back.
    pub fn dealloc(&mut self, pid: usize)
        requires
            old(self).wf(),
            old(self).in_use(pid as int),
        ensures
            final(self).wf(),
            final(self).current == old(self).current,
            final(self).recycled@ == old(self).recycled@.push(pid),
            !final(self).in_use(pid as int),
            forall|p: int| p != pid ==> #[trigger] final(self).in_use(p) == old(self).in_use(p),
    {
        self.recycled.push(pid);
        proof {
            let r = self.recycled@;
            assert(r[r.len() - 1] == pid);
            assert forall|p: int| p != pid implies #[trigger] self.in_use(p) == old(self).in_use(p) by {
                if 0 <= p < self.current {
                    if r.contains(p as usize) {
                        let k = choose|k: int| 0 <= k < r.len() && r[k] == p as usize;
                        assert(k < r.len() - 1);
                        assert(old(self).recycled@[k] == p as usize);
                    }
                    if old(self).recycled@.contains(p as usize) {
                        let k = choose|k: int| 0 <= k < old(self).recycled@.len() && old(self).recycled@[k] == p as usize;
                        assert(r[k] == p as usize);
                    }
                }
            }
        }
    }
}

/// Two identifiers allocated one after the other, with no release in
/// between, differ.
pub proof fn law_alloc_distinct(a0: PidAllocator, a1: PidAllocator, a2: PidAllocator, p1: int, p2: int)
    requires
        a0.wf(),
        !a0.in_use(p1),
        a1.in_use(p1),
        forall|p: int| p != p1 ==> #[trigger] a1.in_use(p) == a0.in_use(p),
        !a1.in_use(p2),
        a2.in_use(p2),
    ensures
        p1 != p2,
        a2.in_use(p2),
{
}

/// From a new allocator, with nothing given back, the identifiers come out
/// as 0, 1, 2, ...: the `k`-th allocation hands out `k - 1`.
pub proof fn law_fresh_pids_count_up(allocs: Seq<PidAllocator>, pids: Seq<int>)
    requires
        allocs.len() == pids.len() + 1,
        allocs[0].current == 0,
        allocs[0].recycled@.len() == 0,
        forall|i: int| 0 <= i < pids.len() ==> #[trigger] alloc_step(allocs[i], allocs[i + 1], pids[i]),
    ensures
        forall|i: int| 0 <= i < pids.len() ==> #[trigger] pids[i] == i,
{
    lemma_fresh_counter(allocs, pids, pids.len() as int);
    assert forall|i: int| 0 <= i < pids.len() implies #[trigger] pids[i] == i by {
        lemma_fresh_counter(allocs, pids, i);
        assert(alloc_step(allocs[i], allocs[i + 1], pids[i]));
    }
}

/// After `n` such allocations the counter is `n` and nothing is recycled.
proof fn lemma_fresh_counter(allocs: Seq<PidAllocator>, pids: Seq<int>, n: int)
    requires
        0 <= n <= pids.len(),
        allocs.len() == pids.len() + 1,
        allocs[0].current == 0,
        allocs[0].recycled@.len() == 0,
        forall|i: int| 0 <= i < pids.len() ==> #[trigger] alloc_step(allocs[i], allocs[i + 1], pids[i]),
    ensures
        allocs[n].current == n,
        allocs[n].recycled@.len() == 0,
    decreases n,
{
    if n > 0 {
        let j = n - 1;
        lemma_fresh_counter(allocs, pids, j);
        assert(alloc_step(allocs[j], allocs[j + 1], pids[j]));
        assert(j + 1 == n);
    }
}

} // verus!
