//! Ending an address space: its pages are unmapped and every frame that it
//! owns goes back to the pool.

use vstd::prelude::*;

use super::address::VirtPageNum;
use super::memory::{FrameTracker, PhysMemory};
use super::set::{MapArea, MemorySet};
use super::table::{PageTable, leaf, lemma_key_indexes, vpn_key};

verus! {

/// Frame `p` is recorded for one of the pages of area `a` below `upto`.
pub open spec fn area_owns(a: MapArea, p: int, upto: int) -> bool {
    exists|w: int|
        a.range.start.0 <= w < upto && #[trigger] a.allocated@.contains_key(w as usize) && a.allocated@[w as usize].ppn.0
            == p
}

/// Frame `p` is recorded for a page of one of the first `n` areas.
pub open spec fn areas_own(areas: Seq<MapArea>, n: int, p: int) -> bool {
    exists|j: int| 0 <= j < n && area_owns(#[trigger] areas[j], p, areas[j].range.end.0 as int)
}

/// Frame `p` is one of the first `n` frames of the table.
pub open spec fn table_owns(frames: Seq<FrameTracker>, n: int, p: int) -> bool {
    exists|j: int| 0 <= j < n && (#[trigger] frames[j]).ppn.0 == p
}

/// Page `v` is translated like a page below `upto` that area `a` records.
pub open spec fn area_clears(a: MapArea, upto: int, v: int) -> bool {
    exists|w: int|
        a.range.start.0 <= w < upto && #[trigger] a.allocated@.contains_key(w as usize) && vpn_key(w) == vpn_key(v)
}

/// Page `v` is translated like a page that one of the first `n` areas
/// records.
pub open spec fn areas_clear(areas: Seq<MapArea>, n: int, v: int) -> bool {
    exists|j: int| 0 <= j < n && area_clears(#[trigger] areas[j], areas[j].range.end.0 as int, v)
}

/// Two pages translated alike have the same leaf.
proof fn lemma_leaf_by_key(m: PhysMemory, root: int, a: int, b: int)
    requires
        a >= 0,
        b >= 0,
        vpn_key(a) == vpn_key(b),
    ensures
        leaf(m, root, a) == leaf(m, root, b),
{
    lemma_key_indexes(a, b);
}

/// One more page of area `a` adds that page's key to what it clears.
proof fn lemma_clears_step(a: MapArea, v: int, w: int)
    requires
        a.range.start.0 <= v,
        v >= 0,
    ensures
        area_clears(a, v + 1, w) == (area_clears(a, v, w) || (a.allocated@.contains_key(v as usize)
            && vpn_key(w) == vpn_key(v))),
{
    if area_clears(a, v + 1, w) {
        let x = choose|x: int|
            a.range.start.0 <= x < v + 1 && #[trigger] a.allocated@.contains_key(x as usize) && vpn_key(x) == vpn_key(w);
        if x < v {
            assert(area_clears(a, v, w));
        }
    }
    if area_clears(a, v, w) {
        let x = choose|x: int|
            a.range.start.0 <= x < v && #[trigger] a.allocated@.contains_key(x as usize) && vpn_key(x) == vpn_key(w);
        assert(a.range.start.0 <= x < v + 1);
    }
    if a.allocated@.contains_key(v as usize) && vpn_key(w) == vpn_key(v) {
        assert(a.range.start.0 <= v < v + 1);
    }
}

/// Past the end of area `a`, what it clears up to the cursor is what it
/// clears in all.
proof fn lemma_clears_upto(a: MapArea, v: int, w: int)
    requires
        v >= a.range.end.0,
        v <= a.range.end.0 || v == a.range.start.0,
    ensures
        area_clears(a, v, w) == area_clears(a, a.range.end.0 as int, w),
{
    if area_clears(a, v, w) {
        let x = choose|x: int|
            a.range.start.0 <= x < v && #[trigger] a.allocated@.contains_key(x as usize) && vpn_key(x) == vpn_key(w);
        assert(a.range.start.0 <= x < a.range.end.0);
    }
    if area_clears(a, a.range.end.0 as int, w) {
        let x = choose|x: int|
            a.range.start.0 <= x < a.range.end.0 && #[trigger] a.allocated@.contains_key(x as usize) && vpn_key(x)
                == vpn_key(w);
        assert(a.range.start.0 <= x < v);
    }
}

/// One more area adds what it clears.
proof fn lemma_areas_clear_step(areas: Seq<MapArea>, i: int, w: int)
    requires
        0 <= i < areas.len(),
    ensures
        areas_clear(areas, i + 1, w) == (areas_clear(areas, i, w) || area_clears(
            areas[i],
            areas[i].range.end.0 as int,
            w,
        )),
{
    if areas_clear(areas, i + 1, w) {
        let j = choose|j: int| 0 <= j < i + 1 && area_clears(#[trigger] areas[j], areas[j].range.end.0 as int, w);
        if j < i {
            assert(areas_clear(areas, i, w));
        }
    }
    if areas_clear(areas, i, w) {
        let j = choose|j: int| 0 <= j < i && area_clears(#[trigger] areas[j], areas[j].range.end.0 as int, w);
        assert(0 <= j < i + 1);
    }
}

impl MemorySet {
    /// The frames that the address space owns: those recorded for the pages
    /// of its areas and those that its table was built from.
    pub open spec fn owns(&self, p: int) -> bool {
        ||| areas_own(self.areas@, self.areas@.len() as int, p)
        ||| table_owns(self.table.frames@, self.table.frames@.len() as int, p)
    }

    /// Unmaps the recorded pages of the areas: afterwards no page translated
    /// like a page recorded in an area is mapped, and every other page is
    /// mapped as before.
    fn unmap_recorded(&mut self, mem: &mut PhysMemory)
        requires
            old(self).table.wf(&*old(mem)),
        ensures
            final(self).table.wf(&*final(mem)),
            final(self).areas == old(self).areas,
            final(self).table.frames == old(self).table.frames,
            final(self).table.root == old(self).table.root,
            final(mem).base == old(mem).base,
            final(mem).current == old(mem).current,
            final(mem).end == old(mem).end,
            forall|p: int| #[trigger] final(mem).allocated(p) == old(mem).allocated(p),
            forall|p: int, o: int| !old(self).table.is_node(p) ==> #[trigger] final(mem).byte(p, o) == old(mem).byte(p, o),
            forall|v: int|
                v >= 0 ==> #[trigger] leaf(*final(mem), old(self).table.root.0 as int, v) == if areas_clear(
                    old(self).areas@,
                    old(self).areas@.len() as int,
                    v,
                ) {
                    None
                } else {
                    leaf(*old(mem), old(self).table.root.0 as int, v)
                },
    {
        let ghost t0 = self.table;
        let ghost m0 = *mem;
        let ghost areas = self.areas@;
        let ghost root = self.table.root.0 as int;
        let n = self.areas.len();
        let mut i: usize = 0;
        while i < n
            invariant
                n == self.areas@.len(),
                areas == self.areas@,
                i <= n,
                self.table.wf(&*mem),
                self.areas == old(self).areas,
                self.table.frames == t0.frames,
                self.table.root == t0.root,
                root == t0.root.0,
                forall|p: int| #[trigger] t0.is_node(p) ==> self.table.is_node(p),
                forall|p: int| #[trigger] self.table.is_node(p) ==> t0.is_node(p),
                mem.base == m0.base,
                mem.current == m0.current,
                mem.end == m0.end,
                forall|p: int| #[trigger] mem.allocated(p) == m0.allocated(p),
                forall|p: int, o: int| !t0.is_node(p) ==> #[trigger] mem.byte(p, o) == m0.byte(p, o),
                forall|w: int|
                    w >= 0 ==> #[trigger] leaf(*mem, root, w) == if areas_clear(areas, i as int, w) {
                        None
                    } else {
                        leaf(m0, root, w)
                    },
            decreases n - i,
        {
            let start = self.areas[i].range.start.0;
            let end = self.areas[i].range.end.0;
            let ghost a = areas[i as int];
            let mut v: usize = start;
            while v < end
                invariant
                    n == self.areas@.len(),
                    areas == self.areas@,
                    i < n,
                    a == areas[i as int],
                    start == a.range.start.0,
                    end == a.range.end.0,
                    start <= v,
                    v <= end || v == start,
                    self.table.wf(&*mem),
                    self.areas == old(self).areas,
                    self.table.frames == t0.frames,
                    self.table.root == t0.root,
                    root == t0.root.0,
                    forall|p: int| #[trigger] t0.is_node(p) ==> self.table.is_node(p),
                    forall|p: int| #[trigger] self.table.is_node(p) ==> t0.is_node(p),
                    mem.base == m0.base,
                    mem.current == m0.current,
                    mem.end == m0.end,
                    forall|p: int| #[trigger] mem.allocated(p) == m0.allocated(p),
                    forall|p: int, o: int| !t0.is_node(p) ==> #[trigger] mem.byte(p, o) == m0.byte(p, o),
                    forall|w: int|
                        w >= 0 ==> #[trigger] leaf(*mem, root, w) == if areas_clear(areas, i as int, w)
                            || area_clears(a, v as int, w) {
                            None
                        } else {
                            leaf(m0, root, w)
                        },
                decreases end - v,
            {
                let ghost mb = *mem;
                let ghost vi = v as int;
                let recorded = self.areas[i].allocated.contains_key(&v);
                if recorded {
                    match self.table.translate(mem, VirtPageNum(v)) {
                        Some(e) => {
                            if e.is_valid() {
                                let ghost tb = self.table;
                                proof {
                                    assert(leaf(*mem, self.table.root.0 as int, v as int).is_some());
                                }
                                self.table.unmap(mem, VirtPageNum(v));
                                proof {
                                    assert forall|p: int| #[trigger] self.table.is_node(p) implies t0.is_node(p) by {
                                        assert(tb.is_node(p));
                                    }
                                    assert forall|p: int, o: int| !t0.is_node(p) implies #[trigger] mem.byte(p, o) == m0.byte(p, o) by {
                                        assert(!self.table.node_set().contains(p));
                                        assert(mem.byte(p, o) == mb.byte(p, o));
                                    }
                                }
                            } else {
                                proof {
                                    assert(leaf(*mem, root, vi).is_none());
                                }
                            }
                        },
                        None => {
                            proof {
                                assert(leaf(*mem, root, vi).is_none());
                            }
                        },
                    }
                }
                proof {
                    assert(a.allocated@.contains_key(v) == recorded);
                    assert forall|w: int| w >= 0 implies #[trigger] leaf(*mem, root, w) == if areas_clear(areas, i as int, w)
                        || area_clears(a, vi + 1, w) {
                        None
                    } else {
                        leaf(m0, root, w)
                    } by {
                        lemma_clears_step(a, vi, w);
                        if recorded && vpn_key(w) == vpn_key(vi) {
                            lemma_leaf_by_key(mb, root, w, vi);
                            lemma_leaf_by_key(*mem, root, w, vi);
                        }
                    }
                }
                v = v + 1;
            }
            proof {
                assert forall|w: int| w >= 0 implies #[trigger] leaf(*mem, root, w) == if areas_clear(areas, i + 1, w) {
                    None
                } else {
                    leaf(m0, root, w)
                } by {
                    lemma_areas_clear_step(areas, i as int, w);
                    lemma_clears_upto(a, v as int, w);
                }
            }
            i = i + 1;
        }
    }

    /// Gives back every frame that the address space owns and that is in
    /// use, after unmapping the recorded pages of its areas; no other frame
    /// changes hands, and only the table's nodes are written.
    pub fn release(self, mem: &mut PhysMemory)
        requires
            self.table.wf(&*old(mem)),
        ensures
            final(mem).wf(),
            final(mem).base == old(mem).base,
            final(mem).current == old(mem).current,
            final(mem).end == old(mem).end,
            forall|p: int| #[trigger] final(mem).allocated(p) == (old(mem).allocated(p) && !self.owns(p)),
            forall|p: int, o: int| !self.table.is_node(p) ==> #[trigger] final(mem).byte(p, o) == old(mem).byte(p, o),
    {
        let ghost m0 = *mem;
        let ghost s0 = self;
        let mut set = self;
        set.unmap_recorded(mem);
        let ghost m1 = *mem;
        let n = set.areas.len();
        let mut i: usize = 0;
        while i < n
            invariant
                n == s0.areas@.len(),
                i <= n,
                set.areas == s0.areas,
                mem.wf(),
                mem.base == m0.base,
                mem.current == m0.current,
                mem.end == m0.end,
                forall|p: int, o: int| #[trigger] mem.byte(p, o) == m1.byte(p, o),
                forall|p: int| #[trigger] mem.allocated(p) == (m1.allocated(p) && !areas_own(s0.areas@, i as int, p)),
            decreases n - i,
        {
            let start = set.areas[i].range.start.0;
            let end = set.areas[i].range.end.0;
            let ghost a = s0.areas@[i as int];
            let mut v: usize = start;
            while v < end
                invariant
                    n == s0.areas@.len(),
                    i < n,
                    a == s0.areas@[i as int],
                    start == a.range.start.0,
                    end == a.range.end.0,
                    start <= v,
                    v <= end || v == start,
                    set.areas == s0.areas,
                    mem.wf(),
                    mem.base == m0.base,
                    mem.current == m0.current,
                    mem.end == m0.end,
                    forall|p: int, o: int| #[trigger] mem.byte(p, o) == m1.byte(p, o),
                    forall|p: int|
                        #[trigger] mem.allocated(p) == (m1.allocated(p) && !areas_own(s0.areas@, i as int, p)
                            && !area_owns(a, p, v as int)),
                decreases end - v,
            {
                let ghost mb = *mem;
                match set.areas[i].allocated.get(&v) {
                    Some(f) => {
                        let ppn = f.ppn();
                        let ghost fp = ppn.0 as int;
                        proof {
                            assert(a.allocated@.contains_key(v) && a.allocated@[v].ppn.0 == fp);
                        }
                        if mem.is_allocated(ppn.0) {
                            mem.frame_dealloc(ppn);
                        }
                        proof {
                            assert forall|p: int, o: int| #[trigger] mem.byte(p, o) == m1.byte(p, o) by {
                                assert(mem.byte(p, o) == mb.byte(p, o));
                            }
                            assert(a.allocated@.contains_key((v as int) as usize));
                            assert forall|p: int|
                                #[trigger] mem.allocated(p) == (m1.allocated(p) && !areas_own(s0.areas@, i as int, p)
                                    && !area_owns(a, p, v + 1)) by {
                                if p == fp {
                                    assert(area_owns(a, p, v + 1));
                                } else {
                                    assert(mem.allocated(p) == mb.allocated(p));
                                    if area_owns(a, p, v + 1) {
                                        let w = choose|w: int|
                                            a.range.start.0 <= w < v + 1 && #[trigger] a.allocated@.contains_key(w as usize)
                                                && a.allocated@[w as usize].ppn.0 == p;
                                        assert(w != v);
                                        assert(area_owns(a, p, v as int));
                                    }
                                }
                            }
                        }
                    },
                    None => {
                        proof {
                            assert forall|p: int|
                                #[trigger] mem.allocated(p) == (m1.allocated(p) && !areas_own(s0.areas@, i as int, p)
                                    && !area_owns(a, p, v + 1)) by {
                                if area_owns(a, p, v + 1) {
                                    let w = choose|w: int|
                                        a.range.start.0 <= w < v + 1 && #[trigger] a.allocated@.contains_key(w as usize)
                                            && a.allocated@[w as usize].ppn.0 == p;
                                    assert(w != v);
                                    assert(area_owns(a, p, v as int));
                                }
                            }
                        }
                    },
                }
                v = v + 1;
            }
            proof {
                assert forall|p: int|
                    #[trigger] mem.allocated(p) == (m1.allocated(p) && !areas_own(s0.areas@, i + 1, p)) by {
                    if areas_own(s0.areas@, i + 1, p) && !areas_own(s0.areas@, i as int, p) {
                        let j = choose|j: int| 0 <= j < i + 1 && area_owns(#[trigger] s0.areas@[j], p, s0.areas@[j].range.end.0 as int);
                        assert(j == i);
                    }
                    if area_owns(a, p, end as int) {
                        assert(areas_own(s0.areas@, i + 1, p));
                    }
                }
            }
            i = i + 1;
        }
        let ghost m2 = *mem;
        let k = set.table.frames.len();
        let mut j: usize = 0;
        while j < k
            invariant
                k == s0.table.frames@.len(),
                j <= k,
                set.table.frames == s0.table.frames,
                mem.wf(),
                mem.base == m0.base,
                mem.current == m0.current,
                mem.end == m0.end,
                forall|p: int, o: int| #[trigger] mem.byte(p, o) == m1.byte(p, o),
                forall|p: int| #[trigger] mem.allocated(p) == (m2.allocated(p) && !table_owns(s0.table.frames@, j as int, p)),
            decreases k - j,
        {
            let ppn = set.table.frames[j].ppn();
            let ghost mb = *mem;
            if mem.is_allocated(ppn.0) {
                mem.frame_dealloc(ppn);
            }
            proof {
                assert forall|p: int, o: int| #[trigger] mem.byte(p, o) == m1.byte(p, o) by {
                    assert(mem.byte(p, o) == mb.byte(p, o));
                }
                assert forall|p: int| #[trigger] mem.allocated(p) == (m2.allocated(p) && !table_owns(s0.table.frames@, j + 1, p)) by {
                    if p == ppn.0 {
                        assert(table_owns(s0.table.frames@, j + 1, p));
                    } else {
                        assert(mem.allocated(p) == mb.allocated(p));
                        if table_owns(s0.table.frames@, j + 1, p) {
                            let x = choose|x: int| 0 <= x < j + 1 && (#[trigger] s0.table.frames@[x]).ppn.0 == p;
                            assert(x != j);
                        }
                    }
                }
            }
            j = j + 1;
        }
    }
}

/// Ending a copy of an address space right after making it leaves in use
/// exactly the frames that were in use before the copy was made.
pub proof fn law_release_undoes_clone(
    source: MemorySet,
    m0: PhysMemory,
    copy: MemorySet,
    m1: PhysMemory,
    m2: PhysMemory,
)
    requires
        source.copied(m0, copy, m1),
        forall|p: int| #[trigger] m2.allocated(p) == (m1.allocated(p) && !copy.owns(p)),
    ensures
        forall|p: int| #[trigger] m2.allocated(p) == m0.allocated(p),
{
    assert forall|p: int| #[trigger] m2.allocated(p) == m0.allocated(p) by {
        assert(m1.allocated(p) == (m0.allocated(p) || copy.owns(p)));
        if copy.owns(p) {
            assert(!m0.allocated(p));
        }
    }
}

} // verus!
