//! Copying an address space: every area mapped again into a fresh table,
//! the frames of `Alloc` areas fresh too and holding what the copied
//! frames hold.

use vstd::prelude::*;

use std::collections::BTreeMap;

use super::address::{VPNRange, VirtPageNum};
use super::memory::PhysMemory;
use super::pte::{PPN_LIMIT, spec_pte};
use super::set::{
    MapArea, MapType, MemorySet, changed_only, frames_distinct, frames_upto,
    lemma_changed_keeps, lemma_range_offset, lemma_spec_pte_ppn, page_frame, pages_hold, pages_mapped,
    range_offset,
};
use super::table::{PageTable, VPN_SPACE, leaf};
use super::release::{area_owns, areas_own, table_owns};

verus! {

/// No page of area `a` is translated like a page of area `b`.
pub open spec fn areas_apart(a: MapArea, b: MapArea) -> bool {
    forall|v: int|
        a.range.start.0 <= v < a.range.end.0 ==> #[trigger] range_offset(b.range.start.0 as int, v) >= b.pages()
}

/// The area's range is ordered, fits the translated page numbers, and an
/// `Identical` area names frames that exist.
pub open spec fn area_sane(a: MapArea) -> bool {
    &&& a.range.start.0 <= a.range.end.0
    &&& a.pages() <= VPN_SPACE
    &&& a.mtype == MapType::Identical ==> a.range.end.0 <= PPN_LIMIT
}

/// Each page of an `Alloc` area is mapped in table `t` to a frame in use.
pub open spec fn area_backed(t: PageTable, m: PhysMemory, a: MapArea) -> bool {
    a.mtype == MapType::Alloc ==> forall|v: int|
        a.range.start.0 <= v < a.range.end.0 ==> {
            &&& #[trigger] leaf(m, t.root.0 as int, v).is_some()
            &&& m.allocated(page_frame(m, t, v))
        }
}

/// Number of pages of the first `n` areas.
pub open spec fn total_pages(areas: Seq<MapArea>, n: int) -> int
    decreases n,
{
    if n <= 0 {
        0
    } else {
        total_pages(areas, n - 1) + areas[n - 1].pages()
    }
}

/// Page `v` is translated like none of the pages of the first `n` areas.
pub open spec fn outside_first(areas: Seq<MapArea>, n: int, v: int) -> bool {
    forall|j: int| 0 <= j < n ==> #[trigger] range_offset(areas[j].range.start.0 as int, v) >= areas[j].pages()
}

/// Area `a` of table `t0` in memory `m0` is copied into table `t1` of
/// memory `m1`: an `Identical` page is mapped to itself, an `Alloc` page to
/// a frame in use, no node, not in use in `m0`, that holds what the page's
/// frame in `t0` holds; both with the area's rights.
pub open spec fn area_cloned(t0: PageTable, m0: PhysMemory, t1: PageTable, m1: PhysMemory, a: MapArea) -> bool {
    let fl = a.permission.bits;
    forall|v: int|
        #![trigger leaf(m1, t1.root.0 as int, v)]
        a.range.start.0 <= v < a.range.end.0 ==> if a.mtype == MapType::Identical {
            leaf(m1, t1.root.0 as int, v) == Some(spec_pte(v, fl | 1))
        } else {
            &&& leaf(m1, t1.root.0 as int, v) == Some(spec_pte(page_frame(m1, t1, v), fl | 1))
            &&& m1.allocated(page_frame(m1, t1, v))
            &&& !t1.is_node(page_frame(m1, t1, v))
            &&& !m0.allocated(page_frame(m1, t1, v))
            &&& m1.frame(page_frame(m1, t1, v)) == m0.frame(page_frame(m0, t0, v))
        }
}

/// Every frame in use in `m0` is still in use in `m` and holds what it held.
pub open spec fn frozen(m0: PhysMemory, m: PhysMemory) -> bool {
    forall|p: int| #[trigger] m0.allocated(p) ==> m.allocated(p) && m.frame(p) == m0.frame(p)
}

/// No node of table `t` was in use in `m0`.
pub open spec fn fresh_nodes(t: PageTable, m0: PhysMemory) -> bool {
    forall|p: int| #[trigger] t.is_node(p) ==> !m0.allocated(p)
}

/// The frames of the pages of `Alloc` area `a` in table `t` are among `cs`.
pub open spec fn area_in(t: PageTable, m: PhysMemory, a: MapArea, cs: Set<int>) -> bool {
    a.mtype == MapType::Alloc ==> forall|v: int|
        a.range.start.0 <= v < a.range.end.0 ==> cs.contains(#[trigger] page_frame(m, t, v))
}

/// The frames that placing area `a` wrote besides table nodes.
pub open spec fn placed_frames(a: MapArea) -> Set<int> {
    match a.mtype {
        MapType::Identical => Set::empty(),
        MapType::Alloc => frames_upto(a.allocated@, a.range.start.0 as int, a.range.end.0 as int),
    }
}

/// The number of pages of the first `n` areas grows with `n`.
proof fn lemma_total_pages_grows(areas: Seq<MapArea>, i: int, n: int)
    requires
        0 <= i <= n <= areas.len(),
        forall|j: int| 0 <= j < areas.len() ==> area_sane(#[trigger] areas[j]),
    ensures
        total_pages(areas, i) <= total_pages(areas, n),
    decreases n - i,
{
    if i < n {
        lemma_total_pages_grows(areas, i, n - 1);
        assert(area_sane(areas[n - 1]));
    }
}

/// What placing an area leaves of the mappings outside it and of the
/// frames in use before.
proof fn lemma_placed_outside(a: MapArea, t1: PageTable, m1: PhysMemory, t2: PageTable, m2: PhysMemory)
    requires
        a.placed(t1, m1, t2, m2, Seq::empty()),
    ensures
        changed_only(&t1, &t2, &m1, &m2, placed_frames(a)),
        forall|v: int|
            v >= 0 && range_offset(a.range.start.0 as int, v) >= a.pages() ==> #[trigger] leaf(
                m2,
                t2.root.0 as int,
                v,
            ) == leaf(m1, t1.root.0 as int, v),
{
    let start = a.range.start.0 as int;
    let end = a.range.end.0 as int;
    assert forall|v: int|
        v >= 0 && range_offset(start, v) >= a.pages() implies #[trigger] leaf(m2, t2.root.0 as int, v) == leaf(
        m1,
        t1.root.0 as int,
        v,
    ) by {
        if a.mtype == MapType::Alloc {
            assert(pages_mapped(t1, m1, t2, m2, a.allocated@, start, end, a.permission.bits));
        }
    }
}

/// Placing area `a` after the first `i` areas keeps what was cloned of
/// them, the frames in use in `m0`, and the freshness of the new nodes.
proof fn lemma_push_keeps(
    t0: PageTable,
    m0: PhysMemory,
    areas: Seq<MapArea>,
    i: int,
    a: MapArea,
    cs: Set<int>,
    t1: PageTable,
    m1: PhysMemory,
    t2: PageTable,
    m2: PhysMemory,
)
    requires
        0 <= i < areas.len(),
        a.range.start == areas[i].range.start,
        a.range.end == areas[i].range.end,
        a.placed(t1, m1, t2, m2, Seq::empty()),
        forall|j: int| 0 <= j < i ==> areas_apart(#[trigger] areas[j], areas[i]),
        forall|j: int| 0 <= j < i ==> area_cloned(t0, m0, t1, m1, #[trigger] areas[j]),
        forall|j: int| 0 <= j < i ==> area_in(t1, m1, #[trigger] areas[j], cs),
        forall|p: int| #[trigger] cs.contains(p) ==> m1.allocated(p),
        frozen(m0, m1),
        fresh_nodes(t1, m0),
        forall|v: int| v >= 0 && outside_first(areas, i, v) ==> #[trigger] leaf(m1, t1.root.0 as int, v).is_none(),
    ensures
        forall|j: int| 0 <= j < i ==> area_cloned(t0, m0, t2, m2, #[trigger] areas[j]),
        forall|j: int| 0 <= j < i ==> area_in(t2, m2, #[trigger] areas[j], cs),
        forall|p: int| #[trigger] cs.contains(p) ==> m2.allocated(p),
        frozen(m0, m2),
        fresh_nodes(t2, m0),
        forall|v: int| v >= 0 && outside_first(areas, i + 1, v) ==> #[trigger] leaf(m2, t2.root.0 as int, v).is_none(),
        forall|p: int| #[trigger] m2.allocated(p) ==> m1.allocated(p) || t2.is_node(p) || placed_frames(a).contains(p),
        forall|p: int| #[trigger] placed_frames(a).contains(p) ==> !m1.allocated(p),
{
    lemma_placed_outside(a, t1, m1, t2, m2);
    let d = placed_frames(a);
    lemma_changed_keeps(t1, m1, t2, m2, d);
    assert forall|j: int| 0 <= j < i implies area_cloned(t0, m0, t2, m2, #[trigger] areas[j]) && area_in(t2, m2, areas[j], cs) by {
        let b = areas[j];
        assert(areas_apart(b, areas[i]));
        assert(area_cloned(t0, m0, t1, m1, b));
        assert(area_in(t1, m1, b, cs));
        assert forall|v: int| b.range.start.0 <= v < b.range.end.0 implies #[trigger] leaf(m2, t2.root.0 as int, v)
            == leaf(m1, t1.root.0 as int, v) by {
            assert(range_offset(areas[i].range.start.0 as int, v) >= areas[i].pages());
        }
        let fl = b.permission.bits;
        assert forall|v: int|
            #![trigger leaf(m2, t2.root.0 as int, v)]
            b.range.start.0 <= v < b.range.end.0 implies if b.mtype == MapType::Identical {
                leaf(m2, t2.root.0 as int, v) == Some(spec_pte(v, fl | 1))
            } else {
                &&& leaf(m2, t2.root.0 as int, v) == Some(spec_pte(page_frame(m2, t2, v), fl | 1))
                &&& m2.allocated(page_frame(m2, t2, v))
                &&& !t2.is_node(page_frame(m2, t2, v))
                &&& !m0.allocated(page_frame(m2, t2, v))
                &&& m2.frame(page_frame(m2, t2, v)) == m0.frame(page_frame(m0, t0, v))
            } by {
            assert(leaf(m1, t1.root.0 as int, v) == leaf(m2, t2.root.0 as int, v));
            if b.mtype == MapType::Alloc {
                let f = page_frame(m1, t1, v);
                assert(m1.allocated(f) && !t1.is_node(f));
            }
        }
        if b.mtype == MapType::Alloc {
            assert forall|v: int| b.range.start.0 <= v < b.range.end.0 implies cs.contains(#[trigger] page_frame(m2, t2, v)) by {
                assert(leaf(m1, t1.root.0 as int, v) == leaf(m2, t2.root.0 as int, v));
                assert(cs.contains(page_frame(m1, t1, v)));
            }
        }
    }
    assert forall|p: int| #[trigger] m0.allocated(p) implies m2.allocated(p) && m2.frame(p) == m0.frame(p) by {
        assert(m1.allocated(p));
        assert(!t1.is_node(p));
    }
    assert forall|p: int| #[trigger] t2.is_node(p) implies !m0.allocated(p) by {
        if m0.allocated(p) {
            assert(m1.allocated(p));
            assert(t1.is_node(p));
        }
    }
    assert forall|v: int| v >= 0 && outside_first(areas, i + 1, v) implies #[trigger] leaf(m2, t2.root.0 as int, v).is_none() by {
        assert(range_offset(areas[i].range.start.0 as int, v) >= areas[i].pages());
        assert(outside_first(areas, i, v));
    }
}

/// The frames in use in `m` are those in use in `m0` and those that `s`
/// owns, none of which was in use in `m0`.
#[verifier::opaque]
pub open spec fn owned_in_use(m0: PhysMemory, m: PhysMemory, s: MemorySet) -> bool {
    &&& forall|p: int| #[trigger] m.allocated(p) == (m0.allocated(p) || s.owns(p))
    &&& forall|p: int| #[trigger] s.owns(p) ==> !m0.allocated(p)
}

/// Which frames are in use depends only on the allocator's counters and
/// its recycled list.
proof fn lemma_owned_same_alloc(m0: PhysMemory, m: PhysMemory, m_new: PhysMemory, s: MemorySet)
    requires
        owned_in_use(m0, m, s),
        m_new.base == m.base,
        m_new.current == m.current,
        m_new.recycled@ == m.recycled@,
    ensures
        owned_in_use(m0, m_new, s),
{
    reveal(owned_in_use);
    assert forall|p: int| #[trigger] m_new.allocated(p) == (m0.allocated(p) || s.owns(p)) by {
        assert(m_new.allocated(p) == m.allocated(p));
    }
}

/// Pushing area `a` onto address space `s1`, giving `s2`, puts in use
/// exactly the frames that `s2` owns beyond those of `s1`, none of which
/// was in use in `m0`.
proof fn lemma_push_owned(
    s1: MemorySet,
    s2: MemorySet,
    a: MapArea,
    m0: PhysMemory,
    m1: PhysMemory,
    m2: PhysMemory,
)
    requires
        s2.areas@.len() == s1.areas@.len() + 1,
        forall|j: int| 0 <= j < s1.areas@.len() ==> #[trigger] s2.areas@[j] == s1.areas@[j],
        s2.areas@[s1.areas@.len() as int] == a,
        a.placed(s1.table, m1, s2.table, m2, Seq::empty()),
        a.mtype == MapType::Identical ==> a.allocated@ == Map::<usize, super::memory::FrameTracker>::empty(),
        s1.table.nodes_recorded(),
        s2.table.nodes_recorded(),
        owned_in_use(m0, m1, s1),
    ensures
        owned_in_use(m0, m2, s2),
{
    reveal(owned_in_use);
    let i = s1.areas@.len() as int;
    let start = a.range.start.0 as int;
    let end = a.range.end.0 as int;
    lemma_placed_outside(a, s1.table, m1, s2.table, m2);
    let d = placed_frames(a);
    assert forall|p: int| d.contains(p) == area_owns(a, p, end) by {
        if a.mtype == MapType::Identical {
            if area_owns(a, p, end) {
                let w = choose|w: int|
                    a.range.start.0 <= w < end && #[trigger] a.allocated@.contains_key(w as usize)
                        && a.allocated@[w as usize].ppn.0 == p;
            }
        }
    }
    assert forall|p: int| areas_own(s2.areas@, i + 1, p) == (areas_own(s1.areas@, i, p) || area_owns(a, p, end)) by {
        if areas_own(s2.areas@, i + 1, p) {
            let j = choose|j: int| 0 <= j < i + 1 && area_owns(#[trigger] s2.areas@[j], p, s2.areas@[j].range.end.0 as int);
            if j < i {
                assert(s1.areas@[j] == s2.areas@[j]);
            }
        }
        if areas_own(s1.areas@, i, p) {
            let j = choose|j: int| 0 <= j < i && area_owns(#[trigger] s1.areas@[j], p, s1.areas@[j].range.end.0 as int);
            assert(s1.areas@[j] == s2.areas@[j]);
        }
        if area_owns(a, p, end) {
            assert(area_owns(s2.areas@[i], p, s2.areas@[i].range.end.0 as int));
        }
    }
    assert forall|p: int| table_owns(s1.table.frames@, s1.table.frames@.len() as int, p) == s1.table.is_node(p) by {
        if table_owns(s1.table.frames@, s1.table.frames@.len() as int, p) {
            let j = choose|j: int| 0 <= j < s1.table.frames@.len() && (#[trigger] s1.table.frames@[j]).ppn.0 == p;
        }
    }
    assert forall|p: int| table_owns(s2.table.frames@, s2.table.frames@.len() as int, p) == s2.table.is_node(p) by {
        if table_owns(s2.table.frames@, s2.table.frames@.len() as int, p) {
            let j = choose|j: int| 0 <= j < s2.table.frames@.len() && (#[trigger] s2.table.frames@[j]).ppn.0 == p;
        }
    }
    assert forall|p: int| #[trigger] m2.allocated(p) == (m0.allocated(p) || s2.owns(p)) by {
        assert(m2.allocated(p) == (m1.allocated(p) || (s2.table.is_node(p) && !s1.table.is_node(p)) || d.contains(p)));
        assert(m1.allocated(p) == (m0.allocated(p) || s1.owns(p)));
        if s1.table.is_node(p) {
            assert(s2.table.is_node(p));
        }
    }
    assert forall|p: int| #[trigger] s2.owns(p) implies !m0.allocated(p) by {
        if m0.allocated(p) {
            assert(m1.allocated(p));
            if s1.owns(p) {
            } else if s2.table.is_node(p) && !s1.table.is_node(p) {
            } else {
                assert(d.contains(p));
            }
        }
    }
}

/// Writing frame `dst`, which is no frame of the cloned pages of area `a`
/// nor a node of `t`, leaves what was cloned of `a` as it was.
proof fn lemma_write_keeps(
    t0: PageTable,
    m0: PhysMemory,
    t: PageTable,
    m: PhysMemory,
    m_new: PhysMemory,
    a: MapArea,
    cs: Set<int>,
    dst: int,
)
    requires
        area_cloned(t0, m0, t, m, a),
        area_in(t, m, a, cs),
        !cs.contains(dst),
        m.same_except(&m_new, set![dst]),
        forall|p: int| #[trigger] m_new.allocated(p) == m.allocated(p),
        forall|v: int| v >= 0 ==> #[trigger] leaf(m_new, t.root.0 as int, v) == leaf(m, t.root.0 as int, v),
    ensures
        area_cloned(t0, m0, t, m_new, a),
        area_in(t, m_new, a, cs),
{
    let fl = a.permission.bits;
    assert forall|v: int|
        #![trigger leaf(m_new, t.root.0 as int, v)]
        a.range.start.0 <= v < a.range.end.0 implies if a.mtype == MapType::Identical {
            leaf(m_new, t.root.0 as int, v) == Some(spec_pte(v, fl | 1))
        } else {
            &&& leaf(m_new, t.root.0 as int, v) == Some(spec_pte(page_frame(m_new, t, v), fl | 1))
            &&& m_new.allocated(page_frame(m_new, t, v))
            &&& !t.is_node(page_frame(m_new, t, v))
            &&& !m0.allocated(page_frame(m_new, t, v))
            &&& m_new.frame(page_frame(m_new, t, v)) == m0.frame(page_frame(m0, t0, v))
        } by {
        assert(leaf(m, t.root.0 as int, v) == leaf(m_new, t.root.0 as int, v));
        if a.mtype == MapType::Alloc {
            let f = page_frame(m, t, v);
            assert(cs.contains(f));
            assert(m_new.frame(f) =~= m.frame(f)) by {
                assert forall|o: int| 0 <= o < 4096 implies m_new.frame(f)[o] == m.frame(f)[o] by {
                    assert(m_new.byte(f, o) == m.byte(f, o));
                }
            }
        }
    }
    if a.mtype == MapType::Alloc {
        assert forall|v: int| a.range.start.0 <= v < a.range.end.0 implies cs.contains(#[trigger] page_frame(m_new, t, v)) by {
            assert(leaf(m, t.root.0 as int, v) == leaf(m_new, t.root.0 as int, v));
            assert(cs.contains(page_frame(m, t, v)));
        }
    }
}

/// A well-formed table keeps its shape and mappings while its frames stay
/// as they were.
proof fn lemma_frozen_table(t: PageTable, m0: PhysMemory, m: PhysMemory)
    requires
        t.wf(&m0),
        m.wf(),
        frozen(m0, m),
    ensures
        t.wf(&m),
        forall|v: int| v >= 0 ==> #[trigger] leaf(m, t.root.0 as int, v) == leaf(m0, t.root.0 as int, v),
{
    assert forall|p: int, o: int| t.is_node(p) implies #[trigger] m.byte(p, o) == m0.byte(p, o) by {
        super::table::lemma_nodes_allocated(t, m0, p);
        assert(m.frame(p) == m0.frame(p));
        if 0 <= o < 4096 {
            assert(m.frame(p)[o] == m0.frame(p)[o]);
        }
    }
    assert forall|p: int| #[trigger] t.is_node(p) implies m.allocated(p) by {
        super::table::lemma_nodes_allocated(t, m0, p);
    }
    super::table::lemma_nodes_untouched(t, m0, m);
}

/// Page `w` of the copy holds, in frame `al[w]`, what page `w` of table
/// `t0` held in `m0`.
pub open spec fn page_copied(m: PhysMemory, m0: PhysMemory, t0: PageTable, al: Map<usize, super::memory::FrameTracker>, w: int) -> bool {
    m.frame(al[w as usize].ppn.0 as int) == m0.frame(page_frame(m0, t0, w))
}

impl MapArea {
    /// An area over the same pages, with the same type and rights, that no
    /// frame has been given yet.
    pub fn clone(&self) -> (r: Self)
        ensures
            r.range.start == self.range.start,
            r.range.end == self.range.end,
            r.range.current == self.range.start,
            r.mtype == self.mtype,
            r.permission == self.permission,
            r.allocated@ == Map::<usize, super::memory::FrameTracker>::empty(),
    {
        MapArea {
            range: VPNRange::new(self.range.get_start(), self.range.get_end()),
            allocated: BTreeMap::new(),
            mtype: self.mtype,
            permission: self.permission,
        }
    }
}

impl MemorySet {
    /// The address space can be copied: its table is well formed, its areas
    /// are sane, pairwise apart, and those of type `Alloc` are backed, and
    /// there are frames enough for up to three per page.
    pub open spec fn cloneable(&self, m: PhysMemory) -> bool {
        let a = self.areas@;
        &&& self.table.wf(&m)
        &&& forall|i: int| 0 <= i < a.len() ==> area_sane(#[trigger] a[i]) && area_backed(self.table, m, a[i])
        &&& forall|i: int, j: int|
            0 <= i < a.len() && 0 <= j < a.len() && i != j ==> areas_apart(#[trigger] a[i], #[trigger] a[j])
        &&& m.free_frames() >= 1 + 3 * total_pages(a, a.len() as int)
    }

    /// Copies into the fresh frames `al` of table `table` the pages of the
    /// `Alloc` area `i` of this address space, just placed there.
    #[verifier::rlimit(60)]
    fn copy_pages(
        &self,
        table: &PageTable,
        mem: &mut PhysMemory,
        i: usize,
        Ghost(m0): Ghost<PhysMemory>,
        Ghost(t1): Ghost<PageTable>,
        Ghost(m1): Ghost<PhysMemory>,
        Ghost(cs): Ghost<Set<int>>,
        Ghost(al): Ghost<Map<usize, super::memory::FrameTracker>>,
    )
        requires
            i < self.areas@.len(),
            self.areas@[i as int].mtype == MapType::Alloc,
            area_sane(self.areas@[i as int]),
            area_backed(self.table, m0, self.areas@[i as int]),
            self.table.wf(&m0),
            table.wf(&*old(mem)),
            frozen(m0, *old(mem)),
            frozen(m0, m1),
            forall|p: int| #[trigger] cs.contains(p) ==> m1.allocated(p),
            forall|j: int| 0 <= j < i ==> area_cloned(self.table, m0, *table, *old(mem), #[trigger] self.areas@[j]),
            forall|j: int| 0 <= j < i ==> area_in(*table, *old(mem), #[trigger] self.areas@[j], cs),
            pages_hold(*table, *old(mem), al, self.areas@[i as int].range.start.0 as int, self.areas@[i as int].range.end.0 as int, Seq::empty()),
            frames_distinct(al, self.areas@[i as int].range.start.0 as int, self.areas@[i as int].range.end.0 as int),
            pages_mapped(t1, m1, *table, *old(mem), al, self.areas@[i as int].range.start.0 as int, self.areas@[i as int].range.end.0 as int, self.areas@[i as int].permission.bits),
            forall|p: int| #[trigger] frames_upto(al, self.areas@[i as int].range.start.0 as int, self.areas@[i as int].range.end.0 as int).contains(p) ==> !m1.allocated(p),
        ensures
            final(mem).wf(),
            final(mem).base == old(mem).base,
            final(mem).current == old(mem).current,
            final(mem).end == old(mem).end,
            final(mem).recycled@ == old(mem).recycled@,
            table.wf(&*final(mem)),
            forall|v: int| v >= 0 ==> #[trigger] leaf(*final(mem), table.root.0 as int, v) == leaf(*old(mem), table.root.0 as int, v),
            frozen(m0, *final(mem)),
            forall|j: int| 0 <= j < i ==> area_cloned(self.table, m0, *table, *final(mem), #[trigger] self.areas@[j]),
            forall|j: int| 0 <= j < i ==> area_in(*table, *final(mem), #[trigger] self.areas@[j], cs),
            area_cloned(self.table, m0, *table, *final(mem), self.areas@[i as int]),
            area_in(*table, *final(mem), self.areas@[i as int], frames_upto(al, self.areas@[i as int].range.start.0 as int, self.areas@[i as int].range.end.0 as int)),
    {
        let ghost m2 = *mem;
        let ghost t0 = self.table;
        let ghost a = self.areas@[i as int];
        let ghost start = a.range.start.0 as int;
        let ghost end = a.range.end.0 as int;
        let ghost fl = a.permission.bits;
        let ghost fs = frames_upto(al, start, end);
        let first = self.areas[i].range.start.0;
        let last = self.areas[i].range.end.0;
        let mut v: usize = first;
        while v < last
            invariant
                start == first,
                end == last,
                start == a.range.start.0,
                end == a.range.end.0,
                start <= v <= end,
                end - start <= VPN_SPACE,
                a == self.areas@[i as int],
                t0 == self.table,
                i < self.areas@.len(),
                a.mtype == MapType::Alloc,
                fl == a.permission.bits,
                fs == frames_upto(al, start, end),
                area_backed(t0, m0, a),
                t0.wf(&m0),
                frozen(m0, m1),
                forall|p: int| #[trigger] cs.contains(p) ==> m1.allocated(p),
                pages_hold(*table, m2, al, start, end, Seq::empty()),
                frames_distinct(al, start, end),
                pages_mapped(t1, m1, *table, m2, al, start, end, fl),
                forall|p: int| #[trigger] fs.contains(p) ==> !m1.allocated(p),
                mem.wf(),
                mem.base == m2.base,
                mem.current == m2.current,
                mem.end == m2.end,
                mem.recycled@ == m2.recycled@,
                table.wf(&*mem),
                forall|w: int| w >= 0 ==> #[trigger] leaf(*mem, table.root.0 as int, w) == leaf(m2, table.root.0 as int, w),
                frozen(m0, *mem),
                forall|j: int| 0 <= j < i ==> area_cloned(t0, m0, *table, *mem, #[trigger] self.areas@[j]),
                forall|j: int| 0 <= j < i ==> area_in(*table, *mem, #[trigger] self.areas@[j], cs),
                forall|w: int| start <= w < v ==> #[trigger] page_copied(*mem, m0, t0, al, w),
            decreases last - v,
        {
            let ghost mc = *mem;
            let ghost vi = v as int;
            proof {
                lemma_frozen_table(t0, m0, mc);
                lemma_range_offset(start, vi, vi);
                t0.lemma_walk(&mc, vi);
                table.lemma_walk(&mc, vi);
                assert(leaf(m0, t0.root.0 as int, vi).is_some());
                assert(leaf(mc, table.root.0 as int, vi) == leaf(m2, table.root.0 as int, vi));
                assert(al.contains_key(v));
            }
            let vpn = VirtPageNum(v);
            let src = self.table.translate(mem, vpn).unwrap().ppn();
            let bytes = src.get_page_bytes(mem);
            let dst = table.translate(mem, vpn).unwrap().ppn();
            proof {
                let f = al[v].ppn.0 as int;
                assert(m2.allocated(f));
                lemma_spec_pte_ppn(f, (fl | 1) as u8);
                assert(dst.0 == f);
                assert(src.0 == page_frame(m0, t0, vi));
                assert(m0.allocated(src.0 as int));
                assert(bytes@ == m0.frame(src.0 as int));
                assert(fs.contains(f));
            }
            mem.write_bytes(dst, bytes.as_slice());
            proof {
                let mn = *mem;
                let f = dst.0 as int;
                assert(!cs.contains(f));
                assert forall|p: int, o: int| table.is_node(p) implies #[trigger] mn.byte(p, o) == mc.byte(p, o) by {}
                super::table::lemma_nodes_untouched(*table, mc, mn);
                assert forall|j: int| 0 <= j < i implies area_cloned(t0, m0, *table, mn, #[trigger] self.areas@[j]) && area_in(*table, mn, self.areas@[j], cs) by {
                    lemma_write_keeps(t0, m0, *table, mc, mn, self.areas@[j], cs, f);
                }
                assert forall|p: int| #[trigger] m0.allocated(p) implies mn.allocated(p) && mn.frame(p) == m0.frame(p) by {
                    assert(m1.allocated(p));
                    assert(p != f);
                    assert(mn.frame(p) =~= mc.frame(p));
                }
                assert(mn.frame(f) =~= m0.frame(page_frame(m0, t0, vi)));
                assert forall|w: int| start <= w < v + 1 implies #[trigger] page_copied(mn, m0, t0, al, w) by {
                    if w < vi {
                        assert(page_copied(mc, m0, t0, al, w));
                        assert(al[w as usize].ppn != al[v].ppn);
                        assert(mn.frame(al[w as usize].ppn.0 as int) =~= mc.frame(al[w as usize].ppn.0 as int));
                    }
                }
            }
            v = v + 1;
        }
        proof {
            let mf = *mem;
            assert forall|w: int|
                #![trigger leaf(mf, table.root.0 as int, w)]
                start <= w < end implies {
                    &&& leaf(mf, table.root.0 as int, w) == Some(spec_pte(page_frame(mf, *table, w), fl | 1))
                    &&& mf.allocated(page_frame(mf, *table, w))
                    &&& !table.is_node(page_frame(mf, *table, w))
                    &&& !m0.allocated(page_frame(mf, *table, w))
                    &&& mf.frame(page_frame(mf, *table, w)) == m0.frame(page_frame(m0, t0, w))
                    &&& fs.contains(page_frame(mf, *table, w))
                } by {
                lemma_range_offset(start, w, w);
                assert(leaf(mf, table.root.0 as int, w) == leaf(m2, table.root.0 as int, w));
                assert(al.contains_key(w as usize));
                let f = al[w as usize].ppn.0 as int;
                assert(m2.allocated(f));
                lemma_spec_pte_ppn(f, (fl | 1) as u8);
                assert(page_frame(mf, *table, w) == f);
                assert(page_copied(mf, m0, t0, al, w));
                assert(fs.contains(f));
                assert(!m1.allocated(f));
            }
        }
    }
}

/// Two runs of pages, `[s1, s1 + l1)` and `[s2, s2 + l2)`, are apart when
/// neither starts among the translated numbers of the other.
proof fn lemma_runs_apart(s1: int, l1: int, s2: int, l2: int, v: int)
    requires
        0 <= l1 <= VPN_SPACE,
        0 <= l2 <= VPN_SPACE,
        range_offset(s2, s1) >= l2,
        range_offset(s1, s2) >= l1,
        s1 <= v < s1 + l1,
    ensures
        range_offset(s2, v) >= l2,
{
    let m = VPN_SPACE as int;
    let x = range_offset(s2, s1);
    let y = range_offset(s1, s2);
    let d = v - s1;
    assert(x == (s1 - s2) % m && y == (s2 - s1) % m);
    assert(0 <= x < m && 0 <= y < m) by (nonlinear_arith)
        requires
            m == 0x800_0000,
            x == (s1 - s2) % m,
            y == (s2 - s1) % m,
    ;
    assert(x == 0 || x + y == m) by (nonlinear_arith)
        requires
            m == 0x800_0000,
            x == (s1 - s2) % m,
            y == (s2 - s1) % m,
    ;
    assert(range_offset(s2, v) == (x + d) % m) by (nonlinear_arith)
        requires
            m == 0x800_0000,
            x == (s1 - s2) % m,
            d == v - s1,
            range_offset(s2, v) == (v - s2) % m,
    ;
    if x == 0 {
        assert(l2 == 0);
    } else {
        assert(x + d < m);
        assert((x + d) % m == x + d) by (nonlinear_arith)
            requires
                0 <= x + d < m,
                m == 0x800_0000,
        ;
    }
}

/// The offset of page `v` after `s`, in u64 arithmetic.
fn offset_of(s: usize, v: usize) -> (r: u64)
    ensures
        r == range_offset(s as int, v as int),
{
    let m: u64 = 0x800_0000;
    let a = (v as u64) % m;
    let b = (s as u64) % m;
    proof {
        let mi = m as int;
        assert(((v - s) as int) % mi == if a >= b { a - b } else { a + mi - b }) by (nonlinear_arith)
            requires
                mi == 0x800_0000,
                a == (v as int) % mi,
                b == (s as int) % mi,
                v >= 0,
                s >= 0,
        ;
    }
    if a >= b {
        a - b
    } else {
        a + m - b
    }
}

/// Whether areas `a` and `b` are apart both ways.
fn check_apart(a: &MapArea, b: &MapArea) -> (r: bool)
    requires
        area_sane(*a),
        area_sane(*b),
    ensures
        r == (areas_apart(*a, *b) && areas_apart(*b, *a)),
{
    let la = (a.range.end.0 - a.range.start.0) as u64;
    let lb = (b.range.end.0 - b.range.start.0) as u64;
    let s1 = a.range.start.0;
    let s2 = b.range.start.0;
    let ok = la == 0 || lb == 0 || (offset_of(s2, s1) >= lb && offset_of(s1, s2) >= la);
    proof {
        let s1 = s1 as int;
        let s2 = s2 as int;
        let m = VPN_SPACE as int;
        if la == 0 || lb == 0 {
            assert forall|v: int| a.range.start.0 <= v < a.range.end.0 implies #[trigger] range_offset(s2, v) >= b.pages() by {
                assert(range_offset(s2, v) == (v - s2) % m);
            }
            assert forall|v: int| b.range.start.0 <= v < b.range.end.0 implies #[trigger] range_offset(s1, v) >= a.pages() by {
                assert(range_offset(s1, v) == (v - s1) % m);
            }
        } else if ok {
            assert forall|v: int| a.range.start.0 <= v < a.range.end.0 implies #[trigger] range_offset(s2, v) >= b.pages() by {
                lemma_runs_apart(s1, a.pages(), s2, b.pages(), v);
            }
            assert forall|v: int| b.range.start.0 <= v < b.range.end.0 implies #[trigger] range_offset(s1, v) >= a.pages() by {
                lemma_runs_apart(s2, b.pages(), s1, a.pages(), v);
            }
        } else {
            if areas_apart(*a, *b) && areas_apart(*b, *a) {
                assert(range_offset(s2, s1) >= b.pages());
                assert(range_offset(s1, s2) >= a.pages());
            }
        }
    }
    ok
}

impl MemorySet {
    /// `r`, in memory `m1`, is a copy of this address space as it stood in
    /// memory `m0`: a fresh, well-formed table in which every area is mapped
    /// again with its type and rights, each page of an `Alloc` area into a
    /// fresh frame that holds the contents of the copied page, and no
    /// other page is mapped.  This space keeps its mappings, every frame
    /// in use in `m0` keeps its contents, and the frames put in use are
    /// exactly those that the copy owns.
    pub open spec fn copied(&self, m0: PhysMemory, r: MemorySet, m1: PhysMemory) -> bool {
        let n = self.areas@.len();
        &&& r.table.wf(&m1)
        &&& m1.base == m0.base
        &&& m1.end == m0.end
        &&& r.areas@.len() == n
        &&& forall|i: int|
            0 <= i < n ==> {
                &&& (#[trigger] r.areas@[i]).range.start == self.areas@[i].range.start
                &&& r.areas@[i].range.end == self.areas@[i].range.end
                &&& r.areas@[i].mtype == self.areas@[i].mtype
                &&& r.areas@[i].permission == self.areas@[i].permission
            }
        &&& forall|i: int| 0 <= i < n ==> area_cloned(self.table, m0, r.table, m1, #[trigger] self.areas@[i])
        &&& forall|v: int|
            v >= 0 && outside_first(self.areas@, n as int, v) ==> #[trigger] leaf(m1, r.table.root.0 as int, v).is_none()
        &&& self.table.wf(&m1)
        &&& forall|v: int|
            v >= 0 ==> #[trigger] leaf(m1, self.table.root.0 as int, v) == leaf(m0, self.table.root.0 as int, v)
        &&& frozen(m0, m1)
        &&& fresh_nodes(r.table, m0)
        &&& forall|p: int| #[trigger] m1.allocated(p) == (m0.allocated(p) || r.owns(p))
        &&& forall|p: int| #[trigger] r.owns(p) ==> !m0.allocated(p)
    }

    /// A copy of the address space in a fresh table, each page of an
    /// `Alloc` area in a fresh frame of its own.
    #[verifier::rlimit(100)]
    pub fn clone(&self, mem: &mut PhysMemory) -> (r: Self)
        requires
            self.cloneable(*old(mem)),
        ensures
            self.copied(*old(mem), r, *final(mem)),
    {
        let ghost m0 = *mem;
        let ghost areas = self.areas@;
        let n = self.areas.len();
        proof {
            lemma_total_pages_grows(areas, 0, n as int);
        }
        let mut set = MemorySet::new(mem);
        let ghost mut cs: Set<int> = Set::empty();
        proof {
            let m = *mem;
            assert forall|p: int| #[trigger] m0.allocated(p) implies m.allocated(p) && m.frame(p) == m0.frame(p) by {
                assert(m.frame(p) =~= m0.frame(p)) by {
                    assert forall|o: int| 0 <= o < 4096 implies m.frame(p)[o] == m0.frame(p)[o] by {
                        assert(m.byte(p, o) == m0.byte(p, o));
                    }
                }
            }
            reveal(owned_in_use);
            assert forall|p: int| #[trigger] m.allocated(p) == (m0.allocated(p) || set.owns(p)) by {
                if table_owns(set.table.frames@, set.table.frames@.len() as int, p) {
                    let j = choose|j: int| 0 <= j < set.table.frames@.len() && (#[trigger] set.table.frames@[j]).ppn.0 == p;
                    assert(set.table.is_node(p));
                }
                if p == set.table.root.0 {
                    assert(set.table.is_node(p));
                    assert(table_owns(set.table.frames@, set.table.frames@.len() as int, p));
                }
                assert(!areas_own(set.areas@, 0, p));
            }
            assert forall|p: int| #[trigger] set.table.is_node(p) implies !m0.allocated(p) by {
                if exists|i: int| #[trigger] set.table.l1@.contains_key(i) && set.table.l1@[i] == p {
                    let i = choose|i: int| #[trigger] set.table.l1@.contains_key(i) && set.table.l1@[i] == p;
                }
                if exists|k: (int, int)| #[trigger] set.table.l2@.contains_key(k) && set.table.l2@[k] == p {
                    let k = choose|k: (int, int)| #[trigger] set.table.l2@.contains_key(k) && set.table.l2@[k] == p;
                }
            }
            assert forall|p: int| #[trigger] set.owns(p) implies !m0.allocated(p) by {
                if table_owns(set.table.frames@, set.table.frames@.len() as int, p) {
                    let j = choose|j: int| 0 <= j < set.table.frames@.len() && (#[trigger] set.table.frames@[j]).ppn.0 == p;
                    assert(set.table.is_node(p));
                }
            }
            assert(owned_in_use(m0, m, set));
        }
        let mut i: usize = 0;
        while i < n
            invariant
                n == self.areas@.len(),
                areas == self.areas@,
                i <= n,
                self.cloneable(m0),
                set.table.wf(&*mem),
                mem.base == m0.base,
                mem.end == m0.end,
                set.areas@.len() == i,
                forall|j: int|
                    0 <= j < i ==> {
                        &&& (#[trigger] set.areas@[j]).range.start == areas[j].range.start
                        &&& set.areas@[j].range.end == areas[j].range.end
                        &&& set.areas@[j].mtype == areas[j].mtype
                        &&& set.areas@[j].permission == areas[j].permission
                    },
                forall|j: int| 0 <= j < i ==> area_cloned(self.table, m0, set.table, *mem, #[trigger] areas[j]),
                forall|j: int| 0 <= j < i ==> area_in(set.table, *mem, #[trigger] areas[j], cs),
                forall|p: int| #[trigger] cs.contains(p) ==> mem.allocated(p),
                frozen(m0, *mem),
                fresh_nodes(set.table, m0),
                owned_in_use(m0, *mem, set),
                forall|v: int| v >= 0 && outside_first(areas, i as int, v) ==> #[trigger] leaf(*mem, set.table.root.0 as int, v).is_none(),
                mem.free_frames() >= 3 * (total_pages(areas, n as int) - total_pages(areas, i as int)),
            decreases n - i,
        {
            let ghost t1 = set.table;
            let ghost m1 = *mem;
            let ghost s1 = set;
            let ghost ai = areas[i as int];
            let area = self.areas[i].clone();
            proof {
                lemma_total_pages_grows(areas, i + 1, n as int);
                assert(area_sane(ai));
                assert forall|v: int| area.range.start.0 <= v < area.range.end.0 implies #[trigger] leaf(m1, t1.root.0 as int, v).is_none() by {
                    assert forall|j: int| 0 <= j < i implies #[trigger] range_offset(areas[j].range.start.0 as int, v) >= areas[j].pages() by {
                        assert(areas_apart(areas[i as int], areas[j]));
                    }
                    assert(outside_first(areas, i as int, v));
                }
                assert forall|j: int| 0 <= j < i implies areas_apart(#[trigger] areas[j], areas[i as int]) by {}
            }
            set.push(area, None, mem);
            let ghost a = set.areas@.last();
            proof {
                lemma_push_keeps(self.table, m0, areas, i as int, a, cs, t1, m1, set.table, *mem);
                lemma_push_owned(s1, set, a, m0, m1, *mem);
            }
            let ghost m2 = *mem;
            let ghost start = ai.range.start.0 as int;
            let ghost end = ai.range.end.0 as int;
            let ghost fs = frames_upto(a.allocated@, start, end);
            if self.areas[i].mtype == MapType::Alloc {
                self.copy_pages(&set.table, mem, i, Ghost(m0), Ghost(t1), Ghost(m1), Ghost(cs), Ghost(a.allocated@));
                proof {
                    let mf = *mem;
                    lemma_owned_same_alloc(m0, m2, mf, set);
                    let cs2 = cs.union(fs);
                    assert forall|j: int| 0 <= j < i implies area_in(set.table, mf, #[trigger] areas[j], cs2) by {
                        if areas[j].mtype == MapType::Alloc {
                            assert(area_in(set.table, mf, areas[j], cs));
                            assert forall|v: int| areas[j].range.start.0 <= v < areas[j].range.end.0 implies cs2.contains(#[trigger] page_frame(mf, set.table, v)) by {
                                assert(cs.contains(page_frame(mf, set.table, v)));
                            }
                        }
                    }
                    assert forall|p: int| #[trigger] cs2.contains(p) implies mf.allocated(p) by {
                        if fs.contains(p) {
                            let w = choose|w: int| start <= w < end && #[trigger] a.allocated@.contains_key(w as usize) && a.allocated@[w as usize].ppn.0 == p;
                            assert(pages_hold(set.table, m2, a.allocated@, start, end, Seq::empty()));
                            assert(m2.allocated(a.allocated@[w as usize].ppn.0 as int));
                        }
                    }
                    cs = cs2;
                }
            } else {
                proof {
                    let fl = ai.permission.bits;
                    assert forall|v: int|
                        #![trigger leaf(m2, set.table.root.0 as int, v)]
                        start <= v < end implies leaf(m2, set.table.root.0 as int, v) == Some(spec_pte(v, fl | 1)) by {
                        lemma_range_offset(start, v, v);
                    }
                    assert(area_cloned(self.table, m0, set.table, m2, ai));
                }
            }
            proof {
                assert(mem.free_frames() >= m1.free_frames() - 3 * ai.pages());
                assert(total_pages(areas, i + 1) == total_pages(areas, i as int) + ai.pages());
            }
            i = i + 1;
        }
        proof {
            lemma_frozen_table(self.table, m0, *mem);
            reveal(owned_in_use);
        }
        set
    }
}

impl MemorySet {
    /// Whether each page of `Alloc` area `a` is mapped in the table to a
    /// frame in use.
    fn area_is_backed(&self, a: &MapArea, mem: &PhysMemory) -> (r: bool)
        requires
            self.table.wf(mem),
            area_sane(*a),
        ensures
            r == area_backed(self.table, *mem, *a),
    {
        if a.mtype != MapType::Alloc {
            return true;
        }
        let mut v: usize = a.range.start.0;
        while v < a.range.end.0
            invariant
                self.table.wf(mem),
                a.range.start.0 <= v <= a.range.end.0,
                a.mtype == MapType::Alloc,
                forall|w: int|
                    a.range.start.0 <= w < v ==> {
                        &&& #[trigger] leaf(*mem, self.table.root.0 as int, w).is_some()
                        &&& mem.allocated(page_frame(*mem, self.table, w))
                    },
            decreases a.range.end.0 - v,
        {
            let e = self.table.translate(mem, VirtPageNum(v));
            let ghost vi = v as int;
            match e {
                Some(e) => {
                    if !e.is_valid() {
                        assert(!leaf(*mem, self.table.root.0 as int, vi).is_some());
                        return false;
                    }
                    assert(leaf(*mem, self.table.root.0 as int, vi) == Some(e));
                    if !mem.is_allocated(e.ppn().0) {
                        assert(!mem.allocated(page_frame(*mem, self.table, vi)));
                        return false;
                    }
                },
                None => {
                    assert(!leaf(*mem, self.table.root.0 as int, vi).is_some());
                    return false;
                },
            }
            v = v + 1;
        }
        proof {
            assert forall|w: int| a.range.start.0 <= w < a.range.end.0 implies {
                &&& #[trigger] leaf(*mem, self.table.root.0 as int, w).is_some()
                &&& mem.allocated(page_frame(*mem, self.table, w))
            } by {}
        }
        true
    }

    /// Whether the address space, whose table is well formed, can be
    /// copied.
    pub fn can_clone(&self, mem: &PhysMemory) -> (r: bool)
        requires
            self.table.wf(mem),
        ensures
            r == self.cloneable(*mem),
    {
        let ghost areas = self.areas@;
        let n = self.areas.len();
        let mut total: u128 = 0;
        let mut i: usize = 0;
        while i < n
            invariant
                n == areas.len(),
                areas == self.areas@,
                self.table.wf(mem),
                i <= n,
                total == total_pages(areas, i as int),
                total <= i * VPN_SPACE,
                forall|j: int| 0 <= j < i ==> area_sane(#[trigger] areas[j]) && area_backed(self.table, *mem, areas[j]),
            decreases n - i,
        {
            let a = &self.areas[i];
            if a.range.end.0 < a.range.start.0 || a.range.end.0 - a.range.start.0 > VPN_SPACE {
                assert(!area_sane(areas[i as int]));
                return false;
            }
            if a.mtype == MapType::Identical && a.range.end.0 as u64 > PPN_LIMIT {
                assert(!area_sane(areas[i as int]));
                return false;
            }
            if !self.area_is_backed(a, mem) {
                return false;
            }
            total = total + (a.range.end.0 - a.range.start.0) as u128;
            proof {
                assert(total <= (i + 1) * VPN_SPACE) by (nonlinear_arith)
                    requires
                        total <= i * VPN_SPACE + VPN_SPACE,
                ;
            }
            i = i + 1;
        }
        let mut i: usize = 0;
        while i < n
            invariant
                n == areas.len(),
                areas == self.areas@,
                i <= n,
                forall|j: int| 0 <= j < n ==> area_sane(#[trigger] areas[j]),
                forall|k: int, j: int|
                    0 <= k < i && 0 <= j < n && k != j ==> areas_apart(#[trigger] areas[k], #[trigger] areas[j]),
            decreases n - i,
        {
            let mut j: usize = 0;
            while j < n
                invariant
                    n == areas.len(),
                    areas == self.areas@,
                    i < n,
                    j <= n,
                    forall|j2: int| 0 <= j2 < n ==> area_sane(#[trigger] areas[j2]),
                    forall|k: int, j2: int|
                        0 <= k < i && 0 <= j2 < n && k != j2 ==> areas_apart(#[trigger] areas[k], #[trigger] areas[j2]),
                    forall|j2: int| 0 <= j2 < j && j2 != i ==> areas_apart(areas[i as int], #[trigger] areas[j2]),
                decreases n - j,
            {
                if j != i && !check_apart(&self.areas[i], &self.areas[j]) {
                    return false;
                }
                j = j + 1;
            }
            i = i + 1;
        }
        proof {
            assert(total <= n * VPN_SPACE);
            assert(n * VPN_SPACE <= 0x800_0000 * 0x1_0000_0000_0000_0000) by (nonlinear_arith)
                requires
                    n <= 0x1_0000_0000_0000_0000,
            ;
        }
        mem.has_free_frames(1 + 3 * total)
    }
}

} // verus!
