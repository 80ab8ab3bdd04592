//! Address spaces: a page table together with the areas mapped in it.

use vstd::prelude::*;

use std::collections::BTreeMap;

use super::address::{PhysPageNum, VPNRange, VirtAddr, VirtPageNum, ceil_pages, vpn_index};
use super::memory::{FrameTracker, PhysMemory};
use super::pte::{PTEFlags, PageTableEntry, spec_pte, PPN_LIMIT};
use super::table::{Mode, PageTable, VPN_SPACE, leaf, vpn_key};
use crate::config::PAGE_SIZE;

verus! {

/// Access rights of a mapped area, as page-table flag bits.
#[derive(Clone, Copy, PartialEq, Eq, Structural)]
pub struct MapPermission {
    pub bits: u8,
}

#[allow(non_snake_case)]
impl MapPermission {
    /// Readable.
    pub fn R() -> (r: Self)
        ensures
            r.bits == 2,
    {
        MapPermission { bits: 2 }
    }

    /// Writable.
    pub fn W() -> (r: Self)
        ensures
            r.bits == 4,
    {
        MapPermission { bits: 4 }
    }

    /// Executable.
    pub fn X() -> (r: Self)
        ensures
            r.bits == 8,
    {
        MapPermission { bits: 8 }
    }

    /// Accessible from user mode.
    pub fn U() -> (r: Self)
        ensures
            r.bits == 16,
    {
        MapPermission { bits: 16 }
    }

    /// The raw bits.
    pub fn bits(&self) -> (r: u8)
        ensures
            r == self.bits,
    {
        self.bits
    }

    /// The union of two sets of rights.
    pub fn union(&self, other: Self) -> (r: Self)
        ensures
            r.bits == self.bits | other.bits,
    {
        MapPermission { bits: self.bits | other.bits }
    }

    /// The rights with the given bits, or `None` when a bit names no right.
    pub fn from_bits(bits: u8) -> (r: Option<Self>)
        ensures
            r == if bits & !0x1eu8 == 0 {
                Some(MapPermission { bits })
            } else {
                None
            },
    {
        if bits & !0x1eu8 == 0 {
            Some(MapPermission { bits })
        } else {
            None
        }
    }
}

/// How the pages of an area find their frames: the frame with the page's
/// own number, or a frame of its own taken from the pool.
#[derive(Clone, Copy, PartialEq, Eq, Structural)]
pub enum MapType {
    Identical,
    Alloc,
}

/// A contiguous range of pages mapped with one type and one set of rights;
/// `allocated` records the frame of each page of an `Alloc` area, keyed by
/// page number.
pub struct MapArea {
    pub range: VPNRange,
    pub mtype: MapType,
    pub allocated: BTreeMap<usize, FrameTracker>,
    pub permission: MapPermission,
}

/// The position of page `v` after `start`, counted in the space of
/// translated page numbers.
pub open spec fn range_offset(start: int, v: int) -> int {
    (v - start) % (VPN_SPACE as int)
}

/// Only the nodes of the new table and the frames in `data` may have
/// changed, and the frames that became allocated are the table's new nodes
/// and `data`, none of which was allocated before.
pub open spec fn changed_only(
    t_old: &PageTable,
    t_new: &PageTable,
    m_old: &PhysMemory,
    m_new: &PhysMemory,
    data: Set<int>,
) -> bool {
    &&& m_new.wf()
    &&& m_new.base == m_old.base
    &&& m_new.end == m_old.end
    &&& forall|p: int| #[trigger] t_old.is_node(p) ==> t_new.is_node(p)
    &&& forall|p: int|
        #[trigger] m_new.allocated(p) == (m_old.allocated(p) || (t_new.is_node(p)
            && !t_old.is_node(p)) || data.contains(p))
    &&& forall|p: int|
        (t_new.is_node(p) && !t_old.is_node(p)) || data.contains(p) ==> !#[trigger] m_old.allocated(
            p,
        )
    &&& forall|p: int, o: int|
        !(t_new.is_node(p) || data.contains(p)) ==> #[trigger] m_new.byte(p, o) == m_old.byte(p, o)
    &&& forall|p: int| #[trigger] m_old.in_pool(p) ==> m_new.in_pool(p)
}

/// Two page numbers in `[start, start + VPN_SPACE)` are translated alike
/// exactly when they are equal, and a page's offset from `start` is found
/// again from any page translated alike.
pub proof fn lemma_range_offset(start: int, u: int, v: int)
    requires
        start <= u < start + VPN_SPACE,
    ensures
        range_offset(start, u) == u - start,
        (vpn_key(v) == vpn_key(u)) == (range_offset(start, v) == u - start),
        0 <= range_offset(start, v) < VPN_SPACE,
{
    let m = VPN_SPACE as int;
    assert((u - start) % m == u - start);
    assert((v % m == u % m) == ((v - start) % m == u - start)) by (nonlinear_arith)
        requires
            0 <= u - start < m,
            m == 0x800_0000,
    ;
}

proof fn lemma_changed_only_trans(
    t0: PageTable,
    t1: PageTable,
    t2: PageTable,
    m0: PhysMemory,
    m1: PhysMemory,
    m2: PhysMemory,
    d1: Set<int>,
    d2: Set<int>,
)
    requires
        changed_only(&t0, &t1, &m0, &m1, d1),
        changed_only(&t1, &t2, &m1, &m2, d2),
    ensures
        changed_only(&t0, &t2, &m0, &m2, d1.union(d2)),
{
    let d = d1.union(d2);
    assert forall|p: int| #[trigger] m2.allocated(p) == (m0.allocated(p) || (t2.is_node(p) && !t0.is_node(p)) || d.contains(p)) by {
        assert(m1.allocated(p) == (m0.allocated(p) || (t1.is_node(p) && !t0.is_node(p)) || d1.contains(p)));
        if t1.is_node(p) {
            assert(t2.is_node(p));
        }
    }
    assert forall|p: int| (t2.is_node(p) && !t0.is_node(p)) || d.contains(p) implies !#[trigger] m0.allocated(p) by {
        assert(m1.allocated(p) == (m0.allocated(p) || (t1.is_node(p) && !t0.is_node(p)) || d1.contains(p)));
        if t1.is_node(p) && !t0.is_node(p) {
        } else if d1.contains(p) {
        } else {
            assert(!m1.allocated(p));
        }
    }
    assert forall|p: int, o: int| !(t2.is_node(p) || d.contains(p)) implies #[trigger] m2.byte(p, o) == m0.byte(p, o) by {
        if t1.is_node(p) {
            assert(t2.is_node(p));
        }
        assert(m1.byte(p, o) == m0.byte(p, o));
    }
    assert forall|p: int| #[trigger] m0.in_pool(p) implies m2.in_pool(p) by {
        assert(m1.in_pool(p));
    }
}

/// Table nodes that mapping the pages `[s, e)` may create: a leaf node and
/// a middle node for each run of 512 pages that the range touches.
pub open spec fn nodes_need(s: int, e: int) -> int {
    if s < e {
        2 * ((e - 1) / 512 - s / 512 + 1)
    } else {
        0
    }
}

/// Frames that mapping area `a` may take: the table nodes alone for an
/// `Identical` area; for an `Alloc` area, also a frame per page (counted as
/// three per page).
pub open spec fn area_need(a: MapArea) -> int {
    match a.mtype {
        MapType::Identical => nodes_need(a.range.start.0 as int, a.range.end.0 as int),
        MapType::Alloc => 3 * a.pages(),
    }
}

/// The runs of 512 pages that a range touches are no more than its pages.
pub proof fn lemma_nodes_need(s: int, e: int)
    requires
        0 <= s <= e,
    ensures
        0 <= nodes_need(s, e) <= 2 * (e - s),
{
    if s < e {
        let a = s / 512;
        let b = (e - 1) / 512;
        assert(a <= b && b - a + 1 <= e - s) by (nonlinear_arith)
            requires
                0 <= s < e,
                a == s / 512,
                b == (e - 1) / 512,
        ;
    }
}

/// Frames that area `a` may take are at most three per page.
pub proof fn lemma_area_need(a: MapArea)
    requires
        a.range.start.0 <= a.range.end.0,
    ensures
        0 <= area_need(a) <= 3 * a.pages(),
{
    lemma_nodes_need(a.range.start.0 as int, a.range.end.0 as int);
}

/// Frames still to be taken for the pages `[cur, e)` of a range from `s`:
/// two for each run of 512 pages not yet entered.
pub open spec fn nodes_left(s: int, cur: int, e: int) -> int {
    if cur < e {
        2 * ((e - 1) / 512 - cur / 512) + if cur > s && cur % 512 != 0 {
            0int
        } else {
            2int
        }
    } else {
        0
    }
}

/// Moving on by one page takes no more than the frames that entering it
/// may need; a page within the run of the page before has its leaf node.
proof fn lemma_nodes_left_step(s: int, cur: int, e: int, c: int)
    requires
        0 <= s <= cur < e,
        0 <= c <= 2,
        cur > s && cur % 512 != 0 ==> c == 0,
    ensures
        nodes_left(s, cur + 1, e) + c <= nodes_left(s, cur, e),
        nodes_left(s, s, e) == nodes_need(s, e),
{
    let q = cur / 512;
    let q1 = (cur + 1) / 512;
    assert(q1 == q + (if (cur + 1) % 512 == 0 { 1int } else { 0int })) by (nonlinear_arith)
        requires
            cur >= 0,
            q == cur / 512,
            q1 == (cur + 1) / 512,
    ;
    assert(q <= (e - 1) / 512) by (nonlinear_arith)
        requires
            0 <= cur < e,
            q == cur / 512,
    ;
}

/// Two pages in the same run of 512 pages have the same upper indexes.
proof fn lemma_same_run(v: int)
    requires
        v > 0,
        v % 512 != 0,
    ensures
        vpn_index(v, 0) == vpn_index(v - 1, 0),
        vpn_index(v, 1) == vpn_index(v - 1, 1),
{
    assert(v / 512 == (v - 1) / 512) by (nonlinear_arith)
        requires
            v > 0,
            v % 512 != 0,
    ;
    assert(v / 0x40000 == (v / 512) / 512) by (nonlinear_arith)
        requires
            v >= 0,
    ;
    assert((v - 1) / 0x40000 == ((v - 1) / 512) / 512) by (nonlinear_arith)
        requires
            v >= 1,
    ;
}

impl MapArea {
    /// The flags that the area's pages are mapped with, valid bit aside.
    pub open spec fn flags_bits(&self) -> u8 {
        self.permission.bits
    }

    /// Number of pages of the area.
    pub open spec fn pages(&self) -> int {
        self.range.end.0 - self.range.start.0
    }

    /// The area covering the pages of `[start, end)`: from the page of
    /// `start` to the page that `end` rounds up to.
    pub fn new(start: VirtAddr, end: VirtAddr, mtype: MapType, permission: MapPermission) -> (r: Self)
        ensures
            r.range.start.0 == start.0 / PAGE_SIZE,
            r.range.end.0 == ceil_pages(end.0 as int),
            r.range.current == r.range.start,
            r.mtype == mtype,
            r.permission == permission,
            r.allocated@ == Map::<usize, FrameTracker>::empty(),
    {
        Self {
            range: VPNRange::new(start.floor(), end.ceil()),
            mtype,
            allocated: BTreeMap::new(),
            permission,
        }
    }

    /// Maps every page of the area to the frame with the same number.
    fn map_identical(&self, table: &mut PageTable, mem: &mut PhysMemory)
        requires
            old(table).wf(&*old(mem)),
            self.range.current == self.range.start,
            self.range.start.0 <= self.range.end.0 <= PPN_LIMIT,
            self.pages() <= VPN_SPACE,
            old(mem).free_frames() >= nodes_need(self.range.start.0 as int, self.range.end.0 as int),
            forall|v: int|
                self.range.start.0 <= v < self.range.end.0 ==> #[trigger] leaf(
                    *old(mem),
                    old(table).root.0 as int,
                    v,
                ).is_none(),
        ensures
            final(table).wf(&*final(mem)),
            final(table).root == old(table).root,
            changed_only(&*old(table), &*final(table), &*old(mem), &*final(mem), Set::empty()),
            final(mem).free_frames() >= old(mem).free_frames() - nodes_need(self.range.start.0 as int, self.range.end.0 as int),
            forall|v: int|
                v >= 0 ==> #[trigger] leaf(*final(mem), final(table).root.0 as int, v) == if range_offset(
                    self.range.start.0 as int,
                    v,
                ) < self.pages() {
                    Some(
                        spec_pte(
                            self.range.start.0 + range_offset(self.range.start.0 as int, v),
                            self.flags_bits() | 1,
                        ),
                    )
                } else {
                    leaf(*old(mem), old(table).root.0 as int, v)
                },
    {
        let flags = PTEFlags::from_bits(self.permission.bits()).unwrap();
        let mut range = self.range;
        let start = self.range.start.0;
        let ghost t0 = *table;
        let ghost m0 = *mem;
        loop
            invariant
                table.wf(mem),
                table.root == t0.root,
                t0.wf(&m0),
                range.start == self.range.start,
                range.end == self.range.end,
                start <= range.current.0 <= range.end.0,
                start == self.range.start.0,
                self.range.end.0 <= PPN_LIMIT,
                self.pages() <= VPN_SPACE,
                flags.bits == self.permission.bits,
                changed_only(&t0, &*table, &m0, &*mem, Set::empty()),
                mem.free_frames() >= m0.free_frames() - (nodes_need(start as int, range.end.0 as int) - nodes_left(
                    start as int,
                    range.current.0 as int,
                    range.end.0 as int,
                )),
                mem.free_frames() >= nodes_left(start as int, range.current.0 as int, range.end.0 as int),
                range.current.0 > start ==> table.l2@.contains_key(
                    (vpn_index(range.current.0 - 1, 0), vpn_index(range.current.0 - 1, 1)),
                ),
                forall|v: int|
                    start <= v < self.range.end.0 ==> #[trigger] leaf(m0, t0.root.0 as int, v).is_none(),
                forall|v: int|
                    v >= 0 ==> #[trigger] leaf(*mem, table.root.0 as int, v) == if range_offset(
                        start as int,
                        v,
                    ) < range.current.0 - start {
                        Some(spec_pte(start + range_offset(start as int, v), flags.bits | 1))
                    } else {
                        leaf(m0, t0.root.0 as int, v)
                    },
            ensures
                table.wf(mem),
                table.root == t0.root,
                range.current.0 == range.end.0,
                changed_only(&t0, &*table, &m0, &*mem, Set::empty()),
                mem.free_frames() >= m0.free_frames() - nodes_need(start as int, range.end.0 as int),
                forall|v: int|
                    v >= 0 ==> #[trigger] leaf(*mem, table.root.0 as int, v) == if range_offset(
                        start as int,
                        v,
                    ) < range.current.0 - start {
                        Some(spec_pte(start + range_offset(start as int, v), flags.bits | 1))
                    } else {
                        leaf(m0, t0.root.0 as int, v)
                    },
            decreases range.end.0 - range.current.0,
        {
            match range.next() {
                Some(vpn) => {
                    let ghost t1 = *table;
                    let ghost m1 = *mem;
                    let ghost k = vpn.0 - start;
                    let ghost cur = vpn.0 as int;
                    proof {
                        lemma_range_offset(start as int, vpn.0 as int, vpn.0 as int);
                        assert(leaf(*mem, table.root.0 as int, vpn.0 as int).is_none());
                        if cur > start && cur % 512 != 0 {
                            lemma_same_run(cur);
                            assert(table.l2@.contains_key((vpn_index(cur, 0), vpn_index(cur, 1))));
                            assert(table.l1@.contains_key(vpn_index(cur, 0)));
                            assert(table.missing_levels(cur) == 0);
                        }
                        lemma_nodes_left_step(start as int, cur, range.end.0 as int, table.missing_levels(cur));
                    }
                    table.map(mem, vpn, PhysPageNum(vpn.value()), flags);
                    proof {
                        assert forall|p: int| #[trigger] m1.allocated(p) == (m0.allocated(p) || (t1.is_node(p) && !t0.is_node(p))) by {}
                        assert(changed_only(&t1, &*table, &m1, &*mem, Set::empty()));
                        lemma_changed_only_trans(t0, t1, *table, m0, m1, *mem, Set::empty(), Set::empty());
                        assert(Set::<int>::empty().union(Set::<int>::empty()) =~= Set::<int>::empty());
                        assert forall|v: int| v >= 0 implies #[trigger] leaf(*mem, table.root.0 as int, v) == if range_offset(
                            start as int,
                            v,
                        ) < range.current.0 - start {
                            Some(spec_pte(start + range_offset(start as int, v), flags.bits | 1))
                        } else {
                            leaf(m0, t0.root.0 as int, v)
                        } by {
                            lemma_range_offset(start as int, vpn.0 as int, v);
                        }
                    }
                },
                None => {
                    break;
                },
            }
        }
    }
}


/// The frames that `alloc` records for the pages `[start, cur)`.
pub open spec fn frames_upto(alloc: Map<usize, FrameTracker>, start: int, cur: int) -> Set<int> {
    Set::new(
        |p: int|
            exists|v: int|
                start <= v < cur && #[trigger] alloc.contains_key(v as usize) && alloc[v as usize].ppn.0
                    == p,
    )
}

impl MapArea {
    /// The frames that the area's pages were given.
    pub open spec fn frame_set(&self) -> Set<int> {
        frames_upto(self.allocated@, self.range.start.0 as int, self.range.end.0 as int)
    }

    /// The frame recorded for page `v`.
    pub open spec fn frame_of(&self, v: int) -> int {
        self.allocated@[v as usize].ppn.0 as int
    }

    /// Gives page `vpn` a fresh zeroed frame, maps it there with `flags`
    /// plus the valid bit, and records the frame.
    fn alloc_page(&mut self, table: &mut PageTable, mem: &mut PhysMemory, vpn: VirtPageNum, flags: PTEFlags) -> (frame: FrameTracker)
        requires
            old(table).wf(&*old(mem)),
            old(mem).free_frames() >= 3,
            leaf(*old(mem), old(table).root.0 as int, vpn.0 as int).is_none(),
        ensures
            final(self).range == old(self).range,
            final(self).mtype == old(self).mtype,
            final(self).permission == old(self).permission,
            final(self).allocated@ == old(self).allocated@.insert(vpn.0, frame),
            final(table).wf(&*final(mem)),
            final(table).root == old(table).root,
            changed_only(&*old(table), &*final(table), &*old(mem), &*final(mem), set![frame.ppn.0 as int]),
            final(mem).free_frames() >= old(mem).free_frames() - 3,
            final(mem).allocated(frame.ppn.0 as int),
            !old(mem).allocated(frame.ppn.0 as int),
            !final(table).is_node(frame.ppn.0 as int),
            forall|o: int| 0 <= o < 4096 ==> #[trigger] final(mem).byte(frame.ppn.0 as int, o) == 0,
            forall|v: int|
                v >= 0 ==> #[trigger] leaf(*final(mem), final(table).root.0 as int, v) == if vpn_key(v)
                    == vpn_key(vpn.0 as int) {
                    Some(spec_pte(frame.ppn.0 as int, flags.bits | 1))
                } else {
                    leaf(*old(mem), old(table).root.0 as int, v)
                },
    {
        let ghost t1 = *table;
        let ghost m1 = *mem;
        let frame = mem.frame_alloc().unwrap();
        let ghost m2 = *mem;
        let ghost f = frame.ppn.0 as int;
        proof {
            assert(!t1.is_node(f)) by {
                if t1.is_node(f) {
                    super::table::lemma_nodes_allocated(t1, m1, f);
                }
            }
            assert forall|p: int, o: int| t1.is_node(p) implies #[trigger] m2.byte(p, o) == m1.byte(p, o) by {}
            assert forall|p: int| #[trigger] t1.is_node(p) implies m2.allocated(p) by {
                super::table::lemma_nodes_allocated(t1, m1, p);
            }
            super::table::lemma_nodes_untouched(t1, m1, m2);
            assert(leaf(m2, table.root.0 as int, vpn.0 as int).is_none());
            assert(frame.ppn.0 < PPN_LIMIT);
        }
        table.map(mem, vpn, frame.ppn(), flags);
        self.allocated.insert(vpn.0, frame);
        proof {
            let m3 = *mem;
            assert(!table.is_node(f)) by {
                if table.is_node(f) && !t1.is_node(f) {
                    assert(!m2.allocated(f));
                }
            }
            assert(changed_only(&t1, &t1, &m1, &m2, set![f])) by {
                assert forall|p: int| #[trigger] m2.allocated(p) == (m1.allocated(p) || (t1.is_node(p) && !t1.is_node(p)) || set![f].contains(p)) by {}
            }
            assert(changed_only(&t1, &*table, &m2, &m3, Set::empty())) by {
                assert forall|p: int| #[trigger] m3.allocated(p) == (m2.allocated(p) || (table.is_node(p) && !t1.is_node(p)) || Set::<int>::empty().contains(p)) by {}
            }
            lemma_changed_only_trans(t1, t1, *table, m1, m2, m3, set![f], Set::empty());
            assert(set![f].union(Set::<int>::empty()) =~= set![f]);
            assert(m3.allocated(f));
            assert forall|o: int| 0 <= o < 4096 implies #[trigger] m3.byte(f, o) == 0 by {
                assert(m2.byte(f, o) == 0);
                assert(m3.byte(f, o) == m2.byte(f, o));
            }
            assert forall|v: int| v >= 0 implies #[trigger] leaf(m3, table.root.0 as int, v) == if vpn_key(v) == vpn_key(vpn.0 as int) {
                Some(spec_pte(f, flags.bits | 1))
            } else {
                leaf(m1, t1.root.0 as int, v)
            } by {
                assert(leaf(m2, t1.root.0 as int, v) == leaf(m1, t1.root.0 as int, v));
            }
        }
        frame
    }

    /// Gives every page of the area a fresh zeroed frame and maps the page
    /// to it; the frames are recorded in `allocated`.
    fn map_alloc(&mut self, table: &mut PageTable, mem: &mut PhysMemory)
        requires
            old(table).wf(&*old(mem)),
            old(self).range.current == old(self).range.start,
            old(self).range.start.0 <= old(self).range.end.0,
            old(self).pages() <= VPN_SPACE,
            old(mem).free_frames() >= 3 * old(self).pages(),
            forall|v: int|
                old(self).range.start.0 <= v < old(self).range.end.0 ==> #[trigger] leaf(
                    *old(mem),
                    old(table).root.0 as int,
                    v,
                ).is_none(),
            forall|v: int|
                old(self).range.start.0 <= v < old(self).range.end.0 ==> !#[trigger] old(
                    self,
                ).allocated@.contains_key(v as usize),
        ensures
            final(self).range == old(self).range,
            final(self).mtype == old(self).mtype,
            final(self).permission == old(self).permission,
            final(table).wf(&*final(mem)),
            final(table).root == old(table).root,
            final(mem).free_frames() >= old(mem).free_frames() - 3 * old(self).pages(),
            alloc_inv(
                *old(table),
                *old(mem),
                old(self).allocated@,
                *final(table),
                *final(mem),
                final(self).allocated@,
                old(self).range.start.0 as int,
                old(self).range.end.0 as int,
                old(self).range.end.0 as int,
                old(self).permission.bits,
            ),
    {
        let flags = PTEFlags::from_bits(self.permission.bits()).unwrap();
        let mut range = self.range;
        let start = self.range.start.0;
        let end = self.range.end.0;
        let ghost t0 = *table;
        let ghost m0 = *mem;
        let ghost a0 = self.allocated@;
        proof {
            assert(frames_upto(a0, start as int, start as int) =~= Set::<int>::empty());
            assert forall|p: int| #[trigger] m0.allocated(p) == (m0.allocated(p) || (t0.is_node(p) && !t0.is_node(p)) || Set::<int>::empty().contains(p)) by {}
        }
        while range.current.0 < range.end.0
            invariant
                table.wf(mem),
                table.root == t0.root,
                t0.wf(&m0),
                self.range == old(self).range,
                self.mtype == old(self).mtype,
                self.permission == old(self).permission,
                a0 == old(self).allocated@,
                range.start == self.range.start,
                range.end == self.range.end,
                start <= range.current.0 <= range.end.0,
                start == self.range.start.0,
                end == self.range.end.0,
                self.pages() <= VPN_SPACE,
                flags.bits == self.permission.bits,
                mem.free_frames() >= m0.free_frames() - 3 * (range.current.0 - start),
                mem.free_frames() >= 3 * (range.end.0 - range.current.0),
                forall|v: int|
                    start <= v < end ==> #[trigger] leaf(m0, t0.root.0 as int, v).is_none(),
                forall|v: int| start <= v < end ==> !#[trigger] a0.contains_key(v as usize),
                alloc_inv(t0, m0, a0, *table, *mem, self.allocated@, start as int, range.current.0 as int, end as int, flags.bits),
            decreases range.end.0 - range.current.0,
        {
            let vpn = range.next().unwrap();
            let ghost t1 = *table;
            let ghost m1 = *mem;
            let ghost al1 = self.allocated@;
            proof {
                lemma_alloc_inv_leaf(t0, m0, a0, t1, m1, al1, start as int, vpn.0 as int, end as int, flags.bits);
            }
            let frame = self.alloc_page(table, mem, vpn, flags);
            proof {
                lemma_alloc_inv_step(t0, m0, a0, t1, m1, al1, *table, *mem, self.allocated@, start as int, vpn.0 as int, end as int, flags.bits, frame);
            }
        }
    }
}

/// What mapping the pages `[start, cur)` of an `Alloc` area established:
/// each has a distinct, zeroed, allocated frame that is not a node, recorded
/// in `al`; the table maps each page to its frame; everything else is as in
/// `t0`, `m0`, `a0`.
pub open spec fn alloc_inv(
    t0: PageTable,
    m0: PhysMemory,
    a0: Map<usize, FrameTracker>,
    t: PageTable,
    m: PhysMemory,
    al: Map<usize, FrameTracker>,
    start: int,
    cur: int,
    end: int,
    fl: u8,
) -> bool {
    &&& changed_only(&t0, &t, &m0, &m, frames_upto(al, start, cur))
    &&& pages_backed(t, m, al, start, cur)
    &&& frames_distinct(al, start, cur)
    &&& others_kept(a0, al, start, cur)
    &&& pages_mapped(t0, m0, t, m, al, start, cur, fl)
}

/// Each page of `[start, cur)` has a recorded frame that is allocated, is
/// no node of `t`, and holds only zeros.
pub open spec fn pages_backed(t: PageTable, m: PhysMemory, al: Map<usize, FrameTracker>, start: int, cur: int) -> bool {
    forall|v: int|
        start <= v < cur ==> {
            &&& #[trigger] al.contains_key(v as usize)
            &&& m.allocated(al[v as usize].ppn.0 as int)
            &&& !t.is_node(al[v as usize].ppn.0 as int)
            &&& zeroed(m, al[v as usize].ppn.0 as int)
        }
}

/// Every byte of frame `f` is zero.
pub open spec fn zeroed(m: PhysMemory, f: int) -> bool {
    forall|o: int| 0 <= o < 4096 ==> #[trigger] m.byte(f, o) == 0
}

/// No two pages of `[start, cur)` share a frame.
pub open spec fn frames_distinct(al: Map<usize, FrameTracker>, start: int, cur: int) -> bool {
    forall|v1: int, v2: int|
        start <= v1 < cur && start <= v2 < cur && v1 != v2 ==> #[trigger] al[v1 as usize].ppn
            != #[trigger] al[v2 as usize].ppn
}

/// Outside `[start, cur)` the record is as it was.
pub open spec fn others_kept(a0: Map<usize, FrameTracker>, al: Map<usize, FrameTracker>, start: int, cur: int) -> bool {
    forall|k: usize|
        !(start <= k < cur) ==> #[trigger] al.contains_key(k) == a0.contains_key(k) && (a0.contains_key(k)
            ==> al[k] == a0[k])
}

/// The table maps each page of `[start, cur)` to its recorded frame, and
/// every other page as before.
pub open spec fn pages_mapped(
    t0: PageTable,
    m0: PhysMemory,
    t: PageTable,
    m: PhysMemory,
    al: Map<usize, FrameTracker>,
    start: int,
    cur: int,
    fl: u8,
) -> bool {
    forall|v: int|
        v >= 0 ==> #[trigger] leaf(m, t.root.0 as int, v) == if range_offset(start, v) < cur - start {
            Some(spec_pte(al[(start + range_offset(start, v)) as usize].ppn.0 as int, fl | 1))
        } else {
            leaf(m0, t0.root.0 as int, v)
        }
}

proof fn lemma_alloc_inv_leaf(
    t0: PageTable,
    m0: PhysMemory,
    a0: Map<usize, FrameTracker>,
    t1: PageTable,
    m1: PhysMemory,
    al1: Map<usize, FrameTracker>,
    start: int,
    vpn: int,
    end: int,
    fl: u8,
)
    requires
        alloc_inv(t0, m0, a0, t1, m1, al1, start, vpn, end, fl),
        0 <= start <= vpn < end,
        end - start <= VPN_SPACE,
        forall|v: int| start <= v < end ==> #[trigger] leaf(m0, t0.root.0 as int, v).is_none(),
    ensures
        leaf(m1, t1.root.0 as int, vpn).is_none(),
{
    lemma_range_offset(start, vpn, vpn);
    assert(leaf(m1, t1.root.0 as int, vpn) == leaf(m0, t0.root.0 as int, vpn));
}

proof fn lemma_alloc_inv_step(
    t0: PageTable,
    m0: PhysMemory,
    a0: Map<usize, FrameTracker>,
    t1: PageTable,
    m1: PhysMemory,
    al1: Map<usize, FrameTracker>,
    t3: PageTable,
    m3: PhysMemory,
    al: Map<usize, FrameTracker>,
    start: int,
    vpn: int,
    end: int,
    fl: u8,
    frame: FrameTracker,
)
    requires
        alloc_inv(t0, m0, a0, t1, m1, al1, start, vpn, end, fl),
        0 <= start <= vpn < end,
        end - start <= VPN_SPACE,
        end <= usize::MAX,
        forall|v: int| start <= v < end ==> !#[trigger] a0.contains_key(v as usize),
        al == al1.insert(vpn as usize, frame),
        changed_only(&t1, &t3, &m1, &m3, set![frame.ppn.0 as int]),
        m3.allocated(frame.ppn.0 as int),
        !m1.allocated(frame.ppn.0 as int),
        !t3.is_node(frame.ppn.0 as int),
        forall|o: int| 0 <= o < 4096 ==> #[trigger] m3.byte(frame.ppn.0 as int, o) == 0,
        forall|v: int|
            v >= 0 ==> #[trigger] leaf(m3, t3.root.0 as int, v) == if vpn_key(v) == vpn_key(vpn) {
                Some(spec_pte(frame.ppn.0 as int, fl | 1))
            } else {
                leaf(m1, t1.root.0 as int, v)
            },
    ensures
        alloc_inv(t0, m0, a0, t3, m3, al, start, vpn + 1, end, fl),
{
    let f = frame.ppn.0 as int;
    assert forall|v: int| start <= v < vpn implies #[trigger] al1[v as usize].ppn.0 != f by {
        assert(al1.contains_key(v as usize));
        assert(m1.allocated(al1[v as usize].ppn.0 as int));
    }
    let d_old = frames_upto(al1, start, vpn);
    let d_new = frames_upto(al, start, vpn + 1);
    assert(d_new =~= d_old.union(set![f])) by {
        assert forall|p: int| d_new.contains(p) implies d_old.union(set![f]).contains(p) by {
            let v = choose|v: int| start <= v < vpn + 1 && #[trigger] al.contains_key(v as usize) && al[v as usize].ppn.0 == p;
            if v != vpn {
                assert(al1.contains_key(v as usize));
                assert(al[v as usize] == al1[v as usize]);
            }
        }
        assert forall|p: int| d_old.union(set![f]).contains(p) implies d_new.contains(p) by {
            if p == f {
                assert(al.contains_key(vpn as usize) && al[vpn as usize].ppn.0 == p);
            } else {
                let v = choose|v: int| start <= v < vpn && #[trigger] al1.contains_key(v as usize) && al1[v as usize].ppn.0 == p;
                assert(al.contains_key(v as usize));
                assert(al[v as usize] == al1[v as usize]);
            }
        }
    }
    lemma_changed_only_trans(t0, t1, t3, m0, m1, m3, d_old, set![f]);
    let cur = vpn + 1;
    assert forall|v: int| start <= v < cur implies {
        &&& #[trigger] al.contains_key(v as usize)
        &&& m3.allocated(al[v as usize].ppn.0 as int)
        &&& !t3.is_node(al[v as usize].ppn.0 as int)
        &&& zeroed(m3, al[v as usize].ppn.0 as int)
    } by {
        if v != vpn {
            let g = al1[v as usize].ppn.0 as int;
            assert(al1.contains_key(v as usize));
            assert(al[v as usize] == al1[v as usize]);
            assert(m1.allocated(g));
            assert(m3.allocated(g));
            assert(!t3.is_node(g)) by {
                if t3.is_node(g) && !t1.is_node(g) {
                    assert(!m1.allocated(g));
                }
            }
            assert forall|o: int| 0 <= o < 4096 implies #[trigger] m3.byte(g, o) == 0 by {
                assert(m1.byte(g, o) == 0);
                assert(m3.byte(g, o) == m1.byte(g, o));
            }
        }
    }
    assert forall|v1: int, v2: int|
        start <= v1 < cur && start <= v2 < cur && v1 != v2 implies #[trigger] al[v1 as usize].ppn
            != #[trigger] al[v2 as usize].ppn by {
        if v1 != vpn && v2 != vpn {
            assert(al[v1 as usize] == al1[v1 as usize]);
            assert(al[v2 as usize] == al1[v2 as usize]);
        } else if v1 == vpn {
            assert(al[v2 as usize] == al1[v2 as usize]);
        } else {
            assert(al[v1 as usize] == al1[v1 as usize]);
        }
    }
    assert forall|v: int| v >= 0 implies #[trigger] leaf(m3, t3.root.0 as int, v) == if range_offset(start, v) < cur - start {
        Some(spec_pte(al[(start + range_offset(start, v)) as usize].ppn.0 as int, fl | 1))
    } else {
        leaf(m0, t0.root.0 as int, v)
    } by {
        lemma_range_offset(start, vpn, v);
        let off = range_offset(start, v);
        if off < vpn - start {
            assert(al1.contains_key((start + off) as usize));
            assert(al[(start + off) as usize] == al1[(start + off) as usize]);
            assert(vpn_key(v) != vpn_key(vpn));
            assert(leaf(m1, t1.root.0 as int, v) == Some(spec_pte(al1[(start + off) as usize].ppn.0 as int, fl | 1)));
        } else if off == vpn - start {
            assert(vpn_key(v) == vpn_key(vpn));
            assert((start + off) as usize == vpn as usize);
            assert(al[vpn as usize] == frame);
        } else {
            assert(vpn_key(v) != vpn_key(vpn));
        }
    }
    assert forall|k: usize| !(start <= k < cur) implies #[trigger] al.contains_key(k) == a0.contains_key(k) && (a0.contains_key(k)
            ==> al[k] == a0[k]) by {
        assert(k != vpn as usize);
        assert(al1.contains_key(k) == a0.contains_key(k));
    }
    assert(changed_only(&t0, &t3, &m0, &m3, d_new));
    assert(pages_backed(t3, m3, al, start, cur));
    assert(frames_distinct(al, start, cur));
    assert(others_kept(a0, al, start, cur));
    assert(pages_mapped(t0, m0, t3, m3, al, start, cur, fl));
}

impl MapArea {
    /// What mapping the area leaves behind when it is mapped into table
    /// `t0` of memory `m0` with record `a0`, giving table `t` of memory `m`
    /// with record `al`: an `Identical` area maps each page to the frame
    /// with the same number and allocates nothing; an `Alloc` area gives
    /// each page a fresh zeroed frame of its own.
    pub open spec fn mapped(
        &self,
        t0: PageTable,
        m0: PhysMemory,
        a0: Map<usize, FrameTracker>,
        t: PageTable,
        m: PhysMemory,
        al: Map<usize, FrameTracker>,
    ) -> bool {
        let start = self.range.start.0 as int;
        let end = self.range.end.0 as int;
        let fl = self.permission.bits;
        match self.mtype {
            MapType::Identical => {
                &&& al == a0
                &&& changed_only(&t0, &t, &m0, &m, Set::empty())
                &&& forall|v: int|
                    v >= 0 ==> #[trigger] leaf(m, t.root.0 as int, v) == if range_offset(start, v)
                        < end - start {
                        Some(spec_pte(start + range_offset(start, v), fl | 1))
                    } else {
                        leaf(m0, t0.root.0 as int, v)
                    }
            },
            MapType::Alloc => alloc_inv(t0, m0, a0, t, m, al, start, end, end, fl),
        }
    }

    /// Maps the pages of the area into `table`, as its type says.
    pub fn map(&mut self, table: &mut PageTable, mem: &mut PhysMemory)
        requires
            old(table).wf(&*old(mem)),
            old(self).range.current == old(self).range.start,
            old(self).range.start.0 <= old(self).range.end.0,
            old(self).pages() <= VPN_SPACE,
            old(self).mtype == MapType::Identical ==> old(self).range.end.0 <= PPN_LIMIT,
            old(mem).free_frames() >= area_need(*old(self)),
            forall|v: int|
                old(self).range.start.0 <= v < old(self).range.end.0 ==> #[trigger] leaf(
                    *old(mem),
                    old(table).root.0 as int,
                    v,
                ).is_none(),
            forall|v: int|
                old(self).range.start.0 <= v < old(self).range.end.0 ==> !#[trigger] old(
                    self,
                ).allocated@.contains_key(v as usize),
        ensures
            final(self).range == old(self).range,
            final(self).mtype == old(self).mtype,
            final(self).permission == old(self).permission,
            final(table).wf(&*final(mem)),
            final(table).root == old(table).root,
            final(mem).free_frames() >= old(mem).free_frames() - area_need(*old(self)),
            final(mem).free_frames() >= old(mem).free_frames() - 3 * old(self).pages(),
            old(self).mapped(
                *old(table),
                *old(mem),
                old(self).allocated@,
                *final(table),
                *final(mem),
                final(self).allocated@,
            ),
    {
        proof {
            lemma_area_need(*self);
        }
        match self.mtype {
            MapType::Identical => self.map_identical(table, mem),
            MapType::Alloc => self.map_alloc(table, mem),
        }
    }
}

/// The frame that page `v` is mapped to in table `t`.
pub open spec fn page_frame(m: PhysMemory, t: PageTable, v: int) -> int {
    (leaf(m, t.root.0 as int, v).unwrap().spec_ppn() as usize) as int
}

/// How many pages `n` bytes of data reach into; the first page is reached
/// even by no data.
pub open spec fn data_pages(n: int) -> int {
    if n == 0 {
        1
    } else {
        (n - 1) / 4096 + 1
    }
}

/// Whether `p` is the frame of one of the `np` pages from `first`.
pub open spec fn is_data_frame(m: PhysMemory, t: PageTable, first: int, np: int, p: int) -> bool {
    exists|k: int| 0 <= k < np && #[trigger] page_frame(m, t, first + k) == p
}

impl MapArea {
    /// Copies `data` into the frames of the area's pages, page by page from
    /// the cursor of its range.
    #[verifier::rlimit(90)]
    fn copy_data(&self, table: &PageTable, mem: &mut PhysMemory, data: &[u8])
        requires
            self.mtype == MapType::Alloc,
            table.wf(&*old(mem)),
            self.range.current.0 + data_pages(data@.len() as int) <= usize::MAX,
            forall|k: int|
                0 <= k < data_pages(data@.len() as int) ==> {
                    &&& #[trigger] leaf(*old(mem), table.root.0 as int, self.range.current.0 + k).is_some()
                    &&& old(mem).in_pool(page_frame(*old(mem), *table, self.range.current.0 + k))
                    &&& !table.is_node(page_frame(*old(mem), *table, self.range.current.0 + k))
                },
            forall|k1: int, k2: int|
                0 <= k1 < data_pages(data@.len() as int) && 0 <= k2 < data_pages(data@.len() as int)
                    && k1 != k2 ==> #[trigger] page_frame(*old(mem), *table, self.range.current.0 + k1)
                    != #[trigger] page_frame(*old(mem), *table, self.range.current.0 + k2),
        ensures
            final(mem).wf(),
            final(mem).base == old(mem).base,
            final(mem).current == old(mem).current,
            final(mem).end == old(mem).end,
            final(mem).recycled@ == old(mem).recycled@,
            table.wf(&*final(mem)),
            forall|v: int| v >= 0 ==> #[trigger] leaf(*final(mem), table.root.0 as int, v) == leaf(*old(mem), table.root.0 as int, v),
            forall|k: int, o: int|
                0 <= k < data_pages(data@.len() as int) && 0 <= o < 4096 ==> #[trigger] final(mem).byte(
                    page_frame(*old(mem), *table, self.range.current.0 + k),
                    o,
                ) == if k * 4096 + o < data@.len() {
                    data@[k * 4096 + o]
                } else {
                    old(mem).byte(page_frame(*old(mem), *table, self.range.current.0 + k), o)
                },
            forall|p: int, o: int|
                !is_data_frame(*old(mem), *table, self.range.current.0 as int, data_pages(data@.len() as int), p)
                    ==> #[trigger] final(mem).byte(p, o) == old(mem).byte(p, o),
    {
        let len = data.len();
        let np: usize = if len == 0 { 1 } else { (len - 1) / PAGE_SIZE + 1 };
        let first = self.range.current();
        let ghost m0 = *mem;
        let ghost t = *table;
        let ghost f0 = first.0 as int;
        proof {
            assert(np == data_pages(len as int));
            assert((np - 1) * 4096 <= len) by (nonlinear_arith)
                requires np == if len == 0 { 1 } else { (len - 1) / 4096 + 1 };
        }
        let mut k: usize = 0;
        while k < np
            invariant
                np == data_pages(data@.len() as int),
                len == data@.len(),
                (np - 1) * 4096 <= len,
                f0 == first.0,
                first.0 + np <= usize::MAX,
                k <= np,
                t == *table,
                t.wf(&m0),
                mem.wf(),
                mem.base == m0.base,
                mem.current == m0.current,
                mem.end == m0.end,
                mem.recycled@ == m0.recycled@,
                forall|j: int|
                    0 <= j < np ==> {
                        &&& #[trigger] leaf(m0, t.root.0 as int, f0 + j).is_some()
                        &&& m0.in_pool(page_frame(m0, t, f0 + j))
                        &&& !t.is_node(page_frame(m0, t, f0 + j))
                    },
                forall|k1: int, k2: int|
                    0 <= k1 < np && 0 <= k2 < np && k1 != k2 ==> #[trigger] page_frame(m0, t, f0 + k1)
                        != #[trigger] page_frame(m0, t, f0 + k2),
                forall|j: int, o: int|
                    0 <= j < np && 0 <= o < 4096 ==> #[trigger] mem.byte(page_frame(m0, t, f0 + j), o)
                        == if j < k && j * 4096 + o < len {
                        data@[j * 4096 + o]
                    } else {
                        m0.byte(page_frame(m0, t, f0 + j), o)
                    },
                forall|p: int, o: int|
                    !is_data_frame(m0, t, f0, np as int, p) ==> #[trigger] mem.byte(p, o) == m0.byte(p, o),
            decreases np - k,
        {
            let ghost m1 = *mem;
            proof {
                assert(k * 4096 <= (np - 1) * 4096) by (nonlinear_arith)
                    requires k < np;
                assert(leaf(m0, t.root.0 as int, f0 + k).is_some());
                lemma_data_untouched_nodes(t, m0, m1, f0, np as int);
            }
            let vpn = VirtPageNum(first.0 + k);
            let e = table.translate(mem, vpn).unwrap();
            let ppn = e.ppn();
            let lo: usize = k * PAGE_SIZE;
            let hi: usize = if len - lo > PAGE_SIZE { lo + PAGE_SIZE } else { len };
            let chunk = &data[lo..hi];
            proof {
                t.lemma_walk(&m0, f0 + k);
                t.lemma_walk(&m1, f0 + k);
                assert(leaf(m1, t.root.0 as int, f0 + k) == leaf(m0, t.root.0 as int, f0 + k));
                assert(ppn.0 == page_frame(m0, t, f0 + k));
            }
            mem.write_bytes(ppn, chunk);
            proof {
                let g = ppn.0 as int;
                assert forall|j: int, o: int|
                    0 <= j < np && 0 <= o < 4096 implies #[trigger] mem.byte(page_frame(m0, t, f0 + j), o)
                        == if j < k + 1 && j * 4096 + o < len {
                        data@[j * 4096 + o]
                    } else {
                        m0.byte(page_frame(m0, t, f0 + j), o)
                    } by {
                    if j != k {
                        assert(page_frame(m0, t, f0 + j) != page_frame(m0, t, f0 + k));
                        assert(mem.byte(page_frame(m0, t, f0 + j), o) == m1.byte(page_frame(m0, t, f0 + j), o));
                    } else {
                        assert(m1.byte(g, o) == m0.byte(g, o));
                    }
                }
                assert forall|p: int, o: int|
                    !is_data_frame(m0, t, f0, np as int, p) implies #[trigger] mem.byte(p, o) == m0.byte(p, o) by {
                    if p == g {
                        assert(page_frame(m0, t, f0 + k) == p);
                    }
                    assert(mem.byte(p, o) == m1.byte(p, o));
                }
            }
            k = k + 1;
        }
        proof {
            lemma_data_untouched_nodes(t, m0, *mem, f0, np as int);
        }
    }
}

/// Writing only into the data frames, which are no nodes, leaves the table
/// and its mappings as they were.
proof fn lemma_data_untouched_nodes(t: PageTable, m0: PhysMemory, m1: PhysMemory, f0: int, np: int)
    requires
        t.wf(&m0),
        m1.wf(),
        m1.base == m0.base,
        m1.current == m0.current,
        m1.recycled@ == m0.recycled@,
        forall|j: int| 0 <= j < np ==> !t.is_node(#[trigger] page_frame(m0, t, f0 + j)),
        forall|p: int, o: int| !is_data_frame(m0, t, f0, np, p) ==> #[trigger] m1.byte(p, o) == m0.byte(p, o),
    ensures
        t.wf(&m1),
        forall|v: int| v >= 0 ==> #[trigger] leaf(m1, t.root.0 as int, v) == leaf(m0, t.root.0 as int, v),
{
    assert forall|p: int, o: int| t.is_node(p) implies #[trigger] m1.byte(p, o) == m0.byte(p, o) by {
        if is_data_frame(m0, t, f0, np, p) {
            let j = choose|j: int| 0 <= j < np && #[trigger] page_frame(m0, t, f0 + j) == p;
            assert(!t.is_node(page_frame(m0, t, f0 + j)));
        }
    }
    assert forall|p: int| #[trigger] t.is_node(p) implies m1.allocated(p) by {
        super::table::lemma_nodes_allocated(t, m0, p);
    }
    super::table::lemma_nodes_untouched(t, m0, m1);
}


/// Frame `f` holds `data` from position `at` on, and zeros past its end.
pub open spec fn holds(m: PhysMemory, f: int, data: Seq<u8>, at: int) -> bool {
    forall|o: int|
        0 <= o < 4096 ==> #[trigger] m.byte(f, o) == if at + o < data.len() {
            data[at + o]
        } else {
            0
        }
}

/// Each page of `[start, end)` has its own allocated frame, recorded in
/// `al`, that is no node of `t` and holds the page's share of `data`.
pub open spec fn pages_hold(
    t: PageTable,
    m: PhysMemory,
    al: Map<usize, FrameTracker>,
    start: int,
    end: int,
    data: Seq<u8>,
) -> bool {
    forall|v: int|
        start <= v < end ==> {
            &&& #[trigger] al.contains_key(v as usize)
            &&& m.allocated(al[v as usize].ppn.0 as int)
            &&& !t.is_node(al[v as usize].ppn.0 as int)
            &&& holds(m, al[v as usize].ppn.0 as int, data, (v - start) * 4096)
        }
}

impl MapArea {
    /// The area, as it stands after being pushed into table `t0` of memory
    /// `m0` with initial contents `data`, is in place in table `t` of memory
    /// `m`: an `Identical` area maps each of its pages to the frame with the
    /// same number; an `Alloc` area maps each page to a distinct, fresh
    /// frame recorded in `allocated` that holds the page's share of `data`,
    /// zero-padded.  Every other page keeps its mapping, and only the new
    /// frames and nodes of the table were written.
    pub open spec fn placed(&self, t0: PageTable, m0: PhysMemory, t: PageTable, m: PhysMemory, data: Seq<u8>) -> bool {
        let start = self.range.start.0 as int;
        let end = self.range.end.0 as int;
        let fl = self.permission.bits;
        let al = self.allocated@;
        match self.mtype {
            MapType::Identical => {
                &&& changed_only(&t0, &t, &m0, &m, Set::empty())
                &&& forall|v: int|
                    v >= 0 ==> #[trigger] leaf(m, t.root.0 as int, v) == if range_offset(start, v)
                        < end - start {
                        Some(spec_pte(start + range_offset(start, v), fl | 1))
                    } else {
                        leaf(m0, t0.root.0 as int, v)
                    }
            },
            MapType::Alloc => {
                &&& changed_only(&t0, &t, &m0, &m, frames_upto(al, start, end))
                &&& pages_hold(t, m, al, start, end, data)
                &&& frames_distinct(al, start, end)
                &&& pages_mapped(t0, m0, t, m, al, start, end, fl)
            },
        }
    }
}

/// Every frame in use that is no node of `t0` is still in use, is no node
/// of `t1`, and holds what it held.
pub open spec fn keeps_frames(t0: PageTable, m0: PhysMemory, t1: PageTable, m1: PhysMemory) -> bool {
    forall|p: int|
        #[trigger] m0.allocated(p) && !t0.is_node(p) ==> m1.allocated(p) && !t1.is_node(p) && m1.frame(p)
            == m0.frame(p)
}

/// Changing only new nodes and new frames keeps the frames in use.
pub proof fn lemma_changed_keeps(t0: PageTable, m0: PhysMemory, t1: PageTable, m1: PhysMemory, f: Set<int>)
    requires
        changed_only(&t0, &t1, &m0, &m1, f),
    ensures
        keeps_frames(t0, m0, t1, m1),
{
    assert forall|p: int| #[trigger] m0.allocated(p) && !t0.is_node(p) implies m1.allocated(p) && !t1.is_node(p)
        && m1.frame(p) == m0.frame(p) by {
        assert(m1.allocated(p));
        assert(!t1.is_node(p));
        assert(!f.contains(p));
        assert(m1.frame(p) =~= m0.frame(p)) by {
            assert forall|o: int| 0 <= o < 4096 implies m1.frame(p)[o] == m0.frame(p)[o] by {
                assert(m1.byte(p, o) == m0.byte(p, o));
            }
        }
    }
}

/// Keeping the frames in use twice keeps them.
pub proof fn lemma_keeps_trans(
    t0: PageTable,
    m0: PhysMemory,
    t1: PageTable,
    m1: PhysMemory,
    t2: PageTable,
    m2: PhysMemory,
)
    requires
        keeps_frames(t0, m0, t1, m1),
        keeps_frames(t1, m1, t2, m2),
    ensures
        keeps_frames(t0, m0, t2, m2),
{
    assert forall|p: int| #[trigger] m0.allocated(p) && !t0.is_node(p) implies m2.allocated(p) && !t2.is_node(p)
        && m2.frame(p) == m0.frame(p) by {
        assert(m1.allocated(p) && !t1.is_node(p));
    }
}

/// The pages of an address space: a page table and the areas mapped in it.
pub struct MemorySet {
    pub table: PageTable,
    pub areas: Vec<MapArea>,
}

impl MemorySet {
    /// An address space with an empty table and no area.
    pub fn new(mem: &mut PhysMemory) -> (r: Self)
        requires
            old(mem).wf(),
            old(mem).free_frames() >= 1,
        ensures
            r.table.wf(&*final(mem)),
            r.table.l1@ == Map::<int, int>::empty(),
            r.table.l2@ == Map::<(int, int), int>::empty(),
            r.areas@.len() == 0,
            forall|v: int| #[trigger] leaf(*final(mem), r.table.root.0 as int, v).is_none(),
            final(mem).free_frames() == old(mem).free_frames() - 1,
            final(mem).base == old(mem).base,
            final(mem).end == old(mem).end,
            !old(mem).allocated(r.table.root.0 as int),
            old(mem).same_except(&*final(mem), set![r.table.root.0 as int]),
            forall|p: int|
                #[trigger] final(mem).allocated(p) == (old(mem).allocated(p) || p == r.table.root.0),
    {
        MemorySet { table: PageTable::new(mem), areas: Vec::new() }
    }

    /// The `satp` value that selects this address space in Sv39 mode.
    pub fn satp_bits(&self) -> (r: u64)
        ensures
            r == (8u64 << 60u64) | (self.table.root.0 as u64),
    {
        self.table.satp_bits(Mode::Sv39)
    }

    /// Maps `area` into the address space and keeps it; an `Alloc` area
    /// given `data` receives it in its frames, page by page from its first
    /// page.
    pub fn push(&mut self, area: MapArea, data: Option<&[u8]>, mem: &mut PhysMemory)
        requires
            old(self).table.wf(&*old(mem)),
            area.range.current == area.range.start,
            area.range.start.0 <= area.range.end.0,
            area.pages() <= VPN_SPACE,
            area.mtype == MapType::Identical ==> area.range.end.0 <= PPN_LIMIT,
            old(mem).free_frames() >= area_need(area),
            forall|v: int|
                area.range.start.0 <= v < area.range.end.0 ==> #[trigger] leaf(
                    *old(mem),
                    old(self).table.root.0 as int,
                    v,
                ).is_none(),
            forall|v: int|
                area.range.start.0 <= v < area.range.end.0 ==> !#[trigger] area.allocated@.contains_key(v as usize),
            data.is_some() ==> {
                &&& area.mtype == MapType::Alloc
                &&& area.pages() >= 1
                &&& data.unwrap()@.len() <= area.pages() * 4096
            },
        ensures
            final(self).table.wf(&*final(mem)),
            final(self).table.root == old(self).table.root,
            final(mem).free_frames() >= old(mem).free_frames() - area_need(area),
            final(mem).free_frames() >= old(mem).free_frames() - 3 * area.pages(),
            final(self).areas@.len() == old(self).areas@.len() + 1,
            forall|i: int| 0 <= i < old(self).areas@.len() ==> #[trigger] final(self).areas@[i] == old(self).areas@[i],
            final(self).areas@.last().range == area.range,
            final(self).areas@.last().mtype == area.mtype,
            final(self).areas@.last().permission == area.permission,
            area.mtype == MapType::Identical ==> final(self).areas@.last().allocated@ == area.allocated@,
            final(self).areas@.last().placed(
                old(self).table,
                *old(mem),
                final(self).table,
                *final(mem),
                match data {
                    Some(d) => d@,
                    None => Seq::empty(),
                },
            ),
    {
        let ghost t0 = self.table;
        let ghost m0 = *mem;
        let ghost a0 = area.allocated@;
        let mut area = area;
        area.map(&mut self.table, mem);
        let ghost m1 = *mem;
        let ghost d: Seq<u8> = match data {
            Some(d) => d@,
            None => Seq::empty(),
        };
        match data {
            Some(bytes) => {
                proof {
                    lemma_copy_ready(area, t0, m0, a0, self.table, m1, bytes@);
                }
                area.copy_data(&self.table, mem, bytes);
                proof {
                    lemma_placed_after_copy(area, t0, m0, a0, self.table, m1, *mem, bytes@);
                }
            },
            None => {
                proof {
                    lemma_placed_without_data(area, t0, m0, a0, self.table, m1);
                }
            },
        }
        self.areas.push(area);
    }
}

/// An entry built for a frame of the pool names that frame again.
pub proof fn lemma_spec_pte_ppn(p: int, f: u8)
    requires
        0 <= p < PPN_LIMIT,
        p <= usize::MAX,
    ensures
        (spec_pte(p, f).spec_ppn() as usize) as int == p,
{
    super::pte::law_pte_round_trip(p as u64, f);
    let e = PageTableEntry { bits: (((p as u64) << 10) | (f as u64)) };
    assert(spec_pte(p, f) == e);
}

/// After an `Alloc` area is mapped, its page `v` is mapped to the frame
/// recorded for it.
proof fn lemma_alloc_frame(
    area: MapArea,
    t0: PageTable,
    m0: PhysMemory,
    a0: Map<usize, FrameTracker>,
    t: PageTable,
    m1: PhysMemory,
    v: int,
)
    requires
        area.mtype == MapType::Alloc,
        area.range.start.0 <= v < area.range.end.0,
        area.pages() <= VPN_SPACE,
        alloc_inv(t0, m0, a0, t, m1, area.allocated@, area.range.start.0 as int, area.range.end.0 as int, area.range.end.0 as int, area.permission.bits),
    ensures
        leaf(m1, t.root.0 as int, v).is_some(),
        page_frame(m1, t, v) == area.allocated@[v as usize].ppn.0,
{
    let start = area.range.start.0 as int;
    lemma_range_offset(start, v, v);
    assert(area.allocated@.contains_key(v as usize));
    let f = area.allocated@[v as usize].ppn.0 as int;
    assert(m1.allocated(f));
    assert(leaf(m1, t.root.0 as int, v) == Some(spec_pte(f, (area.permission.bits | 1) as u8)));
    lemma_spec_pte_ppn(f, (area.permission.bits | 1) as u8);
}

/// The data fits the area and may be copied into its frames.
proof fn lemma_copy_ready(
    area: MapArea,
    t0: PageTable,
    m0: PhysMemory,
    a0: Map<usize, FrameTracker>,
    t: PageTable,
    m1: PhysMemory,
    data: Seq<u8>,
)
    requires
        area.mtype == MapType::Alloc,
        area.range.current == area.range.start,
        area.range.start.0 <= area.range.end.0,
        area.pages() >= 1,
        area.pages() <= VPN_SPACE,
        data.len() <= area.pages() * 4096,
        t.wf(&m1),
        alloc_inv(t0, m0, a0, t, m1, area.allocated@, area.range.start.0 as int, area.range.end.0 as int, area.range.end.0 as int, area.permission.bits),
    ensures
        data_pages(data.len() as int) <= area.pages(),
        area.range.current.0 + data_pages(data.len() as int) <= usize::MAX,
        forall|k: int|
            0 <= k < data_pages(data.len() as int) ==> {
                &&& #[trigger] leaf(m1, t.root.0 as int, area.range.current.0 + k).is_some()
                &&& m1.in_pool(page_frame(m1, t, area.range.current.0 + k))
                &&& !t.is_node(page_frame(m1, t, area.range.current.0 + k))
            },
        forall|k1: int, k2: int|
            0 <= k1 < data_pages(data.len() as int) && 0 <= k2 < data_pages(data.len() as int) && k1
                != k2 ==> #[trigger] page_frame(m1, t, area.range.current.0 + k1) != #[trigger] page_frame(
                m1,
                t,
                area.range.current.0 + k2,
            ),
{
    let n = data.len() as int;
    let pg = area.pages();
    let start = area.range.start.0 as int;
    assert(data_pages(n) <= pg) by (nonlinear_arith)
        requires
            n <= pg * 4096,
            pg >= 1,
            data_pages(n) == if n == 0 { 1 } else { (n - 1) / 4096 + 1 },
    ;
    assert forall|k: int| 0 <= k < data_pages(n) implies {
        &&& #[trigger] leaf(m1, t.root.0 as int, area.range.current.0 + k).is_some()
        &&& m1.in_pool(page_frame(m1, t, area.range.current.0 + k))
        &&& !t.is_node(page_frame(m1, t, area.range.current.0 + k))
    } by {
        lemma_alloc_frame(area, t0, m0, a0, t, m1, start + k);
        assert(area.allocated@.contains_key((start + k) as usize));
    }
    assert forall|k1: int, k2: int|
        0 <= k1 < data_pages(n) && 0 <= k2 < data_pages(n) && k1 != k2 implies #[trigger] page_frame(
        m1,
        t,
        area.range.current.0 + k1,
    ) != #[trigger] page_frame(m1, t, area.range.current.0 + k2) by {
        lemma_alloc_frame(area, t0, m0, a0, t, m1, start + k1);
        lemma_alloc_frame(area, t0, m0, a0, t, m1, start + k2);
        assert(area.allocated@[(start + k1) as usize].ppn != area.allocated@[(start + k2) as usize].ppn);
    }
}

/// An `Alloc` area mapped without data is in place with empty contents; an
/// `Identical` one is in place as mapped.
proof fn lemma_placed_without_data(
    area: MapArea,
    t0: PageTable,
    m0: PhysMemory,
    a0: Map<usize, FrameTracker>,
    t: PageTable,
    m1: PhysMemory,
)
    requires
        area.range.start.0 <= area.range.end.0,
        area.mapped(t0, m0, a0, t, m1, area.allocated@),
    ensures
        area.placed(t0, m0, t, m1, Seq::empty()),
{
    if area.mtype == MapType::Alloc {
        let start = area.range.start.0 as int;
        let end = area.range.end.0 as int;
        let al = area.allocated@;
        assert forall|v: int| start <= v < end implies {
            &&& #[trigger] al.contains_key(v as usize)
            &&& m1.allocated(al[v as usize].ppn.0 as int)
            &&& !t.is_node(al[v as usize].ppn.0 as int)
            &&& holds(m1, al[v as usize].ppn.0 as int, Seq::empty(), (v - start) * 4096)
        } by {
            assert(al.contains_key(v as usize));
            assert(zeroed(m1, al[v as usize].ppn.0 as int));
        }
    }
}

/// An `Alloc` area that was mapped and then given `data` is in place with
/// that data.
proof fn lemma_placed_after_copy(
    area: MapArea,
    t0: PageTable,
    m0: PhysMemory,
    a0: Map<usize, FrameTracker>,
    t: PageTable,
    m1: PhysMemory,
    m2: PhysMemory,
    data: Seq<u8>,
)
    requires
        area.mtype == MapType::Alloc,
        area.range.current == area.range.start,
        area.range.start.0 <= area.range.end.0,
        area.pages() >= 1,
        area.pages() <= VPN_SPACE,
        data.len() <= area.pages() * 4096,
        t.wf(&m1),
        alloc_inv(t0, m0, a0, t, m1, area.allocated@, area.range.start.0 as int, area.range.end.0 as int, area.range.end.0 as int, area.permission.bits),
        m2.wf(),
        m2.base == m1.base,
        m2.current == m1.current,
        m2.end == m1.end,
        m2.recycled@ == m1.recycled@,
        t.wf(&m2),
        forall|v: int| v >= 0 ==> #[trigger] leaf(m2, t.root.0 as int, v) == leaf(m1, t.root.0 as int, v),
        forall|k: int, o: int|
            0 <= k < data_pages(data.len() as int) && 0 <= o < 4096 ==> #[trigger] m2.byte(
                page_frame(m1, t, area.range.current.0 + k),
                o,
            ) == if k * 4096 + o < data.len() {
                data[k * 4096 + o]
            } else {
                m1.byte(page_frame(m1, t, area.range.current.0 + k), o)
            },
        forall|p: int, o: int|
            !is_data_frame(m1, t, area.range.current.0 as int, data_pages(data.len() as int), p)
                ==> #[trigger] m2.byte(p, o) == m1.byte(p, o),
    ensures
        area.placed(t0, m0, t, m2, data),
{
    let start = area.range.start.0 as int;
    let end = area.range.end.0 as int;
    let al = area.allocated@;
    let n = data.len() as int;
    let np = data_pages(n);
    let fl = area.permission.bits;
    lemma_copy_ready(area, t0, m0, a0, t, m1, data);
    let fs = frames_upto(al, start, end);
    // the data frames are frames of the area
    assert forall|p: int| is_data_frame(m1, t, start, np, p) implies fs.contains(p) by {
        let k = choose|k: int| 0 <= k < np && #[trigger] page_frame(m1, t, start + k) == p;
        lemma_alloc_frame(area, t0, m0, a0, t, m1, start + k);
        assert(al.contains_key((start + k) as usize));
    }
    // changed_only carries over
    assert forall|p: int| #[trigger] m2.allocated(p) == m1.allocated(p) by {}
    assert forall|p: int, o: int| !(t.is_node(p) || fs.contains(p)) implies #[trigger] m2.byte(p, o) == m0.byte(p, o) by {
        assert(!is_data_frame(m1, t, start, np, p));
        assert(m2.byte(p, o) == m1.byte(p, o));
        assert(m1.byte(p, o) == m0.byte(p, o));
    }
    assert forall|p: int| #[trigger] m2.allocated(p) == (m0.allocated(p) || (t.is_node(p) && !t0.is_node(p)) || fs.contains(p)) by {
        assert(m1.allocated(p) == (m0.allocated(p) || (t.is_node(p) && !t0.is_node(p)) || fs.contains(p)));
    }
    assert forall|p: int| #[trigger] m0.in_pool(p) implies m2.in_pool(p) by {
        assert(m1.in_pool(p));
    }
    assert(changed_only(&t0, &t, &m0, &m2, fs));
    // contents
    assert forall|v: int| start <= v < end implies {
        &&& #[trigger] al.contains_key(v as usize)
        &&& m2.allocated(al[v as usize].ppn.0 as int)
        &&& !t.is_node(al[v as usize].ppn.0 as int)
        &&& holds(m2, al[v as usize].ppn.0 as int, data, (v - start) * 4096)
    } by {
        assert(al.contains_key(v as usize));
        let f = al[v as usize].ppn.0 as int;
        let k = v - start;
        lemma_alloc_frame(area, t0, m0, a0, t, m1, v);
        assert(zeroed(m1, f));
        assert(m2.allocated(f) == m1.allocated(f));
        assert forall|o: int| 0 <= o < 4096 implies #[trigger] m2.byte(f, o) == if k * 4096 + o < n {
            data[k * 4096 + o]
        } else {
            0
        } by {
            assert(m1.byte(f, o) == 0);
            if k < np {
                assert(page_frame(m1, t, start + k) == f);
                assert(m2.byte(page_frame(m1, t, area.range.current.0 + k), o) == if k * 4096 + o < n {
                    data[k * 4096 + o]
                } else {
                    m1.byte(page_frame(m1, t, area.range.current.0 + k), o)
                });
            } else {
                assert(k * 4096 + o >= n) by (nonlinear_arith)
                    requires
                        k >= np,
                        o >= 0,
                        np == if n == 0 { 1 } else { (n - 1) / 4096 + 1 },
                        n >= 0,
                ;
                assert(!is_data_frame(m1, t, start, np, f)) by {
                    if is_data_frame(m1, t, start, np, f) {
                        let j = choose|j: int| 0 <= j < np && #[trigger] page_frame(m1, t, start + j) == f;
                        lemma_alloc_frame(area, t0, m0, a0, t, m1, start + j);
                        assert(al[(start + j) as usize].ppn != al[v as usize].ppn);
                    }
                }
                assert(m2.byte(f, o) == m1.byte(f, o));
            }
        }
    }
    assert(pages_hold(t, m2, al, start, end, data));
    assert forall|v: int| v >= 0 implies #[trigger] leaf(m2, t.root.0 as int, v) == if range_offset(start, v) < end - start {
        Some(spec_pte(al[(start + range_offset(start, v)) as usize].ppn.0 as int, fl | 1))
    } else {
        leaf(m0, t0.root.0 as int, v)
    } by {
        assert(leaf(m2, t.root.0 as int, v) == leaf(m1, t.root.0 as int, v));
    }
    assert(pages_mapped(t0, m0, t, m2, al, start, end, fl));
}

} // verus!
