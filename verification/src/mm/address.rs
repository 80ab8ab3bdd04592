//! Physical and virtual addresses, page numbers, and ranges of virtual pages.

use vstd::prelude::*;

use crate::config::PAGE_SIZE;

verus! {

/// Number of bits of a virtual page number that Sv39 translates
/// (three levels of nine bits).
pub const VPN_BITS: usize = 27;

/// Ceiling of `a / PAGE_SIZE`.
pub open spec fn ceil_pages(a: int) -> int {
    (a + PAGE_SIZE - 1) / (PAGE_SIZE as int)
}

/// The three nine-bit indexes of a page number, most significant first.
pub open spec fn vpn_index(vpn: int, level: int) -> int {
    if level == 0 {
        (vpn / 0x40000) % 512
    } else if level == 1 {
        (vpn / 0x200) % 512
    } else {
        vpn % 512
    }
}

/// A virtual address.
#[derive(Clone, Copy)]
pub struct VirtAddr(pub usize);

/// A virtual page number.
#[derive(Clone, Copy, PartialEq, Eq, Structural)]
pub struct VirtPageNum(pub usize);

/// A physical address.
#[derive(Clone, Copy)]
pub struct PhysAddr(pub usize);

/// A physical page (frame) number.
#[derive(Clone, Copy, PartialEq, Eq, Structural)]
pub struct PhysPageNum(pub usize);

proof fn lemma_low_bits(x: usize)
    ensures
        x & 4095 == x % 4096,
{
    assert(x & 4095 == x % 4096) by (bit_vector);
}

proof fn lemma_ceil(a: usize)
    ensures
        a / 4096 + 1 <= usize::MAX,
        a % 4096 == 0 ==> a / 4096 == ceil_pages(a as int),
        a % 4096 != 0 ==> a / 4096 + 1 == ceil_pages(a as int),
{
    assert(a / 4096 + 1 <= usize::MAX) by (nonlinear_arith);
    assert(a % 4096 == 0 ==> a / 4096 == (a + 4095) / 4096) by (nonlinear_arith);
    assert(a % 4096 != 0 ==> a / 4096 + 1 == (a + 4095) / 4096) by (nonlinear_arith);
}

impl VirtAddr {
    /// The address as an integer.
    pub fn value(&self) -> (r: usize)
        ensures
            r == self.0,
    {
        self.0
    }

    /// The page that holds this address.
    pub fn floor(&self) -> (r: VirtPageNum)
        ensures
            r.0 == self.0 / PAGE_SIZE,
    {
        VirtPageNum(self.0 / PAGE_SIZE)
    }

    /// The first page that starts at or above this address.
    pub fn ceil(&self) -> (r: VirtPageNum)
        ensures
            r.0 == ceil_pages(self.0 as int),
    {
        proof {
            lemma_ceil(self.0);
        }
        if self.0 % PAGE_SIZE == 0 {
            self.floor()
        } else {
            VirtPageNum(self.floor().0 + 1)
        }
    }

    /// The offset of this address within its page.
    pub fn page_offset(&self) -> (r: usize)
        ensures
            r == self.0 % PAGE_SIZE,
    {
        proof {
            lemma_low_bits(self.0);
        }
        self.0 & (PAGE_SIZE - 1)
    }

    /// Whether this address is the start of a page.
    pub fn aligned(&self) -> (r: bool)
        ensures
            r == (self.0 % PAGE_SIZE == 0),
    {
        self.page_offset() == 0
    }
}

impl VirtPageNum {
    /// A page number with the given value.
    pub fn new(value: usize) -> (r: Self)
        ensures
            r.0 == value,
    {
        Self(value)
    }

    /// The three nine-bit indexes that select this page at each level of an
    /// Sv39 page table, most significant first.
    pub fn indexes(&self) -> (r: [usize; 3])
        ensures
            r@.len() == 3,
            forall|i: int| 0 <= i < 3 ==> #[trigger] r@[i] == vpn_index(self.0 as int, i),
    {
        let vpn = self.0;
        let i2 = vpn & 511;
        let i1 = (vpn >> 9) & 511;
        let i0 = (vpn >> 18) & 511;
        proof {
            assert(vpn & 511 == vpn % 512) by (bit_vector);
            assert((vpn >> 9) & 511 == (vpn / 0x200) % 512) by (bit_vector);
            assert((vpn >> 18) & 511 == (vpn / 0x40000) % 512) by (bit_vector);
        }
        let r = [i0, i1, i2];
        assert(r@[0] == vpn_index(vpn as int, 0));
        assert(r@[1] == vpn_index(vpn as int, 1));
        assert(r@[2] == vpn_index(vpn as int, 2));
        r
    }

    /// The page number as an integer.
    pub fn value(&self) -> (r: usize)
        ensures
            r == self.0,
    {
        self.0
    }

    /// The address at which this page starts.
    pub fn addr(&self) -> (r: VirtAddr)
        requires
            self.0 * PAGE_SIZE <= usize::MAX,
        ensures
            r.0 == self.0 * PAGE_SIZE,
    {
        VirtAddr(self.0 * PAGE_SIZE)
    }
}

impl PhysAddr {
    /// The address as an integer.
    pub fn value(&self) -> (r: usize)
        ensures
            r == self.0,
    {
        self.0
    }

    /// The frame that holds this address.
    pub fn floor(&self) -> (r: PhysPageNum)
        ensures
            r.0 == self.0 / PAGE_SIZE,
    {
        PhysPageNum(self.0 / PAGE_SIZE)
    }

    /// The first frame that starts at or above this address.
    pub fn ceil(&self) -> (r: PhysPageNum)
        ensures
            r.0 == ceil_pages(self.0 as int),
    {
        proof {
            lemma_ceil(self.0);
        }
        if self.0 % PAGE_SIZE == 0 {
            self.floor()
        } else {
            PhysPageNum(self.floor().0 + 1)
        }
    }

    /// The offset of this address within its frame.
    pub fn page_offset(&self) -> (r: usize)
        ensures
            r == self.0 % PAGE_SIZE,
    {
        proof {
            lemma_low_bits(self.0);
        }
        self.0 & (PAGE_SIZE - 1)
    }

    /// Whether this address is the start of a frame.
    pub fn aligned(&self) -> (r: bool)
        ensures
            r == (self.0 % PAGE_SIZE == 0),
    {
        self.page_offset() == 0
    }
}

impl PhysPageNum {
    /// The frame number as an integer.
    pub fn value(&self) -> (r: usize)
        ensures
            r == self.0,
    {
        self.0
    }

    /// The address at which this frame starts.
    pub fn addr(&self) -> (r: PhysAddr)
        requires
            self.0 * PAGE_SIZE <= usize::MAX,
        ensures
            r.0 == self.0 * PAGE_SIZE,
    {
        PhysAddr(self.0 * PAGE_SIZE)
    }
}

/// A range `[start, end)` of virtual pages together with a cursor, walked
/// from `start` upwards.
#[derive(Clone, Copy)]
pub struct VPNRange {
    pub start: VirtPageNum,
    pub current: VirtPageNum,
    pub end: VirtPageNum,
}

impl VPNRange {
    /// The range `[start, end)` with its cursor at `start`.
    pub fn new(start: VirtPageNum, end: VirtPageNum) -> (r: Self)
        ensures
            r.start == start,
            r.current == start,
            r.end == end,
    {
        Self { start, current: start, end }
    }

    /// The page at the cursor.
    pub fn current(&self) -> (r: VirtPageNum)
        ensures
            r == self.current,
    {
        self.current
    }

    /// The first page of the range.
    pub fn get_start(&self) -> (r: VirtPageNum)
        ensures
            r == self.start,
    {
        self.start
    }

    /// The page just past the range.
    pub fn get_end(&self) -> (r: VirtPageNum)
        ensures
            r == self.end,
    {
        self.end
    }

    /// Yields the page at the cursor and advances it, or `None` once the
    /// cursor has reached the end.
    pub fn next(&mut self) -> (r: Option<VirtPageNum>)
        ensures
            old(self).current.0 < old(self).end.0 ==> {
                &&& r == Some(old(self).current)
                &&& final(self).current.0 == old(self).current.0 + 1
            },
            old(self).current.0 >= old(self).end.0 ==> r.is_none() && *final(self) == *old(self),
            final(self).start == old(self).start,
            final(self).end == old(self).end,
            range_step(*old(self), *final(self), r),
    {
        if self.current.0 < self.end.0 {
            let cur = self.current;
            self.current = VirtPageNum(self.current.0 + 1);
            Some(cur)
        } else {
            None
        }
    }
}

/// One call of `next` on range `r0`, leaving `r1`, gave `out`: the page at
/// the cursor, which then moves on by one, or `None` at the end, where the
/// range stays as it was.
pub open spec fn range_step(r0: VPNRange, r1: VPNRange, out: Option<VirtPageNum>) -> bool {
    &&& r1.start == r0.start
    &&& r1.end == r0.end
    &&& r0.current.0 < r0.end.0 ==> out == Some(r0.current) && r1.current.0 == r0.current.0 + 1
    &&& r0.current.0 >= r0.end.0 ==> out.is_none() && r1 == r0
}

/// How far the cursor of a range from `start` to `end` has moved after `k`
/// calls of `next`: `k` pages, but never past the end.
pub open spec fn walked(start: int, end: int, k: int) -> int {
    if start + k <= end {
        k
    } else if start <= end {
        end - start
    } else {
        0
    }
}

/// Calling `next` again and again on a range fresh from `new` gives its
/// pages from the first up, one per call, then only `None`; after `k` calls
/// the cursor has moved on by `walked(start, end, k)` pages.
pub proof fn law_range_walk(rs: Seq<VPNRange>, outs: Seq<Option<VirtPageNum>>, k: int)
    requires
        0 <= k < outs.len(),
        rs.len() == outs.len() + 1,
        rs[0].current == rs[0].start,
        forall|i: int| 0 <= i < outs.len() ==> #[trigger] range_step(rs[i], rs[i + 1], outs[i]),
    ensures
        rs[k].current.0 == rs[0].start.0 + walked(rs[0].start.0 as int, rs[0].end.0 as int, k),
        outs[k].is_some() == (rs[0].start.0 + k < rs[0].end.0),
        outs[k] matches Some(p) ==> p.0 == rs[0].start.0 + k,
{
    lemma_range_walk(rs, outs, k);
    assert(range_step(rs[k], rs[k + 1], outs[k]));
}

/// After `k` calls the range keeps its bounds and its cursor has moved on
/// by `walked(start, end, k)` pages.
proof fn lemma_range_walk(rs: Seq<VPNRange>, outs: Seq<Option<VirtPageNum>>, k: int)
    requires
        0 <= k < rs.len(),
        rs.len() == outs.len() + 1,
        rs[0].current == rs[0].start,
        forall|i: int| 0 <= i < outs.len() ==> #[trigger] range_step(rs[i], rs[i + 1], outs[i]),
    ensures
        rs[k].start == rs[0].start,
        rs[k].end == rs[0].end,
        rs[k].current.0 == rs[0].start.0 + walked(rs[0].start.0 as int, rs[0].end.0 as int, k),
    decreases k,
{
    if k > 0 {
        let j = k - 1;
        lemma_range_walk(rs, outs, j);
        assert(range_step(rs[j], rs[j + 1], outs[j]));
    }
}

/// Every address is its page's start plus its offset within the page.
pub proof fn law_floor_offset(a: usize)
    ensures
        (a / PAGE_SIZE) * PAGE_SIZE + a % PAGE_SIZE == a,
        a % PAGE_SIZE < PAGE_SIZE,
{
    assert((a / 4096) * 4096 + a % 4096 == a) by (nonlinear_arith);
}

/// The ceiling page equals the floor page exactly for page-aligned addresses,
/// and is otherwise the next page.
pub proof fn law_ceil_floor(a: usize)
    ensures
        a % PAGE_SIZE == 0 ==> ceil_pages(a as int) == a / PAGE_SIZE,
        a % PAGE_SIZE != 0 ==> ceil_pages(a as int) == a / PAGE_SIZE + 1,
{
    lemma_ceil(a);
}

/// The three indexes of a page number give back its low 27 bits.
pub proof fn law_indexes_determine_vpn(vpn: usize)
    ensures
        vpn_index(vpn as int, 0) * 0x40000 + vpn_index(vpn as int, 1) * 0x200
            + vpn_index(vpn as int, 2) == vpn % 0x8000000,
        forall|l: int| 0 <= l < 3 ==> 0 <= #[trigger] vpn_index(vpn as int, l) < 512,
{
    assert(((vpn / 0x40000) % 512) * 0x40000 + ((vpn / 0x200) % 512) * 0x200 + vpn % 512
        == vpn % 0x8000000) by (nonlinear_arith);
}

} // verus!
