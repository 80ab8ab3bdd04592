//! The kernel's own address space: its image, the MMIO window and the rest
//! of physical memory mapped to themselves, and the pages that hold the
//! kernel's saved context.

use vstd::prelude::*;

use crate::config::{CONTEXT, MEMORY_END, MMIO_BASE, MMIO_SIZE, PAGE_SIZE};
use crate::context::{Context, SPP, context_at, context_bytes, context_in_page, law_pushed_context_reads_back, lemma_context_page_kept, lemma_placed_page_holds_context};
use super::address::{VirtAddr, ceil_pages};
use super::memory::PhysMemory;
use super::pte::{PageTableEntry, spec_pte};
use super::set::{nodes_need, lemma_nodes_need, MapArea, MapPermission, MapType, MemorySet, frames_upto, keeps_frames, lemma_changed_keeps, lemma_keeps_trans, range_offset, lemma_range_offset, page_frame, pages_mapped, pages_hold, lemma_spec_pte_ppn};
use super::table::{VPN_SPACE, leaf, vpn_key};

verus! {

/// Where the linker placed the sections of the kernel image; `ekernel` is
/// the end of the image, from where on physical memory is free.
#[derive(Clone, Copy)]
pub struct KernelLayout {
    pub stext: usize,
    pub etext: usize,
    pub srodata: usize,
    pub erodata: usize,
    pub sdata: usize,
    pub edata: usize,
    pub sbss: usize,
    pub ebss: usize,
    pub ekernel: usize,
}

/// Number of regions that the kernel maps to themselves.
pub const KERNEL_REGIONS: usize = 6;

impl KernelLayout {
    /// The address range of region `k`: the MMIO window, the text, read-only
    /// data, data and bss sections, and the free physical memory.
    pub open spec fn region(&self, k: int) -> (int, int) {
        if k == 0 {
            (MMIO_BASE as int, MMIO_BASE + MMIO_SIZE)
        } else if k == 1 {
            (self.stext as int, self.etext as int)
        } else if k == 2 {
            (self.srodata as int, self.erodata as int)
        } else if k == 3 {
            (self.sdata as int, self.edata as int)
        } else if k == 4 {
            (self.sbss as int, self.ebss as int)
        } else {
            (self.ekernel as int, MEMORY_END as int)
        }
    }

    /// The access rights of region `k`: text is readable and executable,
    /// read-only data readable, everything else readable and writable.
    pub open spec fn region_perm(k: int) -> u8 {
        if k == 1 {
            10
        } else if k == 2 {
            2
        } else {
            6
        }
    }

    /// First page of region `k`.
    pub open spec fn first_page(&self, k: int) -> int {
        self.region(k).0 / 4096
    }

    /// The page just past region `k`.
    pub open spec fn end_page(&self, k: int) -> int {
        ceil_pages(self.region(k).1)
    }

    /// The regions are in order, each ends where the next may start at the
    /// earliest, and none shares a page with another.
    pub open spec fn wf(&self) -> bool {
        &&& self.stext <= self.etext
        &&& self.srodata <= self.erodata
        &&& self.sdata <= self.edata
        &&& self.sbss <= self.ebss
        &&& self.ekernel <= MEMORY_END
        &&& forall|k: int| 0 <= k < 5 ==> #[trigger] self.end_page(k) <= self.first_page(k + 1)
    }

    /// Table nodes that mapping regions `k` and after to themselves may
    /// create.
    pub open spec fn nodes_from(&self, k: int) -> int
        decreases 6 - k,
    {
        if k >= 6 || k < 0 {
            0
        } else {
            nodes_need(self.first_page(k), self.end_page(k)) + self.nodes_from(k + 1)
        }
    }

    /// The mapping of page `v` once regions `0..k` are mapped to
    /// themselves.
    pub open spec fn kernel_leaf(&self, k: int, v: int) -> Option<PageTableEntry>
        decreases k,
    {
        if k <= 0 {
            None
        } else {
            let s = self.first_page(k - 1);
            if range_offset(s, v) < self.end_page(k - 1) - s {
                Some(spec_pte(s + range_offset(s, v), (Self::region_perm(k - 1) | 1) as u8))
            } else {
                self.kernel_leaf(k - 1, v)
            }
        }
    }

    /// The address range and rights of region `k`.
    pub fn bounds(&self, k: usize) -> (r: (usize, usize, u8))
        requires
            k < KERNEL_REGIONS,
        ensures
            r.0 == self.region(k as int).0,
            r.1 == self.region(k as int).1,
            r.2 == Self::region_perm(k as int),
    {
        if k == 0 {
            (MMIO_BASE, MMIO_BASE + MMIO_SIZE, 6)
        } else if k == 1 {
            (self.stext, self.etext, 10)
        } else if k == 2 {
            (self.srodata, self.erodata, 2)
        } else if k == 3 {
            (self.sdata, self.edata, 6)
        } else if k == 4 {
            (self.sbss, self.ebss, 6)
        } else {
            (self.ekernel, MEMORY_END, 6)
        }
    }
}

impl KernelLayout {
    /// Whether the layout is as `wf` asks.
    pub fn check(&self) -> (r: bool)
        ensures
            r == self.wf(),
    {
        if !(self.stext <= self.etext && self.srodata <= self.erodata && self.sdata <= self.edata
            && self.sbss <= self.ebss && self.ekernel <= MEMORY_END) {
            return false;
        }
        let mut k: usize = 0;
        while k < 5
            invariant
                k <= 5,
                forall|j: int| 0 <= j < k ==> #[trigger] self.end_page(j) <= self.first_page(j + 1),
            decreases 5 - k,
        {
            let (_, hi, _) = self.bounds(k);
            let (lo, _, _) = self.bounds(k + 1);
            if VirtAddr(hi).ceil().0 > VirtAddr(lo).floor().0 {
                assert(!(self.end_page(k as int) <= self.first_page(k + 1)));
                return false;
            }
            k = k + 1;
        }
        true
    }

    /// The frames that `MemorySet::new_kernel` asks to be free.
    pub fn frames_needed(&self) -> (r: u128)
        requires
            self.wf(),
        ensures
            r == 1 + self.nodes_from(0) + 6,
    {
        proof {
            self.lemma_regions();
            self.lemma_nodes_from(0);
        }
        let mut total: u128 = 0;
        let mut k: usize = KERNEL_REGIONS;
        while k > 0
            invariant
                k <= KERNEL_REGIONS,
                self.wf(),
                total == self.nodes_from(k as int),
                total <= (KERNEL_REGIONS - k) * 0x101000,
            decreases k,
        {
            proof {
                self.lemma_regions();
                self.lemma_nodes_from(k - 1);
            }
            let (lo, hi, _) = self.bounds(k - 1);
            let s = VirtAddr(lo).floor().0;
            let e = VirtAddr(hi).ceil().0;
            let need: u128 = if s < e { 2 * (((e - 1) / 512 - s / 512) as u128 + 1) } else { 0 };
            total = total + need;
            k = k - 1;
        }
        1 + total + 6
    }
}

/// A page whose translated number lies outside `[s, e)` is not in the
/// range of pages `[s, e)`.
pub proof fn lemma_outside_range(s: int, e: int, v: int)
    requires
        0 <= s <= e <= VPN_SPACE,
        v >= 0,
        vpn_key(v) < s || vpn_key(v) >= e,
    ensures
        range_offset(s, v) >= e - s,
{
    let m = VPN_SPACE as int;
    let k = v % m;
    assert((v - s) % m == if k >= s { k - s } else { k - s + m }) by (nonlinear_arith)
        requires
            m == 0x800_0000,
            0 <= s <= m,
            v >= 0,
            k == v % m,
    ;
}

/// The numbers of the context page and of the page below it.
pub proof fn lemma_context_keys()
    ensures
        vpn_key((CONTEXT / PAGE_SIZE) as int) == vpn_key((CONTEXT / PAGE_SIZE) as int - 1) + 1,
        vpn_key((CONTEXT / PAGE_SIZE) as int - 1) >= 0x80800,
        (CONTEXT / PAGE_SIZE) as int >= 1,
        ceil_pages(usize::MAX as int) == (CONTEXT / PAGE_SIZE) as int + 1,
        (CONTEXT - PAGE_SIZE) / (PAGE_SIZE as int) == (CONTEXT / PAGE_SIZE) as int - 1,
        ceil_pages(CONTEXT as int) == (CONTEXT / PAGE_SIZE) as int,
        CONTEXT >= PAGE_SIZE,
{
    assert(usize::MAX == 0xffff_ffff || usize::MAX == 0xffff_ffff_ffff_ffff);
}

/// The offset of a page after `s` depends only on the translated number of
/// `s`.
proof fn lemma_range_offset_key(s: int, v: int)
    requires
        s >= 0,
    ensures
        range_offset(s, v) == range_offset(vpn_key(s), v),
{
    let m = VPN_SPACE as int;
    assert((v - s) % m == (v - s % m) % m) by (nonlinear_arith)
        requires
            m == 0x800_0000,
            s >= 0,
    ;
}

/// A low page is no page of the one-page range that starts at a page whose
/// translated number is above it.
pub proof fn lemma_below_key(s: int, v: int)
    requires
        s >= 0,
        0 <= v < vpn_key(s),
    ensures
        range_offset(s, v) >= 1,
{
    lemma_range_offset_key(s, v);
    assert(vpn_key(v) == v);
    lemma_outside_range(vpn_key(s), vpn_key(s) + 1, v);
}

/// A page whose translated number differs from that of `s` is no page of
/// the one-page range that starts at `s`.
pub proof fn lemma_other_key(s: int, v: int)
    requires
        s >= 0,
        v >= 0,
        vpn_key(v) != vpn_key(s),
    ensures
        range_offset(s, v) >= 1,
{
    lemma_range_offset_key(s, v);
    lemma_outside_range(vpn_key(s), vpn_key(s) + 1, v);
}

impl KernelLayout {
    /// The regions lie in the low pages, in order and apart.
    proof fn lemma_regions(&self)
        requires
            self.wf(),
        ensures
            forall|k: int| 0 <= k < 6 ==> 0 <= #[trigger] self.first_page(k) <= self.end_page(k) <= 0x80800,
            forall|i: int, j: int| 0 <= i < j < 6 ==> #[trigger] self.end_page(i) <= #[trigger] self.first_page(j),
    {
        assert forall|k: int| 0 <= k < 6 implies 0 <= #[trigger] self.first_page(k) <= self.end_page(k) by {
            let (lo, hi) = self.region(k);
            assert(lo <= hi);
            assert(lo / 4096 <= (hi + 4095) / 4096) by (nonlinear_arith)
                requires
                    0 <= lo <= hi,
            ;
        }
        let ek = self.ekernel as int;
        assert(self.first_page(5) == ek / 4096);
        assert(ek / 4096 <= 0x80800) by (nonlinear_arith)
            requires
                0 <= ek <= 0x80800000,
        ;
        assert(self.end_page(5) == 0x80800);
        assert forall|k: int| 0 <= k < 6 implies 0 <= #[trigger] self.first_page(k) <= self.end_page(k) <= 0x80800 by {
            assert(self.first_page(k) <= self.end_page(k));
            if k < 5 {
                self.lemma_chain(k, 5);
            }
        }
        assert forall|i: int, j: int| 0 <= i < j < 6 implies #[trigger] self.end_page(i) <= #[trigger] self.first_page(j) by {
            self.lemma_chain(i, j);
        }
    }

    proof fn lemma_chain(&self, i: int, j: int)
        requires
            self.wf(),
            forall|k: int| 0 <= k < 6 ==> #[trigger] self.first_page(k) <= self.end_page(k),
            0 <= i < j < 6,
        ensures
            self.end_page(i) <= self.first_page(j),
        decreases j - i,
    {
        assert(self.end_page(i) <= self.first_page(i + 1));
        if j > i + 1 {
            assert(self.first_page(i + 1) <= self.end_page(i + 1));
            self.lemma_chain(i + 1, j);
        }
    }

    /// A page number whose translated number is above every region is mapped
    /// by none of them.
    proof fn lemma_kernel_leaf_high(&self, k: int, v: int)
        requires
            self.wf(),
            0 <= k <= 6,
            v >= 0,
            vpn_key(v) >= 0x80800,
        ensures
            self.kernel_leaf(k, v).is_none(),
        decreases k,
    {
        if k > 0 {
            self.lemma_regions();
            lemma_outside_range(self.first_page(k - 1), self.end_page(k - 1), v);
            self.lemma_kernel_leaf_high(k - 1, v);
        }
    }

    /// A page of region `k` is mapped by none of the regions before it.
    proof fn lemma_kernel_leaf_later(&self, k: int, j: int, v: int)
        requires
            self.wf(),
            0 <= k <= j < 6,
            self.first_page(j) <= v < self.end_page(j),
        ensures
            self.kernel_leaf(k, v).is_none(),
        decreases k,
    {
        if k > 0 {
            self.lemma_regions();
            assert(vpn_key(v) == v);
            lemma_outside_range(self.first_page(k - 1), self.end_page(k - 1), v);
            self.lemma_kernel_leaf_later(k - 1, j, v);
        }
    }
}

impl KernelLayout {
    /// A page of region `j` is mapped to itself with the rights of that
    /// region once the regions up to `k`, past `j`, are mapped.
    proof fn lemma_kernel_leaf_in(&self, k: int, j: int, v: int)
        requires
            self.wf(),
            0 <= j < k <= 6,
            self.first_page(j) <= v < self.end_page(j),
        ensures
            self.kernel_leaf(k, v) == Some(spec_pte(v, (Self::region_perm(j) | 1) as u8)),
        decreases k,
    {
        self.lemma_regions();
        assert(vpn_key(v) == v);
        if k == j + 1 {
            lemma_range_offset(self.first_page(j), v, v);
        } else {
            assert(self.end_page(j) <= self.first_page(k - 1));
            lemma_outside_range(self.first_page(k - 1), self.end_page(k - 1), v);
            self.lemma_kernel_leaf_in(k - 1, j, v);
        }
    }
}

/// The kernel maps each part of memory to itself with the rights that part
/// asks for: the pages of the text section readable and executable (flags
/// V|R|X, `0b1011`), those of the read-only data readable only (V|R,
/// `0b11`), and those of the data and bss sections, of the free memory past
/// the kernel image and of the MMIO window readable and writable (V|R|W,
/// `0b111`); none of them is user-accessible.
pub proof fn law_kernel_section_rights(layout: KernelLayout, v: int)
    requires
        layout.wf(),
    ensures
        layout.stext / 4096 <= v < ceil_pages(layout.etext as int) ==> layout.kernel_leaf(6, v) == Some(
            spec_pte(v, 0b1011u8),
        ),
        layout.srodata / 4096 <= v < ceil_pages(layout.erodata as int) ==> layout.kernel_leaf(6, v) == Some(
            spec_pte(v, 0b11u8),
        ),
        layout.sdata / 4096 <= v < ceil_pages(layout.edata as int) ==> layout.kernel_leaf(6, v) == Some(
            spec_pte(v, 0b111u8),
        ),
        layout.sbss / 4096 <= v < ceil_pages(layout.ebss as int) ==> layout.kernel_leaf(6, v) == Some(
            spec_pte(v, 0b111u8),
        ),
        layout.ekernel / 4096 <= v < 0x80800 ==> layout.kernel_leaf(6, v) == Some(spec_pte(v, 0b111u8)),
        0x10001 <= v < 0x10002 ==> layout.kernel_leaf(6, v) == Some(spec_pte(v, 0b111u8)),
{
    assert((10u8 | 1u8) == 0b1011u8 && (2u8 | 1u8) == 0b11u8 && (6u8 | 1u8) == 0b111u8) by (bit_vector);
    layout.lemma_regions();
    assert(layout.end_page(5) == 0x80800);
    assert(layout.first_page(0) == 0x10001 && layout.end_page(0) == 0x10002);
    if layout.first_page(1) <= v < layout.end_page(1) {
        layout.lemma_kernel_leaf_in(6, 1, v);
    }
    if layout.first_page(2) <= v < layout.end_page(2) {
        layout.lemma_kernel_leaf_in(6, 2, v);
    }
    if layout.first_page(3) <= v < layout.end_page(3) {
        layout.lemma_kernel_leaf_in(6, 3, v);
    }
    if layout.first_page(4) <= v < layout.end_page(4) {
        layout.lemma_kernel_leaf_in(6, 4, v);
    }
    if layout.first_page(5) <= v < layout.end_page(5) {
        layout.lemma_kernel_leaf_in(6, 5, v);
    }
    if layout.first_page(0) <= v < layout.end_page(0) {
        layout.lemma_kernel_leaf_in(6, 0, v);
    }
}

/// A table that maps the low pages as the kernel layout says gives each
/// section the rights of `law_kernel_section_rights`.
proof fn lemma_kernel_space_rights(layout: KernelLayout, m: PhysMemory, root: int)
    requires
        layout.wf(),
        forall|v: int| 0 <= v < 0x80800 ==> #[trigger] leaf(m, root, v) == layout.kernel_leaf(6, v),
    ensures
        forall|v: int|
            layout.stext / 4096 <= v < ceil_pages(layout.etext as int) ==> #[trigger] leaf(m, root, v) == Some(
                spec_pte(v, 0b1011u8),
            ),
        forall|v: int|
            layout.srodata / 4096 <= v < ceil_pages(layout.erodata as int) ==> #[trigger] leaf(m, root, v) == Some(
                spec_pte(v, 0b11u8),
            ),
        forall|v: int|
            (layout.sdata / 4096 <= v < ceil_pages(layout.edata as int) || layout.sbss / 4096 <= v < ceil_pages(
                layout.ebss as int,
            ) || layout.ekernel / 4096 <= v < 0x80800 || 0x10001 <= v < 0x10002) ==> #[trigger] leaf(m, root, v)
                == Some(spec_pte(v, 0b111u8)),
{
    layout.lemma_regions();
    assert(layout.end_page(5) == 0x80800);
    assert(layout.first_page(0) == 0x10001 && layout.end_page(0) == 0x10002);
    assert(layout.first_page(1) <= layout.end_page(1) <= 0x80800);
    assert(layout.first_page(2) <= layout.end_page(2) <= 0x80800);
    assert(layout.first_page(3) <= layout.end_page(3) <= 0x80800);
    assert(layout.first_page(4) <= layout.end_page(4) <= 0x80800);
    assert(0 <= layout.first_page(5));
    assert forall|v: int|
        layout.stext / 4096 <= v < ceil_pages(layout.etext as int) implies #[trigger] leaf(m, root, v) == Some(
            spec_pte(v, 0b1011u8),
        ) by {
        law_kernel_section_rights(layout, v);
    }
    assert forall|v: int|
        layout.srodata / 4096 <= v < ceil_pages(layout.erodata as int) implies #[trigger] leaf(m, root, v) == Some(
            spec_pte(v, 0b11u8),
        ) by {
        law_kernel_section_rights(layout, v);
    }
    assert forall|v: int|
        (layout.sdata / 4096 <= v < ceil_pages(layout.edata as int) || layout.sbss / 4096 <= v < ceil_pages(
            layout.ebss as int,
        ) || layout.ekernel / 4096 <= v < 0x80800 || 0x10001 <= v < 0x10002) implies #[trigger] leaf(m, root, v)
            == Some(spec_pte(v, 0b111u8)) by {
        law_kernel_section_rights(layout, v);
    }
}

/// How far apart the context page and the page below it are.
proof fn lemma_context_offsets()
    ensures
        range_offset((CONTEXT / PAGE_SIZE) as int - 1, (CONTEXT / PAGE_SIZE) as int) == 1,
        range_offset((CONTEXT / PAGE_SIZE) as int - 1, (CONTEXT / PAGE_SIZE) as int - 1) == 0,
        range_offset((CONTEXT / PAGE_SIZE) as int, (CONTEXT / PAGE_SIZE) as int - 1) >= 1,
{
    lemma_context_keys();
    let kc = (CONTEXT / PAGE_SIZE) as int;
    let m = VPN_SPACE as int;
    let a = vpn_key(kc - 1);
    let b = vpn_key(kc);
    assert((kc - (kc - 1)) % m == 1) by (nonlinear_arith)
        requires
            m == 0x800_0000,
    ;
    assert((kc - 1 - (kc - 1)) % m == 0) by (nonlinear_arith)
        requires
            m == 0x800_0000,
    ;
    assert((kc - 1 - kc) % m == m - 1) by (nonlinear_arith)
        requires
            m == 0x800_0000,
    ;
}

impl KernelLayout {
    /// Every region has at least no pages, so the count of nodes from any
    /// region on is not negative.
    proof fn lemma_nodes_from(&self, k: int)
        requires
            self.wf(),
            0 <= k,
        ensures
            self.nodes_from(k) >= 0,
            k < 6 ==> self.nodes_from(k) == nodes_need(self.first_page(k), self.end_page(k)) + self.nodes_from(k + 1),
            k < 6 ==> 0 <= nodes_need(self.first_page(k), self.end_page(k)) <= 2 * 0x80800,
        decreases 6 - k,
    {
        if k < 6 {
            self.lemma_regions();
            assert(self.first_page(k) <= self.end_page(k));
            lemma_nodes_need(self.first_page(k), self.end_page(k));
            self.lemma_nodes_from(k + 1);
        }
    }
}

/// Page `v` holds a saved context in table `t`: it is mapped readable and
/// writable for the kernel only (flags 4, 2 and the valid bit) to a frame in
/// use, no node of the table.
pub open spec fn context_page(t: super::table::PageTable, m: PhysMemory, v: int) -> bool {
    &&& leaf(m, t.root.0 as int, v) == Some(spec_pte(page_frame(m, t, v), 7u8))
    &&& m.allocated(page_frame(m, t, v))
    &&& !t.is_node(page_frame(m, t, v))
}

/// The one page `v` of an `Alloc` area with rights read and write, just
/// placed, is a context page.
proof fn lemma_context_page_placed(
    a: MapArea,
    t0: super::table::PageTable,
    m0: PhysMemory,
    t1: super::table::PageTable,
    m1: PhysMemory,
    d: Seq<u8>,
    v: int,
)
    requires
        a.mtype == MapType::Alloc,
        a.permission.bits == 6u8,
        a.range.start.0 == v,
        a.range.end.0 == v + 1,
        a.placed(t0, m0, t1, m1, d),
    ensures
        context_page(t1, m1, v),
{
    let al = a.allocated@;
    assert(pages_mapped(t0, m0, t1, m1, al, v, v + 1, 6u8));
    assert(pages_hold(t1, m1, al, v, v + 1, d));
    assert((6u8 | 1u8) == 7u8) by (bit_vector);
    lemma_range_offset(v, v, v);
    assert(al.contains_key(v as usize));
    let f = al[v as usize].ppn.0 as int;
    assert(m1.allocated(f));
    lemma_spec_pte_ppn(f, 7u8);
}

impl MemorySet {
    /// Maps the page below the context page and the context page, each to a
    /// fresh frame holding the bytes of `cx`.
    #[verifier::rlimit(100)]
    pub fn push_context_pages(&mut self, mem: &mut PhysMemory, cx: &Context)
        requires
            old(self).table.wf(&*old(mem)),
            old(mem).free_frames() >= 6,
            leaf(*old(mem), old(self).table.root.0 as int, (CONTEXT / PAGE_SIZE) as int - 1).is_none(),
            leaf(*old(mem), old(self).table.root.0 as int, (CONTEXT / PAGE_SIZE) as int).is_none(),
        ensures
            final(self).table.wf(&*final(mem)),
            final(self).table.root == old(self).table.root,
            final(self).areas@.len() == old(self).areas@.len() + 2,
            forall|v: int|
                0 <= v < vpn_key((CONTEXT / PAGE_SIZE) as int - 1) ==> #[trigger] leaf(
                    *final(mem),
                    final(self).table.root.0 as int,
                    v,
                ) == leaf(*old(mem), old(self).table.root.0 as int, v),
            forall|v: int|
                v >= 0 && vpn_key(v) != vpn_key((CONTEXT / PAGE_SIZE) as int - 1) && vpn_key(v) != vpn_key(
                    (CONTEXT / PAGE_SIZE) as int,
                ) ==> #[trigger] leaf(*final(mem), final(self).table.root.0 as int, v) == leaf(
                    *old(mem),
                    old(self).table.root.0 as int,
                    v,
                ),
            leaf(*final(mem), final(self).table.root.0 as int, (CONTEXT / PAGE_SIZE) as int - 1).is_some(),
            context_page(final(self).table, *final(mem), (CONTEXT / PAGE_SIZE) as int - 1),
            context_page(final(self).table, *final(mem), (CONTEXT / PAGE_SIZE) as int),
            context_at(*final(mem), final(self).table.root.0 as int) == *cx,
            context_in_page(*final(mem), final(self).table, (CONTEXT / PAGE_SIZE) as int - 1) == *cx,
            keeps_frames(old(self).table, *old(mem), final(self).table, *final(mem)),
    {
        let ghost root = self.table.root.0 as int;
        let ghost t6 = self.table;
        let ghost m6 = *mem;
        let ghost kc = (CONTEXT / PAGE_SIZE) as int;
        let bytes = cx.to_bytes();
        let sub = MapArea::new(
            VirtAddr(CONTEXT - PAGE_SIZE),
            VirtAddr(CONTEXT),
            MapType::Alloc,
            MapPermission::R().union(MapPermission::W()),
        );
        proof {
            lemma_context_keys();
            lemma_context_offsets();
            assert(sub.range.start.0 == kc - 1);
            assert(sub.range.end.0 == kc);
        }
        self.push(sub, Some(bytes.as_slice()), mem);
        proof {
            assert(context_in_page(*mem, self.table, kc - 1) == *cx) by {
                lemma_placed_page_holds_context(self.areas@.last(), t6, m6, self.table, *mem, *cx);
            }
        }
        let ghost sub_al = self.areas@.last().allocated@;
        let ghost m7 = *mem;
        let ghost t7 = self.table;
        let top = MapArea::new(
            VirtAddr(CONTEXT),
            VirtAddr(usize::MAX),
            MapType::Alloc,
            MapPermission::R().union(MapPermission::W()),
        );
        proof {
            assert(top.range.start.0 == kc);
            assert(top.range.end.0 == kc + 1);
            assert(leaf(*mem, root, kc) == leaf(m6, root, kc));
        }
        self.push(top, Some(bytes.as_slice()), mem);
        proof {
            lemma_changed_keeps(t6, m6, t7, m7, frames_upto(sub_al, kc - 1, kc));
            let last = self.areas@.last();
            lemma_changed_keeps(t7, m7, self.table, *mem, frames_upto(last.allocated@, kc, kc + 1));
            lemma_keeps_trans(t6, m6, t7, m7, self.table, *mem);
            law_pushed_context_reads_back(last, t7, m7, self.table, *mem, *cx);
            assert forall|v: int| 0 <= v < vpn_key(kc - 1) implies #[trigger] leaf(*mem, root, v) == leaf(m6, root, v) by {
                lemma_below_key(kc, v);
                lemma_below_key(kc - 1, v);
                assert(leaf(*mem, root, v) == leaf(m7, root, v));
            }
            assert forall|v: int| v >= 0 && vpn_key(v) != vpn_key(kc - 1) && vpn_key(v) != vpn_key(kc) implies #[trigger] leaf(
                *mem,
                root,
                v,
            ) == leaf(m6, root, v) by {
                lemma_other_key(kc, v);
                lemma_other_key(kc - 1, v);
                assert(leaf(*mem, root, v) == leaf(m7, root, v));
            }
            assert(leaf(*mem, root, kc - 1) == leaf(m7, root, kc - 1));
            assert((2u8 | 4u8) == 6u8 && (6u8 | 1u8) == 7u8) by (bit_vector);
            lemma_context_page_placed(self.areas@[self.areas@.len() - 2], t6, m6, t7, m7, bytes@, kc - 1);
            lemma_context_page_placed(last, t7, m7, self.table, *mem, bytes@, kc);
            let f = page_frame(m7, t7, kc - 1);
            assert(keeps_frames(t7, m7, self.table, *mem));
            assert(m7.allocated(f) && !t7.is_node(f));
            assert(context_in_page(*mem, self.table, kc - 1) == *cx) by {
                lemma_context_page_kept(t7, m7, self.table, *mem, kc - 1, *cx);
            }
        }
    }

    /// The kernel's address space: the MMIO window, the sections of the
    /// kernel image and the free physical memory, each mapped to itself with
    /// its rights, then the page below the context page and the context page
    /// itself, both holding a context that enters supervisor mode at 0 in
    /// this address space and traps to `trap_handler`.
    #[verifier::rlimit(90)]
    pub fn new_kernel(mem: &mut PhysMemory, layout: &KernelLayout, trap_handler: usize) -> (r: MemorySet)
        requires
            old(mem).wf(),
            layout.wf(),
            old(mem).free_frames() >= 1 + layout.nodes_from(0) + 6,
        ensures
            r.table.wf(&*final(mem)),
            r.areas@.len() == 8,
            forall|v: int|
                0 <= v < 0x80800 ==> #[trigger] leaf(*final(mem), r.table.root.0 as int, v) == layout.kernel_leaf(
                    6,
                    v,
                ),
            forall|v: int|
                layout.stext / 4096 <= v < ceil_pages(layout.etext as int) ==> #[trigger] leaf(
                    *final(mem),
                    r.table.root.0 as int,
                    v,
                ) == Some(spec_pte(v, 0b1011u8)),
            forall|v: int|
                layout.srodata / 4096 <= v < ceil_pages(layout.erodata as int) ==> #[trigger] leaf(
                    *final(mem),
                    r.table.root.0 as int,
                    v,
                ) == Some(spec_pte(v, 0b11u8)),
            forall|v: int|
                (layout.sdata / 4096 <= v < ceil_pages(layout.edata as int) || layout.sbss / 4096 <= v < ceil_pages(
                    layout.ebss as int,
                ) || layout.ekernel / 4096 <= v < 0x80800 || 0x10001 <= v < 0x10002) ==> #[trigger] leaf(
                    *final(mem),
                    r.table.root.0 as int,
                    v,
                ) == Some(spec_pte(v, 0b111u8)),
            leaf(*final(mem), r.table.root.0 as int, (CONTEXT / PAGE_SIZE) as int - 1).is_some(),
            context_page(r.table, *final(mem), (CONTEXT / PAGE_SIZE) as int - 1),
            context_page(r.table, *final(mem), (CONTEXT / PAGE_SIZE) as int),
            context_at(*final(mem), r.table.root.0 as int) == Context::spec_init(
                SPP::Supervisor,
                0,
                0,
                0,
                ((8u64 << 60u64) | (r.table.root.0 as u64)) as usize,
                0,
                trap_handler,
            ),
            context_in_page(*final(mem), r.table, (CONTEXT / PAGE_SIZE) as int - 1) == context_at(
                *final(mem),
                r.table.root.0 as int,
            ),
    {
        proof {
            layout.lemma_nodes_from(0);
        }
        let mut set = MemorySet::new(mem);
        let ghost root = set.table.root.0 as int;
        let mut k: usize = 0;
        while k < KERNEL_REGIONS
            invariant
                layout.wf(),
                k <= KERNEL_REGIONS,
                set.table.wf(mem),
                set.table.root.0 == root,
                set.areas@.len() == k,
                mem.free_frames() >= layout.nodes_from(k as int) + 6,
                forall|v: int| v >= 0 ==> #[trigger] leaf(*mem, root, v) == layout.kernel_leaf(k as int, v),
            decreases KERNEL_REGIONS - k,
        {
            let (lo, hi, perm) = layout.bounds(k);
            let area = MapArea::new(VirtAddr(lo), VirtAddr(hi), MapType::Identical, MapPermission { bits: perm });
            let ghost t0 = set.table;
            let ghost m0 = *mem;
            proof {
                layout.lemma_regions();
                layout.lemma_nodes_from(k as int);
                layout.lemma_nodes_from(k + 1);
                assert(area.range.start.0 == layout.first_page(k as int));
                assert(area.range.end.0 == layout.end_page(k as int));
                assert forall|v: int|
                    area.range.start.0 <= v < area.range.end.0 implies #[trigger] leaf(*mem, root, v).is_none() by {
                    layout.lemma_kernel_leaf_later(k as int, k as int, v);
                }
            }
            set.push(area, None, mem);
            proof {
                let s = layout.first_page(k as int);
                assert forall|v: int| v >= 0 implies #[trigger] leaf(*mem, root, v) == layout.kernel_leaf(k + 1, v) by {
                    assert(leaf(m0, root, v) == layout.kernel_leaf(k as int, v));
                }
            }
            k = k + 1;
        }
        let satp = set.satp_bits();
        let cx = Context::init_context(SPP::Supervisor, 0, 0, 0, satp as usize, 0, trap_handler);
        proof {
            lemma_context_keys();
            let kc = (CONTEXT / PAGE_SIZE) as int;
            layout.lemma_kernel_leaf_high(6, kc - 1);
            layout.lemma_kernel_leaf_high(6, kc);
        }
        set.push_context_pages(mem, &cx);
        proof {
            assert(forall|v: int|
                0 <= v < 0x80800 ==> #[trigger] leaf(*mem, set.table.root.0 as int, v) == layout.kernel_leaf(6, v));
            lemma_kernel_space_rights(*layout, *mem, set.table.root.0 as int);
        }
        set
    }
}

} // verus!
