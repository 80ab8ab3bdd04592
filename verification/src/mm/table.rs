//! Three-level Sv39 page tables kept in frames of the physical pool.

use vstd::prelude::*;

use super::address::{PhysAddr, PhysPageNum, VirtAddr, VirtPageNum, vpn_index, law_indexes_determine_vpn};
use super::memory::{FrameTracker, PhysMemory, le64};
use super::pte::{PTEFlags, PageTableEntry, spec_pte, PPN_LIMIT, PPN_MASK};
use crate::config::PAGE_SIZE;

verus! {

/// Number of distinct page numbers that Sv39 translates.
pub const VPN_SPACE: usize = 0x800_0000;

/// Address-translation modes of the `satp` register.
#[derive(Clone, Copy, PartialEq, Eq, Structural)]
pub enum Mode {
    Bare,
    Sv32,
    Sv39,
}

impl Mode {
    /// The encoding of the mode in the `satp` register.
    pub open spec fn spec_value(self) -> u64 {
        match self {
            Mode::Bare => 0,
            Mode::Sv32 => 1,
            Mode::Sv39 => 8,
        }
    }

    /// The encoding of the mode in the `satp` register.
    pub fn value(&self) -> (r: u64)
        ensures
            r == self.spec_value(),
    {
        match self {
            Mode::Bare => 0,
            Mode::Sv32 => 1,
            Mode::Sv39 => 8,
        }
    }
}

/// The part of a page number that Sv39 translates.
pub open spec fn vpn_key(vpn: int) -> int {
    vpn % (VPN_SPACE as int)
}

/// The entry that the hardware walk reaches for `vpn` from the table rooted
/// at `root`, whether or not that last entry is valid; `None` when an
/// intermediate entry is invalid.
pub open spec fn walk(mem: PhysMemory, root: int, vpn: int) -> Option<PageTableEntry> {
    let e0 = mem.pte(root, vpn_index(vpn, 0));
    if !e0.spec_valid() {
        None
    } else {
        let e1 = mem.pte((e0.spec_ppn() as usize) as int, vpn_index(vpn, 1));
        if !e1.spec_valid() {
            None
        } else {
            Some(mem.pte((e1.spec_ppn() as usize) as int, vpn_index(vpn, 2)))
        }
    }
}

/// The valid leaf entry that maps `vpn`, if any.
pub open spec fn leaf(mem: PhysMemory, root: int, vpn: int) -> Option<PageTableEntry> {
    match walk(mem, root, vpn) {
        Some(e) => if e.spec_valid() {
            Some(e)
        } else {
            None
        },
        None => None,
    }
}

/// The mappings of the table rooted at `root`: translated page number to
/// valid leaf entry.
pub open spec fn mappings(mem: PhysMemory, root: int) -> Map<int, PageTableEntry> {
    Map::new(
        |k: int| 0 <= k < VPN_SPACE && leaf(mem, root, k).is_some(),
        |k: int| leaf(mem, root, k).unwrap(),
    )
}

/// A page table: the frame of its root and the frames that it allocated
/// for its nodes.  `l1` maps a level-0 index to the frame of the level-1
/// node below it, and `l2` a pair of level-0 and level-1 indexes to the
/// frame of the leaf node below them.
pub struct PageTable {
    pub root: PhysPageNum,
    pub frames: Vec<FrameTracker>,
    pub l1: Ghost<Map<int, int>>,
    pub l2: Ghost<Map<(int, int), int>>,
}

proof fn lemma_zero_pte(mem: PhysMemory, p: int, i: int)
    requires
        forall|o: int| 0 <= o < 4096 ==> #[trigger] mem.byte(p, o) == 0,
        0 <= i < 512,
    ensures
        mem.pte(p, i).bits == 0,
        !mem.pte(p, i).spec_valid(),
{
    let f = mem.frame(p);
    assert(f[8 * i] == 0);
    assert(f[8 * i + 1] == 0);
    assert(f[8 * i + 2] == 0);
    assert(f[8 * i + 3] == 0);
    assert(f[8 * i + 4] == 0);
    assert(f[8 * i + 5] == 0);
    assert(f[8 * i + 6] == 0);
    assert(f[8 * i + 7] == 0);
    let z: u8 = 0;
    assert(((z as u64) | ((z as u64) << 8u64) | ((z as u64) << 16u64) | ((z as u64) << 24u64) | ((
    z as u64) << 32u64) | ((z as u64) << 40u64) | ((z as u64) << 48u64) | ((z as u64) << 56u64))
        == 0) by (bit_vector)
        requires
            z == 0,
    ;
    let b: u64 = 0;
    assert(((b & 0xff) as u8) & 1 == 0) by (bit_vector)
        requires
            b == 0,
    ;
}

proof fn lemma_new_valid(ppn: u64)
    requires
        ppn < PPN_LIMIT,
    ensures
        ({
            let e = PageTableEntry { bits: (ppn << 10) | 1u64 };
            e.spec_valid() && e.spec_ppn() == ppn
        }),
{
    assert(((((ppn << 10) | 1u64) & 0xff) as u8) & 1 != 0 && (((ppn << 10) | 1u64) >> 10)
        & 0xfff_ffff_ffff == ppn) by (bit_vector)
        requires
            ppn < 0x1000_0000_0000,
    ;
}

/// Two page numbers are translated alike exactly when they agree on their
/// low 27 bits.
pub proof fn lemma_key_indexes(a: int, b: int)
    requires
        a >= 0,
        b >= 0,
    ensures
        (vpn_index(a, 0) == vpn_index(b, 0) && vpn_index(a, 1) == vpn_index(b, 1) && vpn_index(a, 2)
            == vpn_index(b, 2)) <==> vpn_key(a) == vpn_key(b),
{
    assert((a / 0x40000) % 512 == ((a % 0x8000000) / 0x40000) % 512) by (nonlinear_arith)
        requires
            a >= 0,
    ;
    assert((b / 0x40000) % 512 == ((b % 0x8000000) / 0x40000) % 512) by (nonlinear_arith)
        requires
            b >= 0,
    ;
    assert((a / 0x200) % 512 == ((a % 0x8000000) / 0x200) % 512) by (nonlinear_arith)
        requires
            a >= 0,
    ;
    assert((b / 0x200) % 512 == ((b % 0x8000000) / 0x200) % 512) by (nonlinear_arith)
        requires
            b >= 0,
    ;
    assert(a % 512 == (a % 0x8000000) % 512) by (nonlinear_arith)
        requires
            a >= 0,
    ;
    assert(b % 512 == (b % 0x8000000) % 512) by (nonlinear_arith)
        requires
            b >= 0,
    ;
    let ka = a % 0x8000000;
    let kb = b % 0x8000000;
    assert(((ka / 0x40000) % 512) * 0x40000 + ((ka / 0x200) % 512) * 0x200 + ka % 512 == ka)
        by (nonlinear_arith)
        requires
            0 <= ka < 0x8000000,
    ;
    assert(((kb / 0x40000) % 512) * 0x40000 + ((kb / 0x200) % 512) * 0x200 + kb % 512 == kb)
        by (nonlinear_arith)
        requires
            0 <= kb < 0x8000000,
    ;
}

impl PageTable {
    /// Whether frame `p` is one of the table's nodes.
    pub open spec fn is_node(&self, p: int) -> bool {
        ||| p == self.root.0
        ||| exists|i: int| #[trigger] self.l1@.contains_key(i) && self.l1@[i] == p
        ||| exists|k: (int, int)| #[trigger] self.l2@.contains_key(k) && self.l2@[k] == p
    }

    /// How many nodes must be created before `vpn` has a leaf slot.
    pub open spec fn missing_levels(&self, vpn: int) -> int {
        if !self.l1@.contains_key(vpn_index(vpn, 0)) {
            2
        } else if !self.l2@.contains_key((vpn_index(vpn, 0), vpn_index(vpn, 1))) {
            1
        } else {
            0
        }
    }

    /// The table is a tree of distinct, allocated frames whose valid
    /// intermediate entries are exactly the ones recorded in `l1` and `l2`.
    pub open spec fn wf(&self, mem: &PhysMemory) -> bool {
        let l1 = self.l1@;
        let l2 = self.l2@;
        let root = self.root.0 as int;
        &&& mem.wf()
        &&& mem.allocated(root)
        &&& forall|i: int| #[trigger]
            l1.contains_key(i) ==> 0 <= i < 512 && mem.allocated(l1[i]) && l1[i] != root
        &&& forall|i: int, j: int|
            #[trigger] l1.contains_key(i) && #[trigger] l1.contains_key(j) && i != j ==> l1[i]
                != l1[j]
        &&& forall|k: (int, int)| #[trigger]
            l2.contains_key(k) ==> l1.contains_key(k.0) && 0 <= k.1 < 512 && mem.allocated(l2[k])
                && l2[k] != root
        &&& forall|k1: (int, int), k2: (int, int)|
            #[trigger] l2.contains_key(k1) && #[trigger] l2.contains_key(k2) && k1 != k2 ==> l2[k1]
                != l2[k2]
        &&& forall|i: int, k: (int, int)|
            #[trigger] l1.contains_key(i) && #[trigger] l2.contains_key(k) ==> l1[i] != l2[k]
        &&& forall|i: int|
            0 <= i < 512 ==> (#[trigger] mem.pte(root, i).spec_valid() <==> l1.contains_key(i))
        &&& forall|i: int| #[trigger]
            l1.contains_key(i) ==> mem.pte(root, i).spec_ppn() == l1[i]
        &&& forall|i: int, j: int|
            #![trigger mem.pte(l1[i], j)]
            l1.contains_key(i) && 0 <= j < 512 ==> (mem.pte(l1[i], j).spec_valid()
                <==> l2.contains_key((i, j)))
        &&& forall|i: int, j: int| #[trigger]
            l2.contains_key((i, j)) ==> mem.pte(l1[i], j).spec_ppn() == l2[(i, j)]
        &&& self.nodes_recorded()
    }

    /// The frames that the table keeps are exactly its nodes.
    pub open spec fn nodes_recorded(&self) -> bool {
        &&& forall|p: int|
            #[trigger] self.is_node(p) ==> exists|j: int|
                0 <= j < self.frames@.len() && (#[trigger] self.frames@[j]).ppn.0 == p
        &&& forall|j: int| 0 <= j < self.frames@.len() ==> self.is_node((#[trigger] self.frames@[j]).ppn.0 as int)
    }

    /// The leaf entry for `vpn` as the ghost shape of a well-formed table
    /// determines it.
    pub open spec fn shaped_leaf(&self, mem: &PhysMemory, vpn: int) -> Option<PageTableEntry> {
        let k = (vpn_index(vpn, 0), vpn_index(vpn, 1));
        if self.l2@.contains_key(k) && mem.pte(self.l2@[k], vpn_index(vpn, 2)).spec_valid() {
            Some(mem.pte(self.l2@[k], vpn_index(vpn, 2)))
        } else {
            None
        }
    }

    /// The mappings of the table.
    pub open spec fn view_in(&self, mem: &PhysMemory) -> Map<int, PageTableEntry> {
        mappings(*mem, self.root.0 as int)
    }

    /// In a well-formed table the hardware walk follows the recorded nodes.
    pub proof fn lemma_walk(&self, mem: &PhysMemory, vpn: int)
        requires
            self.wf(mem),
            vpn >= 0,
        ensures
            walk(*mem, self.root.0 as int, vpn) == if self.l1@.contains_key(vpn_index(vpn, 0))
                && self.l2@.contains_key((vpn_index(vpn, 0), vpn_index(vpn, 1))) {
                Some(mem.pte(self.l2@[(vpn_index(vpn, 0), vpn_index(vpn, 1))], vpn_index(vpn, 2)))
            } else {
                None
            },
            leaf(*mem, self.root.0 as int, vpn) == self.shaped_leaf(mem, vpn),
    {
        let i0 = vpn_index(vpn, 0);
        let i1 = vpn_index(vpn, 1);
        lemma_indexes_determine_vpn_int(vpn);
        let e0 = mem.pte(self.root.0 as int, i0);
        assert(e0.spec_valid() <==> self.l1@.contains_key(i0));
        if self.l1@.contains_key(i0) {
            let p1 = self.l1@[i0];
            assert(mem.allocated(p1));
            assert((e0.spec_ppn() as usize) as int == p1);
            let e1 = mem.pte(p1, i1);
            assert(e1.spec_valid() <==> self.l2@.contains_key((i0, i1)));
            if self.l2@.contains_key((i0, i1)) {
                assert(mem.allocated(self.l2@[(i0, i1)]));
                assert((e1.spec_ppn() as usize) as int == self.l2@[(i0, i1)]);
            }
        }
    }
}

proof fn lemma_indexes_determine_vpn_int(vpn: int)
    ensures
        forall|l: int| 0 <= l < 3 ==> 0 <= #[trigger] vpn_index(vpn, l) < 512,
{
    assert(0 <= (vpn / 0x40000) % 512 < 512);
    assert(0 <= (vpn / 0x200) % 512 < 512);
    assert(0 <= vpn % 512 < 512);
}


impl PageTable {
    /// The set of the table's nodes.
    pub open spec fn node_set(&self) -> Set<int> {
        Set::new(|p: int| self.is_node(p))
    }

    /// `mem` differs from `old_mem` only by frames that became nodes of
    /// `self` (taken from the allocator) and by writes into nodes of `self`.
    pub open spec fn grew_from(&self, old_table: &PageTable, old_mem: &PhysMemory, mem: &PhysMemory) -> bool {
        &&& mem.wf()
        &&& mem.base == old_mem.base
        &&& mem.end == old_mem.end
        &&& old_mem.same_except(mem, self.node_set())
        &&& forall|p: int| #[trigger] old_table.is_node(p) ==> self.is_node(p)
        &&& forall|p: int|
            #[trigger] self.is_node(p) && !old_table.is_node(p) ==> !old_mem.allocated(p)
        &&& forall|p: int|
            #[trigger] mem.allocated(p) == (old_mem.allocated(p) || (self.is_node(p)
                && !old_table.is_node(p)))
        &&& forall|p: int| #[trigger] old_mem.in_pool(p) ==> mem.in_pool(p)
    }

    /// A table with a fresh, empty root frame.
    pub fn new(mem: &mut PhysMemory) -> (r: Self)
        requires
            old(mem).wf(),
            old(mem).free_frames() >= 1,
        ensures
            r.wf(&*final(mem)),
            r.l1@ == Map::<int, int>::empty(),
            r.l2@ == Map::<(int, int), int>::empty(),
            !old(mem).allocated(r.root.0 as int),
            final(mem).free_frames() == old(mem).free_frames() - 1,
            forall|vpn: int| #[trigger] leaf(*final(mem), r.root.0 as int, vpn).is_none(),
            final(mem).wf(),
            final(mem).base == old(mem).base,
            final(mem).end == old(mem).end,
            old(mem).same_except(&*final(mem), set![r.root.0 as int]),
            forall|p: int|
                #[trigger] final(mem).allocated(p) == (old(mem).allocated(p) || p == r.root.0),
            forall|p: int| #[trigger] old(mem).in_pool(p) ==> final(mem).in_pool(p),
    {
        let frame = mem.frame_alloc().unwrap();
        let mut frames = Vec::new();
        frames.push(frame);
        let r = PageTable {
            root: frame.ppn(),
            frames,
            l1: Ghost(Map::empty()),
            l2: Ghost(Map::empty()),
        };
        proof {
            assert forall|i: int| 0 <= i < 512 implies !(#[trigger] mem.pte(r.root.0 as int, i).spec_valid()) by {
                lemma_zero_pte(*mem, r.root.0 as int, i);
            }
            assert(r.frames@[0].ppn == r.root);
            assert forall|p: int| #[trigger] r.is_node(p) implies exists|j: int|
                0 <= j < r.frames@.len() && (#[trigger] r.frames@[j]).ppn.0 == p by {
                assert(r.frames@[0].ppn.0 == p);
            }
            assert(r.nodes_recorded());
            assert forall|vpn: int| #[trigger] leaf(*mem, r.root.0 as int, vpn).is_none() by {
                if vpn >= 0 {
                    r.lemma_walk(mem, vpn);
                } else {
                    lemma_zero_pte(*mem, r.root.0 as int, vpn_index(vpn, 0));
                }
            }
        }
        r
    }

    /// A view of the table whose root frame is named by a `satp` value; it
    /// owns no frames and is meant for reading translations.
    pub fn from_satp(satp: u64) -> (r: Self)
        ensures
            r.root.0 == (satp & PPN_MASK) as usize,
            r.frames@.len() == 0,
    {
        PageTable {
            root: PhysPageNum((satp & PPN_MASK) as usize),
            frames: Vec::new(),
            l1: Ghost(Map::empty()),
            l2: Ghost(Map::empty()),
        }
    }

    /// The `satp` value that selects this table in the given mode.
    pub fn satp_bits(&self, mode: Mode) -> (r: u64)
        ensures
            r == (mode.spec_value() << 60u64) | (self.root.0 as u64),
    {
        (mode.value() << 60u64) | (self.root.0 as u64)
    }

    /// Where the walk for `vpn` ends: the frame and index of its last-level
    /// entry, or `None` when an intermediate entry is invalid.
    fn find_pte(&self, mem: &PhysMemory, vpn: VirtPageNum) -> (r: Option<(PhysPageNum, usize)>)
        requires
            mem.wf(),
        ensures
            r.is_some() == walk(*mem, self.root.0 as int, vpn.0 as int).is_some(),
            r matches Some(loc) ==> {
                &&& loc.1 < 512
                &&& walk(*mem, self.root.0 as int, vpn.0 as int) == Some(mem.pte(loc.0.0 as int, loc.1 as int))
            },
    {
        let indexes = vpn.indexes();
        proof {
            law_indexes_determine_vpn(vpn.0);
        }
        let e0 = mem.read_pte(self.root, indexes[0]);
        if !e0.is_valid() {
            return None;
        }
        let ppn1 = e0.ppn();
        let e1 = mem.read_pte(ppn1, indexes[1]);
        if !e1.is_valid() {
            return None;
        }
        let ppn2 = e1.ppn();
        Some((ppn2, indexes[2]))
    }

    /// The last-level entry that the walk for `vpn` reaches, if the walk
    /// gets that far.
    pub fn translate(&self, mem: &PhysMemory, vpn: VirtPageNum) -> (r: Option<PageTableEntry>)
        requires
            mem.wf(),
        ensures
            r == walk(*mem, self.root.0 as int, vpn.0 as int),
    {
        match self.find_pte(mem, vpn) {
            Some(loc) => Some(mem.read_pte(loc.0, loc.1)),
            None => None,
        }
    }

    /// The physical address that `va` translates to: the frame of the entry
    /// the walk reaches, plus the offset of `va` in its page.
    pub fn translate_va_to_pa(&self, mem: &PhysMemory, va: VirtAddr) -> (r: Option<PhysAddr>)
        requires
            mem.wf(),
        ensures
            r == match walk(*mem, self.root.0 as int, (va.0 / PAGE_SIZE) as int) {
                Some(e) => Some(PhysAddr((((e.spec_ppn() as usize) << 12usize) + va.0 % PAGE_SIZE) as usize)),
                None => None,
            },
    {
        match self.find_pte(mem, va.floor()) {
            Some(loc) => {
                let pte = mem.read_pte(loc.0, loc.1);
                let frame_no = pte.ppn().0;
                let base = frame_no << 12usize;
                let offset = va.page_offset();
                proof {
                    assert((base & 4095usize) == 0 && offset < 4096 ==> (base | offset) == base + offset)
                        by (bit_vector)
                        requires
                            base == frame_no << 12usize,
                    ;
                    assert(base & 4095usize == 0) by (bit_vector)
                        requires
                            base == frame_no << 12usize,
                    ;
                }
                Some(PhysAddr(base | offset))
            },
            None => None,
        }
    }
}


impl PageTable {
    /// Takes a zeroed frame from the pool and links it as entry `idx` of
    /// node `parent` (a frame of the pool), with only the valid bit set.
    fn alloc_node(&mut self, mem: &mut PhysMemory, parent: PhysPageNum, idx: usize) -> (f: PhysPageNum)
        requires
            old(mem).wf(),
            old(mem).free_frames() >= 1,
            old(mem).allocated(parent.0 as int),
            idx < 512,
        ensures
            final(mem).wf(),
            final(mem).base == old(mem).base,
            final(mem).end == old(mem).end,
            final(mem).current >= old(mem).current,
            final(mem).free_frames() == old(mem).free_frames() - 1,
            !old(mem).allocated(f.0 as int),
            final(mem).allocated(f.0 as int),
            f.0 < PPN_LIMIT,
            f.0 != parent.0,
            forall|p: int| p != f.0 ==> #[trigger] final(mem).allocated(p) == old(mem).allocated(p),
            forall|p: int| #[trigger] old(mem).in_pool(p) ==> final(mem).in_pool(p),
            forall|p: int, o: int|
                p != f.0 && p != parent.0 ==> #[trigger] final(mem).byte(p, o) == old(mem).byte(p, o),
            forall|j: int| 0 <= j < 512 ==> !(#[trigger] final(mem).pte(f.0 as int, j)).spec_valid(),
            forall|p: int, j: int|
                0 <= j < 512 && p != f.0 && !(p == parent.0 && j == idx) ==> #[trigger] final(mem).pte(p, j)
                    == old(mem).pte(p, j),
            final(mem).pte(parent.0 as int, idx as int).spec_valid(),
            final(mem).pte(parent.0 as int, idx as int).spec_ppn() == f.0,
            final(self).root == old(self).root,
            final(self).l1 == old(self).l1,
            final(self).l2 == old(self).l2,
            final(self).frames@.len() == old(self).frames@.len() + 1,
            final(self).frames@[old(self).frames@.len() as int].ppn == f,
            forall|j: int| 0 <= j < old(self).frames@.len() ==> #[trigger] final(self).frames@[j] == old(self).frames@[j],
    {
        let ghost m0 = *mem;
        let frame = mem.frame_alloc().unwrap();
        let f = frame.ppn();
        let ghost m1 = *mem;
        proof {
            assert forall|j: int| 0 <= j < 512 implies !(#[trigger] m1.pte(f.0 as int, j)).spec_valid() by {
                lemma_zero_pte(m1, f.0 as int, j);
            }
            assert forall|p: int, j: int|
                0 <= j < 512 && p != f.0 implies #[trigger] m1.pte(p, j) == m0.pte(p, j) by {
                assert(m1.frame(p) =~= m0.frame(p));
            }
        }
        mem.write_pte(parent, idx, PageTableEntry::new(f, PTEFlags::V()));
        proof {
            lemma_new_valid(f.0 as u64);
            assert(1u8 & 1u8 != 0) by (bit_vector);
            assert forall|p: int| p != f.0 implies #[trigger] mem.allocated(p) == m0.allocated(p) by {
                assert(mem.allocated(p) == m1.allocated(p));
            }
        }
        self.frames.push(frame);
        f
    }

    /// The slot of the last-level entry for `vpn`, creating the missing
    /// intermediate nodes (each from a fresh zeroed frame, linked with only
    /// the valid bit set).
    fn find_pte_by_create(&mut self, mem: &mut PhysMemory, vpn: VirtPageNum) -> (r: (PhysPageNum, usize))
        requires
            old(self).wf(&*old(mem)),
            old(mem).free_frames() >= old(self).missing_levels(vpn.0 as int),
        ensures
            final(self).wf(&*final(mem)),
            final(self).root == old(self).root,
            final(self).grew_from(&*old(self), &*old(mem), &*final(mem)),
            final(mem).free_frames() == old(mem).free_frames() - old(self).missing_levels(
                vpn.0 as int,
            ),
            old(self).missing_levels(vpn.0 as int) == 0 ==> *final(mem) == *old(mem)
                && final(self).l1@ == old(self).l1@ && final(self).l2@ == old(self).l2@
                && final(self).frames == old(self).frames,
            final(self).l2@.contains_key((vpn_index(vpn.0 as int, 0), vpn_index(vpn.0 as int, 1))),
            forall|k: (int, int)| #[trigger] old(self).l2@.contains_key(k) ==> final(self).l2@.contains_key(k),
            r.0.0 == final(self).l2@[(vpn_index(vpn.0 as int, 0), vpn_index(vpn.0 as int, 1))],
            r.1 == vpn_index(vpn.0 as int, 2),
            r.1 < 512,
            forall|v: int| #[trigger]
                final(self).shaped_leaf(&*final(mem), v) == old(self).shaped_leaf(&*old(mem), v),
    {
        let indexes = vpn.indexes();
        let i0 = indexes[0];
        let i1 = indexes[1];
        let i2 = indexes[2];
        proof {
            law_indexes_determine_vpn(vpn.0);
        }
        let ghost t0 = *self;
        let ghost m0 = *mem;
        let e0 = mem.read_pte(self.root, i0);
        let ppn1 = if !e0.is_valid() {
            let ghost ta = *self;
            let f = self.alloc_node(mem, self.root, i0);
            proof {
                self.l1@ = self.l1@.insert(i0 as int, f.0 as int);
                lemma_nodes_l1_insert(ta, *self, i0 as int, f.0 as int);
                lemma_node_recorded(t0, *self, f.0 as int);
            }
            proof {
                let m = *mem;
                let l1 = self.l1@;
                let l2 = self.l2@;
                let root = self.root.0 as int;
                assert(!t0.l1@.contains_key(i0 as int));
                assert forall|i: int| #[trigger] l1.contains_key(i) implies 0 <= i < 512 && m.allocated(l1[i]) && l1[i] != root by {
                    if i != i0 {
                        assert(t0.l1@.contains_key(i));
                    }
                }
                assert forall|i: int, j: int|
                    #[trigger] l1.contains_key(i) && #[trigger] l1.contains_key(j) && i != j implies l1[i] != l1[j] by {
                    if i != i0 && j != i0 {
                        assert(t0.l1@.contains_key(i) && t0.l1@.contains_key(j));
                    } else if i == i0 {
                        assert(m0.allocated(t0.l1@[j]));
                    } else {
                        assert(m0.allocated(t0.l1@[i]));
                    }
                }
                assert forall|k: (int, int)| #[trigger] l2.contains_key(k) implies l1.contains_key(k.0) && 0 <= k.1 < 512 && m.allocated(l2[k]) && l2[k] != root by {
                    assert(t0.l2@.contains_key(k));
                }
                assert forall|i: int, k: (int, int)| #[trigger] l1.contains_key(i) && #[trigger] l2.contains_key(k) implies l1[i] != l2[k] by {
                    if i == i0 {
                        assert(m0.allocated(l2[k]));
                    } else {
                        assert(t0.l1@.contains_key(i));
                    }
                }
                assert forall|i: int| 0 <= i < 512 implies (#[trigger] m.pte(root, i).spec_valid() <==> l1.contains_key(i)) by {
                    if i != i0 {
                        assert(m.pte(root, i) == m0.pte(root, i));
                    }
                }
                assert forall|i: int| #[trigger] l1.contains_key(i) implies m.pte(root, i).spec_ppn() == l1[i] by {
                    if i != i0 {
                        assert(m.pte(root, i) == m0.pte(root, i));
                        assert(t0.l1@.contains_key(i));
                    }
                }
                assert forall|i: int, j: int| l1.contains_key(i) && 0 <= j < 512 implies (#[trigger] m.pte(l1[i], j).spec_valid() <==> l2.contains_key((i, j))) by {
                    if i != i0 {
                        assert(t0.l1@.contains_key(i));
                        assert(m0.allocated(l1[i]));
                        assert(m.pte(l1[i], j) == m0.pte(l1[i], j));
                    } else {
                        assert(!l2.contains_key((i, j)));
                    }
                }
                assert forall|i: int, j: int| #[trigger] l2.contains_key((i, j)) implies m.pte(l1[i], j).spec_ppn() == l2[(i, j)] by {
                    assert(t0.l2@.contains_key((i, j)));
                    assert(t0.l1@.contains_key(i));
                    assert(i != i0);
                    assert(m0.allocated(l1[i]));
                    assert(m.pte(l1[i], j) == m0.pte(l1[i], j));
                }
                assert(self.wf(mem));
            }
            f
        } else {
            proof {
                assert(self.l1@.contains_key(i0 as int));
                assert(m0.allocated(self.l1@[i0 as int]));
            }
            e0.ppn()
        };
        let ghost t1 = *self;
        let ghost m1 = *mem;
        assert(ppn1.0 == self.l1@[i0 as int]);
        let e1 = mem.read_pte(ppn1, i1);
        let ppn2 = if !e1.is_valid() {
            let ghost tb = *self;
            let g = self.alloc_node(mem, ppn1, i1);
            proof {
                self.l2@ = self.l2@.insert((i0 as int, i1 as int), g.0 as int);
                lemma_nodes_l2_insert(tb, *self, (i0 as int, i1 as int), g.0 as int);
                lemma_node_recorded(t1, *self, g.0 as int);
            }
            proof {
                let m = *mem;
                let l1 = self.l1@;
                let l2 = self.l2@;
                let root = self.root.0 as int;
                assert(!t1.l2@.contains_key((i0 as int, i1 as int)));
                assert forall|i: int| #[trigger] l1.contains_key(i) implies 0 <= i < 512 && m.allocated(l1[i]) && l1[i] != root by {
                    assert(m1.allocated(l1[i]));
                }
                assert forall|k: (int, int)| #[trigger] l2.contains_key(k) implies l1.contains_key(k.0) && 0 <= k.1 < 512 && m.allocated(l2[k]) && l2[k] != root by {
                    if k != (i0 as int, i1 as int) {
                        assert(t1.l2@.contains_key(k));
                        assert(m1.allocated(l2[k]));
                    }
                }
                assert forall|k1: (int, int), k2: (int, int)|
                    #[trigger] l2.contains_key(k1) && #[trigger] l2.contains_key(k2) && k1 != k2 implies l2[k1] != l2[k2] by {
                    if k1 != (i0 as int, i1 as int) && k2 != (i0 as int, i1 as int) {
                        assert(t1.l2@.contains_key(k1) && t1.l2@.contains_key(k2));
                    } else if k1 == (i0 as int, i1 as int) {
                        assert(m1.allocated(t1.l2@[k2]));
                    } else {
                        assert(m1.allocated(t1.l2@[k1]));
                    }
                }
                assert forall|i: int, k: (int, int)| #[trigger] l1.contains_key(i) && #[trigger] l2.contains_key(k) implies l1[i] != l2[k] by {
                    assert(m1.allocated(l1[i]));
                    if k != (i0 as int, i1 as int) {
                        assert(t1.l2@.contains_key(k));
                    }
                }
                assert forall|i: int| 0 <= i < 512 implies (#[trigger] m.pte(root, i).spec_valid() <==> l1.contains_key(i)) by {
                    assert(m.pte(root, i) == m1.pte(root, i));
                }
                assert forall|i: int| #[trigger] l1.contains_key(i) implies m.pte(root, i).spec_ppn() == l1[i] by {
                    assert(m.pte(root, i) == m1.pte(root, i));
                }
                assert forall|i: int, j: int| l1.contains_key(i) && 0 <= j < 512 implies (#[trigger] m.pte(l1[i], j).spec_valid() <==> l2.contains_key((i, j))) by {
                    assert(m1.allocated(l1[i]));
                    if !(i == i0 && j == i1) {
                        if i != i0 {
                            assert(l1[i] != l1[i0 as int]);
                        }
                        assert(m.pte(l1[i], j) == m1.pte(l1[i], j));
                    }
                }
                assert forall|i: int, j: int| #[trigger] l2.contains_key((i, j)) implies m.pte(l1[i], j).spec_ppn() == l2[(i, j)] by {
                    if !(i == i0 && j == i1) {
                        assert(t1.l2@.contains_key((i, j)));
                        assert(m1.allocated(l1[i]));
                        if i != i0 {
                            assert(l1[i] != l1[i0 as int]);
                        }
                        assert(m.pte(l1[i], j) == m1.pte(l1[i], j));
                    }
                }
                assert(self.wf(mem));
            }
            g
        } else {
            proof {
                assert(self.l2@.contains_key((i0 as int, i1 as int)));
                assert(m1.allocated(self.l2@[(i0 as int, i1 as int)]));
            }
            e1.ppn()
        };
        proof {
            let m = *mem;
            assert forall|p: int| #[trigger] t0.is_node(p) implies self.is_node(p) by {
                if p != self.root.0 {
                    if exists|i: int| #[trigger] t0.l1@.contains_key(i) && t0.l1@[i] == p {
                        let i = choose|i: int| #[trigger] t0.l1@.contains_key(i) && t0.l1@[i] == p;
                        assert(self.l1@.contains_key(i) && self.l1@[i] == p);
                    } else {
                        let k = choose|k: (int, int)| #[trigger] t0.l2@.contains_key(k) && t0.l2@[k] == p;
                        assert(self.l2@.contains_key(k) && self.l2@[k] == p);
                    }
                }
            }
            assert forall|p: int| #[trigger] self.is_node(p) && !t0.is_node(p) implies !m0.allocated(p) && (p == ppn1.0 || p == ppn2.0) by {
                if p != self.root.0 {
                    if exists|i: int| #[trigger] self.l1@.contains_key(i) && self.l1@[i] == p {
                        let i = choose|i: int| #[trigger] self.l1@.contains_key(i) && self.l1@[i] == p;
                        if t0.l1@.contains_key(i) {
                            assert(t0.is_node(p));
                        }
                    } else {
                        let k = choose|k: (int, int)| #[trigger] self.l2@.contains_key(k) && self.l2@[k] == p;
                        if t0.l2@.contains_key(k) {
                            assert(t0.is_node(p));
                        }
                    }
                }
            }
            assert(self.is_node(self.root.0 as int));
            assert(self.is_node(ppn1.0 as int)) by {
                assert(self.l1@.contains_key(i0 as int) && self.l1@[i0 as int] == ppn1.0);
            }
            assert(self.is_node(ppn2.0 as int)) by {
                assert(self.l2@.contains_key((i0 as int, i1 as int)) && self.l2@[(i0 as int, i1 as int)] == ppn2.0);
            }
            assert forall|p: int, o: int| !self.node_set().contains(p) implies #[trigger] m.byte(p, o) == m0.byte(p, o) by {
                assert(p != self.root.0 && p != ppn1.0 && p != ppn2.0);
            }
            assert forall|p: int| #[trigger] m.allocated(p) == (m0.allocated(p) || (self.is_node(p) && !t0.is_node(p))) by {
                if self.is_node(p) && !t0.is_node(p) {
                } else if p == ppn1.0 || p == ppn2.0 {
                    assert(self.is_node(p));
                    assert(t0.is_node(p));
                    assert(m0.allocated(p)) by {
                        if p == self.root.0 {
                        } else if exists|i: int| #[trigger] t0.l1@.contains_key(i) && t0.l1@[i] == p {
                        } else {
                            let k = choose|k: (int, int)| #[trigger] t0.l2@.contains_key(k) && t0.l2@[k] == p;
                        }
                    }
                }
            }
            assert forall|v: int| #[trigger] self.shaped_leaf(mem, v) == t0.shaped_leaf(&m0, v) by {
                let k = (vpn_index(v, 0), vpn_index(v, 1));
                if t0.l2@.contains_key(k) {
                    let q = t0.l2@[k];
                    assert(self.l2@[k] == q);
                    assert(m0.allocated(q));
                    assert(m.frame(q) =~= m0.frame(q)) by {
                        assert(q != self.root.0);
                        if !e0.spec_valid() {
                            assert(q != ppn1.0);
                        } else {
                            assert(t0.l1@.contains_key(i0 as int));
                            assert(q != ppn1.0);
                        }
                        assert(q != ppn2.0 || e1.spec_valid());
                    }
                } else if self.l2@.contains_key(k) {
                    assert(k == (i0 as int, i1 as int));
                    assert(!e1.spec_valid());
                    lemma_indexes_determine_vpn_int(v);
                }
            }
        }
        (ppn2, i2)
    }
}


impl PageTable {
    /// Maps `vpn` to frame `ppn` with `flags` plus the valid bit, creating
    /// intermediate nodes as needed; `vpn` must not be mapped yet.
    pub fn map(&mut self, mem: &mut PhysMemory, vpn: VirtPageNum, ppn: PhysPageNum, flags: PTEFlags)
        requires
            old(self).wf(&*old(mem)),
            leaf(*old(mem), old(self).root.0 as int, vpn.0 as int).is_none(),
            ppn.0 < PPN_LIMIT,
            old(mem).free_frames() >= old(self).missing_levels(vpn.0 as int),
        ensures
            final(self).wf(&*final(mem)),
            final(self).root == old(self).root,
            final(self).grew_from(&*old(self), &*old(mem), &*final(mem)),
            final(mem).free_frames() == old(mem).free_frames() - old(self).missing_levels(
                vpn.0 as int,
            ),
            final(self).l2@.contains_key((vpn_index(vpn.0 as int, 0), vpn_index(vpn.0 as int, 1))),
            forall|k: (int, int)| #[trigger] old(self).l2@.contains_key(k) ==> final(self).l2@.contains_key(k),
            forall|v: int|
                v >= 0 ==> #[trigger] leaf(*final(mem), final(self).root.0 as int, v) == if vpn_key(v)
                    == vpn_key(vpn.0 as int) {
                    Some(spec_pte(ppn.0 as int, flags.bits | 1))
                } else {
                    leaf(*old(mem), old(self).root.0 as int, v)
                },
            final(self).view_in(&*final(mem)) == old(self).view_in(&*old(mem)).insert(
                vpn_key(vpn.0 as int),
                spec_pte(ppn.0 as int, flags.bits | 1),
            ),
    {
        let ghost t0 = *self;
        let ghost m0 = *mem;
        let (leaf_ppn, i2) = self.find_pte_by_create(mem, vpn);
        let ghost t1 = *self;
        let ghost m1 = *mem;
        let e = PageTableEntry::new(ppn, flags.union(PTEFlags::V()));
        proof {
            let f = flags.bits;
            assert((f | 1u8) & 1u8 != 0) by (bit_vector);
            assert(m1.allocated(leaf_ppn.0 as int));
        }
        mem.write_pte(leaf_ppn, i2, e);
        proof {
            let m = *mem;
            let i0 = vpn_index(vpn.0 as int, 0);
            let i1 = vpn_index(vpn.0 as int, 1);
            let l1 = self.l1@;
            let l2 = self.l2@;
            let root = self.root.0 as int;
            assert(leaf_ppn.0 != root);
            assert forall|i: int| l1.contains_key(i) implies l1[i] != leaf_ppn.0 by {}
            assert forall|i: int| 0 <= i < 512 implies (#[trigger] m.pte(root, i).spec_valid() <==> l1.contains_key(i)) by {
                assert(m.pte(root, i) == m1.pte(root, i));
            }
            assert forall|i: int| #[trigger] l1.contains_key(i) implies m.pte(root, i).spec_ppn() == l1[i] by {
                assert(m.pte(root, i) == m1.pte(root, i));
            }
            assert forall|i: int, j: int| l1.contains_key(i) && 0 <= j < 512 implies (#[trigger] m.pte(l1[i], j).spec_valid() <==> l2.contains_key((i, j))) by {
                assert(m.pte(l1[i], j) == m1.pte(l1[i], j));
            }
            assert forall|i: int, j: int| #[trigger] l2.contains_key((i, j)) implies m.pte(l1[i], j).spec_ppn() == l2[(i, j)] by {
                assert(m.pte(l1[i], j) == m1.pte(l1[i], j));
            }
            assert(self.wf(mem));
            assert forall|p: int, o: int| !self.node_set().contains(p) implies #[trigger] m.byte(p, o) == m0.byte(p, o) by {
                assert(self.is_node(leaf_ppn.0 as int)) by {
                    assert(l2.contains_key((i0, i1)) && l2[(i0, i1)] == leaf_ppn.0);
                }
                assert(m.byte(p, o) == m1.byte(p, o));
            }
            assert forall|p: int| #[trigger] m.allocated(p) == (m0.allocated(p) || (self.is_node(p) && !t0.is_node(p))) by {
                assert(m.allocated(p) == m1.allocated(p));
            }
            assert forall|p: int| #[trigger] m0.in_pool(p) implies m.in_pool(p) by {
                assert(m1.in_pool(p));
            }
            assert forall|v: int| v >= 0 implies #[trigger] leaf(*mem, root, v) == if vpn_key(v) == vpn_key(vpn.0 as int) {
                Some(spec_pte(ppn.0 as int, flags.bits | 1))
            } else {
                leaf(m0, root, v)
            } by {
                self.lemma_walk(mem, v);
                t0.lemma_walk(&m0, v);
                assert(t1.shaped_leaf(&m1, v) == t0.shaped_leaf(&m0, v));
                lemma_key_indexes(v, vpn.0 as int);
                lemma_indexes_determine_vpn_int(v);
                let k = (vpn_index(v, 0), vpn_index(v, 1));
                if l2.contains_key(k) && k != (i0, i1) {
                    assert(l2[k] != l2[(i0, i1)]);
                }
            }
            let key = vpn_key(vpn.0 as int);
            assert forall|k: int| 0 <= k < VPN_SPACE implies vpn_key(k) == k by {}
            assert(self.view_in(mem) =~= t0.view_in(&m0).insert(key, spec_pte(ppn.0 as int, flags.bits | 1)));
        }
    }

    /// Clears the leaf entry of `vpn`, which must be mapped.
    pub fn unmap(&mut self, mem: &mut PhysMemory, vpn: VirtPageNum)
        requires
            old(self).wf(&*old(mem)),
            leaf(*old(mem), old(self).root.0 as int, vpn.0 as int).is_some(),
        ensures
            final(self).wf(&*final(mem)),
            final(self).root == old(self).root,
            final(self).l1 == old(self).l1,
            final(self).l2 == old(self).l2,
            final(self).frames == old(self).frames,
            final(self).grew_from(&*old(self), &*old(mem), &*final(mem)),
            final(mem).free_frames() == old(mem).free_frames(),
            final(mem).current == old(mem).current,
            forall|p: int| #[trigger] final(mem).allocated(p) == old(mem).allocated(p),
            forall|v: int|
                v >= 0 ==> #[trigger] leaf(*final(mem), final(self).root.0 as int, v) == if vpn_key(v)
                    == vpn_key(vpn.0 as int) {
                    None
                } else {
                    leaf(*old(mem), old(self).root.0 as int, v)
                },
            final(self).view_in(&*final(mem)) == old(self).view_in(&*old(mem)).remove(
                vpn_key(vpn.0 as int),
            ),
            walk(*final(mem), final(self).root.0 as int, vpn.0 as int) == Some((PageTableEntry { bits: 0 })),
    {
        let ghost t0 = *self;
        let ghost m0 = *mem;
        proof {
            t0.lemma_walk(&m0, vpn.0 as int);
        }
        let (leaf_ppn, i2) = self.find_pte_by_create(mem, vpn);
        let e = PageTableEntry::empty();
        mem.write_pte(leaf_ppn, i2, e);
        proof {
            let m = *mem;
            let i0 = vpn_index(vpn.0 as int, 0);
            let i1 = vpn_index(vpn.0 as int, 1);
            let l1 = self.l1@;
            let l2 = self.l2@;
            let root = self.root.0 as int;
            assert(leaf_ppn.0 != root);
            assert forall|i: int| l1.contains_key(i) implies l1[i] != leaf_ppn.0 by {}
            assert forall|i: int| 0 <= i < 512 implies (#[trigger] m.pte(root, i).spec_valid() <==> l1.contains_key(i)) by {
                assert(m.pte(root, i) == m0.pte(root, i));
            }
            assert forall|i: int| #[trigger] l1.contains_key(i) implies m.pte(root, i).spec_ppn() == l1[i] by {
                assert(m.pte(root, i) == m0.pte(root, i));
            }
            assert forall|i: int, j: int| l1.contains_key(i) && 0 <= j < 512 implies (#[trigger] m.pte(l1[i], j).spec_valid() <==> l2.contains_key((i, j))) by {
                assert(m.pte(l1[i], j) == m0.pte(l1[i], j));
            }
            assert forall|i: int, j: int| #[trigger] l2.contains_key((i, j)) implies m.pte(l1[i], j).spec_ppn() == l2[(i, j)] by {
                assert(m.pte(l1[i], j) == m0.pte(l1[i], j));
            }
            assert(self.wf(mem));
            assert forall|p: int, o: int| !self.node_set().contains(p) implies #[trigger] m.byte(p, o) == m0.byte(p, o) by {
                assert(self.is_node(leaf_ppn.0 as int)) by {
                    assert(l2.contains_key((i0, i1)) && l2[(i0, i1)] == leaf_ppn.0);
                }
            }
            assert forall|v: int| v >= 0 implies #[trigger] leaf(*mem, root, v) == if vpn_key(v) == vpn_key(vpn.0 as int) {
                None
            } else {
                leaf(m0, root, v)
            } by {
                self.lemma_walk(mem, v);
                t0.lemma_walk(&m0, v);
                lemma_key_indexes(v, vpn.0 as int);
                lemma_indexes_determine_vpn_int(v);
                let k = (vpn_index(v, 0), vpn_index(v, 1));
                if l2.contains_key(k) && k != (i0, i1) {
                    assert(l2[k] != l2[(i0, i1)]);
                }
            }
            let key = vpn_key(vpn.0 as int);
            assert forall|k: int| 0 <= k < VPN_SPACE implies vpn_key(k) == k by {}
            assert(self.view_in(mem) =~= t0.view_in(&m0).remove(key));
            self.lemma_walk(mem, vpn.0 as int);
            assert(mem.pte(leaf_ppn.0 as int, i2 as int) == e);
        }
    }
}


/// Unmapping a page right after mapping it gives back the mappings that the
/// table had before.
pub proof fn law_unmap_undoes_map(
    before: Map<int, PageTableEntry>,
    after_map: Map<int, PageTableEntry>,
    after_unmap: Map<int, PageTableEntry>,
    vpn: int,
    e: PageTableEntry,
)
    requires
        !before.contains_key(vpn_key(vpn)),
        after_map == before.insert(vpn_key(vpn), e),
        after_unmap == after_map.remove(vpn_key(vpn)),
    ensures
        after_unmap == before,
{
    assert(after_unmap =~= before);
}

/// Once `vpn` is mapped to frame `ppn` with `flags`, the walk for it, which
/// is what `translate` returns, ends at a valid entry that names `ppn` and
/// carries `flags` with the valid bit.
pub proof fn law_map_then_translate(mem: PhysMemory, root: int, vpn: int, ppn: int, flags: u8)
    requires
        0 <= ppn < PPN_LIMIT,
        ppn <= usize::MAX,
        leaf(mem, root, vpn) == Some(spec_pte(ppn, flags | 1)),
    ensures
        walk(mem, root, vpn) == Some(spec_pte(ppn, flags | 1)),
        (spec_pte(ppn, flags | 1).spec_ppn() as usize) == ppn,
        spec_pte(ppn, flags | 1).spec_flags() == flags | 1,
        spec_pte(ppn, flags | 1).spec_valid(),
{
    let f = (flags | 1) as u8;
    super::pte::law_pte_round_trip(ppn as u64, f);
    let e = PageTableEntry { bits: (((ppn as u64) << 10) | (f as u64)) };
    assert(spec_pte(ppn, f) == e);
    assert((flags | 1u8) & 1u8 != 0) by (bit_vector);
}

/// The `satp` value of a table names the table's root again.
pub proof fn law_satp_names_root(mode: Mode, root: PhysPageNum)
    requires
        root.0 < PPN_LIMIT,
    ensures
        (((mode.spec_value() << 60u64) | (root.0 as u64)) & PPN_MASK) as usize == root.0,
{
    let m = mode.spec_value();
    let r = root.0 as u64;
    assert(m <= 8);
    assert(((m << 60u64) | r) & 0xfff_ffff_ffff == r) by (bit_vector)
        requires
            r < 0x1000_0000_0000,
            m <= 8,
    ;
}

/// A well-formed table stays well-formed, with the same mappings, in any
/// memory whose nodes of the table hold the same bytes and are still
/// allocated.
pub proof fn lemma_nodes_untouched(t: PageTable, m_old: PhysMemory, m_new: PhysMemory)
    requires
        t.wf(&m_old),
        m_new.wf(),
        forall|p: int, o: int| t.is_node(p) ==> #[trigger] m_new.byte(p, o) == m_old.byte(p, o),
        forall|p: int| #[trigger] t.is_node(p) ==> m_new.allocated(p),
    ensures
        t.wf(&m_new),
        t.view_in(&m_new) == t.view_in(&m_old),
        forall|v: int| v >= 0 ==> #[trigger] leaf(m_new, t.root.0 as int, v) == leaf(m_old, t.root.0 as int, v),
{
    assert forall|p: int, j: int| t.is_node(p) && 0 <= j < 512 implies #[trigger] m_new.pte(p, j) == m_old.pte(p, j) by {
        assert(m_new.frame(p) =~= m_old.frame(p)) by {
            assert forall|o: int| 0 <= o < 4096 implies m_new.byte(p, o) == m_old.byte(p, o) by {
                assert(m_new.byte(p, o) == m_old.byte(p, o));
            }
        }
    }
    let l1 = t.l1@;
    let l2 = t.l2@;
    let root = t.root.0 as int;
    assert(t.is_node(root));
    assert forall|i: int| #[trigger] l1.contains_key(i) implies 0 <= i < 512 && m_new.allocated(l1[i]) && l1[i] != root by {
        assert(t.is_node(l1[i]));
    }
    assert forall|k: (int, int)| #[trigger] l2.contains_key(k) implies l1.contains_key(k.0) && 0 <= k.1 < 512 && m_new.allocated(l2[k]) && l2[k] != root by {
        assert(t.is_node(l2[k]));
    }
    assert forall|i: int| 0 <= i < 512 implies (#[trigger] m_new.pte(root, i).spec_valid() <==> l1.contains_key(i)) by {
        assert(m_new.pte(root, i) == m_old.pte(root, i));
    }
    assert forall|i: int| #[trigger] l1.contains_key(i) implies m_new.pte(root, i).spec_ppn() == l1[i] by {
        assert(m_new.pte(root, i) == m_old.pte(root, i));
    }
    assert forall|i: int, j: int| l1.contains_key(i) && 0 <= j < 512 implies (#[trigger] m_new.pte(l1[i], j).spec_valid() <==> l2.contains_key((i, j))) by {
        assert(t.is_node(l1[i]));
        assert(m_new.pte(l1[i], j) == m_old.pte(l1[i], j));
    }
    assert forall|i: int, j: int| #[trigger] l2.contains_key((i, j)) implies m_new.pte(l1[i], j).spec_ppn() == l2[(i, j)] by {
        assert(t.is_node(l1[i]));
        assert(m_new.pte(l1[i], j) == m_old.pte(l1[i], j));
    }
    assert(t.wf(&m_new));
    assert forall|k: int| k >= 0 implies #[trigger] leaf(m_new, root, k) == leaf(m_old, root, k) by {
        t.lemma_walk(&m_new, k);
        t.lemma_walk(&m_old, k);
        lemma_indexes_determine_vpn_int(k);
        let kk = (vpn_index(k, 0), vpn_index(k, 1));
        if l2.contains_key(kk) {
            assert(t.is_node(l2[kk]));
            assert(m_new.pte(l2[kk], vpn_index(k, 2)) == m_old.pte(l2[kk], vpn_index(k, 2)));
        }
    }
    assert(t.view_in(&m_new) =~= t.view_in(&m_old));
}

/// Changing one table, by mapping, unmapping or creating nodes, leaves every
/// other well-formed table that shares no node with it as it was.
pub proof fn law_other_tables_unaffected(
    t_old: PageTable,
    t_new: PageTable,
    other: PageTable,
    m_old: PhysMemory,
    m_new: PhysMemory,
)
    requires
        t_new.grew_from(&t_old, &m_old, &m_new),
        other.wf(&m_old),
        forall|p: int| #[trigger] other.is_node(p) ==> !t_old.is_node(p),
    ensures
        other.wf(&m_new),
        other.view_in(&m_new) == other.view_in(&m_old),
{
    assert forall|p: int| #[trigger] other.is_node(p) implies !t_new.is_node(p) && m_new.allocated(p) && m_old.allocated(p) by {
        if p == other.root.0 {
        } else if exists|i: int| #[trigger] other.l1@.contains_key(i) && other.l1@[i] == p {
            let i = choose|i: int| #[trigger] other.l1@.contains_key(i) && other.l1@[i] == p;
        } else {
            let k = choose|k: (int, int)| #[trigger] other.l2@.contains_key(k) && other.l2@[k] == p;
        }
    }
    assert forall|p: int, o: int| other.is_node(p) implies #[trigger] m_new.byte(p, o) == m_old.byte(p, o) by {
        assert(!t_new.node_set().contains(p));
    }
    lemma_nodes_untouched(other, m_old, m_new);
}

/// A table that gained node `f`, kept as its newest frame, still keeps
/// exactly its nodes.
proof fn lemma_node_recorded(t_old: PageTable, t_new: PageTable, f: int)
    requires
        t_old.nodes_recorded(),
        t_new.frames@.len() == t_old.frames@.len() + 1,
        t_new.frames@[t_old.frames@.len() as int].ppn.0 == f,
        forall|j: int| 0 <= j < t_old.frames@.len() ==> #[trigger] t_new.frames@[j] == t_old.frames@[j],
        forall|p: int| #[trigger] t_new.is_node(p) == (t_old.is_node(p) || p == f),
    ensures
        t_new.nodes_recorded(),
{
    let n = t_old.frames@.len() as int;
    assert forall|p: int| #[trigger] t_new.is_node(p) implies exists|j: int|
        0 <= j < t_new.frames@.len() && (#[trigger] t_new.frames@[j]).ppn.0 == p by {
        if p == f {
            assert(t_new.frames@[n].ppn.0 == p);
        } else {
            assert(t_old.is_node(p));
            let j = choose|j: int| 0 <= j < t_old.frames@.len() && (#[trigger] t_old.frames@[j]).ppn.0 == p;
            assert(t_new.frames@[j] == t_old.frames@[j]);
        }
    }
    assert forall|j: int| 0 <= j < t_new.frames@.len() implies t_new.is_node((#[trigger] t_new.frames@[j]).ppn.0 as int) by {
        if j < n {
            assert(t_new.frames@[j] == t_old.frames@[j]);
            assert(t_old.is_node(t_old.frames@[j].ppn.0 as int));
        }
    }
}

/// Linking a fresh level-1 node `f` at index `i0` adds `f` to the nodes.
proof fn lemma_nodes_l1_insert(t_old: PageTable, t_new: PageTable, i0: int, f: int)
    requires
        !t_old.l1@.contains_key(i0),
        t_new.l1@ == t_old.l1@.insert(i0, f),
        t_new.l2@ == t_old.l2@,
        t_new.root == t_old.root,
    ensures
        forall|p: int| #[trigger] t_new.is_node(p) == (t_old.is_node(p) || p == f),
{
    assert forall|p: int| #[trigger] t_new.is_node(p) == (t_old.is_node(p) || p == f) by {
        if exists|i: int| #[trigger] t_old.l1@.contains_key(i) && t_old.l1@[i] == p {
            let i = choose|i: int| #[trigger] t_old.l1@.contains_key(i) && t_old.l1@[i] == p;
            assert(t_new.l1@.contains_key(i) && t_new.l1@[i] == p);
        }
        if exists|i: int| #[trigger] t_new.l1@.contains_key(i) && t_new.l1@[i] == p {
            let i = choose|i: int| #[trigger] t_new.l1@.contains_key(i) && t_new.l1@[i] == p;
            if i != i0 {
                assert(t_old.l1@.contains_key(i) && t_old.l1@[i] == p);
            }
        }
        if p == f {
            assert(t_new.l1@.contains_key(i0) && t_new.l1@[i0] == p);
        }
    }
}

/// Linking a fresh leaf node `g` under the pair `k0` adds `g` to the nodes.
proof fn lemma_nodes_l2_insert(t_old: PageTable, t_new: PageTable, k0: (int, int), g: int)
    requires
        !t_old.l2@.contains_key(k0),
        t_new.l2@ == t_old.l2@.insert(k0, g),
        t_new.l1@ == t_old.l1@,
        t_new.root == t_old.root,
    ensures
        forall|p: int| #[trigger] t_new.is_node(p) == (t_old.is_node(p) || p == g),
{
    assert forall|p: int| #[trigger] t_new.is_node(p) == (t_old.is_node(p) || p == g) by {
        if exists|k: (int, int)| #[trigger] t_old.l2@.contains_key(k) && t_old.l2@[k] == p {
            let k = choose|k: (int, int)| #[trigger] t_old.l2@.contains_key(k) && t_old.l2@[k] == p;
            assert(t_new.l2@.contains_key(k) && t_new.l2@[k] == p);
        }
        if exists|k: (int, int)| #[trigger] t_new.l2@.contains_key(k) && t_new.l2@[k] == p {
            let k = choose|k: (int, int)| #[trigger] t_new.l2@.contains_key(k) && t_new.l2@[k] == p;
            if k != k0 {
                assert(t_old.l2@.contains_key(k) && t_old.l2@[k] == p);
            }
        }
        if p == g {
            assert(t_new.l2@.contains_key(k0) && t_new.l2@[k0] == p);
        }
    }
}

/// The nodes of a well-formed table are allocated frames.
pub proof fn lemma_nodes_allocated(t: PageTable, m: PhysMemory, p: int)
    requires
        t.wf(&m),
        t.is_node(p),
    ensures
        m.allocated(p),
{
    if p == t.root.0 {
    } else if exists|i: int| #[trigger] t.l1@.contains_key(i) && t.l1@[i] == p {
        let i = choose|i: int| #[trigger] t.l1@.contains_key(i) && t.l1@[i] == p;
    } else {
        let k = choose|k: (int, int)| #[trigger] t.l2@.contains_key(k) && t.l2@[k] == p;
    }
}

} // verus!
