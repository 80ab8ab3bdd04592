//! Sv39 page-table entries and their flag bits.

use vstd::prelude::*;

use super::address::PhysPageNum;

verus! {

/// Largest frame number that an Sv39 entry can hold, plus one.
pub const PPN_LIMIT: u64 = 0x1000_0000_0000;

/// Mask of the 44 frame-number bits of an entry, once shifted down.
pub const PPN_MASK: u64 = 0xfff_ffff_ffff;

/// The flag bits of a page-table entry.
#[derive(Clone, Copy, PartialEq, Eq, Structural)]
pub struct PTEFlags {
    pub bits: u8,
}

#[allow(non_snake_case)]
impl PTEFlags {
    /// No flag.
    pub fn empty() -> (r: Self)
        ensures
            r.bits == 0,
    {
        PTEFlags { bits: 0 }
    }

    /// Valid.
    pub fn V() -> (r: Self)
        ensures
            r.bits == 1,
    {
        PTEFlags { bits: 1 }
    }

    /// Readable.
    pub fn R() -> (r: Self)
        ensures
            r.bits == 2,
    {
        PTEFlags { bits: 2 }
    }

    /// Writable.
    pub fn W() -> (r: Self)
        ensures
            r.bits == 4,
    {
        PTEFlags { bits: 4 }
    }

    /// Executable.
    pub fn X() -> (r: Self)
        ensures
            r.bits == 8,
    {
        PTEFlags { bits: 8 }
    }

    /// Accessible from user mode.
    pub fn U() -> (r: Self)
        ensures
            r.bits == 16,
    {
        PTEFlags { bits: 16 }
    }

    /// Global mapping.
    pub fn G() -> (r: Self)
        ensures
            r.bits == 32,
    {
        PTEFlags { bits: 32 }
    }

    /// Accessed.
    pub fn A() -> (r: Self)
        ensures
            r.bits == 64,
    {
        PTEFlags { bits: 64 }
    }

    /// Dirty.
    pub fn D() -> (r: Self)
        ensures
            r.bits == 128,
    {
        PTEFlags { bits: 128 }
    }

    /// The raw bits.
    pub fn bits(&self) -> (r: u8)
        ensures
            r == self.bits,
    {
        self.bits
    }

    /// The flags with the given bits; every bit of a byte names a flag, so
    /// this always succeeds.
    pub fn from_bits(bits: u8) -> (r: Option<Self>)
        ensures
            r == Some(PTEFlags { bits }),
    {
        Some(PTEFlags { bits })
    }

    /// The union of two sets of flags.
    pub fn union(&self, other: Self) -> (r: Self)
        ensures
            r.bits == self.bits | other.bits,
    {
        PTEFlags { bits: self.bits | other.bits }
    }

    /// The flags present in both sets.
    pub fn intersection(&self, other: Self) -> (r: Self)
        ensures
            r.bits == self.bits & other.bits,
    {
        PTEFlags { bits: self.bits & other.bits }
    }

    /// Whether every flag of `other` is set here.
    pub fn contains(&self, other: Self) -> (r: bool)
        ensures
            r == (self.bits & other.bits == other.bits),
    {
        self.bits & other.bits == other.bits
    }
}

/// An Sv39 page-table entry: a frame number in bits 10..54 and flags in
/// bits 0..8.
#[derive(Clone, Copy, PartialEq, Eq, Structural)]
pub struct PageTableEntry {
    pub bits: u64,
}

/// The raw bits of an entry that holds the given frame number and flags.
pub open spec fn pte_bits(ppn: int, flags: u8) -> int {
    ppn * 1024 + flags
}

/// The entry that holds the given frame number and flags.
pub open spec fn spec_pte(ppn: int, flags: u8) -> PageTableEntry {
    PageTableEntry { bits: pte_bits(ppn, flags) as u64 }
}

impl PageTableEntry {
    /// The frame number that the entry holds.
    pub open spec fn spec_ppn(self) -> u64 {
        (self.bits >> 10) & PPN_MASK
    }

    /// The flag byte of the entry.
    pub open spec fn spec_flags(self) -> u8 {
        (self.bits & 0xff) as u8
    }

    /// Whether any of the flag bits `f` is set.
    pub open spec fn has(self, f: u8) -> bool {
        self.spec_flags() & f != 0
    }

    /// Valid bit.
    pub open spec fn spec_valid(self) -> bool {
        self.has(1)
    }

    /// Leaf entries grant some access (read, write or execute).
    pub open spec fn spec_leaf(self) -> bool {
        self.has(2) || self.has(4) || self.has(8)
    }

    /// An entry that holds `ppn` and `flags`.
    /// Frame numbers past 44 bits lose their high bits, as the shift drops
    /// them; the flags are kept whatever the frame number.
    pub fn new(ppn: PhysPageNum, flags: PTEFlags) -> (r: Self)
        ensures
            r == spec_pte(ppn.0 as int, flags.bits),
            r.spec_flags() == flags.bits,
            ppn.0 < PPN_LIMIT ==> r.bits == pte_bits(ppn.0 as int, flags.bits) && r.spec_ppn() == ppn.0,
    {
        let p = ppn.0 as u64;
        let f = flags.bits as u64;
        let bits = (p << 10) | f;
        proof {
            assert(f < 256);
            assert(((p << 10) | f) == (p * 1024 + f) as u64 && ((p << 10) | f) & 0xff == f) by (bit_vector)
                requires
                    f < 256,
            ;
            if p < 0x1000_0000_0000 {
                assert(((p << 10) | f) == p * 1024 + f && (((p << 10) | f) >> 10) & 0xfff_ffff_ffff == p) by (bit_vector)
                    requires
                        p < 0x1000_0000_0000,
                        f < 256,
                ;
            }
        }
        Self { bits }
    }

    /// The frame number that the entry holds.
    pub fn ppn(&self) -> (r: PhysPageNum)
        ensures
            r.0 == self.spec_ppn() as usize,
    {
        PhysPageNum(((self.bits >> 10) & PPN_MASK) as usize)
    }

    /// The entry with no frame and no flag.
    pub fn empty() -> (r: Self)
        ensures
            r.bits == 0,
            !r.spec_valid(),
    {
        proof {
            assert((0u64 & 0xff) as u8 & 1 == 0) by (bit_vector);
        }
        PageTableEntry { bits: 0 }
    }

    /// The flag bits of the entry.
    pub fn flags(&self) -> (r: PTEFlags)
        ensures
            r.bits == self.spec_flags(),
    {
        PTEFlags { bits: (self.bits & 0xff) as u8 }
    }

    /// Whether the valid bit is set.
    pub fn is_valid(&self) -> (r: bool)
        ensures
            r == self.spec_valid(),
    {
        (self.flags().bits & PTEFlags::V().bits) != PTEFlags::empty().bits
    }

    /// Whether the read bit is set.
    pub fn readable(&self) -> (r: bool)
        ensures
            r == self.has(2),
    {
        (self.flags().bits & PTEFlags::R().bits) != PTEFlags::empty().bits
    }

    /// Whether the write bit is set.
    pub fn writable(&self) -> (r: bool)
        ensures
            r == self.has(4),
    {
        (self.flags().bits & PTEFlags::W().bits) != PTEFlags::empty().bits
    }

    /// Whether the execute bit is set.
    pub fn executable(&self) -> (r: bool)
        ensures
            r == self.has(8),
    {
        (self.flags().bits & PTEFlags::X().bits) != PTEFlags::empty().bits
    }

    /// Whether the entry counts as a user page; as written this tests the
    /// execute bit, not the user bit.
    pub fn is_user_page(&self) -> (r: bool)
        ensures
            r == self.has(8),
    {
        (self.flags().bits & PTEFlags::X().bits) != PTEFlags::empty().bits
    }

    /// The negation of `is_user_page`.
    pub fn is_supervisor_page(&self) -> (r: bool)
        ensures
            r == !self.has(8),
    {
        !self.is_user_page()
    }

    /// Whether the global bit is set.
    pub fn is_valid_for_all_virt_space(&self) -> (r: bool)
        ensures
            r == self.has(32),
    {
        (self.flags().bits & PTEFlags::G().bits) != PTEFlags::empty().bits
    }

    /// Whether the accessed bit is set.
    pub fn is_visited_after_a_be_cleaned(&self) -> (r: bool)
        ensures
            r == self.has(64),
    {
        (self.flags().bits & PTEFlags::A().bits) != PTEFlags::empty().bits
    }

    /// Whether the dirty bit is set.
    pub fn is_dirty_after_d_be_cleaned(&self) -> (r: bool)
        ensures
            r == self.has(128),
    {
        (self.flags().bits & PTEFlags::D().bits) != PTEFlags::empty().bits
    }

    /// Whether the entry is a leaf: readable, writable or executable.
    pub fn is_leaf(&self) -> (r: bool)
        ensures
            r == self.spec_leaf(),
    {
        let r = self.readable();
        let w = self.writable();
        let x = self.executable();
        r || w || x
    }

    /// Whether the entry points to a next-level table (not a leaf).
    pub fn is_node(&self) -> (r: bool)
        ensures
            r == !self.spec_leaf(),
    {
        !self.is_leaf()
    }
}

/// An entry built from a frame number and flags gives both back unchanged.
pub proof fn law_pte_round_trip(ppn: u64, flags: u8)
    requires
        ppn < PPN_LIMIT,
    ensures
        ({
            let e = PageTableEntry { bits: ((ppn << 10) | (flags as u64)) };
            e.spec_ppn() == ppn && e.spec_flags() == flags && e.bits == pte_bits(ppn as int, flags)
        }),
{
    let f = flags as u64;
    assert(((ppn << 10) | f) == ppn * 1024 + f && (((ppn << 10) | f) >> 10) & 0xfff_ffff_ffff
        == ppn && ((ppn << 10) | f) & 0xff == f) by (bit_vector)
        requires
            ppn < 0x1000_0000_0000,
            f < 256,
    ;
}

/// An entry built from any frame number and flags holds those flags: they
/// are read back unchanged, and the entry is valid exactly when they hold
/// the valid bit.
pub proof fn law_new_keeps_flags(ppn: u64, flags: u8)
    ensures
        spec_pte(ppn as int, flags).spec_flags() == flags,
        spec_pte(ppn as int, flags).spec_valid() == (flags & 1u8 == 1u8),
{
    let f = flags as u64;
    assert(((ppn * 1024 + f) as u64 & 0xff) as u8 == flags) by (bit_vector)
        requires
            f == flags as u64,
    ;
    assert((flags & 1u8 != 0) == (flags & 1u8 == 1u8)) by (bit_vector);
}

/// An entry is valid exactly when its flags hold the valid bit.
pub proof fn law_valid_is_flag_v(e: PageTableEntry)
    ensures
        e.spec_valid() == (e.spec_flags() & 1u8 == 1u8),
{
    let f = e.spec_flags();
    assert((f & 1u8 != 0) == (f & 1u8 == 1u8)) by (bit_vector);
}

} // verus!
