//! The pool of physical frames that the kernel hands out: its contents, byte
//! by byte, and the allocator that decides which frames are in use.

use vstd::prelude::*;

use super::address::PhysPageNum;
use super::pte::{PageTableEntry, PPN_LIMIT};
use crate::config::PAGE_SIZE;

verus! {

/// The 64-bit little-endian word stored at `b[at..at + 8]`.
pub open spec fn le64(b: Seq<u8>, at: int) -> u64 {
    (b[at] as u64) | ((b[at + 1] as u64) << 8u64) | ((b[at + 2] as u64) << 16u64) | ((b[at
        + 3] as u64) << 24u64) | ((b[at + 4] as u64) << 32u64) | ((b[at + 5] as u64) << 40u64) | ((
    b[at + 6] as u64) << 48u64) | ((b[at + 7] as u64) << 56u64)
}

/// Byte `k` (least significant first) of a 64-bit word.
pub open spec fn word_byte(x: u64, k: int) -> u8 {
    ((x >> ((8 * k) as u64)) & 0xff) as u8
}

/// A frame handed out by the allocator.
#[derive(Clone, Copy)]
pub struct FrameTracker {
    pub ppn: PhysPageNum,
}

impl FrameTracker {
    /// The frame number.
    pub fn ppn(&self) -> (r: PhysPageNum)
        ensures
            r == self.ppn,
    {
        self.ppn
    }
}

/// Physical frames `[base, end)`, of which `[base, current)` have been handed
/// out at least once; `recycled` holds those that were given back.
pub struct PhysMemory {
    pub base: usize,
    pub current: usize,
    pub end: usize,
    pub recycled: Vec<usize>,
    /// Contents of the frames `[base, current)`, one page after another.
    pub bytes: Vec<u8>,
}

proof fn lemma_index(p: int, o: int, n: int)
    requires
        0 <= p < n,
        0 <= o < 4096,
    ensures
        0 <= p * 4096 + o < n * 4096,
        p * 4096 <= p * 4096 + o,
{
    assert(p * 4096 + o < n * 4096) by (nonlinear_arith)
        requires
            p < n,
            o < 4096,
    ;
}

proof fn lemma_index_inj(p1: int, o1: int, p2: int, o2: int)
    requires
        0 <= o1 < 4096,
        0 <= o2 < 4096,
        p1 * 4096 + o1 == p2 * 4096 + o2,
    ensures
        p1 == p2,
        o1 == o2,
{
    assert(p1 == p2) by (nonlinear_arith)
        requires
            0 <= o1 < 4096,
            0 <= o2 < 4096,
            p1 * 4096 + o1 == p2 * 4096 + o2,
    ;
}

pub proof fn lemma_le64_bytes(x: u64)
    by (bit_vector)
    ensures
        (((x & 0xff) as u8) as u64) | (((((x >> 8u64) & 0xff) as u8) as u64) << 8u64) | (((((x
            >> 16u64) & 0xff) as u8) as u64) << 16u64) | (((((x >> 24u64) & 0xff) as u8) as u64)
            << 24u64) | (((((x >> 32u64) & 0xff) as u8) as u64) << 32u64) | (((((x >> 40u64)
            & 0xff) as u8) as u64) << 40u64) | (((((x >> 48u64) & 0xff) as u8) as u64) << 48u64)
            | (((((x >> 56u64) & 0xff) as u8) as u64) << 56u64) == x,
{
}

impl PhysMemory {
    /// The pool is consistent: the allocator's counters are ordered, every
    /// handed-out frame has a page of bytes, and recycled frames were handed
    /// out before and are listed once.
    pub open spec fn wf(&self) -> bool {
        &&& self.base <= self.current <= self.end
        &&& self.end <= PPN_LIMIT
        &&& self.bytes@.len() == (self.current - self.base) * 4096
        &&& self.recycled@.no_duplicates()
        &&& forall|i: int|
            0 <= i < self.recycled@.len() ==> self.base <= #[trigger] self.recycled@[i]
                < self.current
    }

    /// Whether frame `p` has ever been handed out (its bytes are stored).
    pub open spec fn in_pool(&self, p: int) -> bool {
        self.base <= p < self.current
    }

    /// Whether frame `p` is currently in use.
    pub open spec fn allocated(&self, p: int) -> bool {
        self.in_pool(p) && !self.recycled@.contains(p as usize)
    }

    /// How many more frames the allocator can hand out.
    pub open spec fn free_frames(&self) -> int {
        self.recycled@.len() + self.end - self.current
    }

    /// Byte `o` of frame `p`; frames outside the pool read as zero.
    pub open spec fn byte(&self, p: int, o: int) -> u8 {
        if self.in_pool(p) && 0 <= o < 4096 {
            self.bytes@[(p - self.base) * 4096 + o]
        } else {
            0
        }
    }

    /// The contents of frame `p`.
    pub open spec fn frame(&self, p: int) -> Seq<u8> {
        Seq::new(4096, |o: int| self.byte(p, o))
    }

    /// Entry `i` of frame `p` read as a page table.
    pub open spec fn pte(&self, p: int, i: int) -> PageTableEntry {
        PageTableEntry { bits: le64(self.frame(p), 8 * i) }
    }

    /// Only the frames in `changed` may differ between `self` and `other`.
    pub open spec fn same_except(&self, other: &PhysMemory, changed: Set<int>) -> bool {
        forall|p: int, o: int| !changed.contains(p) ==> #[trigger] other.byte(p, o) == self.byte(p, o)
    }

    /// A pool of frames `[base, end)`, none handed out yet.
    pub fn new(base: usize, end: usize) -> (r: Self)
        requires
            base <= end <= PPN_LIMIT,
        ensures
            r.wf(),
            r.base == base,
            r.end == end,
            r.current == base,
            r.recycled@.len() == 0,
            forall|p: int| !#[trigger] r.in_pool(p),
    {
        PhysMemory { base, current: base, end, recycled: Vec::new(), bytes: Vec::new() }
    }

    fn index_of(&self, ppn: usize, off: usize) -> (r: usize)
        requires
            self.wf(),
            self.in_pool(ppn as int),
            off < 4096,
        ensures
            r == (ppn - self.base) * 4096 + off,
            r < self.bytes@.len(),
    {
        let n = self.bytes.len();
        proof {
            lemma_index(ppn - self.base, off as int, self.current - self.base);
        }
        (ppn - self.base) * PAGE_SIZE + off
    }

    /// Whether frame `p` is in use: handed out and not recycled since.
    pub fn is_allocated(&self, p: usize) -> (r: bool)
        ensures
            r == self.allocated(p as int),
    {
        if p < self.base || p >= self.current {
            return false;
        }
        let mut k: usize = 0;
        while k < self.recycled.len()
            invariant
                k <= self.recycled@.len(),
                forall|j: int| 0 <= j < k ==> self.recycled@[j] != p,
            decreases self.recycled@.len() - k,
        {
            if self.recycled[k] == p {
                return false;
            }
            k = k + 1;
        }
        true
    }

    /// Byte `off` of frame `ppn` (zero for frames outside the pool).
    pub fn read_byte(&self, ppn: PhysPageNum, off: usize) -> (r: u8)
        requires
            self.wf(),
            off < PAGE_SIZE,
        ensures
            r == self.byte(ppn.0 as int, off as int),
    {
        if self.base <= ppn.0 && ppn.0 < self.current {
            let i = self.index_of(ppn.0, off);
            self.bytes[i]
        } else {
            0
        }
    }

    /// Stores `b` at byte `off` of frame `ppn`, a frame of the pool.
    pub fn write_byte(&mut self, ppn: PhysPageNum, off: usize, b: u8)
        requires
            old(self).wf(),
            old(self).in_pool(ppn.0 as int),
            off < PAGE_SIZE,
        ensures
            final(self).wf(),
            final(self).base == old(self).base,
            final(self).current == old(self).current,
            final(self).end == old(self).end,
            final(self).recycled@ == old(self).recycled@,
            forall|p: int, o: int|
                #[trigger] final(self).byte(p, o) == if p == ppn.0 && o == off {
                    b
                } else {
                    old(self).byte(p, o)
                },
    {
        let i = self.index_of(ppn.0, off);
        self.bytes.set(i, b);
        proof {
            assert forall|p: int, o: int|
                #[trigger] self.byte(p, o) == if p == ppn.0 && o == off {
                    b
                } else {
                    old(self).byte(p, o)
                } by {
                if self.in_pool(p) && 0 <= o < 4096 {
                    lemma_index(p - self.base, o, self.current - self.base);
                    if (p - self.base) * 4096 + o == i {
                        lemma_index_inj(p - self.base, o, ppn.0 - self.base, off as int);
                    }
                }
            }
        }
    }

    /// Entry `i` of frame `ppn` read as a page table.
    pub fn read_pte(&self, ppn: PhysPageNum, i: usize) -> (r: PageTableEntry)
        requires
            self.wf(),
            i < 512,
        ensures
            r == self.pte(ppn.0 as int, i as int),
    {
        let o = 8 * i;
        let b0 = self.read_byte(ppn, o) as u64;
        let b1 = self.read_byte(ppn, o + 1) as u64;
        let b2 = self.read_byte(ppn, o + 2) as u64;
        let b3 = self.read_byte(ppn, o + 3) as u64;
        let b4 = self.read_byte(ppn, o + 4) as u64;
        let b5 = self.read_byte(ppn, o + 5) as u64;
        let b6 = self.read_byte(ppn, o + 6) as u64;
        let b7 = self.read_byte(ppn, o + 7) as u64;
        let bits = b0 | (b1 << 8u64) | (b2 << 16u64) | (b3 << 24u64) | (b4 << 32u64) | (b5
            << 40u64) | (b6 << 48u64) | (b7 << 56u64);
        PageTableEntry { bits }
    }

    /// Stores `e` as entry `i` of frame `ppn`, a frame of the pool.
    pub fn write_pte(&mut self, ppn: PhysPageNum, i: usize, e: PageTableEntry)
        requires
            old(self).wf(),
            old(self).in_pool(ppn.0 as int),
            i < 512,
        ensures
            final(self).wf(),
            final(self).base == old(self).base,
            final(self).current == old(self).current,
            final(self).end == old(self).end,
            final(self).recycled@ == old(self).recycled@,
            old(self).same_except(&*final(self), set![ppn.0 as int]),
            forall|o: int|
                0 <= o < 4096 && !(8 * i <= o < 8 * i + 8) ==> #[trigger] final(self).byte(
                    ppn.0 as int,
                    o,
                ) == old(self).byte(ppn.0 as int, o),
            forall|p: int, j: int|
                0 <= j < 512 ==> #[trigger] final(self).pte(p, j) == if p == ppn.0 && j == i {
                    e
                } else {
                    old(self).pte(p, j)
                },
    {
        let x = e.bits;
        let o = 8 * i;
        let ghost m0 = *self;
        self.write_byte(ppn, o, (x & 0xff) as u8);
        self.write_byte(ppn, o + 1, ((x >> 8u64) & 0xff) as u8);
        self.write_byte(ppn, o + 2, ((x >> 16u64) & 0xff) as u8);
        self.write_byte(ppn, o + 3, ((x >> 24u64) & 0xff) as u8);
        self.write_byte(ppn, o + 4, ((x >> 32u64) & 0xff) as u8);
        self.write_byte(ppn, o + 5, ((x >> 40u64) & 0xff) as u8);
        self.write_byte(ppn, o + 6, ((x >> 48u64) & 0xff) as u8);
        self.write_byte(ppn, o + 7, ((x >> 56u64) & 0xff) as u8);
        proof {
            lemma_le64_bytes(x);
            assert forall|p: int, j: int| 0 <= j < 512 implies #[trigger] self.pte(p, j) == if p
                == ppn.0 && j == i {
                e
            } else {
                m0.pte(p, j)
            } by {
                let f = self.frame(p);
                let g = m0.frame(p);
                if p == ppn.0 && j == i {
                    assert(f[8 * j] == (x & 0xff) as u8);
                    assert(f[8 * j + 1] == ((x >> 8u64) & 0xff) as u8);
                    assert(f[8 * j + 2] == ((x >> 16u64) & 0xff) as u8);
                    assert(f[8 * j + 3] == ((x >> 24u64) & 0xff) as u8);
                    assert(f[8 * j + 4] == ((x >> 32u64) & 0xff) as u8);
                    assert(f[8 * j + 5] == ((x >> 40u64) & 0xff) as u8);
                    assert(f[8 * j + 6] == ((x >> 48u64) & 0xff) as u8);
                    assert(f[8 * j + 7] == ((x >> 56u64) & 0xff) as u8);
                } else {
                    assert(f[8 * j] == g[8 * j]);
                    assert(f[8 * j + 1] == g[8 * j + 1]);
                    assert(f[8 * j + 2] == g[8 * j + 2]);
                    assert(f[8 * j + 3] == g[8 * j + 3]);
                    assert(f[8 * j + 4] == g[8 * j + 4]);
                    assert(f[8 * j + 5] == g[8 * j + 5]);
                    assert(f[8 * j + 6] == g[8 * j + 6]);
                    assert(f[8 * j + 7] == g[8 * j + 7]);
                }
            }
        }
    }
}


impl PhysMemory {
    /// Fills frame `ppn`, a frame of the pool, with zeros.
    pub fn zero_frame(&mut self, ppn: PhysPageNum)
        requires
            old(self).wf(),
            old(self).in_pool(ppn.0 as int),
        ensures
            final(self).wf(),
            final(self).base == old(self).base,
            final(self).current == old(self).current,
            final(self).end == old(self).end,
            final(self).recycled@ == old(self).recycled@,
            old(self).same_except(&*final(self), set![ppn.0 as int]),
            forall|o: int| 0 <= o < 4096 ==> #[trigger] final(self).byte(ppn.0 as int, o) == 0,
    {
        let mut o: usize = 0;
        while o < PAGE_SIZE
            invariant
                o <= PAGE_SIZE,
                self.wf(),
                self.base == old(self).base,
                self.current == old(self).current,
                self.end == old(self).end,
                self.recycled@ == old(self).recycled@,
                old(self).in_pool(ppn.0 as int),
                old(self).same_except(&*self, set![ppn.0 as int]),
                forall|k: int| 0 <= k < o ==> #[trigger] self.byte(ppn.0 as int, k) == 0,
            decreases PAGE_SIZE - o,
        {
            self.write_byte(ppn, o, 0);
            o = o + 1;
        }
    }

    /// Copies `data` to the start of frame `ppn`, a frame of the pool; the
    /// rest of the frame is left as it was.
    pub fn write_bytes(&mut self, ppn: PhysPageNum, data: &[u8])
        requires
            old(self).wf(),
            old(self).in_pool(ppn.0 as int),
            data@.len() <= PAGE_SIZE,
        ensures
            final(self).wf(),
            final(self).base == old(self).base,
            final(self).current == old(self).current,
            final(self).end == old(self).end,
            final(self).recycled@ == old(self).recycled@,
            old(self).same_except(&*final(self), set![ppn.0 as int]),
            forall|o: int|
                0 <= o < 4096 ==> #[trigger] final(self).byte(ppn.0 as int, o) == if o
                    < data@.len() {
                    data@[o]
                } else {
                    old(self).byte(ppn.0 as int, o)
                },
    {
        let mut o: usize = 0;
        while o < data.len()
            invariant
                o <= data@.len() <= PAGE_SIZE,
                self.wf(),
                self.base == old(self).base,
                self.current == old(self).current,
                self.end == old(self).end,
                self.recycled@ == old(self).recycled@,
                old(self).in_pool(ppn.0 as int),
                old(self).same_except(&*self, set![ppn.0 as int]),
                forall|k: int|
                    0 <= k < 4096 ==> #[trigger] self.byte(ppn.0 as int, k) == if k < o {
                        data@[k]
                    } else {
                        old(self).byte(ppn.0 as int, k)
                    },
            decreases data@.len() - o,
        {
            self.write_byte(ppn, o, data[o]);
            o = o + 1;
        }
    }

    /// Whether the allocator can hand out at least `n` more frames.
    pub fn has_free_frames(&self, n: u128) -> (r: bool)
        requires
            self.wf(),
        ensures
            r == (self.free_frames() >= n),
    {
        (self.recycled.len() as u128) + ((self.end - self.current) as u128) >= n
    }

    /// Hands out a zeroed frame: the most recently recycled one if any,
    /// otherwise the next never-used frame; `None` when the pool is
    /// exhausted.
    pub fn frame_alloc(&mut self) -> (r: Option<FrameTracker>)
        requires
            old(self).wf(),
        ensures
            final(self).wf(),
            final(self).base == old(self).base,
            final(self).end == old(self).end,
            final(self).current >= old(self).current,
            r.is_some() <==> old(self).free_frames() > 0,
            r.is_none() ==> *final(self) == *old(self),
            r matches Some(f) ==> {
                &&& f.ppn.0 == if old(self).recycled@.len() > 0 {
                    old(self).recycled@.last()
                } else {
                    old(self).current
                }
                &&& !old(self).allocated(f.ppn.0 as int)
                &&& final(self).allocated(f.ppn.0 as int)
                &&& forall|p: int|
                    p != f.ppn.0 ==> #[trigger] final(self).allocated(p) == old(self).allocated(p)
                &&& forall|p: int| #[trigger] old(self).in_pool(p) ==> final(self).in_pool(p)
                &&& final(self).free_frames() == old(self).free_frames() - 1
                &&& old(self).same_except(&*final(self), set![f.ppn.0 as int])
                &&& forall|o: int| 0 <= o < 4096 ==> #[trigger] final(self).byte(f.ppn.0 as int, o)
                    == 0
            },
    {
        if self.recycled.len() > 0 {
            let p = self.recycled.pop().unwrap();
            proof {
                let old_r = old(self).recycled@;
                assert(old_r =~= self.recycled@.push(p));
                assert forall|q: int| #![trigger self.allocated(q)]
                    q != p implies self.allocated(q) == old(self).allocated(q) by {
                    if self.in_pool(q) {
                        if old_r.contains(q as usize) {
                            let k = choose|k: int| 0 <= k < old_r.len() && old_r[k] == q as usize;
                            assert(k != old_r.len() - 1);
                            assert(self.recycled@[k] == q as usize);
                        }
                        if self.recycled@.contains(q as usize) {
                            let k = choose|k: int|
                                0 <= k < self.recycled@.len() && self.recycled@[k] == q as usize;
                            assert(old_r[k] == q as usize);
                        }
                    }
                }
                assert(!self.recycled@.contains(p)) by {
                    if self.recycled@.contains(p) {
                        let k = choose|k: int|
                            0 <= k < self.recycled@.len() && self.recycled@[k] == p;
                        assert(old_r[k] == old_r[old_r.len() - 1]);
                    }
                }
                assert(old_r[old_r.len() - 1] == p);
                assert(old_r.contains(p));
            }
            self.zero_frame(PhysPageNum(p));
            Some(FrameTracker { ppn: PhysPageNum(p) })
        } else if self.current < self.end {
            let old_len = self.bytes.len();
            let mut k: usize = 0;
            while k < PAGE_SIZE
                invariant
                    k <= PAGE_SIZE,
                    old_len == old(self).bytes@.len(),
                    self.bytes@.len() == old_len + k,
                    self.base == old(self).base,
                    self.current == old(self).current,
                    self.end == old(self).end,
                    self.recycled@ == old(self).recycled@,
                    forall|i: int| 0 <= i < old_len ==> #[trigger] self.bytes@[i] == old(self).bytes@[i],
                    forall|i: int| old_len <= i < old_len + k ==> #[trigger] self.bytes@[i] == 0,
                decreases PAGE_SIZE - k,
            {
                self.bytes.push(0);
                k = k + 1;
            }
            let p = self.current;
            self.current = self.current + 1;
            proof {
                assert(self.bytes@.len() == (self.current - self.base) * 4096) by (nonlinear_arith)
                    requires
                        self.bytes@.len() == old_len + 4096,
                        old_len == (p - self.base) * 4096,
                        self.current == p + 1,
                        self.base <= p,
                ;
                assert forall|q: int, o: int|
                    !set![p as int].contains(q) implies #[trigger] self.byte(q, o) == old(self).byte(q, o) by {
                    if old(self).in_pool(q) && 0 <= o < 4096 {
                        lemma_index(q - self.base, o, old(self).current - self.base);
                    }
                }
                assert forall|o: int| 0 <= o < 4096 implies #[trigger] self.byte(p as int, o) == 0 by {
                    lemma_index(p - self.base, o, self.current - self.base);
                    assert((p - self.base) * 4096 + o >= old_len) by (nonlinear_arith)
                        requires
                            old_len == (p - self.base) * 4096,
                            o >= 0,
                    ;
                }
                assert(!old(self).recycled@.contains(p)) by {
                    if old(self).recycled@.contains(p) {
                        let k = choose|k: int|
                            0 <= k < old(self).recycled@.len() && old(self).recycled@[k] == p;
                    }
                }
            }
            Some(FrameTracker { ppn: PhysPageNum(p) })
        } else {
            None
        }
    }

    /// Gives frame `ppn` back to the allocator; its contents stay as they
    /// are until it is handed out again.
    pub fn frame_dealloc(&mut self, ppn: PhysPageNum)
        requires
            old(self).wf(),
            old(self).allocated(ppn.0 as int),
        ensures
            final(self).wf(),
            final(self).base == old(self).base,
            final(self).current == old(self).current,
            final(self).end == old(self).end,
            final(self).bytes@ == old(self).bytes@,
            final(self).recycled@ == old(self).recycled@.push(ppn.0),
            !final(self).allocated(ppn.0 as int),
            forall|p: int| p != ppn.0 ==> #[trigger] final(self).allocated(p) == old(self).allocated(p),
            final(self).free_frames() == old(self).free_frames() + 1,
    {
        self.recycled.push(ppn.0);
        proof {
            let r = self.recycled@;
            assert(r[r.len() - 1] == ppn.0);
            assert forall|p: int| #![trigger self.allocated(p)]
                p != ppn.0 implies self.allocated(p) == old(self).allocated(p) by {
                if self.in_pool(p) {
                    if r.contains(p as usize) {
                        let k = choose|k: int| 0 <= k < r.len() && r[k] == p as usize;
                        assert(k < r.len() - 1);
                        assert(old(self).recycled@[k] == p as usize);
                    }
                    if old(self).recycled@.contains(p as usize) {
                        let k = choose|k: int|
                            0 <= k < old(self).recycled@.len() && old(self).recycled@[k] == p as usize;
                        assert(r[k] == p as usize);
                    }
                }
            }
        }
    }
}

impl PhysPageNum {
    /// Fills the frame, a frame of the pool, with zeros.
    pub fn clean(&self, mem: &mut PhysMemory)
        requires
            old(mem).wf(),
            old(mem).in_pool(self.0 as int),
        ensures
            final(mem).wf(),
            final(mem).base == old(mem).base,
            final(mem).current == old(mem).current,
            final(mem).end == old(mem).end,
            final(mem).recycled@ == old(mem).recycled@,
            old(mem).same_except(&*final(mem), set![self.0 as int]),
            forall|o: int| 0 <= o < 4096 ==> #[trigger] final(mem).byte(self.0 as int, o) == 0,
    {
        mem.zero_frame(*self);
    }

    /// The bytes of the frame.
    pub fn get_page_bytes(&self, mem: &PhysMemory) -> (r: Vec<u8>)
        requires
            mem.wf(),
        ensures
            r@ == mem.frame(self.0 as int),
    {
        let mut r: Vec<u8> = Vec::new();
        let mut o: usize = 0;
        while o < PAGE_SIZE
            invariant
                mem.wf(),
                o <= PAGE_SIZE,
                r@.len() == o,
                forall|k: int| 0 <= k < o ==> #[trigger] r@[k] == mem.byte(self.0 as int, k),
            decreases PAGE_SIZE - o,
        {
            r.push(mem.read_byte(*self, o));
            o = o + 1;
        }
        proof {
            assert(r@ =~= mem.frame(self.0 as int));
        }
        r
    }

    /// The frame read as the 512 entries of a page table.
    pub fn get_ptes(&self, mem: &PhysMemory) -> (r: Vec<PageTableEntry>)
        requires
            mem.wf(),
        ensures
            r@.len() == 512,
            forall|i: int| 0 <= i < 512 ==> #[trigger] r@[i] == mem.pte(self.0 as int, i),
    {
        let mut r: Vec<PageTableEntry> = Vec::new();
        let mut i: usize = 0;
        while i < 512
            invariant
                mem.wf(),
                i <= 512,
                r@.len() == i,
                forall|k: int| 0 <= k < i ==> #[trigger] r@[k] == mem.pte(self.0 as int, k),
            decreases 512 - i,
        {
            r.push(mem.read_pte(*self, i));
            i = i + 1;
        }
        r
    }
}

} // verus!
