//! The saved state of a task: its registers, the status, address space and
//! entry point it resumes with, and what the trap path needs to get back
//! into the kernel.  In memory it is a run of 64-bit little-endian words,
//! one per field, in declaration order.

use vstd::prelude::*;

use crate::config::{CONTEXT, PAGE_SIZE};
use crate::mm::address::{PhysPageNum, VirtAddr};
use crate::mm::memory::{PhysMemory, le64, word_byte};
use crate::mm::pte::{PPN_MASK, spec_pte};
use crate::mm::set::{MapArea, MapType, holds, keeps_frames, page_frame, pages_hold, pages_mapped, lemma_range_offset, lemma_spec_pte_ppn};
use crate::mm::table::{PageTable, VPN_SPACE, leaf, walk};

verus! {

/// Number of words of a saved context.
pub const CONTEXT_WORDS: usize = 55;

/// The privilege mode that a trap returns to.
#[derive(Clone, Copy, PartialEq, Eq, Structural)]
pub enum SPP {
    Supervisor,
    User,
}

impl SPP {
    /// The value of the `sstatus.SPP` bit for this mode.
    pub open spec fn spec_code(self) -> usize {
        match self {
            SPP::Supervisor => 1,
            SPP::User => 0,
        }
    }

    /// The value of the `sstatus.SPP` bit for this mode.
    pub fn code(&self) -> (r: usize)
        ensures
            r == self.spec_code(),
    {
        match self {
            SPP::Supervisor => 1,
            SPP::User => 0,
        }
    }
}

/// Callee-saved registers kept while a task is inside a call into the kernel.
#[derive(Clone, Copy, PartialEq, Eq, Structural)]
pub struct CallContext {
    pub zero: usize,
    pub ra: usize,
    pub s0: usize,
    pub s1: usize,
    pub s2: usize,
    pub s3: usize,
    pub s4: usize,
    pub s5: usize,
    pub s6: usize,
    pub s7: usize,
    pub s8: usize,
    pub s9: usize,
    pub s10: usize,
    pub s11: usize,
    pub sp: usize,
}

impl CallContext {
    /// The saved registers with every one zero.
    pub open spec fn spec_zeroed() -> CallContext {
        CallContext { zero: 0, ra: 0, s0: 0, s1: 0, s2: 0, s3: 0, s4: 0, s5: 0, s6: 0, s7: 0, s8: 0, s9: 0, s10: 0, s11: 0, sp: 0 }
    }
}

impl Default for CallContext {
    fn default() -> (r: Self)
        ensures
            r == CallContext::spec_zeroed(),
    {
        CallContext { zero: 0, ra: 0, s0: 0, s1: 0, s2: 0, s3: 0, s4: 0, s5: 0, s6: 0, s7: 0, s8: 0, s9: 0, s10: 0, s11: 0, sp: 0 }
    }
}

/// The saved state of a task.
#[derive(Clone, Copy, PartialEq, Eq, Structural)]
pub struct Context {
    pub zero: usize,
    pub ra: usize,
    pub sp: usize,
    pub gp: usize,
    pub tp: usize,
    pub t0: usize,
    pub t1: usize,
    pub t2: usize,
    pub s0: usize,
    pub s1: usize,
    pub a0: usize,
    pub a1: usize,
    pub a2: usize,
    pub a3: usize,
    pub a4: usize,
    pub a5: usize,
    pub a6: usize,
    pub a7: usize,
    pub s2: usize,
    pub s3: usize,
    pub s4: usize,
    pub s5: usize,
    pub s6: usize,
    pub s7: usize,
    pub s8: usize,
    pub s9: usize,
    pub s10: usize,
    pub s11: usize,
    pub t3: usize,
    pub t4: usize,
    pub t5: usize,
    pub t6: usize,
    pub sstatus: usize,
    pub sepc: usize,
    pub satp: usize,
    pub kernel_satp: usize,
    pub kernel_sp: usize,
    pub trap_handler: usize,
    pub spp: usize,
    pub is_in_call_process: usize,
    pub call_context: CallContext,
}

impl Context {
    /// Word `i` of the context as it is laid out in memory.
    pub open spec fn spec_word(&self, i: int) -> usize {
        if i == 0 {
            self.zero
        } else if i == 1 {
            self.ra
        } else if i == 2 {
            self.sp
        } else if i == 3 {
            self.gp
        } else if i == 4 {
            self.tp
        } else if i == 5 {
            self.t0
        } else if i == 6 {
            self.t1
        } else if i == 7 {
            self.t2
        } else if i == 8 {
            self.s0
        } else if i == 9 {
            self.s1
        } else if i == 10 {
            self.a0
        } else if i == 11 {
            self.a1
        } else if i == 12 {
            self.a2
        } else if i == 13 {
            self.a3
        } else if i == 14 {
            self.a4
        } else if i == 15 {
            self.a5
        } else if i == 16 {
            self.a6
        } else if i == 17 {
            self.a7
        } else if i == 18 {
            self.s2
        } else if i == 19 {
            self.s3
        } else if i == 20 {
            self.s4
        } else if i == 21 {
            self.s5
        } else if i == 22 {
            self.s6
        } else if i == 23 {
            self.s7
        } else if i == 24 {
            self.s8
        } else if i == 25 {
            self.s9
        } else if i == 26 {
            self.s10
        } else if i == 27 {
            self.s11
        } else if i == 28 {
            self.t3
        } else if i == 29 {
            self.t4
        } else if i == 30 {
            self.t5
        } else if i == 31 {
            self.t6
        } else if i == 32 {
            self.sstatus
        } else if i == 33 {
            self.sepc
        } else if i == 34 {
            self.satp
        } else if i == 35 {
            self.kernel_satp
        } else if i == 36 {
            self.kernel_sp
        } else if i == 37 {
            self.trap_handler
        } else if i == 38 {
            self.spp
        } else if i == 39 {
            self.is_in_call_process
        } else if i == 40 {
            self.call_context.zero
        } else if i == 41 {
            self.call_context.ra
        } else if i == 42 {
            self.call_context.s0
        } else if i == 43 {
            self.call_context.s1
        } else if i == 44 {
            self.call_context.s2
        } else if i == 45 {
            self.call_context.s3
        } else if i == 46 {
            self.call_context.s4
        } else if i == 47 {
            self.call_context.s5
        } else if i == 48 {
            self.call_context.s6
        } else if i == 49 {
            self.call_context.s7
        } else if i == 50 {
            self.call_context.s8
        } else if i == 51 {
            self.call_context.s9
        } else if i == 52 {
            self.call_context.s10
        } else if i == 53 {
            self.call_context.s11
        } else {
            self.call_context.sp
        }
    }

    /// The context whose words are `ws`.
    pub open spec fn from_word_seq(ws: Seq<usize>) -> Context {
        Context {
            zero: ws[0],
            ra: ws[1],
            sp: ws[2],
            gp: ws[3],
            tp: ws[4],
            t0: ws[5],
            t1: ws[6],
            t2: ws[7],
            s0: ws[8],
            s1: ws[9],
            a0: ws[10],
            a1: ws[11],
            a2: ws[12],
            a3: ws[13],
            a4: ws[14],
            a5: ws[15],
            a6: ws[16],
            a7: ws[17],
            s2: ws[18],
            s3: ws[19],
            s4: ws[20],
            s5: ws[21],
            s6: ws[22],
            s7: ws[23],
            s8: ws[24],
            s9: ws[25],
            s10: ws[26],
            s11: ws[27],
            t3: ws[28],
            t4: ws[29],
            t5: ws[30],
            t6: ws[31],
            sstatus: ws[32],
            sepc: ws[33],
            satp: ws[34],
            kernel_satp: ws[35],
            kernel_sp: ws[36],
            trap_handler: ws[37],
            spp: ws[38],
            is_in_call_process: ws[39],
            call_context: CallContext {
                zero: ws[40],
                ra: ws[41],
                s0: ws[42],
                s1: ws[43],
                s2: ws[44],
                s3: ws[45],
                s4: ws[46],
                s5: ws[47],
                s6: ws[48],
                s7: ws[49],
                s8: ws[50],
                s9: ws[51],
                s10: ws[52],
                s11: ws[53],
                sp: ws[54],
            },
        }
    }

    /// Word `i` of the context as it is laid out in memory.
    pub fn word(&self, i: usize) -> (r: usize)
        requires
            i < CONTEXT_WORDS,
        ensures
            r == self.spec_word(i as int),
    {
        if i == 0 {
            self.zero
        } else if i == 1 {
            self.ra
        } else if i == 2 {
            self.sp
        } else if i == 3 {
            self.gp
        } else if i == 4 {
            self.tp
        } else if i == 5 {
            self.t0
        } else if i == 6 {
            self.t1
        } else if i == 7 {
            self.t2
        } else if i == 8 {
            self.s0
        } else if i == 9 {
            self.s1
        } else if i == 10 {
            self.a0
        } else if i == 11 {
            self.a1
        } else if i == 12 {
            self.a2
        } else if i == 13 {
            self.a3
        } else if i == 14 {
            self.a4
        } else if i == 15 {
            self.a5
        } else if i == 16 {
            self.a6
        } else if i == 17 {
            self.a7
        } else if i == 18 {
            self.s2
        } else if i == 19 {
            self.s3
        } else if i == 20 {
            self.s4
        } else if i == 21 {
            self.s5
        } else if i == 22 {
            self.s6
        } else if i == 23 {
            self.s7
        } else if i == 24 {
            self.s8
        } else if i == 25 {
            self.s9
        } else if i == 26 {
            self.s10
        } else if i == 27 {
            self.s11
        } else if i == 28 {
            self.t3
        } else if i == 29 {
            self.t4
        } else if i == 30 {
            self.t5
        } else if i == 31 {
            self.t6
        } else if i == 32 {
            self.sstatus
        } else if i == 33 {
            self.sepc
        } else if i == 34 {
            self.satp
        } else if i == 35 {
            self.kernel_satp
        } else if i == 36 {
            self.kernel_sp
        } else if i == 37 {
            self.trap_handler
        } else if i == 38 {
            self.spp
        } else if i == 39 {
            self.is_in_call_process
        } else if i == 40 {
            self.call_context.zero
        } else if i == 41 {
            self.call_context.ra
        } else if i == 42 {
            self.call_context.s0
        } else if i == 43 {
            self.call_context.s1
        } else if i == 44 {
            self.call_context.s2
        } else if i == 45 {
            self.call_context.s3
        } else if i == 46 {
            self.call_context.s4
        } else if i == 47 {
            self.call_context.s5
        } else if i == 48 {
            self.call_context.s6
        } else if i == 49 {
            self.call_context.s7
        } else if i == 50 {
            self.call_context.s8
        } else if i == 51 {
            self.call_context.s9
        } else if i == 52 {
            self.call_context.s10
        } else if i == 53 {
            self.call_context.s11
        } else {
            self.call_context.sp
        }
    }

    /// The context whose words are the first `CONTEXT_WORDS` of `ws`.
    pub fn from_words(ws: &[usize]) -> (r: Context)
        requires
            ws@.len() >= CONTEXT_WORDS,
        ensures
            r == Context::from_word_seq(ws@),
    {
        Context {
            zero: ws[0],
            ra: ws[1],
            sp: ws[2],
            gp: ws[3],
            tp: ws[4],
            t0: ws[5],
            t1: ws[6],
            t2: ws[7],
            s0: ws[8],
            s1: ws[9],
            a0: ws[10],
            a1: ws[11],
            a2: ws[12],
            a3: ws[13],
            a4: ws[14],
            a5: ws[15],
            a6: ws[16],
            a7: ws[17],
            s2: ws[18],
            s3: ws[19],
            s4: ws[20],
            s5: ws[21],
            s6: ws[22],
            s7: ws[23],
            s8: ws[24],
            s9: ws[25],
            s10: ws[26],
            s11: ws[27],
            t3: ws[28],
            t4: ws[29],
            t5: ws[30],
            t6: ws[31],
            sstatus: ws[32],
            sepc: ws[33],
            satp: ws[34],
            kernel_satp: ws[35],
            kernel_sp: ws[36],
            trap_handler: ws[37],
            spp: ws[38],
            is_in_call_process: ws[39],
            call_context: CallContext {
                zero: ws[40],
                ra: ws[41],
                s0: ws[42],
                s1: ws[43],
                s2: ws[44],
                s3: ws[45],
                s4: ws[46],
                s5: ws[47],
                s6: ws[48],
                s7: ws[49],
                s8: ws[50],
                s9: ws[51],
                s10: ws[52],
                s11: ws[53],
                sp: ws[54],
            },
        }
    }

    /// A fresh context that starts at `entry` in mode `mode` with stack
    /// pointer `sp` in the address space `satp`; every other register is
    /// zero and the task is in no call.
    pub fn init_context(
        mode: SPP,
        entry: usize,
        satp: usize,
        sp: usize,
        kernel_satp: usize,
        kernel_sp: usize,
        trap_handler: usize,
    ) -> (r: Context)
        ensures
            r == Context::spec_init(mode, entry, satp, sp, kernel_satp, kernel_sp, trap_handler),
            r.is_in_call_process == 0,
            r.sp == sp && r.sepc == entry && r.satp == satp && r.kernel_satp == kernel_satp,
            r.kernel_sp == kernel_sp && r.trap_handler == trap_handler,
            r.sstatus == (if mode == SPP::Supervisor { 0x100usize } else { 0usize }),
            r.spp == (if mode == SPP::Supervisor { 1usize } else { 0usize }),
            forall|i: int| 0 <= i < 32 && i != 2 ==> #[trigger] r.spec_word(i) == 0,
            forall|i: int| 40 <= i < 55 ==> #[trigger] r.spec_word(i) == 0,
    {
        proof {
            law_fresh_context(mode, entry, satp, sp, kernel_satp, kernel_sp, trap_handler);
        }
        let sstatus: usize = match mode {
            SPP::Supervisor => 0x100,
            SPP::User => 0,
        };
        Context {
            zero: 0, ra: 0, sp, gp: 0, tp: 0, t0: 0, t1: 0, t2: 0, s0: 0, s1: 0,
            a0: 0, a1: 0, a2: 0, a3: 0, a4: 0, a5: 0, a6: 0, a7: 0,
            s2: 0, s3: 0, s4: 0, s5: 0, s6: 0, s7: 0, s8: 0, s9: 0, s10: 0, s11: 0,
            t3: 0, t4: 0, t5: 0, t6: 0,
            sstatus,
            sepc: entry,
            satp,
            kernel_satp,
            kernel_sp,
            trap_handler,
            spp: mode.code(),
            is_in_call_process: 0,
            call_context: CallContext::default(),
        }
    }

    /// The context that `init_context` builds: `sstatus` has only the SPP
    /// bit (bit 8) set, and only for a return to supervisor mode.
    pub open spec fn spec_init(
        mode: SPP,
        entry: usize,
        satp: usize,
        sp: usize,
        kernel_satp: usize,
        kernel_sp: usize,
        trap_handler: usize,
    ) -> Context {
        Context {
            zero: 0, ra: 0, sp, gp: 0, tp: 0, t0: 0, t1: 0, t2: 0, s0: 0, s1: 0,
            a0: 0, a1: 0, a2: 0, a3: 0, a4: 0, a5: 0, a6: 0, a7: 0,
            s2: 0, s3: 0, s4: 0, s5: 0, s6: 0, s7: 0, s8: 0, s9: 0, s10: 0, s11: 0,
            t3: 0, t4: 0, t5: 0, t6: 0,
            sstatus: if mode == SPP::Supervisor { 256 } else { 0 },
            sepc: entry,
            satp,
            kernel_satp,
            kernel_sp,
            trap_handler,
            spp: mode.spec_code(),
            is_in_call_process: 0,
            call_context: CallContext::spec_zeroed(),
        }
    }

    /// The bytes of the context as it is laid out in memory.
    pub fn to_bytes(&self) -> (r: Vec<u8>)
        ensures
            r@ == context_bytes(*self),
    {
        let mut r: Vec<u8> = Vec::new();
        let mut i: usize = 0;
        while i < CONTEXT_WORDS
            invariant
                i <= CONTEXT_WORDS,
                r@.len() == 8 * i,
                forall|j: int| 0 <= j < 8 * i ==> #[trigger] r@[j] == context_bytes(*self)[j],
            decreases CONTEXT_WORDS - i,
        {
            let w: u64 = self.word(i) as u64;
            let mut k: u64 = 0;
            while k < 8
                invariant
                    i < CONTEXT_WORDS,
                    k <= 8,
                    w == self.spec_word(i as int) as u64,
                    r@.len() == 8 * i + k,
                    forall|j: int| 0 <= j < 8 * i + k ==> #[trigger] r@[j] == context_bytes(*self)[j],
                decreases 8 - k,
            {
                let b = ((w >> (8 * k)) & 0xff) as u8;
                proof {
                    let j = 8 * i + k;
                    assert(j / 8 == i as int && j % 8 == k as int);
                    assert(context_bytes(*self)[j] == word_byte(self.spec_word(i as int) as u64, k as int));
                }
                r.push(b);
                k = k + 1;
            }
            i = i + 1;
        }
        proof {
            assert(r@ =~= context_bytes(*self));
        }
        r
    }
}

/// The bytes of a context as it is laid out in memory.
pub open spec fn context_bytes(cx: Context) -> Seq<u8> {
    Seq::new((8 * CONTEXT_WORDS) as nat, |j: int| word_byte(cx.spec_word(j / 8) as u64, j % 8))
}

/// The words read from the bytes `b`.
pub open spec fn words_of(b: Seq<u8>) -> Seq<usize> {
    Seq::new(CONTEXT_WORDS as nat, |i: int| le64(b, 8 * i) as usize)
}

/// The frame that holds the context page of the address space with root
/// frame `root`.
pub open spec fn context_frame(mem: PhysMemory, root: int) -> int {
    (walk(mem, root, (CONTEXT / PAGE_SIZE) as int).unwrap().spec_ppn() as usize) as int
}

/// The context saved in the address space with root frame `root`.
pub open spec fn context_at(mem: PhysMemory, root: int) -> Context {
    Context::from_word_seq(words_of(mem.frame(context_frame(mem, root))))
}

/// The context saved in the address space that `satp` selects: the words of
/// the frame that its context page is mapped to.
pub fn get_context(mem: &PhysMemory, satp: u64) -> (r: Context)
    requires
        mem.wf(),
        walk(*mem, (satp & PPN_MASK) as usize as int, (CONTEXT / PAGE_SIZE) as int).is_some(),
    ensures
        r == context_at(*mem, (satp & PPN_MASK) as usize as int),
{
    let pt = PageTable::from_satp(satp);
    let pte = pt.translate(mem, VirtAddr(CONTEXT).floor()).unwrap();
    let ppn = pte.ppn();
    let ghost fr = mem.frame(ppn.0 as int);
    let mut ws: Vec<usize> = Vec::new();
    let mut i: usize = 0;
    while i < CONTEXT_WORDS
        invariant
            mem.wf(),
            i <= CONTEXT_WORDS,
            fr == mem.frame(ppn.0 as int),
            ws@.len() == i,
            forall|j: int| 0 <= j < i ==> #[trigger] ws@[j] == words_of(fr)[j],
        decreases CONTEXT_WORDS - i,
    {
        let w = mem.read_pte(ppn, i).bits;
        ws.push(w as usize);
        i = i + 1;
    }
    proof {
        assert(ws@ =~= words_of(fr));
    }
    Context::from_words(&ws)
}

proof fn lemma_word_bytes(x: u64)
    ensures
        word_byte(x, 0) == (x & 0xff) as u8,
        word_byte(x, 1) == ((x >> 8u64) & 0xff) as u8,
        word_byte(x, 2) == ((x >> 16u64) & 0xff) as u8,
        word_byte(x, 3) == ((x >> 24u64) & 0xff) as u8,
        word_byte(x, 4) == ((x >> 32u64) & 0xff) as u8,
        word_byte(x, 5) == ((x >> 40u64) & 0xff) as u8,
        word_byte(x, 6) == ((x >> 48u64) & 0xff) as u8,
        word_byte(x, 7) == ((x >> 56u64) & 0xff) as u8,
{
    assert(x >> 0u64 == x) by (bit_vector);
}

/// The bytes of a context, read back as words, give the context again.
pub proof fn law_context_bytes_round_trip(cx: Context)
    ensures
        Context::from_word_seq(words_of(context_bytes(cx))) == cx,
{
    let b = context_bytes(cx);
    assert forall|i: int| 0 <= i < CONTEXT_WORDS implies #[trigger] words_of(b)[i] == cx.spec_word(i) by {
        let x = cx.spec_word(i) as u64;
        crate::mm::memory::lemma_le64_bytes(x);
        lemma_word_bytes(x);
        assert forall|k: int| 0 <= k < 8 implies #[trigger] b[8 * i + k] == word_byte(x, k) by {
            assert((8 * i + k) / 8 == i && (8 * i + k) % 8 == k);
        }
        assert(le64(b, 8 * i) == x);
    }
    let ws = words_of(b);
    assert(ws[0] == cx.spec_word(0));
    assert(ws[1] == cx.spec_word(1));
    assert(ws[2] == cx.spec_word(2));
    assert(ws[3] == cx.spec_word(3));
    assert(ws[4] == cx.spec_word(4));
    assert(ws[5] == cx.spec_word(5));
    assert(ws[6] == cx.spec_word(6));
    assert(ws[7] == cx.spec_word(7));
    assert(ws[8] == cx.spec_word(8));
    assert(ws[9] == cx.spec_word(9));
    assert(ws[10] == cx.spec_word(10));
    assert(ws[11] == cx.spec_word(11));
    assert(ws[12] == cx.spec_word(12));
    assert(ws[13] == cx.spec_word(13));
    assert(ws[14] == cx.spec_word(14));
    assert(ws[15] == cx.spec_word(15));
    assert(ws[16] == cx.spec_word(16));
    assert(ws[17] == cx.spec_word(17));
    assert(ws[18] == cx.spec_word(18));
    assert(ws[19] == cx.spec_word(19));
    assert(ws[20] == cx.spec_word(20));
    assert(ws[21] == cx.spec_word(21));
    assert(ws[22] == cx.spec_word(22));
    assert(ws[23] == cx.spec_word(23));
    assert(ws[24] == cx.spec_word(24));
    assert(ws[25] == cx.spec_word(25));
    assert(ws[26] == cx.spec_word(26));
    assert(ws[27] == cx.spec_word(27));
    assert(ws[28] == cx.spec_word(28));
    assert(ws[29] == cx.spec_word(29));
    assert(ws[30] == cx.spec_word(30));
    assert(ws[31] == cx.spec_word(31));
    assert(ws[32] == cx.spec_word(32));
    assert(ws[33] == cx.spec_word(33));
    assert(ws[34] == cx.spec_word(34));
    assert(ws[35] == cx.spec_word(35));
    assert(ws[36] == cx.spec_word(36));
    assert(ws[37] == cx.spec_word(37));
    assert(ws[38] == cx.spec_word(38));
    assert(ws[39] == cx.spec_word(39));
    assert(ws[40] == cx.spec_word(40));
    assert(ws[41] == cx.spec_word(41));
    assert(ws[42] == cx.spec_word(42));
    assert(ws[43] == cx.spec_word(43));
    assert(ws[44] == cx.spec_word(44));
    assert(ws[45] == cx.spec_word(45));
    assert(ws[46] == cx.spec_word(46));
    assert(ws[47] == cx.spec_word(47));
    assert(ws[48] == cx.spec_word(48));
    assert(ws[49] == cx.spec_word(49));
    assert(ws[50] == cx.spec_word(50));
    assert(ws[51] == cx.spec_word(51));
    assert(ws[52] == cx.spec_word(52));
    assert(ws[53] == cx.spec_word(53));
    assert(ws[54] == cx.spec_word(54));
}

/// Frames that hold the same first bytes as `b` give the same words.
proof fn lemma_words_of_prefix(fr: Seq<u8>, b: Seq<u8>)
    requires
        fr.len() >= 8 * CONTEXT_WORDS,
        b.len() >= 8 * CONTEXT_WORDS,
        forall|j: int| 0 <= j < 8 * CONTEXT_WORDS ==> #[trigger] fr[j] == b[j],
    ensures
        words_of(fr) == words_of(b),
{
    assert forall|i: int| 0 <= i < CONTEXT_WORDS implies #[trigger] words_of(fr)[i] == words_of(b)[i] by {
        assert(fr[8 * i] == b[8 * i]);
        assert(fr[8 * i + 1] == b[8 * i + 1]);
        assert(fr[8 * i + 2] == b[8 * i + 2]);
        assert(fr[8 * i + 3] == b[8 * i + 3]);
        assert(fr[8 * i + 4] == b[8 * i + 4]);
        assert(fr[8 * i + 5] == b[8 * i + 5]);
        assert(fr[8 * i + 6] == b[8 * i + 6]);
        assert(fr[8 * i + 7] == b[8 * i + 7]);
    }
    assert(words_of(fr) =~= words_of(b));
}

/// Saves `cx` as the context of the address space with table `table`: its
/// bytes go to the start of the frame that the context page is mapped to,
/// which must be a frame of the pool and no node of the table.  Reading the
/// context back then gives `cx`.
pub fn set_context(mem: &mut PhysMemory, table: &PageTable, cx: &Context)
    requires
        table.wf(&*old(mem)),
        leaf(*old(mem), table.root.0 as int, (CONTEXT / PAGE_SIZE) as int).is_some(),
        old(mem).in_pool(context_frame(*old(mem), table.root.0 as int)),
        !table.is_node(context_frame(*old(mem), table.root.0 as int)),
    ensures
        final(mem).wf(),
        final(mem).base == old(mem).base,
        final(mem).current == old(mem).current,
        final(mem).end == old(mem).end,
        final(mem).recycled@ == old(mem).recycled@,
        table.wf(&*final(mem)),
        old(mem).same_except(&*final(mem), set![context_frame(*old(mem), table.root.0 as int)]),
        forall|v: int| v >= 0 ==> #[trigger] leaf(*final(mem), table.root.0 as int, v) == leaf(*old(mem), table.root.0 as int, v),
        context_at(*final(mem), table.root.0 as int) == *cx,
{
    let ghost root = table.root.0 as int;
    let ghost kc = (CONTEXT / PAGE_SIZE) as int;
    let ghost m0 = *mem;
    let ghost f = context_frame(m0, root);
    proof {
        assert(walk(m0, root, kc) == leaf(m0, root, kc));
    }
    let pte = table.translate(mem, VirtAddr(CONTEXT).floor()).unwrap();
    let ppn = pte.ppn();
    let bytes = cx.to_bytes();
    mem.write_bytes(ppn, bytes.as_slice());
    proof {
        assert(ppn.0 == f);
        assert forall|p: int, o: int| table.is_node(p) implies #[trigger] mem.byte(p, o) == m0.byte(p, o) by {
            assert(p != f);
        }
        assert forall|p: int| #[trigger] table.is_node(p) implies mem.allocated(p) by {
            crate::mm::table::lemma_nodes_allocated(*table, m0, p);
        }
        crate::mm::table::lemma_nodes_untouched(*table, m0, *mem);
        assert(leaf(*mem, root, kc) == leaf(m0, root, kc));
        assert(walk(*mem, root, kc) == leaf(*mem, root, kc));
        assert(context_frame(*mem, root) == f);
        let fr = mem.frame(f);
        let b = context_bytes(*cx);
        assert forall|j: int| 0 <= j < 8 * CONTEXT_WORDS implies #[trigger] fr[j] == b[j] by {
            assert(mem.byte(f, j) == bytes@[j]);
        }
        lemma_words_of_prefix(fr, b);
        law_context_bytes_round_trip(*cx);
    }
}

/// The context that the first words of the frame that page `v` maps to
/// spell, in table `t` of memory `m`.
pub closed spec fn context_in_page(m: PhysMemory, t: PageTable, v: int) -> Context {
    Context::from_word_seq(words_of(m.frame(page_frame(m, t, v))))
}

/// The first page of an `Alloc` area just placed with the bytes of a
/// context as its data holds that context.
pub proof fn lemma_placed_page_holds_context(
    area: MapArea,
    t0: PageTable,
    m0: PhysMemory,
    t: PageTable,
    m: PhysMemory,
    cx: Context,
)
    requires
        area.mtype == MapType::Alloc,
        area.range.start.0 < area.range.end.0,
        area.pages() <= VPN_SPACE,
        area.placed(t0, m0, t, m, context_bytes(cx)),
    ensures
        leaf(m, t.root.0 as int, area.range.start.0 as int) == Some(
            spec_pte(page_frame(m, t, area.range.start.0 as int), (area.permission.bits | 1) as u8),
        ),
        context_in_page(m, t, area.range.start.0 as int) == cx,
{
    let s = area.range.start.0 as int;
    let end = area.range.end.0 as int;
    let al = area.allocated@;
    let root = t.root.0 as int;
    let b = context_bytes(cx);
    lemma_range_offset(s, s, s);
    assert(pages_hold(t, m, al, s, end, b));
    assert(al.contains_key(s as usize));
    let f = al[s as usize].ppn.0 as int;
    assert(m.allocated(f));
    assert(pages_mapped(t0, m0, t, m, al, s, end, area.permission.bits));
    assert(leaf(m, root, s) == Some(spec_pte(f, (area.permission.bits | 1) as u8)));
    lemma_spec_pte_ppn(f, (area.permission.bits | 1) as u8);
    assert(page_frame(m, t, s) == f);
    assert(holds(m, f, b, (s - s) * 4096));
    let fr = m.frame(f);
    assert forall|j: int| 0 <= j < 8 * CONTEXT_WORDS implies #[trigger] fr[j] == b[j] by {
        assert(m.byte(f, 0 + j) == b[0 + j]);
    }
    assert forall|i: int| 0 <= i < CONTEXT_WORDS implies #[trigger] words_of(fr)[i] == words_of(b)[i] by {
        assert(fr[8 * i] == b[8 * i]);
        assert(fr[8 * i + 1] == b[8 * i + 1]);
        assert(fr[8 * i + 2] == b[8 * i + 2]);
        assert(fr[8 * i + 3] == b[8 * i + 3]);
        assert(fr[8 * i + 4] == b[8 * i + 4]);
        assert(fr[8 * i + 5] == b[8 * i + 5]);
        assert(fr[8 * i + 6] == b[8 * i + 6]);
        assert(fr[8 * i + 7] == b[8 * i + 7]);
    }
    assert(words_of(fr) =~= words_of(b));
    law_context_bytes_round_trip(cx);
}

/// A page that holds a context keeps holding it when the frames in use
/// are kept and the page keeps its mapping.
pub proof fn lemma_context_page_kept(
    t0: PageTable,
    m0: PhysMemory,
    t1: PageTable,
    m1: PhysMemory,
    v: int,
    cx: Context,
)
    requires
        context_in_page(m0, t0, v) == cx,
        keeps_frames(t0, m0, t1, m1),
        m0.allocated(page_frame(m0, t0, v)),
        !t0.is_node(page_frame(m0, t0, v)),
        t1.root == t0.root,
        leaf(m1, t1.root.0 as int, v) == leaf(m0, t0.root.0 as int, v),
    ensures
        context_in_page(m1, t1, v) == cx,
{
    let f = page_frame(m0, t0, v);
    assert(page_frame(m1, t1, v) == f);
    assert(m1.frame(f) == m0.frame(f));
}

/// Pushing into an address space an `Alloc` area that starts at the context
/// page, with the bytes of a context as its data, leaves exactly that
/// context to be read back from the space.
pub proof fn law_pushed_context_reads_back(
    area: MapArea,
    t0: PageTable,
    m0: PhysMemory,
    t: PageTable,
    m: PhysMemory,
    cx: Context,
)
    requires
        area.mtype == MapType::Alloc,
        area.range.start.0 == CONTEXT / PAGE_SIZE,
        area.range.start.0 < area.range.end.0,
        area.pages() <= VPN_SPACE,
        area.placed(t0, m0, t, m, context_bytes(cx)),
    ensures
        context_at(m, t.root.0 as int) == cx,
{
    let s = area.range.start.0 as int;
    let root = t.root.0 as int;
    lemma_placed_page_holds_context(area, t0, m0, t, m, cx);
    let f = page_frame(m, t, s);
    assert(context_frame(m, root) == f) by {
        assert(walk(m, root, s) == leaf(m, root, s));
    }
    assert(context_at(m, root) == context_in_page(m, t, s));
}

/// A fresh context enters a task at `entry` with nothing else in its
/// registers: every general register but the stack pointer is zero and the
/// stack pointer is `sp`; no call is in progress and the saved call context
/// is all zeros; `sstatus` has only the SPP bit (`0x100`) set, and only for
/// a return to supervisor mode; `spp` is 1 for supervisor mode and 0 for
/// user mode; `satp`, `kernel_satp`, `kernel_sp` and `trap_handler` are the
/// values given.
pub proof fn law_fresh_context(
    mode: SPP,
    entry: usize,
    satp: usize,
    sp: usize,
    kernel_satp: usize,
    kernel_sp: usize,
    trap_handler: usize,
)
    ensures
        ({
            let c = Context::spec_init(mode, entry, satp, sp, kernel_satp, kernel_sp, trap_handler);
            &&& c.is_in_call_process == 0
            &&& c.sp == sp && c.sepc == entry && c.satp == satp && c.kernel_satp == kernel_satp
            &&& c.kernel_sp == kernel_sp && c.trap_handler == trap_handler
            &&& c.sstatus == (if mode == SPP::Supervisor { 0x100usize } else { 0usize })
            &&& c.spp == (if mode == SPP::Supervisor { 1usize } else { 0usize })
            &&& forall|i: int| 0 <= i < 32 && i != 2 ==> #[trigger] c.spec_word(i) == 0
            &&& forall|i: int| 40 <= i < 55 ==> #[trigger] c.spec_word(i) == 0
        }),
{
}

} // verus!
