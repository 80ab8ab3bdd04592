//! Building the address space of a user program from its ELF file: a
//! trampoline shared with the kernel, the program's loadable segments, a
//! stack above them, and the pages of its saved context.

use vstd::prelude::*;

use crate::config::{CONTEXT, PAGE_SIZE, USER_STACK_SIZE};
use crate::context::{Context, SPP, context_at, context_in_page};
use super::address::{VirtAddr, VirtPageNum, ceil_pages};
use super::elf::{ElfInfo, Segment, elf_header, elf_open, elf_open_safe, elf_program_header, elf_segment, segment_safe, word_buffer};
use super::memory::PhysMemory;
use super::pte::spec_pte;
use super::set::{MapArea, MapPermission, MapType, MemorySet, changed_only, frames_upto, holds, keeps_frames, lemma_changed_keeps, page_frame, pages_hold, pages_mapped, range_offset, lemma_range_offset, lemma_spec_pte_ppn};
use super::table::{PageTable, VPN_SPACE, leaf, vpn_key};

verus! {

/// What the kernel supplies to every user address space: the bounds of
/// the trampoline code that traps pass through, the kernel's `satp`, and
/// the address of the trap handler.
#[derive(Clone, Copy)]
pub struct UserEnv {
    pub sasm: usize,
    pub easm: usize,
    pub kernel_satp: usize,
    pub trap_handler: usize,
}

/// First page of a segment.
pub open spec fn seg_start(s: Segment) -> int {
    (s.virtual_addr / 4096) as int
}

/// The page just past a segment.
pub open spec fn seg_end(s: Segment) -> int {
    ceil_pages(s.virtual_addr + s.mem_size)
}

/// The bytes of the file that a segment loads.
pub open spec fn seg_bytes(data: Seq<u8>, s: Segment) -> Seq<u8> {
    data.subrange(s.offset as int, s.offset + s.file_size)
}

/// The rights of a segment's pages: user-accessible, and readable,
/// writable and executable as its flags (4, 2 and 1) say.
pub open spec fn seg_perm(flags: u32) -> u8 {
    (16u8 | (if flags & 4 == 4 { 2u8 } else { 0u8 }) | (if flags & 2 == 2 { 4u8 } else { 0u8 }) | (
    if flags & 1 == 1 { 8u8 } else { 0u8 })) as u8
}

/// A loadable segment's pages get their rights bit by bit from the ELF
/// flags: readable (PTE bit 1) exactly when the segment is readable (flag
/// bit 2, `PF_R`), writable (PTE bit 2) exactly when it is writable (flag
/// bit 1, `PF_W`), executable (PTE bit 3) exactly when it is executable
/// (flag bit 0, `PF_X`); always user-accessible (PTE bit 4), and with no
/// other bit set.  The entry mapping such a page adds the valid bit.
pub proof fn law_segment_rights(flags: u32)
    ensures
        (seg_perm(flags) & 2 == 2) == (flags & 4 == 4),
        (seg_perm(flags) & 4 == 4) == (flags & 2 == 2),
        (seg_perm(flags) & 8 == 8) == (flags & 1 == 1),
        seg_perm(flags) & 16 == 16,
        seg_perm(flags) & 0xe1 == 0,
        (seg_perm(flags) | 1) & 0xfe == seg_perm(flags) && (seg_perm(flags) | 1) & 1 == 1,
{
    let r: u8 = if flags & 4 == 4 { 2u8 } else { 0u8 };
    let w: u8 = if flags & 2 == 2 { 4u8 } else { 0u8 };
    let x: u8 = if flags & 1 == 1 { 8u8 } else { 0u8 };
    let p: u8 = (16u8 | r | w | x) as u8;
    assert(seg_perm(flags) == p);
    assert((p & 2 == 2) == (r == 2) && (p & 4 == 4) == (w == 4) && (p & 8 == 8) == (x == 8) && p & 16 == 16 && p
        & 0xe1 == 0 && (p | 1) & 0xfe == p && (p | 1) & 1 == 1) by (bit_vector)
        requires
            r == 0 || r == 2,
            w == 0 || w == 4,
            x == 0 || x == 8,
            p == 16u8 | r | w | x,
    ;
}

/// A loadable segment can be mapped: its addresses fit, and its bytes lie
/// in the file and fit in its pages (a segment with no page loads no byte).
pub open spec fn seg_ok(s: Segment, len: int) -> bool {
    &&& s.virtual_addr + s.mem_size <= usize::MAX
    &&& s.offset + s.file_size <= len
    &&& seg_start(s) <= seg_end(s)
    &&& s.file_size <= (seg_end(s) - seg_start(s)) * 4096
}

/// The page just past the last loadable segment among the first `n`, or 0.
pub open spec fn last_load_end(segs: Seq<Segment>, n: int) -> int
    decreases n,
{
    if n <= 0 {
        0
    } else if segs[n - 1].is_load {
        seg_end(segs[n - 1])
    } else {
        last_load_end(segs, n - 1)
    }
}

/// Number of pages of the loadable segments among the first `n`.
pub open spec fn load_pages(segs: Seq<Segment>, n: int) -> int
    decreases n,
{
    if n <= 0 {
        0
    } else if segs[n - 1].is_load {
        load_pages(segs, n - 1) + seg_end(segs[n - 1]) - seg_start(segs[n - 1])
    } else {
        load_pages(segs, n - 1)
    }
}

/// First page of the trampoline.
pub open spec fn tramp_start(env: UserEnv) -> int {
    (env.sasm / 4096) as int
}

/// The page just past the trampoline.
pub open spec fn tramp_end(env: UserEnv) -> int {
    ceil_pages(env.easm as int)
}

/// First page of the user stack: one guard page above the last segment.
pub open spec fn stack_start(segs: Seq<Segment>) -> int {
    last_load_end(segs, segs.len() as int) + 1
}

/// The pages below the page under the context page: those that a user
/// program, its stack and the trampoline may use.
pub open spec fn user_top() -> int {
    vpn_key((CONTEXT / PAGE_SIZE) as int - 1)
}

/// The runs of pages `[s, e)` and `[ts, te)` share no page.
pub open spec fn runs_apart(s: int, e: int, ts: int, te: int) -> bool {
    s >= e || ts >= te || e <= ts || te <= s
}

/// The pages of loadable segments `i` and `j` of `segs` are apart.
pub open spec fn segs_apart(segs: Seq<Segment>, i: int, j: int) -> bool {
    runs_apart(seg_start(segs[i]), seg_end(segs[i]), seg_start(segs[j]), seg_end(segs[j]))
}

/// A loadable segment lies where a user program's segment may: it can be
/// mapped, its pages lie below the pages of the saved context, and it
/// shares no page with the trampoline nor with the two stack pages that
/// start at page `sb`.
pub open spec fn seg_placed(s: Segment, len: int, env: UserEnv, sb: int) -> bool {
    &&& seg_ok(s, len)
    &&& (seg_start(s) >= seg_end(s) || seg_end(s) <= user_top())
    &&& runs_apart(seg_start(s), seg_end(s), tramp_start(env), tramp_end(env))
    &&& runs_apart(seg_start(s), seg_end(s), sb, sb + 2)
}

/// The trampoline, the loadable segments, the stack above the last of them
/// and the pages of the saved context can all be mapped, none of them on a
/// page of another: each loadable segment lies as `seg_placed` asks, no two
/// of them share a page, and the stack lies below the context pages and
/// apart from the trampoline.
pub open spec fn user_layout_ok(len: int, segs: Seq<Segment>, env: UserEnv) -> bool {
    &&& env.sasm <= env.easm
    &&& tramp_end(env) <= user_top()
    &&& forall|i: int|
        0 <= i < segs.len() && #[trigger] segs[i].is_load ==> seg_placed(segs[i], len, env, stack_start(segs))
    &&& forall|i: int, j: int|
        0 <= i < j < segs.len() && #[trigger] segs[i].is_load && #[trigger] segs[j].is_load ==> segs_apart(segs, i, j)
    &&& stack_start(segs) + 2 <= user_top()
    &&& runs_apart(stack_start(segs), stack_start(segs) + 2, tramp_start(env), tramp_end(env))
}

/// The pages below the context pages lie in the translated space, above
/// the kernel's low pages.
pub proof fn lemma_user_top()
    ensures
        0x80800 <= user_top() < VPN_SPACE - 1,
        user_top() + 1 == vpn_key((CONTEXT / PAGE_SIZE) as int),
{
    super::kernel::lemma_context_keys();
    assert(usize::MAX == 0xffff_ffff || usize::MAX == 0xffff_ffff_ffff_ffff);
}

/// Frames that building the address space may take: the root, up to three
/// per mapped page (two table nodes and the page's own frame), and the two
/// context pages.
pub open spec fn frames_needed(segs: Seq<Segment>, env: UserEnv) -> int {
    1 + 3 * (tramp_end(env) - tramp_start(env)) + 3 * load_pages(segs, segs.len() as int) + 3 * 2 + 6
}

/// Segment `sg` of the file `data` is loaded in table `t` of memory `m`:
/// each of its pages is mapped with its rights to an allocated frame that
/// is no node and holds the page's share of the segment's bytes, zero past
/// their end.
pub open spec fn segment_loaded(t: PageTable, m: PhysMemory, data: Seq<u8>, sg: Segment) -> bool {
    forall|v: int|
        seg_start(sg) <= v < seg_end(sg) ==> {
            &&& #[trigger] leaf(m, t.root.0 as int, v) == Some(
                spec_pte(page_frame(m, t, v), (seg_perm(sg.flags) | 1) as u8),
            )
            &&& m.allocated(page_frame(m, t, v))
            &&& !t.is_node(page_frame(m, t, v))
            &&& holds(m, page_frame(m, t, v), seg_bytes(data, sg), (v - seg_start(sg)) * 4096)
        }
}

/// A loaded segment stays loaded when the frames in use are kept and its
/// pages keep their mappings.
pub proof fn lemma_loaded_kept(
    t0: PageTable,
    m0: PhysMemory,
    t1: PageTable,
    m1: PhysMemory,
    data: Seq<u8>,
    sg: Segment,
)
    requires
        segment_loaded(t0, m0, data, sg),
        keeps_frames(t0, m0, t1, m1),
        t1.root == t0.root,
        forall|v: int|
            seg_start(sg) <= v < seg_end(sg) ==> #[trigger] leaf(m1, t1.root.0 as int, v) == leaf(
                m0,
                t0.root.0 as int,
                v,
            ),
    ensures
        segment_loaded(t1, m1, data, sg),
{
    assert forall|v: int| seg_start(sg) <= v < seg_end(sg) implies {
        &&& #[trigger] leaf(m1, t1.root.0 as int, v) == Some(
            spec_pte(page_frame(m1, t1, v), (seg_perm(sg.flags) | 1) as u8),
        )
        &&& m1.allocated(page_frame(m1, t1, v))
        &&& !t1.is_node(page_frame(m1, t1, v))
        &&& holds(m1, page_frame(m1, t1, v), seg_bytes(data, sg), (v - seg_start(sg)) * 4096)
    } by {
        assert(leaf(m1, t1.root.0 as int, v) == leaf(m0, t0.root.0 as int, v));
        let f = page_frame(m0, t0, v);
        assert(page_frame(m1, t1, v) == f);
        assert(m0.allocated(f));
        assert(m1.frame(f) == m0.frame(f));
        assert forall|o: int| 0 <= o < 4096 implies #[trigger] m1.byte(f, o) == m0.byte(f, o) by {
            assert(m1.frame(f)[o] == m0.frame(f)[o]);
        }
        assert(holds(m0, f, seg_bytes(data, sg), (v - seg_start(sg)) * 4096));
    }
}

/// Reads every program header of the file, which the parser can be handed
/// safely and whose header it accepts: `None` when one of them cannot be
/// read safely or the parser reports an error for it.
pub fn read_segments(data: &[u8], info: &ElfInfo) -> (r: Option<Vec<Segment>>)
    requires
        elf_open_safe(data@),
        elf_header(data@) == Some(*info),
    ensures
        r matches Some(v) ==> {
            &&& v@.len() == info.ph_count
            &&& forall|i: int| 0 <= i < v@.len() ==> #[trigger] segment_safe(*info, data@.len() as int, i as u16)
            &&& forall|i: int| 0 <= i < v@.len() ==> Some(#[trigger] v@[i]) == elf_segment(data@, i as u16)
        },
        r.is_none() ==> exists|i: int|
            0 <= i < info.ph_count && (!segment_safe(*info, data@.len() as int, i as u16)
                || #[trigger] elf_segment(data@, i as u16).is_none()),
{
    let count = info.ph_count;
    let mut v: Vec<Segment> = Vec::new();
    let mut i: u16 = 0;
    while i < count
        invariant
            count == info.ph_count,
            elf_open_safe(data@),
            elf_header(data@) == Some(*info),
            i <= count,
            v@.len() == i,
            forall|k: int| 0 <= k < i ==> #[trigger] segment_safe(*info, data@.len() as int, k as u16),
            forall|k: int| 0 <= k < i ==> Some(#[trigger] v@[k]) == elf_segment(data@, k as u16),
        decreases count - i,
    {
        if !segment_readable(info, data.len(), i) {
            assert(!segment_safe(*info, data@.len() as int, i as int as u16));
            return None;
        }
        assert(segment_safe(*info, data@.len() as int, i));
        match elf_program_header(data, i, word_buffer(data.len())) {
            Some(sg) => {
                let ghost old_v = v@;
                v.push(sg);
                proof {
                    assert forall|k: int| 0 <= k < i + 1 implies Some(#[trigger] v@[k]) == elf_segment(data@, k as u16) by {
                        if k < i {
                            assert(v@[k] == old_v[k]);
                        } else {
                            assert(k as u16 == i);
                        }
                    }
                    assert forall|k: int| 0 <= k < i + 1 implies #[trigger] segment_safe(*info, data@.len() as int, k as u16) by {
                        if k == i {
                            assert(k as u16 == i);
                        }
                    }
                }
            },
            None => {
                assert(elf_segment(data@, i as int as u16).is_none());
                return None;
            },
        }
        i = i + 1;
    }
    Some(v)
}

/// Whether program header `index` can be read safely.
fn segment_readable(info: &ElfInfo, len: usize, index: u16) -> (r: bool)
    ensures
        r == segment_safe(*info, len as int, index),
{
    if !(index < info.ph_count && info.ph_offset > 0 && info.ph_entry_size > 0) {
        return true;
    }
    let need: u128 = if info.is_64 { 56 } else { 32 };
    proof {
        let a = index as int + 1;
        let b = info.ph_entry_size as int;
        assert(a * b <= 0x1_0000 * 0x1_0000) by (nonlinear_arith)
            requires
                0 <= a <= 0x1_0000,
                0 <= b <= 0x1_0000,
        ;
        assert((a - 1) * b <= 0x1_0000 * 0x1_0000) by (nonlinear_arith)
            requires
                1 <= a <= 0x1_0000,
                0 <= b <= 0x1_0000,
        ;
    }
    let end: u128 = (info.ph_offset as u128) + ((index as u128) + 1) * (info.ph_entry_size as u128);
    let at: u128 = (info.ph_offset as u128) + (index as u128) * (info.ph_entry_size as u128);
    let align: u128 = if info.is_64 { 8 } else { 4 };
    end <= len as u128 && (info.ph_entry_size as u128) >= need && at % align == 0
}

/// The pages of segment `sg`, a page and its bytes' offset: in u128 so that
/// nothing overflows.
fn seg_pages(sg: &Segment) -> (r: (u128, u128))
    ensures
        r.0 == seg_start(*sg),
        r.1 == seg_end(*sg),
        r.0 <= r.1 <= 0x20_0000_0000_0000,
{
    proof {
        let a = sg.virtual_addr as int;
        let b = sg.mem_size as int;
        assert(a / 4096 <= (a + b + 4095) / 4096 <= 0x20_0000_0000_0000) by (nonlinear_arith)
            requires
                0 <= a < 0x1_0000_0000_0000_0000,
                0 <= b < 0x1_0000_0000_0000_0000,
        ;
    }
    let a: u128 = (sg.virtual_addr as u128) + (sg.mem_size as u128);
    ((sg.virtual_addr / 4096) as u128, (a + 4095) / 4096)
}

/// Whether the segments can be mapped as `user_layout_ok` asks.
pub fn layout_check(len: usize, segs: &Vec<Segment>, env: &UserEnv) -> (r: bool)
    ensures
        r == user_layout_ok(len as int, segs@, *env),
{
    if env.sasm > env.easm {
        return false;
    }
    let ts: u128 = (env.sasm / 4096) as u128;
    let te: u128 = VirtAddr(env.easm).ceil().0 as u128;
    let top: u128 = ((CONTEXT / PAGE_SIZE - 1) % VPN_SPACE) as u128;
    proof {
        lemma_user_top();
        super::kernel::lemma_context_keys();
        assert(top == user_top());
    }
    if te > top {
        return false;
    }
    let n = segs.len();
    let mut last_end: u128 = 0;
    let mut i: usize = 0;
    while i < n
        invariant
            n == segs@.len(),
            i <= n,
            last_end == last_load_end(segs@, i as int),
            last_end <= 0x20_0000_0000_0000,
        decreases n - i,
    {
        if segs[i].is_load {
            let (_first, past) = seg_pages(&segs[i]);
            last_end = past;
        }
        i = i + 1;
    }
    let sb: u128 = last_end + 1;
    if !(sb + 2 <= top && (ts >= te || sb + 2 <= ts || te <= sb)) {
        return false;
    }
    i = 0;
    while i < n
        invariant
            n == segs@.len(),
            i <= n,
            env.sasm <= env.easm,
            ts == tramp_start(*env),
            te == tramp_end(*env),
            top == user_top(),
            sb == stack_start(segs@),
            forall|k: int|
                0 <= k < i && #[trigger] segs@[k].is_load ==> seg_placed(segs@[k], len as int, *env, sb as int),
        decreases n - i,
    {
        let sg = segs[i];
        if sg.is_load {
            let (start, end) = seg_pages(&sg);
            let ok = (sg.virtual_addr as u128) + (sg.mem_size as u128) <= usize::MAX as u128
                && (sg.offset as u128) + (sg.file_size as u128) <= len as u128
                && start <= end
                && (sg.file_size as u128) <= (end - start) * 4096
                && (start >= end || end <= top)
                && (start >= end || ts >= te || end <= ts || te <= start)
                && (start >= end || end <= sb || sb + 2 <= start);
            if !ok {
                assert(!seg_placed(segs@[i as int], len as int, *env, stack_start(segs@)));
                return false;
            }
        }
        i = i + 1;
    }
    let mut j: usize = 0;
    while j < n
        invariant
            n == segs@.len(),
            j <= n,
            forall|a: int, b: int|
                0 <= a < b < j && #[trigger] segs@[a].is_load && #[trigger] segs@[b].is_load ==> segs_apart(segs@, a, b),
        decreases n - j,
    {
        if segs[j].is_load {
            let (sj, ej) = seg_pages(&segs[j]);
            let mut a: usize = 0;
            while a < j
                invariant
                    n == segs@.len(),
                    a <= j < n,
                    segs@[j as int].is_load,
                    sj == seg_start(segs@[j as int]),
                    ej == seg_end(segs@[j as int]),
                    forall|c: int| 0 <= c < a && #[trigger] segs@[c].is_load ==> segs_apart(segs@, c, j as int),
                decreases j - a,
            {
                if segs[a].is_load {
                    let (sa, ea) = seg_pages(&segs[a]);
                    if !(sa >= ea || sj >= ej || ea <= sj || ej <= sa) {
                        assert(!segs_apart(segs@, a as int, j as int));
                        return false;
                    }
                }
                a = a + 1;
            }
        }
        proof {
            assert forall|x: int, y: int|
                0 <= x < y < j + 1 && #[trigger] segs@[x].is_load && #[trigger] segs@[y].is_load implies segs_apart(segs@, x, y) by {
                if y < j {
                } else {
                    assert(y == j);
                }
            }
        }
        j = j + 1;
    }
    true
}

/// The rights of a segment's pages.
fn perm_of(flags: u32) -> (r: MapPermission)
    ensures
        r.bits == seg_perm(flags),
{
    let read: u8 = if flags & 4 == 4 { 2 } else { 0 };
    let write: u8 = if flags & 2 == 2 { 4 } else { 0 };
    let exec: u8 = if flags & 1 == 1 { 8 } else { 0 };
    MapPermission { bits: 16u8 | read | write | exec }
}

/// Number of pages of the loadable segments.
fn count_load_pages(segs: &Vec<Segment>) -> (r: u128)
    ensures
        r == load_pages(segs@, segs@.len() as int),
        r <= segs@.len() * 0x20_0000_0000_0000,
{
    let n = segs.len();
    let mut total: u128 = 0;
    let mut i: usize = 0;
    while i < n
        invariant
            n == segs@.len(),
            i <= n,
            total == load_pages(segs@, i as int),
            0 <= total <= i * 0x20_0000_0000_0000,
        decreases n - i,
    {
        let sg = segs[i];
        if sg.is_load {
            let (start, end) = seg_pages(&sg);
            total = total + (end - start);
        }
        proof {
            assert(i * 0x20_0000_0000_0000 + 0x20_0000_0000_0000 == (i + 1) * 0x20_0000_0000_0000) by (nonlinear_arith);
            assert((i + 1) * 0x20_0000_0000_0000 <= 0x1_0000_0000_0000_0000 * 0x20_0000_0000_0000) by (nonlinear_arith)
                requires
                    i < 0x1_0000_0000_0000_0000,
            ;
        }
        i = i + 1;
    }
    total
}

/// Page `p` is a page of one of the loadable segments among the first `n`.
pub open spec fn in_loaded(segs: Seq<Segment>, n: int, p: int) -> bool
    decreases n,
{
    if n <= 0 {
        false
    } else {
        (segs[n - 1].is_load && seg_start(segs[n - 1]) <= p < seg_end(segs[n - 1])) || in_loaded(segs, n - 1, p)
    }
}

/// What holds once the trampoline and the segments before `i` are mapped
/// into table `t` of memory `m`: those segments are loaded, the trampoline
/// maps to itself, and nothing else is mapped.
pub open spec fn user_inv(t: PageTable, m: PhysMemory, data: Seq<u8>, segs: Seq<Segment>, env: UserEnv, i: int) -> bool {
    &&& forall|k: int| 0 <= k < i && #[trigger] segs[k].is_load ==> segment_loaded(t, m, data, segs[k])
    &&& forall|v: int|
        v >= 0 && #[trigger] leaf(m, t.root.0 as int, v).is_some() ==> in_loaded(segs, i, vpn_key(v)) || (
        tramp_start(env) <= vpn_key(v) < tramp_end(env))
    &&& forall|v: int|
        tramp_start(env) <= v < tramp_end(env) ==> #[trigger] leaf(m, t.root.0 as int, v) == Some(spec_pte(v, 11u8))
}

/// A page that no loadable segment among the first `n` covers is in none
/// of them.
proof fn lemma_not_in_loaded(segs: Seq<Segment>, n: int, p: int)
    requires
        0 <= n <= segs.len(),
        forall|k: int| 0 <= k < n && #[trigger] segs[k].is_load ==> !(seg_start(segs[k]) <= p < seg_end(segs[k])),
    ensures
        !in_loaded(segs, n, p),
    decreases n,
{
    if n > 0 {
        lemma_not_in_loaded(segs, n - 1, p);
    }
}

/// The pages of the loadable segments lie below the context pages.
proof fn lemma_loaded_below(len: int, segs: Seq<Segment>, env: UserEnv, n: int, p: int)
    requires
        user_layout_ok(len, segs, env),
        0 <= n <= segs.len(),
        in_loaded(segs, n, p),
    ensures
        0 <= p < user_top(),
    decreases n,
{
    if segs[n - 1].is_load && seg_start(segs[n - 1]) <= p < seg_end(segs[n - 1]) {
        assert(seg_placed(segs[n - 1], len, env, stack_start(segs)));
    } else {
        lemma_loaded_below(len, segs, env, n - 1, p);
    }
}

/// The end of the last loadable segment is a page number.
proof fn lemma_last_end_nonneg(segs: Seq<Segment>, n: int)
    ensures
        0 <= last_load_end(segs, n),
    decreases n,
{
    if n > 0 {
        lemma_last_end_nonneg(segs, n - 1);
    }
}

/// The pages of a loadable segment with a page lie below the context pages,
/// where page numbers are their own translated numbers.
proof fn lemma_seg_low(len: int, segs: Seq<Segment>, env: UserEnv, k: int)
    requires
        user_layout_ok(len, segs, env),
        0 <= k < segs.len(),
        segs[k].is_load,
    ensures
        seg_placed(segs[k], len, env, stack_start(segs)),
        0 <= seg_start(segs[k]),
        seg_start(segs[k]) < seg_end(segs[k]) ==> seg_end(segs[k]) <= user_top(),
        forall|v: int| seg_start(segs[k]) <= v < seg_end(segs[k]) ==> #[trigger] vpn_key(v) == v,
{
    lemma_user_top();
}

/// A loadable segment with no page is loaded as it stands.
proof fn lemma_empty_segment(t: PageTable, m: PhysMemory, data: Seq<u8>, segs: Seq<Segment>, env: UserEnv, i: int)
    requires
        user_layout_ok(data.len() as int, segs, env),
        0 <= i < segs.len(),
        segs[i].is_load,
        seg_start(segs[i]) == seg_end(segs[i]),
        user_inv(t, m, data, segs, env, i),
    ensures
        user_inv(t, m, data, segs, env, i + 1),
{
    assert forall|k: int| 0 <= k < i + 1 && #[trigger] segs[k].is_load implies segment_loaded(t, m, data, segs[k]) by {}
    assert forall|v: int|
        v >= 0 && #[trigger] leaf(m, t.root.0 as int, v).is_some() implies in_loaded(segs, i + 1, vpn_key(v)) || (
        tramp_start(env) <= vpn_key(v) < tramp_end(env)) by {}
}

/// Pushing loadable segment `i` keeps what was loaded and loads it.
#[verifier::rlimit(80)]
proof fn lemma_load_step(
    t0: PageTable,
    m0: PhysMemory,
    t1: PageTable,
    m1: PhysMemory,
    area: MapArea,
    data: Seq<u8>,
    segs: Seq<Segment>,
    env: UserEnv,
    i: int,
)
    requires
        user_layout_ok(data.len() as int, segs, env),
        0 <= i < segs.len(),
        segs[i].is_load,
        seg_start(segs[i]) < seg_end(segs[i]),
        t1.root == t0.root,
        t1.wf(&m1),
        area.mtype == MapType::Alloc,
        area.range.start.0 == seg_start(segs[i]),
        area.range.end.0 == seg_end(segs[i]),
        area.permission.bits == seg_perm(segs[i].flags),
        area.placed(t0, m0, t1, m1, seg_bytes(data, segs[i])),
        user_inv(t0, m0, data, segs, env, i),
    ensures
        user_inv(t1, m1, data, segs, env, i + 1),
{
    let sg = segs[i];
    let s = seg_start(sg);
    let e = seg_end(sg);
    let r = t0.root.0 as int;
    let al = area.allocated@;
    let fl = area.permission.bits;
    lemma_seg_low(data.len() as int, segs, env, i);
    lemma_user_top();
    assert(0 <= s < e <= user_top() && 0 <= tramp_start(env) <= tramp_end(env) <= user_top());
    assert(runs_apart(s, e, tramp_start(env), tramp_end(env)));
    lemma_changed_keeps(t0, m0, t1, m1, frames_upto(al, s, e));
    // pages outside the new segment keep their mappings
    assert forall|v: int| v >= 0 && (vpn_key(v) < s || vpn_key(v) >= e) implies #[trigger] leaf(m1, r, v) == leaf(m0, r, v) by {
        super::kernel::lemma_outside_range(s, e, v);
    }
    assert forall|k: int| 0 <= k < i + 1 && #[trigger] segs[k].is_load implies segment_loaded(t1, m1, data, segs[k]) by {
        if k < i {
            lemma_seg_low(data.len() as int, segs, env, k);
            assert(segs_apart(segs, k, i));
            assert forall|v: int| seg_start(segs[k]) <= v < seg_end(segs[k]) implies #[trigger] leaf(m1, t1.root.0 as int, v) == leaf(m0, t0.root.0 as int, v) by {
                assert(vpn_key(v) == v);
            }
            lemma_loaded_kept(t0, m0, t1, m1, data, segs[k]);
        } else {
            assert forall|v: int| s <= v < e implies {
                &&& #[trigger] leaf(m1, t1.root.0 as int, v) == Some(
                    spec_pte(page_frame(m1, t1, v), (seg_perm(sg.flags) | 1) as u8),
                )
                &&& m1.allocated(page_frame(m1, t1, v))
                &&& !t1.is_node(page_frame(m1, t1, v))
                &&& holds(m1, page_frame(m1, t1, v), seg_bytes(data, sg), (v - s) * 4096)
            } by {
                lemma_range_offset(s, v, v);
                assert(pages_hold(t1, m1, al, s, e, seg_bytes(data, sg)));
                assert(al.contains_key(v as usize));
                let f = al[v as usize].ppn.0 as int;
                assert(m1.allocated(f));
                assert(pages_mapped(t0, m0, t1, m1, al, s, e, fl));
                assert(leaf(m1, r, v) == Some(spec_pte(f, (fl | 1) as u8)));
                lemma_spec_pte_ppn(f, (fl | 1) as u8);
                assert(page_frame(m1, t1, v) == f);
            }
        }
    }
    assert forall|v: int| v >= 0 && #[trigger] leaf(m1, t1.root.0 as int, v).is_some() implies in_loaded(segs, i + 1, vpn_key(v)) || (
        tramp_start(env) <= vpn_key(v) < tramp_end(env)) by {
        if vpn_key(v) < s || vpn_key(v) >= e {
            assert(leaf(m1, r, v) == leaf(m0, r, v));
        }
    }
    assert forall|v: int| tramp_start(env) <= v < tramp_end(env) implies #[trigger] leaf(m1, t1.root.0 as int, v) == Some(spec_pte(v, 11u8)) by {
        assert(vpn_key(v) == v);
        assert(leaf(m1, r, v) == leaf(m0, r, v));
    }
}

/// Pushing the stack above the segments keeps what was loaded and maps the
/// stack's pages.
#[verifier::rlimit(80)]
proof fn lemma_stack_step(
    t0: PageTable,
    m0: PhysMemory,
    t1: PageTable,
    m1: PhysMemory,
    area: MapArea,
    data: Seq<u8>,
    segs: Seq<Segment>,
    env: UserEnv,
)
    requires
        user_layout_ok(data.len() as int, segs, env),
        t1.root == t0.root,
        t1.wf(&m1),
        area.mtype == MapType::Alloc,
        area.permission.bits == 22u8,
        area.range.start.0 == stack_start(segs),
        area.range.end.0 == stack_start(segs) + 2,
        area.placed(t0, m0, t1, m1, Seq::empty()),
        user_inv(t0, m0, data, segs, env, segs.len() as int),
    ensures
        forall|k: int| 0 <= k < segs.len() && #[trigger] segs[k].is_load ==> segment_loaded(t1, m1, data, segs[k]),
        forall|v: int| v >= 0 && #[trigger] leaf(m1, t1.root.0 as int, v).is_some() ==> vpn_key(v) < user_top(),
        forall|v: int|
            v >= 0 && #[trigger] leaf(m1, t1.root.0 as int, v).is_some() ==> user_page(segs, env, vpn_key(v)),
        forall|v: int|
            tramp_start(env) <= v < tramp_end(env) ==> #[trigger] leaf(m1, t1.root.0 as int, v) == Some(spec_pte(v, 11u8)),
        forall|v: int| stack_start(segs) <= v < stack_start(segs) + 2 ==> #[trigger] stack_page(t1, m1, v),
        keeps_frames(t0, m0, t1, m1),
{
    let n = segs.len() as int;
    let s = stack_start(segs);
    let e = s + 2;
    let r = t0.root.0 as int;
    let al = area.allocated@;
    lemma_last_end_nonneg(segs, n);
    lemma_user_top();
    assert(0 <= s < e <= user_top() && 0 <= tramp_start(env) <= tramp_end(env) <= user_top());
    lemma_changed_keeps(t0, m0, t1, m1, frames_upto(al, s, e));
    assert forall|v: int| v >= 0 && (vpn_key(v) < s || vpn_key(v) >= e) implies #[trigger] leaf(m1, r, v) == leaf(m0, r, v) by {
        super::kernel::lemma_outside_range(s, e, v);
    }
    assert forall|k: int| 0 <= k < segs.len() && #[trigger] segs[k].is_load implies segment_loaded(t1, m1, data, segs[k]) by {
        lemma_seg_low(data.len() as int, segs, env, k);
        assert forall|v: int| seg_start(segs[k]) <= v < seg_end(segs[k]) implies #[trigger] leaf(m1, t1.root.0 as int, v) == leaf(m0, t0.root.0 as int, v) by {
            assert(vpn_key(v) == v);
        }
        lemma_loaded_kept(t0, m0, t1, m1, data, segs[k]);
    }
    assert forall|v: int| v >= 0 && #[trigger] leaf(m1, t1.root.0 as int, v).is_some() implies vpn_key(v) < user_top()
        && user_page(segs, env, vpn_key(v)) by {
        if vpn_key(v) < s || vpn_key(v) >= e {
            assert(leaf(m1, r, v) == leaf(m0, r, v));
            if in_loaded(segs, n, vpn_key(v)) {
                lemma_loaded_below(data.len() as int, segs, env, n, vpn_key(v));
            }
        }
    }
    assert forall|v: int| tramp_start(env) <= v < tramp_end(env) implies #[trigger] leaf(m1, t1.root.0 as int, v) == Some(spec_pte(v, 11u8)) by {
        assert(vpn_key(v) == v);
        assert(leaf(m1, r, v) == leaf(m0, r, v));
    }
    lemma_stack_pages(t0, m0, t1, m1, area, s, e);
}

/// The pages of a stack area just placed are stack pages.
proof fn lemma_stack_pages(t0: PageTable, m0: PhysMemory, t1: PageTable, m1: PhysMemory, area: MapArea, s: int, e: int)
    requires
        area.mtype == MapType::Alloc,
        area.permission.bits == 22u8,
        area.range.start.0 == s,
        area.range.end.0 == e,
        0 <= s <= e <= s + 2,
        area.placed(t0, m0, t1, m1, Seq::empty()),
    ensures
        forall|v: int| s <= v < e ==> #[trigger] stack_page(t1, m1, v),
{
    let al = area.allocated@;
    assert(pages_mapped(t0, m0, t1, m1, al, s, e, 22u8));
    assert(pages_hold(t1, m1, al, s, e, Seq::empty()));
    assert((22u8 | 1u8) == 23u8) by (bit_vector);
    assert forall|v: int| s <= v < e implies #[trigger] stack_page(t1, m1, v) by {
        lemma_range_offset(s, v, v);
        assert(al.contains_key(v as usize));
        let f = al[v as usize].ppn.0 as int;
        assert(m1.allocated(f));
        lemma_spec_pte_ppn(f, 23u8);
        assert(page_frame(m1, t1, v) == f);
        assert(holds(m1, f, Seq::empty(), (v - s) * 4096));
        assert forall|o: int| 0 <= o < 4096 implies #[trigger] m1.byte(f, o) == 0 by {}
    }
}

/// The pages below the context keep what the stack step left when the
/// frames in use are kept and the low pages keep their mappings.
#[verifier::rlimit(80)]
proof fn lemma_final_step(
    t0: PageTable,
    m0: PhysMemory,
    t1: PageTable,
    m1: PhysMemory,
    data: Seq<u8>,
    segs: Seq<Segment>,
    env: UserEnv,
)
    requires
        user_layout_ok(data.len() as int, segs, env),
        t1.root == t0.root,
        keeps_frames(t0, m0, t1, m1),
        forall|v: int| 0 <= v < user_top() ==> #[trigger] leaf(m1, t1.root.0 as int, v) == leaf(m0, t0.root.0 as int, v),
        forall|k: int| 0 <= k < segs.len() && #[trigger] segs[k].is_load ==> segment_loaded(t0, m0, data, segs[k]),
    ensures
        forall|k: int| 0 <= k < segs.len() && #[trigger] segs[k].is_load ==> segment_loaded(t1, m1, data, segs[k]),
{
    let n = segs.len() as int;
    assert forall|k: int| 0 <= k < segs.len() && #[trigger] segs[k].is_load implies segment_loaded(t1, m1, data, segs[k]) by {
        lemma_seg_low(data.len() as int, segs, env, k);
        assert forall|v: int| seg_start(segs[k]) <= v < seg_end(segs[k]) implies #[trigger] leaf(m1, t1.root.0 as int, v) == leaf(m0, t0.root.0 as int, v) by {}
        lemma_loaded_kept(t0, m0, t1, m1, data, segs[k]);
    }
}

/// Load pages never shrink as segments are added.
proof fn lemma_load_pages_mono(segs: Seq<Segment>, i: int, n: int)
    requires
        0 <= i <= n <= segs.len(),
    ensures
        load_pages(segs, i) <= load_pages(segs, n),
        0 <= load_pages(segs, n),
    decreases n,
{
    if n > 0 {
        lemma_load_pages_mono(segs, if i < n { i } else { n - 1 }, n - 1);
        let sg = segs[n - 1];
        assert(seg_start(sg) <= seg_end(sg)) by (nonlinear_arith)
            requires
                seg_start(sg) == sg.virtual_addr / 4096,
                seg_end(sg) == (sg.virtual_addr + sg.mem_size + 4095) / 4096,
                sg.mem_size >= 0,
                sg.virtual_addr >= 0,
        ;
    }
}


/// No page is mapped in the table with root frame `root`.
#[verifier::opaque]
pub open spec fn nothing_mapped(m: PhysMemory, root: int) -> bool {
    forall|v: int| #[trigger] leaf(m, root, v).is_none()
}

/// Mapping the trampoline into an empty table starts the loading.
#[verifier::rlimit(80)]
proof fn lemma_tramp_step(
    t0: PageTable,
    m0: PhysMemory,
    t1: PageTable,
    m1: PhysMemory,
    area: MapArea,
    data: Seq<u8>,
    segs: Seq<Segment>,
    env: UserEnv,
)
    requires
        t1.root == t0.root,
        nothing_mapped(m0, t0.root.0 as int),
        area.mtype == MapType::Identical,
        area.range.start.0 == tramp_start(env),
        area.range.end.0 == tramp_end(env),
        0 <= tramp_start(env) <= tramp_end(env) <= user_top(),
        area.permission.bits == 10,
        area.placed(t0, m0, t1, m1, Seq::empty()),
    ensures
        user_inv(t1, m1, data, segs, env, 0),
{
    let ts = tramp_start(env);
    let te = tramp_end(env);
    let root = t0.root.0 as int;
    assert((10u8 | 1u8) == 11u8) by (bit_vector);
    assert(last_load_end(segs, 0) == 0);
    assert forall|k: int| 0 <= k < 0 && #[trigger] segs[k].is_load implies segment_loaded(t1, m1, data, segs[k]) by {}
    assert forall|v: int| v >= 0 && #[trigger] leaf(m1, t1.root.0 as int, v).is_some() implies vpn_key(v) < last_load_end(segs, 0) || (
        ts <= vpn_key(v) < te) by {
        if vpn_key(v) < ts || vpn_key(v) >= te {
            super::kernel::lemma_outside_range(ts, te, v);
            reveal(nothing_mapped);
            assert(leaf(m0, root, v).is_none());
        }
    }
    assert forall|v: int| ts <= v < te implies #[trigger] leaf(m1, t1.root.0 as int, v) == Some(spec_pte(v, 11u8)) by {
        lemma_range_offset(ts, v, v);
    }
}

/// Page `p` is one that the address space of a program with program
/// headers `segs` maps: a page of a loadable segment, of the trampoline or
/// of the stack, or one of the two pages of the saved context.
pub open spec fn user_page(segs: Seq<Segment>, env: UserEnv, p: int) -> bool {
    ||| in_loaded(segs, segs.len() as int, p)
    ||| tramp_start(env) <= p < tramp_end(env)
    ||| stack_start(segs) <= p < stack_start(segs) + 2
    ||| p == user_top()
    ||| p == user_top() + 1
}

/// The address space with table `t` in memory `m` is the one built for a
/// program whose file is `data`, with entry point `entry` and program
/// headers `segs`: the table is well formed; each loadable segment is
/// loaded; the trampoline is mapped to itself, readable and executable;
/// the two stack pages are mapped; no other page is mapped but the two
/// pages of the saved context, which both hold the context; and that
/// context enters `entry` in mode `mode` in this address space, with the
/// stack pointer at the top of the stack.
#[verifier::opaque]
pub open spec fn user_space_built(
    t: PageTable,
    m: PhysMemory,
    mode: SPP,
    entry: u64,
    data: Seq<u8>,
    segs: Seq<Segment>,
    env: UserEnv,
) -> bool {
    &&& t.wf(&m)
    &&& forall|k: int| 0 <= k < segs.len() && #[trigger] segs[k].is_load ==> segment_loaded(t, m, data, segs[k])
    &&& forall|v: int|
        tramp_start(env) <= v < tramp_end(env) ==> #[trigger] leaf(m, t.root.0 as int, v) == Some(spec_pte(v, 11u8))
    &&& forall|v: int| stack_start(segs) <= v < stack_start(segs) + 2 ==> #[trigger] stack_page(t, m, v)
    &&& forall|v: int| v >= 0 && #[trigger] leaf(m, t.root.0 as int, v).is_some() ==> user_page(segs, env, vpn_key(v))
    &&& context_in_page(m, t, (CONTEXT / PAGE_SIZE) as int - 1) == context_at(m, t.root.0 as int)
    &&& context_at(m, t.root.0 as int) == Context::spec_init(
        mode,
        entry as usize,
        ((8u64 << 60u64) | (t.root.0 as u64)) as usize,
        ((stack_start(segs) + 2) * 4096) as usize,
        env.kernel_satp,
        0,
        env.trap_handler,
    )
}

/// Page `v` is a page of the user stack in table `t` of memory `m`: mapped
/// readable, writable and user-accessible (flags 16, 4, 2 and the valid
/// bit) to a frame in use of its own, no node of the table, that holds only
/// zeros.
pub open spec fn stack_page(t: PageTable, m: PhysMemory, v: int) -> bool {
    &&& leaf(m, t.root.0 as int, v) == Some(spec_pte(page_frame(m, t, v), 23u8))
    &&& m.allocated(page_frame(m, t, v))
    &&& !t.is_node(page_frame(m, t, v))
    &&& super::set::zeroed(m, page_frame(m, t, v))
}

/// A stack page stays one when the frames in use are kept and the page
/// keeps its mapping.
proof fn lemma_stack_page_kept(t0: PageTable, m0: PhysMemory, t1: PageTable, m1: PhysMemory, v: int)
    requires
        stack_page(t0, m0, v),
        keeps_frames(t0, m0, t1, m1),
        leaf(m1, t1.root.0 as int, v) == leaf(m0, t0.root.0 as int, v),
    ensures
        stack_page(t1, m1, v),
{
    let f = page_frame(m0, t0, v);
    assert(page_frame(m1, t1, v) == f);
    assert(m1.frame(f) == m0.frame(f));
    assert forall|o: int| 0 <= o < 4096 implies #[trigger] m1.byte(f, o) == 0 by {
        assert(m1.frame(f)[o] == m0.frame(f)[o]);
        assert(m0.byte(f, o) == 0);
    }
}

/// The program headers as the parser reads them from `data`.
pub open spec fn parsed_segments(data: Seq<u8>) -> Seq<Segment> {
    Seq::new(elf_header(data).unwrap().ph_count as nat, |i: int| elf_segment(data, i as u16).unwrap())
}

/// The file `data` can be loaded with `free` frames available: the parser
/// accepts its header and each of its program headers, which it can read
/// safely, the loadable segments lie as `user_layout_ok` asks, and there
/// are frames enough.
pub open spec fn elf_loadable(data: Seq<u8>, env: UserEnv, free: int) -> bool {
    &&& elf_parses(data)
    &&& user_layout_ok(data.len() as int, parsed_segments(data), env)
    &&& free >= frames_needed(parsed_segments(data), env)
}

/// Whether the parser can be handed `data` safely.
fn elf_bytes_safe(data: &[u8]) -> (r: bool)
    ensures
        r == elf_open_safe(data@),
{
    let n = data.len();
    if n < 16 {
        return true;
    }
    let magic = data[0] == 0x7f && data[1] == 0x45 && data[2] == 0x4c && data[3] == 0x46;
    proof {
        assert(magic == (data@.subrange(0, 4) =~= super::elf::elf_magic()));
    }
    if !magic {
        return true;
    }
    if data[4] != 1 && data[4] != 2 {
        return true;
    }
    if data[4] == 1 {
        n >= 52
    } else {
        n >= 64
    }
}

/// The parser can be handed `data` safely and accepts its header and each
/// of its program headers, which it can read safely.
pub open spec fn elf_parses(data: Seq<u8>) -> bool {
    &&& elf_open_safe(data)
    &&& elf_header(data).is_some()
    &&& forall|i: int|
        0 <= i < elf_header(data).unwrap().ph_count ==> #[trigger] segment_safe(
            elf_header(data).unwrap(),
            data.len() as int,
            i as u16,
        )
    &&& forall|i: int|
        0 <= i < elf_header(data).unwrap().ph_count ==> #[trigger] elf_segment(data, i as u16).is_some()
}

/// Parses the ELF file `data`: its header and every program header, or
/// `None` when the parser cannot be handed the bytes safely, rejects the
/// header, or cannot read a program header.
pub fn parse_elf(data: &[u8]) -> (r: Option<(ElfInfo, Vec<Segment>)>)
    ensures
        r.is_some() == elf_parses(data@),
        r matches Some(p) ==> p.0 == elf_header(data@).unwrap() && p.1@
            == parsed_segments(data@),
{
    if !elf_bytes_safe(data) {
        return None;
    }
    let info = match elf_open(data, word_buffer(data.len())) {
        Some(info) => info,
        None => {
            return None;
        },
    };
    let segs = match read_segments(data, &info) {
        Some(segs) => segs,
        None => {
            return None;
        },
    };
    proof {
        assert(segs@ =~= parsed_segments(data@)) by {
            assert forall|i: int| 0 <= i < segs@.len() implies segs@[i] == parsed_segments(data@)[i] by {
                assert(Some(segs@[i]) == elf_segment(data@, i as u16));
            }
        }
        assert forall|i: int| 0 <= i < elf_header(data@).unwrap().ph_count implies #[trigger] segment_safe(
            elf_header(data@).unwrap(),
            data@.len() as int,
            i as u16,
        ) by {
            assert(segment_safe(info, data@.len() as int, i as u16));
        }
        assert forall|i: int| 0 <= i < elf_header(data@).unwrap().ph_count implies #[trigger] elf_segment(data@, i as u16).is_some() by {
            assert(Some(segs@[i]) == elf_segment(data@, i as u16));
        }
        assert(elf_parses(data@));
    }
    Some((info, segs))
}

impl MemorySet {
    /// The address space of the user program whose ELF file is `data`, in
    /// mode `mode`, or `None` when the file cannot be loaded (see
    /// `elf_loadable`); memory is then left as it was.
    #[verifier::rlimit(90)]
    pub fn from_elf(mem: &mut PhysMemory, mode: SPP, data: &[u8], env: &UserEnv) -> (r: Option<MemorySet>)
        requires
            old(mem).wf(),
        ensures
            r.is_some() == elf_loadable(data@, *env, old(mem).free_frames()),
            r.is_none() ==> *final(mem) == *old(mem),
            r matches Some(set) ==> user_space_built(
                set.table,
                *final(mem),
                mode,
                elf_header(data@).unwrap().entry,
                data@,
                parsed_segments(data@),
                *env,
            ),
    {
        let (info, segs) = match parse_elf(data) {
            Some(p) => p,
            None => {
                return None;
            },
        };
        if !layout_check(data.len(), &segs, env) {
            return None;
        }
        let tramp_pages: u128 = (VirtAddr(env.easm).ceil().0 as u128) - ((env.sasm / 4096) as u128);
        let pages = count_load_pages(&segs);
        proof {
            assert(segs@.len() <= 0xffff);
            assert(pages <= 0xffff * 0x20_0000_0000_0000) by (nonlinear_arith)
                requires
                    pages <= segs@.len() * 0x20_0000_0000_0000,
                    segs@.len() <= 0xffff,
            ;
            lemma_user_top();
            assert(tramp_pages <= 0x800_0000);
        }
        let need: u128 = 1 + 3 * tramp_pages + 3 * pages + 12;
        if !mem.has_free_frames(need) {
            return None;
        }
        Some(MemorySet::build_user(mem, mode, data, info.entry, &segs, env))
    }
}

impl MemorySet {
    /// Maps loadable segment `i` of `segs` on fresh frames holding its bytes
    /// of `data`.
    #[verifier::rlimit(90)]
    fn load_segment(&mut self, mem: &mut PhysMemory, data: &[u8], segs: &Vec<Segment>, env: &UserEnv, i: usize)
        requires
            i < segs@.len(),
            segs@[i as int].is_load,
            user_layout_ok(data@.len() as int, segs@, *env),
            old(self).table.wf(&*old(mem)),
            old(mem).free_frames() >= 3 * (load_pages(segs@, i + 1) - load_pages(segs@, i as int)),
            user_inv(old(self).table, *old(mem), data@, segs@, *env, i as int),
        ensures
            final(self).table.wf(&*final(mem)),
            final(self).table.root == old(self).table.root,
            final(mem).free_frames() >= old(mem).free_frames() - 3 * (load_pages(segs@, i + 1) - load_pages(segs@, i as int)),
            user_inv(final(self).table, *final(mem), data@, segs@, *env, i + 1),
    {
        let sg = segs[i];
        let ghost root = self.table.root.0 as int;
        proof {
            lemma_seg_low(data@.len() as int, segs@, *env, i as int);
        }
        let (first, past) = seg_pages(&sg);
        if first == past {
            proof {
                lemma_empty_segment(self.table, *mem, data@, segs@, *env, i as int);
            }
            return;
        }
        let start_va = VirtAddr(sg.virtual_addr as usize);
        let end_va = VirtAddr(start_va.0 + sg.mem_size as usize);
        let area = MapArea::new(start_va, end_va, MapType::Alloc, perm_of(sg.flags));
        let len = data.len();
        proof {
            assert(sg.offset + sg.file_size <= len);
        }
        let lo = sg.offset as usize;
        let hi = lo + sg.file_size as usize;
        let bytes = &data[lo..hi];
        let ghost t0 = self.table;
        let ghost m0 = *mem;
        proof {
            assert(bytes@ == seg_bytes(data@, sg));
            assert(area.range.start.0 == seg_start(sg));
            assert(area.range.end.0 == seg_end(sg));
            assert forall|v: int|
                area.range.start.0 <= v < area.range.end.0 implies #[trigger] leaf(*mem, root, v).is_none() by {
                assert(vpn_key(v) == v);
                assert forall|k: int| 0 <= k < i && #[trigger] segs@[k].is_load implies !(seg_start(segs@[k]) <= v < seg_end(
                    segs@[k],
                )) by {
                    assert(segs_apart(segs@, k, i as int));
                }
                lemma_not_in_loaded(segs@, i as int, v);
            }
        }
        self.push(area, Some(bytes), mem);
        proof {
            lemma_load_step(t0, m0, self.table, *mem, self.areas@.last(), data@, segs@, *env, i as int);
        }
    }

    /// Maps a two-page stack one guard page above the loaded segments, and
    /// gives the address of its top.
    #[verifier::rlimit(90)]
    fn push_stack(&mut self, mem: &mut PhysMemory, last_end: usize, data: &[u8], segs: &Vec<Segment>, env: &UserEnv) -> (top: usize)
        requires
            user_layout_ok(data@.len() as int, segs@, *env),
            last_end == last_load_end(segs@, segs@.len() as int),
            old(self).table.wf(&*old(mem)),
            old(mem).free_frames() >= 12,
            user_inv(old(self).table, *old(mem), data@, segs@, *env, segs@.len() as int),
        ensures
            top == (stack_start(segs@) + 2) * 4096,
            final(self).table.wf(&*final(mem)),
            final(self).table.root == old(self).table.root,
            final(mem).free_frames() >= old(mem).free_frames() - 6,
            forall|k: int|
                0 <= k < segs@.len() && #[trigger] segs@[k].is_load ==> segment_loaded(
                    final(self).table,
                    *final(mem),
                    data@,
                    segs@[k],
                ),
            forall|v: int|
                v >= 0 && #[trigger] leaf(*final(mem), final(self).table.root.0 as int, v).is_some() ==> vpn_key(v)
                    < user_top(),
            forall|v: int|
                v >= 0 && #[trigger] leaf(*final(mem), final(self).table.root.0 as int, v).is_some() ==> user_page(
                    segs@,
                    *env,
                    vpn_key(v),
                ),
            forall|v: int|
                tramp_start(*env) <= v < tramp_end(*env) ==> #[trigger] leaf(
                    *final(mem),
                    final(self).table.root.0 as int,
                    v,
                ) == Some(spec_pte(v, 11u8)),
            forall|v: int|
                stack_start(segs@) <= v < stack_start(segs@) + 2 ==> #[trigger] stack_page(
                    final(self).table,
                    *final(mem),
                    v,
                ),
    {
        let ghost root = self.table.root.0 as int;
        proof {
            lemma_last_end_nonneg(segs@, segs@.len() as int);
            lemma_user_top();
        }
        let bottom = VirtPageNum(last_end).addr().0 + PAGE_SIZE;
        let top = bottom + USER_STACK_SIZE;
        let stack = MapArea::new(
            VirtAddr(bottom),
            VirtAddr(top),
            MapType::Alloc,
            MapPermission::R().union(MapPermission::W()).union(MapPermission::U()),
        );
        let ghost t0 = self.table;
        let ghost m0 = *mem;
        proof {
            assert(stack.range.start.0 == stack_start(segs@));
            assert(stack.range.end.0 == stack_start(segs@) + 2);
            assert((2u8 | 4u8 | 16u8) == 22u8) by (bit_vector);
            assert(stack.permission.bits == 22u8);
            assert forall|v: int|
                stack.range.start.0 <= v < stack.range.end.0 implies #[trigger] leaf(*mem, root, v).is_none() by {
                assert(vpn_key(v) == v);
                assert forall|k: int| 0 <= k < segs@.len() && #[trigger] segs@[k].is_load implies !(seg_start(segs@[k]) <= v
                    < seg_end(segs@[k])) by {
                    assert(seg_placed(segs@[k], data@.len() as int, *env, stack_start(segs@)));
                }
                lemma_not_in_loaded(segs@, segs@.len() as int, v);
            }
        }
        self.push(stack, None, mem);
        proof {
            lemma_stack_step(t0, m0, self.table, *mem, self.areas@.last(), data@, segs@, *env);
        }
        top
    }

    /// Maps the stack above the loaded segments and the context pages, with
    /// a context that enters `entry` in mode `mode` with the stack pointer
    /// at the top of the stack.
    #[verifier::rlimit(90)]
    fn finish_user(&mut self, mem: &mut PhysMemory, mode: SPP, entry: u64, last_end: usize, data: &[u8], segs: &Vec<Segment>, env: &UserEnv)
        requires
            user_layout_ok(data@.len() as int, segs@, *env),
            last_end == last_load_end(segs@, segs@.len() as int),
            old(self).table.wf(&*old(mem)),
            old(mem).free_frames() >= 12,
            user_inv(old(self).table, *old(mem), data@, segs@, *env, segs@.len() as int),
        ensures
            final(self).table.wf(&*final(mem)),
            final(self).table.root == old(self).table.root,
            forall|k: int|
                0 <= k < segs@.len() && #[trigger] segs@[k].is_load ==> segment_loaded(
                    final(self).table,
                    *final(mem),
                    data@,
                    segs@[k],
                ),
            forall|v: int|
                tramp_start(*env) <= v < tramp_end(*env) ==> #[trigger] leaf(
                    *final(mem),
                    final(self).table.root.0 as int,
                    v,
                ) == Some(spec_pte(v, 11u8)),
            forall|v: int|
                stack_start(segs@) <= v < stack_start(segs@) + 2 ==> #[trigger] stack_page(
                    final(self).table,
                    *final(mem),
                    v,
                ),
            forall|v: int|
                v >= 0 && #[trigger] leaf(*final(mem), final(self).table.root.0 as int, v).is_some() ==> user_page(
                    segs@,
                    *env,
                    vpn_key(v),
                ),
            context_at(*final(mem), final(self).table.root.0 as int) == Context::spec_init(
                mode,
                entry as usize,
                ((8u64 << 60u64) | (final(self).table.root.0 as u64)) as usize,
                ((stack_start(segs@) + 2) * 4096) as usize,
                env.kernel_satp,
                0,
                env.trap_handler,
            ),
            context_in_page(*final(mem), final(self).table, (CONTEXT / PAGE_SIZE) as int - 1) == context_at(
                *final(mem),
                final(self).table.root.0 as int,
            ),
    {
        let ghost root = self.table.root.0 as int;
        let top = self.push_stack(mem, last_end, data, segs, env);
        let ghost t1 = self.table;
        let ghost m1 = *mem;
        proof {
            super::kernel::lemma_context_keys();
        }
        let satp = self.satp_bits();
        let cx = Context::init_context(mode, entry as usize, satp as usize, top, env.kernel_satp, 0, env.trap_handler);
        self.push_context_pages(mem, &cx);
        proof {
            lemma_final_step(t1, m1, self.table, *mem, data@, segs@, *env);
            assert forall|v: int| stack_start(segs@) <= v < stack_start(segs@) + 2 implies #[trigger] stack_page(self.table, *mem, v) by {
                assert(leaf(*mem, root, v) == leaf(m1, root, v));
                lemma_stack_page_kept(t1, m1, self.table, *mem, v);
            }
            assert forall|v: int| tramp_start(*env) <= v < tramp_end(*env) implies #[trigger] leaf(*mem, root, v) == Some(spec_pte(v, 11u8)) by {
                assert(leaf(*mem, root, v) == leaf(m1, root, v));
            }
            lemma_user_top();
            assert forall|v: int| v >= 0 && #[trigger] leaf(*mem, root, v).is_some() implies user_page(segs@, *env, vpn_key(v)) by {
                if vpn_key(v) != vpn_key((CONTEXT / PAGE_SIZE) as int - 1) && vpn_key(v) != vpn_key((CONTEXT / PAGE_SIZE) as int) {
                    assert(leaf(*mem, root, v) == leaf(m1, root, v));
                }
            }
        }
    }

    /// Maps the trampoline to itself with read and execute rights.
    #[verifier::rlimit(90)]
    fn push_trampoline(&mut self, mem: &mut PhysMemory, data: &[u8], segs: &Vec<Segment>, env: &UserEnv)
        requires
            user_layout_ok(data@.len() as int, segs@, *env),
            old(self).table.wf(&*old(mem)),
            nothing_mapped(*old(mem), old(self).table.root.0 as int),
            old(mem).free_frames() >= 3 * (tramp_end(*env) - tramp_start(*env)),
        ensures
            final(self).table.wf(&*final(mem)),
            final(self).table.root == old(self).table.root,
            final(mem).free_frames() >= old(mem).free_frames() - 3 * (tramp_end(*env) - tramp_start(*env)),
            user_inv(final(self).table, *final(mem), data@, segs@, *env, 0),
    {
        let ghost root = self.table.root.0 as int;
        let tramp = MapArea::new(
            VirtAddr(env.sasm),
            VirtAddr(env.easm),
            MapType::Identical,
            MapPermission::R().union(MapPermission::X()),
        );
        proof {
            assert((2u8 | 8u8) == 10u8 && (10u8 | 1u8) == 11u8) by (bit_vector);
            assert(tramp.range.start.0 == tramp_start(*env));
            assert(tramp.range.end.0 == tramp_end(*env));
            assert(tramp_start(*env) <= tramp_end(*env)) by (nonlinear_arith)
                requires
                    tramp_start(*env) == env.sasm / 4096,
                    tramp_end(*env) == (env.easm + 4095) / 4096,
                    env.sasm <= env.easm,
            ;
        }
        let ghost t0 = self.table;
        let ghost m0 = *mem;
        proof {
            assert forall|v: int|
                tramp.range.start.0 <= v < tramp.range.end.0 implies #[trigger] leaf(*mem, root, v).is_none() by {
                reveal(nothing_mapped);
            }
        }
        self.push(tramp, None, mem);
        proof {
            lemma_tramp_step(t0, m0, self.table, *mem, self.areas@.last(), data@, segs@, *env);
        }
    }

    /// The address space of a user program whose file is `data`, with entry
    /// point `entry` and program headers `segs`: the trampoline mapped to
    /// itself, each loadable segment on fresh frames holding its bytes, a
    /// two-page stack one guard page above the last segment, and the
    /// context pages holding a context that enters `entry` in mode `mode`
    /// with the stack pointer at the top of the stack.
    #[verifier::rlimit(100)]
    pub fn build_user(
        mem: &mut PhysMemory,
        mode: SPP,
        data: &[u8],
        entry: u64,
        segs: &Vec<Segment>,
        env: &UserEnv,
    ) -> (r: MemorySet)
        requires
            old(mem).wf(),
            user_layout_ok(data@.len() as int, segs@, *env),
            old(mem).free_frames() >= frames_needed(segs@, *env),
        ensures
            user_space_built(r.table, *final(mem), mode, entry, data@, segs@, *env),
    {
        let n = segs.len();
        proof {
            lemma_load_pages_mono(segs@, 0, n as int);
        }
        let mut set = MemorySet::new(mem);
        let ghost root = set.table.root.0 as int;
        proof {
            reveal(nothing_mapped);
        }
        set.push_trampoline(mem, data, segs, env);
        let mut last_end: usize = 0;
        let mut i: usize = 0;
        while i < n
            invariant
                n == segs@.len(),
                i <= n,
                user_layout_ok(data@.len() as int, segs@, *env),
                set.table.wf(mem),
                set.table.root.0 == root,
                last_end == last_load_end(segs@, i as int),
                mem.free_frames() >= 3 * (load_pages(segs@, n as int) - load_pages(segs@, i as int)) + 12,
                user_inv(set.table, *mem, data@, segs@, *env, i as int),
            decreases n - i,
        {
            proof {
                lemma_load_pages_mono(segs@, i + 1, n as int);
            }
            if segs[i].is_load {
                proof {
                    lemma_seg_low(data@.len() as int, segs@, *env, i as int);
                }
                set.load_segment(mem, data, segs, env, i);
                last_end = VirtAddr(segs[i].virtual_addr as usize + segs[i].mem_size as usize).ceil().0;
            }
            i = i + 1;
        }
        set.finish_user(mem, mode, entry, last_end, data, segs, env);
        proof {
            reveal(user_space_built);
        }
        set
    }
}

} // verus!
