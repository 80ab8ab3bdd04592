//! A task: the address space that a program runs in.

use vstd::prelude::*;

use crate::config::{CONTEXT, PAGE_SIZE};
use crate::context::{Context, SPP, context_at, context_frame, get_context, set_context};
use crate::mm::elf::elf_header;
use crate::mm::loader::{UserEnv, elf_loadable, parsed_segments, user_space_built};
use crate::mm::memory::PhysMemory;
use crate::mm::fork::area_backed;
use crate::mm::set::{MapType, MemorySet, page_frame};
use crate::mm::table::{Mode, law_satp_names_root, leaf, walk};

verus! {

/// A program loaded into an address space of its own, and the `satp`
/// value that selects that space.
pub struct TaskUnit {
    pub satp: u64,
    pub mem_set: MemorySet,
}

impl TaskUnit {
    /// Loads the ELF file `elf_data` as a user program; `None` when it
    /// cannot be loaded.
    pub fn new(mem: &mut PhysMemory, elf_data: &[u8], env: &UserEnv) -> (r: Option<TaskUnit>)
        requires
            old(mem).wf(),
        ensures
            r.is_some() == elf_loadable(elf_data@, *env, old(mem).free_frames()),
            r matches Some(t) ==> t.satp == (8u64 << 60u64) | (t.mem_set.table.root.0 as u64),
            r matches Some(t) ==> user_space_built(
                t.mem_set.table,
                *final(mem),
                SPP::User,
                elf_header(elf_data@).unwrap().entry,
                elf_data@,
                parsed_segments(elf_data@),
                *env,
            ),
    {
        match MemorySet::from_elf(mem, SPP::User, elf_data, env) {
            Some(set) => {
                let satp = set.satp_bits();
                Some(TaskUnit { satp, mem_set: set })
            },
            None => None,
        }
    }
}

/// The page that holds a task's saved context.
pub open spec fn context_vpn() -> int {
    (CONTEXT / PAGE_SIZE) as int
}

/// Context `cx` as the child of a fork finds it: the call returns 0, and
/// the address space is the child's, selected by `satp`.
pub open spec fn forked_context(cx: Context, satp: u64) -> Context {
    Context { a0: 0, satp: satp as usize, ..cx }
}

/// The context page of the address space lies in an area of its own frames.
pub open spec fn context_in_alloc(set: MemorySet) -> bool {
    exists|i: int|
        0 <= i < set.areas@.len() && (#[trigger] set.areas@[i]).mtype == MapType::Alloc
            && set.areas@[i].range.start.0 <= context_vpn() < set.areas@[i].range.end.0
}

impl TaskUnit {
    /// The task can be forked: its address space can be copied, and its
    /// context page lies in an area of its own frames.
    pub open spec fn forkable(&self, m: PhysMemory) -> bool {
        &&& self.mem_set.cloneable(m)
        &&& context_in_alloc(self.mem_set)
    }

    /// A copy of the task in an address space of its own.
    pub fn clone(&self, mem: &mut PhysMemory) -> (r: TaskUnit)
        requires
            self.mem_set.cloneable(*old(mem)),
        ensures
            self.mem_set.copied(*old(mem), r.mem_set, *final(mem)),
            r.satp == (8u64 << 60u64) | (r.mem_set.table.root.0 as u64),
    {
        let mem_set = self.mem_set.clone(mem);
        TaskUnit { satp: mem_set.satp_bits(), mem_set }
    }

    /// Whether the task, whose table is well formed, can be forked.
    pub fn can_fork(&self, mem: &PhysMemory) -> (r: bool)
        requires
            self.mem_set.table.wf(mem),
        ensures
            r == self.forkable(*mem),
    {
        if !self.mem_set.can_clone(mem) {
            return false;
        }
        let k: usize = CONTEXT / PAGE_SIZE;
        let mut i: usize = 0;
        while i < self.mem_set.areas.len()
            invariant
                i <= self.mem_set.areas@.len(),
                k == context_vpn(),
                self.mem_set.cloneable(*mem),
                forall|j: int|
                    0 <= j < i ==> !((#[trigger] self.mem_set.areas@[j]).mtype == MapType::Alloc
                        && self.mem_set.areas@[j].range.start.0 <= context_vpn() < self.mem_set.areas@[j].range.end.0),
            decreases self.mem_set.areas@.len() - i,
        {
            let a = &self.mem_set.areas[i];
            if a.mtype == MapType::Alloc && a.range.start.0 <= k && k < a.range.end.0 {
                assert(self.mem_set.areas@[i as int].mtype == MapType::Alloc);
                return true;
            }
            i = i + 1;
        }
        false
    }

    /// The child of a fork: a copy of the task whose saved context is the
    /// parent's, except that the call returns 0 in it and it runs in the
    /// child's address space.  Only the child's context frame differs from
    /// the plain copy.
    pub fn fork(&self, mem: &mut PhysMemory) -> (r: TaskUnit)
        requires
            self.forkable(*old(mem)),
        ensures
            r.satp == (8u64 << 60u64) | (r.mem_set.table.root.0 as u64),
            r.mem_set.table.wf(&*final(mem)),
            context_at(*final(mem), r.mem_set.table.root.0 as int) == forked_context(
                context_at(*old(mem), self.mem_set.table.root.0 as int),
                r.satp,
            ),
            exists|mid: PhysMemory|
                {
                    &&& #[trigger] self.mem_set.copied(*old(mem), r.mem_set, mid)
                    &&& mid.same_except(&*final(mem), set![context_frame(mid, r.mem_set.table.root.0 as int)])
                    &&& final(mem).base == mid.base
                    &&& final(mem).current == mid.current
                    &&& final(mem).recycled@ == mid.recycled@
                },
    {
        let ghost m0 = *mem;
        let ghost kc = context_vpn();
        let child = self.clone(mem);
        let ghost m1 = *mem;
        proof {
            let pt = self.mem_set.table;
            let ct = child.mem_set.table;
            let i = choose|i: int|
                0 <= i < self.mem_set.areas@.len() && (#[trigger] self.mem_set.areas@[i]).mtype == MapType::Alloc
                    && self.mem_set.areas@[i].range.start.0 <= context_vpn() < self.mem_set.areas@[i].range.end.0;
            let a = self.mem_set.areas@[i];
            assert(crate::mm::fork::area_cloned(pt, m0, ct, m1, a));
            assert(area_backed(pt, m0, a));
            assert(leaf(m0, pt.root.0 as int, kc).is_some());
            assert(leaf(m1, ct.root.0 as int, kc).is_some());
            assert(context_frame(m0, pt.root.0 as int) == page_frame(m0, pt, kc));
            assert(context_frame(m1, ct.root.0 as int) == page_frame(m1, ct, kc));
            assert(m1.frame(page_frame(m1, ct, kc)) == m0.frame(page_frame(m0, pt, kc)));
            assert(context_at(m1, ct.root.0 as int) == context_at(m0, pt.root.0 as int));
            assert(m1.allocated(ct.root.0 as int));
            law_satp_names_root(Mode::Sv39, ct.root);
            assert(Mode::Sv39.spec_value() == 8u64);
            assert(walk(m1, ct.root.0 as int, kc) == leaf(m1, ct.root.0 as int, kc));
        }
        let mut cx = get_context(mem, child.satp);
        cx.a0 = 0;
        cx.satp = child.satp as usize;
        set_context(mem, &child.mem_set.table, &cx);
        proof {
            assert(cx == forked_context(context_at(m0, self.mem_set.table.root.0 as int), child.satp));
            assert(mem.current == m1.current);
        }
        child
    }
}

} // verus!
