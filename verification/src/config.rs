use vstd::prelude::*;

verus! {

/// Size of a page (and of a physical frame) in bytes.
pub const PAGE_SIZE: usize = 4096;

/// log2 of `PAGE_SIZE`.
pub const PAGE_SIZE_BITS: usize = 12;

/// Size of the kernel heap.
pub const KERNEL_HEAP_SIZE: usize = 0x30_0000;

/// End of the physical memory that the kernel manages.
pub const MEMORY_END: usize = 0x80800000;

/// Size of a user stack.
pub const USER_STACK_SIZE: usize = 8192;

/// Virtual address of the page that holds a task's saved context
/// (the last page of the address space).
pub const CONTEXT: usize = usize::MAX - PAGE_SIZE + 1;

/// Virtual address of the page just below `CONTEXT`.
pub const SUB_CONTEXT: usize = CONTEXT - PAGE_SIZE;

/// Timer frequency of the platform.
pub const CLOCK_FREQ: usize = 12500000;

/// Base address of the virtio MMIO window.
pub const MMIO_BASE: usize = 0x10001000;

/// Size of the virtio MMIO window.
pub const MMIO_SIZE: usize = 0x1000;

} // verus!
