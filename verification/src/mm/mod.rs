//! Sv39 memory management: addresses, page-table entries, physical memory,
//! page tables and address spaces.

pub mod address;
pub mod pte;
pub mod memory;
pub mod table;
pub mod set;
pub mod kernel;
pub mod elf;
pub mod loader;
pub mod fork;
pub mod release;

pub use address::{PhysAddr, PhysPageNum, VPNRange, VirtAddr, VirtPageNum};
pub use pte::{PTEFlags, PageTableEntry};
pub use memory::{FrameTracker, PhysMemory};
pub use table::{Mode, PageTable};
pub use set::{MapArea, MapPermission, MapType, MemorySet};
