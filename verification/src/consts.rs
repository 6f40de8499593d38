use vstd::prelude::*;

verus! {

/// One past the last byte of physical memory.
pub const PHYSICAL_MEMORY_END: u64 = 0x8800_0000;

/// Physical address at which the kernel image is loaded.
pub const KERNEL_BEGIN_PADDR: u64 = 0x8020_0000;

/// Virtual address at which the kernel image is linked.
pub const KERNEL_BEGIN_VADDR: u64 = 0xffff_ffff_c020_0000;

/// Largest amount of physical memory the kernel manages.
pub const MAX_PHYSICAL_MEMORY: usize = 0x800_0000;

/// Largest number of physical pages the frame allocators manage.
pub const MAX_PHYSICAL_PAGES: usize = 0x8000;

/// Size of the kernel heap.
pub const KERNEL_HEAP_SIZE: usize = 0x80_0000;

/// Difference between a kernel virtual address and the physical address it maps to.
pub const PHYSICAL_MEMORY_OFFSET: u64 = 0xffff_ffff_4000_0000;

/// Size of a page in bytes.
pub const PAGE_SIZE: u64 = 4096;

} // verus!
