//! Boot-time memory subsystem of a small Sv39 kernel: machine limits, the
//! physical page frame allocator with its sub-page heap, page table entries,
//! and three-level page tables with the kernel's identity map.

pub mod laws;
pub mod layout;
pub mod machine;
pub mod kalloc;
pub mod pte;
pub mod vm;

