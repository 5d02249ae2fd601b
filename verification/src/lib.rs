//! Verified core of a small RV64 (Sv39) bare-metal kernel: a page-frame
//! allocator over a fixed heap region, a binary-buddy kernel heap, a
//! three-level page-table manager, a round-robin scheduler, and the
//! decision logic of the machine-mode trap dispatcher.
//!
//! Hardware state (CSRs, MMIO, raw memory) is modelled with plain values:
//! physical addresses and register contents are 64-bit words, page-table
//! pages are owned tree nodes, and the allocators manage explicit
//! descriptor vectors.

pub mod cpu;
pub mod kmem;
pub mod page;
pub mod process;
pub mod sched;
pub mod syscall;
pub mod trap;
pub mod sv39;
