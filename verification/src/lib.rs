//! Verified core logic of a small ARM kernel: the physical page-frame
//! allocator and the pure decision logic of its closest collaborators.

pub mod allocator;
pub mod timer;
pub mod traps;
