//! Trap handling: what the kernel decides when a thread traps into it.

pub mod syscall;
