//! System-call dispatch.
//!
//! The dispatcher decides which service a call number asks for and what
//! argument it carries. Performing the service is the caller's part.

use vstd::prelude::*;

verus! {

/// Call number of `sleep`.
pub const NR_SLEEP: u16 = 1;

/// Call number of `exec`.
pub const NR_EXEC: u16 = 2;

/// Call number of `print`.
pub const NR_PRINT: u16 = 3;

/// Call number of `fork`.
pub const NR_FORK: u16 = 4;

/// Call number of `exit`.
pub const NR_EXIT: u16 = 5;

/// Value left in `x7` when the call number names no service.
pub const ERR_NO_SYSCALL: u64 = 1;

/// Index of `x7` in `x1to29`.
pub const X7: usize = 6;

/// The registers of the trapping thread that dispatch reads and writes.
#[derive(Clone, Copy, Debug)]
pub struct TrapFrame {
    /// Register `x0`: the first argument of the call.
    pub x0: u64,
    /// Registers `x1` to `x29`; `x7` carries the error code back.
    pub x1to29: [u64; 29],
}

/// What the kernel has to do for a system call.
#[derive(Clone, Copy, Debug, PartialEq, Eq, Structural)]
pub enum Syscall {
    /// Put the caller to sleep for so many milliseconds.
    Sleep(u32),
    /// Replace the caller's image by the program with this number.
    Exec(u32),
    /// Print this value on the console.
    Print(u64),
    /// Fork the caller.
    Fork,
    /// End the caller.
    Exit,
    /// Nothing: the call number names no service.
    Unknown,
}

/// The low 32 bits of `value`.
pub open spec fn low_word(value: u64) -> u32 {
    (value % 0x1_0000_0000) as u32
}

/// The service that call number `num` with first argument `x0` asks for.
pub open spec fn decode(num: u16, x0: u64) -> Syscall {
    if num == NR_SLEEP {
        Syscall::Sleep(low_word(x0))
    } else if num == NR_EXEC {
        Syscall::Exec(low_word(x0))
    } else if num == NR_PRINT {
        Syscall::Print(x0)
    } else if num == NR_FORK {
        Syscall::Fork
    } else if num == NR_EXIT {
        Syscall::Exit
    } else {
        Syscall::Unknown
    }
}

/// Truncates a register value to its low 32 bits.
fn truncate(value: u64) -> (word: u32)
    ensures
        word == low_word(value),
{
    assert(value & 0xffff_ffff == value % 0x1_0000_0000) by (bit_vector);
    (value & 0xffff_ffff) as u32
}

/// Decides what system call `num` asks of the kernel, with the arguments
/// taken from the trap frame. A call number that names no service leaves
/// the error code in `x7`; any other leaves the trap frame as it is.
pub fn handle_syscall(num: u16, tf: &mut TrapFrame) -> (call: Syscall)
    ensures
        call == decode(num, old(tf).x0),
        final(tf).x0 == old(tf).x0,
        call is Unknown ==> final(tf).x1to29@ == old(tf).x1to29@.update(
            X7 as int,
            ERR_NO_SYSCALL,
        ),
        !(call is Unknown) ==> final(tf).x1to29 == old(tf).x1to29,
{
    if num == NR_SLEEP {
        Syscall::Sleep(truncate(tf.x0))
    } else if num == NR_EXEC {
        Syscall::Exec(truncate(tf.x0))
    } else if num == NR_PRINT {
        Syscall::Print(tf.x0)
    } else if num == NR_FORK {
        Syscall::Fork
    } else if num == NR_EXIT {
        Syscall::Exit
    } else {
        tf.x1to29[X7] = ERR_NO_SYSCALL;
        Syscall::Unknown
    }
}

} // verus!
