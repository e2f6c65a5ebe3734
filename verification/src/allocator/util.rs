//! Address arithmetic at page granularity.

use vstd::prelude::*;

verus! {

/// Size of one page frame in bytes.
pub const PGSIZE: usize = 4096;

/// Number of whole frames needed to hold `size` bytes.
pub open spec fn frames_for(size: int) -> int {
    (size + PGSIZE - 1) / (PGSIZE as int)
}

/// Rounds a byte count up to whole frames.
pub fn size_to_frames(size: usize) -> (n: usize)
    ensures
        n == frames_for(size as int),
        n * PGSIZE >= size,
        size > 0 ==> n >= 1,
        size > 0 ==> (n - 1) * PGSIZE < size,
{
    let q: usize = size / PGSIZE;
    let r: usize = size % PGSIZE;
    if r == 0 {
        q
    } else {
        q + 1
    }
}

} // verus!
