//! The allocator's state as a mathematical value, and what each operation
//! does to it.

use crate::allocator::runs::{
    carve, first_fit, lemma_carve, lemma_carve_within, lemma_release, lemma_separated_disjoint,
    lemma_total_bounded, release, run_containing, runs_in_range, runs_separated, total, Run,
};
use crate::allocator::util::{frames_for, PGSIZE};
use vstd::prelude::*;

verus! {

/// Why a request for frames failed.
#[derive(Clone, Copy, Debug, PartialEq, Eq, Structural)]
pub enum AllocError {
    /// No free run is large enough, or the frames asked for are not all free.
    Exhausted,
    /// The request cannot be met at page granularity.
    Unsupported,
}

/// The state of a frame pool.
pub ghost struct PoolState {
    /// Address of the metadata table.
    pub base_table_addr: usize,
    /// Physical address of frame 0.
    pub base_phys_addr: usize,
    /// Number of frames under management; zero until the pool is set up.
    pub frame_count: int,
    /// Number of free frames.
    pub free_count: int,
    /// The free list in traversal order.
    pub runs: Seq<Run>,
}

impl PoolState {
    /// Well-formedness: the runs are non-empty, inside the pool and maximal,
    /// their lengths add up to `free_count`, and every frame has an address.
    pub open spec fn wf(self) -> bool {
        &&& 0 <= self.frame_count
        &&& self.base_phys_addr + self.frame_count * PGSIZE <= usize::MAX
        &&& runs_in_range(self.runs, self.frame_count)
        &&& runs_separated(self.runs)
        &&& total(self.runs) == self.free_count
    }

    /// Whether the pool has been given its frames.
    pub open spec fn initialized(self) -> bool {
        self.frame_count > 0
    }

    /// A pool that has not been given any frames yet.
    pub open spec fn empty() -> PoolState {
        PoolState {
            base_table_addr: 0,
            base_phys_addr: 0,
            frame_count: 0,
            free_count: 0,
            runs: Seq::empty(),
        }
    }

    /// A pool of `frame_count` frames, all free and in one run.
    pub open spec fn fresh(table_base: usize, frame_count: usize, phys_base: usize) -> PoolState {
        PoolState {
            base_table_addr: table_base,
            base_phys_addr: phys_base,
            frame_count: frame_count as int,
            free_count: frame_count as int,
            runs: seq![Run { start: 0, len: frame_count as int }],
        }
    }

    /// Physical address of frame `frame`.
    pub open spec fn frame_addr(self, frame: int) -> int {
        self.base_phys_addr + frame * PGSIZE
    }

    /// The frame that starts at physical address `addr`, if one does.
    pub open spec fn frame_of(self, addr: int) -> Option<int> {
        let offset = addr - self.base_phys_addr;
        if offset >= 0 && offset % (PGSIZE as int) == 0 && offset / (PGSIZE as int)
            < self.frame_count {
            Some(offset / (PGSIZE as int))
        } else {
            None
        }
    }

    /// Whether a request of `size` bytes aligned to `align` can be met at
    /// page granularity: the size is not zero, and every frame address is a
    /// multiple of `align`.
    pub open spec fn supports(self, size: int, align: int) -> bool {
        &&& size > 0
        &&& align > 0
        &&& (PGSIZE as int) % align == 0
        &&& (self.base_phys_addr as int) % align == 0
    }

    /// Whether the `n` frames from `frame` on are frames of the pool and
    /// none of them is free.
    pub open spec fn allocated(self, frame: int, n: int) -> bool {
        &&& n >= 1
        &&& 0 <= frame
        &&& frame + n <= self.frame_count
        &&& forall|i: int| 0 <= i < self.runs.len() ==> (#[trigger] self.runs[i]).misses(frame, n)
    }

    /// Whether frame `frame` is a frame of the pool that is not free.
    pub open spec fn busy(self, frame: int) -> bool {
        self.allocated(frame, 1)
    }

    /// The pool after the `n` frames from `frame` on are taken out of run `k`.
    pub open spec fn take(self, k: int, frame: int, n: int) -> PoolState {
        PoolState {
            free_count: self.free_count - n,
            runs: carve(self.runs, k, frame, n),
            ..self
        }
    }

    /// The pool after the `n` frames from `frame` on are given back.
    pub open spec fn give(self, frame: int, n: int) -> PoolState {
        PoolState { free_count: self.free_count + n, runs: release(self.runs, frame, n), ..self }
    }

    /// The run that a request of `size` bytes is served from, by first fit.
    pub open spec fn alloc_choice(self, size: usize, align: usize) -> Option<int> {
        if self.supports(size as int, align as int) {
            first_fit(self.runs, frames_for(size as int))
        } else {
            None
        }
    }

    /// What `allocate` returns.
    pub open spec fn alloc_result(self, size: usize, align: usize) -> Result<usize, AllocError> {
        if !self.supports(size as int, align as int) {
            Err(AllocError::Unsupported)
        } else {
            match self.alloc_choice(size, align) {
                Some(k) => Ok(self.frame_addr(self.runs[k].start) as usize),
                None => Err(AllocError::Exhausted),
            }
        }
    }

    /// The pool after `allocate`.
    pub open spec fn after_alloc(self, size: usize, align: usize) -> PoolState {
        match self.alloc_choice(size, align) {
            Some(k) => self.take(k, self.runs[k].start, frames_for(size as int)),
            None => self,
        }
    }

    /// The run that a request of `size` bytes at address `addr` is served
    /// from: the one that holds the frame at `addr` and all that follow it
    /// in the request.
    pub open spec fn alloc_at_choice(self, addr: usize, size: usize, align: usize) -> Option<int> {
        if self.supports(size as int, align as int) && self.frame_of(addr as int) is Some {
            let frame = self.frame_of(addr as int).unwrap();
            match run_containing(self.runs, frame) {
                Some(k) => if self.runs[k].covers(frame, frames_for(size as int)) {
                    Some(k)
                } else {
                    None
                },
                None => None,
            }
        } else {
            None
        }
    }

    /// What `alloc_at` returns.
    pub open spec fn alloc_at_result(self, addr: usize, size: usize, align: usize) -> Result<
        usize,
        AllocError,
    > {
        if !self.supports(size as int, align as int) || self.frame_of(addr as int) is None {
            Err(AllocError::Unsupported)
        } else if self.alloc_at_choice(addr, size, align) is Some {
            Ok(addr)
        } else {
            Err(AllocError::Exhausted)
        }
    }

    /// The pool after `alloc_at`.
    pub open spec fn after_alloc_at(self, addr: usize, size: usize, align: usize) -> PoolState {
        match self.alloc_at_choice(addr, size, align) {
            Some(k) => self.take(
                k,
                self.frame_of(addr as int).unwrap(),
                frames_for(size as int),
            ),
            None => self,
        }
    }

    /// Whether `size` bytes at address `addr` can be given back: the
    /// address is that of a frame, the size is not zero, and none of the
    /// frames is free.
    pub open spec fn can_dealloc(self, addr: usize, size: usize) -> bool {
        &&& self.frame_of(addr as int) is Some
        &&& self.allocated(self.frame_of(addr as int).unwrap(), frames_for(size as int))
    }

    /// The pool after `dealloc`.
    pub open spec fn after_dealloc(self, addr: usize, size: usize) -> PoolState {
        self.give(self.frame_of(addr as int).unwrap(), frames_for(size as int))
    }

    /// Taking a block out of a run that covers it keeps the pool well formed.
    pub proof fn lemma_take_wf(self, k: int, frame: int, n: int)
        requires
            self.wf(),
            0 <= k < self.runs.len(),
            n >= 1,
            self.runs[k].covers(frame, n),
        ensures
            self.take(k, frame, n).wf(),
            self.take(k, frame, n).allocated(frame, n),
    {
        lemma_carve(self.runs, self.frame_count, k, frame, n);
        assert(0 <= self.runs[k].start);
    }

    /// A frame that is not free is not free either after a block is taken
    /// out of a run.
    pub proof fn lemma_take_keeps_busy(self, k: int, frame: int, n: int, f: int)
        requires
            0 <= k < self.runs.len(),
            n >= 1,
            self.runs[k].covers(frame, n),
            self.busy(f),
        ensures
            self.take(k, frame, n).busy(f),
    {
        let out = self.take(k, frame, n).runs;
        lemma_carve_within(self.runs, k, frame, n);
        assert forall|i: int| 0 <= i < out.len() implies (#[trigger] out[i]).misses(f, 1) by {
            let o = choose|o: int|
                0 <= o < self.runs.len() && (#[trigger] self.runs[o]).start <= out[i].start
                    && out[i].end() <= self.runs[o].end();
            assert(self.runs[o].misses(f, 1));
        }
    }

    /// Giving back an allocated block keeps the pool well formed.
    pub proof fn lemma_give_wf(self, frame: int, n: int)
        requires
            self.wf(),
            self.allocated(frame, n),
        ensures
            self.give(frame, n).wf(),
    {
        lemma_release(self.runs, self.frame_count, frame, n);
    }

    /// The free frames of a well-formed pool are never more than its frames.
    pub proof fn lemma_free_count_bounded(self)
        requires
            self.wf(),
        ensures
            0 <= self.free_count <= self.frame_count,
    {
        lemma_separated_disjoint(self.runs);
        lemma_total_bounded(self.runs, self.frame_count);
    }

    /// An allocated block and the free frames together are never more than
    /// the frames of the pool.
    pub proof fn lemma_allocated_bounded(self, frame: int, n: int)
        requires
            self.wf(),
            self.allocated(frame, n),
        ensures
            self.free_count + n <= self.frame_count,
    {
        self.lemma_give_wf(frame, n);
        self.give(frame, n).lemma_free_count_bounded();
    }
}

} // verus!
