//! What holds of the allocator whatever is asked of it.

use crate::allocator::first_fit::Allocator;
use crate::allocator::pool::{AllocError, PoolState};
use crate::allocator::runs::{
    absorb, ends_at, fits, holds, lemma_first_index, lemma_first_index_found,
    lemma_first_index_none, lemma_remainder, lemma_run_within_total, lemma_total_one, remainder,
    run_ending_at, separated, starts_at, total, Run,
};
use crate::allocator::util::{frames_for, PGSIZE};
use vstd::prelude::*;

verus! {

impl PoolState {
    /// A pool that has just been given its frames is well formed, and all
    /// its frames are free.
    pub proof fn lemma_fresh_wf(table_base: usize, frame_count: usize, phys_base: usize)
        requires
            frame_count >= 1,
            phys_base + frame_count * PGSIZE <= usize::MAX,
        ensures
            PoolState::fresh(table_base, frame_count, phys_base).wf(),
            PoolState::fresh(table_base, frame_count, phys_base).initialized(),
            PoolState::fresh(table_base, frame_count, phys_base).free_count == frame_count,
    {
        lemma_total_one(Run { start: 0, len: frame_count as int });
    }

    /// Every operation leaves a well-formed pool well formed: after it the
    /// free runs are again non-empty, inside the pool and maximal, and
    /// their lengths again add up to the free-frame count.
    pub proof fn lemma_operations_keep_wf(self, addr: usize, size: usize, align: usize)
        requires
            self.wf(),
        ensures
            self.after_alloc(size, align).wf(),
            self.after_alloc_at(addr, size, align).wf(),
            self.can_dealloc(addr, size) ==> self.after_dealloc(addr, size).wf(),
    {
        let n = frames_for(size as int);
        match self.alloc_choice(size, align) {
            Some(k) => {
                lemma_first_index(self.runs, fits(n));
                assert(0 <= self.runs[k].start);
                self.lemma_take_wf(k, self.runs[k].start, n);
            },
            None => {},
        }
        match self.alloc_at_choice(addr, size, align) {
            Some(k) => {
                let frame = self.frame_of(addr as int).unwrap();
                lemma_first_index(self.runs, holds(frame));
                self.lemma_take_wf(k, frame, n);
            },
            None => {},
        }
        if self.can_dealloc(addr, size) {
            self.lemma_give_wf(self.frame_of(addr as int).unwrap(), n);
        }
    }

    /// No operation changes the number of frames of the pool or where they
    /// lie.
    pub proof fn lemma_operations_keep_frames(self, addr: usize, size: usize, align: usize)
        ensures
            self.after_alloc(size, align).frame_count == self.frame_count,
            self.after_alloc_at(addr, size, align).frame_count == self.frame_count,
            self.after_dealloc(addr, size).frame_count == self.frame_count,
            self.after_alloc(size, align).base_phys_addr == self.base_phys_addr,
            self.after_alloc_at(addr, size, align).base_phys_addr == self.base_phys_addr,
            self.after_dealloc(addr, size).base_phys_addr == self.base_phys_addr,
    {
    }

    /// A failed request changes nothing.
    pub proof fn lemma_failure_changes_nothing(self, addr: usize, size: usize, align: usize)
        ensures
            self.alloc_result(size, align) is Err ==> self.after_alloc(size, align) == self,
            self.alloc_at_result(addr, size, align) is Err ==> self.after_alloc_at(
                addr,
                size,
                align,
            ) == self,
    {
    }

    /// A request for more frames than are free fails as exhausted, whatever
    /// the runs are, and so does every request that no single run can hold.
    pub proof fn lemma_exhausted(self, size: usize, align: usize)
        requires
            self.wf(),
            self.supports(size as int, align as int),
        ensures
            frames_for(size as int) > self.free_count ==> self.alloc_result(size, align) == Err::<
                usize,
                AllocError,
            >(AllocError::Exhausted),
            self.alloc_result(size, align) == Err::<usize, AllocError>(AllocError::Exhausted)
                <==> forall|i: int|
                0 <= i < self.runs.len() ==> (#[trigger] self.runs[i]).len < frames_for(
                    size as int,
                ),
    {
        let n = frames_for(size as int);
        lemma_first_index(self.runs, fits(n));
        if n > self.free_count {
            assert forall|i: int| 0 <= i < self.runs.len() implies (#[trigger] self.runs[i]).len
                < n by {
                lemma_run_within_total(self.runs, i);
            }
        }
        if self.alloc_result(size, align) is Ok {
            let k = self.alloc_choice(size, align).unwrap();
            assert(self.runs[k].len >= n);
        }
    }

    /// The block that `allocate` delivers is the front of the first run in
    /// list order that is large enough: every run before it is too small.
    pub proof fn lemma_first_fit(self, size: usize, align: usize)
        requires
            self.alloc_result(size, align) is Ok,
        ensures
            ({
                let k = self.alloc_choice(size, align).unwrap();
                let n = frames_for(size as int);
                &&& 0 <= k < self.runs.len()
                &&& self.runs[k].len >= n
                &&& forall|j: int| 0 <= j < k ==> (#[trigger] self.runs[j]).len < n
                &&& self.alloc_result(size, align).unwrap() == self.frame_addr(self.runs[k].start)
                    as usize
            }),
    {
        lemma_first_index(self.runs, fits(frames_for(size as int)));
    }

    /// After a block is given back, all its frames lie in one free run: the
    /// block has been joined to the free runs that it touched.
    pub proof fn lemma_dealloc_coalesces(self, addr: usize, size: usize)
        requires
            self.wf(),
            self.can_dealloc(addr, size),
        ensures
            self.after_dealloc(addr, size).wf(),
            self.after_dealloc(addr, size).free_count == self.free_count + frames_for(size as int),
            exists|i: int|
                0 <= i < self.after_dealloc(addr, size).runs.len() && (
                #[trigger] self.after_dealloc(addr, size).runs[i]).covers(
                    self.frame_of(addr as int).unwrap(),
                    frames_for(size as int),
                ),
    {
        let frame = self.frame_of(addr as int).unwrap();
        let n = frames_for(size as int);
        let after = self.after_dealloc(addr, size);
        self.lemma_give_wf(frame, n);
        let (rest, block) = absorb(self.runs, frame, n);
        lemma_first_index(self.runs, starts_at(frame + n));
        lemma_first_index(rest, ends_at(frame));
        assert(block.covers(frame, n));
        match run_ending_at(rest, frame) {
            Some(j) => {
                assert(after.runs[j].covers(frame, n));
            },
            None => {
                assert(after.runs[0] == block);
                assert(after.runs[0].covers(frame, n));
            },
        }
    }

    /// A frame's address leads back to the frame.
    pub proof fn lemma_frame_of_addr(self, frame: int)
        requires
            self.wf(),
            0 <= frame < self.frame_count,
        ensures
            0 <= self.frame_addr(frame) <= usize::MAX,
            self.frame_of(self.frame_addr(frame)) == Some(frame),
    {
    }

    /// Allocation, then giving the same block back at once, restores the
    /// free frames: the run that the block came from is whole again, now at
    /// the front of the list, and the other runs are as they were. A pool
    /// with one free run is exactly as before.
    pub proof fn lemma_alloc_then_dealloc(self, size: usize, align: usize)
        requires
            self.wf(),
            self.alloc_result(size, align) is Ok,
        ensures
            ({
                let addr = self.alloc_result(size, align).unwrap();
                let k = self.alloc_choice(size, align).unwrap();
                let back = self.after_alloc(size, align).after_dealloc(addr, size);
                &&& self.after_alloc(size, align).frame_of(addr as int) == Some(
                    self.runs[k].start,
                )
                &&& self.after_alloc(size, align).can_dealloc(addr, size)
                &&& back.free_count == self.free_count
                &&& back.runs == seq![self.runs[k]] + self.runs.remove(k)
                &&& self.runs.len() == 1 ==> back == self
            }),
    {
        let n = frames_for(size as int);
        let k = self.alloc_choice(size, align).unwrap();
        let run = self.runs[k];
        let taken = self.after_alloc(size, align);
        lemma_first_index(self.runs, fits(n));
        assert(0 <= run.start && run.len >= 1 && run.end() <= self.frame_count);
        self.lemma_frame_of_addr(run.start);
        self.lemma_take_wf(k, run.start, n);
        lemma_remainder(run, run.start, n);
        let rest = self.runs.remove(k);
        assert forall|i: int| 0 <= i < self.runs.len() && i != k implies separated(
            #[trigger] self.runs[i],
            run,
        ) by {
            assert(separated(self.runs[i], self.runs[k]));
        }
        // The run after the block is what was left of the run, if anything was.
        if n < run.len {
            let left = Run { start: run.start + n, len: run.len - n };
            assert(taken.runs =~= self.runs.update(k, left));
            assert forall|j: int| 0 <= j < k implies !(starts_at(run.start + n))(
                #[trigger] taken.runs[j],
            ) by {
                assert(separated(self.runs[j], run));
            }
            lemma_first_index_found(taken.runs, starts_at(run.start + n), k);
            assert(taken.runs.remove(k) =~= rest);
        } else {
            assert(taken.runs =~= rest);
            assert forall|j: int| 0 <= j < taken.runs.len() implies !(starts_at(run.start + n))(
                #[trigger] taken.runs[j],
            ) by {
                let o = if j < k { j } else { j + 1 };
                assert(taken.runs[j] == self.runs[o]);
                assert(separated(self.runs[o], run));
            }
            lemma_first_index_none(taken.runs, starts_at(run.start + n));
        }
        // No run ends where the block starts.
        assert forall|j: int| 0 <= j < rest.len() implies !(ends_at(run.start))(
            #[trigger] rest[j],
        ) by {
            let o = if j < k { j } else { j + 1 };
            assert(rest[j] == self.runs[o]);
            assert(separated(self.runs[o], run));
        }
        lemma_first_index_none(rest, ends_at(run.start));
        if self.runs.len() == 1 {
            assert(seq![run] + rest =~= self.runs);
        }
    }

    /// Allocation at an address splits the run that holds the block into
    /// the frames before the block, the block, and the frames after it:
    /// the two parts left over take the run's place in the list, and their
    /// lengths and the size of the block add up to the length of the run.
    pub proof fn lemma_alloc_at_splits(self, addr: usize, size: usize, align: usize)
        requires
            self.wf(),
            self.alloc_at_result(addr, size, align) is Ok,
        ensures
            ({
                let k = self.alloc_at_choice(addr, size, align).unwrap();
                let frame = self.frame_of(addr as int).unwrap();
                let n = frames_for(size as int);
                let run = self.runs[k];
                let left = remainder(run, frame, n);
                let after = self.after_alloc_at(addr, size, align);
                &&& 0 <= k < self.runs.len()
                &&& run.covers(frame, n)
                &&& after.runs == self.runs.subrange(0, k) + left + self.runs.subrange(
                    k + 1,
                    self.runs.len() as int,
                )
                &&& total(left) + n == run.len
                &&& after.free_count + n == self.free_count
                &&& after.can_dealloc(addr, size)
                &&& left.len() == (if run.start < frame { 1int } else { 0 }) + (if frame + n
                    < run.end() { 1int } else { 0 })
                &&& run.start < frame ==> left[0] == (Run {
                    start: run.start,
                    len: frame - run.start,
                })
                &&& frame + n < run.end() ==> left.last() == (Run {
                    start: frame + n,
                    len: run.end() - (frame + n),
                })
            }),
    {
        let k = self.alloc_at_choice(addr, size, align).unwrap();
        let frame = self.frame_of(addr as int).unwrap();
        let n = frames_for(size as int);
        lemma_first_index(self.runs, holds(frame));
        lemma_remainder(self.runs[k], frame, n);
        self.lemma_take_wf(k, frame, n);
    }
}

impl Allocator {
    /// Between any two operations the run lengths recorded in the heads of
    /// the free list add up to the free-frame count, and the free frames
    /// are never more than the frames that the allocator was given.
    pub proof fn lemma_free_count(&self)
        requires
            self.inv(),
        ensures
            total(self@.runs) == self@.free_count,
            forall|i: int|
                0 <= i < self@.runs.len() ==> self.frames()[(#[trigger] self@.runs[i]).start].head()
                    && self.frames()[self@.runs[i].start].property == self@.runs[i].len,
            0 <= self@.free_count <= self@.frame_count,
    {
        self.lemma_inv();
        self@.lemma_free_count_bounded();
        assert forall|i: int| 0 <= i < self@.runs.len() implies self.frames()[(
        #[trigger] self@.runs[i]).start].head() by {
            assert(0 <= self@.runs[i].start && self@.runs[i].end() <= self@.frame_count);
        }
    }
}

} // verus!
