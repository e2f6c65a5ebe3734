//! First-fit physical page-frame allocator.
//!
//! The allocator hands out runs of contiguous page frames and takes them
//! back, merging a returned block with the free runs next to it. This
//! module holds the page-granular service that the rest of the kernel
//! calls; the parts it is built from are in the modules below.

pub mod first_fit;
pub mod laws;
pub mod linked_list;
pub mod page;
pub mod pool;
pub mod runs;
pub mod table;
pub mod util;

use crate::allocator::first_fit::{busy_records_kept, Allocator};
use crate::allocator::pool::{AllocError, PoolState};
use crate::allocator::runs::{fits, lemma_first_index};
use crate::allocator::util::{frames_for, PGSIZE};
use vstd::prelude::*;

verus! {

impl PoolState {
    /// What `alloc_pages` returns: a request for more pages than a size can
    /// express is beyond any pool; any other is a request for that many
    /// bytes, page-aligned.
    pub open spec fn alloc_pages_result(self, npage: usize) -> Result<usize, AllocError> {
        if npage * PGSIZE > usize::MAX {
            Err(AllocError::Exhausted)
        } else {
            self.alloc_result((npage * PGSIZE) as usize, PGSIZE)
        }
    }

    /// The pool after `alloc_pages`.
    pub open spec fn after_alloc_pages(self, npage: usize) -> PoolState {
        if npage * PGSIZE > usize::MAX {
            self
        } else {
            self.after_alloc((npage * PGSIZE) as usize, PGSIZE)
        }
    }
}

impl Allocator {
    /// Allocates `npage` contiguous pages and returns the physical address
    /// of the first.
    pub fn alloc_pages(&mut self, npage: usize) -> (r: Result<usize, AllocError>)
        requires
            old(self).inv(),
            old(self)@.initialized(),
        ensures
            final(self).inv(),
            r == old(self)@.alloc_pages_result(npage),
            final(self)@ == old(self)@.after_alloc_pages(npage),
            final(self).frames().len() == old(self).frames().len(),
            busy_records_kept(old(self)@, old(self).frames(), final(self)@, final(self).frames()),
    {
        if npage > usize::MAX / PGSIZE {
            return Err(AllocError::Exhausted);
        }
        self.allocate(npage * PGSIZE, PGSIZE)
    }

    /// Gives back the `npage` pages at physical address `addr`.
    pub fn dealloc_pages(&mut self, addr: usize, npage: usize)
        requires
            old(self).inv(),
            old(self)@.initialized(),
            old(self)@.frame_of(addr as int) is Some,
            old(self)@.allocated(old(self)@.frame_of(addr as int).unwrap(), npage as int),
        ensures
            final(self).inv(),
            final(self)@ == old(self)@.give(
                old(self)@.frame_of(addr as int).unwrap(),
                npage as int,
            ),
            final(self).frames().len() == old(self).frames().len(),
            busy_records_kept(old(self)@, old(self).frames(), final(self)@, final(self).frames()),
    {
        proof {
            self.lemma_inv();
            assert(frames_for(npage * PGSIZE) == npage);
        }
        self.dealloc(addr, npage * PGSIZE);
    }

    /// Allocates one page and hands its physical address to `insert`, which
    /// maps the page and says whether it could. If it could not, the page
    /// is given back before the failure is reported, so that no page is
    /// lost.
    ///
    /// Returns the address of the page once it is mapped, the allocator's
    /// own error where no page could be had, and `Unsupported` where the
    /// page could not be mapped.
    pub fn pgdir_alloc_page<F: FnOnce(usize) -> bool>(&mut self, insert: F) -> (r: Result<
        usize,
        AllocError,
    >)
        requires
            old(self).inv(),
            old(self)@.initialized(),
            forall|addr: usize| insert.requires((addr,)),
        ensures
            final(self).inv(),
            final(self).frames().len() == old(self).frames().len(),
            busy_records_kept(old(self)@, old(self).frames(), final(self)@, final(self).frames()),
            match old(self)@.alloc_pages_result(1) {
                Err(e) => r == Err::<usize, AllocError>(e) && final(self)@ == old(self)@,
                Ok(addr) => {
                    ||| {
                        &&& insert.ensures((addr,), true)
                        &&& r == Ok::<usize, AllocError>(addr)
                        &&& final(self)@ == old(self)@.after_alloc_pages(1)
                    }
                    ||| {
                        &&& insert.ensures((addr,), false)
                        &&& r == Err::<usize, AllocError>(AllocError::Unsupported)
                        &&& final(self)@.free_count == old(self)@.free_count
                        &&& final(self)@ == old(self)@.after_alloc_pages(1).after_dealloc(
                            addr,
                            PGSIZE,
                        )
                    }
                },
            },
    {
        proof {
            self.lemma_inv();
        }
        match self.alloc_pages(1) {
            Err(e) => Err(e),
            Ok(addr) => {
                if insert(addr) {
                    Ok(addr)
                } else {
                    let ghost taken = self@;
                    proof {
                        let k = old(self)@.alloc_choice(PGSIZE, PGSIZE).unwrap();
                        let head = old(self)@.runs[k].start;
                        old(self)@.lemma_alloc_then_dealloc(PGSIZE, PGSIZE);
                        lemma_first_index(old(self)@.runs, fits(1));
                        assert forall|f: int| old(self)@.busy(f) implies taken.busy(f) by {
                            old(self)@.lemma_take_keeps_busy(k, head, 1, f);
                        }
                    }
                    self.dealloc(addr, PGSIZE);
                    Err(AllocError::Unsupported)
                }
            },
        }
    }
}

} // verus!
