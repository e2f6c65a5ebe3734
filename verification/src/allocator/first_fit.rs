//! The allocator core: a table of frame records, the free-run list threaded
//! through it, and the first-fit operations on both.

use crate::allocator::linked_list::{lemma_index_of, next_in, prev_in, same_links, LinkedList};
use crate::allocator::page::{Page, PG_PROPERTY};
use crate::allocator::pool::{AllocError, PoolState};
use crate::allocator::runs::{
    absorb, attach, ends_at, first_index, fits, holds, is_first, lemma_first_index,
    lemma_first_index_found, lemma_first_index_none, lemma_run_within_total,
    lemma_total_one, runs_in_range, runs_separated, starts_at, total, touches, Run,
};
use crate::allocator::table::{
    heads_after_take, kept_clear, lemma_table_busy, lemma_table_extend, lemma_table_ok_links,
    lemma_table_property, lemma_table_push, lemma_table_take, lemma_tail_unlisted, run_at,
    runs_of, same_records_outside, table_after_take, table_ok,
};
use crate::allocator::util::{frames_for, size_to_frames, PGSIZE};
use vstd::prelude::*;

verus! {

/// A first-fit allocator of physical page frames.
///
/// It owns the metadata table of the frames it manages. Frames are named by
/// their index in the table; frame `i` stands for the page at physical
/// address `base_phys_addr + i * PGSIZE`.
pub struct Allocator {
    free_list: LinkedList,
    n_free: usize,
    base_page: usize,
    base_paddr: usize,
    pages: Vec<Page>,
}

/// Whether every frame that is allocated in the state `earlier`, with the
/// table `a`, and still allocated in the state `later`, with the table `b`,
/// has kept its flags and its reference count.
pub open spec fn busy_records_kept(
    earlier: PoolState,
    a: Seq<Page>,
    later: PoolState,
    b: Seq<Page>,
) -> bool {
    forall|f: int|
        earlier.busy(f) && later.busy(f) ==> (#[trigger] b[f]).flags == a[f].flags && b[f].ref_count
            == a[f].ref_count
}

/// What the search loop looks for in the free list.
enum Query {
    /// A run of at least so many frames.
    Fit(usize),
    /// The run that starts at a frame.
    StartsAt(usize),
    /// The run that ends just before a frame.
    EndsAt(usize),
    /// The run that holds a frame.
    Holds(usize),
    /// A run that shares a frame with the frames from the first of the two
    /// up to the second.
    Touches(usize, usize),
}

impl Query {
    /// The runs that answer the query.
    spec fn pred(self) -> spec_fn(Run) -> bool {
        match self {
            Query::Fit(n) => fits(n as int),
            Query::StartsAt(frame) => starts_at(frame as int),
            Query::EndsAt(frame) => ends_at(frame as int),
            Query::Holds(frame) => holds(frame as int),
            Query::Touches(frame, end) => touches(frame as int, end as int),
        }
    }

    /// Whether the run of `len` frames from `start` on answers the query.
    fn admits(&self, start: usize, len: usize) -> (b: bool)
        requires
            start + len <= usize::MAX,
        ensures
            b == (self.pred())(Run { start: start as int, len: len as int }),
    {
        match self {
            Query::Fit(n) => len >= *n,
            Query::StartsAt(frame) => start == *frame,
            Query::EndsAt(frame) => start <= *frame && *frame - start == len,
            Query::Holds(frame) => start <= *frame && *frame - start < len,
            Query::Touches(frame, end) => !(start + len <= *frame || *end <= start),
        }
    }
}

impl View for Allocator {
    type V = PoolState;

    closed spec fn view(&self) -> PoolState {
        PoolState {
            base_table_addr: self.base_page,
            base_phys_addr: self.base_paddr,
            frame_count: self.pages@.len() as int,
            free_count: self.n_free as int,
            runs: runs_of(self.pages@, self.free_list@),
        }
    }
}

impl Allocator {
    /// The metadata table: one record per frame.
    pub closed spec fn frames(&self) -> Seq<Page> {
        self.pages@
    }

    /// The heads of the free runs in list order.
    spec fn order(&self) -> Seq<usize> {
        self.free_list@
    }

    /// The free runs in list order.
    spec fn runs(&self) -> Seq<Run> {
        runs_of(self.pages@, self.free_list@)
    }

    /// Everything that holds of the table and the list between any two
    /// steps of an operation: the list is sound, the run-head flag marks
    /// exactly the listed frames, the free runs are non-empty, inside the
    /// table and maximal, and free frames are kept clear.
    spec fn shape(&self) -> bool {
        &&& self.free_list.wf(self.pages@)
        &&& self.base_paddr + self.pages@.len() * PGSIZE <= usize::MAX
        &&& table_ok(self.pages@, self.order())
    }

    /// The invariant of the allocator: the table and the free list agree,
    /// and the free runs add up to the free-frame count.
    pub closed spec fn inv(&self) -> bool {
        &&& self.shape()
        &&& total(self.runs()) == self.n_free
    }

    /// The invariant makes the state well formed, ties the run-head flag,
    /// the run length and the link of each record to the free runs, and
    /// keeps the records of free frames clear: a frame is flagged as a head
    /// exactly when a free run starts at it; a head records the length of
    /// its run and is linked to the head of the next run in the list; no
    /// other frame is linked.
    pub proof fn lemma_inv(&self)
        requires
            self.inv(),
        ensures
            self@.wf(),
            self.frames().len() == self@.frame_count,
            forall|f: int|
                0 <= f < self.frames().len() ==> ((#[trigger] self.frames()[f]).head() <==> exists|
                    i: int,
                | 0 <= i < self@.runs.len() && (#[trigger] self@.runs[i]).start == f),
            forall|i: int|
                0 <= i < self@.runs.len() ==> self.frames()[(
                #[trigger] self@.runs[i]).start].property == self@.runs[i].len,
            forall|i: int, f: int|
                #![trigger self@.runs[i], self.frames()[f]]
                0 <= i < self@.runs.len() && self@.runs[i].contains(f) ==> kept_clear(
                    self.frames()[f],
                    f == self@.runs[i].start,
                ),
            forall|i: int|
                0 <= i < self@.runs.len() ==> self.frames()[(#[trigger] self@.runs[i]).start].link
                    == (if i + 1 < self@.runs.len() {
                    Some(self@.runs[i + 1].start as usize)
                } else {
                    None
                }),
            forall|f: int|
                0 <= f < self.frames().len() && !(#[trigger] self.frames()[f]).head()
                    ==> self.frames()[f].link is None,
    {
        assert forall|i: int| 0 <= i < self@.runs.len() implies self.frames()[(
        #[trigger] self@.runs[i]).start].link == (if i + 1 < self@.runs.len() {
            Some(self@.runs[i + 1].start as usize)
        } else {
            None
        }) by {
            assert(self.pages@[self.order()[i] as int].link == next_in(self.order(), i));
        }
        assert forall|f: int|
            0 <= f < self.frames().len() && !(#[trigger] self.frames()[f]).head()
            implies self.frames()[f].link is None by {
            let g = f as usize;
            assert(self.pages@[g as int].head() <==> self.order().contains(g));
        }
        assert forall|f: int| 0 <= f < self.frames().len() implies ((
        #[trigger] self.frames()[f]).head() <==> exists|i: int|
            0 <= i < self@.runs.len() && (#[trigger] self@.runs[i]).start == f) by {
            let g = f as usize;
            assert(self.pages@[g as int].head() <==> self.order().contains(g));
            if self.order().contains(g) {
                let i = self.order().index_of(g);
                assert(self@.runs[i].start == f);
            }
            if exists|i: int| 0 <= i < self@.runs.len() && (#[trigger] self@.runs[i]).start == f {
                let i = choose|i: int|
                    0 <= i < self@.runs.len() && (#[trigger] self@.runs[i]).start == f;
                assert(self.order()[i] == g);
            }
        }
    }

    /// An allocator that manages no frame yet.
    pub fn new() -> (allocator: Allocator)
        ensures
            allocator.inv(),
            allocator@ == PoolState::empty(),
    {
        let allocator = Allocator {
            free_list: LinkedList::new(),
            n_free: 0,
            base_page: 0,
            base_paddr: 0,
            pages: Vec::new(),
        };
        assert(allocator@.runs =~= Seq::<Run>::empty());
        allocator
    }

    /// Whether the allocator has been given its frames.
    pub fn is_initialized(&self) -> (b: bool)
        ensures
            b == self@.initialized(),
    {
        self.pages.len() > 0
    }

    /// Number of frames under management.
    pub fn frame_count(&self) -> (n: usize)
        ensures
            n == self@.frame_count,
    {
        self.pages.len()
    }

    /// Number of free frames.
    pub fn free_count(&self) -> (n: usize)
        ensures
            n == self@.free_count,
    {
        self.n_free
    }

    /// Address of the metadata table, as recorded at set-up.
    pub fn base_table_addr(&self) -> (addr: usize)
        ensures
            addr == self@.base_table_addr,
    {
        self.base_page
    }

    /// Physical address of frame 0.
    pub fn base_phys_addr(&self) -> (addr: usize)
        ensures
            addr == self@.base_phys_addr,
    {
        self.base_paddr
    }

    /// The record of frame `frame`.
    pub fn page(&self, frame: usize) -> (page: Page)
        requires
            frame < self@.frame_count,
        ensures
            page == self.frames()[frame as int],
    {
        self.pages[frame]
    }

    /// Walks the free list in order and stops at the first run that answers
    /// `query`. Returns that run's head, the head before it in the list, and
    /// the position of the run.
    fn find(&self, query: Query) -> (found: (Option<usize>, Option<usize>, Ghost<int>))
        requires
            self.shape(),
        ensures
            match found.0 {
                Some(node) => {
                    &&& is_first(self.runs(), query.pred(), found.2@)
                    &&& self.order()[found.2@] == node
                    &&& found.1 == prev_in(self.order(), found.2@)
                },
                None => first_index(self.runs(), query.pred()) is None,
            },
    {
        let mut previous: Option<usize> = None;
        let mut current: Option<usize> = self.free_list.peek();
        let ghost mut k: int = 0;
        while current.is_some()
            invariant
                self.shape(),
                0 <= k <= self.order().len(),
                current == next_in(self.order(), k - 1),
                previous == prev_in(self.order(), k),
                forall|j: int| 0 <= j < k ==> !(query.pred())(#[trigger] self.runs()[j]),
            ensures
                match current {
                    Some(node) => {
                        &&& is_first(self.runs(), query.pred(), k)
                        &&& self.order()[k] == node
                        &&& previous == prev_in(self.order(), k)
                    },
                    None => forall|j: int|
                        0 <= j < self.runs().len() ==> !(query.pred())(#[trigger] self.runs()[j]),
                },
            decreases self.order().len() - k,
        {
            let node = current.unwrap();
            proof {
                lemma_index_of(self.order(), k);
                assert(self.runs()[k] == run_at(self.pages@, node));
                assert(0 <= self.runs()[k].start && self.runs()[k].end() <= self.pages@.len());
            }
            if query.admits(node, self.pages[node].property) {
                break ;
            }
            previous = current;
            current = self.free_list.next(&self.pages, node);
            proof {
                k = k + 1;
            }
        }
        proof {
            if current is None {
                lemma_first_index_none(self.runs(), query.pred());
            }
        }
        (current, previous, Ghost(k))
    }

    /// Whether a request of `size` bytes aligned to `align` can be met at
    /// page granularity.
    pub fn supports(&self, size: usize, align: usize) -> (b: bool)
        ensures
            b == self@.supports(size as int, align as int),
    {
        size > 0 && align > 0 && PGSIZE % align == 0 && self.base_paddr % align == 0
    }

    /// Physical address of frame `frame`.
    pub fn frame_address(&self, frame: usize) -> (addr: usize)
        requires
            self.inv(),
            frame < self@.frame_count,
        ensures
            addr == self@.frame_addr(frame as int),
            self@.frame_of(addr as int) == Some(frame as int),
    {
        self.base_paddr + frame * PGSIZE
    }

    /// The frame that starts at physical address `addr`, if `addr` is the
    /// address of a frame of the pool.
    pub fn frame_index(&self, addr: usize) -> (frame: Option<usize>)
        ensures
            match frame {
                Some(f) => self@.frame_of(addr as int) == Some(f as int),
                None => self@.frame_of(addr as int) is None,
            },
    {
        if addr < self.base_paddr {
            return None;
        }
        let offset: usize = addr - self.base_paddr;
        if offset % PGSIZE != 0 {
            return None;
        }
        let frame: usize = offset / PGSIZE;
        if frame >= self.pages.len() {
            return None;
        }
        Some(frame)
    }

    /// Takes the `n` frames from `frame` on out of the free run whose head
    /// is `node`, the run at position `k` of the list. What is left of the
    /// run before and after the block stays on the list in its place.
    fn take(
        &mut self,
        node: usize,
        previous: Option<usize>,
        frame: usize,
        n: usize,
        Ghost(k): Ghost<int>,
    )
        requires
            old(self).inv(),
            0 <= k < old(self).order().len(),
            old(self).order()[k] == node,
            previous == prev_in(old(self).order(), k),
            n >= 1,
            old(self).runs()[k].covers(frame as int, n as int),
        ensures
            final(self).inv(),
            final(self)@ == old(self)@.take(k, frame as int, n as int),
            forall|f: int|
                frame <= f < frame + n ==> kept_clear(#[trigger] final(self).frames()[f], false),
            same_records_outside(
                old(self).pages@,
                final(self).pages@,
                old(self).runs()[k].start,
                old(self).runs()[k].end(),
            ),
    {
        let ghost order = self.order();
        let ghost before = self.pages@;
        proof {
            lemma_index_of(order, k);
            assert(self.runs()[k] == run_at(before, node));
            assert(0 <= self.runs()[k].start && self.runs()[k].len >= 1 && self.runs()[k].end()
                <= before.len());
            assert(kept_clear(before[node as int], true)) by {
                assert(self.runs()[k].contains(node as int));
            }
            lemma_run_within_total(self.runs(), k);
        }
        let length: usize = self.pages[node].property;
        let front: usize = frame - node;
        let back: usize = length - front - n;
        if back > 0 {
            let tail: usize = frame + n;
            proof {
                lemma_tail_unlisted(before, order, k, frame as int, n as int);
            }
            self.pages[tail].property = back;
            self.pages[tail].mark_head();
        }
        if front > 0 {
            self.pages[node].property = front;
        } else {
            self.pages[node].unmark_head();
        }
        let ghost edited = self.pages@;
        proof {
            assert(same_links(before, edited));
            self.free_list.lemma_wf_same_links(before, edited);
            assert(table_after_take(before, edited, order, k, frame as int, n as int));
            lemma_table_take(before, edited, order, k, frame as int, n as int);
        }
        if back > 0 {
            if front > 0 {
                self.free_list.insert_after(&mut self.pages, node, frame + n);
            } else {
                self.free_list.replace(&mut self.pages, node, previous, frame + n);
            }
        } else if front == 0 {
            self.free_list.remove(&mut self.pages, node, previous);
        }
        self.n_free = self.n_free - n;
        proof {
            assert(self.order() == heads_after_take(before, order, k, frame as int, n as int));
            lemma_table_ok_links(edited, self.pages@, self.order());
            old(self)@.lemma_take_wf(k, frame as int, n as int);
        }
    }

    /// Allocates `size` bytes aligned to `align`, rounded up to whole
    /// frames, from the first free run in list order that is large enough,
    /// and returns the physical address of the first frame.
    ///
    /// The frames come from the front of the chosen run; what is left of
    /// the run takes its place in the list. The records of the frames
    /// delivered are clear. On failure nothing changes.
    pub fn allocate(&mut self, size: usize, align: usize) -> (r: Result<usize, AllocError>)
        requires
            old(self).inv(),
            old(self)@.initialized(),
        ensures
            final(self).inv(),
            r == old(self)@.alloc_result(size, align),
            final(self)@ == old(self)@.after_alloc(size, align),
            final(self).frames().len() == old(self).frames().len(),
            r matches Ok(addr) ==> forall|f: int|
                old(self)@.frame_of(addr as int).unwrap() <= f < old(self)@.frame_of(
                    addr as int,
                ).unwrap() + frames_for(size as int) ==> kept_clear(
                    #[trigger] final(self).frames()[f],
                    false,
                ),
            r is Err ==> final(self).frames() == old(self).frames(),
            busy_records_kept(old(self)@, old(self).frames(), final(self)@, final(self).frames()),
    {
        if !self.supports(size, align) {
            return Err(AllocError::Unsupported);
        }
        let n: usize = size_to_frames(size);
        if n > self.n_free {
            proof {
                assert forall|j: int| 0 <= j < self.runs().len() implies !(fits(n as int))(
                    #[trigger] self.runs()[j],
                ) by {
                    lemma_run_within_total(self.runs(), j);
                }
                lemma_first_index_none(self.runs(), fits(n as int));
            }
            return Err(AllocError::Exhausted);
        }
        let (found, previous, Ghost(k)) = self.find(Query::Fit(n));
        match found {
            None => Err(AllocError::Exhausted),
            Some(node) => {
                proof {
                    lemma_first_index_found(self.runs(), fits(n as int), k);
                    assert(self.runs()[k] == run_at(self.pages@, node));
                    assert(0 <= self.runs()[k].start && self.runs()[k].end() <= self.pages@.len());
                }
                self.take(node, previous, node, n, Ghost(k));
                proof {
                    assert forall|f: int| old(self)@.busy(f) implies !old(self).runs()[k].contains(
                        f,
                    ) by {
                        assert(old(self)@.runs[k].misses(f, 1));
                    }
                }
                Ok(self.base_paddr + node * PGSIZE)
            },
        }
    }

    /// Allocates `size` bytes aligned to `align`, rounded up to whole
    /// frames, starting exactly at physical address `addr`.
    ///
    /// The frames are taken out of the free run that holds them all. What
    /// is left of that run before the block and after it stays on the list
    /// in the run's place, the part before first. The records of the frames
    /// delivered are clear. On failure nothing changes.
    pub fn alloc_at(&mut self, addr: usize, size: usize, align: usize) -> (r: Result<
        usize,
        AllocError,
    >)
        requires
            old(self).inv(),
            old(self)@.initialized(),
        ensures
            final(self).inv(),
            r == old(self)@.alloc_at_result(addr, size, align),
            final(self)@ == old(self)@.after_alloc_at(addr, size, align),
            final(self).frames().len() == old(self).frames().len(),
            r is Ok ==> forall|f: int|
                old(self)@.frame_of(addr as int).unwrap() <= f < old(self)@.frame_of(
                    addr as int,
                ).unwrap() + frames_for(size as int) ==> kept_clear(
                    #[trigger] final(self).frames()[f],
                    false,
                ),
            r is Err ==> final(self).frames() == old(self).frames(),
            busy_records_kept(old(self)@, old(self).frames(), final(self)@, final(self).frames()),
    {
        if !self.supports(size, align) {
            return Err(AllocError::Unsupported);
        }
        let frame: usize = match self.frame_index(addr) {
            Some(frame) => frame,
            None => {
                return Err(AllocError::Unsupported);
            },
        };
        let n: usize = size_to_frames(size);
        proof {
            lemma_first_index(self.runs(), holds(frame as int));
        }
        if n > self.n_free {
            proof {
                assert forall|j: int| 0 <= j < self.runs().len() implies !(
                #[trigger] self.runs()[j]).covers(frame as int, n as int) by {
                    lemma_run_within_total(self.runs(), j);
                }
            }
            return Err(AllocError::Exhausted);
        }
        let (found, previous, Ghost(k)) = self.find(Query::Holds(frame));
        match found {
            None => Err(AllocError::Exhausted),
            Some(node) => {
                proof {
                    lemma_first_index_found(self.runs(), holds(frame as int), k);
                    assert(self.runs()[k] == run_at(self.pages@, node));
                }
                let length: usize = self.pages[node].property;
                if n > length - (frame - node) {
                    return Err(AllocError::Exhausted);
                }
                self.take(node, previous, frame, n, Ghost(k));
                proof {
                    assert forall|f: int| old(self)@.busy(f) implies !old(self).runs()[k].contains(
                        f,
                    ) by {
                        assert(old(self)@.runs[k].misses(f, 1));
                    }
                }
                Ok(addr)
            },
        }
    }

    /// Forward merge. If a free run starts right after the `n` frames from
    /// `frame` on, takes it off the list and clears its head. Returns the
    /// length of the block with that run joined to it.
    fn absorb_next(&mut self, frame: usize, n: usize) -> (length: usize)
        requires
            old(self).shape(),
            n >= 1,
            frame + n <= old(self).pages@.len(),
            forall|i: int|
                0 <= i < old(self).runs().len() ==> (#[trigger] old(self).runs()[i]).misses(
                    frame as int,
                    n as int,
                ),
            forall|f: int|
                frame <= f < frame + n ==> kept_clear(#[trigger] old(self).pages@[f], false),
        ensures
            final(self).shape(),
            final(self).runs() == absorb(old(self).runs(), frame as int, n as int).0,
            absorb(old(self).runs(), frame as int, n as int).1 == (Run {
                start: frame as int,
                len: length as int,
            }),
            length >= n,
            frame + length <= final(self).pages@.len(),
            forall|f: int|
                frame <= f < frame + length ==> kept_clear(#[trigger] final(self).pages@[f], false),
            same_records_outside(
                old(self).pages@,
                final(self).pages@,
                frame + n,
                frame + length,
            ),
            final(self).n_free == old(self).n_free,
            final(self).base_page == old(self).base_page,
            final(self).base_paddr == old(self).base_paddr,
    {
        let ghost order = self.order();
        let ghost before = self.pages@;
        let ghost runs = self.runs();
        let (found, previous, Ghost(k)) = self.find(Query::StartsAt(frame + n));
        match found {
            None => n,
            Some(next) => {
                proof {
                    lemma_first_index_found(runs, starts_at(frame + n), k);
                    lemma_index_of(order, k);
                    assert(runs[k] == run_at(before, next));
                    assert(0 <= runs[k].start && runs[k].len >= 1 && runs[k].end() <= before.len());
                    assert(kept_clear(before[next as int], true)) by {
                        assert(runs[k].contains(next as int));
                    }
                }
                let length: usize = n + self.pages[next].property;
                self.pages[next].unmark_head();
                let ghost edited = self.pages@;
                proof {
                    assert(same_links(before, edited));
                    self.free_list.lemma_wf_same_links(before, edited);
                    assert(table_after_take(
                        before,
                        edited,
                        order,
                        k,
                        next as int,
                        runs[k].len,
                    ));
                    lemma_table_take(before, edited, order, k, next as int, runs[k].len);
                }
                self.free_list.remove(&mut self.pages, next, previous);
                proof {
                    assert(self.order() == heads_after_take(
                        before,
                        order,
                        k,
                        next as int,
                        runs[k].len,
                    ));
                    lemma_table_ok_links(edited, self.pages@, self.order());
                    assert(self.runs() =~= runs.remove(k));
                }
                length
            },
        }
    }

    /// Backward merge. If a free run ends right before the block of
    /// `length` frames from `frame` on, joins the block to that run;
    /// otherwise makes `frame` a run head and puts it at the front of the
    /// list.
    fn attach_block(&mut self, frame: usize, length: usize)
        requires
            old(self).shape(),
            length >= 1,
            frame + length <= old(self).pages@.len(),
            forall|f: int|
                frame <= f < frame + length ==> kept_clear(#[trigger] old(self).pages@[f], false),
            runs_in_range(
                attach(old(self).runs(), Run { start: frame as int, len: length as int }),
                old(self).pages@.len() as int,
            ),
            runs_separated(
                attach(old(self).runs(), Run { start: frame as int, len: length as int }),
            ),
        ensures
            final(self).shape(),
            final(self).runs() == attach(
                old(self).runs(),
                Run { start: frame as int, len: length as int },
            ),
            same_records_outside(old(self).pages@, final(self).pages@, frame as int, frame + 1),
            final(self).n_free == old(self).n_free,
            final(self).base_page == old(self).base_page,
            final(self).base_paddr == old(self).base_paddr,
    {
        let ghost order = self.order();
        let ghost before = self.pages@;
        let ghost runs = self.runs();
        proof {
            assert(kept_clear(before[frame as int], false));
            assert(0u32 & 0x2u32 == 0) by (bit_vector);
            assert(before[frame as int].head() <==> order.contains(frame));
        }
        self.pages[frame].property = length;
        let ghost sized = self.pages@;
        proof {
            assert(same_links(before, sized));
            self.free_list.lemma_wf_same_links(before, sized);
            lemma_table_property(before, sized, order, frame);
        }
        let (found, _, Ghost(j)) = self.find(Query::EndsAt(frame));
        match found {
            Some(head) => {
                proof {
                    lemma_first_index_found(runs, ends_at(frame as int), j);
                    assert(runs[j] == run_at(sized, head));
                    let joined = runs.update(
                        j,
                        Run { start: runs[j].start, len: runs[j].len + length },
                    );
                    assert(joined[j].end() <= sized.len());
                }
                let longer: usize = self.pages[head].property + length;
                self.pages[head].property = longer;
                proof {
                    assert(same_links(sized, self.pages@));
                    self.free_list.lemma_wf_same_links(sized, self.pages@);
                    lemma_table_extend(sized, self.pages@, order, j, length as int);
                }
            },
            None => {
                self.pages[frame].mark_head();
                let ghost marked = self.pages@;
                proof {
                    assert(same_links(sized, marked));
                    self.free_list.lemma_wf_same_links(sized, marked);
                    lemma_table_push(sized, marked, order, frame, length as int);
                }
                self.free_list.push_front(&mut self.pages, frame);
                proof {
                    lemma_table_ok_links(marked, self.pages@, self.order());
                }
            },
        }
    }

    /// Gives back the `size` bytes at physical address `addr`, rounded up
    /// to whole frames.
    ///
    /// The records of the frames are cleared. The block is joined to the
    /// free run that starts right after it, which leaves the list, and to
    /// the free run that ends right before it, which stays where it is. A
    /// block with no free run before it goes to the front of the list.
    pub fn dealloc(&mut self, addr: usize, size: usize)
        requires
            old(self).inv(),
            old(self)@.initialized(),
            old(self)@.can_dealloc(addr, size),
        ensures
            final(self).inv(),
            final(self)@ == old(self)@.after_dealloc(addr, size),
            final(self).frames().len() == old(self).frames().len(),
            busy_records_kept(old(self)@, old(self).frames(), final(self)@, final(self).frames()),
    {
        let n: usize = size_to_frames(size);
        let frame: usize = (addr - self.base_paddr) / PGSIZE;
        let ghost order = self.order();
        let ghost before = self.pages@;
        let ghost runs = self.runs();
        let ghost list = self.free_list;
        proof {
            old(self)@.lemma_allocated_bounded(frame as int, n as int);
            old(self)@.lemma_give_wf(frame as int, n as int);
        }
        let mut i: usize = 0;
        while i < n
            invariant
                i <= n,
                frame + n <= before.len() <= usize::MAX,
                self.pages@.len() == before.len(),
                self.free_list == list,
                self.n_free == old(self).n_free,
                self.base_page == old(self).base_page,
                self.base_paddr == old(self).base_paddr,
                same_links(before, self.pages@),
                forall|f: int|
                    0 <= f < before.len() && !(frame <= f < frame + i) ==> (
                    #[trigger] self.pages@[f]).flags == before[f].flags && self.pages@[f].ref_count
                        == before[f].ref_count,
                forall|f: int|
                    0 <= f < before.len() ==> (#[trigger] self.pages@[f]).property
                        == before[f].property,
                forall|f: int|
                    frame <= f < frame + i ==> kept_clear(#[trigger] self.pages@[f], false),
            decreases n - i,
        {
            self.pages[frame + i].clear_flags();
            self.pages[frame + i].set_ref(0);
            i = i + 1;
        }
        proof {
            assert(0u32 & 0x2u32 == 0) by (bit_vector);
            self.free_list.lemma_wf_same_links(before, self.pages@);
            lemma_table_busy(before, self.pages@, order, frame as int, n as int);
        }
        let length: usize = self.absorb_next(frame, n);
        let ghost rest = self.runs();
        self.attach_block(frame, length);
        self.n_free = self.n_free + n;
        proof {
            // The block lies within one run of the new list, so none of its
            // frames is allocated any more.
            let block = Run { start: frame as int, len: length as int };
            lemma_first_index(rest, ends_at(frame as int));
            assert(exists|i: int|
                0 <= i < self@.runs.len() && (#[trigger] self@.runs[i]).covers(
                    frame as int,
                    length as int,
                )) by {
                match first_index(rest, ends_at(frame as int)) {
                    Some(j) => {
                        assert(self@.runs[j].covers(frame as int, length as int));
                    },
                    None => {
                        assert(self@.runs[0] == block);
                        assert(self@.runs[0].covers(frame as int, length as int));
                    },
                }
            }
            let i = choose|i: int|
                0 <= i < self@.runs.len() && (#[trigger] self@.runs[i]).covers(
                    frame as int,
                    length as int,
                );
            assert forall|f: int| self@.busy(f) implies !(frame <= f < frame + length) by {
                assert(self@.runs[i].misses(f, 1));
            }
        }
    }

    /// Gives the allocator its frames: `npage` frames, the first at physical
    /// address `begin`, described by a metadata table at address `base`.
    ///
    /// Every record is cleared. Frame 0 becomes the head of one free run of
    /// all the frames, which is the only run on the list.
    pub fn init_memmap(&mut self, base: usize, npage: usize, begin: usize)
        requires
            old(self).inv(),
            !old(self)@.initialized(),
            npage >= 1,
            begin + npage * PGSIZE <= usize::MAX,
        ensures
            final(self).inv(),
            final(self)@ == PoolState::fresh(base, npage, begin),
            final(self).frames().len() == npage,
            final(self).frames()[0] == (Page {
                flags: PG_PROPERTY,
                property: npage,
                ref_count: 0,
                link: None,
            }),
            forall|f: int| 1 <= f < npage ==> #[trigger] final(self).frames()[f] == Page::blank(),
    {
        proof {
            if self.order().len() > 0 {
                assert(self.runs()[0].len >= 1);
            }
            assert(self.runs() =~= Seq::<Run>::empty());
        }
        let ghost list = self.free_list;
        let mut i: usize = 0;
        while i < npage
            invariant
                i <= npage,
                self.pages@.len() == i,
                self.free_list == list,
                self.n_free == 0,
                forall|f: int| 0 <= f < i ==> #[trigger] self.pages@[f] == Page::blank(),
            decreases npage - i,
        {
            self.pages.push(Page::new());
            i = i + 1;
        }
        let ghost blank = self.pages@;
        proof {
            assert(0u32 & 0x2u32 == 0) by (bit_vector);
            assert(runs_of(blank, self.order()) =~= Seq::<Run>::empty());
            assert(table_ok(blank, self.order()));
            assert(self.free_list.wf(blank));
        }
        self.pages[0].property = npage;
        self.pages[0].mark_head();
        self.n_free = self.n_free + npage;
        self.base_page = base;
        self.base_paddr = begin;
        proof {
            let run = Run { start: 0, len: npage as int };
            assert(same_links(blank, self.pages@));
            self.free_list.lemma_wf_same_links(blank, self.pages@);
            assert(seq![run] + runs_of(blank, self.order()) =~= seq![run]);
            lemma_table_push(blank, self.pages@, self.order(), 0, npage as int);
            lemma_total_one(run);
        }
        let ghost marked = self.pages@;
        self.free_list.push_front(&mut self.pages, 0);
        proof {
            lemma_table_ok_links(marked, self.pages@, self.order());
            assert(self.order() =~= seq![0usize]);
            assert(self.runs() =~= seq![Run { start: 0, len: npage as int }]);
        }
    }

    /// The free runs in list order, each as the index of its first frame
    /// and its length in frames.
    pub fn free_runs(&self) -> (runs: Vec<(usize, usize)>)
        requires
            self.inv(),
        ensures
            runs@.len() == self@.runs.len(),
            forall|i: int|
                0 <= i < runs@.len() ==> (#[trigger] runs@[i]).0 == self@.runs[i].start
                    && runs@[i].1 == self@.runs[i].len,
    {
        let mut runs: Vec<(usize, usize)> = Vec::new();
        let mut current: Option<usize> = self.free_list.peek();
        let ghost mut k: int = 0;
        while current.is_some()
            invariant
                self.inv(),
                0 <= k <= self.order().len(),
                current == next_in(self.order(), k - 1),
                runs@.len() == k,
                forall|i: int|
                    0 <= i < k ==> (#[trigger] runs@[i]).0 == self.runs()[i].start && runs@[i].1
                        == self.runs()[i].len,
            decreases self.order().len() - k,
        {
            let node = current.unwrap();
            proof {
                lemma_index_of(self.order(), k);
                assert(self.runs()[k] == run_at(self.pages@, node));
            }
            runs.push((node, self.pages[node].property));
            current = self.free_list.next(&self.pages, node);
            proof {
                k = k + 1;
            }
        }
        runs
    }

    /// Whether `size` bytes at physical address `addr` can be given back:
    /// whether they are frames of the pool of which none is free.
    pub fn can_dealloc(&self, addr: usize, size: usize) -> (b: bool)
        requires
            self.inv(),
        ensures
            b == self@.can_dealloc(addr, size),
    {
        let frame: usize = match self.frame_index(addr) {
            Some(frame) => frame,
            None => {
                return false;
            },
        };
        let n: usize = size_to_frames(size);
        if n == 0 || n > self.pages.len() - frame {
            return false;
        }
        let (found, _, Ghost(k)) = self.find(Query::Touches(frame, frame + n));
        proof {
            let pred = touches(frame as int, frame + n);
            lemma_first_index(self.runs(), pred);
            assert(self@.runs == self.runs());
            if found is None {
                assert forall|i: int| 0 <= i < self@.runs.len() implies (
                #[trigger] self@.runs[i]).misses(frame as int, n as int) by {
                    assert(!pred(self.runs()[i]));
                }
            } else {
                assert(pred(self.runs()[k]));
                assert(!self@.runs[k].misses(frame as int, n as int));
            }
        }
        found.is_none()
    }

    /// Records `count` live references to frame `frame`, a frame that is
    /// not free.
    pub fn set_page_ref(&mut self, frame: usize, count: u32)
        requires
            old(self).inv(),
            old(self)@.allocated(frame as int, 1),
        ensures
            final(self).inv(),
            final(self)@ == old(self)@,
            final(self).frames() == old(self).frames().update(
                frame as int,
                Page { ref_count: count, ..old(self).frames()[frame as int] },
            ),
    {
        let ghost before = self.pages@;
        proof {
            assert(self@.runs == self.runs());
            assert(before[frame as int].head() <==> self.order().contains(frame));
            if self.order().contains(frame) {
                let i = self.order().index_of(frame);
                assert(self.runs()[i].misses(frame as int, 1));
                assert(self.runs()[i].len >= 1);
            }
        }
        self.pages[frame].set_ref(count);
        proof {
            assert(same_links(before, self.pages@));
            self.free_list.lemma_wf_same_links(before, self.pages@);
            lemma_table_busy(before, self.pages@, self.order(), frame as int, 1);
        }
    }
}

} // verus!
