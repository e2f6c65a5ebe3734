//! Free runs as mathematical values.
//!
//! A [`Run`] is an interval of frame numbers. The free list is a sequence of
//! runs in traversal order; everything the allocator promises is stated over
//! such sequences.

use vstd::prelude::*;
use vstd::set_lib::*;

verus! {

/// `len` contiguous free frames, the first of which is frame `start`.
pub ghost struct Run {
    pub start: int,
    pub len: int,
}

impl Run {
    /// The frame just past the run.
    pub open spec fn end(self) -> int {
        self.start + self.len
    }

    /// Whether `frame` lies in the run.
    pub open spec fn contains(self, frame: int) -> bool {
        self.start <= frame < self.end()
    }

    /// Whether the `n` frames from `frame` on all lie in the run.
    pub open spec fn covers(self, frame: int, n: int) -> bool {
        self.start <= frame && frame + n <= self.end()
    }

    /// Whether the run shares no frame with the `n` frames from `frame` on.
    pub open spec fn misses(self, frame: int, n: int) -> bool {
        self.end() <= frame || frame + n <= self.start
    }

    /// The set of frames in the run.
    pub open spec fn frames(self) -> Set<int> {
        set_int_range(self.start, self.end())
    }
}

/// Two runs with at least one frame between them: they neither overlap nor touch.
pub open spec fn separated(a: Run, b: Run) -> bool {
    a.end() < b.start || b.end() < a.start
}

/// Sum of the lengths of `runs`.
pub open spec fn total(runs: Seq<Run>) -> int
    decreases runs.len(),
{
    if runs.len() == 0 {
        0
    } else {
        runs[0].len + total(runs.drop_first())
    }
}

/// Every run is non-empty and lies within frames `0..frame_count`.
pub open spec fn runs_in_range(runs: Seq<Run>, frame_count: int) -> bool {
    forall|i: int|
        0 <= i < runs.len() ==> 0 <= (#[trigger] runs[i]).start && runs[i].len >= 1 && runs[i].end()
            <= frame_count
}

/// No two runs share a frame.
pub open spec fn runs_disjoint(runs: Seq<Run>) -> bool {
    forall|i: int, j: int|
        0 <= i < runs.len() && 0 <= j < runs.len() && i != j ==> (#[trigger] runs[i]).misses(
            (#[trigger] runs[j]).start,
            runs[j].len,
        )
}

/// Every run is maximal: no two runs overlap or touch.
pub open spec fn runs_separated(runs: Seq<Run>) -> bool {
    forall|i: int, j: int|
        0 <= i < runs.len() && 0 <= j < runs.len() && i != j ==> separated(
            #[trigger] runs[i],
            #[trigger] runs[j],
        )
}

/// Index of the first run in list order that satisfies `pred`.
pub open spec fn first_index(runs: Seq<Run>, pred: spec_fn(Run) -> bool) -> Option<int>
    decreases runs.len(),
{
    if runs.len() == 0 {
        None
    } else if pred(runs[0]) {
        Some(0)
    } else {
        match first_index(runs.drop_first(), pred) {
            Some(k) => Some(k + 1),
            None => None,
        }
    }
}

/// Whether `k` is the first index in `runs` whose run satisfies `pred`.
pub open spec fn is_first(runs: Seq<Run>, pred: spec_fn(Run) -> bool, k: int) -> bool {
    &&& 0 <= k < runs.len()
    &&& pred(runs[k])
    &&& forall|j: int| 0 <= j < k ==> !pred(#[trigger] runs[j])
}

/// The runs with at least `n` frames.
pub open spec fn fits(n: int) -> spec_fn(Run) -> bool {
    |r: Run| r.len >= n
}

/// The runs that start at `frame`.
pub open spec fn starts_at(frame: int) -> spec_fn(Run) -> bool {
    |r: Run| r.start == frame
}

/// The runs that end just before `frame`.
pub open spec fn ends_at(frame: int) -> spec_fn(Run) -> bool {
    |r: Run| r.end() == frame
}

/// The runs that hold `frame`.
pub open spec fn holds(frame: int) -> spec_fn(Run) -> bool {
    |r: Run| r.contains(frame)
}

/// The runs that share a frame with the frames from `frame` up to `end`.
pub open spec fn touches(frame: int, end: int) -> spec_fn(Run) -> bool {
    |r: Run| !r.misses(frame, end - frame)
}

/// First-fit selection: the first run in list order with at least `n` frames.
pub open spec fn first_fit(runs: Seq<Run>, n: int) -> Option<int> {
    first_index(runs, fits(n))
}

/// The run that starts at `frame`.
pub open spec fn run_starting_at(runs: Seq<Run>, frame: int) -> Option<int> {
    first_index(runs, starts_at(frame))
}

/// The run that ends just before `frame`.
pub open spec fn run_ending_at(runs: Seq<Run>, frame: int) -> Option<int> {
    first_index(runs, ends_at(frame))
}

/// The run that holds `frame`.
pub open spec fn run_containing(runs: Seq<Run>, frame: int) -> Option<int> {
    first_index(runs, holds(frame))
}

/// What is left of `run` once the `n` frames from `frame` on are taken out
/// of it: the part before them, then the part after them, each only if it
/// is not empty.
pub open spec fn remainder(run: Run, frame: int, n: int) -> Seq<Run> {
    let before = if run.start < frame {
        seq![Run { start: run.start, len: frame - run.start }]
    } else {
        Seq::<Run>::empty()
    };
    let after = if frame + n < run.end() {
        seq![Run { start: frame + n, len: run.end() - (frame + n) }]
    } else {
        Seq::<Run>::empty()
    };
    before + after
}

/// The list after the `n` frames from `frame` on are taken out of run `k`:
/// what remains of that run stands in its place.
pub open spec fn carve(runs: Seq<Run>, k: int, frame: int, n: int) -> Seq<Run> {
    runs.subrange(0, k) + remainder(runs[k], frame, n) + runs.subrange(k + 1, runs.len() as int)
}

/// First half of giving back the `n` frames from `frame` on: a run that
/// starts right after the block is taken off the list and joined to the
/// block. Returns the rest of the list and the block as it then stands.
pub open spec fn absorb(runs: Seq<Run>, frame: int, n: int) -> (Seq<Run>, Run) {
    match run_starting_at(runs, frame + n) {
        Some(k) => (runs.remove(k), Run { start: frame, len: n + runs[k].len }),
        None => (runs, Run { start: frame, len: n }),
    }
}

/// Second half of giving back a block: if a run of the list ends right
/// before the block, the block is joined to that run where it stands;
/// otherwise the block goes to the front of the list.
pub open spec fn attach(rest: Seq<Run>, block: Run) -> Seq<Run> {
    match run_ending_at(rest, block.start) {
        Some(j) => rest.update(j, Run { start: rest[j].start, len: rest[j].len + block.len }),
        None => seq![block] + rest,
    }
}

/// The list after the `n` frames from `frame` on are given back: the block
/// is joined to the free run after it and to the free run before it, where
/// there is one, and otherwise goes to the front of the list.
pub open spec fn release(runs: Seq<Run>, frame: int, n: int) -> Seq<Run> {
    attach(absorb(runs, frame, n).0, absorb(runs, frame, n).1)
}

/// `first_index` returns the first index that satisfies the predicate, and
/// `None` exactly when no run satisfies it.
pub proof fn lemma_first_index(runs: Seq<Run>, pred: spec_fn(Run) -> bool)
    ensures
        match first_index(runs, pred) {
            Some(k) => is_first(runs, pred, k),
            None => forall|j: int| 0 <= j < runs.len() ==> !pred(#[trigger] runs[j]),
        },
    decreases runs.len(),
{
    if runs.len() > 0 && !pred(runs[0]) {
        let rest = runs.drop_first();
        lemma_first_index(rest, pred);
        assert(forall|j: int| 0 <= j < rest.len() ==> rest[j] == runs[j + 1]);
        match first_index(rest, pred) {
            Some(k) => {
                assert forall|j: int| 0 <= j < k + 1 implies !pred(#[trigger] runs[j]) by {
                    if j > 0 {
                        assert(rest[j - 1] == runs[j]);
                    }
                }
            },
            None => {
                assert forall|j: int| 0 <= j < runs.len() implies !pred(#[trigger] runs[j]) by {
                    if j > 0 {
                        assert(rest[j - 1] == runs[j]);
                    }
                }
            },
        }
    }
}

/// An index that is the first to satisfy the predicate is what `first_index` returns.
pub proof fn lemma_first_index_found(runs: Seq<Run>, pred: spec_fn(Run) -> bool, k: int)
    requires
        is_first(runs, pred, k),
    ensures
        first_index(runs, pred) == Some(k),
{
    lemma_first_index(runs, pred);
}

/// Where no run satisfies the predicate, `first_index` returns `None`.
pub proof fn lemma_first_index_none(runs: Seq<Run>, pred: spec_fn(Run) -> bool)
    requires
        forall|j: int| 0 <= j < runs.len() ==> !pred(#[trigger] runs[j]),
    ensures
        first_index(runs, pred) is None,
{
    lemma_first_index(runs, pred);
}

/// The total of a concatenation is the sum of the totals.
pub proof fn lemma_total_concat(a: Seq<Run>, b: Seq<Run>)
    ensures
        total(a + b) == total(a) + total(b),
    decreases a.len(),
{
    if a.len() == 0 {
        assert(a + b =~= b);
    } else {
        assert((a + b).drop_first() =~= a.drop_first() + b);
        lemma_total_concat(a.drop_first(), b);
    }
}

/// The total of a one-run list is the length of the run.
pub proof fn lemma_total_one(r: Run)
    ensures
        total(seq![r]) == r.len,
{
    reveal_with_fuel(total, 2);
    assert(seq![r].drop_first() =~= Seq::<Run>::empty());
}

/// The total of a list is the total of what stands before index `k`, the
/// length of run `k`, and the total of what stands after it.
pub proof fn lemma_total_split(runs: Seq<Run>, k: int)
    requires
        0 <= k < runs.len(),
    ensures
        total(runs) == total(runs.subrange(0, k)) + runs[k].len + total(
            runs.subrange(k + 1, runs.len() as int),
        ),
{
    let a = runs.subrange(0, k);
    let b = runs.subrange(k + 1, runs.len() as int);
    assert(runs =~= a + seq![runs[k]] + b);
    lemma_total_concat(a + seq![runs[k]], b);
    lemma_total_concat(a, seq![runs[k]]);
    lemma_total_one(runs[k]);
}

/// No run is longer than the total.
pub proof fn lemma_run_within_total(runs: Seq<Run>, k: int)
    requires
        0 <= k < runs.len(),
        forall|i: int| 0 <= i < runs.len() ==> (#[trigger] runs[i]).len >= 0,
    ensures
        runs[k].len <= total(runs),
        total(runs) >= 0,
    decreases runs.len(),
{
    let rest = runs.drop_first();
    assert(forall|i: int| 0 <= i < rest.len() ==> rest[i] == runs[i + 1]);
    if rest.len() > 0 {
        lemma_run_within_total(rest, if k == 0 { 0 } else { k - 1 });
    } else {
        assert(total(rest) == 0);
    }
}

/// The set of frames that the runs of a list hold between them.
pub open spec fn frames_of(runs: Seq<Run>) -> Set<int>
    decreases runs.len(),
{
    if runs.len() == 0 {
        Set::empty()
    } else {
        runs[0].frames() + frames_of(runs.drop_first())
    }
}

/// A frame is in `frames_of` exactly when some run of the list contains it.
pub proof fn lemma_frames_of_contains(runs: Seq<Run>, frame: int)
    ensures
        frames_of(runs).contains(frame) <==> exists|i: int|
            0 <= i < runs.len() && (#[trigger] runs[i]).contains(frame),
    decreases runs.len(),
{
    if runs.len() > 0 {
        let rest = runs.drop_first();
        lemma_frames_of_contains(rest, frame);
        assert(forall|i: int| 0 <= i < rest.len() ==> rest[i] == runs[i + 1]);
        if frames_of(runs).contains(frame) {
            if runs[0].frames().contains(frame) {
                assert(runs[0].contains(frame));
            } else {
                let i = choose|i: int| 0 <= i < rest.len() && (#[trigger] rest[i]).contains(frame);
                assert(runs[i + 1].contains(frame));
            }
        }
        if exists|i: int| 0 <= i < runs.len() && (#[trigger] runs[i]).contains(frame) {
            let i = choose|i: int| 0 <= i < runs.len() && (#[trigger] runs[i]).contains(frame);
            if i > 0 {
                assert(rest[i - 1].contains(frame));
            }
        }
    }
}

/// Disjoint runs hold as many frames between them as their lengths add up to.
pub proof fn lemma_frames_of_len(runs: Seq<Run>)
    requires
        runs_disjoint(runs),
        forall|i: int| 0 <= i < runs.len() ==> (#[trigger] runs[i]).len >= 0,
    ensures
        frames_of(runs).finite(),
        frames_of(runs).len() == total(runs),
    decreases runs.len(),
{
    if runs.len() > 0 {
        let rest = runs.drop_first();
        assert(forall|i: int| 0 <= i < rest.len() ==> rest[i] == runs[i + 1]);
        assert(runs_disjoint(rest)) by {
            assert forall|i: int, j: int|
                0 <= i < rest.len() && 0 <= j < rest.len() && i != j implies (
            #[trigger] rest[i]).misses((#[trigger] rest[j]).start, rest[j].len) by {
                assert(runs[i + 1].misses(runs[j + 1].start, runs[j + 1].len));
            }
        }
        lemma_frames_of_len(rest);
        lemma_int_range(runs[0].start, runs[0].end());
        assert(runs[0].frames().disjoint(frames_of(rest))) by {
            assert forall|x: int| runs[0].frames().contains(x) implies !frames_of(rest).contains(
                x,
            ) by {
                lemma_frames_of_contains(rest, x);
                if frames_of(rest).contains(x) {
                    let i = choose|i: int|
                        0 <= i < rest.len() && (#[trigger] rest[i]).contains(x);
                    assert(runs[0].misses(runs[i + 1].start, runs[i + 1].len));
                }
            }
        }
        lemma_set_disjoint_lens(runs[0].frames(), frames_of(rest));
    }
}

/// Disjoint runs within frames `0..frame_count` add up to at most `frame_count` frames.
pub proof fn lemma_total_bounded(runs: Seq<Run>, frame_count: int)
    requires
        runs_in_range(runs, frame_count),
        runs_disjoint(runs),
        0 <= frame_count,
    ensures
        0 <= total(runs) <= frame_count,
{
    lemma_frames_of_len(runs);
    lemma_int_range(0, frame_count);
    assert(frames_of(runs).subset_of(set_int_range(0, frame_count))) by {
        assert forall|x: int| frames_of(runs).contains(x) implies set_int_range(
            0,
            frame_count,
        ).contains(x) by {
            lemma_frames_of_contains(runs, x);
        }
    }
    lemma_len_subset(frames_of(runs), set_int_range(0, frame_count));
}

/// Taking run `k` off the list lowers the total by its length.
pub proof fn lemma_total_remove(runs: Seq<Run>, k: int)
    requires
        0 <= k < runs.len(),
    ensures
        total(runs.remove(k)) == total(runs) - runs[k].len,
{
    lemma_total_split(runs, k);
    lemma_total_concat(runs.subrange(0, k), runs.subrange(k + 1, runs.len() as int));
}

/// Replacing run `k` changes the total by the difference of the lengths.
pub proof fn lemma_total_update(runs: Seq<Run>, k: int, r: Run)
    requires
        0 <= k < runs.len(),
    ensures
        total(runs.update(k, r)) == total(runs) - runs[k].len + r.len,
{
    let u = runs.update(k, r);
    lemma_total_split(runs, k);
    lemma_total_split(u, k);
    assert(u.subrange(0, k) =~= runs.subrange(0, k));
    assert(u.subrange(k + 1, u.len() as int) =~= runs.subrange(k + 1, runs.len() as int));
}

/// Runs that neither overlap nor touch are disjoint.
pub proof fn lemma_separated_disjoint(runs: Seq<Run>)
    requires
        runs_separated(runs),
        forall|i: int| 0 <= i < runs.len() ==> (#[trigger] runs[i]).len >= 0,
    ensures
        runs_disjoint(runs),
{
    assert forall|i: int, j: int|
        0 <= i < runs.len() && 0 <= j < runs.len() && i != j implies (#[trigger] runs[i]).misses(
        (#[trigger] runs[j]).start,
        runs[j].len,
    ) by {
        assert(separated(runs[i], runs[j]));
    }
}

/// What is left of a run after a block is taken out of it lies within the
/// run, and its frames and the block's add up to the run's.
pub proof fn lemma_remainder(run: Run, frame: int, n: int)
    requires
        n >= 1,
        run.covers(frame, n),
    ensures
        total(remainder(run, frame, n)) + n == run.len,
        remainder(run, frame, n).len() <= 2,
        forall|i: int|
            0 <= i < remainder(run, frame, n).len() ==> {
                let piece = #[trigger] remainder(run, frame, n)[i];
                &&& piece.len >= 1
                &&& run.start <= piece.start
                &&& piece.end() <= run.end()
                &&& piece.misses(frame, n)
            },
        remainder(run, frame, n).len() == 2 ==> separated(
            remainder(run, frame, n)[0],
            remainder(run, frame, n)[1],
        ),
{
    let before = Run { start: run.start, len: frame - run.start };
    let after = Run { start: frame + n, len: run.end() - (frame + n) };
    lemma_total_one(before);
    lemma_total_one(after);
    if run.start < frame {
        if frame + n < run.end() {
            lemma_total_concat(seq![before], seq![after]);
        } else {
            assert(remainder(run, frame, n) =~= seq![before]);
        }
    } else {
        if frame + n < run.end() {
            assert(remainder(run, frame, n) =~= seq![after]);
        } else {
            assert(remainder(run, frame, n) =~= Seq::<Run>::empty());
        }
    }
}

/// Taking a block out of a run keeps the list well formed and lowers the
/// total by the size of the block.
pub proof fn lemma_carve(runs: Seq<Run>, frame_count: int, k: int, frame: int, n: int)
    requires
        runs_in_range(runs, frame_count),
        runs_separated(runs),
        0 <= k < runs.len(),
        n >= 1,
        runs[k].covers(frame, n),
    ensures
        runs_in_range(carve(runs, k, frame, n), frame_count),
        runs_separated(carve(runs, k, frame, n)),
        total(carve(runs, k, frame, n)) == total(runs) - n,
        forall|i: int|
            0 <= i < carve(runs, k, frame, n).len() ==> (#[trigger] carve(
                runs,
                k,
                frame,
                n,
            )[i]).misses(frame, n),
{
    let pieces = remainder(runs[k], frame, n);
    let a = runs.subrange(0, k);
    let b = runs.subrange(k + 1, runs.len() as int);
    let out = carve(runs, k, frame, n);
    let m = pieces.len() as int;
    lemma_remainder(runs[k], frame, n);
    lemma_total_split(runs, k);
    lemma_total_concat(a + pieces, b);
    lemma_total_concat(a, pieces);
    // Every run of the new list lies within one run of the old list.
    let origin = |i: int|
        if i < k {
            i
        } else if i < k + m {
            k
        } else {
            i - m + 1
        };
    assert forall|i: int| 0 <= i < out.len() implies {
        &&& 0 <= origin(i) < runs.len()
        &&& (#[trigger] out[i]).len >= 1
        &&& runs[origin(i)].start <= out[i].start
        &&& out[i].end() <= runs[origin(i)].end()
        &&& out[i].misses(frame, n)
    } by {
        if i < k {
            assert(out[i] == runs[i]);
            assert(separated(runs[i], runs[k]));
        } else if i < k + m {
            assert(out[i] == pieces[i - k]);
        } else {
            assert(out[i] == runs[i - m + 1]);
            assert(separated(runs[i - m + 1], runs[k]));
        }
    }
    assert forall|i: int, j: int|
        0 <= i < out.len() && 0 <= j < out.len() && i != j implies separated(
        #[trigger] out[i],
        #[trigger] out[j],
    ) by {
        if origin(i) != origin(j) {
            assert(separated(runs[origin(i)], runs[origin(j)]));
        } else {
            assert(out[i] == pieces[i - k]);
            assert(out[j] == pieces[j - k]);
        }
    }
}

/// Every run of a list that a block was taken out of lies within a run of
/// the list as it was.
pub proof fn lemma_carve_within(runs: Seq<Run>, k: int, frame: int, n: int)
    requires
        0 <= k < runs.len(),
        n >= 1,
        runs[k].covers(frame, n),
    ensures
        forall|i: int|
            0 <= i < carve(runs, k, frame, n).len() ==> exists|o: int|
                0 <= o < runs.len() && (#[trigger] runs[o]).start <= (#[trigger] carve(
                    runs,
                    k,
                    frame,
                    n,
                )[i]).start && carve(runs, k, frame, n)[i].end() <= runs[o].end(),
{
    let out = carve(runs, k, frame, n);
    let pieces = remainder(runs[k], frame, n);
    let m = pieces.len() as int;
    lemma_remainder(runs[k], frame, n);
    assert forall|i: int| 0 <= i < out.len() implies exists|o: int|
        0 <= o < runs.len() && (#[trigger] runs[o]).start <= (#[trigger] out[i]).start
            && out[i].end() <= runs[o].end() by {
        let o = if i < k {
            i
        } else if i < k + m {
            k
        } else {
            i - m + 1
        };
        if i < k {
            assert(out[i] == runs[i]);
        } else if i < k + m {
            assert(out[i] == pieces[i - k]);
        } else {
            assert(out[i] == runs[i - m + 1]);
        }
        assert(runs[o].start <= out[i].start && out[i].end() <= runs[o].end());
    }
}

/// Giving back a block that no run touches from inside keeps the list well
/// formed and raises the total by the size of the block.
pub proof fn lemma_release(runs: Seq<Run>, frame_count: int, frame: int, n: int)
    requires
        runs_in_range(runs, frame_count),
        runs_separated(runs),
        n >= 1,
        0 <= frame,
        frame + n <= frame_count,
        forall|i: int| 0 <= i < runs.len() ==> (#[trigger] runs[i]).misses(frame, n),
    ensures
        runs_in_range(release(runs, frame, n), frame_count),
        runs_separated(release(runs, frame, n)),
        total(release(runs, frame, n)) == total(runs) + n,
{
    let forward = run_starting_at(runs, frame + n);
    lemma_first_index(runs, starts_at(frame + n));
    let (rest, block) = match forward {
        Some(k) => (runs.remove(k), Run { start: frame, len: n + runs[k].len }),
        None => (runs, Run { start: frame, len: n }),
    };
    // Each run of `rest` is a run of `runs`.
    let origin = |i: int|
        match forward {
            Some(k) => if i < k {
                i
            } else {
                i + 1
            },
            None => i,
        };
    assert forall|i: int| 0 <= i < rest.len() implies {
        &&& 0 <= origin(i) < runs.len()
        &&& #[trigger] rest[i] == runs[origin(i)]
        &&& rest[i].end() <= frame || block.end() < rest[i].start
    } by {
        match forward {
            Some(k) => {
                assert(separated(runs[origin(i)], runs[k]));
            },
            None => {},
        }
    }
    assert(total(rest) + block.len == total(runs) + n) by {
        match forward {
            Some(k) => {
                lemma_total_remove(runs, k);
            },
            None => {},
        }
    }
    assert forall|i: int, j: int|
        0 <= i < rest.len() && 0 <= j < rest.len() && i != j implies separated(
        #[trigger] rest[i],
        #[trigger] rest[j],
    ) by {
        assert(separated(runs[origin(i)], runs[origin(j)]));
    }
    let out = release(runs, frame, n);
    lemma_first_index(rest, ends_at(frame));
    match run_ending_at(rest, frame) {
        Some(j) => {
            let merged = Run { start: rest[j].start, len: rest[j].len + block.len };
            lemma_total_update(rest, j, merged);
            assert forall|i: int, l: int|
                0 <= i < out.len() && 0 <= l < out.len() && i != l implies separated(
                #[trigger] out[i],
                #[trigger] out[l],
            ) by {
                assert(separated(rest[i], rest[l]));
                assert(separated(rest[i], rest[j]) || i == j);
                assert(separated(rest[l], rest[j]) || l == j);
            }
        },
        None => {
            lemma_total_concat(seq![block], rest);
            lemma_total_one(block);
            assert forall|i: int| 0 <= i < out.len() implies 0 <= (#[trigger] out[i]).start
                && out[i].len >= 1 && out[i].end() <= frame_count by {
                if i > 0 {
                    assert(out[i] == rest[i - 1]);
                }
            }
            assert forall|i: int, l: int|
                0 <= i < out.len() && 0 <= l < out.len() && i != l implies separated(
                #[trigger] out[i],
                #[trigger] out[l],
            ) by {
                if i > 0 && l > 0 {
                    assert(separated(rest[i - 1], rest[l - 1]));
                } else if i > 0 {
                    assert(out[i] == rest[i - 1]);
                } else {
                    assert(out[l] == rest[l - 1]);
                }
            }
        },
    }
}

} // verus!
