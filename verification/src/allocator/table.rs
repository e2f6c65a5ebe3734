//! How the metadata table and the list of run heads stand for the free runs,
//! and why the table edits of each operation give the runs that the
//! operation promises.

use crate::allocator::linked_list::{
    lemma_insert_members, lemma_remove_members, lemma_update_members, same_but_links,
};
use crate::allocator::page::{Page, PG_PROPERTY};
use crate::allocator::runs::{
    carve, lemma_carve, lemma_remainder, remainder, runs_in_range, runs_separated, separated, Run,
};
use vstd::prelude::*;

verus! {

/// The run whose head is frame `head` of the table `pages`.
pub open spec fn run_at(pages: Seq<Page>, head: usize) -> Run {
    Run { start: head as int, len: pages[head as int].property as int }
}

/// The runs whose heads are the frames of `order`, in that order.
pub open spec fn runs_of(pages: Seq<Page>, order: Seq<usize>) -> Seq<Run> {
    Seq::new(order.len(), |i: int| run_at(pages, order[i]))
}

/// A frame record as it is kept while the frame is free: no references, and
/// no flag but the run-head flag on the head of a run.
pub open spec fn kept_clear(page: Page, is_head: bool) -> bool {
    &&& page.ref_count == 0
    &&& page.flags == if is_head {
        PG_PROPERTY
    } else {
        0
    }
}

/// Two tables in which every frame but the frames from `lo` up to `hi` has
/// the same flags and the same reference count.
pub open spec fn same_records_outside(a: Seq<Page>, b: Seq<Page>, lo: int, hi: int) -> bool {
    &&& a.len() == b.len()
    &&& forall|f: int|
        0 <= f < a.len() && !(lo <= f < hi) ==> (#[trigger] b[f]).flags == a[f].flags
            && b[f].ref_count == a[f].ref_count
}

/// The run-head flag marks exactly the frames of `order`.
pub open spec fn heads_listed(pages: Seq<Page>, order: Seq<usize>) -> bool {
    forall|f: usize|
        (f as int) < pages.len() ==> ((#[trigger] pages[f as int]).head() <==> order.contains(f))
}

/// The record of every free frame is kept clear.
pub open spec fn free_kept_clear(pages: Seq<Page>, order: Seq<usize>) -> bool {
    forall|i: int, f: int|
        #![trigger runs_of(pages, order)[i], pages[f]]
        0 <= i < order.len() && runs_of(pages, order)[i].contains(f) ==> kept_clear(
            pages[f],
            f == runs_of(pages, order)[i].start,
        )
}

/// The table `pages` and the run heads `order` describe a sound set of free
/// runs: the heads are distinct and flagged, the runs are non-empty, inside
/// the table and maximal, and the records of free frames are kept clear.
pub open spec fn table_ok(pages: Seq<Page>, order: Seq<usize>) -> bool {
    &&& pages.len() <= usize::MAX
    &&& order.no_duplicates()
    &&& heads_listed(pages, order)
    &&& runs_in_range(runs_of(pages, order), pages.len() as int)
    &&& runs_separated(runs_of(pages, order))
    &&& free_kept_clear(pages, order)
}

/// Two tables that agree in everything but the links describe the same runs.
pub proof fn lemma_table_ok_links(a: Seq<Page>, b: Seq<Page>, order: Seq<usize>)
    requires
        table_ok(a, order),
        same_but_links(a, b),
    ensures
        table_ok(b, order),
        runs_of(b, order) == runs_of(a, order),
{
    assert(runs_of(b, order) =~= runs_of(a, order)) by {
        assert forall|i: int| 0 <= i < order.len() implies runs_of(b, order)[i] == runs_of(
            a,
            order,
        )[i] by {
            assert(0 <= runs_of(a, order)[i].start);
            assert(runs_of(a, order)[i].end() <= a.len());
        }
    }
    assert forall|f: usize| (f as int) < b.len() implies ((#[trigger] b[f as int]).head()
        <==> order.contains(f)) by {
        assert(a[f as int].head() <==> order.contains(f));
    }
    assert forall|i: int, f: int|
        #![trigger runs_of(b, order)[i], b[f]]
        0 <= i < order.len() && runs_of(b, order)[i].contains(f) implies kept_clear(
        b[f],
        f == runs_of(b, order)[i].start,
    ) by {
        assert(runs_of(a, order)[i].contains(f));
        assert(0 <= runs_of(a, order)[i].start);
        assert(runs_of(a, order)[i].end() <= a.len());
        assert(kept_clear(a[f], f == runs_of(a, order)[i].start));
    }
}

/// The list of run heads after the `n` frames from `frame` on are taken out
/// of the run at position `k`: the head stays where frames are left before
/// the block, and the frame after the block becomes a head where frames are
/// left after it.
pub open spec fn heads_after_take(
    pages: Seq<Page>,
    order: Seq<usize>,
    k: int,
    frame: int,
    n: int,
) -> Seq<usize> {
    let run = runs_of(pages, order)[k];
    let tail = (frame + n) as usize;
    if frame + n < run.end() {
        if run.start < frame {
            order.insert(k + 1, tail)
        } else {
            order.update(k, tail)
        }
    } else if run.start < frame {
        order
    } else {
        order.remove(k)
    }
}

/// How the table has to change when the `n` frames from `frame` on are taken
/// out of the run at position `k`: where frames are left after the block,
/// the first of them becomes a head with their number as its run length;
/// where frames are left before the block, the old head keeps its flag and
/// gets their number as its run length, and otherwise it loses its flag.
/// Nothing else changes, links aside.
pub open spec fn table_after_take(
    a: Seq<Page>,
    b: Seq<Page>,
    order: Seq<usize>,
    k: int,
    frame: int,
    n: int,
) -> bool {
    let run = runs_of(a, order)[k];
    let node = run.start;
    let tail = frame + n;
    let has_tail = tail < run.end();
    &&& a.len() == b.len()
    &&& forall|f: int| 0 <= f < a.len() ==> (#[trigger] b[f]).ref_count == a[f].ref_count
    &&& forall|f: int|
        0 <= f < a.len() && f != node && !(has_tail && f == tail) ==> (#[trigger] b[f]).flags
            == a[f].flags && b[f].property == a[f].property
    &&& has_tail ==> b[tail].flags == PG_PROPERTY && b[tail].property == run.end() - tail
    &&& node < frame ==> b[node].flags == a[node].flags && b[node].property == frame - node
    &&& node == frame ==> b[node].flags == 0
}

/// The frame after a block taken from inside a run is not a run head.
pub proof fn lemma_tail_unlisted(pages: Seq<Page>, order: Seq<usize>, k: int, frame: int, n: int)
    requires
        table_ok(pages, order),
        0 <= k < order.len(),
        n >= 1,
        runs_of(pages, order)[k].covers(frame, n),
        frame + n < runs_of(pages, order)[k].end(),
    ensures
        !order.contains((frame + n) as usize),
        kept_clear(pages[frame + n], false),
{
    let runs = runs_of(pages, order);
    let tail = (frame + n) as usize;
    assert(0 <= runs[k].start && runs[k].end() <= pages.len());
    assert(runs[k].contains(tail as int));
    assert(kept_clear(pages[tail as int], tail == runs[k].start));
    if order.contains(tail) {
        let i = order.index_of(tail);
        assert(separated(runs[i], runs[k]));
        assert(runs[i].len >= 1);
    }
}

/// The table edits of taking a block out of a run give the runs that
/// `carve` describes, keep the table sound, and leave the records of the
/// frames taken clear.
pub proof fn lemma_table_take(
    a: Seq<Page>,
    b: Seq<Page>,
    order: Seq<usize>,
    k: int,
    frame: int,
    n: int,
)
    requires
        table_ok(a, order),
        0 <= k < order.len(),
        n >= 1,
        runs_of(a, order)[k].covers(frame, n),
        table_after_take(a, b, order, k, frame, n),
    ensures
        table_ok(b, heads_after_take(a, order, k, frame, n)),
        runs_of(b, heads_after_take(a, order, k, frame, n)) == carve(
            runs_of(a, order),
            k,
            frame,
            n,
        ),
        forall|f: int| frame <= f < frame + n ==> kept_clear(#[trigger] b[f], false),
{
    let runs = runs_of(a, order);
    let run = runs[k];
    let node = order[k];
    let tail = (frame + n) as usize;
    let has_tail = frame + n < run.end();
    let has_front = run.start < frame;
    let t = heads_after_take(a, order, k, frame, n);
    let out = carve(runs, k, frame, n);
    let pieces = remainder(run, frame, n);
    let m = pieces.len() as int;
    assert(0 <= run.start && run.len >= 1 && run.end() <= a.len());
    lemma_remainder(run, frame, n);
    lemma_carve(runs, a.len() as int, k, frame, n);
    // No other head lies within the run, so none is the new head.
    assert forall|i: int| 0 <= i < order.len() && i != k implies !run.contains(
        #[trigger] order[i] as int,
    ) && order[i] as int != run.end() by {
        assert(separated(runs[i], runs[k]));
        assert(runs[i].len >= 1);
    }
    if has_tail {
        assert(!order.contains(tail)) by {
            if order.contains(tail) {
                let i = order.index_of(tail);
                assert(run.contains(order[i] as int));
            }
        }
        if has_front {
            lemma_insert_members(order, k + 1, tail);
        } else {
            lemma_update_members(order, k, tail);
        }
    } else if !has_front {
        lemma_remove_members(order, k);
    }
    // Where each head of the new list comes from.
    let origin = |i: int|
        if i < k {
            i
        } else if i < k + m {
            k
        } else {
            i - m + 1
        };
    assert(t.len() == out.len());
    assert forall|i: int| 0 <= i < t.len() implies #[trigger] runs_of(b, t)[i] == out[i] && 0
        <= origin(i) < order.len() && (origin(i) != k ==> t[i] == order[origin(i)] && out[i]
        == runs[origin(i)]) && (origin(i) == k ==> out[i] == pieces[i - k]) by {
        let o = origin(i);
        if o != k {
            assert(t[i] == order[o]);
            assert(out[i] == runs[o]);
            assert(!run.contains(order[o] as int));
            assert(0 <= runs[o].start);
        } else {
            assert(out[i] == pieces[i - k]);
        }
    }
    assert(runs_of(b, t) =~= out);
    assert forall|f: usize| (f as int) < b.len() implies ((#[trigger] b[f as int]).head()
        <==> t.contains(f)) by {
        assert(a[f as int].head() <==> order.contains(f));
        assert(order[k] == node);
        assert(kept_clear(a[node as int], true)) by {
            assert(runs[k].contains(node as int));
        }
        assert(0x2u32 & 0x2u32 != 0 && 0u32 & 0x2u32 == 0) by (bit_vector);
        if has_tail && f == tail {
        } else if f == node {
        } else {
            assert(b[f as int].flags == a[f as int].flags);
        }
    }
    assert forall|f: int| frame <= f < frame + n implies kept_clear(#[trigger] b[f], false) by {
        assert(runs[k].contains(f));
        assert(kept_clear(a[f], f == runs[k].start));
    }
    assert forall|i: int, f: int|
        #![trigger runs_of(b, t)[i], b[f]]
        0 <= i < t.len() && runs_of(b, t)[i].contains(f) implies kept_clear(
        b[f],
        f == runs_of(b, t)[i].start,
    ) by {
        let o = origin(i);
        assert(runs_of(b, t)[i] == out[i]);
        assert(out[i].misses(frame, n));
        if o != k {
            assert(out[i] == runs[o]);
            assert(separated(runs[o], runs[k]));
            assert(kept_clear(a[f], f == runs[o].start));
            assert(0 <= runs[o].start && runs[o].end() <= a.len());
        } else {
            assert(out[i] == pieces[i - k]);
            assert(runs[k].contains(f));
            assert(kept_clear(a[f], f == runs[k].start));
        }
    }
}

/// Changing the flags and the reference counts of frames that are not
/// free, without flagging any of them as a run head, changes nothing about
/// the free runs.
pub proof fn lemma_table_busy(a: Seq<Page>, b: Seq<Page>, order: Seq<usize>, frame: int, n: int)
    requires
        table_ok(a, order),
        a.len() == b.len(),
        forall|i: int|
            0 <= i < order.len() ==> (#[trigger] runs_of(a, order)[i]).misses(frame, n),
        forall|f: int|
            0 <= f < a.len() && !(frame <= f < frame + n) ==> (#[trigger] b[f]).flags
                == a[f].flags && b[f].ref_count == a[f].ref_count,
        forall|f: int| 0 <= f < a.len() ==> (#[trigger] b[f]).property == a[f].property,
        forall|f: int| 0 <= f < a.len() && frame <= f < frame + n ==> !(#[trigger] b[f]).head(),
    ensures
        table_ok(b, order),
        runs_of(b, order) == runs_of(a, order),
{
    let runs = runs_of(a, order);
    assert(runs_of(b, order) =~= runs) by {
        assert forall|i: int| 0 <= i < order.len() implies runs_of(b, order)[i] == runs[i] by {
            assert(0 <= runs[i].start && runs[i].end() <= a.len());
        }
    }
    assert forall|f: usize| (f as int) < b.len() implies ((#[trigger] b[f as int]).head()
        <==> order.contains(f)) by {
        assert(a[f as int].head() <==> order.contains(f));
        if frame <= f < frame + n && order.contains(f) {
            let i = order.index_of(f);
            assert(runs[i].misses(frame, n));
            assert(runs[i].len >= 1);
        }
    }
    assert forall|i: int, f: int|
        #![trigger runs_of(b, order)[i], b[f]]
        0 <= i < order.len() && runs_of(b, order)[i].contains(f) implies kept_clear(
        b[f],
        f == runs_of(b, order)[i].start,
    ) by {
        assert(runs[i].misses(frame, n));
        assert(0 <= runs[i].start && runs[i].end() <= a.len());
        assert(kept_clear(a[f], f == runs[i].start));
    }
}

/// The run length recorded in a frame that is not a run head means nothing.
pub proof fn lemma_table_property(a: Seq<Page>, b: Seq<Page>, order: Seq<usize>, frame: usize)
    requires
        table_ok(a, order),
        a.len() == b.len(),
        !order.contains(frame),
        forall|f: int|
            0 <= f < a.len() ==> (#[trigger] b[f]).flags == a[f].flags && b[f].ref_count
                == a[f].ref_count,
        forall|f: int|
            0 <= f < a.len() && f != frame ==> (#[trigger] b[f]).property == a[f].property,
    ensures
        table_ok(b, order),
        runs_of(b, order) == runs_of(a, order),
{
    let runs = runs_of(a, order);
    assert(runs_of(b, order) =~= runs) by {
        assert forall|i: int| 0 <= i < order.len() implies runs_of(b, order)[i] == runs[i] by {
            assert(0 <= runs[i].start && runs[i].end() <= a.len());
            assert(order[i] != frame);
        }
    }
    assert forall|f: usize| (f as int) < b.len() implies ((#[trigger] b[f as int]).head()
        <==> order.contains(f)) by {
        assert(a[f as int].head() <==> order.contains(f));
    }
    assert forall|i: int, f: int|
        #![trigger runs_of(b, order)[i], b[f]]
        0 <= i < order.len() && runs_of(b, order)[i].contains(f) implies kept_clear(
        b[f],
        f == runs_of(b, order)[i].start,
    ) by {
        assert(0 <= runs[i].start && runs[i].end() <= a.len());
        assert(kept_clear(a[f], f == runs[i].start));
    }
}

/// Adding `len` to the run length of the head at position `j` joins the
/// block of `len` clear frames that follows the run to it.
pub proof fn lemma_table_extend(a: Seq<Page>, b: Seq<Page>, order: Seq<usize>, j: int, len: int)
    requires
        table_ok(a, order),
        a.len() == b.len(),
        0 <= j < order.len(),
        len >= 1,
        ({
            let run = runs_of(a, order)[j];
            let joined = runs_of(a, order).update(j, Run { start: run.start, len: run.len + len });
            &&& runs_in_range(joined, a.len() as int)
            &&& runs_separated(joined)
            &&& forall|f: int|
                run.end() <= f < run.end() + len ==> kept_clear(#[trigger] a[f], false)
            &&& b[run.start].property == run.len + len
        }),
        forall|f: int|
            0 <= f < a.len() ==> (#[trigger] b[f]).flags == a[f].flags && b[f].ref_count
                == a[f].ref_count,
        forall|f: int|
            0 <= f < a.len() && f != order[j] ==> (#[trigger] b[f]).property == a[f].property,
    ensures
        table_ok(b, order),
        runs_of(b, order) == runs_of(a, order).update(
            j,
            Run { start: runs_of(a, order)[j].start, len: runs_of(a, order)[j].len + len },
        ),
{
    let runs = runs_of(a, order);
    let run = runs[j];
    let joined = runs.update(j, Run { start: run.start, len: run.len + len });
    assert(runs_of(b, order) =~= joined) by {
        assert forall|i: int| 0 <= i < order.len() implies runs_of(b, order)[i] == joined[i] by {
            assert(0 <= runs[i].start && runs[i].end() <= a.len());
        }
    }
    assert forall|f: usize| (f as int) < b.len() implies ((#[trigger] b[f as int]).head()
        <==> order.contains(f)) by {
        assert(a[f as int].head() <==> order.contains(f));
    }
    assert forall|i: int, f: int|
        #![trigger runs_of(b, order)[i], b[f]]
        0 <= i < order.len() && runs_of(b, order)[i].contains(f) implies kept_clear(
        b[f],
        f == runs_of(b, order)[i].start,
    ) by {
        assert(0 <= joined[i].start && joined[i].end() <= a.len());
        assert(0 <= runs[i].start && runs[i].len >= 1);
        if i != j || f < run.end() {
            assert(runs[i].contains(f));
            assert(kept_clear(a[f], f == runs[i].start));
        }
    }
}

/// Flagging the first frame of a block of `len` clear frames as a head, with
/// `len` as its run length, and putting it before the other heads makes the
/// block the first free run.
pub proof fn lemma_table_push(a: Seq<Page>, b: Seq<Page>, order: Seq<usize>, frame: usize, len: int)
    requires
        table_ok(a, order),
        a.len() == b.len(),
        (frame as int) < a.len(),
        len >= 1,
        ({
            let pushed = seq![Run { start: frame as int, len: len }] + runs_of(a, order);
            &&& runs_in_range(pushed, a.len() as int)
            &&& runs_separated(pushed)
        }),
        forall|f: int| frame <= f < frame + len ==> kept_clear(#[trigger] a[f], false),
        b[frame as int].property == len,
        b[frame as int].flags == PG_PROPERTY,
        forall|f: int| 0 <= f < a.len() ==> (#[trigger] b[f]).ref_count == a[f].ref_count,
        forall|f: int|
            0 <= f < a.len() && f != frame ==> (#[trigger] b[f]).flags == a[f].flags
                && b[f].property == a[f].property,
    ensures
        table_ok(b, seq![frame] + order),
        runs_of(b, seq![frame] + order) == seq![Run { start: frame as int, len: len }] + runs_of(
            a,
            order,
        ),
{
    let runs = runs_of(a, order);
    let block = Run { start: frame as int, len: len };
    let pushed = seq![block] + runs;
    let t = seq![frame] + order;
    assert(0x2u32 & 0x2u32 != 0 && 0u32 & 0x2u32 == 0) by (bit_vector);
    assert(kept_clear(a[frame as int], false));
    assert(!order.contains(frame)) by {
        assert(a[frame as int].head() <==> order.contains(frame));
    }
    assert(t.no_duplicates()) by {
        assert forall|i: int, l: int| 0 <= i < t.len() && 0 <= l < t.len() && i != l implies t[i]
            != t[l] by {
            if i > 0 {
                assert(t[i] == order[i - 1]);
            }
            if l > 0 {
                assert(t[l] == order[l - 1]);
            }
        }
    }
    assert(runs_of(b, t) =~= pushed) by {
        assert forall|i: int| 0 <= i < t.len() implies runs_of(b, t)[i] == pushed[i] by {
            if i > 0 {
                assert(t[i] == order[i - 1]);
                assert(pushed[i] == runs[i - 1]);
                assert(0 <= runs[i - 1].start && runs[i - 1].end() <= a.len());
            }
        }
    }
    assert forall|f: usize| (f as int) < b.len() implies ((#[trigger] b[f as int]).head()
        <==> t.contains(f)) by {
        assert(a[f as int].head() <==> order.contains(f));
        assert(t[0] == frame);
        if order.contains(f) {
            let i = order.index_of(f);
            assert(t[i + 1] == f);
        }
        if t.contains(f) && f != frame {
            let i = t.index_of(f);
            assert(order[i - 1] == f);
        }
    }
    assert forall|i: int, f: int|
        #![trigger runs_of(b, t)[i], b[f]]
        0 <= i < t.len() && runs_of(b, t)[i].contains(f) implies kept_clear(
        b[f],
        f == runs_of(b, t)[i].start,
    ) by {
        assert(0 <= pushed[i].start && pushed[i].end() <= a.len());
        if i > 0 {
            assert(pushed[i] == runs[i - 1]);
            assert(separated(pushed[0], pushed[i]));
            assert(kept_clear(a[f], f == runs[i - 1].start));
        }
    }
}

} // verus!
