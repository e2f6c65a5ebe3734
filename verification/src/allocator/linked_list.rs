//! The free-run list: an intrusive singly linked list over run-head records.
//!
//! The list owns no storage of its own. Each member is a frame of the
//! metadata table, and its `link` field names the next member. Members may
//! stand in any order; traversal order is list order.

use crate::allocator::page::Page;
use vstd::prelude::*;

verus! {

/// An intrusive list of frames, threaded through the `link` fields of a
/// metadata table.
pub struct LinkedList {
    head: Option<usize>,
    order: Ghost<Seq<usize>>,
}

/// The member that follows position `i` of `s`, if any.
pub open spec fn next_in(s: Seq<usize>, i: int) -> Option<usize> {
    if i + 1 < s.len() {
        Some(s[i + 1])
    } else {
        None
    }
}

/// The member that precedes position `i` of `s`, if any.
pub open spec fn prev_in(s: Seq<usize>, i: int) -> Option<usize> {
    if 0 < i {
        Some(s[i - 1])
    } else {
        None
    }
}

/// Two tables of the same length that differ at most in their `link` fields.
pub open spec fn same_but_links(a: Seq<Page>, b: Seq<Page>) -> bool {
    &&& a.len() == b.len()
    &&& forall|f: int|
        0 <= f < a.len() ==> (#[trigger] b[f]).flags == a[f].flags && b[f].property
            == a[f].property && b[f].ref_count == a[f].ref_count
}

/// Two tables of the same length with the same `link` fields.
pub open spec fn same_links(a: Seq<Page>, b: Seq<Page>) -> bool {
    &&& a.len() == b.len()
    &&& forall|f: int| 0 <= f < a.len() ==> (#[trigger] b[f]).link == a[f].link
}

/// In a sequence without duplicates, a value is found where it stands.
pub proof fn lemma_index_of(s: Seq<usize>, k: int)
    requires
        s.no_duplicates(),
        0 <= k < s.len(),
    ensures
        s.contains(s[k]),
        s.index_of(s[k]) == k,
{
}

/// Taking a member out of a sequence without duplicates leaves the other
/// members, each once.
pub proof fn lemma_remove_members(s: Seq<usize>, k: int)
    requires
        s.no_duplicates(),
        0 <= k < s.len(),
    ensures
        s.remove(k).no_duplicates(),
        forall|x: usize| s.remove(k).contains(x) <==> (s.contains(x) && x != s[k]),
{
    let t = s.remove(k);
    assert forall|x: usize| t.contains(x) <==> (s.contains(x) && x != s[k]) by {
        if t.contains(x) {
            let i = t.index_of(x);
            if i < k {
                assert(s[i] == x);
            } else {
                assert(s[i + 1] == x);
            }
        }
        if s.contains(x) && x != s[k] {
            let i = s.index_of(x);
            if i < k {
                assert(t[i] == x);
            } else {
                assert(t[i - 1] == x);
            }
        }
    }
}

/// Putting a new value somewhere into a sequence without duplicates adds
/// it to the members and keeps each once.
pub proof fn lemma_insert_members(s: Seq<usize>, k: int, v: usize)
    requires
        s.no_duplicates(),
        0 <= k <= s.len(),
        !s.contains(v),
    ensures
        s.insert(k, v).no_duplicates(),
        forall|x: usize| s.insert(k, v).contains(x) <==> (s.contains(x) || x == v),
{
    let t = s.insert(k, v);
    assert forall|i: int, j: int| 0 <= i < t.len() && 0 <= j < t.len() && i != j implies t[i]
        != t[j] by {
        let oi = if i < k { i } else { i - 1 };
        let oj = if j < k { j } else { j - 1 };
        if i != k {
            assert(t[i] == s[oi]);
        }
        if j != k {
            assert(t[j] == s[oj]);
        }
    }
    assert forall|x: usize| t.contains(x) <==> (s.contains(x) || x == v) by {
        assert(t[k] == v);
        if t.contains(x) && x != v {
            let i = t.index_of(x);
            if i < k {
                assert(s[i] == x);
            } else {
                assert(s[i - 1] == x);
            }
        }
        if s.contains(x) {
            let i = s.index_of(x);
            if i < k {
                assert(t[i] == x);
            } else {
                assert(t[i + 1] == x);
            }
        }
    }
}

/// Putting a new value in the place of a member of a sequence without
/// duplicates swaps the two among the members and keeps each once.
pub proof fn lemma_update_members(s: Seq<usize>, k: int, v: usize)
    requires
        s.no_duplicates(),
        0 <= k < s.len(),
        !s.contains(v),
    ensures
        s.update(k, v).no_duplicates(),
        forall|x: usize| s.update(k, v).contains(x) <==> ((s.contains(x) && x != s[k]) || x == v),
{
    let t = s.update(k, v);
    assert forall|x: usize| t.contains(x) <==> ((s.contains(x) && x != s[k]) || x == v) by {
        assert(t[k] == v);
        if t.contains(x) && x != v {
            let i = t.index_of(x);
            assert(s[i] == x);
        }
        if s.contains(x) && x != s[k] {
            let i = s.index_of(x);
            assert(t[i] == x);
        }
    }
}

impl View for LinkedList {
    type V = Seq<usize>;

    /// The members in traversal order.
    closed spec fn view(&self) -> Seq<usize> {
        self.order@
    }
}

impl LinkedList {
    /// The first member, if any.
    pub closed spec fn first(&self) -> Option<usize> {
        self.head
    }

    /// Well-formedness with respect to the table `pages`: the members are
    /// distinct frames of the table, the links lead from each member to the
    /// next, and no other frame is linked.
    pub open spec fn wf(&self, pages: Seq<Page>) -> bool {
        &&& self@.no_duplicates()
        &&& forall|i: int| 0 <= i < self@.len() ==> (#[trigger] self@[i] as int) < pages.len()
        &&& self.first() == next_in(self@, -1)
        &&& forall|i: int|
            0 <= i < self@.len() ==> pages[#[trigger] self@[i] as int].link == next_in(self@, i)
        &&& forall|f: usize|
            (f as int) < pages.len() && !self@.contains(f) ==> (#[trigger] pages[f as int]).link
                is None
    }

    /// Whether `previous` is what stands before `node` in the list: the
    /// member before it, or nothing where `node` is the first.
    pub open spec fn precedes(&self, previous: Option<usize>, node: usize) -> bool {
        &&& self@.contains(node)
        &&& previous == prev_in(self@, self@.index_of(node))
    }

    /// Well-formedness does not depend on anything but the links.
    pub proof fn lemma_wf_same_links(&self, a: Seq<Page>, b: Seq<Page>)
        requires
            self.wf(a),
            same_links(a, b),
        ensures
            self.wf(b),
    {
        assert forall|i: int| 0 <= i < self@.len() implies b[#[trigger] self@[i] as int].link
            == next_in(self@, i) by {
            assert(b[self@[i] as int].link == a[self@[i] as int].link);
        }
    }

    /// An empty list.
    pub fn new() -> (list: LinkedList)
        ensures
            list@ == Seq::<usize>::empty(),
            list.first() is None,
    {
        LinkedList { head: None, order: Ghost(Seq::empty()) }
    }

    /// Whether the list has no member.
    pub fn is_empty(&self) -> (b: bool)
        ensures
            b == (self.first() is None),
    {
        self.head.is_none()
    }

    /// The first member, where traversal starts.
    pub fn peek(&self) -> (node: Option<usize>)
        ensures
            node == self.first(),
    {
        self.head
    }

    /// The member after `node`, where traversal goes on.
    pub fn next(&self, pages: &Vec<Page>, node: usize) -> (following: Option<usize>)
        requires
            self.wf(pages@),
            self@.contains(node),
        ensures
            following == next_in(self@, self@.index_of(node)),
    {
        pages[node].link
    }

    /// Puts `node` at the front of the list.
    pub fn push_front(&mut self, pages: &mut Vec<Page>, node: usize)
        requires
            old(self).wf(old(pages)@),
            node < old(pages).len(),
            !old(self)@.contains(node),
        ensures
            final(self).wf(final(pages)@),
            final(self)@ == seq![node] + old(self)@,
            same_but_links(old(pages)@, final(pages)@),
    {
        let ghost s = self.order@;
        let ghost t = seq![node] + s;
        pages[node].link = self.head;
        self.head = Some(node);
        proof {
            self.order@ = t;
            assert forall|i: int| 0 <= i < t.len() implies pages@[#[trigger] t[i] as int].link
                == next_in(t, i) by {
                if i > 0 {
                    assert(t[i] == s[i - 1]);
                    assert(next_in(t, i) == next_in(s, i - 1));
                }
            }
            assert forall|f: usize|
                (f as int) < pages@.len() && !t.contains(f) implies (
            #[trigger] pages@[f as int]).link is None by {
                if s.contains(f) {
                    let i = s.index_of(f);
                    assert(t[i + 1] == f);
                }
                assert(t[0] == node);
            }
        }
    }

    /// Takes the first member off the list and returns it.
    pub fn remove_head(&mut self, pages: &mut Vec<Page>) -> (node: usize)
        requires
            old(self).wf(old(pages)@),
            old(self)@.len() > 0,
        ensures
            final(self).wf(final(pages)@),
            node == old(self)@[0],
            final(self)@ == old(self)@.remove(0),
            same_but_links(old(pages)@, final(pages)@),
    {
        let node = self.head.unwrap();
        proof {
            lemma_index_of(self@, 0);
        }
        self.remove(pages, node, None);
        node
    }

    /// Takes `node` off the list. `previous` is the member before it, as
    /// tracked during traversal, or `None` where `node` is the first.
    pub fn remove(&mut self, pages: &mut Vec<Page>, node: usize, previous: Option<usize>)
        requires
            old(self).wf(old(pages)@),
            old(self).precedes(previous, node),
        ensures
            final(self).wf(final(pages)@),
            final(self)@ == old(self)@.remove(old(self)@.index_of(node)),
            same_but_links(old(pages)@, final(pages)@),
    {
        let ghost s = self.order@;
        let ghost k = s.index_of(node);
        let ghost t = s.remove(k);
        let ghost before = pages@;
        let following = pages[node].link;
        match previous {
            Some(p) => {
                assert(p == s[k - 1]);
                pages[p].link = following;
            },
            None => {
                self.head = following;
            },
        }
        pages[node].link = None;
        proof {
            self.order@ = t;
            lemma_remove_members(s, k);
            assert forall|i: int| 0 <= i < t.len() implies {
                &&& (#[trigger] t[i] as int) < pages@.len()
                &&& pages@[t[i] as int].link == next_in(t, i)
            } by {
                let o = if i < k { i } else { i + 1 };
                assert(t[i] == s[o]);
                assert(before[s[o] as int].link == next_in(s, o));
                assert(s[o] != node);
                if o == k - 1 {
                    assert(next_in(t, i) == next_in(s, k));
                } else {
                    assert(previous is Some ==> s[o] != previous.unwrap());
                    assert(next_in(t, i) == next_in(s, o));
                }
            }
        }
    }

    /// Puts `new_node` in the place of `node`. `previous` is the member
    /// before `node`, or `None` where `node` is the first.
    pub fn replace(
        &mut self,
        pages: &mut Vec<Page>,
        node: usize,
        previous: Option<usize>,
        new_node: usize,
    )
        requires
            old(self).wf(old(pages)@),
            old(self).precedes(previous, node),
            new_node < old(pages).len(),
            !old(self)@.contains(new_node),
        ensures
            final(self).wf(final(pages)@),
            final(self)@ == old(self)@.update(old(self)@.index_of(node), new_node),
            same_but_links(old(pages)@, final(pages)@),
    {
        let ghost s = self.order@;
        let ghost k = s.index_of(node);
        let ghost t = s.update(k, new_node);
        let ghost before = pages@;
        let following = pages[node].link;
        pages[new_node].link = following;
        match previous {
            Some(p) => {
                assert(p == s[k - 1]);
                pages[p].link = Some(new_node);
            },
            None => {
                self.head = Some(new_node);
            },
        }
        pages[node].link = None;
        proof {
            self.order@ = t;
            lemma_update_members(s, k, new_node);
            assert forall|i: int| 0 <= i < t.len() implies {
                &&& (#[trigger] t[i] as int) < pages@.len()
                &&& pages@[t[i] as int].link == next_in(t, i)
            } by {
                if i != k {
                    assert(t[i] == s[i]);
                    assert(before[s[i] as int].link == next_in(s, i));
                    assert(s[i] != node);
                    assert(s[i] != new_node);
                    if i != k - 1 {
                        assert(previous is Some ==> s[i] != previous.unwrap());
                    }
                }
            }
        }
    }

    /// Puts `new_node` right after `node`.
    pub fn insert_after(&mut self, pages: &mut Vec<Page>, node: usize, new_node: usize)
        requires
            old(self).wf(old(pages)@),
            old(self)@.contains(node),
            new_node < old(pages).len(),
            !old(self)@.contains(new_node),
        ensures
            final(self).wf(final(pages)@),
            final(self)@ == old(self)@.insert(old(self)@.index_of(node) + 1, new_node),
            same_but_links(old(pages)@, final(pages)@),
    {
        let ghost s = self.order@;
        let ghost k = s.index_of(node);
        let ghost t = s.insert(k + 1, new_node);
        let ghost before = pages@;
        let following = pages[node].link;
        pages[new_node].link = following;
        pages[node].link = Some(new_node);
        proof {
            self.order@ = t;
            lemma_insert_members(s, k + 1, new_node);
            assert forall|i: int| 0 <= i < t.len() implies {
                &&& (#[trigger] t[i] as int) < pages@.len()
                &&& pages@[t[i] as int].link == next_in(t, i)
            } by {
                if i != k + 1 {
                    let o = if i <= k { i } else { i - 1 };
                    assert(t[i] == s[o]);
                    assert(before[s[o] as int].link == next_in(s, o));
                    assert(s[o] != new_node);
                    if o != k {
                        assert(s[o] != node);
                    }
                } else {
                    assert(before[s[k] as int].link == next_in(s, k));
                }
            }
        }
    }
}

} // verus!
