//! The children of a node, and what they give.

use vstd::prelude::*;

use super::extraction::{
    are_children, lemma_children_close, lemma_next_child, lies_below, parents_are_nearest_above,
    subtrees_hold_what_lies_below,
};
use crate::tree::{node_end, parent, subtree_end, NodeView};

verus! {

/// Those of the nodes `lo..hi` that stand directly in node `m`, in order.
pub open spec fn children_in(d: Seq<NodeView>, m: int, lo: int, hi: int) -> Seq<int>
    decreases hi - lo,
{
    if lo >= hi {
        Seq::empty()
    } else if parent(d, lo) == Some(m) {
        seq![lo] + children_in(d, m, lo + 1, hi)
    } else {
        children_in(d, m, lo + 1, hi)
    }
}

/// The nodes that stand directly in node `m`, in order.
pub open spec fn children(d: Seq<NodeView>, m: int) -> Seq<int> {
    children_in(d, m, 0, d.len() as int)
}

/// What is there, in order, of values that may not be.
pub open spec fn present<T>(s: Seq<Option<T>>) -> Seq<T> {
    s.filter(|x: Option<T>| x is Some).map_values(|x: Option<T>| x->0)
}

/// What the children of node `m` give, in order, those left out that give nothing.
pub open spec fn given<T>(d: Seq<NodeView>, m: int, f: spec_fn(int) -> Option<T>) -> Seq<T> {
    present(children(d, m).map_values(f))
}

pub(crate) open spec fn given_in<T>(d: Seq<NodeView>, m: int, lo: int, hi: int, f: spec_fn(int) -> Option<T>) -> Seq<T> {
    present(children_in(d, m, lo, hi).map_values(f))
}

pub(crate) proof fn lemma_present_front<T>(x: Option<T>, rest: Seq<Option<T>>)
    ensures
        present(seq![x] + rest) == (match x {
            Some(v) => seq![v] + present(rest),
            None => present(rest),
        }),
        present(Seq::<Option<T>>::empty()) == Seq::<T>::empty(),
{
    let p = |x: Option<T>| x is Some;
    let g = |x: Option<T>| x->0;
    let one = seq![x];
    Seq::filter_distributes_over_add(one, rest, p);
    reveal_with_fuel(Seq::filter, 2);
    assert(one.drop_last() =~= Seq::<Option<T>>::empty());
    assert(one.drop_last().filter(p) =~= Seq::<Option<T>>::empty());
    if x is Some {
        assert(one.filter(p) =~= one);
        assert((one + rest.filter(p)).map_values(g) =~= seq![x->0] + rest.filter(p).map_values(g));
    } else {
        assert(one.filter(p) =~= Seq::<Option<T>>::empty());
        assert(Seq::<Option<T>>::empty() + rest.filter(p) =~= rest.filter(p));
    }
    assert(Seq::<Option<T>>::empty().filter(p).map_values(g) =~= Seq::<T>::empty());
}

proof fn lemma_no_children(d: Seq<NodeView>, m: int, lo: int, hi: int, end: int)
    requires
        0 <= lo <= hi <= end,
        forall|j: int| lo <= j < hi ==> #[trigger] parent(d, j) != Some(m),
    ensures
        children_in(d, m, lo, end) == children_in(d, m, hi, end),
    decreases hi - lo,
{
    if lo < hi {
        lemma_no_children(d, m, lo + 1, hi, end);
    }
}

proof fn lemma_children_split(d: Seq<NodeView>, m: int, lo: int, mid: int, hi: int)
    requires
        lo <= mid <= hi,
    ensures
        children_in(d, m, lo, hi) == children_in(d, m, lo, mid) + children_in(d, m, mid, hi),
    decreases mid - lo,
{
    if lo < mid {
        lemma_children_split(d, m, lo + 1, mid, hi);
    }
    assert(children_in(d, m, lo, hi) =~= children_in(d, m, lo, mid) + children_in(d, m, mid, hi));
}

/// The children of a node are all inside its subtree.
pub(crate) proof fn lemma_children(d: Seq<NodeView>, m: int)
    requires
        0 <= m < d.len(),
    ensures
        m < subtree_end(d, m) <= d.len(),
        are_children(d, m, m + 1, subtree_end(d, m)),
        children(d, m) == children_in(d, m, m + 1, subtree_end(d, m)),
{
    lemma_children_close(d, m);
    let e = subtree_end(d, m);
    let n = d.len() as int;
    assert forall|j: int| 0 <= j < m + 1 || e <= j < n implies #[trigger] parent(d, j) != Some(m) by {
        if parent(d, j) == Some(m) {
            parents_are_nearest_above(d, m, j);
            subtrees_hold_what_lies_below(d, m, j);
        }
    }
    lemma_no_children(d, m, 0, m + 1, n);
    lemma_children_split(d, m, m + 1, e, n);
    lemma_no_children(d, m, e, n, n);
    assert(children_in(d, m, m + 1, e) + Seq::<int>::empty() =~= children_in(d, m, m + 1, e));
}

/// The children of a node are met one after the other.
pub(crate) proof fn lemma_first_child(d: Seq<NodeView>, m: int, lo: int, hi: int)
    requires
        0 <= m < d.len(),
        are_children(d, m, lo, hi),
        lo < hi,
    ensures
        children_in(d, m, lo, hi) == seq![lo] + children_in(d, m, node_end(d, lo, hi), hi),
        are_children(d, m, node_end(d, lo, hi), hi),
        node_end(d, lo, hi) == subtree_end(d, lo),
        lo < node_end(d, lo, hi) <= hi,
        lo < d.len(),
{
    lemma_next_child(d, m, lo, hi);
    let e = node_end(d, lo, hi);
    assert forall|j: int| lo < j < e implies #[trigger] parent(d, j) != Some(m) by {
        assert(lies_below(d, lo, j));
        if parent(d, j) == Some(m) {
            parents_are_nearest_above(d, m, j);
        }
    }
    lemma_no_children(d, m, lo + 1, e, hi);
}

pub(crate) proof fn lemma_given<T>(d: Seq<NodeView>, m: int, lo: int, hi: int, f: spec_fn(int) -> Option<T>)
    requires
        0 <= m < d.len(),
        are_children(d, m, lo, hi),
    ensures
        lo >= hi ==> given_in(d, m, lo, hi, f) == Seq::<T>::empty(),
        lo < hi ==> given_in(d, m, lo, hi, f) == (match f(lo) {
            Some(v) => seq![v] + given_in(d, m, node_end(d, lo, hi), hi, f),
            None => given_in(d, m, node_end(d, lo, hi), hi, f),
        }) && are_children(d, m, node_end(d, lo, hi), hi) && node_end(d, lo, hi) == subtree_end(d, lo) && lo
            < node_end(d, lo, hi) <= hi && lo < d.len(),
{
    if lo < hi {
        lemma_first_child(d, m, lo, hi);
        let rest = children_in(d, m, node_end(d, lo, hi), hi);
        assert((seq![lo] + rest).map_values(f) =~= seq![f(lo)] + rest.map_values(f));
        lemma_present_front(f(lo), rest.map_values(f));
    } else {
        lemma_present_front(None, Seq::<Option<T>>::empty());
        assert(children_in(d, m, lo, hi).map_values(f) =~= Seq::<Option<T>>::empty());
    }
}

/// The children of a node are the nodes that stand directly in it, in order, each once.
pub proof fn children_are_what_stands_directly_inside(d: Seq<NodeView>, m: int)
    ensures
        forall|k: int| #[trigger] children(d, m).contains(k) <==> 0 <= k < d.len() && parent(d, k) == Some(m),
        forall|i: int, j: int| 0 <= i < j < children(d, m).len() ==> children(d, m)[i] < children(d, m)[j],
{
    lemma_children_in(d, m, 0, d.len() as int);
}

proof fn lemma_children_in(d: Seq<NodeView>, m: int, lo: int, hi: int)
    ensures
        forall|k: int| #[trigger] children_in(d, m, lo, hi).contains(k) <==> lo <= k < hi && parent(d, k) == Some(m),
        forall|i: int, j: int|
            0 <= i < j < children_in(d, m, lo, hi).len() ==> children_in(d, m, lo, hi)[i] < children_in(d, m, lo, hi)[j],
    decreases hi - lo,
{
    if lo < hi {
        lemma_children_in(d, m, lo + 1, hi);
        let rest = children_in(d, m, lo + 1, hi);
        let all = children_in(d, m, lo, hi);
        if parent(d, lo) == Some(m) {
            assert forall|k: int| #[trigger] all.contains(k) <==> lo <= k < hi && parent(d, k) == Some(m) by {
                if k == lo {
                    assert(all[0] == k);
                } else {
                    if rest.contains(k) {
                        let i = choose|i: int| 0 <= i < rest.len() && rest[i] == k;
                        assert(all[i + 1] == k);
                    }
                    if all.contains(k) {
                        let i = choose|i: int| 0 <= i < all.len() && all[i] == k;
                        assert(rest[i - 1] == k);
                    }
                }
            }
            assert forall|i: int, j: int| 0 <= i < j < all.len() implies all[i] < all[j] by {
                assert(rest.contains(rest[j - 1]));
                if i > 0 {
                    assert(all[i] == rest[i - 1]);
                }
                assert(all[j] == rest[j - 1]);
            }
        }
    }
}

} // verus!
