//! The text of an element keeps its words, and its spans cover the words of the elements that
//! they stand for.

use vstd::prelude::*;

use crate::dom::{
    clipped, earliest, extracted, has_fragment_link, is_marker_text, is_note_reference, span_for,
    span_kind, tag_of, walked, CollectorView, WalkView,
};
use crate::schema::SpanView;
use crate::text::{
    ascii_lowercase, contains, is_space, join, lemma_words_push, lowercase, trim_end, trimmed,
    words,
};
use crate::tree::{
    attr, end_from, is_named, node_end, own_text, parent, shallower_before, subtree_end, text_in,
    NodeView, ValueView,
};

verus! {

// ---------------------------------------------------------------------------
// Trees
// ---------------------------------------------------------------------------

/// Node `j` lies somewhere below node `k`: it and all nodes from `k` on are deeper.
pub open spec fn lies_below(d: Seq<NodeView>, k: int, j: int) -> bool {
    k < j && forall|m: int| k < m <= j ==> (#[trigger] d[m]).depth > d[k].depth
}

proof fn lemma_end_from(d: Seq<NodeView>, depth: int, j: int)
    requires
        0 <= j <= d.len(),
    ensures
        j <= end_from(d, depth, j) <= d.len(),
        forall|m: int| j <= m < end_from(d, depth, j) ==> (#[trigger] d[m]).depth > depth,
        end_from(d, depth, j) < d.len() ==> d[end_from(d, depth, j)].depth <= depth,
    decreases d.len() - j,
{
    if j < d.len() && d[j].depth > depth {
        lemma_end_from(d, depth, j + 1);
    }
}

/// The subtree of a node holds the nodes below it and no others.
pub proof fn subtrees_hold_what_lies_below(d: Seq<NodeView>, k: int, j: int)
    requires
        0 <= k < d.len(),
        0 <= j < d.len(),
    ensures
        k < subtree_end(d, k) <= d.len(),
        k < j < subtree_end(d, k) <==> lies_below(d, k, j),
{
    lemma_end_from(d, d[k].depth, k + 1);
    let e = subtree_end(d, k);
    if lies_below(d, k, j) && j >= e {
        assert(d[e].depth > d[k].depth);
    }
}

proof fn lemma_shallower(d: Seq<NodeView>, depth: int, k: int)
    requires
        0 <= k <= d.len(),
    ensures
        match shallower_before(d, depth, k) {
            Some(p) => 0 <= p < k && d[p].depth < depth && forall|m: int|
                p < m < k ==> (#[trigger] d[m]).depth >= depth,
            None => forall|m: int| 0 <= m < k ==> (#[trigger] d[m]).depth >= depth,
        },
    decreases k,
{
    if k > 0 && d[k - 1].depth >= depth {
        lemma_shallower(d, depth, k - 1);
    }
}

/// The parent of a node is the nearest of those that it lies below.
pub proof fn parents_are_nearest_above(d: Seq<NodeView>, k: int, j: int)
    requires
        0 <= k < d.len(),
        0 <= j < d.len(),
    ensures
        parent(d, j) == Some(k) <==> lies_below(d, k, j) && forall|m: int|
            k < m < j ==> !(#[trigger] lies_below(d, m, j)),
        parent(d, j) is None <==> forall|m: int| 0 <= m < j ==> !(#[trigger] lies_below(d, m, j)),
{
    lemma_shallower(d, d[j].depth, j);
    if let Some(p) = parent(d, j) {
        assert(lies_below(d, p, j));
        assert forall|m: int| p < m < j implies !(#[trigger] lies_below(d, m, j)) by {
            assert(d[m].depth >= d[j].depth);
        }
        if lies_below(d, k, j) && k < p {
            assert(lies_below(d, p, j));
        }
    } else {
        assert forall|m: int| 0 <= m < j implies !(#[trigger] lies_below(d, m, j)) by {
            assert(d[m].depth >= d[j].depth);
        }
    }
}

pub(crate) proof fn lemma_parent_before(d: Seq<NodeView>, j: int)
    requires
        0 <= j < d.len(),
    ensures
        parent(d, j) matches Some(p) ==> 0 <= p < j,
{
    lemma_shallower(d, d[j].depth, j);
}

pub(crate) proof fn lemma_body_within(d: Seq<NodeView>, b: int)
    requires
        crate::dom::body(d) == Some(b),
    ensures
        0 <= b < subtree_end(d, b) <= d.len(),
{
    the_earliest_is_found(d, |k: int| is_named(d[k], "body"@) && parent(d, k) is Some, d.len() as int);
    subtrees_hold_what_lies_below(d, b, b);
}

/// What is found earliest is one of those that were asked for, and none of them was made before
/// it.
pub proof fn the_earliest_is_found(d: Seq<NodeView>, p: spec_fn(int) -> bool, hi: int)
    requires
        hi <= d.len(),
    ensures
        match earliest(d, p, hi) {
            Some(b) => 0 <= b < hi && p(b) && forall|k: int| 0 <= k < hi && #[trigger] p(k) ==> d[b].rank <= d[k].rank,
            None => forall|k: int| 0 <= k < hi ==> !#[trigger] p(k),
        },
    decreases hi,
{
    if hi > 0 {
        the_earliest_is_found(d, p, hi - 1);
    }
}

/// The nodes `lo..hi` are the children of node `l` from `lo` on, with all that lies below them.
pub(crate) open spec fn are_children(d: Seq<NodeView>, l: int, lo: int, hi: int) -> bool {
    &&& 0 <= l < lo <= hi
    &&& hi == subtree_end(d, l)
    &&& hi <= d.len()
    &&& lo < hi ==> parent(d, lo) == Some(l)
}

pub(crate) proof fn lemma_children_close(d: Seq<NodeView>, l: int)
    requires
        0 <= l < d.len(),
    ensures
        are_children(d, l, l + 1, subtree_end(d, l)),
{
    subtrees_hold_what_lies_below(d, l, l);
    if l + 1 < subtree_end(d, l) {
        subtrees_hold_what_lies_below(d, l, l + 1);
        parents_are_nearest_above(d, l, l + 1);
    }
}

pub(crate) proof fn lemma_next_child(d: Seq<NodeView>, l: int, lo: int, hi: int)
    requires
        are_children(d, l, lo, hi),
        lo < hi,
        l < d.len(),
    ensures
        are_children(d, l, node_end(d, lo, hi), hi),
        node_end(d, lo, hi) == subtree_end(d, lo),
        lo < node_end(d, lo, hi) <= hi,
        forall|j: int| lo < j < node_end(d, lo, hi) ==> lies_below(d, lo, j),
{
    lemma_end_from(d, d[l].depth, l + 1);
    assert(closes(d, lo, hi));
    lemma_node_end(d, lo, hi);
    let e = node_end(d, lo, hi);
    if e < hi {
        subtrees_hold_what_lies_below(d, l, e);
        parents_are_nearest_above(d, l, lo);
        parents_are_nearest_above(d, l, e);
        assert forall|m: int| l < m < e implies !(#[trigger] lies_below(d, m, e)) by {
            if m < lo {
                if lies_below(d, m, e) {
                    assert(lies_below(d, m, lo));
                }
            } else {
                assert(d[m].depth >= d[lo].depth) by {
                    if m > lo {
                        assert(lies_below(d, lo, m));
                    }
                }
            }
        }
    }
}

/// The text of a range of nodes is that of its parts, and that of one node is its own.
pub proof fn text_in_a_range_is_that_of_its_nodes(d: Seq<NodeView>, lo: int, mid: int, hi: int)
    requires
        lo <= mid <= hi,
    ensures
        text_in(d, lo, hi) == text_in(d, lo, mid) + text_in(d, mid, hi),
        text_in(d, mid, mid + 1) == (match d[mid].value {
            ValueView::Text(t) => t,
            _ => Seq::empty(),
        }),
    decreases hi - mid,
{
    reveal_with_fuel(text_in, 2);
    assert(text_in(d, mid, mid + 1) =~= own_text(d[mid]));
    if mid < hi {
        text_in_a_range_is_that_of_its_nodes(d, lo, mid, hi - 1);
        assert(text_in(d, lo, hi) =~= text_in(d, lo, mid) + text_in(d, mid, hi));
    } else {
        assert(text_in(d, lo, hi) =~= text_in(d, lo, mid) + text_in(d, mid, hi));
    }
}

// ---------------------------------------------------------------------------
// What is part of the text
// ---------------------------------------------------------------------------

/// The class of an element names a note.
pub open spec fn says_note(n: NodeView) -> bool {
    attr(n, "class"@) matches Some(c) && (contains(c, "footnote"@) || contains(c, "noteref"@))
}

/// An element refers to a place inside a document.
pub open spec fn leads_to_fragment(n: NodeView) -> bool {
    attr(n, "href"@) matches Some(h) && h.contains('#')
}

/// White space aside, one to three digits or signs with which notes are marked.
pub open spec fn is_note_sign(s: Seq<char>) -> bool {
    let t = trimmed(s);
    &&& 1 <= t.len() <= 3
    &&& forall|i: int|
        0 <= i < t.len() ==> {
            ||| '0' <= (#[trigger] t[i]) <= '9'
            ||| t[i] == '*'
            ||| t[i] == '\u{2020}'
            ||| t[i] == '\u{2021}'
            ||| t[i] == '\u{a7}'
            ||| t[i] == '\u{b6}'
        }
}

/// Node `j` is a link to a place inside a document, directly below node `k`.
pub open spec fn is_fragment_link_in(d: Seq<NodeView>, k: int, j: int) -> bool {
    &&& k < j < d.len()
    &&& parent(d, j) == Some(k)
    &&& d[j].value matches ValueView::Element { name, .. } && ascii_lowercase(name) == "a"@
    &&& leads_to_fragment(d[j])
}

/// What lies below node `k` is no part of the text of what stands around it: `k` is a line break,
/// a raised note, a note sign that leads to a note, or no element; or a list, where lists are to
/// be left out. A raised note has a note class or a link to a place inside a document in it. A
/// note sign is a link to such a place that has a note class or is made of a sign alone; any other
/// link is part of the text.
pub open spec fn hides(d: Seq<NodeView>, k: int, stop_at_lists: bool) -> bool {
    match d[k].value {
        ValueView::Element { name, .. } => {
            let tag = lowercase(name);
            ||| tag == "br"@
            ||| stop_at_lists && (tag == "ul"@ || tag == "ol"@)
            ||| tag == "sup"@ && (says_note(d[k]) || exists|j: int| is_fragment_link_in(d, k, j))
            ||| tag == "a"@ && leads_to_fragment(d[k]) && (says_note(d[k]) || is_note_sign(
                text_in(d, k, subtree_end(d, k)),
            ))
        },
        _ => true,
    }
}

/// Nothing from node `a` on that node `j` lies below hides it.
pub open spec fn is_part(d: Seq<NodeView>, a: int, j: int, stop_at_lists: bool) -> bool {
    forall|k: int| a <= k < j && #[trigger] lies_below(d, k, j) ==> !hides(d, k, stop_at_lists)
}

/// The characters of a text that are no white space.
pub open spec fn letters(s: Seq<char>) -> Seq<char> {
    s.filter(|c: char| !is_space(c))
}

/// The letters of the texts among the nodes `lo..hi` that are part of the text of what begins at
/// node `a`.
pub open spec fn letters_in(
    d: Seq<NodeView>,
    a: int,
    lo: int,
    hi: int,
    stop_at_lists: bool,
) -> Seq<char>
    decreases hi - lo,
{
    if lo >= hi {
        Seq::empty()
    } else {
        letters_in(d, a, lo, hi - 1, stop_at_lists) + (match d[hi - 1].value {
            ValueView::Text(t) => if is_part(d, a, hi - 1, stop_at_lists) {
                letters(t)
            } else {
                Seq::empty()
            },
            _ => Seq::empty(),
        })
    }
}

/// Lines after the nodes `lo..hi`: a text that is part of the whole goes on with the last line,
/// and a line break that is begins another.
pub open spec fn lines_after(
    lines: Seq<Seq<char>>,
    d: Seq<NodeView>,
    a: int,
    lo: int,
    hi: int,
    stop_at_lists: bool,
) -> Seq<Seq<char>>
    decreases hi - lo,
{
    if lo >= hi {
        lines
    } else {
        let before = lines_after(lines, d, a, lo, hi - 1, stop_at_lists);
        if !is_part(d, a, hi - 1, stop_at_lists) {
            before
        } else {
            match d[hi - 1].value {
                ValueView::Text(t) => before.drop_last().push(before.last() + t),
                ValueView::Element { name, .. } => if lowercase(name) == "br"@ {
                    before.push(Seq::empty())
                } else {
                    before
                },
                ValueView::Other => before,
            }
        }
    }
}

/// The lines that hold words, each as its words with one space between any two.
pub open spec fn worded(lines: Seq<Seq<char>>) -> Seq<Seq<char>> {
    lines.map_values(|l: Seq<char>| join(words(l), " "@)).filter(|l: Seq<char>| l.len() > 0)
}

// ---------------------------------------------------------------------------
// Letters
// ---------------------------------------------------------------------------

pub(crate) proof fn lemma_letters_add(a: Seq<char>, b: Seq<char>)
    ensures
        letters(a + b) == letters(a) + letters(b),
{
    Seq::filter_distributes_over_add(a, b, |c: char| !is_space(c));
}

pub(crate) proof fn lemma_letters_push(s: Seq<char>, c: char)
    ensures
        is_space(c) ==> letters(s.push(c)) == letters(s),
        !is_space(c) ==> letters(s.push(c)) == letters(s).push(c),
{
    s.lemma_filter_push(c, |c: char| !is_space(c));
}

pub(crate) proof fn lemma_letters_empty(s: Seq<char>)
    requires
        s.len() == 0,
    ensures
        letters(s).len() == 0,
{
    s.lemma_filter_len(|c: char| !is_space(c));
}

proof fn lemma_letters_in_split(
    d: Seq<NodeView>,
    a: int,
    lo: int,
    mid: int,
    hi: int,
    stop: bool,
)
    requires
        lo <= mid <= hi,
    ensures
        letters_in(d, a, lo, hi, stop) == letters_in(d, a, lo, mid, stop) + letters_in(
            d,
            a,
            mid,
            hi,
            stop,
        ),
    decreases hi - mid,
{
    if mid < hi {
        lemma_letters_in_split(d, a, lo, mid, hi - 1, stop);
    }
    assert(letters_in(d, a, lo, hi, stop) =~= letters_in(d, a, lo, mid, stop) + letters_in(
        d,
        a,
        mid,
        hi,
        stop,
    ));
}

proof fn lemma_letters_in_same(
    d: Seq<NodeView>,
    a: int,
    b: int,
    lo: int,
    hi: int,
    stop: bool,
)
    requires
        forall|j: int|
            lo <= j < hi ==> #[trigger] is_part(d, a, j, stop) == is_part(d, b, j, stop),
    ensures
        letters_in(d, a, lo, hi, stop) == letters_in(d, b, lo, hi, stop),
    decreases hi - lo,
{
    if lo < hi {
        lemma_letters_in_same(d, a, b, lo, hi - 1, stop);
        assert(is_part(d, a, hi - 1, stop) == is_part(d, b, hi - 1, stop));
    }
}

proof fn lemma_letters_in_none(d: Seq<NodeView>, a: int, lo: int, hi: int, stop: bool)
    requires
        forall|j: int| lo <= j < hi ==> !#[trigger] is_part(d, a, j, stop),
    ensures
        letters_in(d, a, lo, hi, stop).len() == 0,
    decreases hi - lo,
{
    if lo < hi {
        lemma_letters_in_none(d, a, lo, hi - 1, stop);
        assert(!is_part(d, a, hi - 1, stop));
    }
}

proof fn lemma_lines_split(
    lines: Seq<Seq<char>>,
    d: Seq<NodeView>,
    a: int,
    lo: int,
    mid: int,
    hi: int,
    stop: bool,
)
    requires
        lo <= mid <= hi,
    ensures
        lines_after(lines, d, a, lo, hi, stop) == lines_after(
            lines_after(lines, d, a, lo, mid, stop),
            d,
            a,
            mid,
            hi,
            stop,
        ),
    decreases hi - mid,
{
    if mid < hi {
        lemma_lines_split(lines, d, a, lo, mid, hi - 1, stop);
    }
}

proof fn lemma_lines_same(
    lines: Seq<Seq<char>>,
    d: Seq<NodeView>,
    a: int,
    b: int,
    lo: int,
    hi: int,
    stop: bool,
)
    requires
        forall|j: int|
            lo <= j < hi ==> #[trigger] is_part(d, a, j, stop) == is_part(d, b, j, stop),
    ensures
        lines_after(lines, d, a, lo, hi, stop) == lines_after(lines, d, b, lo, hi, stop),
    decreases hi - lo,
{
    if lo < hi {
        lemma_lines_same(lines, d, a, b, lo, hi - 1, stop);
        assert(is_part(d, a, hi - 1, stop) == is_part(d, b, hi - 1, stop));
    }
}

proof fn lemma_lines_none(
    lines: Seq<Seq<char>>,
    d: Seq<NodeView>,
    a: int,
    lo: int,
    hi: int,
    stop: bool,
)
    requires
        forall|j: int| lo <= j < hi ==> !#[trigger] is_part(d, a, j, stop),
    ensures
        lines_after(lines, d, a, lo, hi, stop) == lines,
    decreases hi - lo,
{
    if lo < hi {
        lemma_lines_none(lines, d, a, lo, hi - 1, stop);
        assert(!is_part(d, a, hi - 1, stop));
    }
}

proof fn lemma_lines_some(
    lines: Seq<Seq<char>>,
    d: Seq<NodeView>,
    a: int,
    lo: int,
    hi: int,
    stop: bool,
)
    requires
        lines.len() > 0,
    ensures
        lines_after(lines, d, a, lo, hi, stop).len() > 0,
    decreases hi - lo,
{
    if lo < hi {
        lemma_lines_some(lines, d, a, lo, hi - 1, stop);
    }
}

// ---------------------------------------------------------------------------
// One step of the walk
// ---------------------------------------------------------------------------

/// No subtree of the nodes `lo..hi` reaches beyond `hi`.
spec fn closes(d: Seq<NodeView>, lo: int, hi: int) -> bool {
    &&& 0 <= lo
    &&& hi <= d.len()
    &&& hi < d.len() ==> forall|k: int| lo <= k < hi ==> d[hi].depth <= (#[trigger] d[k]).depth
}

proof fn lemma_node_end(d: Seq<NodeView>, lo: int, hi: int)
    requires
        lo < hi,
        closes(d, lo, hi),
    ensures
        node_end(d, lo, hi) == subtree_end(d, lo),
        lo < node_end(d, lo, hi) <= hi,
        closes(d, lo + 1, node_end(d, lo, hi)),
        closes(d, node_end(d, lo, hi), hi),
        node_end(d, lo, hi) < d.len() ==> d[node_end(d, lo, hi)].depth <= d[lo].depth,
        forall|j: int| lo < j < node_end(d, lo, hi) ==> lies_below(d, lo, j),
        forall|k: int, j: int|
            lo <= k < node_end(d, lo, hi) <= j < hi ==> !#[trigger] lies_below(d, k, j),
{
    lemma_end_from(d, d[lo].depth, lo + 1);
    let e = subtree_end(d, lo);
    if e > hi {
        assert(d[hi].depth > d[lo].depth);
    }
    assert forall|k: int, j: int| lo <= k < e <= j < hi implies !#[trigger] lies_below(d, k, j) by {
        assert(d[e].depth <= d[lo].depth);
        assert(d[k].depth >= d[lo].depth);
        if lies_below(d, k, j) {
            assert(d[e].depth > d[k].depth);
        }
    }
    assert forall|j: int| lo < j < e implies lies_below(d, lo, j) by {
        subtrees_hold_what_lies_below(d, lo, j);
    }
}

proof fn lemma_fragment_link(d: Seq<NodeView>, k: int, lo: int, hi: int)
    requires
        0 <= k < lo <= hi,
        closes(d, lo, hi),
        hi == subtree_end(d, k),
        k < d.len(),
        forall|m: int| lo <= m < hi ==> (#[trigger] d[m]).depth > d[k].depth,
        forall|m: int| k < m < lo && lo < hi ==> (#[trigger] d[m]).depth >= d[lo].depth,
    ensures
        has_fragment_link(d, lo, hi) <==> exists|j: int| lo <= j && is_fragment_link_in(d, k, j),
    decreases hi - lo,
{
    reveal_strlit("a");
    assert(ascii_lowercase("a"@) =~= "a"@);
    if lo < hi {
        let e = node_end(d, lo, hi);
        lemma_node_end(d, lo, hi);
        if e < hi {
            assert forall|m: int| k < m < e implies (#[trigger] d[m]).depth >= d[e].depth by {
                assert(d[e].depth <= d[lo].depth);
                if m >= lo {
                    if m > lo {
                        assert(lies_below(d, lo, m));
                    }
                }
            }
        }
        lemma_fragment_link(d, k, e, hi);
        assert(lies_below(d, k, lo));
        parents_are_nearest_above(d, k, lo);
        assert forall|m: int| k < m < lo implies !(#[trigger] lies_below(d, m, lo)) by {
            assert(d[m].depth >= d[lo].depth);
        }
        assert(parent(d, lo) == Some(k));
        if exists|j: int| lo <= j && is_fragment_link_in(d, k, j) {
            let j = choose|j: int| lo <= j && is_fragment_link_in(d, k, j);
            if j != lo && j < e {
                parents_are_nearest_above(d, k, j);
                assert(lies_below(d, lo, j));
            }
            if j == lo {
                assert(has_fragment_link(d, lo, hi));
            }
        }
        if has_fragment_link(d, e, hi) {
            let j = choose|j: int| e <= j && is_fragment_link_in(d, k, j);
            assert(lo <= j && is_fragment_link_in(d, k, j));
        }
        if is_fragment_link_in(d, k, lo) {
            assert(lo <= lo && is_fragment_link_in(d, k, lo));
        }
    } else {
        assert forall|j: int| lo <= j implies !is_fragment_link_in(d, k, j) by {
            if is_fragment_link_in(d, k, j) {
                parents_are_nearest_above(d, k, j);
                subtrees_hold_what_lies_below(d, k, j);
            }
        }
    }
}

proof fn lemma_hides(d: Seq<NodeView>, k: int, stop: bool)
    requires
        0 <= k < d.len(),
        d[k].value is Element,
    ensures
        hides(d, k, stop) == ({
            let tag = tag_of(d[k]);
            ||| stop && (tag == "ul"@ || tag == "ol"@)
            ||| tag == "br"@
            ||| is_note_reference(d, k, subtree_end(d, k))
        }),
{
    let e = subtree_end(d, k);
    lemma_end_from(d, d[k].depth, k + 1);
    assert(closes(d, k + 1, e));
    lemma_fragment_link(d, k, k + 1, e);
    if exists|j: int| is_fragment_link_in(d, k, j) {
        let j = choose|j: int| is_fragment_link_in(d, k, j);
        assert(k + 1 <= j && is_fragment_link_in(d, k, j));
    }
    let t = text_in(d, k, e);
    assert(is_note_sign(t) == is_marker_text(t)) by {
        let s = trimmed(t);
        if is_note_sign(t) {
            assert forall|i: int| 0 <= i < s.len() implies crate::dom::is_marker_char(#[trigger] s[i]) by {
                lemma_digits(s[i]);
            }
        }
        if is_marker_text(t) {
            assert forall|i: int| 0 <= i < s.len() implies {
                ||| '0' <= (#[trigger] s[i]) <= '9'
                ||| s[i] == '*'
                ||| s[i] == '\u{2020}'
                ||| s[i] == '\u{2021}'
                ||| s[i] == '\u{a7}'
                ||| s[i] == '\u{b6}'
            } by {
                assert(crate::dom::is_marker_char(s[i]));
                lemma_digits(s[i]);
            }
        }
    }
}

proof fn lemma_digits(c: char)
    ensures
        '0' <= c <= '9' <==> crate::dom::is_digit(c),
{
}


/// A kind of span and the elements that stand for it.
pub open spec fn is_kind_of(kind: Seq<char>, tag: Seq<char>) -> bool {
    ||| kind == "italic"@ && (tag == "em"@ || tag == "i"@)
    ||| kind == "bold"@ && (tag == "strong"@ || tag == "b"@)
    ||| kind == "code"@ && (tag == "code"@ || tag == "tt"@ || tag == "kbd"@ || tag == "samp"@)
    ||| kind == "strikethrough"@ && (tag == "s"@ || tag == "strike"@ || tag == "del"@)
    ||| kind == "underline"@ && (tag == "u"@ || tag == "ins"@)
    ||| kind == "highlight"@ && tag == "mark"@
    ||| kind == "small"@ && tag == "small"@
    ||| kind == "subscript"@ && tag == "sub"@
    ||| kind == "superscript"@ && tag == "sup"@
}

/// A span of this kind and with this address stands for an element: a link for an `a` that leads
/// there, and any other kind for the elements of that kind.
pub open spec fn stands_for(n: NodeView, kind: Seq<char>, href: Option<Seq<char>>) -> bool {
    n.value matches ValueView::Element { name, .. } && {
        ||| lowercase(name) == "a"@ && kind == "link"@ && href is Some && attr(n, "href"@) == href
        ||| href is None && is_kind_of(kind, lowercase(name))
    }
}

proof fn lemma_kinds(tag: Seq<char>, kind: Seq<char>)
    ensures
        is_kind_of(kind, tag) ==> span_kind(tag) == Some(kind) && tag != "a"@,
        span_kind(tag) matches Some(k) ==> is_kind_of(k, tag),
{
    reveal_strlit("a");
    reveal_strlit("em");
    reveal_strlit("i");
    reveal_strlit("strong");
    reveal_strlit("b");
    reveal_strlit("code");
    reveal_strlit("tt");
    reveal_strlit("kbd");
    reveal_strlit("samp");
    reveal_strlit("s");
    reveal_strlit("strike");
    reveal_strlit("del");
    reveal_strlit("u");
    reveal_strlit("ins");
    reveal_strlit("mark");
    reveal_strlit("small");
    reveal_strlit("sub");
    reveal_strlit("sup");
    assert(tag == "a"@ ==> tag.len() == 1 && tag[0] == 'a');
    assert(tag == "em"@ ==> tag.len() == 2 && tag[0] == 'e' && tag[1] == 'm');
    assert(tag == "i"@ ==> tag.len() == 1 && tag[0] == 'i');
    assert(tag == "strong"@ ==> tag.len() == 6 && tag[0] == 's' && tag[1] == 't' && tag[2] == 'r' && tag[3] == 'o' && tag[4] == 'n' && tag[5] == 'g');
    assert(tag == "b"@ ==> tag.len() == 1 && tag[0] == 'b');
    assert(tag == "code"@ ==> tag.len() == 4 && tag[0] == 'c' && tag[1] == 'o' && tag[2] == 'd' && tag[3] == 'e');
    assert(tag == "tt"@ ==> tag.len() == 2 && tag[0] == 't' && tag[1] == 't');
    assert(tag == "kbd"@ ==> tag.len() == 3 && tag[0] == 'k' && tag[1] == 'b' && tag[2] == 'd');
    assert(tag == "samp"@ ==> tag.len() == 4 && tag[0] == 's' && tag[1] == 'a' && tag[2] == 'm' && tag[3] == 'p');
    assert(tag == "s"@ ==> tag.len() == 1 && tag[0] == 's');
    assert(tag == "strike"@ ==> tag.len() == 6 && tag[0] == 's' && tag[1] == 't' && tag[2] == 'r' && tag[3] == 'i' && tag[4] == 'k' && tag[5] == 'e');
    assert(tag == "del"@ ==> tag.len() == 3 && tag[0] == 'd' && tag[1] == 'e' && tag[2] == 'l');
    assert(tag == "u"@ ==> tag.len() == 1 && tag[0] == 'u');
    assert(tag == "ins"@ ==> tag.len() == 3 && tag[0] == 'i' && tag[1] == 'n' && tag[2] == 's');
    assert(tag == "mark"@ ==> tag.len() == 4 && tag[0] == 'm' && tag[1] == 'a' && tag[2] == 'r' && tag[3] == 'k');
    assert(tag == "small"@ ==> tag.len() == 5 && tag[0] == 's' && tag[1] == 'm' && tag[2] == 'a' && tag[3] == 'l' && tag[4] == 'l');
    assert(tag == "sub"@ ==> tag.len() == 3 && tag[0] == 's' && tag[1] == 'u' && tag[2] == 'b');
    assert(tag == "sup"@ ==> tag.len() == 3 && tag[0] == 's' && tag[1] == 'u' && tag[2] == 'p');
}

proof fn lemma_span_kinds(
    n: NodeView,
    start: int,
    end: int,
    kind: Seq<char>,
    href: Option<Seq<char>>,
)
    requires
        start < end,
        n.value is Element,
    ensures
        stands_for(n, kind, href) ==> span_for(n, start, end) == Some(
            SpanView { start, end, span_type: kind, href },
        ),
        span_for(n, start, end) matches Some(s) ==> s.start == start && s.end == end && stands_for(
            n,
            s.span_type,
            s.href,
        ),
{
    lemma_kinds(tag_of(n), kind);
}

// ---------------------------------------------------------------------------
// The walk
// ---------------------------------------------------------------------------

/// The later text goes on from the earlier one: up to each of its places it has the same letters.
spec fn goes_on(a: Seq<char>, b: Seq<char>) -> bool {
    &&& a.len() <= b.len()
    &&& forall|p: int| 0 <= p <= a.len() ==> letters(#[trigger] b.take(p)) == letters(a.take(p))
}

proof fn lemma_goes_on_push(a: Seq<char>, c: char)
    ensures
        goes_on(a, a.push(c)),
{
    assert forall|p: int| 0 <= p <= a.len() implies letters(#[trigger] a.push(c).take(p)) == letters(
        a.take(p),
    ) by {
        assert(a.push(c).take(p) =~= a.take(p));
    }
}

proof fn lemma_goes_on(a: Seq<char>, b: Seq<char>, c: Seq<char>)
    requires
        goes_on(a, b),
        goes_on(b, c),
    ensures
        goes_on(a, c),
{
    assert forall|p: int| 0 <= p <= a.len() implies letters(#[trigger] c.take(p)) == letters(a.take(p)) by {
        assert(letters(b.take(p)) == letters(a.take(p)));
    }
}

proof fn lemma_feed_letters(col: CollectorView, text: Seq<char>)
    requires
        col.tidy(),
    ensures
        col.feed(text).tidy(),
        letters(col.feed(text).chars) == letters(col.chars) + letters(text),
        goes_on(col.chars, col.feed(text).chars),
    decreases text.len(),
{
    if text.len() == 0 {
        lemma_letters_empty(text);
        assert(letters(col.chars) + letters(text) =~= letters(col.chars));
    } else {
        let front = text.drop_last();
        let c = text.last();
        lemma_feed_letters(col, front);
        let before = col.feed(front);
        let after = col.feed(text);
        assert(front.push(c) =~= text);
        lemma_letters_push(front, c);
        if !is_space(c) {
            if before.pending {
                lemma_letters_push(before.chars, ' ');
                lemma_letters_push(before.chars.push(' '), c);
                lemma_goes_on_push(before.chars, ' ');
                lemma_goes_on_push(before.chars.push(' '), c);
                lemma_goes_on(before.chars, before.chars.push(' '), after.chars);
            } else {
                lemma_letters_push(before.chars, c);
                lemma_goes_on_push(before.chars, c);
            }
            lemma_goes_on(col.chars, before.chars, after.chars);
        }
        assert(letters(after.chars) =~= letters(col.chars) + letters(text));
    }
}

proof fn lemma_flush_letters(col: CollectorView)
    requires
        col.tidy(),
    ensures
        col.flush().tidy(),
        letters(col.flush().chars) == letters(col.chars),
        goes_on(col.chars, col.flush().chars),
{
    if col.pending && col.chars.len() > 0 {
        lemma_letters_push(col.chars, ' ');
        lemma_goes_on_push(col.chars, ' ');
    }
}

proof fn lemma_break_letters(col: CollectorView)
    requires
        col.tidy(),
    ensures
        col.line_break().tidy(),
        letters(col.line_break().chars) == letters(col.chars),
        goes_on(col.chars, col.line_break().chars),
{
    let a = col.chars;
    let b = col.line_break().chars;
    if a.len() > 0 && a.last() != '\n' {
        if a.last() == ' ' {
            let front = a.drop_last();
            assert(front.push(' ') =~= a);
            lemma_letters_push(front, ' ');
            lemma_letters_push(front, '\n');
            assert forall|p: int| 0 <= p <= a.len() implies letters(#[trigger] b.take(p)) == letters(
                a.take(p),
            ) by {
                if p < a.len() {
                    assert(b.take(p) =~= a.take(p));
                } else {
                    assert(b.take(p) =~= b);
                    assert(a.take(p) =~= a);
                }
            }
        } else {
            lemma_letters_push(a, '\n');
            lemma_goes_on_push(a, '\n');
        }
    }
}

/// The span covers what lies below node `k`, in a text that has the letters `base` before the
/// nodes from `a` on, and stands for that node.
pub open spec fn covers(
    s: SpanView,
    d: Seq<NodeView>,
    a: int,
    k: int,
    chars: Seq<char>,
    base: Seq<char>,
    stop_at_lists: bool,
) -> bool {
    &&& 0 <= s.start <= s.end <= chars.len()
    &&& letters(chars.take(s.start)) == base + letters_in(d, a, a, k, stop_at_lists)
    &&& letters(chars.take(s.end)) == base + letters_in(d, a, a, subtree_end(d, k), stop_at_lists)
    &&& stands_for(d[k], s.span_type, s.href)
}

/// The span stands for an element among `lo..hi` that is part of the text.
pub open spec fn is_right(
    s: SpanView,
    d: Seq<NodeView>,
    lo: int,
    hi: int,
    chars: Seq<char>,
    base: Seq<char>,
    stop_at_lists: bool,
) -> bool {
    exists|k: int|
        lo <= k < hi && is_part(d, lo, k, stop_at_lists) && !hides(d, k, stop_at_lists) && #[trigger] covers(
            s,
            d,
            lo,
            k,
            chars,
            base,
            stop_at_lists,
        )
}

/// Among the spans from place `from` on there is one of this kind and with this address that
/// covers what lies below node `k`.
pub open spec fn is_there(
    spans: Seq<SpanView>,
    from: int,
    kind: Seq<char>,
    href: Option<Seq<char>>,
    d: Seq<NodeView>,
    lo: int,
    k: int,
    chars: Seq<char>,
    base: Seq<char>,
    stop_at_lists: bool,
) -> bool {
    exists|x: int|
        from <= x < spans.len() && #[trigger] covers(spans[x], d, lo, k, chars, base, stop_at_lists)
            && spans[x].span_type == kind && spans[x].href == href
}

/// Node `k` is part of the text from `lo` on, has letters, and is what a span of this kind and
/// with this address stands for.
pub open spec fn asks_for_span(
    d: Seq<NodeView>,
    lo: int,
    k: int,
    kind: Seq<char>,
    href: Option<Seq<char>>,
    stop_at_lists: bool,
) -> bool {
    &&& is_part(d, lo, k, stop_at_lists)
    &&& !hides(d, k, stop_at_lists)
    &&& stands_for(d[k], kind, href)
    &&& letters_in(d, lo, k, subtree_end(d, k), stop_at_lists).len() > 0
}

spec fn spans_are_right(
    spans: Seq<SpanView>,
    from: int,
    d: Seq<NodeView>,
    lo: int,
    hi: int,
    chars: Seq<char>,
    base: Seq<char>,
    stop: bool,
) -> bool {
    forall|x: int| from <= x < spans.len() ==> is_right(#[trigger] spans[x], d, lo, hi, chars, base, stop)
}

spec fn spans_are_there(
    spans: Seq<SpanView>,
    from: int,
    d: Seq<NodeView>,
    lo: int,
    hi: int,
    chars: Seq<char>,
    base: Seq<char>,
    stop: bool,
) -> bool {
    forall|k: int, kind: Seq<char>, href: Option<Seq<char>>|
        lo <= k < hi && #[trigger] asks_for_span(d, lo, k, kind, href, stop) ==> is_there(
            spans,
            from,
            kind,
            href,
            d,
            lo,
            k,
            chars,
            base,
            stop,
        )
}

proof fn lemma_parts(d: Seq<NodeView>, lo: int, hi: int, stop: bool)
    requires
        lo < hi,
        closes(d, lo, hi),
    ensures
        ({
            let e = node_end(d, lo, hi);
            &&& forall|j: int| e <= j < hi ==> #[trigger] is_part(d, lo, j, stop) == is_part(d, e, j, stop)
            &&& !hides(d, lo, stop) ==> forall|j: int|
                lo < j < e ==> #[trigger] is_part(d, lo, j, stop) == is_part(d, lo + 1, j, stop)
            &&& hides(d, lo, stop) ==> forall|j: int| lo < j < e ==> !#[trigger] is_part(d, lo, j, stop)
            &&& is_part(d, lo, lo, stop)
        }),
{
    lemma_node_end(d, lo, hi);
    let e = node_end(d, lo, hi);
    assert forall|j: int| lo < j < e && hides(d, lo, stop) implies !#[trigger] is_part(d, lo, j, stop) by {
        assert(lies_below(d, lo, j));
    }
}

proof fn lemma_walk_letters(d: Seq<NodeView>, lo: int, hi: int, stop: bool, w: WalkView)
    requires
        closes(d, lo, hi),
        w.col.tidy(),
    ensures
        ({
            let r = walked(d, lo, hi, stop, w);
            &&& r.col.tidy()
            &&& letters(r.col.chars) == letters(w.col.chars) + letters_in(d, lo, lo, hi, stop)
            &&& goes_on(w.col.chars, r.col.chars)
            &&& w.spans.len() <= r.spans.len()
            &&& r.spans.take(w.spans.len() as int) == w.spans
        }),
    decreases hi - lo, 1int,
{
    if lo >= hi {
        assert(letters(w.col.chars) + letters_in(d, lo, lo, hi, stop) =~= letters(w.col.chars));
        assert(w.spans.take(w.spans.len() as int) =~= w.spans);
    } else {
        let e = node_end(d, lo, hi);
        lemma_node_end(d, lo, hi);
        lemma_parts(d, lo, hi, stop);
        let after = step_after(d, lo, e, stop, w);
        lemma_step(d, lo, hi, stop, w);
        lemma_walk_letters(d, e, hi, stop, after);
        let r = walked(d, lo, hi, stop, w);
        lemma_letters_in_split(d, lo, lo, e, hi, stop);
        lemma_letters_in_same(d, lo, e, e, hi, stop);
        lemma_goes_on(w.col.chars, after.col.chars, r.col.chars);
        assert(letters(r.col.chars) =~= letters(w.col.chars) + letters_in(d, lo, lo, hi, stop));
        assert(r.spans.take(w.spans.len() as int) =~= after.spans.take(w.spans.len() as int));
    }
}

/// The walk after the node at `lo`, whose subtree ends at `e`.
spec fn step_after(d: Seq<NodeView>, lo: int, e: int, stop: bool, w: WalkView) -> WalkView {
    let tag = tag_of(d[lo]);
    match d[lo].value {
        ValueView::Text(t) => WalkView { col: w.col.feed(t), spans: w.spans },
        ValueView::Element { .. } => {
            if stop && (tag == "ul"@ || tag == "ol"@) {
                w
            } else if tag == "br"@ {
                WalkView { col: w.col.line_break(), spans: w.spans }
            } else if is_note_reference(d, lo, e) {
                w
            } else {
                let start = WalkView { col: w.col.flush(), spans: w.spans };
                let inner = walked(d, lo + 1, e, stop, start);
                match span_for(d[lo], start.col.chars.len() as int, inner.col.chars.len() as int) {
                    Some(span) => WalkView { col: inner.col, spans: inner.spans.push(span) },
                    None => inner,
                }
            }
        },
        ValueView::Other => w,
    }
}

proof fn lemma_step(d: Seq<NodeView>, lo: int, hi: int, stop: bool, w: WalkView)
    requires
        lo < hi,
        closes(d, lo, hi),
        w.col.tidy(),
    ensures
        ({
            let e = node_end(d, lo, hi);
            let r = step_after(d, lo, e, stop, w);
            &&& walked(d, lo, hi, stop, w) == walked(d, e, hi, stop, r)
            &&& r.col.tidy()
            &&& letters(r.col.chars) == letters(w.col.chars) + letters_in(d, lo, lo, e, stop)
            &&& goes_on(w.col.chars, r.col.chars)
            &&& w.spans.len() <= r.spans.len()
            &&& r.spans.take(w.spans.len() as int) == w.spans
        }),
    decreases hi - lo, 0int,
{
    let e = node_end(d, lo, hi);
    lemma_node_end(d, lo, hi);
    lemma_parts(d, lo, hi, stop);
    let r = step_after(d, lo, e, stop, w);
    lemma_letters_in_split(d, lo, lo, lo + 1, e, stop);
    reveal_with_fuel(letters_in, 2);
    assert(w.spans.take(w.spans.len() as int) =~= w.spans);
    if hides(d, lo, stop) {
        lemma_letters_in_none(d, lo, lo + 1, e, stop);
    } else {
        lemma_letters_in_same(d, lo, lo + 1, lo + 1, e, stop);
    }
    match d[lo].value {
        ValueView::Text(t) => {
            lemma_feed_letters(w.col, t);
        },
        ValueView::Element { .. } => {
            lemma_hides(d, lo, stop);
            if hides(d, lo, stop) {
                lemma_break_letters(w.col);
            } else {
                let start = WalkView { col: w.col.flush(), spans: w.spans };
                lemma_flush_letters(w.col);
                lemma_walk_letters(d, lo + 1, e, stop, start);
                let inner = walked(d, lo + 1, e, stop, start);
                lemma_goes_on(w.col.chars, start.col.chars, inner.col.chars);
                assert(r.spans.take(w.spans.len() as int) =~= inner.spans.take(w.spans.len() as int));
            }
        },
        ValueView::Other => {},
    }
    assert(letters(r.col.chars) =~= letters(w.col.chars) + letters_in(d, lo, lo, e, stop));
}


proof fn lemma_covers_on(
    s: SpanView,
    d: Seq<NodeView>,
    a: int,
    k: int,
    before: Seq<char>,
    after: Seq<char>,
    base: Seq<char>,
    stop: bool,
)
    requires
        covers(s, d, a, k, before, base, stop),
        goes_on(before, after),
    ensures
        covers(s, d, a, k, after, base, stop),
{
    assert(letters(after.take(s.start)) == letters(before.take(s.start)));
    assert(letters(after.take(s.end)) == letters(before.take(s.end)));
}

/// What covers a node in a walk from `b` on covers it in one from `a` on, which has come to the
/// letters `more` by then.
proof fn lemma_covers_from(
    s: SpanView,
    d: Seq<NodeView>,
    a: int,
    b: int,
    k: int,
    end: int,
    chars: Seq<char>,
    base: Seq<char>,
    stop: bool,
)
    requires
        a <= b <= k < subtree_end(d, k) <= end,
        forall|j: int| b <= j < end ==> #[trigger] is_part(d, a, j, stop) == is_part(d, b, j, stop),
        covers(s, d, b, k, chars, base + letters_in(d, a, a, b, stop), stop),
    ensures
        covers(s, d, a, k, chars, base, stop),
{
    let e = subtree_end(d, k);
    lemma_letters_in_split(d, a, a, b, k, stop);
    lemma_letters_in_split(d, a, a, b, e, stop);
    lemma_letters_in_same(d, a, b, b, k, stop);
    lemma_letters_in_same(d, a, b, b, e, stop);
    let more = letters_in(d, a, a, b, stop);
    assert(base + more + letters_in(d, b, b, k, stop) =~= base + letters_in(d, a, a, k, stop));
    assert(base + more + letters_in(d, b, b, e, stop) =~= base + letters_in(d, a, a, e, stop));
}

proof fn lemma_ends_within(d: Seq<NodeView>, lo: int, hi: int, k: int)
    requires
        closes(d, lo, hi),
        lo <= k < hi,
    ensures
        k < subtree_end(d, k) <= hi,
{
    lemma_end_from(d, d[k].depth, k + 1);
    if subtree_end(d, k) > hi {
        assert(d[hi].depth > d[k].depth);
    }
}

/// What the spans of a walk say, from the place on at which it began.
spec fn spans_say(r: WalkView, d: Seq<NodeView>, lo: int, hi: int, w: WalkView, stop: bool) -> bool {
    let from = w.spans.len() as int;
    let base = letters(w.col.chars);
    &&& spans_are_right(r.spans, from, d, lo, hi, r.col.chars, base, stop)
    &&& spans_are_there(r.spans, from, d, lo, hi, r.col.chars, base, stop)
}

proof fn lemma_step_spans(d: Seq<NodeView>, lo: int, hi: int, stop: bool, w: WalkView)
    requires
        lo < hi,
        closes(d, lo, hi),
        w.col.tidy(),
    ensures
        spans_say(step_after(d, lo, node_end(d, lo, hi), stop, w), d, lo, node_end(d, lo, hi), w, stop),
    decreases hi - lo, 0int,
{
    let e = node_end(d, lo, hi);
    lemma_node_end(d, lo, hi);
    lemma_parts(d, lo, hi, stop);
    lemma_step(d, lo, hi, stop, w);
    let r = step_after(d, lo, e, stop, w);
    let from = w.spans.len() as int;
    let base = letters(w.col.chars);
    if d[lo].value is Element {
        lemma_hides(d, lo, stop);
    }
    if !hides(d, lo, stop) {
        let start = WalkView { col: w.col.flush(), spans: w.spans };
        lemma_flush_letters(w.col);
        lemma_walk_letters(d, lo + 1, e, stop, start);
        lemma_walk_spans(d, lo + 1, e, stop, start);
        let inner = walked(d, lo + 1, e, stop, start);
        let first = start.col.chars.len() as int;
        let last = inner.col.chars.len() as int;
        assert(inner.col.chars.take(last) =~= inner.col.chars);
        assert(start.col.chars.take(first) =~= start.col.chars);
        assert(letters(inner.col.chars.take(first)) == letters(start.col.chars.take(first)));
        reveal_with_fuel(letters_in, 2);
        assert(base + letters_in(d, lo, lo, lo, stop) =~= base);
        assert(base + letters_in(d, lo, lo, lo + 1, stop) =~= base);
        assert(r.col == inner.col);
        assert forall|x: int| from <= x < r.spans.len() implies is_right(
            #[trigger] r.spans[x],
            d,
            lo,
            e,
            r.col.chars,
            base,
            stop,
        ) by {
            if x < inner.spans.len() {
                assert(r.spans[x] == inner.spans[x]);
                assert(is_right(inner.spans[x], d, lo + 1, e, inner.col.chars, base, stop));
                let k = choose|k: int|
                    lo + 1 <= k < e && is_part(d, lo + 1, k, stop) && !hides(d, k, stop) && #[trigger] covers(
                        inner.spans[x],
                        d,
                        lo + 1,
                        k,
                        inner.col.chars,
                        base,
                        stop,
                    );
                lemma_ends_within(d, lo + 1, e, k);
                lemma_covers_from(inner.spans[x], d, lo, lo + 1, k, e, inner.col.chars, base, stop);
                assert(is_part(d, lo, k, stop));
                assert(covers(r.spans[x], d, lo, k, r.col.chars, base, stop));
            } else {
                lemma_span_kinds(d[lo], first, last, Seq::empty(), None);
                assert(covers(r.spans[x], d, lo, lo, r.col.chars, base, stop));
            }
        }
        assert forall|k: int, kind: Seq<char>, href: Option<Seq<char>>|
            lo <= k < e && #[trigger] asks_for_span(d, lo, k, kind, href, stop) implies is_there(
            r.spans,
            from,
            kind,
            href,
            d,
            lo,
            k,
            r.col.chars,
            base,
            stop,
        ) by {
            if k == lo {
                if first == last {
                    assert(inner.col.chars.take(first) =~= inner.col.chars);
                    assert(letters(inner.col.chars).len() == base.len() + letters_in(d, lo, lo, e, stop).len());
                    assert(false);
                }
                lemma_span_kinds(d[lo], first, last, kind, href);
                let x = inner.spans.len() as int;
                assert(r.spans[x] == SpanView { start: first, end: last, span_type: kind, href });
                assert(covers(r.spans[x], d, lo, lo, r.col.chars, base, stop));
            } else {
                lemma_ends_within(d, lo + 1, e, k);
                lemma_letters_in_same(d, lo, lo + 1, k, subtree_end(d, k), stop);
                assert(asks_for_span(d, lo + 1, k, kind, href, stop));
                let x = choose|x: int|
                    from <= x < inner.spans.len() && #[trigger] covers(
                        inner.spans[x],
                        d,
                        lo + 1,
                        k,
                        inner.col.chars,
                        base,
                        stop,
                    ) && inner.spans[x].span_type == kind && inner.spans[x].href == href;
                assert(r.spans[x] == inner.spans[x]);
                lemma_covers_from(inner.spans[x], d, lo, lo + 1, k, e, inner.col.chars, base, stop);
                assert(covers(r.spans[x], d, lo, k, r.col.chars, base, stop));
            }
        }
    } else {
        assert(r.spans.len() == from);
        assert forall|k: int, kind: Seq<char>, href: Option<Seq<char>>|
            lo <= k < e implies !#[trigger] asks_for_span(d, lo, k, kind, href, stop) by {
            if k > lo {
                assert(!is_part(d, lo, k, stop));
            }
        }
    }
}

proof fn lemma_walk_spans(d: Seq<NodeView>, lo: int, hi: int, stop: bool, w: WalkView)
    requires
        closes(d, lo, hi),
        w.col.tidy(),
    ensures
        spans_say(walked(d, lo, hi, stop, w), d, lo, hi, w, stop),
    decreases hi - lo, 1int,
{
    if lo < hi {
        let e = node_end(d, lo, hi);
        lemma_node_end(d, lo, hi);
        lemma_parts(d, lo, hi, stop);
        let mid = step_after(d, lo, e, stop, w);
        lemma_step(d, lo, hi, stop, w);
        lemma_step_spans(d, lo, hi, stop, w);
        lemma_walk_letters(d, e, hi, stop, mid);
        lemma_walk_spans(d, e, hi, stop, mid);
        let r = walked(d, lo, hi, stop, w);
        let from = w.spans.len() as int;
        let base = letters(w.col.chars);
        let cut = mid.spans.len() as int;
        assert forall|x: int| 0 <= x < cut implies r.spans[x] == mid.spans[x] by {
            assert(r.spans.take(cut)[x] == mid.spans[x]);
        }
        assert forall|x: int| from <= x < r.spans.len() implies is_right(
            #[trigger] r.spans[x],
            d,
            lo,
            hi,
            r.col.chars,
            base,
            stop,
        ) by {
            if x < cut {
                assert(r.spans[x] == mid.spans[x]);
                assert(is_right(mid.spans[x], d, lo, e, mid.col.chars, base, stop));
                let k = choose|k: int|
                    lo <= k < e && is_part(d, lo, k, stop) && !hides(d, k, stop) && #[trigger] covers(
                        mid.spans[x],
                        d,
                        lo,
                        k,
                        mid.col.chars,
                        base,
                        stop,
                    );
                lemma_covers_on(mid.spans[x], d, lo, k, mid.col.chars, r.col.chars, base, stop);
                assert(covers(r.spans[x], d, lo, k, r.col.chars, base, stop));
            } else {
                assert(is_right(r.spans[x], d, e, hi, r.col.chars, letters(mid.col.chars), stop));
                let k = choose|k: int|
                    e <= k < hi && is_part(d, e, k, stop) && !hides(d, k, stop) && #[trigger] covers(
                        r.spans[x],
                        d,
                        e,
                        k,
                        r.col.chars,
                        letters(mid.col.chars),
                        stop,
                    );
                lemma_ends_within(d, e, hi, k);
                lemma_covers_from(r.spans[x], d, lo, e, k, hi, r.col.chars, base, stop);
                assert(is_part(d, lo, k, stop));
                assert(covers(r.spans[x], d, lo, k, r.col.chars, base, stop));
            }
        }
        assert forall|k: int, kind: Seq<char>, href: Option<Seq<char>>|
            lo <= k < hi && #[trigger] asks_for_span(d, lo, k, kind, href, stop) implies is_there(
            r.spans,
            from,
            kind,
            href,
            d,
            lo,
            k,
            r.col.chars,
            base,
            stop,
        ) by {
            if k < e {
                let x = choose|x: int|
                    from <= x < mid.spans.len() && #[trigger] covers(
                        mid.spans[x],
                        d,
                        lo,
                        k,
                        mid.col.chars,
                        base,
                        stop,
                    ) && mid.spans[x].span_type == kind && mid.spans[x].href == href;
                assert(r.spans[x] == mid.spans[x]);
                lemma_covers_on(mid.spans[x], d, lo, k, mid.col.chars, r.col.chars, base, stop);
                assert(covers(r.spans[x], d, lo, k, r.col.chars, base, stop));
            } else {
                lemma_ends_within(d, e, hi, k);
                lemma_letters_in_same(d, lo, e, k, subtree_end(d, k), stop);
                assert(asks_for_span(d, e, k, kind, href, stop));
                let x = choose|x: int|
                    cut <= x < r.spans.len() && #[trigger] covers(
                        r.spans[x],
                        d,
                        e,
                        k,
                        r.col.chars,
                        letters(mid.col.chars),
                        stop,
                    ) && r.spans[x].span_type == kind && r.spans[x].href == href;
                lemma_covers_from(r.spans[x], d, lo, e, k, hi, r.col.chars, base, stop);
                assert(covers(r.spans[x], d, lo, k, r.col.chars, base, stop));
            }
        }
    }
}


spec fn cut_span(s: SpanView, len: int) -> SpanView {
    SpanView {
        end: if s.end > len {
            len
        } else {
            s.end
        },
        ..s
    }
}

proof fn lemma_clipped_from(spans: Seq<SpanView>, len: int, y: int)
    requires
        0 <= y < clipped(spans, len).len(),
    ensures
        exists|x: int|
            0 <= x < spans.len() && clipped(spans, len)[y] == cut_span(#[trigger] spans[x], len) && spans[x].start < len,
    decreases spans.len(),
{
    let front = spans.drop_last();
    let rest = clipped(front, len);
    if y < rest.len() {
        assert(clipped(spans, len)[y] == rest[y]);
        lemma_clipped_from(front, len, y);
        let x = choose|x: int|
            0 <= x < front.len() && clipped(front, len)[y] == cut_span(#[trigger] front[x], len) && front[x].start < len;
        assert(spans[x] == front[x]);
    } else {
        let x = spans.len() - 1;
        assert(clipped(spans, len)[y] == cut_span(spans[x], len));
    }
}

proof fn lemma_clipped_has(spans: Seq<SpanView>, len: int, x: int)
    requires
        0 <= x < spans.len(),
        spans[x].start < len,
        spans[x].start < spans[x].end,
    ensures
        exists|y: int|
            0 <= y < clipped(spans, len).len() && #[trigger] clipped(spans, len)[y] == cut_span(spans[x], len),
    decreases spans.len(),
{
    let front = spans.drop_last();
    let rest = clipped(front, len);
    let all = clipped(spans, len);
    if x < front.len() {
        lemma_clipped_has(front, len, x);
        assert(front[x] == spans[x]);
        let y = choose|y: int|
            0 <= y < clipped(front, len).len() && #[trigger] clipped(front, len)[y] == cut_span(front[x], len);
        assert(all[y] == rest[y]);
    } else {
        assert(all[rest.len() as int] == cut_span(spans[x], len));
    }
}

pub(crate) proof fn lemma_blank_letters(s: Seq<char>)
    requires
        forall|i: int| 0 <= i < s.len() ==> is_space(#[trigger] s[i]),
    ensures
        letters(s).len() == 0,
    decreases s.len(),
{
    if s.len() > 0 {
        let front = s.drop_last();
        assert forall|i: int| 0 <= i < front.len() implies is_space(#[trigger] front[i]) by {
            assert(front[i] == s[i]);
        }
        lemma_blank_letters(front);
        lemma_letters_push(front, s.last());
        assert(front.push(s.last()) =~= s);
    } else {
        lemma_letters_empty(s);
    }
}

proof fn lemma_trim_end_rest(s: Seq<char>)
    ensures
        trim_end(s).len() <= s.len(),
        trim_end(s) == s.take(trim_end(s).len() as int),
        forall|i: int| trim_end(s).len() <= i < s.len() ==> is_space(#[trigger] s[i]),
    decreases s.len(),
{
    if s.len() > 0 && is_space(s.last()) {
        let front = s.drop_last();
        lemma_trim_end_rest(front);
        assert(front.take(trim_end(s).len() as int) =~= s.take(trim_end(s).len() as int));
        assert forall|i: int| trim_end(s).len() <= i < s.len() implies is_space(#[trigger] s[i]) by {
            if i < front.len() {
                assert(front[i] == s[i]);
            }
        }
    } else {
        assert(s.take(s.len() as int) =~= s);
    }
}

/// Up to each place, a text trimmed at its end has the letters of the whole; none is behind it.
pub(crate) proof fn lemma_trim_letters(s: Seq<char>, p: int)
    requires
        0 <= p <= s.len(),
    ensures
        p <= trim_end(s).len() ==> letters(trim_end(s).take(p)) == letters(s.take(p)),
        p >= trim_end(s).len() ==> letters(trim_end(s)) == letters(s.take(p)),
{
    lemma_trim_end_rest(s);
    let t = trim_end(s);
    if p <= t.len() {
        assert(t.take(p) =~= s.take(p));
    }
    if p >= t.len() {
        let rest = s.subrange(t.len() as int, p);
        assert(s.take(p) =~= t + rest);
        lemma_letters_add(t, rest);
        lemma_blank_letters(rest);
        assert(letters(t) + letters(rest) =~= letters(t));
    }
}

proof fn lemma_whole_walk(d: Seq<NodeView>, i: int, stop: bool)
    requires
        0 <= i < d.len(),
    ensures
        ({
            let w0 = WalkView { col: CollectorView::empty(), spans: Seq::empty() };
            let e = subtree_end(d, i);
            let r = walked(d, i + 1, e, stop, w0);
            &&& i < e <= d.len()
            &&& closes(d, i + 1, e)
            &&& extracted(d, i, stop).text == trim_end(r.col.chars)
            &&& extracted(d, i, stop).spans == clipped(r.spans, trim_end(r.col.chars).len() as int)
            &&& letters(r.col.chars) == letters_in(d, i + 1, i + 1, e, stop)
            &&& spans_are_right(r.spans, 0, d, i + 1, e, r.col.chars, Seq::empty(), stop)
            &&& spans_are_there(r.spans, 0, d, i + 1, e, r.col.chars, Seq::empty(), stop)
        }),
{
    let w0 = WalkView { col: CollectorView::empty(), spans: Seq::empty() };
    lemma_end_from(d, d[i].depth, i + 1);
    let e = subtree_end(d, i);
    lemma_walk_letters(d, i + 1, e, stop, w0);
    lemma_walk_spans(d, i + 1, e, stop, w0);
    lemma_letters_empty(w0.col.chars);
    assert(letters(w0.col.chars) =~= Seq::<char>::empty());
    assert(Seq::<char>::empty() + letters_in(d, i + 1, i + 1, e, stop) =~= letters_in(d, i + 1, i + 1, e, stop));
}

/// Extracting the text of an element keeps its words: the letters of the text are, in order,
/// those of all texts below the element that nothing in between hides.
pub proof fn extraction_keeps_the_letters(d: Seq<NodeView>, i: int, stop_at_lists: bool)
    requires
        0 <= i < d.len(),
    ensures
        letters(extracted(d, i, stop_at_lists).text) == letters_in(
            d,
            i + 1,
            i + 1,
            subtree_end(d, i),
            stop_at_lists,
        ),
{
    lemma_whole_walk(d, i, stop_at_lists);
    let w0 = WalkView { col: CollectorView::empty(), spans: Seq::empty() };
    let chars = walked(d, i + 1, subtree_end(d, i), stop_at_lists, w0).col.chars;
    lemma_trim_end_rest(chars);
    lemma_trim_letters(chars, chars.len() as int);
    assert(chars.take(chars.len() as int) =~= chars);
}

/// Every span of an element's text stands for an element below it and covers the letters of that
/// element, no more and no fewer.
pub proof fn spans_cover_their_elements(d: Seq<NodeView>, i: int, stop_at_lists: bool, y: int)
    requires
        0 <= i < d.len(),
        0 <= y < extracted(d, i, stop_at_lists).spans.len(),
    ensures
        is_right(
            extracted(d, i, stop_at_lists).spans[y],
            d,
            i + 1,
            subtree_end(d, i),
            extracted(d, i, stop_at_lists).text,
            Seq::empty(),
            stop_at_lists,
        ),
{
    let stop = stop_at_lists;
    lemma_whole_walk(d, i, stop);
    let w0 = WalkView { col: CollectorView::empty(), spans: Seq::empty() };
    let e = subtree_end(d, i);
    let r = walked(d, i + 1, e, stop, w0);
    let text = trim_end(r.col.chars);
    let len = text.len() as int;
    lemma_trim_end_rest(r.col.chars);
    lemma_clipped_from(r.spans, len, y);
    let x = choose|x: int|
        0 <= x < r.spans.len() && clipped(r.spans, len)[y] == cut_span(#[trigger] r.spans[x], len) && r.spans[x].start < len;
    let s = r.spans[x];
    assert(is_right(s, d, i + 1, e, r.col.chars, Seq::empty(), stop));
    let k = choose|k: int|
        i + 1 <= k < e && is_part(d, i + 1, k, stop) && !hides(d, k, stop) && #[trigger] covers(
            s,
            d,
            i + 1,
            k,
            r.col.chars,
            Seq::empty(),
            stop,
        );
    lemma_cut_covers(s, d, i + 1, k, r.col.chars, stop);
    assert(covers(cut_span(s, len), d, i + 1, k, text, Seq::empty(), stop));
}

proof fn lemma_cut_covers(s: SpanView, d: Seq<NodeView>, a: int, k: int, chars: Seq<char>, stop: bool)
    requires
        covers(s, d, a, k, chars, Seq::empty(), stop),
        s.start <= trim_end(chars).len(),
    ensures
        covers(cut_span(s, trim_end(chars).len() as int), d, a, k, trim_end(chars), Seq::empty(), stop),
{
    let text = trim_end(chars);
    lemma_trim_end_rest(chars);
    lemma_trim_letters(chars, s.start);
    lemma_trim_letters(chars, s.end);
    assert(text.take(text.len() as int) =~= text);
}

/// Every element below another that has letters in the text has a span of its kind over them: a
/// link that is part of the text a link to where it leads.
pub proof fn elements_have_their_spans(
    d: Seq<NodeView>,
    i: int,
    stop_at_lists: bool,
    k: int,
    kind: Seq<char>,
    href: Option<Seq<char>>,
)
    requires
        0 <= i < k < subtree_end(d, i),
        i < d.len(),
        asks_for_span(d, i + 1, k, kind, href, stop_at_lists),
    ensures
        is_there(
            extracted(d, i, stop_at_lists).spans,
            0,
            kind,
            href,
            d,
            i + 1,
            k,
            extracted(d, i, stop_at_lists).text,
            Seq::empty(),
            stop_at_lists,
        ),
{
    let stop = stop_at_lists;
    lemma_whole_walk(d, i, stop);
    let w0 = WalkView { col: CollectorView::empty(), spans: Seq::empty() };
    let e = subtree_end(d, i);
    let r = walked(d, i + 1, e, stop, w0);
    let chars = r.col.chars;
    let text = trim_end(chars);
    let len = text.len() as int;
    lemma_trim_end_rest(chars);
    assert(is_there(r.spans, 0, kind, href, d, i + 1, k, chars, Seq::empty(), stop));
    let x = choose|x: int|
        0 <= x < r.spans.len() && #[trigger] covers(r.spans[x], d, i + 1, k, chars, Seq::empty(), stop)
            && r.spans[x].span_type == kind && r.spans[x].href == href;
    let s = r.spans[x];
    lemma_ends_within(d, i + 1, e, k);
    lemma_letters_in_split(d, i + 1, i + 1, k, subtree_end(d, k), stop);
    assert(letters(chars.take(s.end)).len() > letters(chars.take(s.start)).len());
    lemma_trim_letters(chars, s.start);
    lemma_trim_letters(chars, s.end);
    lemma_cut_covers(s, d, i + 1, k, chars, stop);
    lemma_clipped_has(r.spans, len, x);
    let y = choose|y: int|
        0 <= y < clipped(r.spans, len).len() && #[trigger] clipped(r.spans, len)[y] == cut_span(s, len);
    assert(covers(clipped(r.spans, len)[y], d, i + 1, k, text, Seq::empty(), stop));
}

/// A link to a place inside a document keeps its words in the text, under a link, if its class
/// names no note and its words are more than three characters; for example a heading that leads
/// to itself.
pub proof fn links_inside_a_document_keep_their_words(d: Seq<NodeView>, i: int, k: int, href: Seq<char>)
    requires
        0 <= i < k < subtree_end(d, i),
        i < d.len(),
        is_part(d, i + 1, k, false),
        d[k].value matches ValueView::Element { name, .. } && lowercase(name) == "a"@,
        attr(d[k], "href"@) == Some(href),
        !says_note(d[k]),
        trimmed(text_in(d, k, subtree_end(d, k))).len() > 3,
        letters_in(d, i + 1, k, subtree_end(d, k), false).len() > 0,
    ensures
        is_there(
            extracted(d, i, false).spans,
            0,
            "link"@,
            Some(href),
            d,
            i + 1,
            k,
            extracted(d, i, false).text,
            Seq::empty(),
            false,
        ),
{
    reveal_strlit("a");
    reveal_strlit("br");
    reveal_strlit("sup");
    assert("a"@.len() == 1 && "br"@.len() == 2 && "sup"@.len() == 3);
    elements_have_their_spans(d, i, false, k, "link"@, Some(href));
}

// ---------------------------------------------------------------------------
// Lines
// ---------------------------------------------------------------------------

proof fn lemma_words_are_words(s: Seq<char>)
    ensures
        forall|i: int| 0 <= i < words(s).len() ==> (#[trigger] words(s)[i]).len() > 0 && !is_space(words(s)[i].last()),
        s.len() > 0 && !is_space(s.last()) ==> words(s).len() > 0,
        (forall|i: int| 0 <= i < s.len() ==> is_space(#[trigger] s[i])) ==> words(s).len() == 0,
    decreases s.len(),
{
    if s.len() > 0 {
        let front = s.drop_last();
        lemma_words_are_words(front);
        lemma_words_push(front, s.last());
        assert(front.push(s.last()) =~= s);
        if forall|i: int| 0 <= i < s.len() ==> is_space(#[trigger] s[i]) {
            assert forall|i: int| 0 <= i < front.len() implies is_space(#[trigger] front[i]) by {
                assert(front[i] == s[i]);
            }
            assert(is_space(s[s.len() - 1]));
        }
    }
}

proof fn lemma_line(s: Seq<char>)
    ensures
        join(words(s), " "@).len() > 0 <==> words(s).len() > 0,
        words(s).len() > 0 ==> !is_space(join(words(s), " "@).last()),
{
    lemma_words_are_words(s);
    let ws = words(s);
    if ws.len() == 1 {
        assert(join(ws, " "@) == ws[0]);
    } else if ws.len() > 1 {
        assert(join(ws, " "@) == join(ws.drop_last(), " "@) + " "@ + ws.last());
        assert(ws.last() == ws[ws.len() - 1]);
    }
}

proof fn lemma_line_push(s: Seq<char>, c: char)
    ensures
        is_space(c) ==> join(words(s.push(c)), " "@) == join(words(s), " "@),
        !is_space(c) && words(s).len() > 0 && is_space(s.last()) ==> join(words(s.push(c)), " "@) == join(
            words(s),
            " "@,
        ).push(' ').push(c),
        !is_space(c) && words(s).len() > 0 && !is_space(s.last()) ==> join(words(s.push(c)), " "@) == join(
            words(s),
            " "@,
        ).push(c),
        !is_space(c) && words(s).len() == 0 ==> join(words(s.push(c)), " "@) == seq![c],
        words(s).len() > 0 ==> s.len() > 0,
        words(s).len() == 0 && s.len() > 0 ==> is_space(s.last()),
{
    lemma_words_push(s, c);
    lemma_words_are_words(s);
    reveal_strlit(" ");
    assert(" "@ =~= seq![' ']);
    if s.len() == 0 {
        assert(words(s).len() == 0);
    }
    let ws = words(s);
    let after = words(s.push(c));
    if !is_space(c) {
        if s.len() == 0 || is_space(s.last()) {
            assert(after.drop_last() =~= ws);
            assert(after.last() == seq![c]);
            if ws.len() > 0 {
                assert(join(after, " "@) =~= join(ws, " "@).push(' ').push(c));
            } else {
                assert(after.len() == 1);
                assert(join(after, " "@) == after[0]);
            }
        } else {
            assert(after.drop_last() =~= ws.drop_last());
            assert(after.last() =~= ws.last().push(c));
            if ws.len() == 1 {
                assert(join(after, " "@) =~= after[0]);
                assert(join(ws, " "@) =~= ws[0]);
            }
            assert(join(after, " "@) =~= join(ws, " "@).push(c));
        }
    }
}

/// The lines that hold words, each with a line feed behind it.
spec fn ended(lines: Seq<Seq<char>>) -> Seq<char>
    decreases lines.len(),
{
    if lines.len() == 0 {
        Seq::empty()
    } else {
        let line = join(words(lines.last()), " "@);
        let before = ended(lines.drop_last());
        if line.len() > 0 {
            (before + line).push('\n')
        } else {
            before
        }
    }
}

spec fn holds(col: CollectorView, lines: Seq<Seq<char>>) -> bool {
    let before = ended(lines.drop_last());
    let line = join(words(lines.last()), " "@);
    let open = words(lines.last()).len() > 0 && is_space(lines.last().last());
    &&& lines.len() > 0
    &&& {
        ||| col.chars == before + line && col.pending == open
        ||| open && !col.pending && col.chars == (before + line).push(' ')
    }
}

proof fn lemma_ended(lines: Seq<Seq<char>>)
    ensures
        ended(lines).len() > 0 ==> ended(lines).last() == '\n',
    decreases lines.len(),
{
    if lines.len() > 0 {
        lemma_ended(lines.drop_last());
    }
}

proof fn lemma_holds_char(col: CollectorView, lines: Seq<Seq<char>>, c: char)
    requires
        holds(col, lines),
    ensures
        holds(col.feed_char(c), lines.drop_last().push(lines.last().push(c))),
{
    let cur = lines.last();
    let after = lines.drop_last().push(cur.push(c));
    assert(after.drop_last() =~= lines.drop_last());
    lemma_ended(lines.drop_last());
    lemma_line(cur);
    lemma_line_push(cur, c);
    lemma_words_push(cur, c);
    let before = ended(lines.drop_last());
    let line = join(words(cur), " "@);
    let now = col.feed_char(c);
    let next = join(words(cur.push(c)), " "@);
    if words(cur).len() > 0 {
        assert((before + line).last() == line.last());
    } else {
        assert(before + line =~= before);
    }
    if !is_space(c) {
        if words(cur).len() > 0 && is_space(cur.last()) {
            assert((before + line).push(' ').push(c) =~= before + next);
        } else if words(cur).len() > 0 {
            assert((before + line).push(c) =~= before + next);
        } else {
            assert(before.push(c) =~= before + next);
        }
        assert(now.chars =~= before + next);
    }
}

proof fn lemma_holds_text(col: CollectorView, lines: Seq<Seq<char>>, t: Seq<char>)
    requires
        holds(col, lines),
    ensures
        holds(col.feed(t), lines.drop_last().push(lines.last() + t)),
    decreases t.len(),
{
    if t.len() == 0 {
        assert(lines.drop_last().push(lines.last() + t) =~= lines) by {
            assert(lines.last() + t =~= lines.last());
        }
    } else {
        let front = t.drop_last();
        lemma_holds_text(col, lines, front);
        let mid = lines.drop_last().push(lines.last() + front);
        lemma_holds_char(col.feed(front), mid, t.last());
        assert(mid.drop_last() =~= lines.drop_last());
        assert((lines.last() + front).push(t.last()) =~= lines.last() + t);
    }
}

proof fn lemma_holds_break(col: CollectorView, lines: Seq<Seq<char>>)
    requires
        holds(col, lines),
    ensures
        holds(col.line_break(), lines.push(Seq::empty())),
        holds(col.flush(), lines),
{
    let cur = lines.last();
    lemma_ended(lines.drop_last());
    lemma_line(cur);
    let before = ended(lines.drop_last());
    let line = join(words(cur), " "@);
    let after = lines.push(Seq::empty());
    assert(after.drop_last() =~= lines);
    lemma_words_are_words(Seq::<char>::empty());
    assert(join(words(Seq::<char>::empty()), " "@) =~= Seq::<char>::empty());
    if words(cur).len() > 0 {
        assert((before + line).last() == line.last());
        assert(ended(lines) == (before + line).push('\n'));
        if col.chars == (before + line).push(' ') {
            assert(col.chars.drop_last() =~= before + line);
        }
    } else {
        assert(before + line =~= before);
        assert(ended(lines) == before);
    }
    assert(col.line_break().chars =~= ended(lines) + Seq::<char>::empty());
}

proof fn lemma_walk_lines(
    d: Seq<NodeView>,
    lo: int,
    hi: int,
    stop: bool,
    w: WalkView,
    lines: Seq<Seq<char>>,
)
    requires
        closes(d, lo, hi),
        holds(w.col, lines),
    ensures
        holds(walked(d, lo, hi, stop, w).col, lines_after(lines, d, lo, lo, hi, stop)),
    decreases hi - lo,
{
    if lo < hi {
        let e = node_end(d, lo, hi);
        lemma_node_end(d, lo, hi);
        lemma_parts(d, lo, hi, stop);
        let mid = step_after(d, lo, e, stop, w);
        lemma_lines_split(lines, d, lo, lo, lo + 1, e, stop);
        let first = lines_after(lines, d, lo, lo, lo + 1, stop);
        reveal_with_fuel(lines_after, 2);
        let then = lines_after(lines, d, lo, lo, e, stop);
        if d[lo].value is Element {
            lemma_hides(d, lo, stop);
        }
        if hides(d, lo, stop) {
            lemma_lines_none(first, d, lo, lo + 1, e, stop);
        } else {
            lemma_lines_same(first, d, lo, lo + 1, lo + 1, e, stop);
        }
        match d[lo].value {
            ValueView::Text(t) => {
                lemma_holds_text(w.col, lines, t);
            },
            ValueView::Element { .. } => {
                lemma_holds_break(w.col, lines);
                lemma_br_is_no_list();
                if !hides(d, lo, stop) {
                    let start = WalkView { col: w.col.flush(), spans: w.spans };
                    lemma_walk_lines(d, lo + 1, e, stop, start, lines);
                }
            },
            ValueView::Other => {},
        }
        assert(holds(mid.col, then));
        lemma_walk_lines(d, e, hi, stop, mid, then);
        lemma_lines_split(lines, d, lo, lo, e, hi, stop);
        lemma_lines_same(then, d, lo, e, e, hi, stop);
    }
}

proof fn lemma_br_is_no_list()
    ensures
        "br"@ != "ul"@,
        "br"@ != "ol"@,
{
    reveal_strlit("br");
    reveal_strlit("ul");
    reveal_strlit("ol");
    assert("br"@[0] == 'b' && "ul"@[0] == 'u' && "ol"@[0] == 'o');
}

proof fn lemma_ended_joins(lines: Seq<Seq<char>>)
    ensures
        worded(lines).len() == 0 ==> ended(lines).len() == 0,
        worded(lines).len() > 0 ==> ended(lines) == join(worded(lines), "\n"@).push('\n'),
    decreases lines.len(),
{
    reveal_strlit("\n");
    assert("\n"@ =~= seq!['\n']);
    let as_line = |l: Seq<char>| join(words(l), " "@);
    let full = |l: Seq<char>| l.len() > 0;
    if lines.len() > 0 {
        let front = lines.drop_last();
        lemma_ended_joins(front);
        let line = as_line(lines.last());
        assert(lines.map_values(as_line) =~= front.map_values(as_line).push(line));
        front.map_values(as_line).lemma_filter_push(line, full);
        if line.len() > 0 {
            let all = worded(lines);
            assert(all.drop_last() =~= worded(front));
            assert(all.last() == line);
            if worded(front).len() == 0 {
                assert(all.len() == 1);
                assert(join(all, "\n"@) == all[0]);
                assert(ended(front) + line =~= line);
            } else {
                assert(join(all, "\n"@) == join(worded(front), "\n"@) + "\n"@ + line);
                assert(ended(front) + line =~= join(all, "\n"@));
            }
        }
    } else {
        assert(lines.map_values(as_line) =~= Seq::<Seq<char>>::empty());
        Seq::<Seq<char>>::empty().lemma_filter_len(full);
    }
}

proof fn lemma_trim_end_exact(s: Seq<char>, t: Seq<char>)
    requires
        s == t || s == t.push(' ') || s == t.push('\n'),
        t.len() > 0 ==> !is_space(t.last()),
    ensures
        trim_end(s) == t,
{
    reveal_with_fuel(trim_end, 3);
    if s != t {
        assert(s.drop_last() =~= t);
    }
}

/// The text of an element is its lines, which line breaks divide: each line that holds words as
/// those words with one space between any two, and a line feed between any two lines. What
/// nothing hides is part of a line, however deep it lies.
pub proof fn extracted_text_is_its_lines(d: Seq<NodeView>, i: int, stop_at_lists: bool)
    requires
        0 <= i < d.len(),
    ensures
        extracted(d, i, stop_at_lists).text == join(
            worded(
                lines_after(
                    seq![Seq::empty()],
                    d,
                    i + 1,
                    i + 1,
                    subtree_end(d, i),
                    stop_at_lists,
                ),
            ),
            "\n"@,
        ),
{
    let stop = stop_at_lists;
    lemma_whole_walk(d, i, stop);
    let w0 = WalkView { col: CollectorView::empty(), spans: Seq::empty() };
    let e = subtree_end(d, i);
    let none: Seq<Seq<char>> = seq![Seq::empty()];
    assert(none.drop_last() =~= Seq::<Seq<char>>::empty());
    lemma_words_are_words(Seq::<char>::empty());
    assert(join(words(Seq::<char>::empty()), " "@) =~= Seq::<char>::empty());
    assert(ended(none.drop_last()) + Seq::<char>::empty() =~= Seq::<char>::empty());
    assert(holds(w0.col, none));
    lemma_walk_lines(d, i + 1, e, stop, w0, none);
    let lines = lines_after(none, d, i + 1, i + 1, e, stop);
    lemma_lines_some(none, d, i + 1, i + 1, e, stop);
    let chars = walked(d, i + 1, e, stop, w0).col.chars;
    let front = lines.drop_last();
    lemma_ended_joins(front);
    lemma_ended_joins(lines);
    lemma_line(lines.last());
    let line = join(words(lines.last()), " "@);
    let before = ended(front);
    if line.len() > 0 {
        assert((before + line).push('\n').drop_last() =~= before + line);
        assert(join(worded(lines), "\n"@).push('\n').drop_last() =~= join(worded(lines), "\n"@));
        assert(before + line == join(worded(lines), "\n"@));
        lemma_trim_end_exact(chars, before + line);
    } else {
        assert(before + line =~= before);
        assert(chars == ended(lines));
        let t = join(worded(lines), "\n"@);
        if worded(lines).len() > 0 {
            lemma_joined_end(lines);
            lemma_trim_end_exact(chars, t);
        } else {
            assert(t =~= Seq::<char>::empty());
            assert(chars =~= t);
        }
    }
}

proof fn lemma_joined_end(lines: Seq<Seq<char>>)
    requires
        worded(lines).len() > 0,
    ensures
        join(worded(lines), "\n"@).len() > 0,
        !is_space(join(worded(lines), "\n"@).last()),
    decreases lines.len(),
{
    let as_line = |l: Seq<char>| join(words(l), " "@);
    let full = |l: Seq<char>| l.len() > 0;
    if lines.len() == 0 {
        assert(lines.map_values(as_line) =~= Seq::<Seq<char>>::empty());
        Seq::<Seq<char>>::empty().lemma_filter_len(full);
    } else {
        let front = lines.drop_last();
        let line = as_line(lines.last());
        lemma_line(lines.last());
        assert(lines.map_values(as_line) =~= front.map_values(as_line).push(line));
        front.map_values(as_line).lemma_filter_push(line, full);
        if line.len() > 0 {
            let all = worded(lines);
            assert(all.last() == line);
            if all.len() == 1 {
                assert(join(all, "\n"@) == all[0]);
            } else {
                assert(join(all, "\n"@).last() == line.last());
            }
        } else {
            lemma_joined_end(front);
        }
    }
}

} // verus!
