//! Markup that is written, and markup that is left out.

use vstd::prelude::*;

use super::children::{given, given_in, lemma_children, lemma_given};
use super::definitions::lemma_pos_shift;
use super::extraction::are_children;
use super::lines::{in_a_row, lemma_in_a_row};
use crate::dom::{is_self_closing, without_page_markers};
use crate::epub::{inner_markup, leading_text, markup_text};
use crate::schema::SpanView;
use crate::text::{
    char_pos, contains, find_from, lemma_char_pos, lemma_find_from, occurs_at, trimmed,
};
use crate::toolkit::{mark_at, markdown, marked, marks_at, marks_of};
use crate::tree::{node_end, parent, subtree_end, NodeView, ValueView};

verus! {

// ---------------------------------------------------------------------------
// Spans in Markdown
// ---------------------------------------------------------------------------

/// What stands before the text of a span.
pub open spec fn front(s: SpanView) -> Seq<char> {
    if s.span_type == "italic"@ {
        "*"@
    } else if s.span_type == "bold"@ {
        "**"@
    } else if s.span_type == "code"@ {
        "`"@
    } else if s.span_type == "strikethrough"@ {
        "~~"@
    } else if s.span_type == "link"@ && s.href is Some {
        "["@
    } else {
        Seq::empty()
    }
}

/// What stands behind the text of a span.
pub open spec fn back(s: SpanView) -> Seq<char> {
    if s.span_type == "link"@ && s.href is Some {
        "]("@ + s.href->0 + ")"@
    } else {
        front(s)
    }
}

/// What stands at place `p` of a text of this length for a span: its end, or its beginning.
pub open spec fn sign_at(s: SpanView, len: int, p: int, closing: bool) -> Seq<char> {
    if s.start < s.end && s.end <= len {
        if closing && s.end == p {
            back(s)
        } else if !closing && s.start == p {
            front(s)
        } else {
            Seq::empty()
        }
    } else {
        Seq::empty()
    }
}

/// What stands at place `p` for all the spans, one after the other.
pub open spec fn signs_at(spans: Seq<SpanView>, len: int, p: int, closing: bool) -> Seq<char> {
    in_a_row(spans.map_values(|s: SpanView| sign_at(s, len, p, closing)))
}

proof fn lemma_kinds_differ()
    ensures
        "italic"@ != "link"@,
        "bold"@ != "link"@,
        "code"@ != "link"@,
        "strikethrough"@ != "link"@,
{
    reveal_strlit("italic");
    reveal_strlit("link");
    reveal_strlit("bold");
    reveal_strlit("code");
    reveal_strlit("strikethrough");
    assert("bold"@[0] == 'b');
    assert("code"@[0] == 'c');
    assert("link"@[0] == 'l');
}

proof fn lemma_marks(spans: Seq<SpanView>, len: int, p: int, closing: bool, n: int)
    requires
        0 <= n <= spans.len(),
    ensures
        marks_of(spans, len, p, closing, n) == signs_at(spans.take(n), len, p, closing),
    decreases n,
{
    let f = |s: SpanView| sign_at(s, len, p, closing);
    if n > 0 {
        lemma_marks(spans, len, p, closing, n - 1);
        lemma_kinds_differ();
        lemma_in_a_row(spans.take(n - 1).map_values(f), f(spans[n - 1]));
        assert(spans.take(n).map_values(f) =~= spans.take(n - 1).map_values(f).push(f(spans[n - 1])));
        assert(mark_at(spans[n - 1], len, p, closing) =~= sign_at(spans[n - 1], len, p, closing));
    } else {
        lemma_in_a_row(Seq::empty(), Seq::empty());
        assert(spans.take(0).map_values(f) =~= Seq::<Seq<char>>::empty());
    }
}

/// Place `p` of a text in Markdown: the ends of spans, the beginnings of spans, the character.
pub open spec fn place_in(text: Seq<char>, spans: Seq<SpanView>, p: int) -> Seq<char> {
    signs_at(spans, text.len() as int, p, true) + signs_at(spans, text.len() as int, p, false) + (if p < text.len() {
        seq![text[p]]
    } else {
        Seq::empty()
    })
}

/// A text in Markdown is its characters, with what its spans ask for before and behind their text,
/// and nothing else.
pub proof fn spans_stand_around_their_text(text: Seq<char>, spans: Seq<SpanView>)
    ensures
        markdown(text, spans) == in_a_row(Seq::new(text.len() + 1, |p: int| place_in(text, spans, p))),
{
    let n = text.len() as int;
    lemma_marked(text, spans, n);
    lemma_marks(spans, n, n, true, spans.len() as int);
    lemma_marks(spans, n, n, false, spans.len() as int);
    assert(spans.take(spans.len() as int) =~= spans);
    let before = Seq::new(text.len(), |p: int| place_in(text, spans, p));
    lemma_in_a_row(before, place_in(text, spans, n));
    assert(Seq::new(text.len() + 1, |p: int| place_in(text, spans, p)) =~= before.push(place_in(text, spans, n)));
    assert(place_in(text, spans, n) =~= marks_at(spans, n, n));
}

proof fn lemma_marked(text: Seq<char>, spans: Seq<SpanView>, n: int)
    requires
        0 <= n <= text.len(),
    ensures
        marked(text, spans, n) == in_a_row(Seq::new(n as nat, |p: int| place_in(text, spans, p))),
    decreases n,
{
    let all = Seq::new(n as nat, |p: int| place_in(text, spans, p));
    if n > 0 {
        lemma_marked(text, spans, n - 1);
        let len = text.len() as int;
        lemma_marks(spans, len, n - 1, true, spans.len() as int);
        lemma_marks(spans, len, n - 1, false, spans.len() as int);
        assert(spans.take(spans.len() as int) =~= spans);
        let before = Seq::new((n - 1) as nat, |p: int| place_in(text, spans, p));
        lemma_in_a_row(before, place_in(text, spans, n - 1));
        assert(all =~= before.push(place_in(text, spans, n - 1)));
        assert(marked(text, spans, n) =~= marked(text, spans, n - 1) + place_in(text, spans, n - 1));
    } else {
        lemma_in_a_row(Seq::empty(), Seq::empty());
        assert(all =~= Seq::<Seq<char>>::empty());
    }
}

// ---------------------------------------------------------------------------
// Page markers
// ---------------------------------------------------------------------------

proof fn lemma_find_shift(s: Seq<char>, pat: Seq<char>, from: int, at: int)
    requires
        0 <= from <= at <= s.len(),
    ensures
        find_from(s, pat, at) == (match find_from(s.skip(from), pat, at - from) {
            Some(i) => Some(i + from),
            None => None,
        }),
    decreases s.len() - at,
{
    let t = s.skip(from);
    if at + pat.len() <= s.len() {
        assert(s.subrange(at, at + pat.len()) =~= t.subrange(at - from, at - from + pat.len()));
        if !occurs_at(s, pat, at) && at < s.len() {
            lemma_find_shift(s, pat, from, at + 1);
        }
    }
}

proof fn lemma_closing_tag()
    ensures
        "</span>"@.len() == 7,
        "<span"@ =~= seq!['<', 's', 'p', 'a', 'n'],
{
    reveal_strlit("</span>");
    reveal_strlit("<span");
}

proof fn lemma_marker_shift(s: Seq<char>, from: int, at: int)
    requires
        0 <= from <= at <= s.len(),
    ensures
        without_page_markers(s, at) == without_page_markers(s.skip(from), at - from),
    decreases s.len() - at,
{
    let t = s.skip(from);
    let b = at - from;
    lemma_closing_tag();
    lemma_find_shift(s, "<span"@, from, at);
    lemma_find_from(s, "<span"@, at);
    let start = find_from(s, "<span"@, at);
    if start is Some {
        lemma_pos_shift(s, '>', from, start->0);
        lemma_char_pos(s, '>', start->0);
        let close = char_pos(s, '>', start->0);
        if close < s.len() {
            let tag = s.subrange(start->0, close + 1);
            assert(tag =~= t.subrange(start->0 - from, close - from + 1));
            assert(s.subrange(at, close + 1) =~= t.subrange(b, close - from + 1));
            assert(s.subrange(at, start->0) =~= t.subrange(b, start->0 - from));
            lemma_marker_shift(s, from, close + 1);
            lemma_find_shift(s, "</span>"@, from, close + 1);
            lemma_find_from(s, "</span>"@, close + 1);
            let end = find_from(s, "</span>"@, close + 1);
            if end is Some {
                lemma_marker_shift(s, from, end->0 + 7);
            }
        } else {
            assert(s.skip(at) =~= t.skip(b));
        }
    } else {
        assert(s.skip(at) =~= t.skip(b));
    }
}

/// The tag is the opening tag of a `span`: it closes with its last character, and not before.
pub open spec fn is_span_tag(tag: Seq<char>) -> bool {
    &&& tag.len() > 5
    &&& tag.take(5) == "<span"@
    &&& tag.last() == '>'
    &&& !tag.drop_last().contains('>')
}

/// No `span` begins in the text, nor in it together with what is behind it.
pub open spec fn has_no_span(a: Seq<char>, rest: Seq<char>) -> bool {
    forall|i: int| 0 <= i < a.len() ==> !#[trigger] occurs_at(a + rest, "<span"@, i)
}

proof fn lemma_first_span(a: Seq<char>, tag: Seq<char>, rest: Seq<char>)
    requires
        is_span_tag(tag),
        has_no_span(a, tag + rest),
    ensures
        ({
            let s = a + tag + rest;
            let close = a.len() as int + tag.len() as int - 1;
            &&& find_from(s, "<span"@, 0) == Some(a.len() as int)
            &&& char_pos(s, '>', a.len() as int) == close
            &&& s.subrange(a.len() as int, close + 1) == tag
            &&& s.subrange(0, close + 1) == a + tag
            &&& s.subrange(0, a.len() as int) == a
            &&& s.skip(close + 1) == rest
            &&& s =~= a + (tag + rest)
        }),
{
    let s = a + tag + rest;
    let n = a.len() as int;
    let close = n + tag.len() as int - 1;
    lemma_closing_tag();
    assert(s =~= a + (tag + rest));
    assert(s.subrange(n, n + 5) =~= tag.take(5));
    assert(occurs_at(s, "<span"@, n));
    lemma_find_from(s, "<span"@, 0);
    match find_from(s, "<span"@, 0) {
        Some(i) => {
            if i < n {
                assert(occurs_at(a + (tag + rest), "<span"@, i));
            }
            assert(i == n);
        },
        None => {},
    }
    lemma_char_pos(s, '>', n);
    assert(s[close] == tag.last());
    let p = char_pos(s, '>', n);
    if p < close {
        let front = tag.drop_last();
        assert(s[p] == front[p - n]);
        assert(front.contains(front[p - n]));
    }
    assert(s.subrange(n, close + 1) =~= tag);
    assert(s.subrange(0, close + 1) =~= a + tag);
    assert(s.subrange(0, n) =~= a);
    assert(s.skip(close + 1) =~= rest);
}

/// A `span` whose tag does not say that it is a page break stays, and so does all before it.
pub proof fn other_spans_stay(a: Seq<char>, tag: Seq<char>, rest: Seq<char>)
    requires
        is_span_tag(tag),
        has_no_span(a, tag + rest),
        !contains(tag, "epub:type=\"pagebreak"@),
    ensures
        without_page_markers(a + tag + rest, 0) == a + tag + without_page_markers(rest, 0),
{
    let s = a + tag + rest;
    lemma_first_span(a, tag, rest);
    let next = a.len() as int + tag.len() as int;
    lemma_marker_shift(s, next, next);
}

/// A page marker that closes itself is left out, and nothing else.
pub proof fn closed_page_markers_are_left_out(a: Seq<char>, tag: Seq<char>, rest: Seq<char>)
    requires
        is_span_tag(tag),
        has_no_span(a, tag + rest),
        contains(tag, "epub:type=\"pagebreak"@),
        is_self_closing(tag),
    ensures
        without_page_markers(a + tag + rest, 0) == a + without_page_markers(rest, 0),
{
    let s = a + tag + rest;
    lemma_first_span(a, tag, rest);
    let next = a.len() as int + tag.len() as int;
    lemma_marker_shift(s, next, next);
}

/// A page marker that does not close itself is left out with all that is in it, up to the first end
/// of a `span`, and nothing else.
pub proof fn page_markers_are_left_out(a: Seq<char>, tag: Seq<char>, inside: Seq<char>, rest: Seq<char>)
    requires
        is_span_tag(tag),
        has_no_span(a, tag + (inside + "</span>"@ + rest)),
        contains(tag, "epub:type=\"pagebreak"@),
        !is_self_closing(tag),
        forall|i: int| 0 <= i < inside.len() ==> !#[trigger] occurs_at(inside + "</span>"@ + rest, "</span>"@, i),
    ensures
        without_page_markers(a + tag + (inside + "</span>"@ + rest), 0) == a + without_page_markers(rest, 0),
{
    lemma_closing_tag();
    let behind = inside + "</span>"@ + rest;
    let s = a + tag + behind;
    lemma_first_span(a, tag, behind);
    let next = a.len() as int + tag.len() as int;
    let n = inside.len() as int;
    assert(find_from(behind, "</span>"@, 0) == Some(n)) by {
        assert(behind.subrange(n, n + 7) =~= "</span>"@);
        assert(occurs_at(behind, "</span>"@, n));
        lemma_find_from(behind, "</span>"@, 0);
    }
    lemma_find_shift(s, "</span>"@, next, next);
    assert(find_from(s, "</span>"@, next) == Some(next + n));
    lemma_marker_shift(s, next + n + 7, next + n + 7);
    assert(s.skip(next + n + 7) =~= rest);
}

// ---------------------------------------------------------------------------
// Markup of metadata
// ---------------------------------------------------------------------------

/// Node `k` as markup: text as it is, and an element between its tags.
pub open spec fn written(d: Seq<NodeView>, k: int) -> Option<Seq<char>> {
    match d[k].value {
        ValueView::Text(t) => Some(t),
        ValueView::Element { name, .. } => Some(
            "<"@ + name + ">"@ + inner_markup(d, k + 1, subtree_end(d, k)) + "</"@ + name + ">"@,
        ),
        ValueView::Other => None,
    }
}

/// What an element holds is written child by child, and trimmed; nothing is said where nothing is
/// left. What it opens with is the text that is its first child.
pub proof fn elements_are_written_child_by_child(d: Seq<NodeView>, m: int)
    requires
        0 <= m < d.len(),
    ensures
        inner_markup(d, m + 1, subtree_end(d, m)) == given(d, m, |k: int| written(d, k)).flatten(),
        ({
            let t = trimmed(given(d, m, |k: int| written(d, k)).flatten());
            markup_text(d, m, subtree_end(d, m)) == (if t.len() > 0 {
                Some(t)
            } else {
                None
            })
        }),
        m + 1 < d.len() && parent(d, m + 1) == Some(m) ==> (d[m + 1].value matches ValueView::Text(t) ==> leading_text(
            d,
            m,
            subtree_end(d, m),
        ) == Some(trimmed(t))),
{
    lemma_children(d, m);
    lemma_written(d, m, m + 1, subtree_end(d, m));
    if m + 1 < d.len() && parent(d, m + 1) == Some(m) {
        super::extraction::parents_are_nearest_above(d, m, m + 1);
        super::extraction::subtrees_hold_what_lies_below(d, m, m + 1);
    }
}

proof fn lemma_written(d: Seq<NodeView>, m: int, lo: int, hi: int)
    requires
        0 <= m < d.len(),
        are_children(d, m, lo, hi),
    ensures
        inner_markup(d, lo, hi) == given_in(d, m, lo, hi, |k: int| written(d, k)).flatten(),
    decreases hi - lo,
{
    let f = |k: int| written(d, k);
    lemma_given(d, m, lo, hi, f);
    if lo < hi {
        let e = node_end(d, lo, hi);
        lemma_written(d, m, e, hi);
        let rest = given_in(d, m, e, hi, f);
        match written(d, lo) {
            Some(t) => {
                let all = seq![t] + rest;
                assert(all.first() == t);
                assert(all.drop_first() =~= rest);
            },
            None => {
                assert(Seq::<char>::empty() + inner_markup(d, e, hi) =~= inner_markup(d, e, hi));
            },
        }
    } else {
        assert(Seq::<Seq<char>>::empty().flatten() =~= Seq::<char>::empty());
    }
}

} // verus!
