//! Verse is told from prose by how its lines stand together.

use vstd::prelude::*;

use crate::dom::{
    extracted, is_digit, is_stanza_start, is_verse_end, is_verse_line, leading_digits, run_end,
    run_start, short_lines, disqualifying_lines, stanza_group, trailing_digits, verse_line,
    verse_spans, TextView, VerseLine,
};
use crate::schema::SpanView;
use crate::tree::{parent, NodeView};

verus! {

/// The lines `lo..hi` are as many short or empty lines in a row as there are.
pub open spec fn is_run(ls: Seq<VerseLine>, lo: int, hi: int) -> bool {
    &&& 0 <= lo <= hi <= ls.len()
    &&& forall|k: int| lo <= k < hi ==> (#[trigger] ls[k]).is_short || ls[k].is_empty
    &&& lo > 0 ==> !ls[lo - 1].is_short && !ls[lo - 1].is_empty
    &&& hi < ls.len() ==> !ls[hi].is_short && !ls[hi].is_empty
}

/// How many of the lines `lo..hi` are short.
pub open spec fn how_many_short(ls: Seq<VerseLine>, lo: int, hi: int) -> int {
    ls.subrange(lo, hi).filter(|l: VerseLine| l.is_short).len() as int
}

/// How many of the lines `lo..hi` are short and speak against verse.
pub open spec fn how_many_against(ls: Seq<VerseLine>, lo: int, hi: int) -> int {
    ls.subrange(lo, hi).filter(|l: VerseLine| l.is_short && l.is_disqualifying).len() as int
}

/// The lines of a run are verse, all the short ones, if at least three of them are short and fewer
/// than half of those speak against it; the verse ends with the last short line.
pub proof fn verse_is_short_lines_together(ls: Seq<VerseLine>, lo: int, hi: int, k: int)
    requires
        is_run(ls, lo, hi),
        lo <= k < hi,
    ensures
        is_verse_line(ls, k) <==> ls[k].is_short && how_many_short(ls, lo, hi) >= 3 && 2 * how_many_against(
            ls,
            lo,
            hi,
        ) < how_many_short(ls, lo, hi),
        is_verse_end(ls, k) <==> is_verse_line(ls, k) && forall|m: int|
            k < m < hi ==> !(#[trigger] ls[m]).is_short,
{
    lemma_run_start(ls, lo, k);
    lemma_run_end(ls, k, hi);
    lemma_counts(ls, lo, hi);
}

/// A line that is neither short nor empty is no verse.
pub proof fn long_lines_are_prose(ls: Seq<VerseLine>, k: int)
    requires
        0 <= k < ls.len(),
        !ls[k].is_short,
    ensures
        !is_verse_line(ls, k),
        !is_verse_end(ls, k),
        !is_stanza_start(ls, k),
{
}

proof fn lemma_run_start(ls: Seq<VerseLine>, lo: int, k: int)
    requires
        0 <= lo <= k <= ls.len(),
        forall|j: int| lo <= j < k ==> (#[trigger] ls[j]).is_short || ls[j].is_empty,
        lo > 0 ==> !ls[lo - 1].is_short && !ls[lo - 1].is_empty,
    ensures
        run_start(ls, k) == lo,
    decreases k,
{
    if lo < k {
        lemma_run_start(ls, lo, k - 1);
    }
}

proof fn lemma_run_end(ls: Seq<VerseLine>, k: int, hi: int)
    requires
        0 <= k <= hi <= ls.len(),
        forall|j: int| k <= j < hi ==> (#[trigger] ls[j]).is_short || ls[j].is_empty,
        hi < ls.len() ==> !ls[hi].is_short && !ls[hi].is_empty,
    ensures
        run_end(ls, k) == hi,
    decreases hi - k,
{
    if k < hi {
        lemma_run_end(ls, k + 1, hi);
    }
}

proof fn lemma_counts(ls: Seq<VerseLine>, lo: int, hi: int)
    requires
        0 <= lo <= hi <= ls.len(),
    ensures
        short_lines(ls, lo, hi) == how_many_short(ls, lo, hi),
        disqualifying_lines(ls, lo, hi) == how_many_against(ls, lo, hi),
    decreases hi - lo,
{
    let short = |l: VerseLine| l.is_short;
    let against = |l: VerseLine| l.is_short && l.is_disqualifying;
    if lo < hi {
        lemma_counts(ls, lo, hi - 1);
        let before = ls.subrange(lo, hi - 1);
        let last = seq![ls[hi - 1]];
        assert(ls.subrange(lo, hi) =~= before + last);
        Seq::filter_distributes_over_add(before, last, short);
        Seq::filter_distributes_over_add(before, last, against);
        reveal_with_fuel(Seq::filter, 2);
        assert(last.drop_last() =~= Seq::<VerseLine>::empty());
    } else {
        reveal_with_fuel(Seq::filter, 1);
    }
}

/// Line `j` is the last short line before line `k`, in the run that begins at `lo`.
pub open spec fn comes_before(ls: Seq<VerseLine>, lo: int, j: int, k: int) -> bool {
    &&& lo <= j < k
    &&& ls[j].is_short
    &&& forall|m: int| j < m < k ==> !(#[trigger] ls[m]).is_short
}

proof fn lemma_group(ls: Seq<VerseLine>, lo: int, j: int, k: int)
    requires
        0 <= lo,
        k <= ls.len(),
        comes_before(ls, lo, j, k),
    ensures
        stanza_group(ls, lo, k).0 == ls[j].parent,
        stanza_group(ls, lo, k).1 >= 1,
        stanza_group(ls, lo, k) == stanza_group(ls, lo, j + 1),
        short_lines(ls, lo, k) > 0,
    decreases k - j,
{
    if j < k - 1 {
        assert(comes_before(ls, lo, j, k - 1));
        lemma_group(ls, lo, j, k - 1);
    } else {
        lemma_group_size(ls, lo, j);
        lemma_short_size(ls, lo, j);
    }
}

proof fn lemma_group_size(ls: Seq<VerseLine>, lo: int, k: int)
    ensures
        stanza_group(ls, lo, k).1 >= 0,
    decreases k - lo,
{
    if lo < k {
        lemma_group_size(ls, lo, k - 1);
    }
}

proof fn lemma_short_size(ls: Seq<VerseLine>, lo: int, k: int)
    ensures
        short_lines(ls, lo, k) >= 0,
    decreases k - lo,
{
    if lo < k {
        lemma_short_size(ls, lo, k - 1);
    }
}

proof fn lemma_no_group(ls: Seq<VerseLine>, lo: int, k: int)
    requires
        0 <= lo,
        k <= ls.len(),
        forall|m: int| lo <= m < k ==> !(#[trigger] ls[m]).is_short,
    ensures
        stanza_group(ls, lo, k) == (None::<usize>, 0int),
        short_lines(ls, lo, k) == 0,
    decreases k - lo,
{
    if lo < k {
        lemma_no_group(ls, lo, k - 1);
    }
}

/// A line of verse that begins with a number begins a stanza, and so does the first of a run.
pub proof fn numbers_and_first_lines_begin_stanzas(ls: Seq<VerseLine>, lo: int, hi: int, k: int)
    requires
        is_run(ls, lo, hi),
        lo <= k < hi,
        is_verse_line(ls, k),
    ensures
        ls[k].starts_with_number ==> is_stanza_start(ls, k),
        ls[k].parent is Some && (forall|m: int| lo <= m < k ==> !(#[trigger] ls[m]).is_short) ==> is_stanza_start(
            ls,
            k,
        ),
{
    lemma_run_start(ls, lo, k);
    if forall|m: int| lo <= m < k ==> !(#[trigger] ls[m]).is_short {
        lemma_no_group(ls, lo, k);
    }
}

/// A line of verse without a number that stands in the same element as the line before it begins
/// no stanza. One that stands in another begins a stanza if the line before it was not the only
/// one of its element, and otherwise not.
pub proof fn elements_set_stanzas_apart(ls: Seq<VerseLine>, lo: int, hi: int, i: int, j: int, k: int)
    requires
        is_run(ls, lo, hi),
        lo <= k < hi,
        is_verse_line(ls, k),
        !ls[k].starts_with_number,
        comes_before(ls, lo, j, k),
    ensures
        ls[k].parent == ls[j].parent ==> !is_stanza_start(ls, k),
        ls[k].parent != ls[j].parent && comes_before(ls, lo, i, j) ==> (is_stanza_start(ls, k) <==> ls[i].parent
            == ls[j].parent),
        ls[k].parent != ls[j].parent && (forall|m: int| lo <= m < j ==> !(#[trigger] ls[m]).is_short)
            ==> !is_stanza_start(ls, k),
{
    lemma_run_start(ls, lo, k);
    lemma_group(ls, lo, j, k);
    if comes_before(ls, lo, i, j) {
        lemma_group(ls, lo, i, j);
    }
    if forall|m: int| lo <= m < j ==> !(#[trigger] ls[m]).is_short {
        lemma_no_group(ls, lo, j);
    }
}

/// The character is one of the digits `0` to `9`.
pub open spec fn is_numeral(c: char) -> bool {
    '0' as u32 <= c as u32 <= '9' as u32
}

/// The text begins with a number of `n` digits.
pub open spec fn begins_with_number(text: Seq<char>, n: int) -> bool {
    &&& 0 < n <= text.len()
    &&& forall|i: int| 0 <= i < n ==> is_numeral(#[trigger] text[i])
    &&& n < text.len() ==> !is_numeral(text[n])
}

/// The text ends with a number of `n` digits.
pub open spec fn ends_with_number(text: Seq<char>, n: int) -> bool {
    &&& 0 < n <= text.len()
    &&& forall|i: int| text.len() - n <= i < text.len() ==> is_numeral(#[trigger] text[i])
    &&& n < text.len() ==> !is_numeral(text[text.len() - n - 1])
}

/// The text does not begin with a digit.
pub open spec fn begins_without_number(text: Seq<char>) -> bool {
    text.len() > 0 ==> !is_numeral(text[0])
}

proof fn lemma_leading(text: Seq<char>, n: int)
    requires
        begins_with_number(text, n),
    ensures
        leading_digits(text) == n,
    decreases n,
{
    let rest = text.drop_first();
    assert(is_digit(text[0]));
    if n > 1 {
        assert forall|i: int| 0 <= i < n - 1 implies is_numeral(#[trigger] rest[i]) by {
            assert(rest[i] == text[i + 1]);
        }
        lemma_leading(rest, n - 1);
    } else {
        if rest.len() > 0 {
            assert(rest[0] == text[1]);
        }
        assert(leading_digits(rest) == 0);
    }
}

proof fn lemma_trailing(text: Seq<char>, n: int)
    requires
        ends_with_number(text, n),
    ensures
        trailing_digits(text) == n,
    decreases n,
{
    let rest = text.drop_last();
    assert(is_digit(text.last()));
    if n > 1 {
        assert forall|i: int| rest.len() - (n - 1) <= i < rest.len() implies is_numeral(#[trigger] rest[i]) by {
            assert(rest[i] == text[i]);
        }
        lemma_trailing(rest, n - 1);
    } else {
        if rest.len() > 0 {
            assert(rest.last() == text[text.len() - 2]);
        }
        assert(trailing_digits(rest) == 0);
    }
}

/// A paragraph is short if it has one to sixty characters, and empty if it has none; it speaks
/// against verse if it opens with a quotation mark or is all one link; and it begins with a number
/// if there are one to four digits in front.
pub proof fn lines_are_judged_by_their_text(d: Seq<NodeView>, i: int, n: int)
    ensures
        ({
            let text = extracted(d, i, false).text;
            let spans = extracted(d, i, false).spans;
            let line = verse_line(d, i);
            &&& line.is_short <==> 1 <= text.len() <= 60
            &&& line.is_empty <==> text.len() == 0
            &&& text.len() > 0 && (text[0] == '"' || text[0] == '\'' || text[0] == '\u{2018}' || text[0]
                == '\u{2019}' || text[0] == '\u{201C}' || text[0] == '\u{201D}' || text[0] == '\u{00AB}'
                || text[0] == '\u{00BB}') ==> line.is_disqualifying
            &&& forall|k: int|
                0 <= k < spans.len() && text.len() > 0 && (#[trigger] spans[k]).span_type == "link"@
                    && spans[k].start == 0 && spans[k].end == text.len() ==> line.is_disqualifying
            &&& line.is_disqualifying ==> text.len() > 0 && (crate::dom::opens_with_quote(text) || exists|k: int|
                0 <= k < spans.len() && (#[trigger] spans[k]).span_type == "link"@)
            &&& begins_with_number(text, n) ==> (line.starts_with_number <==> n <= 4)
            &&& begins_without_number(text) ==> !line.starts_with_number
            &&& parent(d, i) matches Some(p) ==> (d[p].value is Element ==> line.parent == Some(p as usize))
        }),
{
    let text = extracted(d, i, false).text;
    if begins_with_number(text, n) {
        lemma_leading(text, n);
    }
}

/// A line of verse keeps its spans. A number of one to four digits in front gets a span of its
/// own, and so does one at the end that is not the whole line.
pub proof fn numbers_of_verses_get_spans(t: TextView, front: int, back: int)
    requires
        begins_with_number(t.text, front) || begins_without_number(t.text) && front == 0,
        ends_with_number(t.text, back) || back == 0 && (t.text.len() > 0 ==> !is_numeral(t.text.last())),
    ensures
        ({
            let n = t.text.len() as int;
            let stanza = SpanView { start: 0, end: front, span_type: "stanza_number"@, href: None };
            let line = SpanView { start: n - back, end: n, span_type: "line_number"@, href: None };
            let has_front = 1 <= front <= 4;
            let has_back = 1 <= back <= 4 && back < n;
            verse_spans(t) == t.spans + (if has_front && has_back {
                seq![stanza, line]
            } else if has_front {
                seq![stanza]
            } else if has_back {
                seq![line]
            } else {
                Seq::empty()
            })
        }),
{
    if front > 0 {
        lemma_leading(t.text, front);
    }
    if back > 0 {
        lemma_trailing(t.text, back);
    }
    let n = t.text.len() as int;
    let stanza = SpanView { start: 0, end: front, span_type: "stanza_number"@, href: None };
    let line = SpanView { start: n - back, end: n, span_type: "line_number"@, href: None };
    assert(t.spans + Seq::empty() =~= t.spans);
    assert(t.spans.push(stanza) =~= t.spans + seq![stanza]);
    assert(t.spans.push(line) =~= t.spans + seq![line]);
    assert(t.spans.push(stanza).push(line) =~= t.spans + seq![stanza, line]);
}

} // verus!
