//! What a reader has marked is shown over the words that were marked, and found there.

use vstd::prelude::*;

use crate::annotation_list::{label_of, matches_filter, painted, painted_on, Mark, Paint};
use crate::annotations::{anchor_place, content_offset, covering_from, on_node, AnnotationIndex};
use crate::document::{
    content_stands_on_the_screen, node_start, nodes_start_in_reading_order, Document,
};
use crate::json::{is_true, opt_field};
use crate::node_index::{last_at_or_before, lemma_last_at_or_before, mark_from};
use crate::schema::{AnnotationView, AstView};
use crate::text::{contains, lowercase};

verus! {

/// The mark that annotations of a type have.
pub open spec fn has_mark(annotation_type: Seq<char>, mark: Mark) -> bool {
    ||| annotation_type == "highlight"@ && mark == Mark::Highlight
    ||| annotation_type == "text_note"@ && mark == Mark::TextNote
    ||| annotation_type == "voice_note"@ && mark == Mark::VoiceNote
}

proof fn lemma_marks(t: Seq<char>, mark: Mark)
    ensures
        crate::annotation_list::mark_of(t) == Some(mark) <==> has_mark(t, mark),
{
    reveal_strlit("highlight");
    reveal_strlit("text_note");
    reveal_strlit("voice_note");
    assert("highlight"@[0] == 'h' && "text_note"@[0] == 't' && "voice_note"@[0] == 'v');
}

/// The offsets of an annotation fit the screen.
pub open spec fn fits(a: AnnotationView) -> bool {
    0 <= a.start_offset <= i32::MAX && 0 <= a.end_offset <= i32::MAX
}

/// The paint of an annotation over a text that starts at `start`.
pub open spec fn is_paint_of(p: Paint, a: AnnotationView, start: int) -> bool {
    &&& has_mark(a.annotation_type, p.mark)
    &&& p.start == start + a.start_offset
    &&& p.end == start + a.end_offset
}

/// Among the paints is that of an annotation over a text that starts at `start`.
pub open spec fn is_painted(paints: Seq<Paint>, a: AnnotationView, start: int) -> bool {
    exists|x: int| 0 <= x < paints.len() && is_paint_of(#[trigger] paints[x], a, start)
}

proof fn lemma_painted_on(annotations: Seq<AnnotationView>, start: int, n: int)
    requires
        0 <= n <= annotations.len(),
        0 <= start <= i32::MAX,
        forall|m: int| 0 <= m < annotations.len() ==> fits(#[trigger] annotations[m]),
    ensures
        forall|m: int, mark: Mark|
            0 <= m < n && #[trigger] has_mark(annotations[m].annotation_type, mark) ==> is_painted(
                painted_on(annotations, start, n),
                annotations[m],
                start,
            ),
        forall|x: int|
            0 <= x < painted_on(annotations, start, n).len() ==> comes_from(
                #[trigger] painted_on(annotations, start, n)[x],
                annotations,
                start,
            ),
    decreases n,
{
    if n > 0 {
        lemma_painted_on(annotations, start, n - 1);
        let before = painted_on(annotations, start, n - 1);
        let now = painted_on(annotations, start, n);
        let a = annotations[n - 1];
        assert(fits(a));
        lemma_marks(a.annotation_type, Mark::Highlight);
        lemma_marks(a.annotation_type, Mark::TextNote);
        lemma_marks(a.annotation_type, Mark::VoiceNote);
        assert forall|m: int, mark: Mark|
            0 <= m < n && #[trigger] has_mark(annotations[m].annotation_type, mark) implies is_painted(
            now,
            annotations[m],
            start,
        ) by {
            if m < n - 1 {
                assert(is_painted(before, annotations[m], start));
                let x = choose|x: int| 0 <= x < before.len() && is_paint_of(#[trigger] before[x], annotations[m], start);
                assert(now[x] == before[x]);
            } else {
                assert(is_paint_of(now[before.len() as int], a, start));
            }
        }
        assert forall|x: int| 0 <= x < now.len() implies comes_from(#[trigger] now[x], annotations, start) by {
            if x < before.len() {
                assert(now[x] == before[x]);
            } else {
                assert(is_paint_of(now[x], annotations[n - 1], start));
            }
        }
    }
}

/// The paint is that of some of these annotations on a text that starts at `start`.
pub open spec fn comes_from(p: Paint, annotations: Seq<AnnotationView>, start: int) -> bool {
    exists|m: int| 0 <= m < annotations.len() && is_paint_of(p, #[trigger] annotations[m], start)
}

/// Where the text of the node at place `k` stands on the screen: where the node does, or below the
/// empty line above the first line of a stanza.
pub open spec fn text_start(nodes: Seq<AstView>, k: int) -> int {
    node_start(nodes, k) + if nodes[k].node_type == "verse_line"@ && is_true(
        opt_field(nodes[k].attributes, "stanza_start"@),
    ) {
        1int
    } else {
        0int
    }
}

proof fn lemma_mark(entries: Seq<(i64, usize)>, nodes: Seq<AstView>, k: int, i: int)
    requires
        0 <= i <= k < entries.len(),
        entries.len() == nodes.len(),
        forall|j: int| 0 <= j < nodes.len() ==> (#[trigger] entries[j]).0 == nodes[j].id,
        forall|j: int| 0 <= j < k ==> (#[trigger] nodes[j]).id != nodes[k].id,
    ensures
        mark_from(entries, nodes[k].id as i64, i) == Some(entries[k].1),
    decreases k - i,
{
    assert(entries[i].0 == nodes[i].id);
    assert(entries[k].0 == nodes[k].id);
    if i < k {
        lemma_mark(entries, nodes, k, i + 1);
    }
}

proof fn lemma_offset(d: Document, nodes: Seq<AstView>, k: int)
    requires
        d.shows(nodes),
        0 <= k < nodes.len(),
        forall|j: int| 0 <= j < k ==> (#[trigger] nodes[j]).id != nodes[k].id,
    ensures
        content_offset(nodes[k], d.index@) == Some(text_start(nodes, k)),
{
    lemma_mark(d.index@, nodes, k, 0);
    assert(d.index@[k].1 == node_start(nodes, k));
}

proof fn lemma_painted(
    nodes: Seq<AstView>,
    entries: Seq<(i64, usize)>,
    annotations: AnnotationIndex,
    n: int,
    k: int,
    start: int,
    m: int,
    mark: Mark,
)
    requires
        0 <= k < n <= nodes.len(),
        content_offset(nodes[k], entries) == Some(start),
        0 <= start <= i32::MAX,
        0 <= m < annotations.at(nodes[k].id as i64).len(),
        has_mark(annotations.at(nodes[k].id as i64)[m].annotation_type, mark),
        forall|i: int|
            0 <= i < annotations.at(nodes[k].id as i64).len() ==> fits(
                #[trigger] annotations.at(nodes[k].id as i64)[i],
            ),
    ensures
        is_painted(painted(nodes, entries, annotations, n), annotations.at(nodes[k].id as i64)[m], start),
    decreases n,
{
    let before = painted(nodes, entries, annotations, n - 1);
    let now = painted(nodes, entries, annotations, n);
    let marked = annotations.at(nodes[k].id as i64);
    if k < n - 1 {
        lemma_painted(nodes, entries, annotations, n - 1, k, start, m, mark);
        let x = choose|x: int| 0 <= x < before.len() && is_paint_of(#[trigger] before[x], marked[m], start);
        assert(now[x] == before[x]);
    } else {
        let here = painted_on(marked, start, marked.len() as int);
        lemma_painted_on(marked, start, marked.len() as int);
        assert(is_painted(here, marked[m], start));
        let x = choose|x: int| 0 <= x < here.len() && is_paint_of(#[trigger] here[x], marked[m], start);
        assert(now[before.len() + x] == here[x]);
    }
}

/// Every highlight, text note and voice note of a reader is shown, with the mark of its kind, over
/// the characters of its node's text that it was made on.
pub proof fn annotations_are_shown_over_their_words(
    d: Document,
    nodes: Seq<AstView>,
    list: Seq<AnnotationView>,
    annotations: AnnotationIndex,
    k: int,
    x: int,
    mark: Mark,
)
    requires
        d.shows(nodes),
        0 <= k < nodes.len(),
        forall|j: int| 0 <= j < k ==> (#[trigger] nodes[j]).id != nodes[k].id,
        text_start(nodes, k) <= i32::MAX,
        forall|id: i64| #[trigger] annotations.at(id) == on_node(list, id),
        forall|i: int| 0 <= i < list.len() ==> fits(#[trigger] list[i]),
        0 <= x < list.len(),
        list[x].node_id == nodes[k].id,
        has_mark(list[x].annotation_type, mark),
    ensures
        is_painted(
            painted(nodes, d.index@, annotations, nodes.len() as int),
            list[x],
            text_start(nodes, k),
        ),
{
    let id = nodes[k].id as i64;
    let keep = |a: AnnotationView| a.node_id == id;
    let marked = annotations.at(id);
    assert(marked == list.filter(keep));
    assert(d.index@[k].0 == nodes[k].id);
    list.lemma_filter_contains(keep, x);
    lemma_fits(list, keep);
    assert(marked.contains(list[x]));
    let m = choose|m: int| 0 <= m < marked.len() && marked[m] == list[x];
    lemma_offset(d, nodes, k);
    lemma_painted(
        nodes,
        d.index@,
        annotations,
        nodes.len() as int,
        k,
        text_start(nodes, k),
        m,
        mark,
    );
}

proof fn lemma_fits(list: Seq<AnnotationView>, keep: spec_fn(AnnotationView) -> bool)
    requires
        forall|i: int| 0 <= i < list.len() ==> fits(#[trigger] list[i]),
    ensures
        forall|i: int| 0 <= i < list.filter(keep).len() ==> fits(#[trigger] list.filter(keep)[i]),
        forall|i: int| 0 <= i < list.filter(keep).len() ==> list.contains(#[trigger] list.filter(keep)[i]),
    decreases list.len(),
{
    reveal(Seq::filter);
    if list.len() > 0 {
        let front = list.drop_last();
        assert forall|i: int| 0 <= i < front.len() implies fits(#[trigger] front[i]) by {
            assert(front[i] == list[i]);
        }
        lemma_fits(front, keep);
        assert(list[list.len() - 1] == list.last());
        assert(fits(list.last()));
        assert forall|i: int| 0 <= i < list.filter(keep).len() implies fits(#[trigger] list.filter(keep)[i])
            && list.contains(list.filter(keep)[i]) by {
            if i < front.filter(keep).len() {
                assert(list.filter(keep)[i] == front.filter(keep)[i]);
                let j = choose|j: int| 0 <= j < front.len() && front[j] == front.filter(keep)[i];
                assert(list[j] == front[j]);
            }
        }
    }
}

/// Nothing is shown over the text but what a reader has marked: every paint is that of an
/// annotation on a node, over that node's text.
pub proof fn nothing_else_is_painted(
    d: Document,
    nodes: Seq<AstView>,
    list: Seq<AnnotationView>,
    annotations: AnnotationIndex,
    n: int,
    x: int,
)
    requires
        d.shows(nodes),
        0 <= n <= nodes.len(),
        forall|i: int, j: int| 0 <= i < j < nodes.len() ==> (#[trigger] nodes[i]).id != (#[trigger] nodes[j]).id,
        forall|k: int| 0 <= k < nodes.len() ==> 0 <= #[trigger] text_start(nodes, k) <= i32::MAX,
        forall|id: i64| #[trigger] annotations.at(id) == on_node(list, id),
        forall|i: int| 0 <= i < list.len() ==> fits(#[trigger] list[i]),
        0 <= x < painted(nodes, d.index@, annotations, n).len(),
    ensures
        exists|k: int, i: int|
            0 <= k < n && 0 <= i < list.len() && (#[trigger] list[i]).node_id == nodes[k].id && is_paint_of(
                painted(nodes, d.index@, annotations, n)[x],
                list[i],
                #[trigger] text_start(nodes, k),
            ),
    decreases n,
{
    let before = painted(nodes, d.index@, annotations, n - 1);
    let now = painted(nodes, d.index@, annotations, n);
    let k = n - 1;
    let id = nodes[k].id as i64;
    let marked = annotations.at(id);
    lemma_offset(d, nodes, k);
    let start = text_start(nodes, k);
    let here = painted_on(marked, start, marked.len() as int);
    if x < before.len() {
        assert(now[x] == before[x]);
        nothing_else_is_painted(d, nodes, list, annotations, n - 1, x);
    } else {
        let keep = |a: AnnotationView| a.node_id == id;
        assert(marked == list.filter(keep));
        lemma_fits(list, keep);
        lemma_painted_on(marked, start, marked.len() as int);
        assert(now[x] == here[x - before.len()]);
        assert(comes_from(here[x - before.len()], marked, start));
        let m = choose|m: int| 0 <= m < marked.len() && is_paint_of(now[x], #[trigger] marked[m], start);
        assert(d.index@[k].0 == nodes[k].id);
        list.lemma_filter_pred(keep, m);
        assert(keep(marked[m]));
        assert(list.contains(marked[m]));
        let i = choose|i: int| 0 <= i < list.len() && list[i] == marked[m];
        assert(list[i].node_id == nodes[k].id && is_paint_of(now[x], list[i], text_start(nodes, k)));
    }
}

// ---------------------------------------------------------------------------
// Marking and finding
// ---------------------------------------------------------------------------

/// Nodes of this type hold words that can be marked.
pub open spec fn has_words(node_type: Seq<char>) -> bool {
    ||| node_type == "heading"@
    ||| node_type == "paragraph"@
    ||| node_type == "blockquote"@
    ||| node_type == "verse_line"@
}

/// Words can be marked wherever they stand within the text of one heading, paragraph, quotation or
/// line of verse, and then it is that node that they are marked in; but not in anything else.
pub proof fn words_can_be_marked(d: Document, nodes: Seq<AstView>, k: int, from: int, to: int)
    requires
        d.shows(nodes),
        0 <= k < nodes.len(),
        forall|j: int| 0 <= j < k ==> (#[trigger] nodes[j]).id != nodes[k].id,
        nodes[k].content is Some,
        text_start(nodes, k) <= from < to <= text_start(nodes, k) + nodes[k].content->0.len(),
        has_words(nodes[k].node_type),
    ensures
        anchor_place(nodes, d.index@, d.char_count as int, from, to) == Some(k),
{
    nodes_start_in_reading_order(d, nodes);
    content_stands_on_the_screen(nodes, k);
    lemma_offset(d, nodes, k);
    let entries = d.index@;
    assert(entries[k].1 == node_start(nodes, k));
    lemma_last_at_or_before(entries, from, entries.len() as int);
    if k + 1 < entries.len() {
        assert(entries[k + 1].1 == node_start(nodes, k + 1));
        assert forall|j: int| k < j < entries.len() implies (#[trigger] entries[j]).1 > from by {
            assert(entries[k + 1].1 <= entries[j].1);
        }
    }
    assert(last_at_or_before(entries, from, entries.len() as int) == Some(k));
}

/// No words can be marked across the end of a node, nor in a node of any other type.
pub proof fn selections_stay_within_one_text(
    nodes: Seq<AstView>,
    entries: Seq<(i64, usize)>,
    end: int,
    from: int,
    to: int,
)
    requires
        anchor_place(nodes, entries, end, from, to) is Some,
    ensures
        ({
            let k = anchor_place(nodes, entries, end, from, to)->0;
            &&& 0 <= k < entries.len()
            &&& entries[k].1 <= from < to
            &&& k + 1 < entries.len() ==> to <= entries[k + 1].1
            &&& k + 1 == entries.len() ==> to <= end
            &&& has_words(nodes[k].node_type)
        }),
{
    lemma_last_at_or_before(entries, from, entries.len() as int);
}

/// The annotation that is found at an offset covers it, no earlier one does, and one is found
/// whenever any covers the offset; the end of an annotation is not part of it.
pub proof fn found_annotations_cover_the_offset(
    annotations: Seq<AnnotationView>,
    start: int,
    offset: int,
    k: int,
)
    requires
        0 <= k,
        forall|m: int| 0 <= m < annotations.len() ==> fits(#[trigger] annotations[m]),
    ensures
        match covering_from(annotations, start, offset, k) {
            Some(i) => {
                &&& k <= i < annotations.len()
                &&& start + annotations[i].start_offset <= offset < start + annotations[i].end_offset
                &&& forall|j: int|
                    k <= j < i ==> !(start + (#[trigger] annotations[j]).start_offset <= offset < start
                        + annotations[j].end_offset)
            },
            None => forall|j: int|
                k <= j < annotations.len() ==> !(start + (#[trigger] annotations[j]).start_offset <= offset < start
                    + annotations[j].end_offset),
        },
    decreases annotations.len() - k,
{
    if k < annotations.len() {
        assert(fits(annotations[k]));
        found_annotations_cover_the_offset(annotations, start, offset, k + 1);
    }
}

/// A filter finds an annotation by any part of what it is called, of its comment or of its words,
/// whatever the case of the letters, and an empty filter finds every one.
pub proof fn filters_find_annotations(a: AnnotationView, filter: Seq<char>, t: Seq<char>)
    ensures
        filter.len() == 0 ==> matches_filter(a, filter),
        a.comment == Some(t) && contains(lowercase(t), filter) ==> matches_filter(a, filter),
        a.selected_text == Some(t) && contains(lowercase(t), filter) ==> matches_filter(a, filter),
        a.annotation_type == "highlight"@ && contains(lowercase("Highlight"@), filter) ==> matches_filter(a, filter),
        a.annotation_type == "text_note"@ && contains(lowercase("Note"@), filter) ==> matches_filter(a, filter),
        a.annotation_type == "voice_note"@ && contains(lowercase("Voice Note"@), filter) ==> matches_filter(a, filter),
        matches_filter(a, filter) ==> {
            ||| filter.len() == 0
            ||| a.comment is Some && contains(lowercase(a.comment->0), filter)
            ||| a.selected_text is Some && contains(lowercase(a.selected_text->0), filter)
            ||| contains(lowercase(label_of(a.annotation_type)), filter)
        },
{
    reveal_strlit("highlight");
    reveal_strlit("text_note");
    reveal_strlit("voice_note");
    assert("highlight"@[0] == 'h' && "text_note"@[0] == 't' && "voice_note"@[0] == 'v');
}

} // verus!
