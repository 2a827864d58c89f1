//! Annotations are listed in the order of the book, and exported whole.

use vstd::prelude::*;

use super::lines::{in_a_row, lemma_in_a_row};
use crate::annotation_list::{
    annotations_markdown, body_markdown, entry_markdown, gathered, in_book, is_titled, label_of,
    library_markdown, listing_reads_forward, read_forward, LibraryAnnotationView,
};
use crate::annotations::{clicked, covering_from, nearest, screen_range, AnnotationIndex, Spot};
use crate::persistence::EntryView;
use crate::reader_page::popover_text;
use crate::schema::{AnnotationView, AstView, UserAnnotation};

verus! {

/// An optional text that has characters, with these before and behind it; otherwise nothing.
pub open spec fn if_said(t: Option<Seq<char>>, front: Seq<char>, back: Seq<char>) -> Seq<char> {
    if t is Some && t->0.len() > 0 {
        front + t->0 + back
    } else {
        Seq::empty()
    }
}

/// What is exported of an annotation: the words it is on, what it says, a hint where it has a
/// recording, and when it was made.
pub open spec fn entry_of(a: AnnotationView) -> Seq<char> {
    if_said(a.selected_text, "> "@, "\n\n"@) + if_said(a.comment, Seq::empty(), "\n\n"@) + (if a.asset_id is Some
        && a.annotation_type == "voice_note"@ {
        "*(audio recording not included in this export)*\n\n"@
    } else {
        Seq::empty()
    }) + "*"@ + a.created_at + "*\n\n---\n\n"@
}

/// An exported annotation says all that the annotation says.
pub proof fn annotations_say_all_they_hold(a: AnnotationView)
    ensures
        body_markdown(a) == entry_of(a),
{
    if a.comment is Some {
        let c = a.comment->0;
        assert(Seq::<char>::empty() + c =~= c);
    }
}

/// Every kind of annotation is called by its own name, and one of an unknown kind by that kind.
pub proof fn kinds_are_called_by_their_names(kind: Seq<char>)
    ensures
        kind == "highlight"@ ==> label_of(kind) == "Highlight"@,
        kind == "text_note"@ ==> label_of(kind) == "Note"@,
        kind == "voice_note"@ ==> label_of(kind) == "Voice Note"@,
        kind != "highlight"@ && kind != "text_note"@ && kind != "voice_note"@ ==> label_of(kind) == kind,
{
    reveal_strlit("highlight");
    reveal_strlit("text_note");
    reveal_strlit("voice_note");
    assert("highlight"@[0] == 'h');
    assert("text_note"@[0] == 't');
}

/// A popover shows what the annotation says, or else the words it is on, in quotation marks.
pub proof fn popovers_show_the_comment_or_the_words(a: AnnotationView, t: Seq<char>)
    ensures
        a.comment == Some(t) ==> popover_text(a) == Some(t),
        a.comment is None && a.selected_text == Some(t) ==> popover_text(a) == Some("\u{201c}"@ + t + "\u{201d}"@),
        a.comment is None && a.selected_text is None ==> popover_text(a) is None,
{
}

/// The annotations of a book are exported one after the other, each under the name of its kind.
pub proof fn every_annotation_is_exported(annotations: Seq<AnnotationView>, n: int)
    requires
        0 <= n <= annotations.len(),
    ensures
        annotations_markdown(annotations, n) == in_a_row(
            Seq::new(
                n as nat,
                |k: int| "## "@ + label_of(annotations[k].annotation_type) + "\n\n"@ + entry_of(annotations[k]),
            ),
        ),
    decreases n,
{
    let part = |k: int| "## "@ + label_of(annotations[k].annotation_type) + "\n\n"@ + entry_of(annotations[k]);
    let parts = Seq::new(n as nat, part);
    if n > 0 {
        every_annotation_is_exported(annotations, n - 1);
        annotations_say_all_they_hold(annotations[n - 1]);
        let before = Seq::new((n - 1) as nat, part);
        lemma_in_a_row(before, part(n - 1));
        assert(parts =~= before.push(part(n - 1)));
        assert(annotations_markdown(annotations, n) =~= annotations_markdown(annotations, n - 1) + part(n - 1));
        assert(before =~= Seq::new(
            (n - 1) as nat,
            |k: int| "## "@ + label_of(annotations[k].annotation_type) + "\n\n"@ + entry_of(annotations[k]),
        ));
    } else {
        lemma_in_a_row(Seq::empty(), Seq::empty());
        assert(parts =~= Seq::<Seq<char>>::empty());
    }
    assert(parts =~= Seq::new(
        n as nat,
        |k: int| "## "@ + label_of(annotations[k].annotation_type) + "\n\n"@ + entry_of(annotations[k]),
    ));
}

/// What is exported of annotation `k` of a library: the title of its book where that begins, the
/// name of its kind, and what it says.
pub open spec fn part_of_library(entries: Seq<LibraryAnnotationView>, order: Seq<usize>, k: int) -> Seq<char> {
    let e = entries[order[k] as int];
    (if k > 0 && entries[order[k - 1] as int].book_title == e.book_title {
        Seq::empty()
    } else {
        "## "@ + e.book_title + "\n\n"@
    }) + "### "@ + label_of(e.annotation.annotation_type) + "\n\n"@ + entry_of(e.annotation)
}

/// The annotations of a library are exported one after the other in this order.
pub proof fn every_annotation_of_a_library_is_exported(
    entries: Seq<LibraryAnnotationView>,
    order: Seq<usize>,
    n: int,
)
    requires
        0 <= n <= order.len(),
    ensures
        library_markdown(entries, order, n) == in_a_row(
            Seq::new(n as nat, |k: int| part_of_library(entries, order, k)),
        ),
    decreases n,
{
    let parts = Seq::new(n as nat, |k: int| part_of_library(entries, order, k));
    if n > 0 {
        every_annotation_of_a_library_is_exported(entries, order, n - 1);
        annotations_say_all_they_hold(entries[order[n - 1] as int].annotation);
        let before = Seq::new((n - 1) as nat, |k: int| part_of_library(entries, order, k));
        let last = part_of_library(entries, order, n - 1);
        lemma_in_a_row(before, last);
        assert(parts =~= before.push(last));
        let e = entries[order[n - 1] as int];
        assert(entry_markdown(e, is_titled(entries, order, n - 1)) =~= last);
    } else {
        lemma_in_a_row(Seq::empty(), Seq::empty());
        assert(parts =~= Seq::<Seq<char>>::empty());
    }
}

/// The annotations of a book are listed node by node, and on a node all of them.
pub proof fn all_annotations_are_listed(
    nodes: Seq<AstView>,
    annotations: AnnotationIndex,
    k: int,
    j: int,
    n: int,
)
    requires
        0 <= k < n <= nodes.len(),
        0 <= j < annotations.at(nodes[k].id as i64).len(),
        annotations.at(nodes[k].id as i64).len() <= usize::MAX,
    ensures
        ({
            let at = in_book(nodes, annotations, k).len() as int;
            let here = annotations.at(nodes[k].id as i64);
            let all = in_book(nodes, annotations, n);
            &&& at + here.len() <= all.len()
            &&& all.subrange(at, at + here.len()).contains(here[j])
            &&& in_book(nodes, annotations, k + 1).len() == at + here.len()
            &&& in_book(nodes, annotations, 0).len() == 0
        }),
    decreases n,
{
    let at = in_book(nodes, annotations, k).len() as int;
    let here = annotations.at(nodes[k].id as i64);
    let all = in_book(nodes, annotations, n);
    listing_reads_forward(here);
    if k < n - 1 {
        all_annotations_are_listed(nodes, annotations, k, j, n - 1);
        let before = in_book(nodes, annotations, n - 1);
        assert(all.subrange(at, at + here.len()) =~= before.subrange(at, at + here.len()));
    } else {
        assert(all.subrange(at, at + here.len()) =~= read_forward(here));
        assert(read_forward(here).contains(here[j]));
    }
}

/// The annotations of every book that could be opened are gathered, book by book, each with the
/// title and the path of its book.
pub proof fn all_books_are_gathered(
    entries: Seq<EntryView>,
    loaded: Seq<Option<Vec<UserAnnotation>>>,
    k: int,
    j: int,
    n: int,
)
    requires
        0 <= k < n <= entries.len(),
        loaded.len() == entries.len(),
    ensures
        ({
            let at = gathered(entries, loaded, k).len() as int;
            let all = gathered(entries, loaded, n);
            &&& loaded[k] matches Some(found) ==> gathered(entries, loaded, k + 1).len() == at + found@.len()
            &&& loaded[k] is None ==> gathered(entries, loaded, k + 1).len() == at
            &&& loaded[k] matches Some(found) ==> (0 <= j < found@.len() ==> at + j < all.len() && all[at + j]
                == (LibraryAnnotationView {
                book_title: entries[k].title,
                book_path: entries[k].path,
                annotation: found@[j]@,
            }))
            &&& gathered(entries, loaded, 0).len() == 0
        }),
    decreases n,
{
    if k < n - 1 {
        all_books_are_gathered(entries, loaded, k, j, n - 1);
    }
}

/// A click leads to the first annotation that covers the place; where none does, to the nearest on
/// the line, the first of those that are equally near; and to none where the line has none.
pub proof fn clicks_lead_to_annotations(
    marked: Seq<AnnotationView>,
    start: int,
    offset: int,
    spots: Seq<Spot>,
    line: i32,
    x: i32,
    k: int,
)
    ensures
        ({
            let covers = |j: int| {
                &&& start + (marked[j].start_offset as i32) <= offset
                &&& offset < start + (marked[j].end_offset as i32)
            };
            let hit = clicked(marked, start, offset, spots, line, x);
            &&& offset >= start && 0 <= k < marked.len() && covers(k) && (forall|j: int|
                0 <= j < k ==> !#[trigger] covers(j)) ==> hit == Some(k)
            &&& (offset < start || forall|j: int| 0 <= j < marked.len() ==> !#[trigger] covers(j)) && 0 <= k
                < spots.len() && spots[k].touches(line) && (forall|j: int|
                0 <= j < k && (#[trigger] spots[j]).touches(line) ==> spots[k].distance(x) < spots[j].distance(x)) && (
            forall|j: int|
                k < j < spots.len() && (#[trigger] spots[j]).touches(line) ==> spots[k].distance(x)
                    <= spots[j].distance(x)) ==> hit == Some(k)
            &&& (offset < start || forall|j: int| 0 <= j < marked.len() ==> !#[trigger] covers(j)) && (forall|j: int|
                0 <= j < spots.len() ==> !(#[trigger] spots[j]).touches(line)) ==> hit is None
        }),
{
    let covers = |j: int| {
        &&& start + (marked[j].start_offset as i32) <= offset
        &&& offset < start + (marked[j].end_offset as i32)
    };
    lemma_covering(marked, start, offset, 0);
    match covering_from(marked, start, offset, 0) {
        Some(i) => {
            assert(covers(i));
            if 0 <= k < marked.len() && covers(k) && (forall|j: int| 0 <= j < k ==> !#[trigger] covers(j)) {
                assert(screen_range(marked[k], start).0 <= offset < screen_range(marked[k], start).1);
                assert(i == k);
            }
        },
        None => {
            if 0 <= k < marked.len() {
                assert(!(screen_range(marked[k], start).0 <= offset < screen_range(marked[k], start).1));
            }
        },
    }
    if 0 <= k < spots.len() {
        lemma_nearest(spots, line, x, k, spots.len() as int);
    } else {
        lemma_none_near(spots, line, x, spots.len() as int);
    }
    lemma_none_near(spots, line, x, spots.len() as int);
}

proof fn lemma_covering(marked: Seq<AnnotationView>, start: int, offset: int, from: int)
    requires
        0 <= from,
    ensures
        match covering_from(marked, start, offset, from) {
            Some(i) => from <= i < marked.len() && screen_range(marked[i], start).0 <= offset < screen_range(
                marked[i],
                start,
            ).1 && forall|j: int|
                from <= j < i ==> !(screen_range(#[trigger] marked[j], start).0 <= offset < screen_range(
                    marked[j],
                    start,
                ).1),
            None => forall|j: int|
                from <= j < marked.len() ==> !(screen_range(#[trigger] marked[j], start).0 <= offset < screen_range(
                    marked[j],
                    start,
                ).1),
        },
    decreases marked.len() - from,
{
    if from < marked.len() {
        lemma_covering(marked, start, offset, from + 1);
    }
}

proof fn lemma_none_near(spots: Seq<Spot>, line: i32, x: i32, n: int)
    requires
        0 <= n <= spots.len(),
    ensures
        (forall|j: int| 0 <= j < n ==> !(#[trigger] spots[j]).touches(line)) ==> nearest(spots, line, x, n) is None,
        nearest(spots, line, x, n) matches Some(i) ==> 0 <= i < n && spots[i].touches(line),
    decreases n,
{
    if n > 0 {
        lemma_none_near(spots, line, x, n - 1);
    }
}

proof fn lemma_nearest(spots: Seq<Spot>, line: i32, x: i32, k: int, n: int)
    requires
        0 <= k < n <= spots.len(),
    ensures
        spots[k].touches(line) && (forall|j: int|
            0 <= j < k && (#[trigger] spots[j]).touches(line) ==> spots[k].distance(x) < spots[j].distance(x)) && (
        forall|j: int|
            k < j < n && (#[trigger] spots[j]).touches(line) ==> spots[k].distance(x) <= spots[j].distance(x))
            ==> nearest(spots, line, x, n) == Some(k),
    decreases n,
{
    if k < n - 1 {
        lemma_nearest(spots, line, x, k, n - 1);
    } else {
        lemma_none_near(spots, line, x, n - 1);
    }
}

} // verus!
