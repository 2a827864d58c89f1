//! Lists of annotations: painted over the text, listed beside it, searched and exported.

use vstd::prelude::*;

use crate::annotations::{
    content_offset, content_start_offset, on_screen, screen_bounds, screen_range, AnnotationIndex,
};
use crate::node_index::NodeIndex;
use crate::order::{
    belongs_before, key_le, keys_view, order_of, stable_order, stable_orders_exist,
    stable_orders_have_no_duplicates, text_le, texts_are_totally_ordered, KeyView, SortKey,
};
use crate::persistence::{entries_view, EntryView, LibraryEntry};
use crate::schema::{
    annotations_view, ast_view, opt_text, AnnotationView, AstNode, AstView, UserAnnotation,
};
use crate::text::{contains, contains_text, lower_text, lowercase, same_text};
use crate::toolkit::text_of_option;

verus! {

/// The kinds of annotations that are painted over the text.
#[derive(Clone, Copy, Debug, PartialEq, Eq, Structural)]
pub enum Mark {
    Highlight,
    TextNote,
    VoiceNote,
}

/// The mark of annotations of a type.
pub open spec fn mark_of(annotation_type: Seq<char>) -> Option<Mark> {
    if annotation_type == "highlight"@ {
        Some(Mark::Highlight)
    } else if annotation_type == "text_note"@ {
        Some(Mark::TextNote)
    } else if annotation_type == "voice_note"@ {
        Some(Mark::VoiceNote)
    } else {
        None
    }
}

/// The mark of annotations of a type.
pub fn tag_for(annotation_type: &str) -> (r: Option<Mark>)
    ensures
        r == mark_of(annotation_type@),
{
    if same_text(annotation_type, "highlight") {
        Some(Mark::Highlight)
    } else if same_text(annotation_type, "text_note") {
        Some(Mark::TextNote)
    } else if same_text(annotation_type, "voice_note") {
        Some(Mark::VoiceNote)
    } else {
        None
    }
}

/// What annotations of a type are called.
pub open spec fn label_of(annotation_type: Seq<char>) -> Seq<char> {
    if annotation_type == "highlight"@ {
        "Highlight"@
    } else if annotation_type == "text_note"@ {
        "Note"@
    } else if annotation_type == "voice_note"@ {
        "Voice Note"@
    } else {
        annotation_type
    }
}

/// What annotations of a type are called.
pub fn kind_label(annotation_type: &str) -> (r: &str)
    ensures
        r@ == label_of(annotation_type@),
{
    if same_text(annotation_type, "highlight") {
        "Highlight"
    } else if same_text(annotation_type, "text_note") {
        "Note"
    } else if same_text(annotation_type, "voice_note") {
        "Voice Note"
    } else {
        annotation_type
    }
}

// ---------------------------------------------------------------------------
// Painting
// ---------------------------------------------------------------------------

/// A mark over characters on the screen.
#[derive(Clone, Copy, Debug, PartialEq, Eq, Structural)]
pub struct Paint {
    pub mark: Mark,
    pub start: i64,
    pub end: i64,
}

/// The marks of the first `n` annotations on a text that starts at `start`.
pub open spec fn painted_on(annotations: Seq<AnnotationView>, start: int, n: int) -> Seq<Paint>
    decreases n,
{
    if n <= 0 {
        Seq::empty()
    } else {
        let a = annotations[n - 1];
        let before = painted_on(annotations, start, n - 1);
        match mark_of(a.annotation_type) {
            Some(mark) => before.push(
                Paint {
                    mark,
                    start: screen_range(a, start).0 as i64,
                    end: screen_range(a, start).1 as i64,
                },
            ),
            None => before,
        }
    }
}

/// The marks of the annotations on the first `n` nodes, in reading order.
pub open spec fn painted(
    nodes: Seq<AstView>,
    entries: Seq<(i64, usize)>,
    annotations: AnnotationIndex,
    n: int,
) -> Seq<Paint>
    decreases n,
{
    if n <= 0 {
        Seq::empty()
    } else {
        let before = painted(nodes, entries, annotations, n - 1);
        let marked = annotations.at(nodes[n - 1].id as i64);
        match content_offset(nodes[n - 1], entries) {
            Some(start) => before + painted_on(marked, start, marked.len() as int),
            None => before,
        }
    }
}

fn paint_node(out: &mut Vec<Paint>, marked: &[UserAnnotation], start: usize)
    requires
        start <= i32::MAX,
    ensures
        final(out)@ == old(out)@ + painted_on(annotations_view(marked@), start as int, marked@.len() as int),
{
    let ghost before = out@;
    let ghost views = annotations_view(marked@);
    let total: usize = marked.len();
    let mut i: usize = 0;
    assert(before + Seq::<Paint>::empty() =~= before);
    while i < total
        invariant
            i <= total,
            total == marked@.len(),
            start <= i32::MAX,
            views == annotations_view(marked@),
            out@ == before + painted_on(views, start as int, i as int),
        decreases total - i,
    {
        let a = &marked[i];
        assert(views[i as int] == marked@[i as int]@);
        if let Some(mark) = tag_for(a.annotation_type.as_str()) {
            let (from, to) = screen_bounds(a, start);
            out.push(Paint { mark, start: from, end: to });
        }
        i += 1;
        assert(out@ =~= before + painted_on(views, start as int, i as int));
    }
}

/// The marks of all annotations of a book, in reading order.
pub fn render_existing(
    nodes: &Vec<AstNode>,
    index: &NodeIndex,
    annotations: &AnnotationIndex,
) -> (r: Vec<Paint>)
    requires
        on_screen(index@),
    ensures
        r@ == painted(ast_view(nodes@), index@, *annotations, nodes@.len() as int),
{
    let ghost all = ast_view(nodes@);
    let mut out: Vec<Paint> = Vec::new();
    let mut k: usize = 0;
    while k < nodes.len()
        invariant
            k <= nodes@.len(),
            all == ast_view(nodes@),
            on_screen(index@),
            out@ == painted(all, index@, *annotations, k as int),
        decreases nodes@.len() - k,
    {
        assert(all[k as int] == nodes@[k as int]@);
        let marked = annotations.for_node(nodes[k].id);
        if let Some(start) = content_start_offset(&nodes[k], index) {
            paint_node(&mut out, marked, start);
        }
        k += 1;
    }
    out
}

// ---------------------------------------------------------------------------
// Listing
// ---------------------------------------------------------------------------

/// Whether a filter, in lower case, occurs in the text, whatever the case of its letters.
pub open spec fn text_matches(t: Option<Seq<char>>, filter: Seq<char>) -> bool {
    t matches Some(s) && contains(lowercase(s), filter)
}

/// Whether an annotation is listed under a filter.
pub open spec fn matches_filter(a: AnnotationView, filter: Seq<char>) -> bool {
    ||| filter.len() == 0
    ||| contains(lowercase(label_of(a.annotation_type)), filter)
    ||| text_matches(a.comment, filter)
    ||| text_matches(a.selected_text, filter)
}

fn option_matches(t: &Option<String>, filter: &str) -> (r: bool)
    ensures
        r == text_matches(opt_text(*t), filter@),
{
    match t {
        Some(s) => contains_text(lower_text(s.as_str()).as_str(), filter),
        None => false,
    }
}

/// Whether an annotation is listed under a filter, which is in lower case: the filter occurs in
/// what it is called, in its comment or in its words.
pub fn annotation_matches_search(a: &UserAnnotation, filter: &str) -> (r: bool)
    ensures
        r == matches_filter(a@, filter@),
{
    filter.is_empty() || contains_text(lower_text(kind_label(a.annotation_type.as_str())).as_str(), filter)
        || option_matches(&a.comment, filter) || option_matches(&a.selected_text, filter)
}

/// What the annotations on a node are put in order by: where in the node they begin.
pub open spec fn start_keys(annotations: Seq<AnnotationView>) -> Seq<KeyView> {
    annotations.map_values(|a: AnnotationView| KeyView::Number(a.start_offset as int))
}

/// The annotations on a node, in reading order.
pub open spec fn read_forward(annotations: Seq<AnnotationView>) -> Seq<AnnotationView> {
    order_of(start_keys(annotations), false).map_values(|p: usize| annotations[p as int])
}

/// The annotations on the first `n` nodes, in reading order.
pub open spec fn in_book(
    nodes: Seq<AstView>,
    annotations: AnnotationIndex,
    n: int,
) -> Seq<AnnotationView>
    decreases n,
{
    if n <= 0 {
        Seq::empty()
    } else {
        in_book(nodes, annotations, n - 1) + read_forward(annotations.at(nodes[n - 1].id as i64))
    }
}

fn push_forward(out: &mut Vec<UserAnnotation>, marked: &[UserAnnotation])
    ensures
        annotations_view(final(out)@) == annotations_view(old(out)@) + read_forward(
            annotations_view(marked@),
        ),
{
    let ghost views = annotations_view(marked@);
    let ghost before = annotations_view(out@);
    let total: usize = marked.len();
    let mut keys: Vec<SortKey> = Vec::new();
    let mut k: usize = 0;
    while k < total
        invariant
            k <= total,
            total == marked@.len(),
            views == annotations_view(marked@),
            keys@.len() == k,
            keys_view(keys@) =~= start_keys(views).take(k as int),
        decreases total - k,
    {
        assert(views[k as int] == marked@[k as int]@);
        let key = SortKey::Number(marked[k].start_offset);
        let ghost sofar = keys@;
        assert(key@ == start_keys(views)[k as int]);
        keys.push(key);
        assert(keys_view(keys@) =~= keys_view(sofar).push(key@));
        k += 1;
    }
    assert(start_keys(views).take(k as int) =~= start_keys(views));
    let order = stable_order(&keys, false);
    let ghost sorted = read_forward(views);
    let mut i: usize = 0;
    assert(before + sorted.take(0) =~= before);
    while i < order.len()
        invariant
            i <= order@.len() == total == marked@.len(),
            views == annotations_view(marked@),
            sorted == order@.map_values(|p: usize| views[p as int]),
            forall|n: int| 0 <= n < order@.len() ==> 0 <= #[trigger] order@[n] < total,
            annotations_view(out@) == before + sorted.take(i as int),
        decreases order@.len() - i,
    {
        let a = marked[order[i]].copy();
        assert(views[order@[i as int] as int] == a@);
        let ghost sofar = out@;
        out.push(a);
        assert(annotations_view(out@) =~= annotations_view(sofar).push(a@));
        i += 1;
        assert(before + sorted.take(i as int) =~= (before + sorted.take(i - 1)).push(sorted[i - 1]));
    }
    assert(sorted.take(i as int) =~= sorted);
}

/// The annotations of a book, in reading order.
pub fn ordered_annotations(
    nodes: &Vec<AstNode>,
    annotations: &AnnotationIndex,
) -> (r: Vec<UserAnnotation>)
    ensures
        annotations_view(r@) == in_book(ast_view(nodes@), *annotations, nodes@.len() as int),
{
    let ghost all = ast_view(nodes@);
    let mut out: Vec<UserAnnotation> = Vec::new();
    assert(annotations_view(out@) =~= Seq::<AnnotationView>::empty());
    let mut k: usize = 0;
    while k < nodes.len()
        invariant
            k <= nodes@.len(),
            all == ast_view(nodes@),
            annotations_view(out@) == in_book(all, *annotations, k as int),
        decreases nodes@.len() - k,
    {
        assert(all[k as int] == nodes@[k as int]@);
        push_forward(&mut out, annotations.for_node(nodes[k].id));
        k += 1;
    }
    out
}

/// The annotations of a book that are listed under a filter, in reading order.
pub fn listed_annotations(
    nodes: &Vec<AstNode>,
    annotations: &AnnotationIndex,
    filter: &str,
) -> (r: Vec<UserAnnotation>)
    ensures
        annotations_view(r@) == in_book(ast_view(nodes@), *annotations, nodes@.len() as int).filter(
            |a: AnnotationView| matches_filter(a, filter@),
        ),
{
    let rows = ordered_annotations(nodes, annotations);
    let ghost all = annotations_view(rows@);
    let ghost keep = |a: AnnotationView| matches_filter(a, filter@);
    let mut out: Vec<UserAnnotation> = Vec::new();
    assert(annotations_view(out@) =~= Seq::<AnnotationView>::empty());
    assert(all.take(0) =~= Seq::<AnnotationView>::empty());
    let mut i: usize = 0;
    while i < rows.len()
        invariant
            i <= rows@.len(),
            all == annotations_view(rows@),
            keep == (|a: AnnotationView| matches_filter(a, filter@)),
            annotations_view(out@) == all.take(i as int).filter(keep),
        decreases rows@.len() - i,
    {
        assert(all[i as int] == rows@[i as int]@);
        proof {
            all.take(i as int).lemma_filter_push(all[i as int], keep);
            assert(all.take(i + 1) =~= all.take(i as int).push(all[i as int]));
        }
        if annotation_matches_search(&rows[i], filter) {
            let a = rows[i].copy();
            let ghost sofar = out@;
            out.push(a);
            assert(annotations_view(out@) =~= annotations_view(sofar).push(a@));
        }
        i += 1;
    }
    assert(all.take(i as int) =~= all);
    out
}

/// What stands in the place of an empty list.
pub fn empty_list_message(filter: &str) -> (r: &'static str)
    ensures
        r@ == if filter@.len() == 0 {
            "No annotations yet \u{2014} select text to highlight or add a note."@
        } else {
            "No annotations match your search."@
        },
{
    if filter.is_empty() {
        "No annotations yet \u{2014} select text to highlight or add a note."
    } else {
        "No annotations match your search."
    }
}

/// What the list shows of an annotation: its comment, or else its words.
pub fn annotation_snippet(a: &UserAnnotation) -> (r: String)
    ensures
        r@ == (match a@.comment {
            Some(c) => c,
            None => text_of_option(a@.selected_text),
        }),
{
    match &a.comment {
        Some(c) => c.clone(),
        None => match &a.selected_text {
            Some(t) => t.clone(),
            None => {
                let empty = String::new();
                assert(empty@ =~= Seq::<char>::empty());
                empty
            },
        },
    }
}

// ---------------------------------------------------------------------------
// Export
// ---------------------------------------------------------------------------

/// The body of an annotation in Markdown.
pub open spec fn body_markdown(a: AnnotationView) -> Seq<char> {
    let quote = match a.selected_text {
        Some(t) => if t.len() > 0 {
            "> "@ + t + "\n\n"@
        } else {
            Seq::empty()
        },
        None => Seq::empty(),
    };
    let comment = match a.comment {
        Some(c) => if c.len() > 0 {
            c + "\n\n"@
        } else {
            Seq::empty()
        },
        None => Seq::empty(),
    };
    let audio = if a.annotation_type == "voice_note"@ && a.asset_id is Some {
        "*(audio recording not included in this export)*\n\n"@
    } else {
        Seq::empty()
    };
    quote + comment + audio + "*"@ + a.created_at + "*\n\n---\n\n"@
}

/// The body of an annotation in Markdown: its words as a quote, its comment, a word on what
/// audio is left out, and when it was made.
pub fn annotation_body_markdown(a: &UserAnnotation) -> (r: String)
    ensures
        r@ == body_markdown(a@),
{
    let mut out = String::new();
    if let Some(t) = &a.selected_text {
        if !t.as_str().is_empty() {
            out.append("> ");
            out.append(t.as_str());
            out.append("\n\n");
        }
    }
    if let Some(c) = &a.comment {
        if !c.as_str().is_empty() {
            out.append(c.as_str());
            out.append("\n\n");
        }
    }
    if same_text(a.annotation_type.as_str(), "voice_note") && a.asset_id.is_some() {
        out.append("*(audio recording not included in this export)*\n\n");
    }
    out.append("*");
    out.append(a.created_at.as_str());
    out.append("*\n\n---\n\n");
    assert(out@ =~= body_markdown(a@));
    out
}

/// The first `n` annotations in Markdown.
pub open spec fn annotations_markdown(annotations: Seq<AnnotationView>, n: int) -> Seq<char>
    decreases n,
{
    if n <= 0 {
        Seq::empty()
    } else {
        annotations_markdown(annotations, n - 1) + "## "@ + label_of(annotations[n - 1].annotation_type) + "\n\n"@
            + body_markdown(annotations[n - 1])
    }
}

/// The annotations of a book in Markdown, in the order in which they are given.
pub fn export_annotations_markdown(
    book_title: &str,
    annotations: &Vec<UserAnnotation>,
) -> (r: String)
    ensures
        r@ == "# Annotations \u{2014} "@ + book_title@ + "\n\n"@ + annotations_markdown(
            annotations_view(annotations@),
            annotations@.len() as int,
        ),
{
    let ghost all = annotations_view(annotations@);
    let mut out = "# Annotations \u{2014} ".to_owned();
    out.append(book_title);
    out.append("\n\n");
    let ghost head = out@;
    assert(head =~= "# Annotations \u{2014} "@ + book_title@ + "\n\n"@);
    assert(head + Seq::<char>::empty() =~= head);
    let mut k: usize = 0;
    while k < annotations.len()
        invariant
            k <= annotations@.len(),
            all == annotations_view(annotations@),
            out@ == head + annotations_markdown(all, k as int),
        decreases annotations@.len() - k,
    {
        assert(all[k as int] == annotations@[k as int]@);
        out.append("## ");
        out.append(kind_label(annotations[k].annotation_type.as_str()));
        out.append("\n\n");
        out.append(annotation_body_markdown(&annotations[k]).as_str());
        k += 1;
        assert(out@ =~= head + annotations_markdown(all, k as int));
    }
    out
}

/// An annotation, and the book that it is in.
pub struct LibraryAnnotation {
    pub book_title: String,
    pub book_path: String,
    pub annotation: UserAnnotation,
}

/// The mathematical view of a [`LibraryAnnotation`].
#[verifier::ext_equal]
pub struct LibraryAnnotationView {
    pub book_title: Seq<char>,
    pub book_path: Seq<char>,
    pub annotation: AnnotationView,
}

impl View for LibraryAnnotation {
    type V = LibraryAnnotationView;

    open spec fn view(&self) -> LibraryAnnotationView {
        LibraryAnnotationView {
            book_title: self.book_title@,
            book_path: self.book_path@,
            annotation: self.annotation@,
        }
    }
}

/// The views of annotations in books.
pub open spec fn library_view(entries: Seq<LibraryAnnotation>) -> Seq<LibraryAnnotationView> {
    entries.map_values(|e: LibraryAnnotation| e@)
}

/// The annotations of a book, each with the book that it is in.
pub open spec fn in_library(
    title: Seq<char>,
    path: Seq<char>,
    annotations: Seq<AnnotationView>,
) -> Seq<
    LibraryAnnotationView,
> {
    annotations.map_values(
        |a: AnnotationView| LibraryAnnotationView { book_title: title, book_path: path, annotation: a },
    )
}

/// The annotations of the first `n` books of a library; a book whose annotations could not be
/// loaded has none.
pub open spec fn gathered(
    entries: Seq<EntryView>,
    loaded: Seq<Option<Vec<UserAnnotation>>>,
    n: int,
) -> Seq<
    LibraryAnnotationView,
>
    decreases n,
{
    if n <= 0 {
        Seq::empty()
    } else {
        let before = gathered(entries, loaded, n - 1);
        match loaded[n - 1] {
            Some(annotations) => before + in_library(
                entries[n - 1].title,
                entries[n - 1].path,
                annotations_view(annotations@),
            ),
            None => before,
        }
    }
}

fn push_annotations(
    out: &mut Vec<LibraryAnnotation>,
    e: &LibraryEntry,
    annotations: &Vec<UserAnnotation>,
)
    ensures
        library_view(final(out)@) == library_view(old(out)@) + in_library(
            e@.title,
            e@.path,
            annotations_view(annotations@),
        ),
{
    let ghost before = library_view(out@);
    let ghost more = in_library(e@.title, e@.path, annotations_view(annotations@));
    let mut i: usize = 0;
    assert(before + more.take(0) =~= before);
    while i < annotations.len()
        invariant
            i <= annotations@.len(),
            more == in_library(e@.title, e@.path, annotations_view(annotations@)),
            library_view(out@) == before + more.take(i as int),
        decreases annotations@.len() - i,
    {
        let row = LibraryAnnotation {
            book_title: e.title.clone(),
            book_path: e.path.clone(),
            annotation: annotations[i].copy(),
        };
        let ghost sofar = out@;
        assert(more[i as int] == row@);
        out.push(row);
        assert(library_view(out@) =~= library_view(sofar).push(row@));
        i += 1;
        assert(before + more.take(i as int) =~= (before + more.take(i - 1)).push(more[i - 1]));
    }
    assert(more.take(i as int) =~= more);
}

/// The annotations of all books of a library, book by book, from what could be loaded of each.
pub fn load_all_library_annotations(
    entries: &Vec<LibraryEntry>,
    loaded: &Vec<Option<Vec<UserAnnotation>>>,
) -> (r: Vec<
    LibraryAnnotation,
>)
    requires
        loaded@.len() == entries@.len(),
    ensures
        library_view(r@) == gathered(entries_view(entries@), loaded@, entries@.len() as int),
{
    let ghost all = entries_view(entries@);
    let mut out: Vec<LibraryAnnotation> = Vec::new();
    assert(library_view(out@) =~= Seq::<LibraryAnnotationView>::empty());
    let mut k: usize = 0;
    while k < entries.len()
        invariant
            k <= entries@.len(),
            loaded@.len() == entries@.len(),
            all == entries_view(entries@),
            library_view(out@) == gathered(all, loaded@, k as int),
        decreases entries@.len() - k,
    {
        assert(all[k as int] == entries@[k as int]@);
        if let Some(annotations) = &loaded[k] {
            push_annotations(&mut out, &entries[k], annotations);
        }
        k += 1;
    }
    out
}

/// Whether a filter, in lower case, finds an annotation: in the title of its book, in what it is
/// called, in its comment or in its words.
pub fn library_annotation_matches_search(entry: &LibraryAnnotation, filter: &str) -> (r: bool)
    ensures
        r == (contains(lowercase(entry@.book_title), filter@) || matches_filter(entry@.annotation, filter@)),
{
    contains_text(lower_text(entry.book_title.as_str()).as_str(), filter) || annotation_matches_search(
        &entry.annotation,
        filter,
    )
}

/// What an annotation is put in order by: the title of its book whatever the case of the letters,
/// that title itself, the place of the book, and then where in the book the annotation stands.
pub open spec fn library_key(e: LibraryAnnotationView) -> KeyView {
    KeyView::Mixed(
        lowercase(e.book_title),
        e.book_title,
        e.book_path,
        e.annotation.node_id as int,
        e.annotation.start_offset as int,
    )
}

/// What annotations are put in order by.
pub open spec fn library_keys(entries: Seq<LibraryAnnotationView>) -> Seq<KeyView> {
    entries.map_values(|e: LibraryAnnotationView| library_key(e))
}

/// Whether a heading stands above the annotation that comes at `n`: it is the first, or the one
/// before it is in a book of another title.
pub open spec fn is_titled(entries: Seq<LibraryAnnotationView>, order: Seq<usize>, n: int) -> bool {
    n == 0 || entries[order[n - 1] as int].book_title != entries[order[n] as int].book_title
}

/// An annotation in the Markdown of a library, behind the title of its book or not.
pub open spec fn entry_markdown(e: LibraryAnnotationView, titled: bool) -> Seq<char> {
    let heading = if titled {
        "## "@ + e.book_title + "\n\n"@
    } else {
        Seq::empty()
    };
    heading + "### "@ + label_of(e.annotation.annotation_type) + "\n\n"@ + body_markdown(e.annotation)
}

/// The annotations at the first `n` of these places in Markdown, with a heading wherever the
/// book changes.
pub open spec fn library_markdown(
    entries: Seq<LibraryAnnotationView>,
    order: Seq<usize>,
    n: int,
) -> Seq<char>
    decreases n,
{
    if n <= 0 {
        Seq::empty()
    } else {
        let e = entries[order[n - 1] as int];
        library_markdown(entries, order, n - 1) + entry_markdown(e, is_titled(entries, order, n - 1))
    }
}

fn push_entry(out: &mut String, e: &LibraryAnnotation, titled: bool)
    ensures
        final(out)@ == old(out)@ + entry_markdown(e@, titled),
{
    let ghost before = out@;
    if titled {
        out.append("## ");
        out.append(e.book_title.as_str());
        out.append("\n\n");
    }
    out.append("### ");
    out.append(kind_label(e.annotation.annotation_type.as_str()));
    out.append("\n\n");
    out.append(annotation_body_markdown(&e.annotation).as_str());
    assert(out@ =~= before + entry_markdown(e@, titled));
}

/// The annotations of a library in Markdown, book by book and in each in reading order.
pub fn export_library_annotations_markdown(entries: &Vec<LibraryAnnotation>) -> (r: String)
    ensures
        r@ == "# Annotations\n\n"@ + library_markdown(
            library_view(entries@),
            order_of(library_keys(library_view(entries@)), false),
            entries@.len() as int,
        ),
{
    let ghost all = library_view(entries@);
    let mut keys: Vec<SortKey> = Vec::new();
    let mut k: usize = 0;
    while k < entries.len()
        invariant
            k <= entries@.len(),
            all == library_view(entries@),
            keys@.len() == k,
            keys_view(keys@) =~= library_keys(all).take(k as int),
        decreases entries@.len() - k,
    {
        assert(all[k as int] == entries@[k as int]@);
        let key = SortKey::Mixed(
            lower_text(entries[k].book_title.as_str()),
            entries[k].book_title.clone(),
            entries[k].book_path.clone(),
            entries[k].annotation.node_id,
            entries[k].annotation.start_offset,
        );
        let ghost before = keys@;
        assert(key@ == library_keys(all)[k as int]);
        keys.push(key);
        assert(keys_view(keys@) =~= keys_view(before).push(key@));
        k += 1;
    }
    assert(library_keys(all).take(k as int) =~= library_keys(all));
    let order = stable_order(&keys, false);
    let ghost head = "# Annotations\n\n"@;
    let mut out = "# Annotations\n\n".to_owned();
    assert(head + Seq::<char>::empty() =~= head);
    let mut n: usize = 0;
    while n < order.len()
        invariant
            n <= order@.len(),
            order@.len() == entries@.len(),
            all == library_view(entries@),
            forall|i: int| 0 <= i < order@.len() ==> 0 <= #[trigger] order@[i] < entries@.len(),
            out@ == head + library_markdown(all, order@, n as int),
        decreases order@.len() - n,
    {
        let e = &entries[order[n]];
        assert(all[order@[n as int] as int] == e@);
        let titled = if n == 0 {
            true
        } else {
            assert(all[order@[n - 1] as int] == entries@[order@[n - 1] as int]@);
            !same_text(entries[order[n - 1]].book_title.as_str(), e.book_title.as_str())
        };
        push_entry(&mut out, e, titled);
        n += 1;
        assert(out@ =~= head + library_markdown(all, order@, n as int));
    }
    out
}

proof fn lemma_keys_ascend(
    entries: Seq<LibraryAnnotationView>,
    order: Seq<usize>,
    i: int,
    j: int,
)
    requires
        entries.len() <= usize::MAX,
        order == order_of(library_keys(entries), false),
        0 <= i < j < order.len(),
    ensures
        key_le(library_key(entries[order[i] as int]), library_key(entries[order[j] as int])),
{
    let keys = library_keys(entries);
    stable_orders_exist(keys, false);
    assert(belongs_before(keys, order[i], order[j], false));
    assert(keys[order[i] as int] == library_key(entries[order[i] as int]));
    assert(keys[order[j] as int] == library_key(entries[order[j] as int]));
}

/// The annotations on a node are listed by where they begin, each of them once.
pub proof fn listing_reads_forward(annotations: Seq<AnnotationView>)
    requires
        annotations.len() <= usize::MAX,
    ensures
        read_forward(annotations).len() == annotations.len(),
        order_of(start_keys(annotations), false).no_duplicates(),
        forall|k: int|
            0 <= k < annotations.len() ==> read_forward(annotations).contains(
                #[trigger] annotations[k],
            ),
        forall|i: int, j: int|
            0 <= i < j < annotations.len() ==> (#[trigger] read_forward(annotations)[i]).start_offset <= (
            #[trigger] read_forward(annotations)[j]).start_offset,
{
    let keys = start_keys(annotations);
    let order = order_of(keys, false);
    let sorted = read_forward(annotations);
    stable_orders_exist(keys, false);
    assert forall|i: int, j: int| 0 <= i < j < annotations.len() implies (#[trigger] sorted[i]).start_offset <= (
    #[trigger] sorted[j]).start_offset by {
        assert(belongs_before(keys, order[i], order[j], false));
        assert(keys[order[i] as int] == KeyView::Number(sorted[i].start_offset as int));
        assert(keys[order[j] as int] == KeyView::Number(sorted[j].start_offset as int));
    }
    stable_orders_have_no_duplicates(order, keys, keys.len() as int, false);
    assert forall|k: int| 0 <= k < annotations.len() implies sorted.contains(#[trigger] annotations[k]) by {
        let p = k as usize;
        assert(order.contains(p));
        let i = order.index_of(p);
        assert(sorted[i] == annotations[k]);
    }
}

/// In the export of a library the books come in the order of their titles, whatever the case of
/// the letters, and the annotations of a book in reading order.
pub proof fn books_ascend_and_read_forward(
    entries: Seq<LibraryAnnotationView>,
    order: Seq<usize>,
    i: int,
    j: int,
)
    requires
        entries.len() <= usize::MAX,
        order == order_of(library_keys(entries), false),
        0 <= i < j < order.len(),
    ensures
        ({
            let a = entries[order[i] as int];
            let b = entries[order[j] as int];
            &&& text_le(lowercase(a.book_title), lowercase(b.book_title))
            &&& a.book_title == b.book_title && a.book_path == b.book_path ==> {
                ||| a.annotation.node_id < b.annotation.node_id
                ||| a.annotation.node_id == b.annotation.node_id && a.annotation.start_offset
                    <= b.annotation.start_offset
            }
        }),
{
    lemma_keys_ascend(entries, order, i, j);
    texts_are_totally_ordered(
        lowercase(entries[order[i] as int].book_title),
        lowercase(entries[order[j] as int].book_title),
    );
}

/// In the export of a library the annotations of a book stand together, and so do those of all
/// books of one title.
pub proof fn books_stay_together(
    entries: Seq<LibraryAnnotationView>,
    order: Seq<usize>,
    i: int,
    j: int,
    k: int,
)
    requires
        entries.len() <= usize::MAX,
        order == order_of(library_keys(entries), false),
        0 <= i < j < k < order.len(),
        entries[order[i] as int].book_title == entries[order[k] as int].book_title,
    ensures
        entries[order[j] as int].book_title == entries[order[i] as int].book_title,
        entries[order[i] as int].book_path == entries[order[k] as int].book_path
            ==> entries[order[j] as int].book_path == entries[order[i] as int].book_path,
{
    let a = entries[order[i] as int];
    let b = entries[order[j] as int];
    lemma_keys_ascend(entries, order, i, j);
    lemma_keys_ascend(entries, order, j, k);
    texts_are_totally_ordered(lowercase(a.book_title), lowercase(b.book_title));
    texts_are_totally_ordered(a.book_title, b.book_title);
    texts_are_totally_ordered(a.book_path, b.book_path);
}

/// No title stands above annotations twice.
pub proof fn titles_stand_once(
    entries: Seq<LibraryAnnotationView>,
    order: Seq<usize>,
    i: int,
    k: int,
)
    requires
        entries.len() <= usize::MAX,
        order == order_of(library_keys(entries), false),
        0 <= i < k < order.len(),
        entries[order[i] as int].book_title == entries[order[k] as int].book_title,
    ensures
        !is_titled(entries, order, k),
{
    if i < k - 1 {
        books_stay_together(entries, order, i, k - 1, k);
    }
}

} // verus!
