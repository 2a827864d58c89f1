//! A book holds a row for every element of its chapters.

use vstd::prelude::*;

use super::children::present;
use crate::compiler::{
    anchors_claimed, element_added, elements_added, image_paths, images_among, items_json,
    metadata_table, note_in, notes_added, sanitized, table_json, BookView, RowView,
};
use crate::dom::{ElementView, FootnoteView, ItemView, NoteView};
use crate::epub::{parent_dir, resolved, MetadataView};
use crate::json::{int_json, spans_json, JsonView};

verus! {

// ---------------------------------------------------------------------------
// Elements
// ---------------------------------------------------------------------------

/// The row is that of an element: it has no row above it, the type and the text of the element,
/// and in its attributes what else the element holds.
pub open spec fn is_row_of(row: RowView, at: int, e: ElementView, image: Option<i64>) -> bool {
    &&& row.parent is None
    &&& row.ordinal == at
    &&& match e {
        ElementView::Heading { level, text, spans, .. } => row.node_type == "heading"@ && row.content == Some(text)
            && row.attributes == JsonView::Object(
            seq![("level"@, JsonView::Unsigned(level)), ("spans"@, spans_json(spans))],
        ),
        ElementView::Paragraph { node_type, text, spans, source_file, stanza_start, verse_end, .. } => {
            &&& row.node_type == node_type
            &&& row.content == Some(text)
            &&& node_type != "verse_line"@ ==> row.attributes == JsonView::Object(
                seq![("source_file"@, JsonView::Text(source_file)), ("spans"@, spans_json(spans))],
            )
            &&& node_type == "verse_line"@ ==> row.attributes == JsonView::Object(
                seq![
                    ("source_file"@, JsonView::Text(source_file)),
                    ("spans"@, spans_json(spans)),
                    ("stanza_start"@, JsonView::Bool(stanza_start)),
                    ("verse_end"@, JsonView::Bool(verse_end)),
                ],
            )
        },
        ElementView::ThematicBreak { .. } => row.node_type == "thematic_break"@ && row.content is None
            && row.attributes == JsonView::Object(Seq::empty()),
        ElementView::Table { text, rows, source_file, .. } => row.node_type == "table"@ && row.content == Some(text)
            && row.attributes == JsonView::Object(
            seq![("rows"@, table_json(rows)), ("source_file"@, JsonView::Text(source_file))],
        ),
        ElementView::Image { alt, caption, .. } => image is Some && row.node_type == "image"@ && row.content is None
            && row.attributes == JsonView::Object(
            seq![
                ("asset_id"@, int_json(image->0 as int)),
                ("alt"@, JsonView::Text(alt)),
                ("caption"@, JsonView::Text(caption)),
            ],
        ),
        ElementView::List { ordered, text, spans, items, source_file, .. } => row.node_type == "list"@ && row.content
            == Some(text) && row.attributes == JsonView::Object(
            seq![
                ("ordered"@, JsonView::Bool(ordered)),
                ("items"@, items_json(items)),
                ("spans"@, spans_json(spans)),
                ("source_file"@, JsonView::Text(source_file)),
            ],
        ),
    }
}

/// The row is that of a note below row `parent`.
pub open spec fn is_row_of_note(row: RowView, at: int, parent: int, note: NoteView) -> bool {
    &&& row.parent == Some(parent)
    &&& row.ordinal == at
    &&& row.node_type == "footnote"@
    &&& row.content == Some(note.text)
    &&& row.attributes == JsonView::Object(
        seq![
            ("anchor_id"@, JsonView::Text(note.anchor_id)),
            ("label"@, JsonView::Text(note.label)),
            ("spans"@, spans_json(note.spans)),
        ],
    )
}

/// The notes that are found for the references of an element, in order.
pub open spec fn notes_of(source: Seq<char>, e: ElementView) -> Seq<NoteView> {
    match e {
        ElementView::Paragraph { footnotes, .. } => present(
            footnotes.map_values(|f: FootnoteView| note_in(source, f)),
        ),
        _ => Seq::empty(),
    }
}

proof fn lemma_notes(b: BookView, parent: int, source: Seq<char>, notes: Seq<FootnoteView>, n: int)
    requires
        0 <= n <= notes.len(),
    ensures
        ({
            let after = notes_added(b, parent, source, notes, n);
            let found = present(notes.take(n).map_values(|f: FootnoteView| note_in(source, f)));
            let old_len = b.nodes.len() as int;
            &&& after.nodes.len() == old_len + found.len()
            &&& after.nodes.take(old_len) =~= b.nodes
            &&& after.chapters == b.chapters
            &&& after.anchors == b.anchors
            &&& forall|i: int|
                0 <= i < found.len() ==> is_row_of_note(
                    #[trigger] after.nodes[old_len + i],
                    old_len + i,
                    parent,
                    found[i],
                )
        }),
    decreases n,
{
    let f = |f: FootnoteView| note_in(source, f);
    let p = |x: Option<NoteView>| x is Some;
    let g = |x: Option<NoteView>| x->0;
    reveal(Seq::filter);
    if n > 0 {
        lemma_notes(b, parent, source, notes, n - 1);
        let before = notes.take(n - 1).map_values(f);
        let now = notes.take(n).map_values(f);
        assert(now =~= before.push(note_in(source, notes[n - 1])));
        assert(now.drop_last() =~= before);
        let x = note_in(source, notes[n - 1]);
        if x is Some {
            assert(present(now) =~= present(before).push(x->0));
        }
        let after = notes_added(b, parent, source, notes, n);
        let found = present(now);
        let old_len = b.nodes.len() as int;
        let prior = notes_added(b, parent, source, notes, n - 1);
        assert(after.nodes.take(old_len) =~= prior.nodes.take(old_len));
        assert forall|i: int| 0 <= i < found.len() implies is_row_of_note(
            #[trigger] after.nodes[old_len + i],
            old_len + i,
            parent,
            found[i],
        ) by {
            if i < present(before).len() {
                assert(after.nodes[old_len + i] == prior.nodes[old_len + i]);
            }
        }
    } else {
        let none = notes.take(0).map_values(f);
        assert(none =~= Seq::<Option<NoteView>>::empty());
        assert(none.filter(p) =~= Seq::<Option<NoteView>>::empty());
        assert(present(none) =~= Seq::<NoteView>::empty());
    }
}

/// An element adds its row behind those that are there, with the notes of its references below
/// it; a picture that is not in the archive adds nothing.
pub proof fn elements_become_rows(
    b: BookView,
    path: Seq<char>,
    source: Seq<char>,
    e: ElementView,
    image: Option<i64>,
)
    ensures
        ({
            let after = element_added(b, path, source, e, image);
            let at = b.nodes.len() as int;
            let notes = notes_of(source, e);
            &&& e is Image && image is None ==> after == b
            &&& !(e is Image && image is None) ==> {
                &&& after.nodes.len() == at + 1 + notes.len()
                &&& is_row_of(after.nodes[at], at, e, image)
                &&& forall|i: int|
                    0 <= i < notes.len() ==> is_row_of_note(
                        #[trigger] after.nodes[at + 1 + i],
                        at + 1 + i,
                        at,
                        notes[i],
                    )
            }
            &&& after.nodes.take(at) == b.nodes
        }),
{
    let after = element_added(b, path, source, e, image);
    let at = b.nodes.len() as int;
    match e {
        ElementView::Paragraph {
            node_type,
            text,
            spans,
            source_file,
            footnotes,
            element_ids,
            own_id,
            stanza_start,
            verse_end,
        } => {
            let attributes = crate::compiler::paragraph_json(node_type, source_file, spans, stanza_start, verse_end);
            let own = b.with_row(None, node_type, Some(text), attributes).claimed(path, element_ids, own_id);
            let n = footnotes.len() as int;
            lemma_notes(own, at, source, footnotes, n);
            assert(footnotes.take(n) =~= footnotes);
            assert(own.nodes.len() == at + 1);
            assert(after.nodes[at] == after.nodes.take(at + 1)[at]);
            assert(own.nodes[at] == after.nodes[at]);
            assert(after.nodes.take(at) =~= b.nodes) by {
                assert(after.nodes.take(at) =~= own.nodes.take(at));
            }
            let two = seq![("source_file"@, JsonView::Text(source_file)), ("spans"@, spans_json(spans))];
            assert(two + seq![("stanza_start"@, JsonView::Bool(stanza_start)), ("verse_end"@, JsonView::Bool(verse_end))]
                =~= seq![
                ("source_file"@, JsonView::Text(source_file)),
                ("spans"@, spans_json(spans)),
                ("stanza_start"@, JsonView::Bool(stanza_start)),
                ("verse_end"@, JsonView::Bool(verse_end)),
            ]);
        },
        _ => {
            assert(after.nodes.take(at) =~= b.nodes);
        },
    }
}

/// How many pictures are among the first `k` elements.
pub open spec fn pictures_before(elements: Seq<ElementView>, k: int) -> int {
    elements.take(k).filter(|e: ElementView| e is Image).len() as int
}

proof fn lemma_pictures(elements: Seq<ElementView>, k: int)
    requires
        0 <= k <= elements.len(),
    ensures
        images_among(elements, k) == pictures_before(elements, k),
    decreases k,
{
    reveal(Seq::filter);
    if k > 0 {
        lemma_pictures(elements, k - 1);
        assert(elements.take(k).drop_last() =~= elements.take(k - 1));
    }
}

/// A chapter adds a row for each of its elements, in order, and each picture the row of its own
/// asset: the one that was found for it.
pub proof fn chapters_add_their_elements(
    b: BookView,
    path: Seq<char>,
    source: Seq<char>,
    elements: Seq<ElementView>,
    images: Seq<Option<i64>>,
    k: int,
    n: int,
)
    requires
        0 <= k < n <= elements.len(),
    ensures
        ({
            let after = elements_added(b, path, source, elements, images, n);
            let at = elements_added(b, path, source, elements, images, k).nodes.len() as int;
            let e = elements[k];
            let image = images[pictures_before(elements, k)];
            let notes = notes_of(source, e);
            &&& b.nodes.len() <= at <= after.nodes.len()
            &&& after.nodes.take(b.nodes.len() as int) == b.nodes
            &&& !(e is Image && image is None) ==> {
                &&& at + notes.len() < after.nodes.len()
                &&& is_row_of(after.nodes[at], at, e, image)
                &&& forall|i: int|
                    0 <= i < notes.len() ==> is_row_of_note(
                        #[trigger] after.nodes[at + 1 + i],
                        at + 1 + i,
                        at,
                        notes[i],
                    )
                &&& elements_added(b, path, source, elements, images, k + 1).nodes.len() == at + 1 + notes.len()
            }
            &&& e is Image && image is None ==> elements_added(b, path, source, elements, images, k + 1).nodes.len()
                == at
        }),
    decreases n,
{
    let after = elements_added(b, path, source, elements, images, n);
    let before = elements_added(b, path, source, elements, images, n - 1);
    let at = elements_added(b, path, source, elements, images, k).nodes.len() as int;
    let notes = notes_of(source, elements[k]);
    lemma_pictures(elements, n - 1);
    elements_become_rows(before, path, source, elements[n - 1], images[images_among(elements, n - 1)]);
    let was = before.nodes.len() as int;
    if k < n - 1 {
        chapters_add_their_elements(b, path, source, elements, images, k, n - 1);
        assert forall|i: int| 0 <= i < was implies #[trigger] after.nodes[i] == before.nodes[i] by {
            assert(after.nodes.take(was)[i] == before.nodes[i]);
        }
    } else if n > 1 {
        chapters_add_their_elements(b, path, source, elements, images, n - 2, n - 1);
    } else {
        assert(b.nodes.take(b.nodes.len() as int) =~= b.nodes);
    }
    assert(after.nodes.take(b.nodes.len() as int) =~= before.nodes.take(b.nodes.len() as int)) by {
        assert forall|i: int| 0 <= i < was implies #[trigger] after.nodes[i] == before.nodes[i] by {
            assert(after.nodes.take(was)[i] == before.nodes[i]);
        }
    }
}

/// The pictures of a chapter are asked for in order, each at its address seen from the chapter.
pub proof fn pictures_are_asked_for_in_order(path: Seq<char>, elements: Seq<ElementView>, k: int, n: int)
    requires
        0 <= k < n <= elements.len(),
    ensures
        elements[k] matches ElementView::Image { src, .. } ==> pictures_before(elements, k) < image_paths(
            path,
            elements,
            n,
        ).len() && image_paths(path, elements, n)[pictures_before(elements, k)] == resolved(parent_dir(path), src),
        image_paths(path, elements, n).len() == pictures_before(elements, n),
    decreases n,
{
    lemma_pictures(elements, n);
    lemma_pictures(elements, k);
    lemma_pictures(elements, n - 1);
    if n == 1 {
        assert(image_paths(path, elements, 0).len() == 0);
    }
    if n > 1 {
        pictures_are_asked_for_in_order(path, elements, if k < n - 1 { k } else { n - 2 }, n - 1);
    }
}

// ---------------------------------------------------------------------------
// Chapters and anchors
// ---------------------------------------------------------------------------

/// The ids that an element answers to, and whether the first is its own.
pub open spec fn ids_of(e: ElementView) -> (Seq<Seq<char>>, bool) {
    match e {
        ElementView::Heading { element_ids, own_id, .. } => (element_ids, own_id),
        ElementView::Paragraph { element_ids, own_id, .. } => (element_ids, own_id),
        ElementView::ThematicBreak { element_ids, own_id } => (element_ids, own_id),
        ElementView::Table { element_ids, own_id, .. } => (element_ids, own_id),
        ElementView::Image { element_ids, own_id, .. } => (element_ids, own_id),
        ElementView::List { element_ids, own_id, .. } => (element_ids, own_id),
    }
}

/// A chapter begins at the row of the first of its elements that has one. An id that an element
/// answers to leads to its row, if it is the element's own or led nowhere before; every other
/// leads where it led.
pub proof fn ids_lead_to_the_rows_of_their_elements(
    b: BookView,
    path: Seq<char>,
    source: Seq<char>,
    e: ElementView,
    image: Option<i64>,
    file: Seq<char>,
    id: Seq<char>,
)
    requires
        !(e is Image && image is None),
    ensures
        ({
            let after = element_added(b, path, source, e, image);
            let at = b.nodes.len() as int;
            let ids = ids_of(e).0;
            let own = ids_of(e).1;
            &&& after.chapters == (if b.chapters.contains_key(path) {
                b.chapters
            } else {
                b.chapters.insert(path, at)
            })
            &&& own && ids.len() > 0 ==> after.anchors.contains_key((path, ids[0])) && after.anchors[(path, ids[0])]
                == at
            &&& ids.contains(id) && !b.anchors.contains_key((path, id)) ==> after.anchors.contains_key((path, id))
                && after.anchors[(path, id)] == at
            &&& b.anchors.contains_key((file, id)) && !(own && file == path && ids.len() > 0 && ids[0] == id)
                ==> after.anchors.contains_key((file, id)) && after.anchors[(file, id)] == b.anchors[(file, id)]
            &&& after.anchors.contains_key((file, id)) && !b.anchors.contains_key((file, id)) ==> file == path
                && ids.contains(id)
        }),
{
    let at = b.nodes.len() as int;
    let ids = ids_of(e).0;
    let own = ids_of(e).1;
    lemma_claimed(b.anchors, path, ids, own, at, path, id);
    lemma_claimed(b.anchors, path, ids, own, at, file, id);
    if ids.len() > 0 {
        lemma_claimed(b.anchors, path, ids, own, at, path, ids[0]);
    }
    match e {
        ElementView::Paragraph {
            node_type,
            text,
            spans,
            source_file,
            footnotes,
            element_ids,
            own_id,
            stanza_start,
            verse_end,
        } => {
            let attributes = crate::compiler::paragraph_json(node_type, source_file, spans, stanza_start, verse_end);
            let row = b.with_row(None, node_type, Some(text), attributes).claimed(path, element_ids, own_id);
            lemma_notes(row, at, source, footnotes, footnotes.len() as int);
        },
        _ => {},
    }
}

proof fn lemma_claimed(
    m: Map<(Seq<char>, Seq<char>), int>,
    path: Seq<char>,
    ids: Seq<Seq<char>>,
    own: bool,
    node: int,
    file: Seq<char>,
    id: Seq<char>,
)
    ensures
        ({
            let after = anchors_claimed(m, path, ids, own, node);
            let key = (file, id);
            &&& file == path && ids.contains(id) && !m.contains_key(key) ==> after.contains_key(key) && after[key]
                == node
            &&& own && file == path && ids.len() > 0 && ids[0] == id ==> after.contains_key(key) && after[key] == node
            &&& m.contains_key(key) && !(own && file == path && ids.len() > 0 && ids[0] == id) ==> after.contains_key(
                key,
            ) && after[key] == m[key]
            &&& after.contains_key(key) && !m.contains_key(key) ==> file == path && ids.contains(id)
        }),
    decreases ids.len(),
{
    if ids.len() > 0 {
        let front = ids.drop_last();
        lemma_claimed(m, path, front, own, node, file, id);
        if ids.contains(id) && ids.last() != id {
            let i = choose|i: int| 0 <= i < ids.len() && ids[i] == id;
            assert(front[i] == id);
        }
        if front.contains(id) {
            let i = choose|i: int| 0 <= i < front.len() && front[i] == id;
            assert(ids[i] == id);
        }
        if ids.last() == id {
            assert(ids[ids.len() - 1] == id);
        }
    }
}

// ---------------------------------------------------------------------------
// What rows hold
// ---------------------------------------------------------------------------

/// The items of a list are kept one by one: their text, their spans, and the list below each.
pub proof fn items_are_kept_in_rows(items: Seq<ItemView>, k: int)
    requires
        0 <= k < items.len(),
    ensures
        items_json(items) matches JsonView::Array(kept) && kept.len() == items.len() && {
            let text = ("text"@, JsonView::Text(items[k].text));
            let spans = ("spans"@, spans_json(items[k].spans));
            kept[k] == (match items[k].sublist {
                Some(sub) => JsonView::Object(
                    seq![
                        text,
                        spans,
                        (
                            "sublist"@,
                            JsonView::Object(
                                seq![("ordered"@, JsonView::Bool(sub.ordered)), ("items"@, items_json(sub.items))],
                            ),
                        ),
                    ],
                ),
                None => JsonView::Object(seq![text, spans]),
            })
        },
{
    let text = ("text"@, JsonView::Text(items[k].text));
    let spans = ("spans"@, spans_json(items[k].spans));
    match items[k].sublist {
        Some(sub) => {
            let list = (
                "sublist"@,
                JsonView::Object(
                    seq![("ordered"@, JsonView::Bool(sub.ordered)), ("items"@, items_json(sub.items))],
                ),
            );
            assert(seq![text, spans].push(list) =~= seq![text, spans, list]);
        },
        None => {},
    }
}

/// The cells of a table are kept one by one.
pub proof fn cells_are_kept_in_rows(rows: Seq<Seq<Seq<char>>>, i: int, j: int)
    requires
        0 <= i < rows.len(),
        0 <= j < rows[i].len(),
    ensures
        table_json(rows) matches JsonView::Array(kept) && kept.len() == rows.len() && (kept[i] matches JsonView::Array(
            cells,
        ) && cells.len() == rows[i].len() && cells[j] == JsonView::Text(rows[i][j])),
{
}

/// A book says of itself what its package says: title, author and language, whatever else there
/// is, in this order, and at the end what made it and from what.
pub proof fn metadata_becomes_rows(m: MetadataView, version: Seq<char>, hash: Seq<char>)
    ensures
        ({
            let rows = metadata_table(m, version, hash);
            let n = rows.len();
            let has = |key: Seq<char>, value: Seq<char>| rows.contains((key, value));
            &&& n >= 5
            &&& rows[0] == ("title"@, sanitized(m.title))
            &&& rows[1] == ("author"@, sanitized(m.author))
            &&& rows[2] == ("language"@, m.language)
            &&& rows[n - 2] == ("weland_version"@, version)
            &&& rows[n - 1] == ("source_epub_sha256"@, hash)
            &&& counted(m.description, true) > 0 ==> has("description"@, sanitized(m.description->0))
            &&& m.identifier is Some ==> has("identifier"@, m.identifier->0)
            &&& counted(m.publisher, true) > 0 ==> has("publisher"@, sanitized(m.publisher->0))
            &&& m.date is Some ==> has("date"@, m.date->0)
            &&& counted(m.rights, true) > 0 ==> has("rights"@, sanitized(m.rights->0))
            &&& n == 5 + counted(m.description, true) + counted(m.identifier, false) + counted(m.publisher, true)
                + counted(m.date, false) + counted(m.rights, true)
        }),
{
    let a = seq![("title"@, sanitized(m.title)), ("author"@, sanitized(m.author)), ("language"@, m.language)];
    let b = crate::compiler::clean_row("description"@, m.description);
    let c = crate::compiler::plain_row("identifier"@, m.identifier);
    let d = crate::compiler::clean_row("publisher"@, m.publisher);
    let e = crate::compiler::plain_row("date"@, m.date);
    let f = crate::compiler::clean_row("rights"@, m.rights);
    let rows = metadata_table(m, version, hash);
    if b.len() > 0 {
        assert(rows[3] == b[0]);
    }
    if c.len() > 0 {
        assert(rows[(3 + b.len()) as int] == c[0]);
    }
    if d.len() > 0 {
        assert(rows[(3 + b.len() + c.len()) as int] == d[0]);
    }
    if e.len() > 0 {
        assert(rows[(3 + b.len() + c.len() + d.len()) as int] == e[0]);
    }
    if f.len() > 0 {
        assert(rows[(3 + b.len() + c.len() + d.len() + e.len()) as int] == f[0]);
    }
}

/// One for a value that gets a row: one that is there, and, where it is cleaned, does not become
/// empty.
pub open spec fn counted(value: Option<Seq<char>>, cleaned: bool) -> nat {
    match value {
        Some(v) => if cleaned && sanitized(v).len() == 0 {
            0
        } else {
            1
        },
        None => 0,
    }
}

} // verus!
