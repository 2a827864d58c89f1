//! Compiling a package into the rows of a book file.

use vstd::prelude::*;

use crate::dom::{
    elements_view, footnote, footnotes_view, item_view, items_view, resolve_footnote, rows_view,
    sanitize_metadata_text, ChapterElement, ElementView, FootnoteRef, FootnoteView, ItemView,
    ListItem, ListView, NoteView,
};
use crate::dom::plain_metadata;
use crate::epub::{
    get_parent_dir, normalize_zip_path, normalized, parent_dir, resolved,
    resolve_relative_path, toc_view, tocs_view, EpubMetadata, MetadataView, RawTocItem, TocView,
};
use crate::html::{css_first, document_nodes, fragment_nodes, HtmlDocument};
use crate::json::{
    fields_view, int_json, jsons_view, lemma_json_view, object, object1, signed_to_json, spans_json,
    spans_to_json, with_field, Json, JsonView,
};
use crate::schema::{opt_text, spans_view, Span, SpanView};
use crate::text::{before_char, char_pos, chars_of, cut_at, find_char, same_text, text_of, texts};

verus! {

// ---------------------------------------------------------------------------
// Options and statistics
// ---------------------------------------------------------------------------

/// How to compile.
pub struct CompileOptions {
    pub quiet: bool,
    pub verbose: bool,
}

/// What a compilation came to.
pub struct CompileStats {
    pub title: String,
    pub author: String,
    pub chapter_count: usize,
    pub total_nodes: usize,
    pub node_counts: Vec<(String, usize)>,
    pub asset_count: usize,
    pub total_asset_bytes: usize,
    pub toc_count: usize,
    pub output_file_size: u64,
    pub elapsed_millis: u128,
}

// ---------------------------------------------------------------------------
// Metadata
// ---------------------------------------------------------------------------

/// The views of key-value pairs.
pub open spec fn pairs_view(rows: Seq<(String, String)>) -> Seq<(Seq<char>, Seq<char>)> {
    rows.map_values(|r: (String, String)| (r.0@, r.1@))
}

/// A metadata text without its markup.
pub open spec fn sanitized(input: Seq<char>) -> Seq<char> {
    plain_metadata(input, fragment_nodes(input))
}

/// The row of a key whose value is there.
pub open spec fn plain_row(
    key: Seq<char>,
    value: Option<Seq<char>>,
) -> Seq<(Seq<char>, Seq<char>)> {
    match value {
        Some(v) => seq![(key, v)],
        None => Seq::empty(),
    }
}

/// The row of a key whose value, without its markup, is there and not empty.
pub open spec fn clean_row(
    key: Seq<char>,
    value: Option<Seq<char>>,
) -> Seq<(Seq<char>, Seq<char>)> {
    match value {
        Some(v) => if sanitized(v).len() > 0 {
            seq![(key, sanitized(v))]
        } else {
            Seq::empty()
        },
        None => Seq::empty(),
    }
}

/// The metadata rows of a book.
pub open spec fn metadata_table(m: MetadataView, version: Seq<char>, hash: Seq<char>) -> Seq<(
    Seq<char>,
    Seq<char>,
)> {
    seq![
        ("title"@, sanitized(m.title)),
        ("author"@, sanitized(m.author)),
        ("language"@, m.language),
    ] + clean_row("description"@, m.description) + plain_row("identifier"@, m.identifier)
        + clean_row("publisher"@, m.publisher) + plain_row("date"@, m.date) + clean_row(
        "rights"@,
        m.rights,
    ) + seq![("weland_version"@, version), ("source_epub_sha256"@, hash)]
}

fn push_row(rows: &mut Vec<(String, String)>, key: &str, value: String)
    ensures
        pairs_view(final(rows)@) == pairs_view(old(rows)@) + seq![(key@, value@)],
{
    let ghost before = rows@;
    rows.push((key.to_owned(), value));
    assert(pairs_view(rows@) =~= pairs_view(before) + seq![(key@, value@)]);
}

fn push_plain(rows: &mut Vec<(String, String)>, key: &str, value: &Option<String>)
    ensures
        pairs_view(final(rows)@) == pairs_view(old(rows)@) + plain_row(key@, opt_text(*value)),
{
    match value {
        Some(v) => push_row(rows, key, v.clone()),
        None => {
            assert(pairs_view(rows@) + Seq::<(Seq<char>, Seq<char>)>::empty() =~= pairs_view(rows@));
        },
    }
}

fn push_clean(rows: &mut Vec<(String, String)>, key: &str, value: &Option<String>)
    ensures
        pairs_view(final(rows)@) == pairs_view(old(rows)@) + clean_row(key@, opt_text(*value)),
{
    assert(pairs_view(rows@) + Seq::<(Seq<char>, Seq<char>)>::empty() =~= pairs_view(rows@));
    if let Some(v) = value {
        let clean = sanitize_metadata_text(v.as_str());
        if !clean.as_str().is_empty() {
            push_row(rows, key, clean);
        }
    }
}

/// The metadata rows of a book compiled by this version from a file with this hash.
pub fn metadata_rows(m: &EpubMetadata, version: &str, source_hash: &str) -> (r: Vec<
    (String, String),
>)
    ensures
        pairs_view(r@) == metadata_table(m@, version@, source_hash@),
{
    let mut rows: Vec<(String, String)> = Vec::new();
    push_row(&mut rows, "title", sanitize_metadata_text(m.title.as_str()));
    push_row(&mut rows, "author", sanitize_metadata_text(m.author.as_str()));
    push_row(&mut rows, "language", m.language.clone());
    push_clean(&mut rows, "description", &m.description);
    push_plain(&mut rows, "identifier", &m.identifier);
    push_clean(&mut rows, "publisher", &m.publisher);
    push_plain(&mut rows, "date", &m.date);
    push_clean(&mut rows, "rights", &m.rights);
    push_row(&mut rows, "weland_version", version.to_owned());
    push_row(&mut rows, "source_epub_sha256", source_hash.to_owned());
    assert(pairs_view(rows@) =~= metadata_table(m@, version@, source_hash@));
    rows
}

// ---------------------------------------------------------------------------
// Assets
// ---------------------------------------------------------------------------

/// The SHA-256 digest of the bytes, in lowercase hexadecimal digits.
pub uninterp spec fn sha256_digest(data: Seq<u8>) -> Seq<char>;

/// A character is a hexadecimal digit in lower case.
pub open spec fn is_lower_hex(c: char) -> bool {
    '0' <= c <= '9' || 'a' <= c <= 'f'
}

/// Calls `sha2::Sha256::digest` and `hex::encode`: a digest of 32 bytes, which depends on the data
/// alone, as 64 hexadecimal digits.
#[verifier::external_body]
fn digest_hex(data: &Vec<u8>) -> (r: String)
    ensures
        r@ == sha256_digest(data@),
        r@.len() == 64,
        forall|i: int| 0 <= i < r@.len() ==> is_lower_hex(#[trigger] r@[i]),
{
    hex::encode(<sha2::Sha256 as sha2::Digest>::digest(data))
}

/// The SHA-256 digest of the bytes, in lowercase hexadecimal digits.
pub fn sha256_hex(data: &Vec<u8>) -> (r: String)
    ensures
        r@ == sha256_digest(data@),
        r@.len() == 64,
        forall|i: int| 0 <= i < r@.len() ==> is_lower_hex(#[trigger] r@[i]),
{
    digest_hex(data)
}

// ---------------------------------------------------------------------------
// Nodes
// ---------------------------------------------------------------------------

/// A row of the table of nodes. Rows refer to each other by their places in the table.
pub struct NodeRow {
    pub parent: Option<usize>,
    pub ordinal: usize,
    pub node_type: String,
    /// The text, which is also what full-text search indexes.
    pub content: Option<String>,
    pub attributes: Json,
}

/// The mathematical view of a [`NodeRow`].
#[verifier::ext_equal]
pub struct RowView {
    pub parent: Option<int>,
    pub ordinal: int,
    pub node_type: Seq<char>,
    pub content: Option<Seq<char>>,
    pub attributes: JsonView,
}

/// A place in the table of nodes, if it is one.
pub open spec fn opt_index(i: Option<usize>) -> Option<int> {
    match i {
        Some(n) => Some(n as int),
        None => None,
    }
}

impl View for NodeRow {
    type V = RowView;

    open spec fn view(&self) -> RowView {
        RowView {
            parent: opt_index(self.parent),
            ordinal: self.ordinal as int,
            node_type: self.node_type@,
            content: opt_text(self.content),
            attributes: self.attributes@,
        }
    }
}

/// The views of rows.
pub open spec fn rows_of(rows: Seq<NodeRow>) -> Seq<RowView> {
    rows.map_values(|r: NodeRow| r@)
}

/// The place of the first node of a chapter.
pub struct ChapterStart {
    pub path: String,
    pub node: usize,
}

/// The place of the node that an anchor in a chapter leads to.
pub struct AnchorTarget {
    pub path: String,
    pub anchor: String,
    pub node: usize,
}

/// The nodes compiled so far, and where chapters and anchors lead.
pub struct BookRows {
    pub nodes: Vec<NodeRow>,
    pub chapters: Vec<ChapterStart>,
    pub anchors: Vec<AnchorTarget>,
}

/// The mathematical view of a [`BookRows`].
#[verifier::ext_equal]
pub struct BookView {
    pub nodes: Seq<RowView>,
    pub chapters: Map<Seq<char>, int>,
    pub anchors: Map<(Seq<char>, Seq<char>), int>,
}

/// Where the chapters lead: of several entries for one chapter, the first counts.
pub open spec fn chapter_map(entries: Seq<ChapterStart>) -> Map<Seq<char>, int>
    decreases entries.len(),
{
    if entries.len() == 0 {
        Map::empty()
    } else {
        let before = chapter_map(entries.drop_last());
        let e = entries.last();
        if before.contains_key(e.path@) {
            before
        } else {
            before.insert(e.path@, e.node as int)
        }
    }
}

/// Where the anchors lead: of several entries for one anchor, the last counts.
pub open spec fn anchor_map(entries: Seq<AnchorTarget>) -> Map<(Seq<char>, Seq<char>), int>
    decreases entries.len(),
{
    if entries.len() == 0 {
        Map::empty()
    } else {
        let before = anchor_map(entries.drop_last());
        let e = entries.last();
        before.insert((e.path@, e.anchor@), e.node as int)
    }
}

impl View for BookRows {
    type V = BookView;

    open spec fn view(&self) -> BookView {
        BookView {
            nodes: rows_of(self.nodes@),
            chapters: chapter_map(self.chapters@),
            anchors: anchor_map(self.anchors@),
        }
    }
}

/// The anchors after a node at this place has claimed `ids`: the first of them, where that is its
/// own, whether or not it was free, and the others where they were.
pub open spec fn anchors_claimed(
    m: Map<(Seq<char>, Seq<char>), int>,
    path: Seq<char>,
    ids: Seq<Seq<char>>,
    own: bool,
    node: int,
) -> Map<(Seq<char>, Seq<char>), int>
    decreases ids.len(),
{
    if ids.len() == 0 {
        m
    } else {
        let before = anchors_claimed(m, path, ids.drop_last(), own, node);
        let key = (path, ids.last());
        if before.contains_key(key) && !(own && ids.len() == 1) {
            before
        } else {
            before.insert(key, node)
        }
    }
}

impl BookView {
    /// Nothing compiled.
    pub open spec fn empty() -> BookView {
        BookView { nodes: Seq::empty(), chapters: Map::empty(), anchors: Map::empty() }
    }

    /// After one more row, whose ordinal is its place.
    pub open spec fn with_row(
        self,
        parent: Option<int>,
        node_type: Seq<char>,
        content: Option<Seq<char>>,
        attributes: JsonView,
    ) -> BookView {
        BookView {
            nodes: self.nodes.push(
                RowView {
                    parent,
                    ordinal: self.nodes.len() as int,
                    node_type,
                    content,
                    attributes,
                },
            ),
            ..self
        }
    }

    /// After the last row has become the one that its chapter and its anchors lead to: its own
    /// anchor, whatever that led to before, and those around it that were free.
    pub open spec fn claimed(self, path: Seq<char>, ids: Seq<Seq<char>>, own: bool) -> BookView {
        let node = self.nodes.len() - 1;
        BookView {
            nodes: self.nodes,
            chapters: if self.chapters.contains_key(path) {
                self.chapters
            } else {
                self.chapters.insert(path, node)
            },
            anchors: anchors_claimed(self.anchors, path, ids, own, node),
        }
    }
}

/// A list item as JSON.
pub open spec fn item_json(i: ItemView) -> JsonView
    decreases i,
{
    let fields = seq![("text"@, JsonView::Text(i.text)), ("spans"@, spans_json(i.spans))];
    JsonView::Object(
        match i.sublist {
            Some(l) => fields.push(("sublist"@, list_json(*l))),
            None => fields,
        },
    )
}

/// A nested list as JSON.
pub open spec fn list_json(l: ListView) -> JsonView
    decreases l,
{
    JsonView::Object(
        seq![("ordered"@, JsonView::Bool(l.ordered)), ("items"@, items_json(l.items))],
    )
}

/// List items as JSON.
pub open spec fn items_json(items: Seq<ItemView>) -> JsonView
    decreases items,
{
    JsonView::Array(
        Seq::new(
            items.len(),
            |k: int|
                if 0 <= k < items.len() {
                    item_json(items[k])
                } else {
                    JsonView::Null
                },
        ),
    )
}

/// The rows of a table as JSON.
pub open spec fn table_json(rows: Seq<Seq<Seq<char>>>) -> JsonView {
    JsonView::Array(
        rows.map_values(
            |r: Seq<Seq<char>>|
                JsonView::Array(r.map_values(|c: Seq<char>| JsonView::Text(c))),
        ),
    )
}

/// The attributes of a paragraph: where it comes from and its spans, and for a line of verse also
/// its place in the verse.
pub open spec fn paragraph_json(
    node_type: Seq<char>,
    source_file: Seq<char>,
    spans: Seq<SpanView>,
    stanza_start: bool,
    verse_end: bool,
) -> JsonView {
    let fields = seq![
        ("source_file"@, JsonView::Text(source_file)),
        ("spans"@, spans_json(spans)),
    ];
    JsonView::Object(
        if node_type == "verse_line"@ {
            fields + seq![
                ("stanza_start"@, JsonView::Bool(stanza_start)),
                ("verse_end"@, JsonView::Bool(verse_end)),
            ]
        } else {
            fields
        },
    )
}

/// The note that a reference in a chapter with this text leads to.
pub open spec fn note_in(source: Seq<char>, f: FootnoteView) -> Option<NoteView> {
    footnote(
        document_nodes(source),
        css_first(source, "#"@ + f.anchor_id),
        f.anchor_id,
        f.label,
    )
}

/// The book after the rows of the first `n` notes, those that could be resolved, below the row at
/// `parent`.
pub open spec fn notes_added(
    b: BookView,
    parent: int,
    source: Seq<char>,
    notes: Seq<FootnoteView>,
    n: int,
) -> BookView
    decreases n,
{
    if n <= 0 {
        b
    } else {
        let before = notes_added(b, parent, source, notes, n - 1);
        match note_in(source, notes[n - 1]) {
            Some(note) => before.with_row(
                Some(parent),
                "footnote"@,
                Some(note.text),
                JsonView::Object(
                    seq![
                        ("anchor_id"@, JsonView::Text(note.anchor_id)),
                        ("label"@, JsonView::Text(note.label)),
                        ("spans"@, spans_json(note.spans)),
                    ],
                ),
            ),
            None => before,
        }
    }
}

/// The book after one more element of a chapter; `image` is the asset of an image that could be
/// read.
pub open spec fn element_added(
    b: BookView,
    path: Seq<char>,
    source: Seq<char>,
    e: ElementView,
    image: Option<i64>,
) -> BookView {
    match e {
        ElementView::Heading { level, text, spans, element_ids, own_id } => b.with_row(
            None,
            "heading"@,
            Some(text),
            JsonView::Object(
                seq![("level"@, JsonView::Unsigned(level)), ("spans"@, spans_json(spans))],
            ),
        ).claimed(path, element_ids, own_id),
        ElementView::Paragraph {
            node_type,
            text,
            spans,
            source_file,
            footnotes,
            element_ids,
            own_id,
            stanza_start,
            verse_end,
        } => notes_added(
            b.with_row(
                None,
                node_type,
                Some(text),
                paragraph_json(node_type, source_file, spans, stanza_start, verse_end),
            ).claimed(path, element_ids, own_id),
            b.nodes.len() as int,
            source,
            footnotes,
            footnotes.len() as int,
        ),
        ElementView::ThematicBreak { element_ids, own_id } => b.with_row(
            None,
            "thematic_break"@,
            None,
            JsonView::Object(Seq::empty()),
        ).claimed(path, element_ids, own_id),
        ElementView::Table { text, rows, source_file, element_ids, own_id } => b.with_row(
            None,
            "table"@,
            Some(text),
            JsonView::Object(
                seq![("rows"@, table_json(rows)), ("source_file"@, JsonView::Text(source_file))],
            ),
        ).claimed(path, element_ids, own_id),
        ElementView::Image { src, alt, caption, element_ids, own_id } => match image {
            Some(id) => b.with_row(
                None,
                "image"@,
                None,
                JsonView::Object(
                    seq![
                        ("asset_id"@, int_json(id as int)),
                        ("alt"@, JsonView::Text(alt)),
                        ("caption"@, JsonView::Text(caption)),
                    ],
                ),
            ).claimed(path, element_ids, own_id),
            None => b,
        },
        ElementView::List { ordered, text, spans, items, source_file, element_ids, own_id } => b.with_row(
            None,
            "list"@,
            Some(text),
            JsonView::Object(
                seq![
                    ("ordered"@, JsonView::Bool(ordered)),
                    ("items"@, items_json(items)),
                    ("spans"@, spans_json(spans)),
                    ("source_file"@, JsonView::Text(source_file)),
                ],
            ),
        ).claimed(path, element_ids, own_id),
    }
}

/// The number of images among the first `n` elements.
pub open spec fn images_among(elements: Seq<ElementView>, n: int) -> int
    decreases n,
{
    if n <= 0 {
        0
    } else {
        images_among(elements, n - 1) + if elements[n - 1] is Image {
            1int
        } else {
            0
        }
    }
}

/// The book after the first `n` elements of a chapter, whose images are the assets `images`.
pub open spec fn elements_added(
    b: BookView,
    path: Seq<char>,
    source: Seq<char>,
    elements: Seq<ElementView>,
    images: Seq<Option<i64>>,
    n: int,
) -> BookView
    decreases n,
{
    if n <= 0 {
        b
    } else {
        element_added(
            elements_added(b, path, source, elements, images, n - 1),
            path,
            source,
            elements[n - 1],
            images[images_among(elements, n - 1)],
        )
    }
}

/// The paths of the images of a chapter, in the order of its elements.
pub open spec fn image_paths(
    chapter_path: Seq<char>,
    elements: Seq<ElementView>,
    n: int,
) -> Seq<Seq<char>>
    decreases n,
{
    if n <= 0 {
        Seq::empty()
    } else {
        let before = image_paths(chapter_path, elements, n - 1);
        match elements[n - 1] {
            ElementView::Image { src, .. } => before.push(resolved(parent_dir(chapter_path), src)),
            _ => before,
        }
    }
}

/// The paths of the images of a chapter, in the order of its elements.
pub fn chapter_images(chapter_path: &str, elements: &Vec<ChapterElement>) -> (r: Vec<String>)
    ensures
        texts(r@) == image_paths(chapter_path@, elements_view(elements@), elements@.len() as int),
        r@.len() == images_among(elements_view(elements@), elements@.len() as int),
{
    let ghost all = elements_view(elements@);
    let dir = get_parent_dir(chapter_path);
    let mut out: Vec<String> = Vec::new();
    let mut k: usize = 0;
    assert(texts(out@) =~= Seq::<Seq<char>>::empty());
    while k < elements.len()
        invariant
            k <= elements@.len(),
            all == elements_view(elements@),
            dir@ == parent_dir(chapter_path@),
            texts(out@) == image_paths(chapter_path@, all, k as int),
            out@.len() == images_among(all, k as int),
        decreases elements@.len() - k,
    {
        assert(all[k as int] == elements@[k as int]@);
        match &elements[k] {
            ChapterElement::Image { src, .. } => {
                let ghost before = out@;
                let path = resolve_relative_path(dir.as_str(), src.as_str());
                out.push(path);
                assert(texts(out@) =~= texts(before).push(path@));
            },
            _ => {},
        }
        k += 1;
    }
    out
}

proof fn lemma_items_view(items: Seq<ListItem>)
    ensures
        items_view(items).len() == items.len(),
        forall|k: int| 0 <= k < items.len() ==> #[trigger] items_view(items)[k] == item_view(items[k]),
    decreases items.len(),
{
    if items.len() > 0 {
        lemma_items_view(items.drop_last());
        assert forall|k: int| 0 <= k < items.len() implies #[trigger] items_view(items)[k]
            == item_view(items[k]) by {
            if k < items.len() - 1 {
                assert(items_view(items)[k] == items_view(items.drop_last())[k]);
            }
        }
    }
}

fn list_item_json(i: &ListItem) -> (r: Json)
    ensures
        r@ == item_json(item_view(*i)),
    decreases i,
{
    let fields = object1("text", Json::Text(i.text.clone()));
    let fields = with_field(fields, "spans", spans_to_json(&i.spans));
    assert(fields_view(fields@) =~= seq![
        ("text"@, JsonView::Text(i.text@)),
        ("spans"@, spans_json(spans_view(i.spans@))),
    ]);
    match &i.sublist {
        Some(l) => {
            let nested = object1("ordered", Json::Bool(l.ordered));
            let nested = with_field(nested, "items", list_items_json(&l.items));
            assert(fields_view(nested@) =~= seq![
                ("ordered"@, JsonView::Bool(l.ordered)),
                ("items"@, items_json(items_view(l.items@))),
            ]);
            let value = object(nested);
            object(with_field(fields, "sublist", value))
        },
        None => object(fields),
    }
}

fn list_items_json(items: &Vec<ListItem>) -> (r: Json)
    ensures
        r@ == items_json(items_view(items@)),
    decreases items,
{
    broadcast use lemma_json_view;

    let mut out: Vec<Json> = Vec::new();
    let mut k: usize = 0;
    while k < items.len()
        invariant
            k <= items@.len(),
            out@.len() == k,
            forall|j: int| 0 <= j < k ==> (#[trigger] out@[j])@ == item_json(item_view(items@[j])),
        decreases items@.len() - k,
    {
        out.push(list_item_json(&items[k]));
        k += 1;
    }
    proof {
        lemma_items_view(items@);
        assert(jsons_view(out@) =~= items_json(items_view(items@))->Array_0);
    }
    Json::Array(out)
}

fn table_rows_json(rows: &Vec<Vec<String>>) -> (r: Json)
    ensures
        r@ == table_json(rows_view(rows@)),
{
    broadcast use lemma_json_view;

    let ghost want = table_json(rows_view(rows@))->Array_0;
    let mut out: Vec<Json> = Vec::new();
    let mut k: usize = 0;
    while k < rows.len()
        invariant
            k <= rows@.len(),
            want == table_json(rows_view(rows@))->Array_0,
            out@.len() == k,
            forall|j: int| 0 <= j < k ==> (#[trigger] out@[j])@ == want[j],
        decreases rows@.len() - k,
    {
        let row = &rows[k];
        let mut cells: Vec<Json> = Vec::new();
        let mut c: usize = 0;
        while c < row.len()
            invariant
                c <= row@.len(),
                cells@.len() == c,
                forall|j: int| 0 <= j < c ==> (#[trigger] cells@[j])@ == JsonView::Text(row@[j]@),
            decreases row@.len() - c,
        {
            cells.push(Json::Text(row[c].clone()));
            c += 1;
        }
        assert(jsons_view(cells@) =~= texts(row@).map_values(|c: Seq<char>| JsonView::Text(c)));
        let line = Json::Array(cells);
        proof {
            lemma_json_view(line);
            assert(rows_view(rows@)[k as int] == texts(row@));
        }
        out.push(line);
        k += 1;
    }
    assert(jsons_view(out@) =~= want);
    Json::Array(out)
}

fn paragraph_attributes(
    node_type: &str,
    source_file: &str,
    spans: &Vec<Span>,
    stanza_start: bool,
    verse_end: bool,
) -> (r: Json)
    ensures
        r@ == paragraph_json(
            node_type@,
            source_file@,
            spans_view(spans@),
            stanza_start,
            verse_end,
        ),
{
    let fields = object1("source_file", Json::Text(source_file.to_owned()));
    let fields = with_field(fields, "spans", spans_to_json(spans));
    let fields = if same_text(node_type, "verse_line") {
        let fields = with_field(fields, "stanza_start", Json::Bool(stanza_start));
        with_field(fields, "verse_end", Json::Bool(verse_end))
    } else {
        fields
    };
    assert(fields_view(fields@) =~= paragraph_json(
        node_type@,
        source_file@,
        spans_view(spans@),
        stanza_start,
        verse_end,
    )->Object_0);
    object(fields)
}

impl BookRows {
    /// Every row's ordinal is its place, and every row that lies below another comes after it.
    pub open spec fn wf(&self) -> bool {
        forall|k: int|
            0 <= k < self.nodes@.len() ==> (#[trigger] self.nodes@[k]).ordinal == k && (
            self.nodes@[k].parent matches Some(p) ==> p < k)
    }

    /// Nothing compiled.
    pub fn new() -> (r: Self)
        ensures
            r.wf(),
            r@ == BookView::empty(),
    {
        let r = BookRows { nodes: Vec::new(), chapters: Vec::new(), anchors: Vec::new() };
        assert(r@ =~= BookView::empty());
        r
    }

    fn push(
        &mut self,
        parent: Option<usize>,
        node_type: &str,
        content: Option<String>,
        attributes: Json,
    )
        requires
            old(self).wf(),
            parent matches Some(p) ==> p < old(self).nodes@.len(),
        ensures
            final(self).wf(),
            final(self)@ == old(self)@.with_row(
                opt_index(parent),
                node_type@,
                opt_text(content),
                attributes@,
            ),
            final(self).nodes@.len() == old(self).nodes@.len() + 1,
    {
        let ghost before = self@;
        let ghost nodes0 = self.nodes@;
        let row = NodeRow {
            parent,
            ordinal: self.nodes.len(),
            node_type: node_type.to_owned(),
            content,
            attributes,
        };
        self.nodes.push(row);
        assert(rows_of(self.nodes@) =~= rows_of(nodes0).push(row@));
    }

    /// The place of the first node of a chapter.
    pub fn chapter_start(&self, path: &str) -> (r: Option<usize>)
        ensures
            match r {
                Some(n) => self@.chapters.contains_key(path@) && self@.chapters[path@] == n,
                None => !self@.chapters.contains_key(path@),
            },
    {
        let ghost all = self.chapters@;
        let mut k: usize = 0;
        assert(chapter_map(all.take(0)) =~= Map::empty());
        while k < self.chapters.len()
            invariant
                k <= self.chapters@.len(),
                all == self.chapters@,
                !chapter_map(all.take(k as int)).contains_key(path@),
            decreases self.chapters@.len() - k,
        {
            assert(all.take(k + 1).drop_last() =~= all.take(k as int));
            if same_text(self.chapters[k].path.as_str(), path) {
                proof {
                    lemma_chapter_prefix(all, path@, k + 1);
                }
                return Some(self.chapters[k].node);
            }
            k += 1;
        }
        assert(all.take(k as int) =~= all);
        None
    }

    /// The place of the node that an anchor in a chapter leads to.
    pub fn anchor_target(&self, path: &str, anchor: &str) -> (r: Option<usize>)
        ensures
            match r {
                Some(n) => self@.anchors.contains_key((path@, anchor@)) && self@.anchors[(
                    path@,
                    anchor@,
                )] == n,
                None => !self@.anchors.contains_key((path@, anchor@)),
            },
    {
        let ghost all = self.anchors@;
        let ghost key = (path@, anchor@);
        let mut k: usize = self.anchors.len();
        assert(all.take(k as int) =~= all);
        while k > 0
            invariant
                k <= self.anchors@.len(),
                all == self.anchors@,
                key == (path@, anchor@),
                anchor_map(all).contains_key(key) == anchor_map(all.take(k as int)).contains_key(key),
                anchor_map(all.take(k as int)).contains_key(key) ==> anchor_map(all)[key] == anchor_map(
                    all.take(k as int),
                )[key],
            decreases k,
        {
            assert(all.take(k as int).drop_last() =~= all.take(k - 1));
            assert(all.take(k as int).last() == all[k - 1]);
            k -= 1;
            if same_text(self.anchors[k].anchor.as_str(), anchor) && same_text(
                self.anchors[k].path.as_str(),
                path,
            ) {
                return Some(self.anchors[k].node);
            }
        }
        None
    }

    fn claim(&mut self, path: &str, ids: &Vec<String>, own: bool)
        requires
            old(self).nodes@.len() > 0,
        ensures
            final(self)@ == old(self)@.claimed(path@, texts(ids@), own),
            final(self).nodes == old(self).nodes,
    {
        let ghost before = self@;
        let node: usize = self.nodes.len() - 1;
        if self.chapter_start(path).is_none() {
            let ghost chapters0 = self.chapters@;
            self.chapters.push(ChapterStart { path: path.to_owned(), node });
            assert(self.chapters@.drop_last() =~= chapters0);
        }
        let mut k: usize = 0;
        let ghost all = texts(ids@);
        assert(anchors_claimed(before.anchors, path@, all.take(0), own, node as int) == before.anchors);
        while k < ids.len()
            invariant
                k <= ids@.len(),
                all == texts(ids@),
                self.nodes == old(self).nodes,
                self@.nodes == before.nodes,
                self@.chapters == before.claimed(path@, all, own).chapters,
                self@.anchors == anchors_claimed(
                    before.anchors,
                    path@,
                    all.take(k as int),
                    own,
                    node as int,
                ),
            decreases ids@.len() - k,
        {
            assert(all.take(k + 1).drop_last() =~= all.take(k as int));
            assert(all.take(k + 1).last() == ids@[k as int]@);
            if (own && k == 0) || self.anchor_target(path, ids[k].as_str()).is_none() {
                let ghost anchors0 = self.anchors@;
                self.anchors.push(
                    AnchorTarget { path: path.to_owned(), anchor: ids[k].clone(), node },
                );
                assert(self.anchors@.drop_last() =~= anchors0);
            }
            k += 1;
        }
        assert(all.take(k as int) =~= all);
    }

    fn push_notes(&mut self, parent: usize, document: &HtmlDocument, notes: &Vec<FootnoteRef>)
        requires
            old(self).wf(),
            parent < old(self).nodes@.len(),
            document.wf(),
        ensures
            final(self).wf(),
            final(self)@ == notes_added(
                old(self)@,
                parent as int,
                document.source@,
                footnotes_view(notes@),
                notes@.len() as int,
            ),
    {
        let ghost before = self@;
        let ghost all = footnotes_view(notes@);
        let mut k: usize = 0;
        while k < notes.len()
            invariant
                k <= notes@.len(),
                all == footnotes_view(notes@),
                self.wf(),
                parent < self.nodes@.len(),
                document.wf(),
                self@ == notes_added(before, parent as int, document.source@, all, k as int),
            decreases notes@.len() - k,
        {
            let f = &notes[k];
            assert(all[k as int] == f@);
            if let Some(note) = resolve_footnote(document, f.anchor_id.as_str(), f.label.as_str()) {
                let fields = object1("anchor_id", Json::Text(note.anchor_id.clone()));
                let fields = with_field(fields, "label", Json::Text(note.label.clone()));
                let fields = with_field(fields, "spans", spans_to_json(&note.spans));
                assert(fields_view(fields@) =~= seq![
                    ("anchor_id"@, JsonView::Text(note.anchor_id@)),
                    ("label"@, JsonView::Text(note.label@)),
                    ("spans"@, spans_json(spans_view(note.spans@))),
                ]);
                self.push(Some(parent), "footnote", Some(note.text), object(fields));
            }
            k += 1;
        }
    }

    fn push_element(
        &mut self,
        path: &str,
        document: &HtmlDocument,
        e: &ChapterElement,
        image: Option<i64>,
    )
        requires
            old(self).wf(),
            document.wf(),
        ensures
            final(self).wf(),
            final(self)@ == element_added(old(self)@, path@, document.source@, e@, image),
    {
        match e {
            ChapterElement::Heading { level, text, spans, element_ids, own_id } => {
                let fields = object1("level", Json::Unsigned(*level as u64));
                let fields = with_field(fields, "spans", spans_to_json(spans));
                assert(fields_view(fields@) =~= seq![
                    ("level"@, JsonView::Unsigned(*level as int)),
                    ("spans"@, spans_json(spans_view(spans@))),
                ]);
                self.push(None, "heading", Some(text.clone()), object(fields));
                self.claim(path, element_ids, *own_id);
            },
            ChapterElement::Paragraph {
                node_type,
                text,
                spans,
                source_file,
                footnotes,
                element_ids,
            own_id,
                stanza_start,
                verse_end,
            } => {
                let attributes = paragraph_attributes(
                    node_type.as_str(),
                    source_file.as_str(),
                    spans,
                    *stanza_start,
                    *verse_end,
                );
                let parent: usize = self.nodes.len();
                self.push(None, node_type.as_str(), Some(text.clone()), attributes);
                self.claim(path, element_ids, *own_id);
                self.push_notes(parent, document, footnotes);
            },
            ChapterElement::ThematicBreak { element_ids, own_id } => {
                let fields: Vec<(String, Json)> = Vec::new();
                assert(fields_view(fields@) =~= Seq::empty());
                self.push(None, "thematic_break", None, object(fields));
                self.claim(path, element_ids, *own_id);
            },
            ChapterElement::Table { text, rows, source_file, element_ids, own_id } => {
                let fields = object1("rows", table_rows_json(rows));
                let fields = with_field(fields, "source_file", Json::Text(source_file.clone()));
                assert(fields_view(fields@) =~= seq![
                    ("rows"@, table_json(rows_view(rows@))),
                    ("source_file"@, JsonView::Text(source_file@)),
                ]);
                self.push(None, "table", Some(text.clone()), object(fields));
                self.claim(path, element_ids, *own_id);
            },
            ChapterElement::Image { src: _, alt, caption, element_ids, own_id } => {
                if let Some(id) = image {
                    let fields = object1("asset_id", signed_to_json(id));
                    let fields = with_field(fields, "alt", Json::Text(alt.clone()));
                    let fields = with_field(fields, "caption", Json::Text(caption.clone()));
                    assert(fields_view(fields@) =~= seq![
                        ("asset_id"@, int_json(id as int)),
                        ("alt"@, JsonView::Text(alt@)),
                        ("caption"@, JsonView::Text(caption@)),
                    ]);
                    self.push(None, "image", None, object(fields));
                    self.claim(path, element_ids, *own_id);
                }
            },
            ChapterElement::List { ordered, text, spans, items, source_file, element_ids, own_id } => {
                let fields = object1("ordered", Json::Bool(*ordered));
                let fields = with_field(fields, "items", list_items_json(items));
                let fields = with_field(fields, "spans", spans_to_json(spans));
                let fields = with_field(fields, "source_file", Json::Text(source_file.clone()));
                assert(fields_view(fields@) =~= seq![
                    ("ordered"@, JsonView::Bool(*ordered)),
                    ("items"@, items_json(items_view(items@))),
                    ("spans"@, spans_json(spans_view(spans@))),
                    ("source_file"@, JsonView::Text(source_file@)),
                ]);
                self.push(None, "list", Some(text.clone()), object(fields));
                self.claim(path, element_ids, *own_id);
            },
        }
    }

    /// Compiles the elements of a chapter. The images among them are, in this order, the assets
    /// `images`; one that could not be read is none, and leaves no node.
    pub fn add_chapter(
        &mut self,
        path: &str,
        document: &HtmlDocument,
        elements: &Vec<ChapterElement>,
        images: &Vec<Option<i64>>,
    )
        requires
            old(self).wf(),
            document.wf(),
            images@.len() == images_among(elements_view(elements@), elements@.len() as int),
        ensures
            final(self).wf(),
            final(self)@ == elements_added(
                old(self)@,
                path@,
                document.source@,
                elements_view(elements@),
                images@,
                elements@.len() as int,
            ),
    {
        let ghost before = self@;
        let ghost all = elements_view(elements@);
        let total_images: usize = images.len();
        let mut next_image: usize = 0;
        let mut k: usize = 0;
        while k < elements.len()
            invariant
                k <= elements@.len(),
                all == elements_view(elements@),
                self.wf(),
                document.wf(),
                images@.len() == images_among(all, elements@.len() as int),
                total_images == images@.len(),
                next_image == images_among(all, k as int),
                self@ == elements_added(before, path@, document.source@, all, images@, k as int),
            decreases elements@.len() - k,
        {
            assert(all[k as int] == elements@[k as int]@);
            proof {
                lemma_images_among(all, k + 1, elements@.len() as int);
            }
            let is_image = matches!(&elements[k], ChapterElement::Image { .. });
            let image = if is_image { images[next_image] } else { None };
            self.push_element(path, document, &elements[k], image);
            if is_image {
                next_image += 1;
            }
            k += 1;
        }
    }
}

proof fn lemma_images_among(elements: Seq<ElementView>, k: int, n: int)
    requires
        k <= n,
    ensures
        images_among(elements, k) <= images_among(elements, n),
    decreases n - k,
{
    if k < n {
        lemma_images_among(elements, k, n - 1);
        if n <= 0 {
            assert(images_among(elements, k) == 0);
        }
    }
}

proof fn lemma_chapter_prefix(entries: Seq<ChapterStart>, path: Seq<char>, n: int)
    requires
        0 <= n <= entries.len(),
        chapter_map(entries.take(n)).contains_key(path),
    ensures
        chapter_map(entries).contains_key(path),
        chapter_map(entries)[path] == chapter_map(entries.take(n))[path],
    decreases entries.len(),
{
    if n < entries.len() {
        assert(entries.drop_last().take(n) =~= entries.take(n));
        lemma_chapter_prefix(entries.drop_last(), path, n);
    } else {
        assert(entries.take(n) =~= entries);
    }
}

// ---------------------------------------------------------------------------
// The table of contents
// ---------------------------------------------------------------------------

/// A row of the table of contents. Rows refer to each other, and to nodes, by their places.
pub struct TocRow {
    pub parent: Option<usize>,
    pub ordinal: usize,
    pub title: String,
    pub target: Option<usize>,
    pub href: Option<String>,
}

/// The mathematical view of a [`TocRow`].
#[verifier::ext_equal]
pub struct TocRowView {
    pub parent: Option<int>,
    pub ordinal: int,
    pub title: Seq<char>,
    pub target: Option<int>,
    pub href: Option<Seq<char>>,
}

impl View for TocRow {
    type V = TocRowView;

    open spec fn view(&self) -> TocRowView {
        TocRowView {
            parent: opt_index(self.parent),
            ordinal: self.ordinal as int,
            title: self.title@,
            target: opt_index(self.target),
            href: opt_text(self.href),
        }
    }
}

/// The views of rows of the table of contents.
pub open spec fn toc_rows_of(rows: Seq<TocRow>) -> Seq<TocRowView> {
    rows.map_values(|r: TocRow| r@)
}

/// The value that a map has for a key.
pub open spec fn map_get<K>(m: Map<K, int>, k: K) -> Option<int> {
    if m.contains_key(k) {
        Some(m[k])
    } else {
        None
    }
}

/// The fragment of a reference: what stands between its first `#` and the next, or the end.
pub open spec fn reference_fragment(href: Seq<char>) -> Seq<char> {
    let at = char_pos(href, '#', 0);
    if at < href.len() {
        before_char(href.skip(at + 1), '#')
    } else {
        Seq::empty()
    }
}

/// The node that a reference leads to: that of its anchor, or else the first of its chapter.
pub open spec fn reference_target(b: BookView, href: Seq<char>) -> Option<int> {
    let path = normalized(before_char(href, '#'));
    let fragment = reference_fragment(href);
    let by_anchor = map_get(b.anchors, (path, fragment));
    if href.len() == 0 {
        None
    } else if fragment.len() > 0 && by_anchor is Some {
        by_anchor
    } else {
        map_get(b.chapters, path)
    }
}

/// The row of one entry, at this place.
pub open spec fn toc_row(
    item: TocView,
    parent: Option<int>,
    place: int,
    b: BookView,
) -> TocRowView {
    TocRowView {
        parent,
        ordinal: place,
        title: item.title,
        target: reference_target(b, item.href),
        href: if item.href.len() == 0 {
            None
        } else {
            Some(item.href)
        },
    }
}

/// The rows of entries below `parent`, the first at the place `start`: each entry comes before
/// the entries below it, and those before the next entry.
pub open spec fn toc_rows(
    items: Seq<TocView>,
    parent: Option<int>,
    start: int,
    b: BookView,
) -> Seq<TocRowView>
    decreases items,
{
    if items.len() == 0 {
        Seq::empty()
    } else {
        let before = toc_rows(items.drop_last(), parent, start, b);
        let place = start + before.len();
        before.push(toc_row(items.last(), parent, place, b)) + toc_rows(
            items.last().children,
            Some(place),
            place + 1,
            b,
        )
    }
}

/// The rows made from the headings among the first `n` nodes.
pub open spec fn heading_rows(nodes: Seq<RowView>, n: int) -> Seq<TocRowView>
    decreases n,
{
    if n <= 0 {
        Seq::empty()
    } else {
        let before = heading_rows(nodes, n - 1);
        if nodes[n - 1].node_type == "heading"@ {
            before.push(
                TocRowView {
                    parent: None,
                    ordinal: before.len() as int,
                    title: match nodes[n - 1].content {
                        Some(t) => t,
                        None => Seq::empty(),
                    },
                    target: Some(n - 1),
                    href: None,
                },
            )
        } else {
            before
        }
    }
}

/// The table of contents of a book: that of its package, or else one made from its headings.
pub open spec fn book_toc(items: Seq<TocView>, b: BookView) -> Seq<TocRowView> {
    if items.len() > 0 {
        toc_rows(items, None, 0, b)
    } else {
        heading_rows(b.nodes, b.nodes.len() as int)
    }
}

proof fn lemma_tocs_view(items: Seq<RawTocItem>)
    ensures
        tocs_view(items).len() == items.len(),
        forall|k: int| 0 <= k < items.len() ==> #[trigger] tocs_view(items)[k] == toc_view(items[k]),
    decreases items.len(),
{
    if items.len() > 0 {
        lemma_tocs_view(items.drop_last());
        assert forall|k: int| 0 <= k < items.len() implies #[trigger] tocs_view(items)[k]
            == toc_view(items[k]) by {
            if k < items.len() - 1 {
                assert(tocs_view(items)[k] == tocs_view(items.drop_last())[k]);
            }
        }
    }
}

impl BookRows {
    /// The place of the node that a reference leads to.
    pub fn target_of(&self, href: &str) -> (r: Option<usize>)
        ensures
            opt_index(r) == reference_target(self@, href@),
    {
        if href.is_empty() {
            return None;
        }
        let v = chars_of(href);
        let at = find_char(&v, '#', 0);
        let file_part = text_of(&v, 0, at);
        let path = normalize_zip_path(file_part.as_str());
        if at < v.len() {
            let rest = text_of(&v, at + 1, v.len());
            assert(v@.subrange(at + 1, v@.len() as int) =~= v@.skip(at + 1));
            let fragment = cut_at(rest.as_str(), '#');
            if !fragment.as_str().is_empty() {
                let target = self.anchor_target(path.as_str(), fragment.as_str());
                if target.is_some() {
                    return target;
                }
            }
        }
        self.chapter_start(path.as_str())
    }

    fn push_toc(&self, items: &Vec<RawTocItem>, parent: Option<usize>, out: &mut Vec<TocRow>)
        ensures
            toc_rows_of(final(out)@) == toc_rows_of(old(out)@) + toc_rows(
                tocs_view(items@),
                opt_index(parent),
                old(out)@.len() as int,
                self@,
            ),
        decreases items,
    {
        let ghost all = tocs_view(items@);
        let ghost start = out@;
        let ghost p = opt_index(parent);
        proof {
            lemma_tocs_view(items@);
            assert(toc_rows(all.take(0), p, start.len() as int, self@) =~= Seq::empty());
            assert(toc_rows_of(start) + Seq::<TocRowView>::empty() =~= toc_rows_of(start));
        }
        let mut k: usize = 0;
        while k < items.len()
            invariant
                k <= items@.len(),
                all == tocs_view(items@),
                all.len() == items@.len(),
                forall|j: int| 0 <= j < items@.len() ==> #[trigger] all[j] == toc_view(items@[j]),
                p == opt_index(parent),
                toc_rows_of(out@) == toc_rows_of(start) + toc_rows(
                    all.take(k as int),
                    p,
                    start.len() as int,
                    self@,
                ),
            decreases items@.len() - k,
        {
            let item = &items[k];
            let ghost before = out@;
            let ghost rows_before = toc_rows(all.take(k as int), p, start.len() as int, self@);
            assert(all.take(k + 1).drop_last() =~= all.take(k as int));
            assert(all.take(k + 1).last() == toc_view(*item));
            assert(toc_rows_of(before).len() == start.len() + rows_before.len());
            let place: usize = out.len();
            let row = TocRow {
                parent,
                ordinal: place,
                title: item.title.clone(),
                target: self.target_of(item.href.as_str()),
                href: if item.href.as_str().is_empty() { None } else { Some(item.href.clone()) },
            };
            out.push(row);
            let ghost with_row = out@;
            assert(toc_rows_of(with_row) =~= toc_rows_of(before).push(row@));
            assert(row@ =~= toc_row(toc_view(*item), p, place as int, self@));
            self.push_toc(&item.children, Some(place), out);
            proof {
                let below = toc_rows(
                    tocs_view(item.children@),
                    Some(place as int),
                    place + 1,
                    self@,
                );
                assert(toc_rows_of(out@) == toc_rows_of(with_row) + below);
                assert(toc_rows(all.take(k + 1), p, start.len() as int, self@) == rows_before.push(
                    row@,
                ) + below);
                assert(toc_rows_of(start) + (rows_before.push(row@) + below) =~= toc_rows_of(
                    with_row,
                ) + below);
            }
            k += 1;
        }
        assert(all.take(k as int) =~= all);
    }

    /// The table of contents of the book: that of its package, or else one made from its headings.
    pub fn toc(&self, items: &Vec<RawTocItem>) -> (r: Vec<TocRow>)
        ensures
            toc_rows_of(r@) == book_toc(tocs_view(items@), self@),
    {
        proof {
            lemma_tocs_view(items@);
        }
        let mut out: Vec<TocRow> = Vec::new();
        assert(toc_rows_of(out@) =~= Seq::<TocRowView>::empty());
        if items.len() > 0 {
            self.push_toc(items, None, &mut out);
            assert(Seq::<TocRowView>::empty() + toc_rows(tocs_view(items@), None, 0, self@)
                =~= toc_rows(tocs_view(items@), None, 0, self@));
            return out;
        }
        let ghost nodes = self@.nodes;
        let mut k: usize = 0;
        while k < self.nodes.len()
            invariant
                k <= self.nodes@.len(),
                nodes == self@.nodes,
                toc_rows_of(out@) == heading_rows(nodes, k as int),
            decreases self.nodes@.len() - k,
        {
            let node = &self.nodes[k];
            assert(nodes[k as int] == node@);
            if same_text(node.node_type.as_str(), "heading") {
                let ghost before = out@;
                assert(toc_rows_of(before).len() == before.len());
                let title = match &node.content {
                    Some(t) => t.clone(),
                    None => String::new(),
                };
                let row = TocRow {
                    parent: None,
                    ordinal: out.len(),
                    title,
                    target: Some(k),
                    href: None,
                };
                out.push(row);
                assert(toc_rows_of(out@) =~= toc_rows_of(before).push(row@));
            }
            k += 1;
        }
        out
    }
}

// ---------------------------------------------------------------------------
// Counting nodes by type
// ---------------------------------------------------------------------------

/// The number of nodes of this type among the first `n`.
pub open spec fn type_count(nodes: Seq<RowView>, node_type: Seq<char>, n: int) -> int
    decreases n,
{
    if n <= 0 {
        0
    } else {
        type_count(nodes, node_type, n - 1) + if nodes[n - 1].node_type == node_type {
            1int
        } else {
            0
        }
    }
}

/// The counts, one for each type, say how many nodes of each type are among the first `n`, and
/// there is a count for each type that occurs.
pub open spec fn counts_types(counts: Seq<(String, usize)>, nodes: Seq<RowView>, n: int) -> bool {
    &&& forall|i: int|
        0 <= i < counts.len() ==> (#[trigger] counts[i]).1 == type_count(nodes, counts[i].0@, n)
            && counts[i].1 > 0
    &&& forall|i: int, j: int|
        0 <= i < j < counts.len() ==> (#[trigger] counts[i]).0@ != (#[trigger] counts[j]).0@
    &&& forall|k: int|
        0 <= k < n ==> exists|i: int|
            0 <= i < counts.len() && (#[trigger] counts[i]).0@ == (#[trigger] nodes[k]).node_type
}

impl BookRows {
    /// How many nodes of each type there are.
    pub fn node_counts(&self) -> (r: Vec<(String, usize)>)
        ensures
            counts_types(r@, self@.nodes, self.nodes@.len() as int),
    {
        let ghost nodes = self@.nodes;
        let mut counts: Vec<(String, usize)> = Vec::new();
        let mut k: usize = 0;
        while k < self.nodes.len()
            invariant
                k <= self.nodes@.len(),
                nodes == self@.nodes,
                counts_types(counts@, nodes, k as int),
            decreases self.nodes@.len() - k,
        {
            let node_type = &self.nodes[k].node_type;
            assert(nodes[k as int].node_type == node_type@);
            let ghost before = counts@;
            let mut i: usize = 0;
            while i < counts.len() && !same_text(counts[i].0.as_str(), node_type.as_str())
                invariant
                    i <= counts@.len(),
                    counts@ == before,
                    forall|j: int| 0 <= j < i ==> (#[trigger] counts@[j]).0@ != node_type@,
                decreases counts@.len() - i,
            {
                i += 1;
            }
            proof {
                lemma_type_count(nodes, node_type@, k as int);
            }
            if i < counts.len() {
                let (name, n) = &counts[i];
                let updated = (name.clone(), *n + 1);
                counts.set(i, updated);
            } else {
                counts.push((node_type.clone(), 1));
                proof {
                    assert(counts@[i as int].0@ == node_type@);
                    lemma_absent_type(before, nodes, node_type@, k as int);
                }
            }
            assert forall|m: int| 0 <= m < k + 1 implies exists|i: int|
                0 <= i < counts@.len() && (#[trigger] counts@[i]).0@ == (
                #[trigger] nodes[m]).node_type by {
                if m < k {
                    let w = choose|i: int|
                        0 <= i < before.len() && (#[trigger] before[i]).0@ == nodes[m].node_type;
                    assert(counts@[w].0@ == nodes[m].node_type);
                } else {
                    assert(counts@[i as int].0@ == nodes[m].node_type);
                }
            }
            k += 1;
        }
        counts
    }
}

proof fn lemma_type_count(nodes: Seq<RowView>, node_type: Seq<char>, n: int)
    ensures
        n >= 0 ==> 0 <= type_count(nodes, node_type, n) <= n,
    decreases n,
{
    if n > 0 {
        lemma_type_count(nodes, node_type, n - 1);
    }
}

proof fn lemma_absent_type(
    counts: Seq<(String, usize)>,
    nodes: Seq<RowView>,
    node_type: Seq<char>,
    n: int,
)
    requires
        counts_types(counts, nodes, n),
        forall|j: int| 0 <= j < counts.len() ==> (#[trigger] counts[j]).0@ != node_type,
    ensures
        n >= 0 ==> type_count(nodes, node_type, n) == 0,
    decreases n,
{
    if n > 0 {
        assert forall|k: int| 0 <= k < n implies (#[trigger] nodes[k]).node_type != node_type by {
            let w = choose|i: int|
                0 <= i < counts.len() && (#[trigger] counts[i]).0@ == nodes[k].node_type;
            assert(counts[w].0@ != node_type);
        }
        lemma_no_such_type(nodes, node_type, n);
    }
}

proof fn lemma_no_such_type(nodes: Seq<RowView>, node_type: Seq<char>, n: int)
    requires
        forall|k: int| 0 <= k < n ==> (#[trigger] nodes[k]).node_type != node_type,
    ensures
        type_count(nodes, node_type, n) == 0,
    decreases n,
{
    if n > 0 {
        lemma_no_such_type(nodes, node_type, n - 1);
    }
}

// ---------------------------------------------------------------------------
// Laws
// ---------------------------------------------------------------------------

impl BookView {
    /// Every chapter and every anchor leads to a node.
    pub open spec fn links_lead_to_nodes(self) -> bool {
        &&& forall|path: Seq<char>| #[trigger]
            self.chapters.contains_key(path) ==> 0 <= self.chapters[path] < self.nodes.len()
        &&& forall|key: (Seq<char>, Seq<char>)| #[trigger]
            self.anchors.contains_key(key) ==> 0 <= self.anchors[key] < self.nodes.len()
    }

    /// Every row's ordinal is its place, and the row it lies below, if any, comes before it.
    pub open spec fn is_ordered(self) -> bool {
        forall|k: int|
            0 <= k < self.nodes.len() ==> (#[trigger] self.nodes[k]).ordinal == k && (
            self.nodes[k].parent matches Some(p) ==> 0 <= p < k)
    }

    /// Nothing that was compiled before has changed, neither a row nor where a chapter leads; an
    /// anchor leads where it led, or to a row that has been added.
    pub open spec fn extends(self, before: BookView) -> bool {
        &&& before.nodes.len() <= self.nodes.len()
        &&& self.nodes.take(before.nodes.len() as int) == before.nodes
        &&& forall|path: Seq<char>| #[trigger]
            before.chapters.contains_key(path) ==> self.chapters.contains_key(path)
                && self.chapters[path] == before.chapters[path]
        &&& forall|key: (Seq<char>, Seq<char>)| #[trigger]
            before.anchors.contains_key(key) ==> self.anchors.contains_key(key) && (self.anchors[key]
                == before.anchors[key] || self.anchors[key] >= before.nodes.len())
    }
}

proof fn lemma_with_row(
    b: BookView,
    parent: Option<int>,
    t: Seq<char>,
    c: Option<Seq<char>>,
    a: JsonView,
)
    requires
        b.links_lead_to_nodes(),
        b.is_ordered(),
        parent matches Some(p) ==> 0 <= p < b.nodes.len(),
    ensures
        b.with_row(parent, t, c, a).links_lead_to_nodes(),
        b.with_row(parent, t, c, a).is_ordered(),
        b.with_row(parent, t, c, a).extends(b),
{
    assert(b.with_row(parent, t, c, a).nodes.take(b.nodes.len() as int) =~= b.nodes);
}

/// A node claims its own anchor whatever that led to, so that of several elements with one id the
/// last counts; an anchor of what stands around it the node claims only where that was free, so
/// that it leads to the first element inside; any other anchor stays.
pub proof fn own_anchors_move_and_others_stay(
    m: Map<(Seq<char>, Seq<char>), int>,
    path: Seq<char>,
    ids: Seq<Seq<char>>,
    own: bool,
    node: int,
)
    ensures
        ({
            let after = anchors_claimed(m, path, ids, own, node);
            &&& own && ids.len() > 0 ==> after.contains_key((path, ids[0])) && after[(path, ids[0])] == node
            &&& forall|key: (Seq<char>, Seq<char>)| #[trigger]
                m.contains_key(key) ==> after.contains_key(key) && (!(own && ids.len() > 0 && key == (
                path,
                ids[0],
            )) ==> after[key] == m[key])
            &&& forall|k: int|
                0 <= k < ids.len() ==> after.contains_key((path, #[trigger] ids[k])) && (!m.contains_key(
                    (path, ids[k]),
                ) ==> after[(path, ids[k])] == node)
            &&& forall|key: (Seq<char>, Seq<char>)| #[trigger]
                after.contains_key(key) && !m.contains_key(key) ==> after[key] == node
        }),
    decreases ids.len(),
{
    if ids.len() > 0 {
        let front = ids.drop_last();
        own_anchors_move_and_others_stay(m, path, front, own, node);
        let before = anchors_claimed(m, path, front, own, node);
        let after = anchors_claimed(m, path, ids, own, node);
        let last = (path, ids.last());
        assert(after.contains_key(last));
        if front.len() > 0 {
            assert(front[0] == ids[0]);
        }
        assert forall|key: (Seq<char>, Seq<char>)| #[trigger]
            after.contains_key(key) && !m.contains_key(key) implies after[key] == node by {
            if before.contains_key(key) {
                assert(before[key] == node);
            }
        }
        assert forall|k: int| 0 <= k < ids.len() implies after.contains_key((path, #[trigger] ids[k])) && (
        !m.contains_key((path, ids[k])) ==> after[(path, ids[k])] == node) by {
            if k < front.len() {
                assert(front[k] == ids[k]);
            }
        }
        if own && front.len() > 0 {
            assert(before.contains_key((path, ids[0])) && before[(path, ids[0])] == node);
        }
    }
}

proof fn lemma_claimed(b: BookView, path: Seq<char>, ids: Seq<Seq<char>>, own: bool)
    requires
        b.links_lead_to_nodes(),
        b.is_ordered(),
        b.nodes.len() > 0,
    ensures
        b.claimed(path, ids, own).links_lead_to_nodes(),
        b.claimed(path, ids, own).is_ordered(),
        b.claimed(path, ids, own).nodes == b.nodes,
        forall|p: Seq<char>| #[trigger]
            b.chapters.contains_key(p) ==> b.claimed(path, ids, own).chapters.contains_key(p)
                && b.claimed(path, ids, own).chapters[p] == b.chapters[p],
        forall|key: (Seq<char>, Seq<char>)| #[trigger]
            b.anchors.contains_key(key) ==> b.claimed(path, ids, own).anchors.contains_key(key) && (
            b.claimed(path, ids, own).anchors[key] == b.anchors[key] || b.claimed(path, ids, own).anchors[key]
                == b.nodes.len() - 1),
{
    let node = b.nodes.len() - 1;
    own_anchors_move_and_others_stay(b.anchors, path, ids, own, node);
    let after = anchors_claimed(b.anchors, path, ids, own, node);
    assert forall|key: (Seq<char>, Seq<char>)| #[trigger] after.contains_key(key) implies 0 <= after[key]
        < b.nodes.len() by {
        if b.anchors.contains_key(key) {
            assert(after[key] == b.anchors[key] || after[key] == node);
        }
    }
}

proof fn lemma_extends_transitive(a: BookView, b: BookView, c: BookView)
    requires
        b.extends(a),
        c.extends(b),
    ensures
        c.extends(a),
{
    assert(c.nodes.take(a.nodes.len() as int) =~= b.nodes.take(a.nodes.len() as int));
}

proof fn lemma_notes_added(
    b: BookView,
    parent: int,
    source: Seq<char>,
    notes: Seq<FootnoteView>,
    n: int,
)
    requires
        b.links_lead_to_nodes(),
        b.is_ordered(),
        0 <= parent < b.nodes.len(),
    ensures
        notes_added(b, parent, source, notes, n).links_lead_to_nodes(),
        notes_added(b, parent, source, notes, n).is_ordered(),
        notes_added(b, parent, source, notes, n).extends(b),
    decreases n,
{
    assert(b.nodes.take(b.nodes.len() as int) =~= b.nodes);
    if n > 0 {
        lemma_notes_added(b, parent, source, notes, n - 1);
        let before = notes_added(b, parent, source, notes, n - 1);
        if let Some(note) = note_in(source, notes[n - 1]) {
            let attributes = JsonView::Object(
                seq![
                    ("anchor_id"@, JsonView::Text(note.anchor_id)),
                    ("label"@, JsonView::Text(note.label)),
                    ("spans"@, spans_json(note.spans)),
                ],
            );
            lemma_with_row(before, Some(parent), "footnote"@, Some(note.text), attributes);
            lemma_extends_transitive(b, before, notes_added(b, parent, source, notes, n));
        }
    }
}

proof fn lemma_row_claimed(
    b: BookView,
    t: Seq<char>,
    c: Option<Seq<char>>,
    a: JsonView,
    path: Seq<char>,
    ids: Seq<Seq<char>>,
    own: bool,
)
    requires
        b.links_lead_to_nodes(),
        b.is_ordered(),
    ensures
        b.with_row(None, t, c, a).claimed(path, ids, own).links_lead_to_nodes(),
        b.with_row(None, t, c, a).claimed(path, ids, own).is_ordered(),
        b.with_row(None, t, c, a).claimed(path, ids, own).extends(b),
        b.with_row(None, t, c, a).claimed(path, ids, own).nodes.len() == b.nodes.len() + 1,
{
    let r = b.with_row(None, t, c, a);
    lemma_with_row(b, None, t, c, a);
    lemma_claimed(r, path, ids, own);
    let after = r.claimed(path, ids, own);
    assert(after.nodes.take(b.nodes.len() as int) =~= b.nodes);
}

proof fn lemma_element_added(
    b: BookView,
    path: Seq<char>,
    source: Seq<char>,
    e: ElementView,
    image: Option<i64>,
)
    requires
        b.links_lead_to_nodes(),
        b.is_ordered(),
    ensures
        element_added(b, path, source, e, image).links_lead_to_nodes(),
        element_added(b, path, source, e, image).is_ordered(),
        element_added(b, path, source, e, image).extends(b),
{
    let after = element_added(b, path, source, e, image);
    assert(b.nodes.take(b.nodes.len() as int) =~= b.nodes);
    match e {
        ElementView::Heading { text, element_ids, own_id, level, spans } => {
            let a = JsonView::Object(
                seq![("level"@, JsonView::Unsigned(level)), ("spans"@, spans_json(spans))],
            );
            lemma_row_claimed(b, "heading"@, Some(text), a, path, element_ids, own_id);
        },
        ElementView::Paragraph {
            node_type,
            text,
            spans,
            source_file,
            footnotes,
            element_ids,
            own_id,
            stanza_start,
            verse_end,
        } => {
            let a = paragraph_json(node_type, source_file, spans, stanza_start, verse_end);
            lemma_row_claimed(b, node_type, Some(text), a, path, element_ids, own_id);
            let c = b.with_row(None, node_type, Some(text), a).claimed(path, element_ids, own_id);
            lemma_notes_added(
                c,
                b.nodes.len() as int,
                source,
                footnotes,
                footnotes.len() as int,
            );
            lemma_extends_transitive(b, c, after);
        },
        ElementView::ThematicBreak { element_ids, own_id } => {
            let a = JsonView::Object(Seq::empty());
            lemma_row_claimed(b, "thematic_break"@, None, a, path, element_ids, own_id);
        },
        ElementView::Table { text, rows, source_file, element_ids, own_id } => {
            let a = JsonView::Object(
                seq![("rows"@, table_json(rows)), ("source_file"@, JsonView::Text(source_file))],
            );
            lemma_row_claimed(b, "table"@, Some(text), a, path, element_ids, own_id);
        },
        ElementView::Image { src, alt, caption, element_ids, own_id } => {
            if let Some(id) = image {
                let a = JsonView::Object(
                    seq![
                        ("asset_id"@, int_json(id as int)),
                        ("alt"@, JsonView::Text(alt)),
                        ("caption"@, JsonView::Text(caption)),
                    ],
                );
                lemma_row_claimed(b, "image"@, None, a, path, element_ids, own_id);
            }
        },
        ElementView::List { ordered, text, spans, items, source_file, element_ids, own_id } => {
            let a = JsonView::Object(
                seq![
                    ("ordered"@, JsonView::Bool(ordered)),
                    ("items"@, items_json(items)),
                    ("spans"@, spans_json(spans)),
                    ("source_file"@, JsonView::Text(source_file)),
                ],
            );
            lemma_row_claimed(b, "list"@, Some(text), a, path, element_ids, own_id);
        },
    }
}

/// Compiling a chapter only adds to a book: the ordinals still count the nodes from zero, notes
/// come after what they belong to, every chapter and anchor leads to a node, and what one led to
/// before it still leads to.
pub proof fn chapters_only_add(
    b: BookView,
    path: Seq<char>,
    source: Seq<char>,
    elements: Seq<ElementView>,
    images: Seq<Option<i64>>,
    n: int,
)
    requires
        b.links_lead_to_nodes(),
        b.is_ordered(),
    ensures
        elements_added(b, path, source, elements, images, n).links_lead_to_nodes(),
        elements_added(b, path, source, elements, images, n).is_ordered(),
        elements_added(b, path, source, elements, images, n).extends(b),
    decreases n,
{
    assert(b.nodes.take(b.nodes.len() as int) =~= b.nodes);
    if n > 0 {
        chapters_only_add(b, path, source, elements, images, n - 1);
        let before = elements_added(b, path, source, elements, images, n - 1);
        lemma_element_added(
            before,
            path,
            source,
            elements[n - 1],
            images[images_among(elements, n - 1)],
        );
        lemma_extends_transitive(
            b,
            before,
            elements_added(b, path, source, elements, images, n),
        );
    }
}

/// The rows of a table of contents whose places are counted from `start`: each row's ordinal is
/// its place, it lies below `parent` or a row before it, and it leads to a node or nowhere.
pub open spec fn is_toc_tree(
    rows: Seq<TocRowView>,
    parent: Option<int>,
    start: int,
    b: BookView,
) -> bool {
    forall|k: int|
        0 <= k < rows.len() ==> {
            &&& (#[trigger] rows[k]).ordinal == start + k
            &&& rows[k].parent == parent || (rows[k].parent matches Some(p) && start <= p < start + k)
            &&& rows[k].target matches Some(t) ==> 0 <= t < b.nodes.len()
        }
}

/// The rows of a table of contents form a tree whose ordinals count its rows in reading order,
/// and every row that leads anywhere leads to a node.
pub proof fn toc_rows_are_a_tree(items: Seq<TocView>, parent: Option<int>, start: int, b: BookView)
    requires
        b.links_lead_to_nodes(),
    ensures
        is_toc_tree(toc_rows(items, parent, start, b), parent, start, b),
    decreases items,
{
    if items.len() > 0 {
        let before = toc_rows(items.drop_last(), parent, start, b);
        toc_rows_are_a_tree(items.drop_last(), parent, start, b);
        let place = start + before.len();
        let below = toc_rows(items.last().children, Some(place), place + 1, b);
        toc_rows_are_a_tree(items.last().children, Some(place), place + 1, b);
        let all = toc_rows(items, parent, start, b);
        assert forall|k: int| 0 <= k < all.len() implies {
            &&& (#[trigger] all[k]).ordinal == start + k
            &&& all[k].parent == parent || (all[k].parent matches Some(p) && start <= p < start + k)
            &&& all[k].target matches Some(t) ==> 0 <= t < b.nodes.len()
        } by {
            if k < before.len() {
                assert(all[k] == before[k]);
            } else if k > before.len() {
                assert(all[k] == below[k - before.len() - 1]);
            }
        }
    }
}

} // verus!
