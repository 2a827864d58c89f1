//! The text of a book as it stands on the screen: runs of characters with their styles, and the
//! separators and pictures between them.

use vstd::prelude::*;

use crate::json::{
    array, as_array, as_i64, as_str, as_true, as_u64, get_field, is_true, jsons_view, number,
    opt_field, opt_json, signed_number, string, Json, JsonView,
};
use crate::node_index::{in_reading_order, NodeIndex};
use crate::schema::{ast_view, AstNode, AstView};
use crate::text::{chars_of, decimal, join, join_texts, push_decimal, same_text, text_of, texts};
use crate::toolkit::{cell, text_of_option};

verus! {

/// How a run of characters is set.
#[derive(Clone, Copy, Debug, PartialEq, Eq, Structural)]
pub enum Style {
    Heading,
    Subheading,
    Paragraph,
    Bold,
    Italic,
    Dim,
    Blockquote,
    Verse,
    ListItem,
    Table,
}

/// A span of a node's text, as far as its style goes.
pub struct SpanAttr {
    pub start: u64,
    pub end: u64,
    pub ty: String,
}

/// The mathematical view of a [`SpanAttr`].
#[verifier::ext_equal]
pub struct SpanAttrView {
    pub start: int,
    pub end: int,
    pub ty: Seq<char>,
}

impl View for SpanAttr {
    type V = SpanAttrView;

    open spec fn view(&self) -> SpanAttrView {
        SpanAttrView { start: self.start as int, end: self.end as int, ty: self.ty@ }
    }
}

/// The views of spans.
pub open spec fn span_attrs_view(spans: Seq<SpanAttr>) -> Seq<SpanAttrView> {
    spans.map_values(|s: SpanAttr| s@)
}

/// A part of the text on the screen.
pub enum Piece {
    Run { text: String, styles: Vec<Style> },
    Separator,
    Picture { asset_id: i64 },
}

/// The mathematical view of a [`Piece`].
#[verifier::ext_equal]
pub enum PieceView {
    Run { text: Seq<char>, styles: Seq<Style> },
    Separator,
    Picture { asset_id: int },
}

impl View for Piece {
    type V = PieceView;

    open spec fn view(&self) -> PieceView {
        match *self {
            Piece::Run { text, styles } => PieceView::Run { text: text@, styles: styles@ },
            Piece::Separator => PieceView::Separator,
            Piece::Picture { asset_id } => PieceView::Picture { asset_id: asset_id as int },
        }
    }
}

/// The views of pieces.
pub open spec fn pieces_view(pieces: Seq<Piece>) -> Seq<PieceView> {
    pieces.map_values(|p: Piece| p@)
}

// ---------------------------------------------------------------------------
// Spans
// ---------------------------------------------------------------------------

/// The span that a JSON value describes, where it describes one.
pub open spec fn span_attr(j: JsonView) -> Option<SpanAttrView> {
    match (number(j.field("start"@)), number(j.field("end"@)), string(j.field("type"@))) {
        (Some(start), Some(end), Some(ty)) => Some(SpanAttrView { start, end, ty }),
        _ => None,
    }
}

/// The spans that the first `n` values describe; a value that describes none is passed over.
pub open spec fn span_attrs(items: Seq<JsonView>, n: int) -> Seq<SpanAttrView>
    decreases n,
{
    if n <= 0 {
        Seq::empty()
    } else {
        match span_attr(items[n - 1]) {
            Some(s) => span_attrs(items, n - 1).push(s),
            None => span_attrs(items, n - 1),
        }
    }
}

/// The spans that stand in a value's field `spans`.
pub open spec fn styled_spans(j: Option<JsonView>) -> Seq<SpanAttrView> {
    match array(opt_field(j, "spans"@)) {
        Some(items) => span_attrs(items, items.len() as int),
        None => Seq::empty(),
    }
}

fn span_from_json(j: &Json) -> (r: Option<SpanAttr>)
    ensures
        match r {
            Some(s) => span_attr(j@) == Some(s@),
            None => span_attr(j@) is None,
        },
{
    let start: u64 = match as_u64(j.get("start")) {
        Some(n) => n,
        None => return None,
    };
    let end: u64 = match as_u64(j.get("end")) {
        Some(n) => n,
        None => return None,
    };
    let ty = match as_str(j.get("type")) {
        Some(t) => t.to_owned(),
        None => return None,
    };
    Some(SpanAttr { start, end, ty })
}

/// The spans that stand in a value's field `spans`; one that is malformed is passed over.
pub fn parse_spans(j: Option<&Json>) -> (r: Vec<SpanAttr>)
    ensures
        span_attrs_view(r@) == styled_spans(opt_json(j)),
{
    let mut out: Vec<SpanAttr> = Vec::new();
    assert(span_attrs_view(out@) =~= Seq::<SpanAttrView>::empty());
    if let Some(items) = as_array(get_field(j, "spans")) {
        let ghost all = jsons_view(items@);
        let mut i: usize = 0;
        while i < items.len()
            invariant
                i <= items@.len(),
                all == jsons_view(items@),
                span_attrs_view(out@) == span_attrs(all, i as int),
            decreases items@.len() - i,
        {
            assert(all[i as int] == items@[i as int]@);
            let ghost before = out@;
            if let Some(s) = span_from_json(&items[i]) {
                out.push(s);
                assert(span_attrs_view(out@) =~= span_attrs_view(before).push(s@));
            }
            i += 1;
        }
    }
    out
}

/// The style that a kind of span gives its characters.
pub open spec fn span_style(ty: Seq<char>) -> Option<Style> {
    if ty == "bold"@ {
        Some(Style::Bold)
    } else if ty == "italic"@ {
        Some(Style::Italic)
    } else if ty == "line_number"@ || ty == "stanza_number"@ {
        Some(Style::Dim)
    } else {
        None
    }
}

/// The styles that the first `n` spans give the character at `p`.
pub open spec fn active(spans: Seq<SpanAttrView>, p: int, n: int) -> Seq<Style>
    decreases n,
{
    if n <= 0 {
        Seq::empty()
    } else {
        let before = active(spans, p, n - 1);
        let s = spans[n - 1];
        if s.start <= p < s.end {
            match span_style(s.ty) {
                Some(style) => before.push(style),
                None => before,
            }
        } else {
            before
        }
    }
}

/// The styles that spans give the character at `p`.
pub fn active_span_tags(p: usize, spans: &Vec<SpanAttr>) -> (r: Vec<Style>)
    ensures
        r@ == active(span_attrs_view(spans@), p as int, spans@.len() as int),
{
    let ghost all = span_attrs_view(spans@);
    let mut out: Vec<Style> = Vec::new();
    let mut i: usize = 0;
    while i < spans.len()
        invariant
            i <= spans@.len(),
            all == span_attrs_view(spans@),
            out@ == active(all, p as int, i as int),
        decreases spans@.len() - i,
    {
        assert(all[i as int] == spans@[i as int]@);
        let s = &spans[i];
        if s.start <= p as u64 && (p as u64) < s.end {
            let ty = s.ty.as_str();
            if same_text(ty, "bold") {
                out.push(Style::Bold);
            } else if same_text(ty, "italic") {
                out.push(Style::Italic);
            } else if same_text(ty, "line_number") || same_text(ty, "stanza_number") {
                out.push(Style::Dim);
            }
        }
        i += 1;
    }
    out
}

// ---------------------------------------------------------------------------
// Runs
// ---------------------------------------------------------------------------

pub open spec fn at_most(n: int, len: int) -> int {
    if n < len {
        n
    } else {
        len
    }
}

/// Whether some span starts or ends at `p`, in a text of this length.
pub open spec fn span_edge(len: int, spans: Seq<SpanAttrView>, p: int) -> bool {
    exists|k: int|
        0 <= k < spans.len() && (at_most((#[trigger] spans[k]).start, len) == p || at_most(spans[k].end, len) == p)
}

/// Whether a text of this length is cut at `p`: at its two ends and at every edge of a span.
pub open spec fn is_breakpoint(len: int, spans: Seq<SpanAttrView>, p: int) -> bool {
    p == 0 || p == len || span_edge(len, spans, p)
}

/// The places before `p` at which a text of this length is cut, in order.
pub open spec fn cuts(len: int, spans: Seq<SpanAttrView>, p: int) -> Seq<int>
    decreases p,
{
    if p <= 0 {
        Seq::empty()
    } else if is_breakpoint(len, spans, p - 1) {
        cuts(len, spans, p - 1).push(p - 1)
    } else {
        cuts(len, spans, p - 1)
    }
}

fn is_edge(len: usize, spans: &Vec<SpanAttr>, p: usize) -> (r: bool)
    requires
        p <= len,
    ensures
        r == span_edge(len as int, span_attrs_view(spans@), p as int),
{
    let ghost all = span_attrs_view(spans@);
    let mut i: usize = 0;
    while i < spans.len()
        invariant
            i <= spans@.len(),
            p <= len,
            all == span_attrs_view(spans@),
            forall|k: int|
                0 <= k < i ==> at_most((#[trigger] all[k]).start, len as int) != p && at_most(
                    all[k].end,
                    len as int,
                ) != p,
        decreases spans@.len() - i,
    {
        let s = &spans[i];
        assert(all[i as int] == s@);
        if s.start == p as u64 || s.end == p as u64 || (p == len && (s.start >= len as u64 || s.end >= len as u64)) {
            return true;
        }
        i += 1;
    }
    false
}

/// The places at which a text of this length is cut, in order.
pub fn breakpoints(len: usize, spans: &Vec<SpanAttr>) -> (r: Vec<usize>)
    ensures
        r@.map_values(|p: usize| p as int) == cuts(len as int, span_attrs_view(spans@), len + 1),
{
    let ghost all = span_attrs_view(spans@);
    let mut out: Vec<usize> = Vec::new();
    assert(out@.map_values(|p: usize| p as int) =~= Seq::<int>::empty());
    let mut p: usize = 0;
    while p < len
        invariant
            p <= len,
            all == span_attrs_view(spans@),
            out@.map_values(|p: usize| p as int) == cuts(len as int, all, p as int),
        decreases len - p,
    {
        let ghost before = out@;
        if p == 0 || is_edge(len, spans, p) {
            out.push(p);
            assert(out@.map_values(|p: usize| p as int) =~= before.map_values(|p: usize| p as int).push(p as int));
        }
        p += 1;
    }
    let ghost before = out@;
    out.push(len);
    assert(out@.map_values(|p: usize| p as int) =~= before.map_values(|p: usize| p as int).push(len as int));
    out
}

/// The first `n` runs of a text that is cut at `pts`.
pub open spec fn runs(
    content: Seq<char>,
    spans: Seq<SpanAttrView>,
    base: Style,
    pts: Seq<int>,
    n: int,
) -> Seq<PieceView>
    decreases n,
{
    if n <= 0 {
        Seq::empty()
    } else {
        runs(content, spans, base, pts, n - 1).push(
            PieceView::Run {
                text: content.subrange(pts[n - 1], pts[n]),
                styles: seq![base] + active(spans, pts[n - 1], spans.len() as int),
            },
        )
    }
}

/// A text in runs, each of one style: the base style, and those of the spans over it.
pub open spec fn styled(
    content: Seq<char>,
    spans: Seq<SpanAttrView>,
    base: Style,
) -> Seq<PieceView> {
    if content.len() == 0 {
        Seq::empty()
    } else {
        let pts = cuts(content.len() as int, spans, (content.len() + 1) as int);
        runs(content, spans, base, pts, pts.len() - 1)
    }
}

/// The cuts of a text start at its start, end at its end, and rise.
pub(crate) proof fn lemma_cuts(len: int, spans: Seq<SpanAttrView>, p: int)
    requires
        0 < p <= len + 1,
    ensures
        cuts(len, spans, p).len() > 0,
        cuts(len, spans, p)[0] == 0,
        forall|i: int| 0 <= i < cuts(len, spans, p).len() ==> 0 <= #[trigger] cuts(len, spans, p)[i] < p,
        forall|i: int, j: int|
            0 <= i < j < cuts(len, spans, p).len() ==> cuts(len, spans, p)[i] < cuts(len, spans, p)[j],
        forall|q: int|
            0 <= q < p && is_breakpoint(len, spans, q) ==> #[trigger] cuts(len, spans, p).contains(q),
        p == len + 1 ==> cuts(len, spans, p).last() == len,
    decreases p,
{
    reveal_with_fuel(cuts, 2);
    if p > 1 {
        lemma_cuts(len, spans, p - 1);
        let before = cuts(len, spans, p - 1);
        let now = cuts(len, spans, p);
        assert forall|q: int| 0 <= q < p && is_breakpoint(len, spans, q) implies #[trigger] now.contains(q) by {
            if q < p - 1 {
                assert(before.contains(q));
                let i = before.index_of(q);
                assert(now[i] == q);
            } else {
                assert(now[now.len() - 1] == q);
            }
        }
    } else {
        assert(cuts(len, spans, 1)[0] == 0);
        assert forall|q: int| 0 <= q < p && is_breakpoint(len, spans, q) implies #[trigger] cuts(
            len,
            spans,
            p,
        ).contains(q) by {
            assert(cuts(len, spans, 1)[0] == q);
        }
    }
}

/// Appends a text in runs, each of one style: the base style, and those of the spans over it.
pub fn insert_runs(out: &mut Vec<Piece>, content: &str, spans: &Vec<SpanAttr>, base: Style)
    ensures
        pieces_view(final(out)@) == pieces_view(old(out)@) + styled(
            content@,
            span_attrs_view(spans@),
            base,
        ),
{
    let ghost all = span_attrs_view(spans@);
    let ghost before = pieces_view(out@);
    let chars = chars_of(content);
    let len: usize = chars.len();
    if len == 0 {
        assert(before + Seq::<PieceView>::empty() =~= before);
        return ;
    }
    let pts = breakpoints(len, spans);
    let ghost places = pts@.map_values(|p: usize| p as int);
    proof {
        lemma_cuts(len as int, all, len + 1);
    }
    assert(places.len() == pts@.len());
    let mut k: usize = 1;
    assert(before + Seq::<PieceView>::empty() =~= before);
    while k < pts.len()
        invariant
            1 <= k <= pts@.len(),
            chars@ == content@,
            len == chars@.len(),
            all == span_attrs_view(spans@),
            places == pts@.map_values(|p: usize| p as int),
            places == cuts(len as int, all, len + 1),
            forall|i: int| 0 <= i < places.len() ==> 0 <= #[trigger] places[i] < len + 1,
            forall|i: int, j: int| 0 <= i < j < places.len() ==> places[i] < places[j],
            pieces_view(out@) == before + runs(content@, all, base, places, k - 1),
        decreases pts@.len() - k,
    {
        let a: usize = pts[k - 1];
        let b: usize = pts[k];
        assert(places[k - 1] == a && places[k as int] == b);
        let text = text_of(&chars, a, b);
        let mut styles: Vec<Style> = vec![base];
        let mut more = active_span_tags(a, spans);
        let ghost active_here = more@;
        styles.append(&mut more);
        assert(styles@ =~= seq![base] + active_here);
        let ghost sofar = out@;
        let piece = Piece::Run { text, styles };
        let ghost shown = piece@;
        out.push(piece);
        assert(pieces_view(out@) =~= pieces_view(sofar).push(shown));
        k += 1;
        assert(pieces_view(out@) =~= before + runs(content@, all, base, places, k - 1));
    }
}

// ---------------------------------------------------------------------------
// Nodes
// ---------------------------------------------------------------------------

/// The end of a line.
pub open spec fn newline() -> PieceView {
    PieceView::Run { text: "\n"@, styles: Seq::empty() }
}

/// The style of a heading of a level.
pub open spec fn heading_style(attributes: Option<JsonView>) -> Style {
    match signed_number(opt_field(attributes, "level"@)) {
        Some(level) => if level <= 1 {
            Style::Heading
        } else {
            Style::Subheading
        },
        None => Style::Heading,
    }
}

/// What stands before the item at place `i` of a list.
pub open spec fn item_prefix(ordered: bool, i: int) -> Seq<char> {
    if ordered {
        decimal((i + 1) as nat) + ". "@
    } else {
        "\u{2022} "@
    }
}

/// The first `n` items of a list, a line each.
pub open spec fn list_pieces(items: Seq<JsonView>, ordered: bool, n: int) -> Seq<PieceView>
    decreases n,
{
    if n <= 0 {
        Seq::empty()
    } else {
        let item = items[n - 1];
        list_pieces(items, ordered, n - 1) + seq![
            PieceView::Run { text: item_prefix(ordered, n - 1), styles: seq![Style::ListItem] },
        ] + styled(
            text_of_option(string(item.field("text"@))),
            styled_spans(Some(item)),
            Style::ListItem,
        ) + seq![newline()]
    }
}

/// The cells of a row of a table, on one line.
pub open spec fn row_text(row: JsonView) -> Seq<char> {
    match row {
        JsonView::Array(cells) => join(cells.map_values(|c: JsonView| cell(c)), "  |  "@),
        _ => Seq::empty(),
    }
}

/// The first `n` rows of a table, a line each.
pub open spec fn table_pieces(rows: Seq<JsonView>, n: int) -> Seq<PieceView>
    decreases n,
{
    if n <= 0 {
        Seq::empty()
    } else {
        table_pieces(rows, n - 1) + seq![
            PieceView::Run { text: row_text(rows[n - 1]), styles: seq![Style::Table] },
            newline(),
        ]
    }
}

/// The items of an array, or none.
pub open spec fn items_of(j: Option<JsonView>) -> Seq<JsonView> {
    match array(j) {
        Some(items) => items,
        None => Seq::empty(),
    }
}

/// Whether a blank line stands above a node's text.
pub open spec fn opens_stanza(n: AstView) -> bool {
    n.node_type == "verse_line"@ && is_true(opt_field(n.attributes, "stanza_start"@))
}

/// A node on the screen.
pub open spec fn node_pieces(n: AstView) -> Seq<PieceView> {
    let content = text_of_option(n.content);
    let spans = styled_spans(n.attributes);
    if n.node_type == "heading"@ {
        styled(content, spans, heading_style(n.attributes)) + seq![newline()]
    } else if n.node_type == "paragraph"@ {
        styled(content, spans, Style::Paragraph) + seq![newline()]
    } else if n.node_type == "blockquote"@ {
        styled(content, spans, Style::Blockquote) + seq![newline()]
    } else if n.node_type == "verse_line"@ {
        let above = if opens_stanza(n) {
            seq![newline()]
        } else {
            Seq::empty()
        };
        let below = if is_true(opt_field(n.attributes, "verse_end"@)) {
            seq![newline()]
        } else {
            Seq::empty()
        };
        above + styled(content, spans, Style::Verse) + seq![newline()] + below
    } else if n.node_type == "list"@ {
        let items = items_of(opt_field(n.attributes, "items"@));
        list_pieces(items, is_true(opt_field(n.attributes, "ordered"@)), items.len() as int) + seq![
            newline(),
        ]
    } else if n.node_type == "table"@ {
        let rows = items_of(opt_field(n.attributes, "rows"@));
        table_pieces(rows, rows.len() as int) + seq![newline()]
    } else if n.node_type == "thematic_break"@ {
        seq![PieceView::Separator, newline()]
    } else if n.node_type == "image"@ {
        match signed_number(opt_field(n.attributes, "asset_id"@)) {
            Some(asset_id) => seq![PieceView::Picture { asset_id }, newline()],
            None => Seq::empty(),
        }
    } else {
        Seq::empty()
    }
}

/// The first `n` nodes on the screen.
pub open spec fn document_pieces(nodes: Seq<AstView>, n: int) -> Seq<PieceView>
    decreases n,
{
    if n <= 0 {
        Seq::empty()
    } else {
        document_pieces(nodes, n - 1) + node_pieces(nodes[n - 1])
    }
}

/// The characters of a piece; a separator and a picture take the place of one.
pub open spec fn piece_text(p: PieceView) -> Seq<char> {
    match p {
        PieceView::Run { text, .. } => text,
        PieceView::Separator => seq!['\u{fffc}'],
        PieceView::Picture { .. } => seq!['\u{fffc}'],
    }
}

/// The characters of pieces.
pub open spec fn pieces_text(pieces: Seq<PieceView>) -> Seq<char>
    decreases pieces.len(),
{
    if pieces.len() == 0 {
        Seq::empty()
    } else {
        pieces_text(pieces.drop_last()) + piece_text(pieces.last())
    }
}

/// The characters of a book on the screen.
pub open spec fn document_text(nodes: Seq<AstView>) -> Seq<char> {
    pieces_text(document_pieces(nodes, nodes.len() as int))
}

/// The offset at which the node at place `k` starts.
pub open spec fn node_start(nodes: Seq<AstView>, k: int) -> int {
    pieces_text(document_pieces(nodes, k)).len() as int
}

/// A book as it stands on the screen.
pub struct Document {
    pub pieces: Vec<Piece>,
    pub index: NodeIndex,
    pub char_count: usize,
}

impl Document {
    /// Whether this is the document of these nodes.
    pub open spec fn shows(&self, nodes: Seq<AstView>) -> bool {
        &&& pieces_view(self.pieces@) == document_pieces(nodes, nodes.len() as int)
        &&& self.char_count == document_text(nodes).len()
        &&& self.index@.len() == nodes.len()
        &&& forall|k: int|
            0 <= k < nodes.len() ==> (#[trigger] self.index@[k]).0 == nodes[k].id && self.index@[k].1
                == node_start(nodes, k)
    }
}

fn push_run(out: &mut Vec<Piece>, text: &str, styles: Vec<Style>)
    ensures
        pieces_view(final(out)@) == pieces_view(old(out)@).push(
            PieceView::Run { text: text@, styles: styles@ },
        ),
{
    let ghost before = out@;
    let piece = Piece::Run { text: text.to_owned(), styles };
    let ghost shown = piece@;
    out.push(piece);
    assert(pieces_view(out@) =~= pieces_view(before).push(shown));
}

fn push_newline(out: &mut Vec<Piece>)
    ensures
        pieces_view(final(out)@) == pieces_view(old(out)@).push(newline()),
{
    let styles: Vec<Style> = Vec::new();
    assert(styles@ =~= Seq::empty());
    push_run(out, "\n", styles);
}

fn push_list(out: &mut Vec<Piece>, items: &Vec<Json>, ordered: bool)
    ensures
        pieces_view(final(out)@) == pieces_view(old(out)@) + list_pieces(
            jsons_view(items@),
            ordered,
            items@.len() as int,
        ),
{
    let ghost before = pieces_view(out@);
    let ghost all = jsons_view(items@);
    assert(before + Seq::<PieceView>::empty() =~= before);
    let mut i: usize = 0;
    while i < items.len()
        invariant
            i <= items@.len(),
            all == jsons_view(items@),
            pieces_view(out@) == before + list_pieces(all, ordered, i as int),
        decreases items@.len() - i,
    {
        assert(all[i as int] == items@[i as int]@);
        let item = Some(&items[i]);
        let text = match as_str(get_field(item, "text")) {
            Some(t) => t.to_owned(),
            None => String::new(),
        };
        assert(text@ =~= text_of_option(string(all[i as int].field("text"@))));
        let spans = parse_spans(item);
        let mut prefix = String::new();
        if ordered {
            push_decimal(&mut prefix, i as u64 + 1);
            prefix.append(". ");
        } else {
            prefix.append("\u{2022} ");
        }
        assert(prefix@ =~= item_prefix(ordered, i as int));
        let styles: Vec<Style> = vec![Style::ListItem];
        assert(styles@ =~= seq![Style::ListItem]);
        push_run(out, prefix.as_str(), styles);
        insert_runs(out, text.as_str(), &spans, Style::ListItem);
        push_newline(out);
        i += 1;
        assert(pieces_view(out@) =~= before + list_pieces(all, ordered, i as int));
    }
}

fn row_line(row: &Json) -> (r: String)
    ensures
        r@ == row_text(row@),
{
    let mut cells: Vec<String> = Vec::new();
    if let Some(cols) = as_array(Some(row)) {
        let ghost views = jsons_view(cols@);
        let ghost shown = views.map_values(|c: JsonView| cell(c));
        let mut c: usize = 0;
        assert(texts(cells@) =~= shown.take(0));
        while c < cols.len()
            invariant
                c <= cols@.len(),
                views == jsons_view(cols@),
                shown == views.map_values(|c: JsonView| cell(c)),
                texts(cells@) =~= shown.take(c as int),
            decreases cols@.len() - c,
        {
            assert(views[c as int] == cols@[c as int]@);
            let text = match as_str(Some(&cols[c])) {
                Some(t) => t.to_owned(),
                None => String::new(),
            };
            assert(text@ =~= shown[c as int]);
            let ghost before = cells@;
            cells.push(text);
            c += 1;
            assert(texts(cells@) =~= texts(before).push(text@));
            assert(shown.take(c as int) =~= shown.take(c - 1).push(shown[c - 1]));
        }
        assert(shown.take(c as int) =~= shown);
    } else {
        return String::new();
    }
    join_texts(&cells, "  |  ")
}

fn push_table(out: &mut Vec<Piece>, rows: &Vec<Json>)
    ensures
        pieces_view(final(out)@) == pieces_view(old(out)@) + table_pieces(
            jsons_view(rows@),
            rows@.len() as int,
        ),
{
    let ghost before = pieces_view(out@);
    let ghost all = jsons_view(rows@);
    assert(before + Seq::<PieceView>::empty() =~= before);
    let mut k: usize = 0;
    while k < rows.len()
        invariant
            k <= rows@.len(),
            all == jsons_view(rows@),
            pieces_view(out@) == before + table_pieces(all, k as int),
        decreases rows@.len() - k,
    {
        assert(all[k as int] == rows@[k as int]@);
        let line = row_line(&rows[k]);
        let styles: Vec<Style> = vec![Style::Table];
        assert(styles@ =~= seq![Style::Table]);
        push_run(out, line.as_str(), styles);
        push_newline(out);
        k += 1;
        assert(pieces_view(out@) =~= before + table_pieces(all, k as int));
    }
}

fn push_verse(out: &mut Vec<Piece>, n: &AstNode, content: &str, spans: &Vec<SpanAttr>)
    requires
        n@.node_type == "verse_line"@,
        content@ == text_of_option(n@.content),
        span_attrs_view(spans@) == styled_spans(n@.attributes),
    ensures
        pieces_view(final(out)@) == pieces_view(old(out)@) + node_pieces(n@),
{
    let ghost before = pieces_view(out@);
    proof {
        lemma_node_types();
    }
    if as_true(get_field(attributes_of(n), "stanza_start")) {
        push_newline(out);
    }
    insert_runs(out, content, spans, Style::Verse);
    push_newline(out);
    if as_true(get_field(attributes_of(n), "verse_end")) {
        push_newline(out);
    }
    assert(pieces_view(out@) =~= before + node_pieces(n@));
}

fn attributes_of(n: &AstNode) -> (r: Option<&Json>)
    ensures
        opt_json(r) == n@.attributes,
{
    match &n.attributes {
        Some(j) => Some(j),
        None => None,
    }
}

proof fn lemma_node_types()
    ensures
        "heading"@ != "paragraph"@,
        "heading"@ != "verse_line"@,
        "heading"@ != "blockquote"@,
        "paragraph"@ != "verse_line"@,
        "paragraph"@ != "blockquote"@,
        "blockquote"@ != "verse_line"@,
{
    reveal_strlit("heading");
    reveal_strlit("paragraph");
    reveal_strlit("blockquote");
    reveal_strlit("verse_line");
    assert("heading"@.len() == 7);
    assert("paragraph"@.len() == 9);
    assert("blockquote"@[0] == 'b');
    assert("verse_line"@[0] == 'v');
    assert("blockquote"@.len() == 10);
    assert("verse_line"@.len() == 10);
}

fn push_node(out: &mut Vec<Piece>, n: &AstNode)
    ensures
        pieces_view(final(out)@) == pieces_view(old(out)@) + node_pieces(n@),
{
    let ghost before = pieces_view(out@);
    assert(before + Seq::<PieceView>::empty() =~= before);
    let kind = n.node_type.as_str();
    let attributes = attributes_of(n);
    let content = match &n.content {
        Some(t) => t.clone(),
        None => String::new(),
    };
    assert(content@ =~= text_of_option(n@.content));
    let spans = parse_spans(attributes);
    if same_text(kind, "heading") {
        let style = match as_i64(get_field(attributes, "level")) {
            Some(level) => if level <= 1 {
                Style::Heading
            } else {
                Style::Subheading
            },
            None => Style::Heading,
        };
        insert_runs(out, content.as_str(), &spans, style);
        push_newline(out);
    } else if same_text(kind, "paragraph") {
        insert_runs(out, content.as_str(), &spans, Style::Paragraph);
        push_newline(out);
    } else if same_text(kind, "blockquote") {
        insert_runs(out, content.as_str(), &spans, Style::Blockquote);
        push_newline(out);
    } else if same_text(kind, "verse_line") {
        push_verse(out, n, content.as_str(), &spans);
    } else if same_text(kind, "list") {
        if let Some(items) = as_array(get_field(attributes, "items")) {
            push_list(out, items, as_true(get_field(attributes, "ordered")));
        }
        push_newline(out);
    } else if same_text(kind, "table") {
        if let Some(rows) = as_array(get_field(attributes, "rows")) {
            push_table(out, rows);
        }
        push_newline(out);
    } else if same_text(kind, "thematic_break") {
        out.push(Piece::Separator);
        assert(pieces_view(out@) =~= before.push(PieceView::Separator));
        push_newline(out);
    } else if same_text(kind, "image") {
        if let Some(asset_id) = as_i64(get_field(attributes, "asset_id")) {
            out.push(Piece::Picture { asset_id });
            assert(pieces_view(out@) =~= before.push(PieceView::Picture { asset_id: asset_id as int }));
            push_newline(out);
        }
    }
    assert(pieces_view(out@) =~= before + node_pieces(n@));
}

/// The characters of two lists of pieces, one behind the other.
proof fn lemma_text_of_both(a: Seq<PieceView>, b: Seq<PieceView>)
    ensures
        pieces_text(a + b) == pieces_text(a) + pieces_text(b),
    decreases b.len(),
{
    if b.len() == 0 {
        assert(a + b =~= a);
        assert(pieces_text(b) =~= Seq::<char>::empty());
    } else {
        assert((a + b).drop_last() =~= a + b.drop_last());
        lemma_text_of_both(a, b.drop_last());
        assert(pieces_text(a + b) =~= pieces_text(a) + pieces_text(b));
    }
}

/// The pieces of a book only grow from node to node.
proof fn lemma_starts_rise(nodes: Seq<AstView>, i: int, j: int)
    requires
        0 <= i <= j <= nodes.len(),
    ensures
        node_start(nodes, i) <= node_start(nodes, j),
        pieces_text(document_pieces(nodes, i)) == pieces_text(document_pieces(nodes, j)).take(
            node_start(nodes, i),
        ),
    decreases j - i,
{
    if i < j {
        lemma_starts_rise(nodes, i, j - 1);
        lemma_text_of_both(document_pieces(nodes, j - 1), node_pieces(nodes[j - 1]));
    }
    assert(pieces_text(document_pieces(nodes, i)) =~= pieces_text(document_pieces(nodes, j)).take(
        node_start(nodes, i),
    ));
}

fn piece_len(p: &Piece) -> (r: usize)
    ensures
        r == piece_text(p@).len(),
{
    match p {
        Piece::Run { text, .. } => text.as_str().unicode_len(),
        Piece::Separator => 1,
        Piece::Picture { .. } => 1,
    }
}

/// A book on the screen, with the offset at which each of its nodes starts.
pub fn build_document(nodes: &Vec<AstNode>) -> (r: Document)
    requires
        document_text(ast_view(nodes@)).len() <= usize::MAX,
    ensures
        r.shows(ast_view(nodes@)),
{
    let ghost all = ast_view(nodes@);
    let mut pieces: Vec<Piece> = Vec::new();
    let mut index = NodeIndex::new();
    let mut char_count: usize = 0;
    assert(pieces_view(pieces@) =~= Seq::<PieceView>::empty());
    let mut k: usize = 0;
    while k < nodes.len()
        invariant
            k <= nodes@.len(),
            all == ast_view(nodes@),
            document_text(all).len() <= usize::MAX,
            pieces_view(pieces@) == document_pieces(all, k as int),
            char_count == node_start(all, k as int),
            index@.len() == k,
            forall|i: int|
                0 <= i < k ==> (#[trigger] index@[i]).0 == all[i].id && index@[i].1 == node_start(all, i),
        decreases nodes@.len() - k,
    {
        assert(all[k as int] == nodes@[k as int]@);
        index.record(char_count, nodes[k].id);
        let mut shown: Vec<Piece> = Vec::new();
        assert(pieces_view(shown@) =~= Seq::<PieceView>::empty());
        push_node(&mut shown, &nodes[k]);
        let ghost more = node_pieces(all[k as int]);
        assert(pieces_view(shown@) =~= more);
        proof {
            lemma_starts_rise(all, k + 1, all.len() as int);
            lemma_text_of_both(document_pieces(all, k as int), more);
        }
        let ghost start = char_count as int;
        let mut i: usize = 0;
        assert(pieces_text(more.take(0)) =~= Seq::<char>::empty());
        while i < shown.len()
            invariant
                i <= shown@.len(),
                pieces_view(shown@) == more,
                char_count == start + pieces_text(more.take(i as int)).len(),
                start + pieces_text(more).len() <= usize::MAX,
            decreases shown@.len() - i,
        {
            assert(more[i as int] == shown@[i as int]@);
            assert(more.take(i + 1).drop_last() =~= more.take(i as int));
            proof {
                lemma_text_of_both(more.take(i + 1), more.skip(i + 1));
                assert(more.take(i + 1) + more.skip(i + 1) =~= more);
            }
            char_count += piece_len(&shown[i]);
            i += 1;
        }
        assert(more.take(i as int) =~= more);
        let ghost sofar = pieces@;
        let ghost added = shown@;
        pieces.append(&mut shown);
        assert(pieces_view(pieces@) =~= pieces_view(sofar) + pieces_view(added));
        k += 1;
    }
    Document { pieces, index, char_count }
}

// ---------------------------------------------------------------------------
// Laws
// ---------------------------------------------------------------------------

pub(crate) proof fn lemma_runs_text(
    content: Seq<char>,
    spans: Seq<SpanAttrView>,
    base: Style,
    pts: Seq<int>,
    n: int,
)
    requires
        0 <= n < pts.len(),
        pts[0] == 0,
        forall|i: int| 0 <= i < pts.len() ==> 0 <= #[trigger] pts[i] <= content.len(),
        forall|i: int, j: int| 0 <= i < j < pts.len() ==> pts[i] < pts[j],
    ensures
        pieces_text(runs(content, spans, base, pts, n)) == content.take(pts[n]),
    decreases n,
{
    if n > 0 {
        lemma_runs_text(content, spans, base, pts, n - 1);
        let now = runs(content, spans, base, pts, n);
        assert(now.drop_last() =~= runs(content, spans, base, pts, n - 1));
    }
    assert(pieces_text(runs(content, spans, base, pts, n)) =~= content.take(pts[n]));
}

/// Cutting a text into runs keeps every character of it, in order.
pub proof fn runs_keep_the_text(content: Seq<char>, spans: Seq<SpanAttrView>, base: Style)
    ensures
        pieces_text(styled(content, spans, base)) == content,
{
    if content.len() > 0 {
        let len = content.len() as int;
        let pts = cuts(len, spans, len + 1);
        lemma_cuts(len, spans, len + 1);
        lemma_runs_text(content, spans, base, pts, pts.len() - 1);
    }
    assert(pieces_text(styled(content, spans, base)) =~= content);
}

proof fn lemma_same_active(spans: Seq<SpanAttrView>, len: int, a: int, p: int, n: int)
    requires
        0 <= a <= p < len,
        0 <= n <= spans.len(),
        forall|q: int| a < q <= p ==> !#[trigger] is_breakpoint(len, spans, q),
    ensures
        active(spans, p, n) == active(spans, a, n),
    decreases n,
{
    if n > 0 {
        lemma_same_active(spans, len, a, p, n - 1);
        let s = spans[n - 1];
        if a < s.start <= p {
            assert(at_most(s.start, len) == s.start);
            assert(is_breakpoint(len, spans, s.start));
        }
        if a < s.end <= p {
            assert(at_most(s.end, len) == s.end);
            assert(is_breakpoint(len, spans, s.end));
        }
    }
}

/// Every character of a run has the styles of the run: those of the base and of all the spans
/// over that character, where spans overlap too.
pub proof fn runs_are_uniform(
    content: Seq<char>,
    spans: Seq<SpanAttrView>,
    base: Style,
    k: int,
    p: int,
)
    requires
        content.len() > 0,
        0 <= k < cuts(content.len() as int, spans, (content.len() + 1) as int).len() - 1,
        cuts(content.len() as int, spans, (content.len() + 1) as int)[k] <= p < cuts(
            content.len() as int,
            spans,
            (content.len() + 1) as int,
        )[k + 1],
    ensures
        styled(content, spans, base)[k] matches PieceView::Run { text, styles } && styles == seq![base] + active(
            spans,
            p,
            spans.len() as int,
        ) && text.contains(content[p]),
{
    let len = content.len() as int;
    let pts = cuts(len, spans, len + 1);
    lemma_cuts(len, spans, len + 1);
    lemma_run_at(content, spans, base, pts, pts.len() - 1, k);
    assert forall|q: int| pts[k] < q <= p implies !#[trigger] is_breakpoint(len, spans, q) by {
        if is_breakpoint(len, spans, q) {
            assert(pts.contains(q));
            let i = pts.index_of(q);
            assert(pts[i] == q);
            if i <= k {
                assert(pts[i] <= pts[k]);
            } else if i > k + 1 {
                assert(pts[k + 1] < pts[i]);
            }
        }
    }
    lemma_same_active(spans, len, pts[k], p, spans.len() as int);
    let text = content.subrange(pts[k], pts[k + 1]);
    assert(text[p - pts[k]] == content[p]);
}

proof fn lemma_run_at(
    content: Seq<char>,
    spans: Seq<SpanAttrView>,
    base: Style,
    pts: Seq<int>,
    n: int,
    k: int,
)
    requires
        0 <= k < n < pts.len(),
    ensures
        runs(content, spans, base, pts, n).len() == n,
        runs(content, spans, base, pts, n)[k] == (PieceView::Run {
            text: content.subrange(pts[k], pts[k + 1]),
            styles: seq![base] + active(spans, pts[k], spans.len() as int),
        }),
    decreases n,
{
    if k < n - 1 {
        lemma_run_at(content, spans, base, pts, n - 1, k);
    } else {
        lemma_runs_len(content, spans, base, pts, n - 1);
    }
}

pub(crate) proof fn lemma_runs_len(
    content: Seq<char>,
    spans: Seq<SpanAttrView>,
    base: Style,
    pts: Seq<int>,
    n: int,
)
    requires
        0 <= n,
    ensures
        runs(content, spans, base, pts, n).len() == n,
    decreases n,
{
    if n > 0 {
        lemma_runs_len(content, spans, base, pts, n - 1);
    }
}

/// The nodes of a book start on the screen in the order in which they stand in it, and none
/// starts behind the end of the text.
pub proof fn nodes_start_in_reading_order(d: Document, nodes: Seq<AstView>)
    requires
        d.shows(nodes),
    ensures
        in_reading_order(d.index@),
        forall|k: int| 0 <= k < nodes.len() ==> (#[trigger] d.index@[k]).1 <= d.char_count,
{
    assert forall|i: int, j: int| 0 <= i <= j < d.index@.len() implies d.index@[i].1 <= d.index@[j].1 by {
        lemma_starts_rise(nodes, i, j);
    }
    assert forall|k: int| 0 <= k < nodes.len() implies (#[trigger] d.index@[k]).1 <= d.char_count by {
        lemma_starts_rise(nodes, k, nodes.len() as int);
    }
}

/// Whether a reader can mark words in nodes of a type: those whose text stands on the screen as
/// it is.
pub open spec fn is_annotatable(node_type: Seq<char>) -> bool {
    node_type == "heading"@ || node_type == "paragraph"@ || node_type == "blockquote"@ || node_type == "verse_line"@
}

/// The offset at which the text of the node at place `k` starts: below the blank line, where one
/// stands above it.
pub open spec fn content_start(nodes: Seq<AstView>, k: int) -> int {
    node_start(nodes, k) + if opens_stanza(nodes[k]) {
        1int
    } else {
        0int
    }
}

/// The text of a node that a reader can mark words in stands on the screen, character for
/// character, from the offset at which it starts.
pub proof fn content_stands_on_the_screen(nodes: Seq<AstView>, k: int)
    requires
        0 <= k < nodes.len(),
        is_annotatable(nodes[k].node_type),
    ensures
        ({
            let content = text_of_option(nodes[k].content);
            let start = content_start(nodes, k);
            &&& 0 <= start && start + content.len() < document_text(nodes).len()
            &&& start + content.len() < node_start(nodes, k + 1)
            &&& document_text(nodes).subrange(start, start + content.len()) == content
        }),
{
    lemma_node_types();
    let n = nodes[k];
    let content = text_of_option(n.content);
    let spans = styled_spans(n.attributes);
    let base = if n.node_type == "heading"@ {
        heading_style(n.attributes)
    } else if n.node_type == "paragraph"@ {
        Style::Paragraph
    } else if n.node_type == "blockquote"@ {
        Style::Blockquote
    } else {
        Style::Verse
    };
    let line = seq![newline()];
    let above = if opens_stanza(n) {
        line
    } else {
        Seq::empty()
    };
    let below = if n.node_type == "verse_line"@ && is_true(opt_field(n.attributes, "verse_end"@)) {
        line
    } else {
        Seq::empty()
    };
    let shown = styled(content, spans, base);
    assert(node_pieces(n) =~= above + shown + line + below);
    reveal_strlit("\n");
    assert(pieces_text(line) =~= seq!['\n']) by {
        assert(line.drop_last() =~= Seq::<PieceView>::empty());
        assert(pieces_text(line.drop_last()) =~= Seq::<char>::empty());
        assert(piece_text(newline()) =~= seq!['\n']);
    }
    lemma_text_of_both(above, shown);
    lemma_text_of_both(above + shown, line);
    lemma_text_of_both(above + shown + line, below);
    runs_keep_the_text(content, spans, base);
    let head = document_pieces(nodes, k);
    lemma_text_of_both(head, node_pieces(n));
    lemma_starts_rise(nodes, k + 1, nodes.len() as int);
    let start = content_start(nodes, k);
    let upto = pieces_text(document_pieces(nodes, k + 1));
    assert(pieces_text(above).len() == if opens_stanza(n) {
        1int
    } else {
        0int
    });
    assert(upto =~= pieces_text(head) + (pieces_text(above) + content + pieces_text(line) + pieces_text(below)));
    assert(upto.subrange(start, start + content.len()) =~= content);
    assert(document_text(nodes).subrange(start, start + content.len()) =~= upto.subrange(
        start,
        start + content.len(),
    ));
}

// ---------------------------------------------------------------------------
// Pictures
// ---------------------------------------------------------------------------

/// The height above which no picture is shown.
pub const MAX_IMAGE_HEIGHT: i32 = 340;

/// The size of a picture on the screen and the space to the left and right of it.
#[derive(Clone, Copy, Debug, PartialEq, Eq, Structural)]
pub struct ImageLayout {
    pub width: i32,
    pub height: i32,
    pub margin: i32,
}

/// The width and height at which a picture is shown, before either is raised to one: at most
/// [`MAX_IMAGE_HEIGHT`] high and at most `usable` wide, in its own proportions.
pub open spec fn image_fit(usable: int, width: int, height: int) -> (int, int) {
    let h = at_most(height, MAX_IMAGE_HEIGHT as int);
    let w = width * h / height;
    if w > usable {
        (usable, height * usable / width)
    } else {
        (w, h)
    }
}

/// How a picture of this size is shown in a column of this width; nothing where the column or
/// the picture has no extent.
pub fn image_layout(usable: i32, width: i32, height: i32) -> (r: Option<ImageLayout>)
    ensures
        r is Some <==> usable > 0 && width > 0 && height > 0,
        r matches Some(l) ==> {
            let (w, h) = image_fit(usable as int, width as int, height as int);
            &&& l.width == if w > 1 { w } else { 1 }
            &&& l.height == if h > 1 { h } else { 1 }
            &&& l.margin == (usable - w) / 2
            &&& l.width <= usable
            &&& l.height <= MAX_IMAGE_HEIGHT
        },
{
    if usable <= 0 || width <= 0 || height <= 0 {
        return None;
    }
    let mut target_h: i32 = if height < MAX_IMAGE_HEIGHT {
        height
    } else {
        MAX_IMAGE_HEIGHT
    };
    proof {
        lemma_scaled(width as int, target_h as int, height as int);
    }
    let scaled: i64 = width as i64 * target_h as i64 / height as i64;
    let mut target_w: i32 = scaled as i32;
    if target_w > usable {
        target_w = usable;
        proof {
            lemma_scaled(height as int, usable as int, width as int);
            lemma_narrower(usable as int, width as int, height as int, target_h as int);
        }
        target_h = (height as i64 * target_w as i64 / width as i64) as i32;
    }
    let margin: i32 = (usable - target_w) / 2;
    Some(
        ImageLayout {
            width: if target_w > 1 {
                target_w
            } else {
                1
            },
            height: if target_h > 1 {
                target_h
            } else {
                1
            },
            margin,
        },
    )
}

proof fn lemma_scaled(a: int, part: int, whole: int)
    requires
        0 < a <= i32::MAX,
        0 < part <= i32::MAX,
        0 < whole <= i32::MAX,
    ensures
        0 <= a * part <= i64::MAX,
        0 <= a * part / whole,
        part <= whole ==> a * part / whole <= a,
{
    assert(0 <= a * part <= i64::MAX) by (nonlinear_arith)
        requires
            0 < a <= i32::MAX,
            0 < part <= i32::MAX,
    ;
    assert(0 <= a * part / whole) by (nonlinear_arith)
        requires
            0 <= a * part,
            0 < whole,
    ;
    if part <= whole {
        assert(a * part / whole <= a) by (nonlinear_arith)
            requires
                0 < a,
                0 < part <= whole,
        ;
    }
}

proof fn lemma_narrower(usable: int, width: int, height: int, h: int)
    requires
        0 < usable < width * h / height,
        0 < width,
        0 < h <= height,
    ensures
        0 <= height * usable / width <= h,
{
    assert(height * usable <= width * h) by (nonlinear_arith)
        requires
            0 < usable < width * h / height,
            0 < width,
            0 < h <= height,
    ;
    assert(0 <= height * usable / width <= h) by (nonlinear_arith)
        requires
            0 <= height * usable <= width * h,
            0 < width,
            0 < usable,
            0 < h <= height,
    ;
}

} // verus!
