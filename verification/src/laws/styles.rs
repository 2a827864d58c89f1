//! Every character on the screen is set as the spans of its node say.

use vstd::prelude::*;

use super::children::present;
use super::screen::{item_text, lemma_text_add, lemma_text_one, lemma_types};
use crate::document::{
    active, cuts, document_pieces, lemma_cuts, lemma_runs_len, lemma_runs_text, list_pieces,
    node_pieces, node_start, pieces_text, row_text, runs, runs_are_uniform, span_attrs, styled,
    styled_spans, table_pieces, PieceView, SpanAttrView, Style,
};
use crate::json::{array, is_true, number, opt_field, signed_number, string, JsonView};
use crate::schema::AstView;

verus! {

/// The character at place `p` of these pieces is set in these styles.
pub open spec fn is_set_at(pieces: Seq<PieceView>, p: int, styles: Seq<Style>) -> bool {
    exists|x: int| is_set_by(pieces, x, p, styles)
}

/// Piece `x` holds the character at place `p`, and is set in these styles.
pub open spec fn is_set_by(pieces: Seq<PieceView>, x: int, p: int, styles: Seq<Style>) -> bool {
    &&& 0 <= x < pieces.len()
    &&& pieces_text(pieces.take(x)).len() <= p < pieces_text(pieces.take(x + 1)).len()
    &&& pieces[x] matches PieceView::Run { styles: own, .. } && own == styles
}

proof fn lemma_set_front(a: Seq<PieceView>, b: Seq<PieceView>, p: int, styles: Seq<Style>)
    requires
        is_set_at(a, p, styles),
    ensures
        is_set_at(a + b, p, styles),
{
    let x = choose|x: int| is_set_by(a, x, p, styles);
    let all = a + b;
    assert(all.take(x) =~= a.take(x));
    assert(all.take(x + 1) =~= a.take(x + 1));
    assert(is_set_by(all, x, p, styles));
}

proof fn lemma_set_back(a: Seq<PieceView>, b: Seq<PieceView>, p: int, styles: Seq<Style>)
    requires
        is_set_at(b, p, styles),
    ensures
        is_set_at(a + b, pieces_text(a).len() + p, styles),
{
    let x = choose|x: int| is_set_by(b, x, p, styles);
    let all = a + b;
    let y = a.len() + x;
    assert(all.take(y) =~= a + b.take(x));
    assert(all.take(y + 1) =~= a + b.take(x + 1));
    lemma_text_add(a, b.take(x));
    lemma_text_add(a, b.take(x + 1));
    assert(is_set_by(all, y, pieces_text(a).len() + p, styles));
}

proof fn lemma_between(pts: Seq<int>, p: int, n: int) -> (k: int)
    requires
        0 < n < pts.len(),
        pts[0] <= p < pts[n],
    ensures
        0 <= k < n,
        pts[k] <= p < pts[k + 1],
    decreases n,
{
    if pts[n - 1] <= p {
        n - 1
    } else {
        lemma_between(pts, p, n - 1)
    }
}

proof fn lemma_runs_take(
    content: Seq<char>,
    spans: Seq<SpanAttrView>,
    base: Style,
    pts: Seq<int>,
    k: int,
    n: int,
)
    requires
        0 <= k <= n,
    ensures
        runs(content, spans, base, pts, n).take(k) == runs(content, spans, base, pts, k),
    decreases n,
{
    lemma_runs_len(content, spans, base, pts, n);
    lemma_runs_len(content, spans, base, pts, k);
    if k < n {
        lemma_runs_take(content, spans, base, pts, k, n - 1);
        lemma_runs_len(content, spans, base, pts, n - 1);
        assert(runs(content, spans, base, pts, n).take(k) =~= runs(content, spans, base, pts, n - 1).take(k));
    } else {
        assert(runs(content, spans, base, pts, n).take(k) =~= runs(content, spans, base, pts, k));
    }
}

/// Every character of a text is set in the style of the text and in those of the spans over it.
pub proof fn characters_are_set_as_their_spans_say(
    content: Seq<char>,
    spans: Seq<SpanAttrView>,
    base: Style,
    p: int,
)
    requires
        0 <= p < content.len(),
    ensures
        is_set_at(styled(content, spans, base), p, seq![base] + active(spans, p, spans.len() as int)),
{
    let len = content.len() as int;
    let pts = cuts(len, spans, len + 1);
    lemma_cuts(len, spans, len + 1);
    let n = pts.len() - 1;
    if n == 0 {
        assert(pts[0] == pts.last());
    }
    let k = lemma_between(pts, p, n);
    runs_are_uniform(content, spans, base, k, p);
    lemma_runs_take(content, spans, base, pts, k, n);
    lemma_runs_take(content, spans, base, pts, k + 1, n);
    lemma_runs_text(content, spans, base, pts, k);
    lemma_runs_text(content, spans, base, pts, k + 1);
    lemma_runs_len(content, spans, base, pts, n);
    assert(is_set_by(
        styled(content, spans, base),
        k,
        p,
        seq![base] + active(spans, p, spans.len() as int),
    ));
}

/// The span that an object in the attributes of a node says: where it starts and ends, and its kind.
pub open spec fn span_said(j: JsonView) -> Option<SpanAttrView> {
    if number(j.field("start"@)) is Some && number(j.field("end"@)) is Some && string(j.field("type"@)) is Some {
        Some(
            SpanAttrView {
                start: number(j.field("start"@))->0,
                end: number(j.field("end"@))->0,
                ty: string(j.field("type"@))->0,
            },
        )
    } else {
        None
    }
}

/// All spans that the attributes of a node say count, in order.
pub proof fn all_spans_count(j: Option<JsonView>, items: Seq<JsonView>)
    requires
        array(opt_field(j, "spans"@)) == Some(items),
    ensures
        styled_spans(j) == present(items.map_values(|i: JsonView| span_said(i))),
{
    lemma_all_spans(items, items.len() as int);
    assert(items.take(items.len() as int) =~= items);
}

proof fn lemma_all_spans(items: Seq<JsonView>, n: int)
    requires
        0 <= n <= items.len(),
    ensures
        span_attrs(items, n) == present(items.take(n).map_values(|i: JsonView| span_said(i))),
    decreases n,
{
    reveal(Seq::filter);
    let f = |i: JsonView| span_said(i);
    let all = items.take(n).map_values(f);
    if n > 0 {
        lemma_all_spans(items, n - 1);
        let before = items.take(n - 1).map_values(f);
        assert(all.drop_last() =~= before);
        assert(all.last() == span_said(items[n - 1]));
        if span_said(items[n - 1]) is Some {
            assert(present(all) =~= present(before).push(span_said(items[n - 1])->0));
        }
    } else {
        assert(present(all) =~= Seq::<SpanAttrView>::empty());
    }
}

/// The style of each kind of node.
pub open spec fn base_of(n: AstView) -> Style {
    if n.node_type == "heading"@ {
        match signed_number(opt_field(n.attributes, "level"@)) {
            Some(level) => if level >= 2 {
                Style::Subheading
            } else {
                Style::Heading
            },
            None => Style::Heading,
        }
    } else if n.node_type == "blockquote"@ {
        Style::Blockquote
    } else if n.node_type == "verse_line"@ {
        Style::Verse
    } else {
        Style::Paragraph
    }
}

/// Every character of a node is set on the screen in the style of its kind and in those of the spans
/// over it, where the text of the node stands: behind an empty line if it begins a stanza.
pub proof fn nodes_are_set_as_their_spans_say(n: AstView, t: Seq<char>, p: int)
    requires
        n.content == Some(t),
        0 <= p < t.len(),
        n.node_type == "heading"@ || n.node_type == "paragraph"@ || n.node_type == "blockquote"@ || n.node_type
            == "verse_line"@,
    ensures
        ({
            let spans = styled_spans(n.attributes);
            let shift = if n.node_type == "verse_line"@ && is_true(opt_field(n.attributes, "stanza_start"@)) {
                1int
            } else {
                0
            };
            is_set_at(node_pieces(n), shift + p, seq![base_of(n)] + active(spans, p, spans.len() as int))
        }),
{
    lemma_types();
    super::lines::lemma_newline();
    let spans = styled_spans(n.attributes);
    let base = base_of(n);
    let styles = seq![base] + active(spans, p, spans.len() as int);
    let body = styled(t, spans, base);
    let end = crate::document::newline();
    characters_are_set_as_their_spans_say(t, spans, base, p);
    lemma_text_one(end);
    if n.node_type == "verse_line"@ {
        let above = if is_true(opt_field(n.attributes, "stanza_start"@)) {
            seq![end]
        } else {
            Seq::empty()
        };
        lemma_set_back(above, body, p, styles);
        lemma_set_front(above + body, seq![end], pieces_text(above).len() + p, styles);
        let below = if is_true(opt_field(n.attributes, "verse_end"@)) {
            seq![end]
        } else {
            Seq::empty()
        };
        lemma_set_front(above + body + seq![end], below, pieces_text(above).len() + p, styles);
    } else {
        lemma_set_front(body, seq![end], p, styles);
    }
}

/// Every character of an item is set in the style of lists and in those of the spans over it, behind
/// the number or the bullet of the item.
pub proof fn items_are_set_as_their_spans_say(items: Seq<JsonView>, ordered: bool, k: int, p: int, n: int)
    requires
        0 <= k < n <= items.len(),
        0 <= p < item_text(items[k]).len(),
    ensures
        ({
            let spans = styled_spans(Some(items[k]));
            let front = pieces_text(list_pieces(items, ordered, k)).len() + crate::document::item_prefix(
                ordered,
                k,
            ).len();
            is_set_at(
                list_pieces(items, ordered, n),
                front + p,
                seq![Style::ListItem] + active(spans, p, spans.len() as int),
            )
        }),
    decreases n,
{
    let spans = styled_spans(Some(items[k]));
    let styles = seq![Style::ListItem] + active(spans, p, spans.len() as int);
    let before = list_pieces(items, ordered, n - 1);
    let prefix = PieceView::Run { text: crate::document::item_prefix(ordered, n - 1), styles: seq![Style::ListItem] };
    let body = styled(item_text(items[n - 1]), styled_spans(Some(items[n - 1])), Style::ListItem);
    let end = crate::document::newline();
    let whole = list_pieces(items, ordered, n);
    assert(whole =~= before + (seq![prefix] + body + seq![end]));
    assert(whole =~= before + seq![prefix] + body + seq![end]);
    if k < n - 1 {
        items_are_set_as_their_spans_say(items, ordered, k, p, n - 1);
        let front = pieces_text(list_pieces(items, ordered, k)).len() + crate::document::item_prefix(ordered, k).len();
        lemma_set_front(before, seq![prefix] + body + seq![end], front + p, styles);
    } else {
        characters_are_set_as_their_spans_say(item_text(items[k]), spans, Style::ListItem, p);
        lemma_text_add(before, seq![prefix]);
        lemma_text_one(prefix);
        lemma_set_back(before + seq![prefix], body, p, styles);
        lemma_set_front(
            before + seq![prefix] + body,
            seq![end],
            pieces_text(before + seq![prefix]).len() + p,
            styles,
        );
    }
}

/// Every character of a row of a table is set in the style of tables.
pub proof fn rows_are_set_as_tables(rows: Seq<JsonView>, k: int, p: int, n: int)
    requires
        0 <= k < n <= rows.len(),
        0 <= p < row_text(rows[k]).len(),
    ensures
        is_set_at(table_pieces(rows, n), pieces_text(table_pieces(rows, k)).len() + p, seq![Style::Table]),
    decreases n,
{
    let before = table_pieces(rows, n - 1);
    let row = PieceView::Run { text: row_text(rows[n - 1]), styles: seq![Style::Table] };
    let end = crate::document::newline();
    let whole = table_pieces(rows, n);
    if k < n - 1 {
        rows_are_set_as_tables(rows, k, p, n - 1);
        lemma_set_front(before, seq![row, end], pieces_text(table_pieces(rows, k)).len() + p, seq![Style::Table]);
    } else {
        let x = before.len() as int;
        assert(whole.take(x) =~= before);
        assert(whole.take(x + 1) =~= before + seq![row]);
        lemma_text_add(before, seq![row]);
        lemma_text_one(row);
        assert(is_set_by(whole, x, pieces_text(before).len() + p, seq![Style::Table]));
    }
}

/// The number or the bullet of an item is set in the style of lists.
pub proof fn numbers_are_set_as_lists(items: Seq<JsonView>, ordered: bool, k: int, p: int)
    requires
        0 <= k < items.len(),
        0 <= p < crate::document::item_prefix(ordered, k).len(),
    ensures
        is_set_at(
            list_pieces(items, ordered, k + 1),
            pieces_text(list_pieces(items, ordered, k)).len() + p,
            seq![Style::ListItem],
        ),
{
    let before = list_pieces(items, ordered, k);
    let prefix = PieceView::Run { text: crate::document::item_prefix(ordered, k), styles: seq![Style::ListItem] };
    let whole = list_pieces(items, ordered, k + 1);
    let x = before.len() as int;
    assert(whole.take(x) =~= before);
    assert(whole.take(x + 1) =~= before + seq![prefix]);
    lemma_text_add(before, seq![prefix]);
    lemma_text_one(prefix);
    assert(is_set_by(whole, x, pieces_text(before).len() + p, seq![Style::ListItem]));
}

/// What is set in a node is set the same in the book, where the node stands.
pub proof fn books_set_their_nodes(nodes: Seq<AstView>, k: int, p: int, styles: Seq<Style>, n: int)
    requires
        0 <= k < n <= nodes.len(),
        is_set_at(node_pieces(nodes[k]), p, styles),
    ensures
        is_set_at(document_pieces(nodes, n), node_start(nodes, k) + p, styles),
    decreases n,
{
    if k < n - 1 {
        books_set_their_nodes(nodes, k, p, styles, n - 1);
        lemma_set_front(
            document_pieces(nodes, n - 1),
            node_pieces(nodes[n - 1]),
            node_start(nodes, k) + p,
            styles,
        );
    } else {
        lemma_set_back(document_pieces(nodes, k), node_pieces(nodes[k]), p, styles);
    }
}

} // verus!
