//! All of a book stands on the screen, as it is to be set.

use vstd::prelude::*;

use super::lines::{closed, lemma_newline, lines_are_closed_one_by_one};
use super::export::cells_of;
use crate::document::{
    active, document_pieces, document_text, heading_style, list_pieces, node_pieces, node_start,
    piece_text, pieces_text, runs, runs_keep_the_text, styled, styled_spans, table_pieces,
    PieceView, SpanAttrView, Style,
};
use crate::json::{array, is_true, opt_field, signed_number, string, JsonView};
use crate::schema::AstView;
use crate::text::{decimal, join, joined_parts_split_again, split_on};

verus! {

pub(crate) proof fn lemma_text_add(a: Seq<PieceView>, b: Seq<PieceView>)
    ensures
        pieces_text(a + b) == pieces_text(a) + pieces_text(b),
    decreases b.len(),
{
    if b.len() == 0 {
        assert(a + b =~= a);
        assert(pieces_text(a) + pieces_text(b) =~= pieces_text(a));
    } else {
        assert((a + b).drop_last() =~= a + b.drop_last());
        assert((a + b).last() == b.last());
        lemma_text_add(a, b.drop_last());
        assert(pieces_text(a + b) =~= pieces_text(a) + pieces_text(b));
    }
}

pub(crate) proof fn lemma_text_one(p: PieceView)
    ensures
        pieces_text(seq![p]) == piece_text(p),
        pieces_text(Seq::empty()) == Seq::<char>::empty(),
{
    assert(seq![p].drop_last() =~= Seq::<PieceView>::empty());
    assert(pieces_text(Seq::<PieceView>::empty()) =~= Seq::<char>::empty());
    assert(pieces_text(seq![p]) =~= piece_text(p));
}

pub(crate) proof fn lemma_types()
    ensures
        "heading"@.len() == 7,
        "thematic_break"@.len() == 14,
        "image"@.len() == 5 && "image"@[0] == 'i',
        "blockquote"@.len() == 10 && "blockquote"@[0] == 'b',
        "list"@.len() == 4,
        "table"@.len() == 5 && "table"@[0] == 't',
        "paragraph"@.len() == 9,
        "verse_line"@.len() == 10 && "verse_line"@[0] == 'v',
{
    reveal_strlit("heading");
    reveal_strlit("thematic_break");
    reveal_strlit("image");
    reveal_strlit("blockquote");
    reveal_strlit("list");
    reveal_strlit("table");
    reveal_strlit("paragraph");
    reveal_strlit("verse_line");
}

// ---------------------------------------------------------------------------
// Lists and tables
// ---------------------------------------------------------------------------

/// The text of a list item, where it has one.
pub open spec fn item_text(item: JsonView) -> Seq<char> {
    match string(item.field("text"@)) {
        Some(t) => t,
        None => Seq::empty(),
    }
}

/// The line of the item at place `k`: its number or a bullet, and its text.
pub open spec fn item_line(items: Seq<JsonView>, ordered: bool, k: int) -> Seq<char> {
    (if ordered {
        decimal((k + 1) as nat) + ". "@
    } else {
        "\u{2022} "@
    }) + item_text(items[k])
}

proof fn lemma_list(items: Seq<JsonView>, ordered: bool, n: int)
    requires
        0 <= n <= items.len(),
    ensures
        pieces_text(list_pieces(items, ordered, n)) == closed(
            Seq::new(n as nat, |k: int| item_line(items, ordered, k)),
        ),
    decreases n,
{
    let lines = Seq::new(n as nat, |k: int| item_line(items, ordered, k));
    lemma_text_one(PieceView::Separator);
    if n == 0 {
        assert(lines =~= Seq::<Seq<char>>::empty());
        lines_are_closed_one_by_one(lines, Seq::empty());
    } else {
        lemma_list(items, ordered, n - 1);
        let front = Seq::new((n - 1) as nat, |k: int| item_line(items, ordered, k));
        let line = item_line(items, ordered, n - 1);
        assert(lines =~= front.push(line));
        lines_are_closed_one_by_one(front, line);
        let before = list_pieces(items, ordered, n - 1);
        let prefix = PieceView::Run {
            text: crate::document::item_prefix(ordered, n - 1),
            styles: seq![Style::ListItem],
        };
        let body = styled(item_text(items[n - 1]), styled_spans(Some(items[n - 1])), Style::ListItem);
        let end = crate::document::newline();
        lemma_text_add(before, seq![prefix]);
        lemma_text_add(before + seq![prefix], body);
        lemma_text_add(before + seq![prefix] + body, seq![end]);
        lemma_text_one(prefix);
        lemma_text_one(end);
        runs_keep_the_text(item_text(items[n - 1]), styled_spans(Some(items[n - 1])), Style::ListItem);
        assert(pieces_text(list_pieces(items, ordered, n)) =~= closed(front) + line + "\n"@);
    }
}

/// Every item of a list stands on the screen, on a line of its own, in order and behind its number
/// or a bullet; below the last there is an empty line.
pub proof fn lists_show_every_item(n: AstView, items: Seq<JsonView>)
    requires
        n.node_type == "list"@,
        array(opt_field(n.attributes, "items"@)) == Some(items),
    ensures
        ({
            let ordered = is_true(opt_field(n.attributes, "ordered"@));
            let lines = Seq::new(items.len(), |k: int| item_line(items, ordered, k));
            &&& pieces_text(node_pieces(n)) == closed(lines) + "\n"@
            &&& (forall|k: int| 0 <= k < items.len() ==> !(#[trigger] item_text(items[k])).contains('\n'))
                ==> ({
                let shown = split_on(pieces_text(node_pieces(n)), '\n');
                &&& shown.len() == items.len() + 2
                &&& forall|k: int|
                    0 <= k < items.len() ==> #[trigger] shown[k] == item_line(items, ordered, k)
            })
        }),
{
    lemma_types();
    lemma_newline();
    let ordered = is_true(opt_field(n.attributes, "ordered"@));
    let lines = Seq::new(items.len(), |k: int| item_line(items, ordered, k));
    lemma_list(items, ordered, items.len() as int);
    let end = crate::document::newline();
    let pieces = list_pieces(items, ordered, items.len() as int);
    lemma_text_add(pieces, seq![end]);
    lemma_text_one(end);
    assert(pieces_text(node_pieces(n)) == closed(lines) + "\n"@);
    if forall|k: int| 0 <= k < items.len() ==> !(#[trigger] item_text(items[k])).contains('\n') {
        let all = lines.push(Seq::empty()).push(Seq::empty());
        assert(all.drop_last() =~= lines.push(Seq::empty()));
        assert(join(all, "\n"@) =~= closed(lines) + "\n"@);
        assert forall|k: int| 0 <= k < all.len() implies !(#[trigger] all[k]).contains('\n') by {
            if k < items.len() {
                lemma_line_is_one(items, ordered, k);
            }
        }
        joined_parts_split_again(all, '\n');
        assert forall|k: int| 0 <= k < items.len() implies #[trigger] split_on(pieces_text(node_pieces(n)), '\n')[k]
            == item_line(items, ordered, k) by {
            assert(all[k] == lines[k]);
        }
    }
}

proof fn lemma_decimal_is_one_line(n: nat)
    ensures
        !decimal(n).contains('\n'),
    decreases n,
{
    if n >= 10 {
        lemma_decimal_is_one_line(n / 10);
        let front = decimal(n / 10);
        assert forall|i: int| 0 <= i < decimal(n).len() implies decimal(n)[i] != '\n' by {
            if i < front.len() {
                assert(decimal(n)[i] == front[i]);
                assert(front.contains(front[i]));
            }
        }
    }
}

proof fn lemma_line_is_one(items: Seq<JsonView>, ordered: bool, k: int)
    requires
        0 <= k,
        !item_text(items[k]).contains('\n'),
    ensures
        !item_line(items, ordered, k).contains('\n'),
{
    reveal_strlit(". ");
    reveal_strlit("\u{2022} ");
    lemma_decimal_is_one_line((k + 1) as nat);
    let prefix = if ordered {
        decimal((k + 1) as nat) + ". "@
    } else {
        "\u{2022} "@
    };
    let line = item_line(items, ordered, k);
    let t = item_text(items[k]);
    assert forall|i: int| 0 <= i < line.len() implies line[i] != '\n' by {
        if i >= prefix.len() {
            assert(line[i] == t[i - prefix.len()]);
            assert(t.contains(t[i - prefix.len()]));
        } else if ordered && i < decimal((k + 1) as nat).len() {
            assert(line[i] == decimal((k + 1) as nat)[i]);
            assert(decimal((k + 1) as nat).contains(line[i]));
        } else if ordered {
            assert(line[i] == ". "@[i - decimal((k + 1) as nat).len()]);
        } else {
            assert(line[i] == "\u{2022} "@[i]);
        }
    }
}

proof fn lemma_table(rows: Seq<JsonView>, n: int)
    requires
        0 <= n <= rows.len(),
    ensures
        pieces_text(table_pieces(rows, n)) == closed(
            Seq::new(n as nat, |k: int| join(cells_of(rows[k]), "  |  "@)),
        ),
    decreases n,
{
    let line_of = |k: int| join(cells_of(rows[k]), "  |  "@);
    let lines = Seq::new(n as nat, line_of);
    lemma_text_one(PieceView::Separator);
    if n == 0 {
        assert(lines =~= Seq::<Seq<char>>::empty());
        lines_are_closed_one_by_one(lines, Seq::empty());
    } else {
        lemma_table(rows, n - 1);
        let front = Seq::new((n - 1) as nat, line_of);
        assert(lines =~= front.push(line_of(n - 1)));
        lines_are_closed_one_by_one(front, line_of(n - 1));
        let before = table_pieces(rows, n - 1);
        let row = PieceView::Run {
            text: crate::document::row_text(rows[n - 1]),
            styles: seq![Style::Table],
        };
        let end = crate::document::newline();
        match rows[n - 1] {
            JsonView::Array(cells) => {
                assert(cells.map_values(|c: JsonView| crate::toolkit::cell(c)) =~= cells_of(rows[n - 1]));
            },
            _ => {
                assert(join(cells_of(rows[n - 1]), "  |  "@) =~= Seq::<char>::empty());
            },
        }
        assert(seq![row, end] =~= seq![row] + seq![end]);
        lemma_text_add(before, seq![row] + seq![end]);
        lemma_text_add(seq![row], seq![end]);
        lemma_text_one(row);
        lemma_text_one(end);
        assert(pieces_text(table_pieces(rows, n)) =~= closed(front) + line_of(n - 1) + "\n"@);
    }
}

/// Every row of a table stands on the screen, on a line of its own, in order and with all its
/// cells; below the last there is an empty line.
pub proof fn tables_show_every_row(n: AstView, rows: Seq<JsonView>)
    requires
        n.node_type == "table"@,
        array(opt_field(n.attributes, "rows"@)) == Some(rows),
    ensures
        pieces_text(node_pieces(n)) == closed(
            Seq::new(rows.len(), |k: int| join(cells_of(rows[k]), "  |  "@)),
        ) + "\n"@,
{
    lemma_types();
    lemma_table(rows, rows.len() as int);
    let end = crate::document::newline();
    lemma_text_add(table_pieces(rows, rows.len() as int), seq![end]);
    lemma_text_one(end);
}

// ---------------------------------------------------------------------------
// Other nodes
// ---------------------------------------------------------------------------

/// The text of a heading, a paragraph, a quotation or a line of verse stands on the screen as it
/// is, on a line of its own; an empty line stands above the first line of a stanza and below the
/// last line of a verse.
pub proof fn texts_stand_on_their_lines(n: AstView, t: Seq<char>)
    requires
        n.content == Some(t),
    ensures
        n.node_type == "heading"@ || n.node_type == "paragraph"@ || n.node_type == "blockquote"@ ==> pieces_text(
            node_pieces(n),
        ) == t + "\n"@,
        n.node_type == "verse_line"@ ==> pieces_text(node_pieces(n)) == (if is_true(
            opt_field(n.attributes, "stanza_start"@),
        ) {
            "\n"@
        } else {
            Seq::empty()
        }) + t + "\n"@ + (if is_true(opt_field(n.attributes, "verse_end"@)) {
            "\n"@
        } else {
            Seq::empty()
        }),
{
    lemma_types();
    let spans = styled_spans(n.attributes);
    let end = crate::document::newline();
    lemma_text_one(end);
    runs_keep_the_text(t, spans, heading_style(n.attributes));
    runs_keep_the_text(t, spans, Style::Paragraph);
    runs_keep_the_text(t, spans, Style::Blockquote);
    runs_keep_the_text(t, spans, Style::Verse);
    lemma_text_add(styled(t, spans, heading_style(n.attributes)), seq![end]);
    lemma_text_add(styled(t, spans, Style::Paragraph), seq![end]);
    lemma_text_add(styled(t, spans, Style::Blockquote), seq![end]);
    if n.node_type == "verse_line"@ {
        let above = if is_true(opt_field(n.attributes, "stanza_start"@)) {
            seq![end]
        } else {
            Seq::empty()
        };
        let below = if is_true(opt_field(n.attributes, "verse_end"@)) {
            seq![end]
        } else {
            Seq::empty()
        };
        let body = styled(t, spans, Style::Verse);
        lemma_text_add(above, body);
        lemma_text_add(above + body, seq![end]);
        lemma_text_add(above + body + seq![end], below);
        assert(node_pieces(n) == above + body + seq![end] + below);
    }
}

/// A picture and a break stand on lines of their own.
pub proof fn pictures_and_breaks_stand_on_their_lines(n: AstView, asset: int)
    ensures
        n.node_type == "image"@ && signed_number(opt_field(n.attributes, "asset_id"@)) == Some(asset)
            ==> node_pieces(n).len() == 2 && node_pieces(n)[0] == (PieceView::Picture { asset_id: asset })
            && piece_text(node_pieces(n)[1]) == "\n"@,
        n.node_type == "thematic_break"@ ==> node_pieces(n).len() == 2 && node_pieces(n)[0] is Separator
            && piece_text(node_pieces(n)[1]) == "\n"@,
{
    lemma_types();
}

/// What stands on the screen between the places at which two nodes start is what the first of them
/// shows: every node of a book, in order, from the first character to the last.
pub proof fn nodes_fill_the_screen(nodes: Seq<AstView>, k: int)
    requires
        0 <= k < nodes.len(),
    ensures
        node_start(nodes, 0) == 0,
        node_start(nodes, nodes.len() as int) == document_text(nodes).len(),
        0 <= node_start(nodes, k) <= node_start(nodes, k + 1) <= document_text(nodes).len(),
        document_text(nodes).subrange(node_start(nodes, k), node_start(nodes, k + 1)) == pieces_text(
            node_pieces(nodes[k]),
        ),
{
    lemma_text_one(PieceView::Separator);
    lemma_text_add(document_pieces(nodes, k), node_pieces(nodes[k]));
    lemma_rest(nodes, k + 1, nodes.len() as int);
    let before = pieces_text(document_pieces(nodes, k));
    let here = pieces_text(node_pieces(nodes[k]));
    let upto = pieces_text(document_pieces(nodes, k + 1));
    assert(upto == before + here);
    let all = document_text(nodes);
    assert(all.subrange(node_start(nodes, k), node_start(nodes, k + 1)) =~= here) by {
        assert forall|i: int| 0 <= i < here.len() implies all[before.len() + i] == here[i] by {
            assert(all.take(upto.len() as int)[before.len() + i] == upto[before.len() + i]);
        }
    }
}

proof fn lemma_rest(nodes: Seq<AstView>, k: int, n: int)
    requires
        0 <= k <= n,
    ensures
        pieces_text(document_pieces(nodes, k)).len() <= pieces_text(document_pieces(nodes, n)).len(),
        pieces_text(document_pieces(nodes, n)).take(pieces_text(document_pieces(nodes, k)).len() as int)
            == pieces_text(document_pieces(nodes, k)),
    decreases n - k,
{
    let part = pieces_text(document_pieces(nodes, k));
    if k < n {
        lemma_rest(nodes, k, n - 1);
        lemma_text_add(document_pieces(nodes, n - 1), node_pieces(nodes[n - 1]));
        let before = pieces_text(document_pieces(nodes, n - 1));
        let all = pieces_text(document_pieces(nodes, n));
        assert(all.take(part.len() as int) =~= before.take(part.len() as int));
    } else {
        assert(part.take(part.len() as int) =~= part);
    }
}

// ---------------------------------------------------------------------------
// Styles
// ---------------------------------------------------------------------------

/// Some of the first `n` spans is of this kind and lies over the character at `p`.
pub open spec fn lies_over(spans: Seq<SpanAttrView>, kind: Seq<char>, p: int, n: int) -> bool {
    exists|k: int| 0 <= k < n && (#[trigger] spans[k]).ty == kind && spans[k].start <= p < spans[k].end
}

/// The character at `p` is bold, italic or dim exactly where a span that says so lies over it, the
/// numbers of stanzas and lines being dim; spans give it no other style.
pub proof fn characters_have_the_styles_of_their_spans(spans: Seq<SpanAttrView>, p: int, n: int)
    requires
        0 <= n <= spans.len(),
    ensures
        active(spans, p, n).contains(Style::Bold) <==> lies_over(spans, "bold"@, p, n),
        active(spans, p, n).contains(Style::Italic) <==> lies_over(spans, "italic"@, p, n),
        active(spans, p, n).contains(Style::Dim) <==> lies_over(spans, "line_number"@, p, n) || lies_over(
            spans,
            "stanza_number"@,
            p,
            n,
        ),
        forall|i: int|
            0 <= i < active(spans, p, n).len() ==> {
                ||| (#[trigger] active(spans, p, n)[i]) == Style::Bold
                ||| active(spans, p, n)[i] == Style::Italic
                ||| active(spans, p, n)[i] == Style::Dim
            },
    decreases n,
{
    reveal_strlit("bold");
    reveal_strlit("italic");
    reveal_strlit("line_number");
    reveal_strlit("stanza_number");
    assert("bold"@.len() == 4 && "italic"@.len() == 6 && "line_number"@.len() == 11 && "stanza_number"@.len() == 13);
    if n > 0 {
        characters_have_the_styles_of_their_spans(spans, p, n - 1);
        let before = active(spans, p, n - 1);
        let now = active(spans, p, n);
        let s = spans[n - 1];
        lemma_lies_over(spans, "bold"@, p, n);
        lemma_lies_over(spans, "italic"@, p, n);
        lemma_lies_over(spans, "line_number"@, p, n);
        lemma_lies_over(spans, "stanza_number"@, p, n);
        lemma_push_contains(before, Style::Bold);
        lemma_push_contains(before, Style::Italic);
        lemma_push_contains(before, Style::Dim);
        assert(now == before || now == before.push(Style::Bold) || now == before.push(Style::Italic) || now
            == before.push(Style::Dim));
    }
}

proof fn lemma_lies_over(spans: Seq<SpanAttrView>, kind: Seq<char>, p: int, n: int)
    requires
        0 < n <= spans.len(),
    ensures
        lies_over(spans, kind, p, n) <==> lies_over(spans, kind, p, n - 1) || (spans[n - 1].ty == kind && spans[n
            - 1].start <= p < spans[n - 1].end),
{
    if lies_over(spans, kind, p, n) {
        let k = choose|k: int| 0 <= k < n && (#[trigger] spans[k]).ty == kind && spans[k].start <= p < spans[k].end;
        assert(k == n - 1 || k < n - 1);
    }
}

proof fn lemma_push_contains(s: Seq<Style>, a: Style)
    ensures
        s.push(a).contains(a),
        forall|b: Style| #[trigger] s.push(a).contains(b) <==> s.contains(b) || b == a,
{
    assert(s.push(a)[s.len() as int] == a);
    assert forall|b: Style| #[trigger] s.push(a).contains(b) <==> s.contains(b) || b == a by {
        if s.contains(b) {
            let i = choose|i: int| 0 <= i < s.len() && s[i] == b;
            assert(s.push(a)[i] == b);
        }
        if s.push(a).contains(b) && b != a {
            let i = choose|i: int| 0 <= i < s.push(a).len() && s.push(a)[i] == b;
            assert(s[i] == b);
        }
    }
}

proof fn lemma_runs_base(
    content: Seq<char>,
    spans: Seq<SpanAttrView>,
    base: Style,
    pts: Seq<int>,
    n: int,
)
    ensures
        forall|x: int|
            0 <= x < runs(content, spans, base, pts, n).len() ==> is_set_in(
                #[trigger] runs(content, spans, base, pts, n)[x],
                base,
            ),
    decreases n,
{
    if n > 0 {
        lemma_runs_base(content, spans, base, pts, n - 1);
        let before = runs(content, spans, base, pts, n - 1);
        let now = runs(content, spans, base, pts, n);
        assert forall|x: int| 0 <= x < now.len() implies is_set_in(#[trigger] now[x], base) by {
            if x < before.len() {
                assert(now[x] == before[x]);
            }
        }
    }
}

/// A run of characters in this style first of all.
pub open spec fn is_set_in(p: PieceView, base: Style) -> bool {
    p matches PieceView::Run { styles, .. } && styles.len() > 0 && styles[0] == base
}

/// The end of a line, which has no style.
pub open spec fn is_line_end(p: PieceView) -> bool {
    p matches PieceView::Run { text, styles } && text == "\n"@ && styles.len() == 0
}

/// Each kind of node is set in its own style: headings of the first level and those below it,
/// paragraphs, quotations and verse.
pub proof fn nodes_are_set_in_their_styles(n: AstView, base: Style, x: int)
    requires
        0 <= x < node_pieces(n).len(),
        n.node_type == "heading"@ && base == (match signed_number(opt_field(n.attributes, "level"@)) {
            Some(level) => if level >= 2 {
                Style::Subheading
            } else {
                Style::Heading
            },
            None => Style::Heading,
        }) || n.node_type == "paragraph"@ && base == Style::Paragraph || n.node_type == "blockquote"@ && base
            == Style::Blockquote || n.node_type == "verse_line"@ && base == Style::Verse,
    ensures
        is_set_in(node_pieces(n)[x], base) || is_line_end(node_pieces(n)[x]),
{
    lemma_types();
    let content = match n.content {
        Some(t) => t,
        None => Seq::empty(),
    };
    let spans = styled_spans(n.attributes);
    let pts = crate::document::cuts(content.len() as int, spans, (content.len() + 1) as int);
    lemma_runs_base(content, spans, base, pts, pts.len() - 1);
}

} // verus!
