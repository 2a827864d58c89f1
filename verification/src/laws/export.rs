//! The Markdown and the plain text of a book hold all that its nodes hold.

use vstd::prelude::*;

use super::lines::{closed, in_a_row, lemma_in_a_row, lines_are_closed_one_by_one};
use crate::json::{array, number, opt_field, signed_number, spans_of, string, JsonView};
use crate::schema::AstView;
use crate::text::{join, repeated, signed_decimal};
use crate::toolkit::{markdown, node_markdown, nodes_markdown, plain_text, table_lines};

verus! {

/// The cells of a row of a table: its texts, and nothing for what is no text.
pub open spec fn cells_of(row: JsonView) -> Seq<Seq<char>> {
    match row {
        JsonView::Array(cols) => Seq::new(
            cols.len(),
            |c: int|
                match cols[c] {
                    JsonView::Text(t) => t,
                    _ => Seq::empty(),
                },
        ),
        _ => Seq::empty(),
    }
}

/// Cells on one line of a table.
pub open spec fn table_line(cells: Seq<Seq<char>>) -> Seq<char> {
    "| "@ + join(cells, " | "@) + " |"@
}

/// The rule below the first line of a table.
pub open spec fn table_rule(columns: nat) -> Seq<char> {
    table_line(Seq::new(columns, |c: int| "---"@))
}

/// The lines of a table: the first row, the rule below it, and every other row in its order.
pub open spec fn lines_of_table(rows: Seq<JsonView>) -> Seq<Seq<char>> {
    Seq::new(
        rows.len() + 1,
        |k: int|
            if k == 0 {
                table_line(cells_of(rows[0]))
            } else if k == 1 {
                table_rule(cells_of(rows[0]).len())
            } else {
                table_line(cells_of(rows[k - 1]))
            },
    )
}

proof fn lemma_table(rows: Seq<JsonView>, n: int)
    requires
        0 < n <= rows.len(),
        forall|k: int| 0 <= k < rows.len() ==> (#[trigger] rows[k]) is Array,
    ensures
        table_lines(rows, n) == closed(lines_of_table(rows).take(n + 1)),
    decreases n,
{
    reveal_strlit(" |");
    reveal_strlit(" |\n");
    reveal_strlit("\n");
    reveal_strlit("| ");
    assert(" |\n"@ =~= " |"@ + "\n"@);
    let lines = lines_of_table(rows);
    assert(rows[n - 1] is Array);
    let cols = rows[n - 1]->Array_0;
    let cells = cells_of(rows[n - 1]);
    assert(cols.map_values(|c: JsonView| crate::toolkit::cell(c)) =~= cells);
    let line = table_line(cells);
    if n == 1 {
        assert(cols.map_values(|c: JsonView| "---"@) =~= Seq::new(cells.len(), |c: int| "---"@));
        assert(table_lines(rows, 0) =~= Seq::<char>::empty());
        let rule = table_rule(cells.len());
        assert(lines.take(2) =~= Seq::<Seq<char>>::empty().push(line).push(rule));
        lines_are_closed_one_by_one(Seq::<Seq<char>>::empty(), line);
        lines_are_closed_one_by_one(Seq::<Seq<char>>::empty().push(line), rule);
        assert(table_lines(rows, 1) =~= closed(lines.take(2)));
    } else {
        lemma_table(rows, n - 1);
        assert(lines.take(n + 1) =~= lines.take(n).push(line));
        lines_are_closed_one_by_one(lines.take(n), line);
        assert(table_lines(rows, n) =~= closed(lines.take(n + 1)));
    }
}

/// A table in Markdown has a line for each of its rows, in order and with all their cells, and a
/// rule below the first.
pub proof fn tables_keep_their_rows(n: AstView, rows: Seq<JsonView>)
    requires
        n.node_type == "table"@,
        array(opt_field(n.attributes, "rows"@)) == Some(rows),
        rows.len() > 0,
        forall|k: int| 0 <= k < rows.len() ==> (#[trigger] rows[k]) is Array,
    ensures
        node_markdown(n) == closed(lines_of_table(rows)) + "\n"@,
{
    lemma_types();
    lemma_table(rows, rows.len() as int);
    assert(lines_of_table(rows).take((rows.len() + 1) as int) =~= lines_of_table(rows));
}

proof fn lemma_types()
    ensures
        "footnote"@.len() == 8,
        "heading"@.len() == 7,
        "thematic_break"@.len() == 14,
        "image"@.len() == 5 && "image"@[0] == 'i',
        "blockquote"@.len() == 10 && "blockquote"@[0] == 'b',
        "list"@.len() == 4,
        "table"@.len() == 5 && "table"@[0] == 't',
        "paragraph"@.len() == 9,
        "verse_line"@.len() == 10 && "verse_line"@[0] == 'v',
{
    reveal_strlit("footnote");
    reveal_strlit("heading");
    reveal_strlit("thematic_break");
    reveal_strlit("image");
    reveal_strlit("blockquote");
    reveal_strlit("list");
    reveal_strlit("table");
    reveal_strlit("paragraph");
    reveal_strlit("verse_line");
}

/// A node holds this text, which is to be found again.
pub open spec fn holds_text(n: AstView, t: Seq<char>) -> bool {
    n.content == Some(t) && !(n.parent_id is Some && n.node_type == "footnote"@) && n.node_type
        != "thematic_break"@ && n.node_type != "image"@ && n.node_type != "table"@
}

/// What a node is in Markdown, by its type: a heading has as many signs as its level, from one to
/// six; a quotation and a list have theirs; a paragraph is set apart by an empty line and a line of
/// verse by the end of its line; both have the marks of their spans. Only notes below another node
/// are left out.
pub proof fn nodes_become_markdown_by_their_types(n: AstView, t: Seq<char>)
    requires
        holds_text(n, t),
    ensures
        n.node_type == "heading"@ ==> {
            let level = match number(opt_field(n.attributes, "level"@)) {
                Some(l) => l,
                None => 1,
            };
            forall|signs: nat|
                1 <= signs <= 6 && (signs == level || level < 1 && signs == 1 || level > 6 && signs == 6)
                    ==> node_markdown(n) == #[trigger] repeated("#"@, signs) + " "@ + t + "\n\n"@
        },
        n.node_type == "blockquote"@ ==> node_markdown(n) == "> "@ + t + "\n\n"@,
        n.node_type == "list"@ ==> node_markdown(n) == "- "@ + t + "\n\n"@,
        n.node_type == "paragraph"@ ==> node_markdown(n) == markdown(t, spans_of(n.attributes)) + "\n\n"@,
        n.node_type == "verse_line"@ ==> node_markdown(n) == markdown(t, spans_of(n.attributes)) + "\n"@,
        n.node_type != "heading"@ && n.node_type != "blockquote"@ && n.node_type != "list"@ && n.node_type
            != "paragraph"@ && n.node_type != "verse_line"@ ==> node_markdown(n) == t + "\n\n"@,
{
    lemma_types();
}

/// A picture refers to its asset and says what it shows; a break is a rule.
pub proof fn pictures_and_breaks_become_markdown(n: AstView, asset: int, alt: Seq<char>)
    ensures
        n.node_type == "image"@ && signed_number(opt_field(n.attributes, "asset_id"@)) == Some(asset) && string(
            opt_field(n.attributes, "alt"@),
        ) == Some(alt) ==> node_markdown(n) == "!["@ + alt + "](asset:"@ + signed_decimal(asset) + ")\n\n"@,
        n.node_type == "thematic_break"@ ==> node_markdown(n) == "\n---\n\n"@,
{
    lemma_types();
}

/// The Markdown of a book is that of its nodes, each of them once and in their order.
pub proof fn books_become_the_markdown_of_their_nodes(nodes: Seq<AstView>, n: int)
    requires
        0 <= n <= nodes.len(),
    ensures
        nodes_markdown(nodes, n) == in_a_row(Seq::new(n as nat, |k: int| node_markdown(nodes[k]))),
    decreases n,
{
    let parts = Seq::new(n as nat, |k: int| node_markdown(nodes[k]));
    if n == 0 {
        assert(parts =~= Seq::<Seq<char>>::empty());
        lemma_in_a_row(parts, Seq::empty());
    } else {
        books_become_the_markdown_of_their_nodes(nodes, n - 1);
        let front = Seq::new((n - 1) as nat, |k: int| node_markdown(nodes[k]));
        assert(parts =~= front.push(node_markdown(nodes[n - 1])));
        lemma_in_a_row(front, node_markdown(nodes[n - 1]));
    }
}

/// The plain text of a book holds the text of every node that has one, in order, with an empty
/// line behind each.
pub proof fn plain_text_holds_every_text(nodes: Seq<AstView>, n: int)
    requires
        0 <= n <= nodes.len(),
    ensures
        plain_text(nodes, n) == in_a_row(
            Seq::new(
                n as nat,
                |k: int|
                    if nodes[k].content is Some {
                        nodes[k].content->0 + "\n\n"@
                    } else {
                        Seq::empty()
                    },
            ),
        ),
    decreases n,
{
    let part = |k: int|
        if nodes[k].content is Some {
            nodes[k].content->0 + "\n\n"@
        } else {
            Seq::empty()
        };
    let parts = Seq::new(n as nat, part);
    if n == 0 {
        assert(parts =~= Seq::<Seq<char>>::empty());
        lemma_in_a_row(parts, Seq::empty());
    } else {
        plain_text_holds_every_text(nodes, n - 1);
        let front = Seq::new((n - 1) as nat, part);
        assert(parts =~= front.push(part(n - 1)));
        lemma_in_a_row(front, part(n - 1));
    }
}

} // verus!
