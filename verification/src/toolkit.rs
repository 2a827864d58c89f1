//! Exporting books, and naming what is taken out of them.

use vstd::prelude::*;

use crate::json::{
    array, as_array, as_i64, as_str, as_u64, get_field, jsons_view, number, opt_field, opt_json,
    parse_spans, signed_number, spans_of, string, Json, JsonView,
};
use crate::schema::{ast_view, opt_str, opt_text, spans_view, AstNode, AstView, Span, SpanView};
use crate::text::{
    chars_of, find_last_char, join, join_texts, last_char_pos, push_repeated, push_signed, repeated,
    same_text, signed_decimal, text_of, texts,
};

verus! {

/// A format to export a book to.
#[derive(Debug, Clone, Copy, PartialEq, Eq, Structural)]
pub enum ExportFormat {
    Markdown,
    Json,
    Text,
}

impl ExportFormat {
    /// The name of the format, as it is shown.
    pub fn label(self) -> (r: &'static str)
        ensures
            r@ == (match self {
                ExportFormat::Markdown => "Markdown"@,
                ExportFormat::Json => "JSON"@,
                ExportFormat::Text => "Plain Text"@,
            }),
    {
        match self {
            ExportFormat::Markdown => "Markdown",
            ExportFormat::Json => "JSON",
            ExportFormat::Text => "Plain Text",
        }
    }
}

// ---------------------------------------------------------------------------
// Inline Markdown
// ---------------------------------------------------------------------------

/// The Markdown that opens and closes a span, if there is any.
pub open spec fn span_marks(s: SpanView) -> Option<(Seq<char>, Seq<char>)> {
    if s.span_type == "italic"@ {
        Some(("*"@, "*"@))
    } else if s.span_type == "bold"@ {
        Some(("**"@, "**"@))
    } else if s.span_type == "code"@ {
        Some(("`"@, "`"@))
    } else if s.span_type == "strikethrough"@ {
        Some(("~~"@, "~~"@))
    } else if s.span_type == "link"@ {
        match s.href {
            Some(h) => Some(("["@, "]("@ + h + ")"@)),
            None => None,
        }
    } else {
        None
    }
}

/// The mark with which one span closes, or opens, in front of the character at `p` of a text of
/// length `len`.
pub open spec fn mark_at(s: SpanView, len: int, p: int, closing: bool) -> Seq<char> {
    match span_marks(s) {
        Some(marks) => if !(s.start < s.end <= len) {
            Seq::empty()
        } else if closing && s.end == p {
            marks.1
        } else if !closing && s.start == p {
            marks.0
        } else {
            Seq::empty()
        },
        None => Seq::empty(),
    }
}

/// The marks with which the first `n` spans close, or open, in front of the character at `p`,
/// each after the one before it.
pub open spec fn marks_of(
    spans: Seq<SpanView>,
    len: int,
    p: int,
    closing: bool,
    n: int,
) -> Seq<char>
    decreases n,
{
    if n <= 0 {
        Seq::empty()
    } else {
        marks_of(spans, len, p, closing, n - 1) + mark_at(spans[n - 1], len, p, closing)
    }
}

/// The marks in front of the character at `p`: first of the spans that close there, then of
/// those that open.
pub open spec fn marks_at(spans: Seq<SpanView>, len: int, p: int) -> Seq<char> {
    marks_of(spans, len, p, true, spans.len() as int) + marks_of(
        spans,
        len,
        p,
        false,
        spans.len() as int,
    )
}

/// The first `n` characters of a text, each with the marks in front of it.
pub open spec fn marked(text: Seq<char>, spans: Seq<SpanView>, n: int) -> Seq<char>
    decreases n,
{
    if n <= 0 {
        Seq::empty()
    } else {
        (marked(text, spans, n - 1) + marks_at(spans, text.len() as int, n - 1)).push(text[n - 1])
    }
}

/// A text with the Markdown of its spans.
pub open spec fn markdown(text: Seq<char>, spans: Seq<SpanView>) -> Seq<char> {
    marked(text, spans, text.len() as int) + marks_at(
        spans,
        text.len() as int,
        text.len() as int,
    )
}

proof fn lemma_marked_without_spans(text: Seq<char>, n: int)
    requires
        0 <= n <= text.len(),
    ensures
        marked(text, Seq::empty(), n) == text.take(n),
    decreases n,
{
    if n > 0 {
        lemma_marked_without_spans(text, n - 1);
    }
    assert(marked(text, Seq::empty(), n) =~= text.take(n));
}

/// A text without spans is its own Markdown.
pub proof fn plain_text_is_its_own_markdown(text: Seq<char>)
    ensures
        markdown(text, Seq::empty()) == text,
{
    lemma_marked_without_spans(text, text.len() as int);
    assert(markdown(text, Seq::empty()) =~= text);
}

/// Appends the mark with which a span closes, or opens, in front of the character at `p`.
fn push_mark(out: &mut String, s: &Span, len: usize, p: usize, closing: bool)
    ensures
        final(out)@ == old(out)@ + mark_at(s@, len as int, p as int, closing),
{
    let ghost before = out@;
    assert(before + Seq::<char>::empty() =~= before);
    let place: usize = if closing { s.end } else { s.start };
    if !(s.start < s.end && s.end <= len) || place != p {
        return ;
    }
    let kind = s.span_type.as_str();
    if same_text(kind, "italic") {
        out.append("*");
    } else if same_text(kind, "bold") {
        out.append("**");
    } else if same_text(kind, "code") {
        out.append("`");
    } else if same_text(kind, "strikethrough") {
        out.append("~~");
    } else if same_text(kind, "link") {
        if let Some(h) = &s.href {
            if closing {
                out.append("](");
                out.append(h.as_str());
                out.append(")");
                assert(out@ =~= before + ("]("@ + h@ + ")"@));
            } else {
                out.append("[");
            }
        }
    }
}

/// Appends the marks with which spans close, or open, in front of the character at `p`.
fn push_marks(out: &mut String, spans: &Vec<Span>, len: usize, p: usize, closing: bool)
    ensures
        final(out)@ == old(out)@ + marks_of(
            spans_view(spans@),
            len as int,
            p as int,
            closing,
            spans@.len() as int,
        ),
{
    let ghost before = out@;
    let ghost all = spans_view(spans@);
    let mut k: usize = 0;
    assert(before + Seq::<char>::empty() =~= before);
    while k < spans.len()
        invariant
            k <= spans@.len(),
            all == spans_view(spans@),
            out@ == before + marks_of(all, len as int, p as int, closing, k as int),
        decreases spans@.len() - k,
    {
        assert(all[k as int] == spans@[k as int]@);
        push_mark(out, &spans[k], len, p, closing);
        k += 1;
        assert(out@ =~= before + marks_of(all, len as int, p as int, closing, k as int));
    }
}

/// A text with the Markdown of its spans.
pub fn format_markdown_spans(text: &str, spans: &Vec<Span>) -> (r: String)
    ensures
        r@ == markdown(text@, spans_view(spans@)),
{
    let v = chars_of(text);
    let n: usize = v.len();
    let ghost all = spans_view(spans@);
    let mut out = String::new();
    let mut p: usize = 0;
    while p < n
        invariant
            v@ == text@,
            n == v@.len(),
            p <= n,
            all == spans_view(spans@),
            out@ == marked(text@, all, p as int),
        decreases n - p,
    {
        let ghost before = out@;
        push_marks(&mut out, spans, n, p, true);
        push_marks(&mut out, spans, n, p, false);
        assert(out@ =~= before + marks_at(all, n as int, p as int));
        out.push(v[p]);
        p += 1;
    }
    let ghost before = out@;
    push_marks(&mut out, spans, n, n, true);
    push_marks(&mut out, spans, n, n, false);
    assert(out@ =~= before + marks_at(all, n as int, n as int));
    out
}

// ---------------------------------------------------------------------------
// Whole books
// ---------------------------------------------------------------------------

/// The texts of the first `n` nodes, an empty line after each.
pub open spec fn plain_text(nodes: Seq<AstView>, n: int) -> Seq<char>
    decreases n,
{
    if n <= 0 {
        Seq::empty()
    } else {
        plain_text(nodes, n - 1) + (match nodes[n - 1].content {
            Some(t) => t + "\n\n"@,
            None => Seq::empty(),
        })
    }
}

/// The level of a heading, between one and six.
pub open spec fn heading_depth(attributes: Option<JsonView>) -> nat {
    let level = match number(opt_field(attributes, "level"@)) {
        Some(n) => n,
        None => 1,
    };
    if level < 1 {
        1
    } else if level > 6 {
        6
    } else {
        level as nat
    }
}

/// The text of a cell; empty where it is none.
pub open spec fn cell(j: JsonView) -> Seq<char> {
    match j {
        JsonView::Text(t) => t,
        _ => Seq::empty(),
    }
}

/// The lines of the first `n` rows of a table, a rule below the first.
pub open spec fn table_lines(rows: Seq<JsonView>, n: int) -> Seq<char>
    decreases n,
{
    if n <= 0 {
        Seq::empty()
    } else {
        let before = table_lines(rows, n - 1);
        match rows[n - 1] {
            JsonView::Array(cols) => {
                let line = before + "| "@ + join(cols.map_values(|c: JsonView| cell(c)), " | "@)
                    + " |\n"@;
                if n == 1 {
                    line + "| "@ + join(cols.map_values(|c: JsonView| "---"@), " | "@) + " |\n"@
                } else {
                    line
                }
            },
            _ => before,
        }
    }
}

/// An optional text, or nothing.
pub open spec fn text_of_option(t: Option<Seq<char>>) -> Seq<char> {
    match t {
        Some(t) => t,
        None => Seq::empty(),
    }
}

/// A node as Markdown.
pub open spec fn node_markdown(n: AstView) -> Seq<char> {
    if n.parent_id is Some && n.node_type == "footnote"@ {
        Seq::empty()
    } else if n.node_type == "heading"@ {
        repeated("#"@, heading_depth(n.attributes)) + " "@ + text_of_option(n.content) + "\n\n"@
    } else if n.node_type == "thematic_break"@ {
        "\n---\n\n"@
    } else if n.node_type == "image"@ {
        let asset = match signed_number(opt_field(n.attributes, "asset_id"@)) {
            Some(id) => id,
            None => 0,
        };
        "!["@ + text_of_option(string(opt_field(n.attributes, "alt"@))) + "](asset:"@
            + signed_decimal(asset) + ")\n\n"@
    } else if n.node_type == "blockquote"@ {
        match n.content {
            Some(t) => "> "@ + t + "\n\n"@,
            None => Seq::empty(),
        }
    } else if n.node_type == "list"@ {
        match n.content {
            Some(t) => "- "@ + t + "\n\n"@,
            None => Seq::empty(),
        }
    } else if n.node_type == "table"@ {
        match array(opt_field(n.attributes, "rows"@)) {
            Some(rows) => table_lines(rows, rows.len() as int) + "\n"@,
            None => Seq::empty(),
        }
    } else if n.node_type == "paragraph"@ {
        match n.content {
            Some(t) => markdown(t, spans_of(n.attributes)) + "\n\n"@,
            None => Seq::empty(),
        }
    } else if n.node_type == "verse_line"@ {
        match n.content {
            Some(t) => markdown(t, spans_of(n.attributes)) + "\n"@,
            None => Seq::empty(),
        }
    } else {
        match n.content {
            Some(t) => t + "\n\n"@,
            None => Seq::empty(),
        }
    }
}

/// The first `n` nodes as Markdown.
pub open spec fn nodes_markdown(nodes: Seq<AstView>, n: int) -> Seq<char>
    decreases n,
{
    if n <= 0 {
        Seq::empty()
    } else {
        nodes_markdown(nodes, n - 1) + node_markdown(nodes[n - 1])
    }
}

/// The head of a book in Markdown.
pub open spec fn markdown_head(title: Option<Seq<char>>, author: Option<Seq<char>>) -> Seq<char> {
    match title {
        Some(t) => "# "@ + t + "\n"@ + (match author {
            Some(a) => "*by "@ + a + "*\n\n---\n\n"@,
            None => Seq::empty(),
        }),
        None => Seq::empty(),
    }
}

/// The nodes of a book as plain text.
pub fn export_text(nodes: &Vec<AstNode>) -> (r: String)
    ensures
        r@ == plain_text(ast_view(nodes@), nodes@.len() as int),
{
    let ghost all = ast_view(nodes@);
    let mut out = String::new();
    let mut k: usize = 0;
    while k < nodes.len()
        invariant
            k <= nodes@.len(),
            all == ast_view(nodes@),
            out@ == plain_text(all, k as int),
        decreases nodes@.len() - k,
    {
        assert(all[k as int] == nodes@[k as int]@);
        let ghost before = out@;
        match &nodes[k].content {
            Some(t) => {
                out.append(t.as_str());
                out.append("\n\n");
                assert(out@ =~= before + (t@ + "\n\n"@));
            },
            None => {
                assert(before + Seq::<char>::empty() =~= before);
            },
        }
        k += 1;
    }
    out
}

fn attributes_of(n: &AstNode) -> (r: Option<&Json>)
    ensures
        opt_json(r) == n@.attributes,
{
    match &n.attributes {
        Some(j) => Some(j),
        None => None,
    }
}

fn push_heading(out: &mut String, n: &AstNode)
    ensures
        final(out)@ == old(out)@ + (repeated("#"@, heading_depth(n@.attributes)) + " "@
            + text_of_option(n@.content) + "\n\n"@),
{
    let ghost before = out@;
    let level: u64 = match as_u64(get_field(attributes_of(n), "level")) {
        Some(l) => l,
        None => 1,
    };
    let depth: usize = if level < 1 {
        1
    } else if level > 6 {
        6
    } else {
        level as usize
    };
    push_repeated(out, "#", depth);
    out.append(" ");
    match &n.content {
        Some(t) => out.append(t.as_str()),
        None => {},
    }
    out.append("\n\n");
    assert(out@ =~= before + (repeated("#"@, heading_depth(n@.attributes)) + " "@ + text_of_option(
        n@.content,
    ) + "\n\n"@));
}

fn push_image(out: &mut String, n: &AstNode)
    requires
        n@.node_type == "image"@,
    ensures
        final(out)@ == old(out)@ + node_markdown(n@),
{
    let ghost before = out@;
    proof {
        reveal_strlit("image");
        reveal_strlit("footnote");
        reveal_strlit("heading");
        reveal_strlit("thematic_break");
        assert("image"@.len() == 5);
        assert("footnote"@.len() == 8 && "heading"@.len() == 7 && "thematic_break"@.len() == 14);
    }
    let asset: i64 = match as_i64(get_field(attributes_of(n), "asset_id")) {
        Some(id) => id,
        None => 0,
    };
    out.append("![");
    match as_str(get_field(attributes_of(n), "alt")) {
        Some(t) => out.append(t),
        None => {},
    }
    out.append("](asset:");
    push_signed(out, asset);
    out.append(")\n\n");
    assert(out@ =~= before + node_markdown(n@));
}

fn push_wrapped(out: &mut String, open: &str, text: &Option<String>, close: &str)
    ensures
        final(out)@ == old(out)@ + (match opt_text(*text) {
            Some(t) => open@ + t + close@,
            None => Seq::empty(),
        }),
{
    let ghost before = out@;
    match text {
        Some(t) => {
            out.append(open);
            out.append(t.as_str());
            out.append(close);
            assert(out@ =~= before + (open@ + t@ + close@));
        },
        None => {
            assert(before + Seq::<char>::empty() =~= before);
        },
    }
}

fn push_table(out: &mut String, rows: &Vec<Json>)
    ensures
        final(out)@ == old(out)@ + table_lines(jsons_view(rows@), rows@.len() as int),
{
    let ghost before = out@;
    let ghost all = jsons_view(rows@);
    let mut k: usize = 0;
    assert(before + Seq::<char>::empty() =~= before);
    while k < rows.len()
        invariant
            k <= rows@.len(),
            all == jsons_view(rows@),
            out@ == before + table_lines(all, k as int),
        decreases rows@.len() - k,
    {
        assert(all[k as int] == rows@[k as int]@);
        if let Some(cols) = as_array(Some(&rows[k])) {
            let ghost views = jsons_view(cols@);
            let ghost cells = views.map_values(|c: JsonView| cell(c));
            let ghost rules = views.map_values(|c: JsonView| "---"@);
            let mut texts_out: Vec<String> = Vec::new();
            let mut rules_out: Vec<String> = Vec::new();
            let mut c: usize = 0;
            while c < cols.len()
                invariant
                    c <= cols@.len(),
                    views == jsons_view(cols@),
                    cells == views.map_values(|c: JsonView| cell(c)),
                    rules == views.map_values(|c: JsonView| "---"@),
                    texts(texts_out@) =~= cells.take(c as int),
                    texts(rules_out@) =~= rules.take(c as int),
                decreases cols@.len() - c,
            {
                let text = match as_str(Some(&cols[c])) {
                    Some(t) => t.to_owned(),
                    None => String::new(),
                };
                assert(views[c as int] == cols@[c as int]@);
                assert(text@ =~= cells[c as int]);
                let ghost texts_before = texts_out@;
                let ghost rules_before = rules_out@;
                let rule = "---".to_owned();
                texts_out.push(text);
                rules_out.push(rule);
                c += 1;
                assert(texts(texts_out@) =~= texts(texts_before).push(text@));
                assert(texts(rules_out@) =~= texts(rules_before).push(rule@));
                assert(cells.take(c as int) =~= cells.take(c - 1).push(cells[c - 1]));
                assert(rules.take(c as int) =~= rules.take(c - 1).push(rules[c - 1]));
            }
            assert(cells.take(c as int) =~= cells);
            assert(rules.take(c as int) =~= rules);
            out.append("| ");
            out.append(join_texts(&texts_out, " | ").as_str());
            out.append(" |\n");
            if k == 0 {
                out.append("| ");
                out.append(join_texts(&rules_out, " | ").as_str());
                out.append(" |\n");
            }
        }
        k += 1;
        assert(out@ =~= before + table_lines(all, k as int));
    }
}

fn push_node(out: &mut String, n: &AstNode)
    ensures
        final(out)@ == old(out)@ + node_markdown(n@),
{
    let ghost before = out@;
    assert(before + Seq::<char>::empty() =~= before);
    let kind = n.node_type.as_str();
    if n.parent_id.is_some() && same_text(kind, "footnote") {
    } else if same_text(kind, "heading") {
        push_heading(out, n);
    } else if same_text(kind, "thematic_break") {
        out.append("\n---\n\n");
    } else if same_text(kind, "image") {
        push_image(out, n);
    } else if same_text(kind, "blockquote") {
        push_wrapped(out, "> ", &n.content, "\n\n");
    } else if same_text(kind, "list") {
        push_wrapped(out, "- ", &n.content, "\n\n");
    } else if same_text(kind, "table") {
        if let Some(rows) = as_array(get_field(attributes_of(n), "rows")) {
            push_table(out, rows);
            out.append("\n");
            assert(out@ =~= before + node_markdown(n@));
        }
    } else if same_text(kind, "paragraph") || same_text(kind, "verse_line") {
        if let Some(t) = &n.content {
            let spans = parse_spans(attributes_of(n));
            out.append(format_markdown_spans(t.as_str(), &spans).as_str());
            if same_text(kind, "verse_line") {
                out.append("\n");
                proof {
                    reveal_strlit("verse_line");
                    reveal_strlit("paragraph");
                    assert("verse_line"@.len() != "paragraph"@.len());
                }
            } else {
                out.append("\n\n");
            }
            assert(out@ =~= before + node_markdown(n@));
        }
    } else {
        if let Some(t) = &n.content {
            out.append(t.as_str());
            out.append("\n\n");
            assert(out@ =~= before + node_markdown(n@));
        }
    }
}

/// The nodes of a book as Markdown, under its title and author.
pub fn export_markdown(
    title: Option<&str>,
    author: Option<&str>,
    nodes: &Vec<AstNode>,
) -> (r: String)
    ensures
        r@ == markdown_head(opt_str(title), opt_str(author)) + nodes_markdown(
            ast_view(nodes@),
            nodes@.len() as int,
        ),
{
    let ghost all = ast_view(nodes@);
    let ghost head = markdown_head(opt_str(title), opt_str(author));
    let mut out = String::new();
    if let Some(t) = title {
        out.append("# ");
        out.append(t);
        out.append("\n");
        if let Some(a) = author {
            out.append("*by ");
            out.append(a);
            out.append("*\n\n---\n\n");
        }
    }
    assert(out@ =~= head);
    let mut k: usize = 0;
    assert(head + Seq::<char>::empty() =~= head);
    while k < nodes.len()
        invariant
            k <= nodes@.len(),
            all == ast_view(nodes@),
            out@ == head + nodes_markdown(all, k as int),
        decreases nodes@.len() - k,
    {
        assert(all[k as int] == nodes@[k as int]@);
        push_node(&mut out, &nodes[k]);
        k += 1;
        assert(out@ =~= head + nodes_markdown(all, k as int));
    }
    out
}

// ---------------------------------------------------------------------------
// Assets
// ---------------------------------------------------------------------------

/// The file extension for a cover of this media type.
pub open spec fn cover_extension_of(mime_type: Seq<char>) -> Seq<char> {
    if mime_type == "image/png"@ {
        "png"@
    } else if mime_type == "image/webp"@ {
        "webp"@
    } else if mime_type == "image/svg+xml"@ {
        "svg"@
    } else {
        "jpg"@
    }
}

/// The file extension for an asset of this media type.
pub open spec fn asset_extension_of(mime_type: Seq<char>) -> Seq<char> {
    if mime_type == "image/gif"@ {
        "gif"@
    } else if mime_type == "audio/mpeg"@ {
        "mp3"@
    } else if mime_type == "audio/wav"@ {
        "wav"@
    } else {
        cover_extension_of(mime_type)
    }
}

/// The number of bytes that a character takes in UTF-8.
pub open spec fn utf8_width(c: char) -> int {
    if (c as int) < 0x80 {
        1
    } else if (c as int) < 0x800 {
        2
    } else if (c as int) < 0x10000 {
        3
    } else {
        4
    }
}

/// The characters at the front of a text that fit into `n` bytes of UTF-8.
pub open spec fn first_bytes(s: Seq<char>, n: int) -> Seq<char>
    decreases s.len(),
{
    if s.len() == 0 || utf8_width(s[0]) > n {
        Seq::empty()
    } else {
        seq![s[0]] + first_bytes(s.drop_first(), n - utf8_width(s[0]))
    }
}

fn width_of(c: char) -> (r: usize)
    ensures
        r == utf8_width(c),
{
    let code: u32 = c as u32;
    if code < 0x80 {
        1
    } else if code < 0x800 {
        2
    } else if code < 0x10000 {
        3
    } else {
        4
    }
}

/// The characters at the front of a text that fit into `n` bytes of UTF-8.
pub fn shorten(s: &str, n: usize) -> (r: String)
    ensures
        r@ == first_bytes(s@, n as int),
{
    let v = chars_of(s);
    let mut left: usize = n;
    let mut k: usize = 0;
    assert(v@.skip(0) =~= v@);
    assert(v@.subrange(0, 0) + first_bytes(v@, n as int) =~= first_bytes(v@, n as int));
    while k < v.len()
        invariant_except_break
            k <= v@.len(),
            v@ == s@,
            v@.subrange(0, k as int) + first_bytes(v@.skip(k as int), left as int) == first_bytes(s@, n as int),
        ensures
            k <= v@.len(),
            v@.subrange(0, k as int) == first_bytes(s@, n as int),
        decreases v@.len() - k,
    {
        let width: usize = width_of(v[k]);
        let ghost rest = v@.skip(k as int);
        assert(rest[0] == v@[k as int]);
        if width > left {
            assert(first_bytes(rest, left as int) =~= Seq::<char>::empty());
            assert(v@.subrange(0, k as int) + Seq::<char>::empty() =~= v@.subrange(0, k as int));
            break;
        }
        left -= width;
        k += 1;
        assert(rest.drop_first() =~= v@.skip(k as int));
        assert(v@.subrange(0, k as int) + first_bytes(v@.skip(k as int), left as int) =~= v@.subrange(0, k - 1) + (
        seq![rest[0]] + first_bytes(v@.skip(k as int), left as int)));
        if k == v.len() {
            assert(first_bytes(v@.skip(k as int), left as int) =~= Seq::<char>::empty());
            assert(v@.subrange(0, k as int) + Seq::<char>::empty() =~= v@.subrange(0, k as int));
        }
    }
    text_of(&v, 0, k)
}

/// The name of the file that an asset is extracted to.
pub open spec fn asset_name(id: int, hash: Seq<char>, mime_type: Seq<char>) -> Seq<char> {
    "asset_"@ + signed_decimal(id) + "_"@ + first_bytes(hash, 8) + "."@ + asset_extension_of(mime_type)
}

fn cover_extension(mime_type: &str) -> (r: &'static str)
    ensures
        r@ == cover_extension_of(mime_type@),
{
    if same_text(mime_type, "image/png") {
        "png"
    } else if same_text(mime_type, "image/webp") {
        "webp"
    } else if same_text(mime_type, "image/svg+xml") {
        "svg"
    } else {
        "jpg"
    }
}

/// The name of the file that a cover of this media type is extracted to.
pub fn cover_file_name(mime_type: &str) -> (r: String)
    ensures
        r@ == "cover."@ + cover_extension_of(mime_type@),
{
    let mut out = "cover.".to_owned();
    out.append(cover_extension(mime_type));
    out
}

/// The name of the file that an asset is extracted to.
pub fn asset_file_name(id: i64, hash: &str, mime_type: &str) -> (r: String)
    ensures
        r@ == asset_name(id as int, hash@, mime_type@),
{
    let mut out = "asset_".to_owned();
    push_signed(&mut out, id);
    out.append("_");
    out.append(shorten(hash, 8).as_str());
    out.append(".");
    if same_text(mime_type, "image/gif") {
        out.append("gif");
    } else if same_text(mime_type, "audio/mpeg") {
        out.append("mp3");
    } else if same_text(mime_type, "audio/wav") {
        out.append("wav");
    } else {
        out.append(cover_extension(mime_type));
    }
    assert(out@ =~= asset_name(id as int, hash@, mime_type@));
    out
}

/// The stem of a file name: what stands before its last dot, or all of it where there is no dot
/// but one at its front.
pub open spec fn stem_of(name: Seq<char>) -> Seq<char> {
    let dot = last_char_pos(name, '.');
    if dot > 0 {
        name.take(dot)
    } else {
        name
    }
}

/// The name of the file that an EPUB file of this name is compiled into, unless another one is
/// given: its stem, with the extension of book files.
pub fn derive_default_output(file_name: &str) -> (r: String)
    ensures
        r@ == stem_of(file_name@) + ".wld"@,
{
    let v = chars_of(file_name);
    let end: usize = match find_last_char(&v, '.') {
        Some(dot) => if dot > 0 {
            dot
        } else {
            v.len()
        },
        None => v.len(),
    };
    let mut out = text_of(&v, 0, end);
    assert(out@ =~= stem_of(file_name@));
    out.append(".wld");
    out
}

} // verus!
