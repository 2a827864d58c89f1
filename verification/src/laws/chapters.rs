//! A chapter holds every block of its document, in order, with all that stands in it.

use vstd::prelude::*;

use super::extraction::{lies_below, parents_are_nearest_above, subtrees_hold_what_lies_below};
use crate::dom::{
    anchor_of, anchors, ancestor_ids, body, cells_in, chapter, element_at, elements_in, extracted,
    has_ancestor, in_list_item, is_named_ignoring_case, is_verse_end, is_verse_line,
    is_stanza_start, items_in, notes_in, rows_in, sublist_in, verse_line, verse_lines, verse_spans,
    ElementView, FootnoteView, ItemView, VerseLine,
};
use crate::schema::SpanView;
use crate::text::{join, lemma_char_pos, trimmed, words};
use crate::tree::{
    attr, attr_in, is_named, node_end, parent, subtree_end, text_in, texts_in, NodeView, ValueView,
};

verus! {

// ---------------------------------------------------------------------------
// Blocks
// ---------------------------------------------------------------------------

/// Node `k` is an element of this name.
pub open spec fn is_element(d: Seq<NodeView>, k: int, tag: Seq<char>) -> bool {
    d[k].value matches ValueView::Element { name, .. } && name == tag
}

/// Node `k` is a heading of this level.
pub open spec fn is_heading(d: Seq<NodeView>, k: int, level: int) -> bool {
    ||| level == 1 && is_element(d, k, "h1"@)
    ||| level == 2 && is_element(d, k, "h2"@)
    ||| level == 3 && is_element(d, k, "h3"@)
    ||| level == 4 && is_element(d, k, "h4"@)
    ||| level == 5 && is_element(d, k, "h5"@)
    ||| level == 6 && is_element(d, k, "h6"@)
}

/// Node `k` is a block in which others can stand, or that can stand in others.
pub open spec fn is_structure(d: Seq<NodeView>, k: int) -> bool {
    ||| is_element(d, k, "div"@)
    ||| is_element(d, k, "p"@)
    ||| is_element(d, k, "ul"@)
    ||| is_element(d, k, "ol"@)
    ||| is_element(d, k, "table"@)
    ||| is_element(d, k, "blockquote"@)
    ||| exists|level: int| is_heading(d, k, level)
}

/// No block stands below node `k`.
pub open spec fn is_innermost(d: Seq<NodeView>, k: int) -> bool {
    forall|j: int| 0 <= j < d.len() && #[trigger] lies_below(d, k, j) ==> !is_structure(d, j)
}

/// Node `k` lies below the item of a list, no further out than the body.
pub open spec fn lies_in_item(d: Seq<NodeView>, k: int) -> bool {
    exists|m: int|
        0 <= m < k && #[trigger] lies_below(d, m, k) && is_named_ignoring_case(d[m], "li"@) && (forall|q: int|
            m < q < k && #[trigger] lies_below(d, q, k) ==> !is_named_ignoring_case(d[q], "body"@))
}

proof fn lemma_in_item(d: Seq<NodeView>, k: int)
    requires
        0 <= k < d.len(),
    ensures
        in_list_item(d, k) <==> lies_in_item(d, k),
    decreases k,
{
    match parent(d, k) {
        Some(p) => {
            super::extraction::lemma_parent_before(d, k);
            parents_are_nearest_above(d, p, k);
            lemma_in_item(d, p);
            if in_list_item(d, k) {
                if is_named_ignoring_case(d[p], "li"@) {
                    assert(lies_below(d, p, k));
                } else {
                    let m = choose|m: int|
                        0 <= m < p && #[trigger] lies_below(d, m, p) && is_named_ignoring_case(d[m], "li"@) && (
                        forall|q: int| m < q < p && #[trigger] lies_below(d, q, p) ==> !is_named_ignoring_case(
                            d[q],
                            "body"@,
                        ));
                    lemma_below_trans(d, m, p, k);
                    assert forall|q: int| m < q < k && #[trigger] lies_below(d, q, k) implies !is_named_ignoring_case(
                        d[q],
                        "body"@,
                    ) by {
                        if q < p {
                            lemma_below_both(d, q, p, k);
                        } else {
                            assert(q == p);
                        }
                    }
                }
            }
            if lies_in_item(d, k) {
                let m = choose|m: int|
                    0 <= m < k && #[trigger] lies_below(d, m, k) && is_named_ignoring_case(d[m], "li"@) && (
                    forall|q: int| m < q < k && #[trigger] lies_below(d, q, k) ==> !is_named_ignoring_case(
                        d[q],
                        "body"@,
                    ));
                assert(m <= p);
                if m < p {
                    assert(lies_below(d, p, k));
                    lemma_below_both(d, m, p, k);
                    assert forall|q: int| m < q < p && #[trigger] lies_below(d, q, p) implies !is_named_ignoring_case(
                        d[q],
                        "body"@,
                    ) by {
                        lemma_below_trans(d, q, p, k);
                    }
                }
            }
        },
        None => {
            parents_are_nearest_above(d, k, k);
        },
    }
}

proof fn lemma_below_trans(d: Seq<NodeView>, a: int, b: int, c: int)
    requires
        lies_below(d, a, b),
        lies_below(d, b, c),
    ensures
        lies_below(d, a, c),
{
    assert forall|m: int| a < m <= c implies (#[trigger] d[m]).depth > d[a].depth by {
        if m > b {
            assert(d[m].depth > d[b].depth);
            assert(d[b].depth > d[a].depth);
        }
    }
}

/// Of two nodes that a third lies below, the second lies below the first.
proof fn lemma_below_both(d: Seq<NodeView>, a: int, b: int, c: int)
    requires
        a < b < c,
        lies_below(d, a, c),
    ensures
        lies_below(d, a, b),
{
}

proof fn lemma_names()
    ensures
        "img"@.len() == 3,
        "image"@.len() == 5 && "image"@[0] == 'i',
        "hr"@.len() == 2 && "hr"@[1] == 'r',
        "table"@.len() == 5 && "table"@[0] == 't',
        "h1"@.len() == 2 && "h1"@[1] == '1' && "h1"@[0] == 'h',
        "h2"@.len() == 2 && "h2"@[1] == '2' && "h2"@[0] == 'h',
        "h3"@.len() == 2 && "h3"@[1] == '3' && "h3"@[0] == 'h',
        "h4"@.len() == 2 && "h4"@[1] == '4' && "h4"@[0] == 'h',
        "h5"@.len() == 2 && "h5"@[1] == '5' && "h5"@[0] == 'h',
        "h6"@.len() == 2 && "h6"@[1] == '6' && "h6"@[0] == 'h',
        "ul"@.len() == 2 && "ul"@[0] == 'u' && "ul"@[1] == 'l',
        "ol"@.len() == 2 && "ol"@[0] == 'o' && "ol"@[1] == 'l',
        "div"@.len() == 3 && "div"@[0] == 'd' && "img"@[0] == 'i',
        "blockquote"@.len() == 10,
        "p"@.len() == 1,
{
    reveal_strlit("img");
    reveal_strlit("image");
    reveal_strlit("hr");
    reveal_strlit("table");
    reveal_strlit("h1");
    reveal_strlit("h2");
    reveal_strlit("h3");
    reveal_strlit("h4");
    reveal_strlit("h5");
    reveal_strlit("h6");
    reveal_strlit("ul");
    reveal_strlit("ol");
    reveal_strlit("div");
    reveal_strlit("blockquote");
    reveal_strlit("p");
}

/// How many elements of a chapter come from nodes before node `k`.
pub open spec fn elements_before(d: Seq<NodeView>, path: Seq<char>, b: int, k: int) -> int {
    elements_in(d, b + 1, k, path, verse_lines(d, b + 1, subtree_end(d, b))).len() as int
}

/// The element of a chapter that comes from node `k` is this one.
pub open spec fn becomes(d: Seq<NodeView>, path: Seq<char>, b: int, k: int, e: ElementView) -> bool {
    let at = elements_before(d, path, b, k);
    elements_before(d, path, b, k + 1) == at + 1 && at < chapter(d, path).len() && chapter(d, path)[at] == e
}

/// No element of a chapter comes from node `k`.
pub open spec fn becomes_nothing(d: Seq<NodeView>, path: Seq<char>, b: int, k: int) -> bool {
    elements_before(d, path, b, k + 1) == elements_before(d, path, b, k)
}

proof fn lemma_prefix(
    d: Seq<NodeView>,
    lo: int,
    mid: int,
    hi: int,
    path: Seq<char>,
    lines: Seq<VerseLine>,
)
    requires
        lo <= mid <= hi,
    ensures
        elements_in(d, lo, mid, path, lines).len() <= elements_in(d, lo, hi, path, lines).len(),
        elements_in(d, lo, hi, path, lines).take(elements_in(d, lo, mid, path, lines).len() as int)
            == elements_in(d, lo, mid, path, lines),
    decreases hi - mid,
{
    let part = elements_in(d, lo, mid, path, lines);
    if mid < hi {
        lemma_prefix(d, lo, mid, hi - 1, path, lines);
        let before = elements_in(d, lo, hi - 1, path, lines);
        assert(elements_in(d, lo, hi, path, lines).take(part.len() as int) =~= before.take(part.len() as int));
    } else {
        assert(part.take(part.len() as int) =~= part);
    }
}

proof fn lemma_becomes(d: Seq<NodeView>, path: Seq<char>, b: int, k: int)
    requires
        body(d) == Some(b),
        b < k < subtree_end(d, b),
    ensures
        ({
            let lines = verse_lines(d, b + 1, subtree_end(d, b));
            let p = verse_lines(d, b + 1, k).len() as int;
            match element_at(d, k, path, lines, p) {
                Some(e) => becomes(d, path, b, k, e),
                None => becomes_nothing(d, path, b, k),
            }
        }),
{
    let e = subtree_end(d, b);
    let lines = verse_lines(d, b + 1, e);
    lemma_prefix(d, b + 1, k + 1, e, path, lines);
    let upto = elements_in(d, b + 1, k + 1, path, lines);
    let all = chapter(d, path);
    if upto.len() > 0 {
        assert(all.take(upto.len() as int)[upto.len() - 1] == upto[upto.len() - 1]);
    }
}

/// A heading that has text becomes a heading of its level, with that text and its spans.
pub proof fn headings_become_headings(d: Seq<NodeView>, path: Seq<char>, b: int, k: int, level: int)
    requires
        body(d) == Some(b),
        b < k < subtree_end(d, b),
        is_heading(d, k, level),
    ensures
        extracted(d, k, false).text.len() > 0 ==> becomes(
            d,
            path,
            b,
            k,
            (ElementView::Heading {
                level,
                text: extracted(d, k, false).text,
                spans: extracted(d, k, false).spans,
                element_ids: anchors(d, k),
                own_id: anchor_of(d[k]) is Some,
            }),
        ),
        extracted(d, k, false).text.len() == 0 ==> becomes_nothing(d, path, b, k),
{
    lemma_names();
    lemma_becomes(d, path, b, k);
}

/// A break becomes a break; a picture that has an address becomes a picture with what it says.
pub proof fn breaks_and_pictures_become_themselves(
    d: Seq<NodeView>,
    path: Seq<char>,
    b: int,
    k: int,
    src: Seq<char>,
)
    requires
        body(d) == Some(b),
        b < k < subtree_end(d, b),
    ensures
        is_element(d, k, "hr"@) ==> becomes(
            d,
            path,
            b,
            k,
            (ElementView::ThematicBreak { element_ids: anchors(d, k), own_id: anchor_of(d[k]) is Some }),
        ),
        is_element(d, k, "img"@) && attr(d[k], "src"@) == Some(src) ==> becomes(
            d,
            path,
            b,
            k,
            (ElementView::Image {
                src,
                alt: (match attr(d[k], "alt"@) {
                    Some(a) => a,
                    None => Seq::empty(),
                }),
                caption: (match attr(d[k], "title"@) {
                    Some(t) => t,
                    None => Seq::empty(),
                }),
                element_ids: anchors(d, k),
                own_id: anchor_of(d[k]) is Some,
            }),
        ),
{
    lemma_names();
    lemma_becomes(d, path, b, k);
}

proof fn lemma_ancestor(d: Seq<NodeView>, m: int, k: int, tag: Seq<char>)
    requires
        0 <= m < k < d.len(),
        lies_below(d, m, k),
        is_named(d[m], tag),
    ensures
        has_ancestor(d, k, tag),
    decreases k,
{
    parents_are_nearest_above(d, m, k);
    assert(parent(d, k) is Some);
    let p = parent(d, k)->0;
    super::extraction::lemma_parent_before(d, k);
    parents_are_nearest_above(d, p, k);
    if m < p {
        lemma_below_both(d, m, p, k);
        lemma_ancestor(d, m, p, tag);
    } else if m > p {
        assert(!lies_below(d, m, k));
    }
}

/// A picture in a drawing becomes a picture too: its address is its source, or the one that it links
/// to.
pub proof fn pictures_in_drawings_become_pictures(
    d: Seq<NodeView>,
    path: Seq<char>,
    b: int,
    m: int,
    k: int,
    src: Seq<char>,
)
    requires
        body(d) == Some(b),
        b < k < subtree_end(d, b),
        0 <= m < k,
        lies_below(d, m, k),
        is_element(d, m, "svg"@),
        is_element(d, k, "image"@),
        attr(d[k], "src"@) is None,
        attr(d[k], "xlink:href"@) == Some(src) || attr(d[k], "xlink:href"@) is None && attr_in(
            d[k],
            "http://www.w3.org/1999/xlink"@,
            "href"@,
        ) == Some(src) || attr(d[k], "xlink:href"@) is None && attr_in(
            d[k],
            "http://www.w3.org/1999/xlink"@,
            "href"@,
        ) is None && attr(d[k], "href"@) == Some(src),
    ensures
        becomes(
            d,
            path,
            b,
            k,
            (ElementView::Image {
                src,
                alt: (match attr(d[k], "alt"@) {
                    Some(a) => a,
                    None => Seq::empty(),
                }),
                caption: (match attr(d[k], "title"@) {
                    Some(t) => t,
                    None => Seq::empty(),
                }),
                element_ids: anchors(d, k),
                own_id: anchor_of(d[k]) is Some,
            }),
        ),
{
    lemma_names();
    lemma_becomes(d, path, b, k);
    super::extraction::lemma_body_within(d, b);
    lemma_ancestor(d, m, k, "svg"@);
}

/// A table becomes a table with the rows that stand in it.
pub proof fn tables_become_tables(d: Seq<NodeView>, path: Seq<char>, b: int, k: int)
    requires
        body(d) == Some(b),
        b < k < subtree_end(d, b),
        is_element(d, k, "table"@),
    ensures
        ({
            let rows = rows_in(d, k + 1, subtree_end(d, k));
            becomes(
                d,
                path,
                b,
                k,
                (ElementView::Table {
                    text: join(
                        Seq::new(rows.len(), |r: int| join(rows[r], " "@)),
                        " "@,
                    ),
                    rows,
                    source_file: path,
                    element_ids: anchors(d, k),
                    own_id: anchor_of(d[k]) is Some,
                }),
            )
        }),
{
    lemma_names();
    lemma_becomes(d, path, b, k);
    let rows = rows_in(d, k + 1, subtree_end(d, k));
    assert(rows.map_values(|r: Seq<Seq<char>>| join(r, " "@)) =~= Seq::new(rows.len(), |r: int| join(rows[r], " "@)));
}

/// A list that has text, and is not inside the item of another, becomes a list; one inside an
/// item is part of the list around it.
pub proof fn lists_become_lists(d: Seq<NodeView>, path: Seq<char>, b: int, k: int)
    requires
        body(d) == Some(b),
        b < k < subtree_end(d, b),
        is_element(d, k, "ul"@) || is_element(d, k, "ol"@),
    ensures
        k < d.len(),
        lies_in_item(d, k) ==> becomes_nothing(d, path, b, k),
        !lies_in_item(d, k) && extracted(d, k, false).text.len() > 0 ==> becomes(
            d,
            path,
            b,
            k,
            (ElementView::List {
                ordered: is_element(d, k, "ol"@),
                text: extracted(d, k, false).text,
                spans: extracted(d, k, false).spans,
                items: items_in(d, k + 1, subtree_end(d, k)),
                source_file: path,
                element_ids: anchors(d, k),
                own_id: anchor_of(d[k]) is Some,
            }),
        ),
{
    lemma_names();
    lemma_becomes(d, path, b, k);
    super::extraction::lemma_body_within(d, b);
    lemma_in_item(d, k);
}

/// The element is a paragraph of this type from node `k`, with the text, the anchors and the notes
/// of that node.
pub open spec fn is_paragraph_of(
    e: ElementView,
    d: Seq<NodeView>,
    k: int,
    path: Seq<char>,
    kind: Seq<char>,
) -> bool {
    e matches ElementView::Paragraph { node_type, text, source_file, footnotes, element_ids, own_id, .. } && {
        &&& node_type == kind
        &&& text == extracted(d, k, false).text
        &&& source_file == path
        &&& footnotes == notes_in(d, k + 1, subtree_end(d, k))
        &&& element_ids == anchors(d, k)
        &&& own_id == (anchor_of(d[k]) is Some)
    }
}

/// Node `k` becomes a paragraph of this type, whose spans are these.
pub open spec fn becomes_paragraph(
    d: Seq<NodeView>,
    path: Seq<char>,
    b: int,
    k: int,
    kind: Seq<char>,
    marks: Seq<SpanView>,
    stanza: bool,
    end: bool,
) -> bool {
    let at = elements_before(d, path, b, k);
    &&& elements_before(d, path, b, k + 1) == at + 1
    &&& at < chapter(d, path).len()
    &&& is_paragraph_of(chapter(d, path)[at], d, k, path, kind)
    &&& chapter(d, path)[at] matches ElementView::Paragraph { spans, stanza_start, verse_end, .. } && spans
        == marks && stanza_start == stanza && verse_end == end
}

/// A `p`, a `div` in which no other block stands, and such a quotation become paragraphs of their
/// text; a `p` is a line of verse where it stands in a verse.
pub proof fn paragraphs_become_paragraphs(d: Seq<NodeView>, path: Seq<char>, b: int, k: int)
    requires
        body(d) == Some(b),
        b < k < subtree_end(d, b),
        extracted(d, k, false).text.len() > 0,
    ensures
        k < d.len(),
        is_element(d, k, "p"@) ==> {
            let lines = verse_lines(d, b + 1, subtree_end(d, b));
            let p = verse_lines(d, b + 1, k).len() as int;
            &&& 0 <= p < lines.len()
            &&& becomes_paragraph(
                d,
                path,
                b,
                k,
                if is_verse_line(lines, p) {
                    "verse_line"@
                } else {
                    "paragraph"@
                },
                if is_verse_line(lines, p) {
                    verse_spans(extracted(d, k, false))
                } else {
                    extracted(d, k, false).spans
                },
                is_stanza_start(lines, p),
                is_verse_end(lines, p),
            )
        },
        is_element(d, k, "div"@) && is_innermost(d, k) && !lies_in_item(d, k) ==> becomes_paragraph(
            d,
            path,
            b,
            k,
            "paragraph"@,
            extracted(d, k, false).spans,
            false,
            false,
        ),
        is_element(d, k, "blockquote"@) && is_innermost(d, k) ==> becomes_paragraph(
            d,
            path,
            b,
            k,
            "blockquote"@,
            extracted(d, k, false).spans,
            false,
            false,
        ),
        (is_element(d, k, "div"@) || is_element(d, k, "blockquote"@)) && !is_innermost(d, k) ==> becomes_nothing(
            d,
            path,
            b,
            k,
        ),
{
    lemma_names();
    lemma_becomes(d, path, b, k);
    super::extraction::lemma_body_within(d, b);
    lemma_in_item(d, k);
    lemma_innermost(d, k);
    lemma_verse_lines_grow(d, b + 1, k, subtree_end(d, b));
}

proof fn lemma_innermost(d: Seq<NodeView>, k: int)
    requires
        0 <= k < d.len(),
    ensures
        is_innermost(d, k) <==> crate::dom::is_leaf(d, k),
{
    lemma_names();
    assert forall|j: int| 0 <= j < d.len() implies (#[trigger] is_structure(d, j) <==> crate::dom::is_block(d[j])) by {
        if crate::dom::heading_level(d[j]) is Some {
            assert(is_heading(d, j, crate::dom::heading_level(d[j])->0));
        }
    }
    if is_innermost(d, k) {
        assert forall|j: int| k < j < subtree_end(d, k) implies !crate::dom::is_block(#[trigger] d[j]) by {
            subtrees_hold_what_lies_below(d, k, k);
            subtrees_hold_what_lies_below(d, k, j);
            assert(lies_below(d, k, j));
            assert(!is_structure(d, j));
        }
    }
    if crate::dom::is_leaf(d, k) {
        assert forall|j: int| 0 <= j < d.len() && #[trigger] lies_below(d, k, j) implies !is_structure(d, j) by {
            subtrees_hold_what_lies_below(d, k, j);
            assert(!crate::dom::is_block(d[j]));
        }
    }
}

proof fn lemma_verse_lines_grow(d: Seq<NodeView>, lo: int, k: int, hi: int)
    requires
        lo <= k < hi,
    ensures
        is_element(d, k, "p"@) ==> verse_lines(d, lo, k).len() < verse_lines(d, lo, hi).len() && verse_lines(
            d,
            lo,
            hi,
        )[verse_lines(d, lo, k).len() as int] == verse_line(d, k),
        verse_lines(d, lo, k).len() <= verse_lines(d, lo, hi).len(),
    decreases hi - k,
{
    if k < hi - 1 {
        lemma_verse_lines_grow(d, lo, k, hi - 1);
    }
}

/// A block without text becomes nothing, and so does a `div` in the item of a list.
pub proof fn blocks_without_text_become_nothing(d: Seq<NodeView>, path: Seq<char>, b: int, k: int)
    requires
        body(d) == Some(b),
        b < k < subtree_end(d, b),
    ensures
        k < d.len(),
        extracted(d, k, false).text.len() == 0 && (is_element(d, k, "p"@) || is_element(d, k, "div"@) || is_element(
            d,
            k,
            "blockquote"@,
        ) || is_element(d, k, "ul"@) || is_element(d, k, "ol"@)) ==> becomes_nothing(d, path, b, k),
        is_element(d, k, "div"@) && lies_in_item(d, k) ==> becomes_nothing(d, path, b, k),
{
    lemma_names();
    lemma_becomes(d, path, b, k);
    super::extraction::lemma_body_within(d, b);
    lemma_in_item(d, k);
}

/// The body of a document is the `body` that was made first, and not the root.
pub proof fn the_first_body_counts(d: Seq<NodeView>, path: Seq<char>, b: int)
    requires
        forall|i: int, j: int| 0 <= i < j < d.len() ==> (#[trigger] d[i]).rank != (#[trigger] d[j]).rank,
    ensures
        0 <= b < d.len() && is_element(d, b, "body"@) && parent(d, b) is Some && (forall|k: int|
            0 <= k < d.len() && #[trigger] is_element(d, k, "body"@) && parent(d, k) is Some ==> d[b].rank
                <= d[k].rank) ==> body(d) == Some(b),
        (forall|k: int| 0 <= k < d.len() ==> !(#[trigger] is_element(d, k, "body"@) && parent(d, k) is Some))
            ==> chapter(d, path).len() == 0,
{
    let p = |k: int| is_named(d[k], "body"@) && parent(d, k) is Some;
    super::extraction::the_earliest_is_found(d, p, d.len() as int);
    match body(d) {
        Some(e) => {
            assert(p(e));
            assert(is_element(d, e, "body"@));
            if 0 <= b < d.len() && is_element(d, b, "body"@) && parent(d, b) is Some && (forall|k: int|
                0 <= k < d.len() && #[trigger] is_element(d, k, "body"@) && parent(d, k) is Some ==> d[b].rank
                    <= d[k].rank) {
                assert(p(b));
                assert(d[e].rank == d[b].rank);
                assert(e == b);
            }
        },
        None => {
            if 0 <= b < d.len() {
                assert(!p(b));
            }
        },
    }
}

/// What is none of the blocks that a chapter is made of becomes nothing by itself.
pub proof fn nothing_else_becomes_an_element(d: Seq<NodeView>, path: Seq<char>, b: int, k: int)
    requires
        body(d) == Some(b),
        b < k < subtree_end(d, b),
        !is_structure(d, k),
        !is_element(d, k, "hr"@),
        !is_element(d, k, "img"@),
        !is_element(d, k, "image"@),
    ensures
        becomes_nothing(d, path, b, k),
        elements_before(d, path, b, b + 1) == 0,
        elements_before(d, path, b, subtree_end(d, b)) == chapter(d, path).len(),
{
    lemma_names();
    lemma_becomes(d, path, b, k);
    if crate::dom::heading_level(d[k]) is Some {
        assert(is_heading(d, k, crate::dom::heading_level(d[k])->0));
    }
}

// ---------------------------------------------------------------------------
// Anchors
// ---------------------------------------------------------------------------

/// A block answers to its own id, or else its name, and to those of everything that it lies below
/// inside the body.
pub proof fn blocks_answer_to_what_is_around_them(d: Seq<NodeView>, k: int, m: int, id: Seq<char>)
    requires
        0 <= m <= k < d.len(),
        m == k || lies_below(d, m, k),
        forall|q: int| m <= q < k && #[trigger] lies_below(d, q, k) ==> !is_named_ignoring_case(d[q], "body"@),
        attr(d[m], "id"@) == Some(id) || attr(d[m], "id"@) is None && attr(d[m], "name"@) == Some(id),
    ensures
        anchors(d, k).contains(id),
        m == k ==> anchors(d, k)[0] == id,
{
    if m < k {
        lemma_ancestor_ids(d, k, m, id);
        let above = ancestor_ids(d, k);
        let i = choose|i: int| 0 <= i < above.len() && above[i] == id;
        assert(anchors(d, k)[if anchor_of(d[k]) is Some { i + 1 } else { i }] == id);
    } else {
        assert(anchors(d, k)[0] == id);
    }
}

/// A block answers to no other ids, and the nearest come first.
pub proof fn blocks_answer_to_nothing_else(d: Seq<NodeView>, k: int, i: int)
    requires
        0 <= k < d.len(),
        0 <= i < anchors(d, k).len(),
    ensures
        exists|m: int| is_around(d, k, m, anchors(d, k)[i]),
{
    if anchor_of(d[k]) is Some && i == 0 {
        assert(is_around(d, k, k, anchors(d, k)[i]));
    } else {
        let j = if anchor_of(d[k]) is Some {
            i - 1
        } else {
            i
        };
        assert(anchors(d, k)[i] == ancestor_ids(d, k)[j]);
        lemma_ids_are_around(d, k, j);
    }
}

/// Node `m` is node `k`, or one that it lies below, and has this id, or else this name.
pub open spec fn is_around(d: Seq<NodeView>, k: int, m: int, id: Seq<char>) -> bool {
    &&& 0 <= m <= k
    &&& m == k || lies_below(d, m, k)
    &&& attr(d[m], "id"@) == Some(id) || attr(d[m], "id"@) is None && attr(d[m], "name"@) == Some(id)
}

proof fn lemma_ids_are_around(d: Seq<NodeView>, k: int, j: int)
    requires
        0 <= k < d.len(),
        0 <= j < ancestor_ids(d, k).len(),
    ensures
        exists|m: int| is_around(d, k, m, ancestor_ids(d, k)[j]),
    decreases k,
{
    super::extraction::lemma_parent_before(d, k);
    let p = parent(d, k)->0;
    parents_are_nearest_above(d, p, k);
    let id = ancestor_ids(d, k)[j];
    if anchor_of(d[p]) == Some(id) {
        assert(is_around(d, k, p, id));
    } else {
        let q = if anchor_of(d[p]) is Some {
            j - 1
        } else {
            j
        };
        lemma_ids_are_around(d, p, q);
        let m = choose|m: int| is_around(d, p, m, ancestor_ids(d, p)[q]);
        if m < p {
            lemma_below_trans(d, m, p, k);
        }
        assert(is_around(d, k, m, id));
    }
}

proof fn lemma_ancestor_ids(d: Seq<NodeView>, k: int, m: int, id: Seq<char>)
    requires
        0 <= m < k < d.len(),
        lies_below(d, m, k),
        forall|q: int| m <= q < k && #[trigger] lies_below(d, q, k) ==> !is_named_ignoring_case(d[q], "body"@),
        anchor_of(d[m]) == Some(id),
    ensures
        ancestor_ids(d, k).contains(id),
    decreases k,
{
    parents_are_nearest_above(d, m, k);
    assert(parent(d, k) is Some);
    let p = parent(d, k)->0;
    super::extraction::lemma_parent_before(d, k);
    parents_are_nearest_above(d, p, k);
    let rest = ancestor_ids(d, p);
    if m == p {
        assert(ancestor_ids(d, k)[0] == id);
    } else {
        assert(m < p) by {
            if m > p {
                assert(!lies_below(d, m, k));
            }
        }
        lemma_below_both(d, m, p, k);
        assert forall|q: int| m <= q < p && #[trigger] lies_below(d, q, p) implies !is_named_ignoring_case(
            d[q],
            "body"@,
        ) by {
            lemma_below_trans(d, q, p, k);
        }
        lemma_ancestor_ids(d, p, m, id);
        let i = choose|i: int| 0 <= i < rest.len() && rest[i] == id;
        assert(ancestor_ids(d, k)[if anchor_of(d[p]) is Some { i + 1 } else { i }] == id);
    }
}

// ---------------------------------------------------------------------------
// Tables, notes and lists
// ---------------------------------------------------------------------------

/// Every row of a table that has cells is kept, in order, and nothing else.
pub proof fn rows_are_kept(d: Seq<NodeView>, lo: int, k: int, hi: int)
    requires
        lo <= k < hi,
    ensures
        ({
            let cells = cells_in(d, k + 1, subtree_end(d, k));
            let at = rows_in(d, lo, k).len() as int;
            &&& is_element(d, k, "tr"@) && cells.len() > 0 ==> at < rows_in(d, lo, hi).len() && rows_in(
                d,
                lo,
                hi,
            )[at] == cells && rows_in(d, lo, k + 1).len() == at + 1
            &&& !(is_element(d, k, "tr"@) && cells.len() > 0) ==> rows_in(d, lo, k + 1).len() == at
            &&& rows_in(d, lo, lo).len() == 0
            &&& rows_in(d, lo, k + 1).len() <= rows_in(d, lo, hi).len()
        }),
    decreases hi - k,
{
    if k < hi - 1 {
        rows_are_kept(d, lo, k, hi - 1);
    }
}

/// Every cell of a row is kept, in order, as its words with one space between any two.
pub proof fn cells_are_kept(d: Seq<NodeView>, lo: int, k: int, hi: int)
    requires
        lo <= k < hi,
    ensures
        ({
            let at = cells_in(d, lo, k).len() as int;
            let text = join(words(join(texts_in(d, k, subtree_end(d, k)), " "@)), " "@);
            &&& is_element(d, k, "td"@) || is_element(d, k, "th"@) ==> at < cells_in(d, lo, hi).len() && cells_in(
                d,
                lo,
                hi,
            )[at] == text && cells_in(d, lo, k + 1).len() == at + 1
            &&& !(is_element(d, k, "td"@) || is_element(d, k, "th"@)) ==> cells_in(d, lo, k + 1).len() == at
            &&& cells_in(d, lo, lo).len() == 0
            &&& cells_in(d, lo, k + 1).len() <= cells_in(d, lo, hi).len()
        }),
    decreases hi - k,
{
    if k < hi - 1 {
        cells_are_kept(d, lo, k, hi - 1);
    }
}

/// The texts of a range of nodes are those of its text nodes, in order.
pub proof fn texts_are_kept(d: Seq<NodeView>, lo: int, k: int, hi: int)
    requires
        lo <= k < hi,
    ensures
        ({
            let at = texts_in(d, lo, k).len() as int;
            &&& d[k].value matches ValueView::Text(t) ==> at < texts_in(d, lo, hi).len() && texts_in(d, lo, hi)[at] == t
            &&& texts_in(d, lo, k + 1).len() == at + (if d[k].value is Text {
                1int
            } else {
                0int
            })
            &&& texts_in(d, lo, lo).len() == 0
            &&& texts_in(d, lo, k + 1).len() <= texts_in(d, lo, hi).len()
        }),
    decreases hi - k,
{
    if k < hi - 1 {
        texts_are_kept(d, lo, k, hi - 1);
    }
}

/// Every link of a block to a place in a document is kept as a reference to a note, in order,
/// with what stands behind the first `#` of its address and what it says.
pub proof fn note_references_are_kept(
    d: Seq<NodeView>,
    lo: int,
    k: int,
    hi: int,
    file: Seq<char>,
    anchor: Seq<char>,
)
    requires
        lo <= k < hi,
        !file.contains('#'),
        anchor.len() > 0,
    ensures
        ({
            let at = notes_in(d, lo, k).len() as int;
            &&& is_element(d, k, "a"@) && attr(d[k], "href"@) == Some(file + seq!['#'] + anchor) ==> at < notes_in(
                d,
                lo,
                hi,
            ).len() && notes_in(d, lo, hi)[at] == (FootnoteView {
                anchor_id: anchor,
                label: trimmed(text_in(d, k, subtree_end(d, k))),
            })
            &&& !is_element(d, k, "a"@) || attr(d[k], "href"@) is None || attr(d[k], "href"@) == Some(file)
                ==> notes_in(d, lo, k + 1).len() == at
            &&& notes_in(d, lo, lo).len() == 0
            &&& notes_in(d, lo, k + 1).len() <= notes_in(d, lo, hi).len()
        }),
    decreases hi - k,
{
    if k < hi - 1 {
        note_references_are_kept(d, lo, k, hi - 1, file, anchor);
    } else {
        let h = file + seq!['#'] + anchor;
        lemma_char_pos(h, '#', 0);
        lemma_char_pos(file, '#', 0);
        assert(h[file.len() as int] == '#');
        let at = crate::text::char_pos(h, '#', 0);
        if at < file.len() {
            assert(h[at] == file[at]);
            assert(file.contains(file[at]));
        }
        assert(h.skip(file.len() as int + 1) =~= anchor);
        let q = crate::text::char_pos(file, '#', 0);
        if q < file.len() {
            assert(file.contains(file[q]));
        }
    }
}

/// Node `j` is an item directly in list `l` that says something: it has text of its own, or a
/// list in it.
pub open spec fn is_item(d: Seq<NodeView>, l: int, j: int) -> bool {
    &&& parent(d, j) == Some(l)
    &&& is_named_ignoring_case(d[j], "li"@)
    &&& extracted(d, j, true).text.len() > 0 || exists|c: int| is_sublist(d, j, c)
}

/// Node `c` is a list directly in item `j`.
pub open spec fn is_sublist(d: Seq<NodeView>, j: int, c: int) -> bool {
    &&& 0 <= c < d.len()
    &&& parent(d, c) == Some(j)
    &&& is_named_ignoring_case(d[c], "ul"@) || is_named_ignoring_case(d[c], "ol"@)
}

/// The items of list `l` among the nodes before `n`.
pub open spec fn item_nodes(d: Seq<NodeView>, l: int, n: int) -> Seq<int>
    decreases n,
{
    if n <= 0 {
        Seq::empty()
    } else if is_item(d, l, n - 1) {
        item_nodes(d, l, n - 1).push(n - 1)
    } else {
        item_nodes(d, l, n - 1)
    }
}

/// The item is that of node `j`: its own text and spans, and the first list directly in it with
/// that list's items.
pub open spec fn is_item_of(item: ItemView, d: Seq<NodeView>, j: int) -> bool {
    &&& item.text == extracted(d, j, true).text
    &&& item.spans == extracted(d, j, true).spans
    &&& item.sublist is None ==> forall|c: int| !is_sublist(d, j, c)
    &&& item.sublist matches Some(sub) ==> exists|c: int|
        #[trigger] is_sublist(d, j, c) && (forall|q: int| 0 <= q < c ==> !is_sublist(d, j, q)) && sub.ordered
            == is_named_ignoring_case(d[c], "ol"@) && sub.items == items_in(d, c + 1, subtree_end(d, c))
}

/// A list has one item for each of the items directly in it that says something, in their order,
/// with its own text and with the first list directly in it, whose items are kept in the same way.
pub proof fn lists_keep_their_items(d: Seq<NodeView>, l: int, k: int)
    requires
        0 <= l < d.len(),
    ensures
        ({
            let items = items_in(d, l + 1, subtree_end(d, l));
            let nodes = item_nodes(d, l, d.len() as int);
            &&& items.len() == nodes.len()
            &&& 0 <= k < items.len() ==> is_item_of(items[k], d, nodes[k])
        }),
{
    let e = subtree_end(d, l);
    super::extraction::lemma_children_close(d, l);
    lemma_items(d, l, l + 1, e, k);
    lemma_no_items(d, l, 0, l + 1);
    lemma_no_items(d, l, e, d.len() as int);
    lemma_item_nodes_split(d, l, l + 1, e);
    let items = items_in(d, l + 1, e);
    assert(item_nodes(d, l, 0) =~= Seq::<int>::empty());
    assert(item_nodes(d, l, l + 1) =~= Seq::<int>::empty());
    assert(item_nodes(d, l, d.len() as int) == item_nodes(d, l, e));
    assert(item_nodes(d, l, e) =~= item_nodes_from(d, l, l + 1, e));
}

spec fn item_nodes_from(d: Seq<NodeView>, l: int, lo: int, hi: int) -> Seq<int>
    decreases hi - lo,
{
    if lo >= hi {
        Seq::empty()
    } else if is_item(d, l, lo) {
        seq![lo] + item_nodes_from(d, l, lo + 1, hi)
    } else {
        item_nodes_from(d, l, lo + 1, hi)
    }
}

proof fn lemma_item_nodes_split(d: Seq<NodeView>, l: int, lo: int, n: int)
    requires
        lo <= n,
    ensures
        item_nodes(d, l, n) == item_nodes(d, l, lo) + item_nodes_from(d, l, lo, n),
    decreases n - lo,
{
    if lo < n {
        lemma_item_nodes_split(d, l, lo + 1, n);
        if lo < 0 {
            assert(item_nodes(d, l, lo + 1) =~= Seq::<int>::empty());
        }
    }
    assert(item_nodes(d, l, n) =~= item_nodes(d, l, lo) + item_nodes_from(d, l, lo, n));
}

proof fn lemma_no_items(d: Seq<NodeView>, l: int, lo: int, hi: int)
    requires
        0 <= l < d.len(),
        0 <= lo <= hi <= d.len(),
        hi <= l + 1 || lo >= subtree_end(d, l),
    ensures
        item_nodes(d, l, hi) == item_nodes(d, l, lo),
        item_nodes_from(d, l, lo, hi).len() == 0,
    decreases hi - lo,
{
    if lo < hi {
        lemma_no_items(d, l, lo, hi - 1);
        let j = hi - 1;
        assert(!is_item(d, l, j)) by {
            if parent(d, j) == Some(l) {
                parents_are_nearest_above(d, l, j);
                subtrees_hold_what_lies_below(d, l, j);
            }
        }
        lemma_item_nodes_split(d, l, lo, hi);
        lemma_item_nodes_split(d, l, lo, hi - 1);
        assert(item_nodes_from(d, l, lo, hi).len() == 0) by {
            assert(item_nodes(d, l, hi).len() == item_nodes(d, l, lo).len() + item_nodes_from(d, l, lo, hi).len());
        }
    }
}

proof fn lemma_items(d: Seq<NodeView>, l: int, lo: int, hi: int, k: int)
    requires
        0 <= l < d.len(),
        super::extraction::are_children(d, l, lo, hi),
    ensures
        items_in(d, lo, hi).len() == item_nodes_from(d, l, lo, hi).len(),
        0 <= k < items_in(d, lo, hi).len() ==> is_item_of(
            items_in(d, lo, hi)[k],
            d,
            item_nodes_from(d, l, lo, hi)[k],
        ),
    decreases hi - lo,
{
    if lo < hi {
        let e = node_end(d, lo, hi);
        super::extraction::lemma_next_child(d, l, lo, hi);
        lemma_items(d, l, e, hi, k);
        lemma_skip_items(d, l, lo + 1, e, lo, hi);
        let rest = items_in(d, e, hi);
        let rest_nodes = item_nodes_from(d, l, e, hi);
        if is_named_ignoring_case(d[lo], "li"@) {
            super::extraction::lemma_children_close(d, lo);
            lemma_sublist(d, lo, lo + 1, e);
            if is_item(d, l, lo) {
                let now = items_in(d, lo, hi);
                if k > 0 {
                    lemma_items(d, l, e, hi, k - 1);
                    if k < now.len() {
                        assert(now[k] == rest[k - 1]);
                    }
                } else if k == 0 {
                    assert(now[0].sublist == sublist_in(d, lo + 1, e));
                }
            }
        }
    }
}

proof fn lemma_skip_items(d: Seq<NodeView>, l: int, lo: int, e: int, first: int, hi: int)
    requires
        0 <= l < d.len(),
        first < lo <= e <= hi <= d.len(),
        0 <= first,
        forall|j: int| first < j < e ==> lies_below(d, first, j),
        l < first,
    ensures
        item_nodes_from(d, l, lo, hi) == item_nodes_from(d, l, e, hi),
    decreases e - lo,
{
    if lo < e {
        lemma_skip_items(d, l, lo + 1, e, first, hi);
        assert(!is_item(d, l, lo)) by {
            if parent(d, lo) == Some(l) {
                parents_are_nearest_above(d, l, lo);
                assert(lies_below(d, first, lo));
            }
        }
    }
}

proof fn lemma_sublist(d: Seq<NodeView>, j: int, lo: int, hi: int)
    requires
        0 <= j < d.len(),
        super::extraction::are_children(d, j, lo, hi),
    ensures
        sublist_in(d, lo, hi) is None ==> forall|c: int| lo <= c ==> !#[trigger] is_sublist(d, j, c),
        lo == j + 1 && sublist_in(d, lo, hi) is None ==> forall|c: int| !is_sublist(d, j, c),
        sublist_in(d, lo, hi) matches Some(sub) ==> exists|c: int|
            lo <= c && #[trigger] is_sublist(d, j, c) && (forall|q: int| lo <= q < c ==> !is_sublist(d, j, q))
                && sub.ordered == is_named_ignoring_case(d[c], "ol"@) && sub.items == items_in(
                d,
                c + 1,
                subtree_end(d, c),
            ),
        lo == j + 1 ==> (sublist_in(d, lo, hi) matches Some(sub) ==> exists|c: int|
            #[trigger] is_sublist(d, j, c) && (forall|q: int| 0 <= q < c ==> !is_sublist(d, j, q)) && sub.ordered
                == is_named_ignoring_case(d[c], "ol"@) && sub.items == items_in(d, c + 1, subtree_end(d, c))),
    decreases hi - lo,
{
    if lo < hi {
        let e = node_end(d, lo, hi);
        super::extraction::lemma_next_child(d, j, lo, hi);
        lemma_sublist(d, j, e, hi);
        assert forall|c: int| lo < c < e implies !#[trigger] is_sublist(d, j, c) by {
            if parent(d, c) == Some(j) {
                parents_are_nearest_above(d, j, c);
                assert(lies_below(d, lo, c));
            }
        }
        if is_named_ignoring_case(d[lo], "ul"@) || is_named_ignoring_case(d[lo], "ol"@) {
            assert(is_sublist(d, j, lo));
        } else if sublist_in(d, lo, hi) is Some {
            let sub = sublist_in(d, lo, hi)->0;
            let c = choose|c: int|
                e <= c && #[trigger] is_sublist(d, j, c) && (forall|q: int| e <= q < c ==> !is_sublist(d, j, q))
                    && sub.ordered == is_named_ignoring_case(d[c], "ol"@) && sub.items == items_in(
                    d,
                    c + 1,
                    subtree_end(d, c),
                );
            assert(is_sublist(d, j, c));
            assert forall|q: int| lo <= q < c implies !is_sublist(d, j, q) by {}
        }
    } else {
        assert forall|c: int| lo <= c implies !#[trigger] is_sublist(d, j, c) by {
            if is_sublist(d, j, c) {
                parents_are_nearest_above(d, j, c);
                subtrees_hold_what_lies_below(d, j, c);
            }
        }
    }
    if lo == j + 1 {
        assert forall|c: int| c < lo implies !#[trigger] is_sublist(d, j, c) by {
            if is_sublist(d, j, c) {
                parents_are_nearest_above(d, j, c);
            }
        }
    }
}

} // verus!
