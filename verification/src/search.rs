//! Searching a book: the words that a search found, how they are shown, and where they stand.

use vstd::prelude::*;

use crate::annotations::{content_offset, content_start_offset, on_screen};
use crate::node_index::NodeIndex;
use crate::schema::{ast_view, AstNode, AstView};
use crate::text::{
    ascii_lower, char_pos, chars_of, find_char, find_from, find_pos, lemma_char_pos,
    lemma_find_from, occurs_at, text_of, texts, trim_text, trimmed,
};
use crate::toolkit::text_of_option;

verus! {

/// The sign before a word that was found.
pub const OPEN_MARK: char = '\u{ab}';

/// The sign behind a word that was found.
pub const CLOSE_MARK: char = '\u{bb}';

/// The number of hits that a search shows.
pub const SEARCH_LIMIT: i64 = 20;

/// Whether a query asks for nothing.
pub fn query_is_blank(query: &str) -> (r: bool)
    ensures
        r == (trimmed(query@).len() == 0),
{
    trim_text(query).as_str().is_empty()
}

// ---------------------------------------------------------------------------
// Snippets
// ---------------------------------------------------------------------------

/// The place of the next mark, and that of the sign that closes it, from a place on.
pub open spec fn next_mark(s: Seq<char>, from: int) -> (int, int) {
    let i = char_pos(s, OPEN_MARK, from);
    (i, char_pos(s, CLOSE_MARK, i + 1))
}

/// The words between marks, from a place on.
pub open spec fn terms_from(s: Seq<char>, from: int) -> Seq<Seq<char>>
    decreases s.len() - from,
{
    let (i, j) = next_mark(s, from);
    if 0 <= from <= i < j < s.len() {
        seq![s.subrange(i + 1, j)] + terms_from(s, j + 1)
    } else {
        Seq::empty()
    }
}

/// The words that stand between marks in a snippet.
pub fn extract_terms(snippet: &str) -> (r: Vec<String>)
    ensures
        texts(r@) == terms_from(snippet@, 0),
{
    let chars = chars_of(snippet);
    let total: usize = chars.len();
    let mut out: Vec<String> = Vec::new();
    let mut pos: usize = 0;
    assert(texts(out@) + terms_from(chars@, 0) =~= terms_from(chars@, 0));
    loop
        invariant
            chars@ == snippet@,
            total == chars@.len(),
            pos <= total,
            texts(out@) + terms_from(chars@, pos as int) == terms_from(chars@, 0),
        ensures
            texts(out@) == terms_from(chars@, 0),
        decreases total - pos,
    {
        proof {
            lemma_char_pos(chars@, OPEN_MARK, pos as int);
        }
        let i: usize = find_char(&chars, OPEN_MARK, pos);
        if i >= total {
            assert(char_pos(chars@, CLOSE_MARK, i + 1) <= i + 1) by {
                reveal_with_fuel(char_pos, 2);
            }
            assert(terms_from(chars@, pos as int) =~= Seq::empty());
            assert(texts(out@) + Seq::<Seq<char>>::empty() =~= texts(out@));
            break;
        }
        proof {
            lemma_char_pos(chars@, CLOSE_MARK, i + 1);
        }
        let j: usize = find_char(&chars, CLOSE_MARK, i + 1);
        if j >= total {
            assert(terms_from(chars@, pos as int) =~= Seq::empty());
            assert(texts(out@) + Seq::<Seq<char>>::empty() =~= texts(out@));
            break;
        }
        let ghost before = texts(out@);
        let term = text_of(&chars, i + 1, j);
        out.push(term);
        assert(texts(out@) =~= before.push(term@));
        pos = j + 1;
        assert(texts(out@) + terms_from(chars@, pos as int) =~= before + (seq![term@] + terms_from(
            chars@,
            pos as int,
        )));
    }
    out
}

/// A hexadecimal digit.
pub open spec fn hex_sign(d: int) -> char {
    if d < 10 {
        (d + 48) as char
    } else {
        (d + 87) as char
    }
}

/// The hexadecimal digits of a number below 256, without a leading zero.
pub open spec fn short_hex(n: int) -> Seq<char> {
    if n < 16 {
        seq![hex_sign(n)]
    } else {
        seq![hex_sign(n / 16), hex_sign(n % 16)]
    }
}

/// Whether a character is a control character that markup cannot hold as it is.
pub open spec fn is_control(n: int) -> bool {
    1 <= n <= 8 || 0xb <= n <= 0xc || 0xe <= n <= 0x1f || 0x7f <= n <= 0x84 || 0x86 <= n <= 0x9f
}

/// A character as it is written in markup.
pub open spec fn escaped_char(c: char) -> Seq<char> {
    if c == '&' {
        "&amp;"@
    } else if c == '<' {
        "&lt;"@
    } else if c == '>' {
        "&gt;"@
    } else if c == '\'' {
        "&#39;"@
    } else if c == '"' {
        "&quot;"@
    } else if is_control(c as int) {
        "&#x"@ + short_hex(c as int) + ";"@
    } else {
        seq![c]
    }
}

/// A text as it is written in markup.
pub open spec fn escaped(s: Seq<char>) -> Seq<char>
    decreases s.len(),
{
    if s.len() == 0 {
        Seq::empty()
    } else {
        escaped(s.drop_last()) + escaped_char(s.last())
    }
}

fn hex_char(d: u8) -> (r: char)
    requires
        d < 16,
    ensures
        r == hex_sign(d as int),
{
    if d < 10 {
        (d + 48) as char
    } else {
        (d + 87) as char
    }
}

fn push_escaped_char(out: &mut String, c: char)
    ensures
        final(out)@ == old(out)@ + escaped_char(c),
{
    let ghost before = out@;
    let n: u32 = c as u32;
    if c == '&' {
        out.append("&amp;");
    } else if c == '<' {
        out.append("&lt;");
    } else if c == '>' {
        out.append("&gt;");
    } else if c == '\'' {
        out.append("&#39;");
    } else if c == '"' {
        out.append("&quot;");
    } else if (1 <= n && n <= 8) || (0xb <= n && n <= 0xc) || (0xe <= n && n <= 0x1f) || (0x7f <= n && n <= 0x84) || (
    0x86 <= n && n <= 0x9f) {
        out.append("&#x");
        if n >= 16 {
            out.push(hex_char((n / 16) as u8));
        }
        out.push(hex_char((n % 16) as u8));
        out.append(";");
    } else {
        out.push(c);
    }
    assert(out@ =~= before + escaped_char(c));
}

fn push_escaped(out: &mut String, chars: &Vec<char>, lo: usize, hi: usize)
    requires
        lo <= hi <= chars@.len(),
    ensures
        final(out)@ == old(out)@ + escaped(chars@.subrange(lo as int, hi as int)),
{
    let ghost before = out@;
    let mut i: usize = lo;
    assert(before + escaped(chars@.subrange(lo as int, lo as int)) =~= before);
    while i < hi
        invariant
            lo <= i <= hi <= chars@.len(),
            out@ == before + escaped(chars@.subrange(lo as int, i as int)),
        decreases hi - i,
    {
        push_escaped_char(out, chars[i]);
        i += 1;
        let ghost part = chars@.subrange(lo as int, i as int);
        assert(part.drop_last() =~= chars@.subrange(lo as int, i - 1));
        assert(out@ =~= before + escaped(part));
    }
}

/// A text as it is written in markup.
pub fn escape_text(s: &str) -> (r: String)
    ensures
        r@ == escaped(s@),
{
    let chars = chars_of(s);
    let mut out = String::new();
    push_escaped(&mut out, &chars, 0, chars.len());
    assert(chars@.subrange(0, chars@.len() as int) =~= s@);
    assert(out@ =~= escaped(s@));
    out
}

/// A snippet as markup, from a place on: the words between marks in bold, all else as it is. A
/// mark that is not closed is left out.
pub open spec fn markup_from(s: Seq<char>, from: int) -> Seq<char>
    decreases s.len() - from,
{
    let (i, j) = next_mark(s, from);
    if !(0 <= from <= i < s.len()) {
        escaped(s.subrange(from, s.len() as int))
    } else if !(i < j < s.len()) {
        escaped(s.subrange(from, i)) + escaped(s.subrange(i + 1, s.len() as int))
    } else {
        escaped(s.subrange(from, i)) + "<b>"@ + escaped(s.subrange(i + 1, j)) + "</b>"@ + markup_from(s, j + 1)
    }
}

/// A snippet as markup, with the words between marks in bold and everything else escaped.
pub fn snippet_markup(snippet: &str) -> (r: String)
    ensures
        r@ == markup_from(snippet@, 0),
{
    let chars = chars_of(snippet);
    let total: usize = chars.len();
    let mut out = String::new();
    let mut pos: usize = 0;
    assert(out@ + markup_from(chars@, 0) =~= markup_from(chars@, 0));
    loop
        invariant_except_break
            chars@ == snippet@,
            total == chars@.len(),
            pos <= total,
            out@ + markup_from(chars@, pos as int) == markup_from(chars@, 0),
        ensures
            out@ == markup_from(snippet@, 0),
        decreases total - pos,
    {
        proof {
            lemma_char_pos(chars@, OPEN_MARK, pos as int);
        }
        let i: usize = find_char(&chars, OPEN_MARK, pos);
        if i >= total {
            push_escaped(&mut out, &chars, pos, total);
            break;
        }
        proof {
            lemma_char_pos(chars@, CLOSE_MARK, i + 1);
        }
        let ghost before = out@;
        push_escaped(&mut out, &chars, pos, i);
        let j: usize = find_char(&chars, CLOSE_MARK, i + 1);
        if j >= total {
            push_escaped(&mut out, &chars, i + 1, total);
            assert(out@ =~= before + markup_from(chars@, pos as int));
            break;
        }
        out.append("<b>");
        push_escaped(&mut out, &chars, i + 1, j);
        out.append("</b>");
        let ghost rest = markup_from(chars@, j + 1);
        assert(out@ + rest =~= before + markup_from(chars@, pos as int));
        pos = j + 1;
    }
    out
}

/// Nothing of an escaped text reads as a tag or ends a quoted value.
pub proof fn escaped_text_is_plain(s: Seq<char>)
    ensures
        forall|i: int|
            0 <= i < escaped(s).len() ==> #[trigger] escaped(s)[i] != '<' && escaped(s)[i] != '>' && escaped(s)[i]
                != '"' && escaped(s)[i] != '\'',
    decreases s.len(),
{
    if s.len() > 0 {
        escaped_text_is_plain(s.drop_last());
        reveal_strlit("&amp;");
        reveal_strlit("&lt;");
        reveal_strlit("&gt;");
        reveal_strlit("&#39;");
        reveal_strlit("&quot;");
        reveal_strlit("&#x");
        reveal_strlit(";");
        let e = escaped_char(s.last());
        assert forall|i: int| 0 <= i < e.len() implies #[trigger] e[i] != '<' && e[i] != '>' && e[i] != '"' && e[i]
            != '\'' by {
            lemma_hex_sign(s.last() as int);
        }
        let before = escaped(s.drop_last());
        assert forall|i: int| 0 <= i < escaped(s).len() implies #[trigger] escaped(s)[i] != '<' && escaped(s)[i] != '>'
            && escaped(s)[i] != '"' && escaped(s)[i] != '\'' by {
            if i < before.len() {
                assert(escaped(s)[i] == before[i]);
            } else {
                assert(escaped(s)[i] == e[i - before.len()]);
            }
        }
    }
}

proof fn lemma_hex_sign(n: int)
    ensures
        0 <= n < 256 ==> forall|i: int|
            0 <= i < short_hex(n).len() ==> ('0' <= #[trigger] short_hex(n)[i] <= '9' || 'a' <= short_hex(n)[i] <= 'f'),
{
}

// ---------------------------------------------------------------------------
// Matches
// ---------------------------------------------------------------------------

/// The first character of the lowercase form of a character that is not an ASCII character.
pub uninterp spec fn unicode_char_lowercase(c: char) -> char;

/// The first character of the lowercase form of a character.
pub open spec fn folded(c: char) -> char {
    if (c as int) < 0x80 {
        ascii_lower(c)
    } else {
        unicode_char_lowercase(c)
    }
}

/// A text with each character replaced by the first of its lowercase form.
pub open spec fn folded_text(s: Seq<char>) -> Seq<char> {
    s.map_values(|c: char| folded(c))
}

/// Calls `char::to_lowercase` and takes the first character that it gives: of an ASCII character
/// its lowercase form; of any other one a character that depends on it alone.
#[verifier::external_body]
fn lower_char(c: char) -> (r: char)
    ensures
        (c as int) < 0x80 ==> r == ascii_lower(c),
        (c as int) >= 0x80 ==> r == unicode_char_lowercase(c),
{
    c.to_lowercase().next().unwrap_or(c)
}

fn fold(s: &str) -> (r: Vec<char>)
    ensures
        r@ == folded_text(s@),
{
    let chars = chars_of(s);
    let mut out: Vec<char> = Vec::new();
    let mut i: usize = 0;
    while i < chars.len()
        invariant
            i <= chars@.len(),
            out@ =~= folded_text(chars@.take(i as int)),
        decreases chars@.len() - i,
    {
        out.push(lower_char(chars[i]));
        i += 1;
    }
    assert(chars@.take(i as int) =~= chars@);
    out
}

/// The place at which a term first stands in a text, whatever the case of the letters.
pub open spec fn match_at(content: Seq<char>, term: Seq<char>) -> Option<int> {
    if term.len() == 0 {
        None
    } else {
        find_from(folded_text(content), folded_text(term), 0)
    }
}

/// Where a term first stands in a text, whatever the case of the letters: the place of its first
/// character and that behind its last one.
pub fn find_codepoint_range(content: &str, term: &str) -> (r: Option<(usize, usize)>)
    ensures
        match r {
            Some((from, to)) => match_at(content@, term@) == Some(from as int) && to == from + term@.len() && to
                <= content@.len(),
            None => match_at(content@, term@) is None,
        },
{
    let lower = fold(content);
    let term_lower = fold(term);
    if term_lower.len() == 0 || term_lower.len() > lower.len() {
        return None;
    }
    match find_pos(&lower, &term_lower, 0) {
        Some(i) => Some((i, i + term_lower.len())),
        None => None,
    }
}

/// A range that is found holds the term, whatever the case of the letters, and no earlier one
/// does.
pub proof fn matches_hold_the_term(content: Seq<char>, term: Seq<char>, from: int)
    requires
        match_at(content, term) == Some(from),
    ensures
        0 <= from,
        from + term.len() <= content.len(),
        folded_text(content.subrange(from, from + term.len())) == folded_text(term),
        forall|i: int|
            #![trigger content.subrange(i, i + term.len())]
            0 <= i < from ==> folded_text(content.subrange(i, i + term.len())) != folded_text(term),
{
    lemma_find_from(folded_text(content), folded_text(term), 0);
    assert(folded_text(content.subrange(from, from + term.len())) =~= folded_text(content).subrange(
        from,
        from + term.len(),
    ));
    assert forall|i: int|
        #![trigger content.subrange(i, i + term.len())]
        0 <= i < from implies folded_text(content.subrange(i, i + term.len())) != folded_text(term) by {
        assert(!occurs_at(folded_text(content), folded_text(term), i));
        assert(folded_text(content.subrange(i, i + term.len())) =~= folded_text(content).subrange(
            i,
            i + term.len(),
        ));
    }
}

/// The place of the first of the terms from `k` on that stands in a text, and where it stands.
pub open spec fn first_match(
    content: Seq<char>,
    terms: Seq<Seq<char>>,
    k: int,
) -> Option<(int, int)>
    decreases terms.len() - k,
{
    if k < 0 || k >= terms.len() {
        None
    } else {
        match match_at(content, terms[k]) {
            Some(from) => Some((from, from + terms[k].len())),
            None => first_match(content, terms, k + 1),
        }
    }
}

/// The place of the first of the nodes from `k` on that has an id.
pub open spec fn node_with_id(nodes: Seq<AstView>, node_id: i64, k: int) -> Option<int>
    decreases nodes.len() - k,
{
    if k < 0 || k >= nodes.len() {
        None
    } else if nodes[k].id == node_id {
        Some(k)
    } else {
        node_with_id(nodes, node_id, k + 1)
    }
}

/// Where on the screen the word stands that a search found in a node.
pub open spec fn flashed(
    nodes: Seq<AstView>,
    entries: Seq<(i64, usize)>,
    node_id: i64,
    terms: Seq<Seq<char>>,
) -> Option<(int, int)> {
    match node_with_id(nodes, node_id, 0) {
        None => None,
        Some(k) => match content_offset(nodes[k], entries) {
            None => None,
            Some(start) => match first_match(text_of_option(nodes[k].content), terms, 0) {
                None => None,
                Some((from, to)) => Some((start + from, start + to)),
            },
        },
    }
}

fn find_node(nodes: &Vec<AstNode>, node_id: i64) -> (r: Option<usize>)
    ensures
        match r {
            Some(k) => node_with_id(ast_view(nodes@), node_id, 0) == Some(k as int) && k < nodes@.len(),
            None => node_with_id(ast_view(nodes@), node_id, 0) is None,
        },
{
    let ghost all = ast_view(nodes@);
    let mut k: usize = 0;
    while k < nodes.len()
        invariant
            k <= nodes@.len(),
            all == ast_view(nodes@),
            node_with_id(all, node_id, 0) == node_with_id(all, node_id, k as int),
        decreases nodes@.len() - k,
    {
        assert(all[k as int] == nodes@[k as int]@);
        if nodes[k].id == node_id {
            return Some(k);
        }
        k += 1;
    }
    None
}

fn find_first_match(content: &str, terms: &Vec<String>) -> (r: Option<(usize, usize)>)
    ensures
        match r {
            Some((from, to)) => first_match(content@, texts(terms@), 0) == Some((from as int, to as int)) && from <= to
                <= content@.len(),
            None => first_match(content@, texts(terms@), 0) is None,
        },
{
    let ghost all = texts(terms@);
    let mut k: usize = 0;
    while k < terms.len()
        invariant
            k <= terms@.len(),
            all == texts(terms@),
            first_match(content@, all, 0) == first_match(content@, all, k as int),
        decreases terms@.len() - k,
    {
        assert(all[k as int] == terms@[k as int]@);
        if let Some(range) = find_codepoint_range(content, terms[k].as_str()) {
            return Some(range);
        }
        k += 1;
    }
    None
}

/// Where on the screen to show the word that a search found in a node: the first of the terms
/// that stands in the node's text.
pub fn flash_match(
    nodes: &Vec<AstNode>,
    index: &NodeIndex,
    node_id: i64,
    terms: &Vec<String>,
) -> (r: Option<
    (usize, usize),
>)
    requires
        on_screen(index@),
        forall|k: int| 0 <= k < nodes@.len() ==> text_of_option((#[trigger] nodes@[k])@.content).len() <= i32::MAX,
    ensures
        match r {
            Some((from, to)) => flashed(ast_view(nodes@), index@, node_id, texts(terms@)) == Some(
                (from as int, to as int),
            ),
            None => flashed(ast_view(nodes@), index@, node_id, texts(terms@)) is None,
        },
{
    let k: usize = match find_node(nodes, node_id) {
        Some(k) => k,
        None => return None,
    };
    assert(ast_view(nodes@)[k as int] == nodes@[k as int]@);
    let start: usize = match content_start_offset(&nodes[k], index) {
        Some(s) => s,
        None => return None,
    };
    let content = match &nodes[k].content {
        Some(t) => t.clone(),
        None => String::new(),
    };
    assert(content@ =~= text_of_option(nodes@[k as int]@.content));
    match find_first_match(content.as_str(), terms) {
        Some((from, to)) => Some((start + from, start + to)),
        None => None,
    }
}

} // verus!
