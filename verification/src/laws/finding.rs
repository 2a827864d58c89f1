//! What a search found, and where nodes stand on the screen.

use vstd::prelude::*;

use super::definitions::{
    entities_are_shown_as_signs, lemma_pos_shift, plain_text_is_shown_as_it_is,
};
use crate::annotations::content_offset;
use crate::dictionary::{decoded_entity, digits_value, shown_from, written_number};
use crate::node_index::{
    chapter_target, first_behind, last_at_or_before, last_before, mark_from, topmost,
};
use crate::schema::{AstView, TocEntry};
use crate::search::{
    escaped, escaped_char, first_match, flashed, folded, folded_text, is_control, markup_from,
    match_at, next_mark, node_with_id, short_hex, terms_from,
};
use crate::text::{char_pos, lemma_char_pos, lemma_find_from, occurs_at};
use crate::toc::target_marks;
use crate::toolkit::text_of_option;
use vstd::utf8::is_scalar;

verus! {

// ---------------------------------------------------------------------------
// Snippets
// ---------------------------------------------------------------------------

proof fn lemma_marks(a: Seq<char>, term: Seq<char>, rest: Seq<char>)
    requires
        !a.contains('\u{ab}'),
        !term.contains('\u{bb}'),
    ensures
        ({
            let s = a + seq!['\u{ab}'] + term + seq!['\u{bb}'] + rest;
            let j = a.len() as int + 1 + term.len() as int;
            &&& next_mark(s, 0) == (a.len() as int, j)
            &&& s.subrange(0, a.len() as int) == a
            &&& s.subrange(a.len() as int + 1, j) == term
            &&& s.skip(j + 1) == rest
            &&& j < s.len()
        }),
{
    let s = a + seq!['\u{ab}'] + term + seq!['\u{bb}'] + rest;
    let n = a.len() as int;
    let j = n + 1 + term.len() as int;
    assert(s[n] == '\u{ab}');
    assert(s[j] == '\u{bb}');
    lemma_char_pos(s, '\u{ab}', 0);
    let i = char_pos(s, '\u{ab}', 0);
    if i < n {
        assert(s[i] == a[i]);
        assert(a.contains(a[i]));
    }
    assert(i == n);
    lemma_char_pos(s, '\u{bb}', n + 1);
    let q = char_pos(s, '\u{bb}', n + 1);
    if q < j {
        assert(s[q] == term[q - n - 1]);
        assert(term.contains(term[q - n - 1]));
    }
    assert(s.subrange(0, n) =~= a);
    assert(s.subrange(n + 1, j) =~= term);
    assert(s.skip(j + 1) =~= rest);
}

proof fn lemma_snippet_shift(s: Seq<char>, from: int, at: int)
    requires
        0 <= from <= at <= s.len(),
    ensures
        terms_from(s, at) == terms_from(s.skip(from), at - from),
        markup_from(s, at) == markup_from(s.skip(from), at - from),
    decreases s.len() - at,
{
    let t = s.skip(from);
    let (i, j) = next_mark(s, at);
    lemma_char_pos(s, '\u{ab}', at);
    lemma_pos_shift(s, '\u{ab}', from, at);
    if i < s.len() {
        lemma_pos_shift(s, '\u{bb}', from, i + 1);
        lemma_char_pos(s, '\u{bb}', i + 1);
        assert(s.subrange(at, i) =~= t.subrange(at - from, i - from));
        if j < s.len() {
            assert(s.subrange(i + 1, j) =~= t.subrange(i - from + 1, j - from));
            lemma_snippet_shift(s, from, j + 1);
        } else {
            assert(s.subrange(i + 1, s.len() as int) =~= t.subrange(i - from + 1, t.len() as int));
        }
    } else {
        assert(s.subrange(at, s.len() as int) =~= t.subrange(at - from, t.len() as int));
        let far = next_mark(t, at - from);
        assert(far.0 == t.len());
    }
}

/// Every term between marks is found, in order, and shown in bold; what stands outside of the marks
/// is shown as text.
pub proof fn marked_terms_are_found_and_shown(a: Seq<char>, term: Seq<char>, rest: Seq<char>)
    requires
        !a.contains('\u{ab}'),
        !term.contains('\u{bb}'),
    ensures
        ({
            let s = a + seq!['\u{ab}'] + term + seq!['\u{bb}'] + rest;
            &&& terms_from(s, 0) == seq![term] + terms_from(rest, 0)
            &&& markup_from(s, 0) == escaped(a) + "<b>"@ + escaped(term) + "</b>"@ + markup_from(rest, 0)
        }),
        terms_from(a, 0) == Seq::<Seq<char>>::empty(),
        markup_from(a, 0) == escaped(a),
{
    let s = a + seq!['\u{ab}'] + term + seq!['\u{bb}'] + rest;
    lemma_marks(a, term, rest);
    let j = a.len() as int + 1 + term.len() as int;
    lemma_snippet_shift(s, j + 1, j + 1);
    lemma_char_pos(a, '\u{ab}', 0);
    let i = char_pos(a, '\u{ab}', 0);
    if i < a.len() {
        assert(a.contains(a[i]));
    }
    assert(a.subrange(0, a.len() as int) =~= a);
}

/// An opening mark that is not closed is left out, and what is behind it is shown as text.
pub proof fn open_marks_are_left_out(a: Seq<char>, rest: Seq<char>)
    requires
        !a.contains('\u{ab}'),
        !rest.contains('\u{bb}'),
    ensures
        markup_from(a + seq!['\u{ab}'] + rest, 0) == escaped(a) + escaped(rest),
        terms_from(a + seq!['\u{ab}'] + rest, 0) == Seq::<Seq<char>>::empty(),
{
    let s = a + seq!['\u{ab}'] + rest;
    let n = a.len() as int;
    assert(s[n] == '\u{ab}');
    lemma_char_pos(s, '\u{ab}', 0);
    let i = char_pos(s, '\u{ab}', 0);
    if i < n {
        assert(s[i] == a[i]);
        assert(a.contains(a[i]));
    }
    lemma_char_pos(s, '\u{bb}', n + 1);
    let j = char_pos(s, '\u{bb}', n + 1);
    if j < s.len() {
        assert(s[j] == rest[j - n - 1]);
        assert(rest.contains(rest[j - n - 1]));
    }
    assert(s.subrange(0, n) =~= a);
    assert(s.subrange(n + 1, s.len() as int) =~= rest);
}

/// A text is escaped character by character; the signs of markup become entities, and what is
/// neither one of them nor a control character stays.
pub proof fn texts_are_escaped_character_by_character(a: Seq<char>, b: Seq<char>, c: char)
    ensures
        escaped(a + b) == escaped(a) + escaped(b),
        c == '&' ==> escaped(seq![c]) == "&amp;"@,
        c == '<' ==> escaped(seq![c]) == "&lt;"@,
        c == '>' ==> escaped(seq![c]) == "&gt;"@,
        c == '\'' ==> escaped(seq![c]) == "&#39;"@,
        c == '"' ==> escaped(seq![c]) == "&quot;"@,
        c != '&' && c != '<' && c != '>' && c != '\'' && c != '"' && (0x20 <= c as u32 && c as u32 <= 0x7e || c as u32
            >= 0xa0 || c == '\n' || c == '\t' || c == '\r') ==> escaped(seq![c]) == seq![c],
    decreases b.len(),
{
    if b.len() == 0 {
        assert(a + b =~= a);
        assert(escaped(a) + escaped(b) =~= escaped(a));
    } else {
        texts_are_escaped_character_by_character(a, b.drop_last(), c);
        assert((a + b).drop_last() =~= a + b.drop_last());
        assert(escaped(a + b) =~= escaped(a) + escaped(b));
    }
    let one = seq![c];
    assert(one.drop_last() =~= Seq::<char>::empty());
    assert(escaped(one.drop_last()) == Seq::<char>::empty());
    assert(escaped(one) =~= escaped_char(c));
}

proof fn lemma_hex(c: char)
    requires
        is_control(c as int),
    ensures
        escaped_char(c) == seq!['&'] + (seq!['#', 'x'] + short_hex(c as int)) + seq![';'],
        decoded_entity(seq!['#', 'x'] + short_hex(c as int)) == seq![c],
        !(seq!['#', 'x'] + short_hex(c as int)).contains(';'),
        c != '&' && c != '<' && c != '>' && c != '\'' && c != '"',
{
    reveal_strlit("&#x");
    reveal_strlit(";");
    reveal_with_fuel(digits_value, 3);
    let n = c as int;
    let h = short_hex(n);
    let e = seq!['#', 'x'] + h;
    assert(e.skip(2) =~= h);
    assert(escaped_char(c) =~= seq!['&'] + e + seq![';']);
    if n < 16 {
        assert(h.drop_last() =~= Seq::<char>::empty());
        assert(h.last() == h[0]);
    } else {
        assert(h.drop_last() =~= seq![h[0]]);
        assert(h.drop_last().drop_last() =~= Seq::<char>::empty());
        assert(h.last() == h[1]);
    }
    assert(digits_value(h, 16) == Some(n));
    assert(written_number(h, 16) == Some(n));
    assert(is_scalar(n as u32));
    assert(n as u32 as char == c);
    assert forall|i: int| 0 <= i < e.len() implies e[i] != ';' by {}
}

proof fn lemma_entities(c: char)
    ensures
        c == '&' ==> escaped_char(c) == seq!['&'] + "amp"@ + seq![';'] && decoded_entity("amp"@) == seq![c]
            && !"amp"@.contains(';'),
        c == '<' ==> escaped_char(c) == seq!['&'] + "lt"@ + seq![';'] && decoded_entity("lt"@) == seq![c]
            && !"lt"@.contains(';'),
        c == '>' ==> escaped_char(c) == seq!['&'] + "gt"@ + seq![';'] && decoded_entity("gt"@) == seq![c]
            && !"gt"@.contains(';'),
        c == '\'' ==> escaped_char(c) == seq!['&'] + "#39"@ + seq![';'] && decoded_entity("#39"@) == seq![c]
            && !"#39"@.contains(';'),
        c == '"' ==> escaped_char(c) == seq!['&'] + "quot"@ + seq![';'] && decoded_entity("quot"@) == seq![c]
            && !"quot"@.contains(';'),
{
    reveal_strlit("&amp;");
    reveal_strlit("&lt;");
    reveal_strlit("&gt;");
    reveal_strlit("&#39;");
    reveal_strlit("&quot;");
    reveal_strlit("amp");
    reveal_strlit("lt");
    reveal_strlit("gt");
    reveal_strlit("#39");
    reveal_strlit("quot");
    assert("&amp;"@ =~= seq!['&'] + "amp"@ + seq![';']);
    assert("&lt;"@ =~= seq!['&'] + "lt"@ + seq![';']);
    assert("&gt;"@ =~= seq!['&'] + "gt"@ + seq![';']);
    assert("&#39;"@ =~= seq!['&'] + "#39"@ + seq![';']);
    assert("&quot;"@ =~= seq!['&'] + "quot"@ + seq![';']);
    assert("lt"@[0] == 'l');
    assert("gt"@[0] == 'g');
    assert("amp"@[0] == 'a');
    assert("quot"@[0] == 'q');
    if c == '\'' {
        reveal_with_fuel(digits_value, 3);
        let d = "#39"@.skip(1);
        assert(d =~= seq!['3', '9']);
        assert(d.drop_last() =~= seq!['3']);
        assert(d.drop_last().drop_last() =~= Seq::<char>::empty());
        assert(digits_value(d, 10) == Some(39int));
    }
}

/// A text that was escaped is shown as it was.
pub proof fn escaped_texts_are_shown_as_they_were(s: Seq<char>, out: Seq<char>, depth: int)
    ensures
        shown_from(escaped(s), 0, out, depth) == out + s,
    decreases s.len(),
{
    if s.len() == 0 {
        assert(out + s =~= out);
    } else {
        let c = s[0];
        let rest = s.drop_first();
        assert(s =~= seq![c] + rest);
        texts_are_escaped_character_by_character(seq![c], rest, c);
        let one = seq![c];
        assert(one.drop_last() =~= Seq::<char>::empty());
        assert(escaped(one.drop_last()) == Seq::<char>::empty());
        assert(escaped(one) =~= escaped_char(c));
        escaped_texts_are_shown_as_they_were(rest, out + seq![c], depth);
        assert(out + seq![c] + rest =~= out + s);
        lemma_entities(c);
        let more = escaped(rest);
        if c == '&' {
            entities_are_shown_as_signs("amp"@, more, out, depth);
        } else if c == '<' {
            entities_are_shown_as_signs("lt"@, more, out, depth);
        } else if c == '>' {
            entities_are_shown_as_signs("gt"@, more, out, depth);
        } else if c == '\'' {
            entities_are_shown_as_signs("#39"@, more, out, depth);
        } else if c == '"' {
            entities_are_shown_as_signs("quot"@, more, out, depth);
        } else if is_control(c as int) {
            lemma_hex(c);
            entities_are_shown_as_signs(seq!['#', 'x'] + short_hex(c as int), more, out, depth);
        } else {
            plain_text_is_shown_as_it_is(one, more, out, depth);
        }
    }
}

/// Where there is no match, the term does not occur, whatever the case of its letters.
pub proof fn terms_without_a_match_do_not_occur(content: Seq<char>, term: Seq<char>, i: int)
    requires
        match_at(content, term) is None,
        term.len() > 0,
        0 <= i,
        i + term.len() <= content.len(),
    ensures
        Seq::new(term.len(), |j: int| folded(content[i + j])) != Seq::new(term.len(), |j: int| folded(term[j])),
{
    let c = folded_text(content);
    let t = folded_text(term);
    lemma_find_from(c, t, 0);
    assert(!occurs_at(c, t, i));
    assert(c.subrange(i, i + t.len()) =~= Seq::new(term.len(), |j: int| folded(content[i + j])));
    assert(t =~= Seq::new(term.len(), |j: int| folded(term[j])));
}

/// A match is that of the first term that has one, and it is as long as the term.
pub proof fn the_first_term_with_a_match_counts(content: Seq<char>, terms: Seq<Seq<char>>, k: int)
    requires
        0 <= k < terms.len(),
        forall|j: int| 0 <= j < k ==> match_at(content, #[trigger] terms[j]) is None,
        match_at(content, terms[k]) is Some,
    ensures
        first_match(content, terms, 0) == Some(
            (match_at(content, terms[k])->0, match_at(content, terms[k])->0 + terms[k].len()),
        ),
{
    lemma_first_match(content, terms, k, 0);
}

proof fn lemma_first_match(content: Seq<char>, terms: Seq<Seq<char>>, k: int, from: int)
    requires
        0 <= from <= k < terms.len(),
        forall|j: int| 0 <= j < k ==> match_at(content, #[trigger] terms[j]) is None,
        match_at(content, terms[k]) is Some,
    ensures
        first_match(content, terms, from) == Some(
            (match_at(content, terms[k])->0, match_at(content, terms[k])->0 + terms[k].len()),
        ),
    decreases k - from,
{
    if from < k {
        lemma_first_match(content, terms, k, from + 1);
    }
}

/// What is flashed is the match of the first term that has one, in the text of the node that was
/// asked for, where that text stands on the screen.
pub proof fn the_match_in_the_node_is_flashed(
    nodes: Seq<AstView>,
    entries: Seq<(i64, usize)>,
    node_id: i64,
    terms: Seq<Seq<char>>,
    n: int,
    k: int,
)
    requires
        0 <= n < nodes.len(),
        nodes[n].id == node_id,
        forall|j: int| 0 <= j < n ==> (#[trigger] nodes[j]).id != node_id,
        content_offset(nodes[n], entries) is Some,
        0 <= k < terms.len(),
        forall|j: int| 0 <= j < k ==> match_at(text_of_option(nodes[n].content), #[trigger] terms[j]) is None,
        match_at(text_of_option(nodes[n].content), terms[k]) is Some,
    ensures
        ({
            let start = content_offset(nodes[n], entries)->0 + match_at(text_of_option(nodes[n].content), terms[k])->0;
            flashed(nodes, entries, node_id, terms) == Some((start, start + terms[k].len()))
        }),
{
    lemma_node(nodes, node_id, n, 0);
    the_first_term_with_a_match_counts(text_of_option(nodes[n].content), terms, k);
}

proof fn lemma_node(nodes: Seq<AstView>, node_id: i64, n: int, from: int)
    requires
        0 <= from <= n < nodes.len(),
        nodes[n].id == node_id,
        forall|j: int| 0 <= j < n ==> (#[trigger] nodes[j]).id != node_id,
    ensures
        node_with_id(nodes, node_id, from) == Some(n),
    decreases n - from,
{
    if from < n {
        lemma_node(nodes, node_id, n, from + 1);
    }
}

// ---------------------------------------------------------------------------
// Places on the screen
// ---------------------------------------------------------------------------

/// A node is found where it was first recorded, and one that was never recorded is not found.
pub proof fn nodes_are_found_where_they_were_recorded(entries: Seq<(i64, usize)>, id: i64, k: int)
    ensures
        0 <= k < entries.len() && entries[k].0 == id && (forall|j: int| 0 <= j < k ==> (#[trigger] entries[j]).0 != id)
            ==> mark_from(entries, id, 0) == Some(entries[k].1),
        (forall|j: int| 0 <= j < entries.len() ==> (#[trigger] entries[j]).0 != id) ==> mark_from(entries, id, 0) is None,
{
    lemma_mark(entries, id, k, 0);
}

pub(crate) proof fn lemma_mark(entries: Seq<(i64, usize)>, id: i64, k: int, from: int)
    requires
        0 <= from,
    ensures
        from <= k < entries.len() && entries[k].0 == id && (forall|j: int|
            from <= j < k ==> (#[trigger] entries[j]).0 != id) ==> mark_from(entries, id, from) == Some(entries[k].1),
        (forall|j: int| from <= j < entries.len() ==> (#[trigger] entries[j]).0 != id) ==> mark_from(
            entries,
            id,
            from,
        ) is None,
    decreases entries.len() - from,
{
    if from < entries.len() {
        lemma_mark(entries, id, k, from + 1);
    }
}

/// The topmost node is the last that starts no further down than the top of the screen, or the
/// first of all where all start further down.
pub proof fn the_topmost_node_is_the_last_that_has_begun(entries: Seq<(i64, usize)>, top: int, k: int)
    requires
        0 <= k < entries.len(),
    ensures
        entries[k].1 <= top && (forall|j: int| k < j < entries.len() ==> (#[trigger] entries[j]).1 > top) ==> topmost(
            entries,
            top,
        ) == Some(entries[k].0),
        (forall|j: int| 0 <= j < entries.len() ==> (#[trigger] entries[j]).1 > top) ==> topmost(entries, top) == Some(
            entries[0].0,
        ),
{
    lemma_topmost(entries, top, k, entries.len() as int);
}

proof fn lemma_topmost(entries: Seq<(i64, usize)>, top: int, k: int, n: int)
    requires
        0 <= n <= entries.len(),
    ensures
        0 <= k < n && entries[k].1 <= top && (forall|j: int| k < j < n ==> (#[trigger] entries[j]).1 > top)
            ==> last_at_or_before(entries, top, n) == Some(k),
        (forall|j: int| 0 <= j < n ==> (#[trigger] entries[j]).1 > top) ==> last_at_or_before(entries, top, n) is None,
    decreases n,
{
    if n > 0 {
        lemma_topmost(entries, top, k, n - 1);
    }
}

/// A jump leads to the nearest chapter: the first that begins behind the current place, or the last
/// that begins before it.
pub proof fn jumps_lead_to_the_nearest_chapter(chapters: Seq<usize>, current: int, k: int)
    requires
        0 <= k < chapters.len(),
    ensures
        chapters[k] > current && (forall|j: int| 0 <= j < k ==> #[trigger] chapters[j] <= current) ==> chapter_target(
            chapters,
            current,
            true,
        ) == Some(chapters[k]),
        chapters[k] < current && (forall|j: int| k < j < chapters.len() ==> #[trigger] chapters[j] >= current)
            ==> chapter_target(chapters, current, false) == Some(chapters[k]),
{
    lemma_behind(chapters, current, k, 0);
    lemma_before(chapters, current, k, chapters.len() as int);
}

proof fn lemma_behind(chapters: Seq<usize>, current: int, k: int, from: int)
    requires
        0 <= from <= k < chapters.len(),
    ensures
        chapters[k] > current && (forall|j: int| from <= j < k ==> #[trigger] chapters[j] <= current) ==> first_behind(
            chapters,
            current,
            from,
        ) == Some(chapters[k]),
    decreases k - from,
{
    if from < k {
        lemma_behind(chapters, current, k, from + 1);
    }
}

proof fn lemma_before(chapters: Seq<usize>, current: int, k: int, n: int)
    requires
        0 <= k < n <= chapters.len(),
    ensures
        chapters[k] < current && (forall|j: int| k < j < n ==> #[trigger] chapters[j] >= current) ==> last_before(
            chapters,
            current,
            n,
        ) == Some(chapters[k]),
    decreases n,
{
    if k < n - 1 {
        lemma_before(chapters, current, k, n - 1);
    }
}

/// Every entry of a table of contents that leads to a node on the screen gives the place of that
/// node, and no other entry gives any.
pub proof fn contents_give_the_places_they_lead_to(
    entries: Seq<TocEntry>,
    marks: Seq<(i64, usize)>,
    k: int,
    n: int,
)
    requires
        0 <= k < n <= entries.len(),
    ensures
        ({
            let at = target_marks(entries, marks, k).len() as int;
            let all = target_marks(entries, marks, n);
            let mark = match entries[k].target_node_id {
                Some(id) => mark_from(marks, id, 0),
                None => None,
            };
            &&& mark is Some ==> at < all.len() && all[at] == mark->0 && target_marks(entries, marks, k + 1).len()
                == at + 1
            &&& mark is None ==> target_marks(entries, marks, k + 1).len() == at
            &&& target_marks(entries, marks, k + 1).len() <= all.len()
            &&& target_marks(entries, marks, 0).len() == 0
        }),
    decreases n,
{
    if k < n - 1 {
        contents_give_the_places_they_lead_to(entries, marks, k, n - 1);
    }
}

} // verus!
