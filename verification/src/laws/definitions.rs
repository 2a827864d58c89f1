//! Definitions are shown as their markup says, and words with what stands around them.

use vstd::prelude::*;

use super::extraction::{
    lemma_letters_add, lemma_letters_empty, lemma_letters_push, lemma_trim_letters, letters,
};
use super::lines::{in_a_row, lemma_in_a_row};
use crate::dictionary::{
    after_tag, all_entries, decoded_entity, digits_value, first_space, last_space, meaning_entries,
    shown_from, squeezed, tag_name, tidy, without_slashes, words_before, words_behind, ApiMeaning,
    EntryText,
};
use crate::text::{
    ascii_lowercase, char_pos, decimal, digit, is_space, join, joined_parts_split_again,
    lemma_char_pos, lemma_word_len, repeated, split_on, trim_end, trimmed, word_len, words,
};
use vstd::utf8::is_scalar;

verus! {

// ---------------------------------------------------------------------------
// Markup
// ---------------------------------------------------------------------------

proof fn lemma_shift(s: Seq<char>, from: int, i: int, out: Seq<char>, depth: int)
    requires
        0 <= from <= i <= s.len(),
    ensures
        shown_from(s, i, out, depth) == shown_from(s.skip(from), i - from, out, depth),
    decreases s.len() - i,
{
    let t = s.skip(from);
    if i < s.len() {
        assert(s[i] == t[i - from]);
        if s[i] == '<' {
            lemma_pos_shift(s, '>', from, i);
            let j = char_pos(s, '>', i);
            lemma_char_pos(s, '>', i);
            if i < j < s.len() {
                assert(s.subrange(i + 1, j) =~= t.subrange(i - from + 1, j - from));
                let (more, deeper) = after_tag(out, depth, s.subrange(i + 1, j));
                lemma_shift(s, from, j + 1, more, deeper);
            } else {
                assert(s.skip(i) =~= t.skip(i - from));
            }
        } else if s[i] == '&' {
            lemma_pos_shift(s, ';', from, i);
            let j = char_pos(s, ';', i);
            lemma_char_pos(s, ';', i);
            if i < j < s.len() {
                assert(s.subrange(i + 1, j) =~= t.subrange(i - from + 1, j - from));
                lemma_shift(s, from, j + 1, out + decoded_entity(s.subrange(i + 1, j)), depth);
            } else {
                lemma_shift(s, from, i + 1, out.push('&'), depth);
            }
        } else {
            lemma_shift(s, from, i + 1, out.push(s[i]), depth);
        }
    }
}

pub(crate) proof fn lemma_pos_shift(s: Seq<char>, c: char, from: int, i: int)
    requires
        0 <= from <= i <= s.len(),
    ensures
        char_pos(s, c, i) == from + char_pos(s.skip(from), c, i - from),
{
    let t = s.skip(from);
    lemma_char_pos(s, c, i);
    lemma_char_pos(t, c, i - from);
    let a = char_pos(s, c, i);
    let b = char_pos(t, c, i - from);
    if a < s.len() {
        assert(t[a - from] == s[a]);
    }
    if b < t.len() {
        assert(t[b] == s[b + from]);
    }
}

proof fn lemma_mark(open: char, inside: Seq<char>, close: char, rest: Seq<char>)
    requires
        !inside.contains(close),
        open != close,
    ensures
        ({
            let s = seq![open] + inside + seq![close] + rest;
            &&& char_pos(s, close, 0) == inside.len() as int + 1
            &&& s.subrange(1, inside.len() as int + 1) == inside
            &&& s.skip(inside.len() as int + 2) == rest
            &&& s[0] == open
        }),
{
    let s = seq![open] + inside + seq![close] + rest;
    lemma_char_pos(s, close, 0);
    let p = char_pos(s, close, 0);
    assert(s[inside.len() as int + 1] == close);
    assert(s[0] == open);
    if p < inside.len() as int + 1 {
        assert(p > 0);
        assert(s[p] == inside[p - 1]);
        assert(inside.contains(inside[p - 1]));
    }
    assert(s.subrange(1, inside.len() as int + 1) =~= inside);
    assert(s.skip(inside.len() as int + 2) =~= rest);
}

/// Text without markup is shown as it is, in front of what is shown of the rest.
pub proof fn plain_text_is_shown_as_it_is(a: Seq<char>, rest: Seq<char>, out: Seq<char>, depth: int)
    requires
        !a.contains('<'),
        !a.contains('&'),
    ensures
        shown_from(a + rest, 0, out, depth) == shown_from(rest, 0, out + a, depth),
        shown_from(a, 0, out, depth) == out + a,
    decreases a.len(),
{
    if a.len() == 0 {
        assert(a + rest =~= rest);
        assert(out + a =~= out);
    } else {
        let s = a + rest;
        assert(a.contains(a[0]));
        let b = a.drop_first();
        assert forall|i: int| 0 <= i < b.len() implies b[i] != '<' && b[i] != '&' by {
            assert(b[i] == a[i + 1]);
            assert(a.contains(a[i + 1]));
        }
        assert(s[0] == a[0]);
        lemma_shift(s, 1, 1, out.push(a[0]), depth);
        lemma_shift(a, 1, 1, out.push(a[0]), depth);
        assert(s.skip(1) =~= b + rest);
        assert(a.skip(1) =~= b);
        plain_text_is_shown_as_it_is(b, rest, out.push(a[0]), depth);
        assert(out.push(a[0]) + b =~= out + a);
    }
}

proof fn lemma_tag(tag: Seq<char>, rest: Seq<char>, out: Seq<char>, depth: int)
    requires
        !tag.contains('>'),
    ensures
        shown_from(seq!['<'] + tag + seq!['>'] + rest, 0, out, depth) == shown_from(
            rest,
            0,
            after_tag(out, depth, tag).0,
            after_tag(out, depth, tag).1,
        ),
{
    let s = seq!['<'] + tag + seq!['>'] + rest;
    lemma_mark('<', tag, '>', rest);
    let (more, deeper) = after_tag(out, depth, tag);
    lemma_shift(s, tag.len() as int + 2, tag.len() as int + 2, more, deeper);
}

proof fn lemma_after_item(tag: Seq<char>, out: Seq<char>, depth: int)
    requires
        depth >= 1,
        tag.len() == 0 || tag[0] != '/',
        tag_name(tag) == "li"@,
    ensures
        after_tag(out, depth, tag).1 == depth,
        out.len() > 0 && out.last() != '\n' ==> after_tag(out, depth, tag).0 == out + seq!['\n'] + repeated(
            "  "@,
            (depth - 1) as nat,
        ) + seq!['\u{2022}', ' '],
        out.len() == 0 || out.last() == '\n' ==> after_tag(out, depth, tag).0 == out + repeated(
            "  "@,
            (depth - 1) as nat,
        ) + seq!['\u{2022}', ' '],
{
    lemma_tag_names();
    assert(out.push('\n') =~= out + seq!['\n']);
}

/// A tag is not shown. A paragraph begins behind an empty line, unless nothing is before it; an
/// item on a line of its own, with a bullet, two spaces further in for each list around its own;
/// a break ends the line.
pub proof fn tags_are_not_shown(tag: Seq<char>, rest: Seq<char>, out: Seq<char>, depth: int)
    requires
        !tag.contains('>'),
        depth >= 0,
    ensures
        ({
            let shown = shown_from(seq!['<'] + tag + seq!['>'] + rest, 0, out, depth);
            let closing = tag.len() > 0 && tag[0] == '/';
            let name = tag_name(tag);
            let blank = forall|i: int| 0 <= i < out.len() ==> #[trigger] out[i] == ' ';
            &&& !closing && (name == "p"@ || name == "div"@) && blank ==> shown == shown_from(rest, 0, out, depth)
            &&& !closing && (name == "p"@ || name == "div"@) && !blank ==> shown == shown_from(
                rest,
                0,
                out + seq!['\n', '\n'],
                depth,
            )
            &&& closing && (name == "p"@ || name == "div"@ || name == "li"@) ==> shown == shown_from(rest, 0, out, depth)
            &&& !closing && name == "li"@ && depth >= 1 && out.len() > 0 && out.last() != '\n' ==> shown
                == shown_from(
                rest,
                0,
                out + seq!['\n'] + repeated("  "@, (depth - 1) as nat) + seq!['\u{2022}', ' '],
                depth,
            )
            &&& !closing && name == "li"@ && depth >= 1 && (out.len() == 0 || out.last() == '\n') ==> shown
                == shown_from(rest, 0, out + repeated("  "@, (depth - 1) as nat) + seq!['\u{2022}', ' '], depth)
            &&& !closing && (name == "ol"@ || name == "ul"@) ==> shown == shown_from(rest, 0, out, depth + 1)
            &&& closing && (name == "ol"@ || name == "ul"@) && depth >= 1 ==> shown == shown_from(
                rest,
                0,
                out,
                depth - 1,
            )
            &&& name == "br"@ ==> shown == shown_from(rest, 0, out + seq!['\n'], depth)
            &&& name != "p"@ && name != "div"@ && name != "li"@ && name != "ol"@ && name != "ul"@ && name != "br"@
                ==> shown == shown_from(rest, 0, out, depth)
        }),
{
    lemma_tag(tag, rest, out, depth);
    lemma_tag_names();
    assert(out.push('\n') =~= out + seq!['\n']);
    let closing = tag.len() > 0 && tag[0] == '/';
    if !closing && tag_name(tag) == "li"@ && depth >= 1 {
        lemma_after_item(tag, out, depth);
    }
}

proof fn lemma_tag_names()
    ensures
        "p"@ =~= seq!['p'],
        "div"@ =~= seq!['d', 'i', 'v'],
        "li"@ =~= seq!['l', 'i'],
        "ol"@ =~= seq!['o', 'l'],
        "ul"@ =~= seq!['u', 'l'],
        "br"@ =~= seq!['b', 'r'],
        "\n\n"@ =~= seq!['\n', '\n'],
        "\u{2022} "@ =~= seq!['\u{2022}', ' '],
        "br"@[0] == 'b' && "ol"@[0] == 'o' && "ul"@[0] == 'u' && "li"@[0] == 'l',
{
    reveal_strlit("p");
    reveal_strlit("div");
    reveal_strlit("li");
    reveal_strlit("ol");
    reveal_strlit("ul");
    reveal_strlit("br");
    reveal_strlit("\n\n");
    reveal_strlit("\u{2022} ");
}

/// A tag that is never closed is shown as it is, with all behind it.
pub proof fn open_tags_are_shown(rest: Seq<char>, out: Seq<char>, depth: int)
    requires
        !rest.contains('>'),
    ensures
        shown_from(seq!['<'] + rest, 0, out, depth) == out + seq!['<'] + rest,
{
    let s = seq!['<'] + rest;
    lemma_char_pos(s, '>', 0);
    let p = char_pos(s, '>', 0);
    if p < s.len() {
        assert(s[0] == '<');
        assert(s[p] == rest[p - 1]);
        assert(rest.contains(rest[p - 1]));
    }
    assert(s.skip(0) =~= s);
    assert(out + s =~= out + seq!['<'] + rest);
}

/// What stands between `&` and `;` is shown as the sign it names; an `&` without a `;` behind it is
/// shown as it is.
pub proof fn entities_are_shown_as_signs(entity: Seq<char>, rest: Seq<char>, out: Seq<char>, depth: int)
    ensures
        !entity.contains(';') ==> shown_from(seq!['&'] + entity + seq![';'] + rest, 0, out, depth) == shown_from(
            rest,
            0,
            out + decoded_entity(entity),
            depth,
        ),
        !rest.contains(';') ==> shown_from(seq!['&'] + rest, 0, out, depth) == shown_from(
            rest,
            0,
            out.push('&'),
            depth,
        ),
{
    if !entity.contains(';') {
        let s = seq!['&'] + entity + seq![';'] + rest;
        lemma_mark('&', entity, ';', rest);
        lemma_shift(
            s,
            entity.len() as int + 2,
            entity.len() as int + 2,
            out + decoded_entity(entity),
            depth,
        );
    }
    if !rest.contains(';') {
        let s = seq!['&'] + rest;
        lemma_char_pos(s, ';', 0);
        let p = char_pos(s, ';', 0);
        if p < s.len() {
            assert(s[0] == '&');
            assert(s[p] == rest[p - 1]);
            assert(rest.contains(rest[p - 1]));
        }
        lemma_shift(s, 1, 1, out.push('&'), depth);
        assert(s.skip(1) =~= rest);
    }
}

/// A tag goes by its first word, whether it opens or closes, and whatever the case of its letters.
pub proof fn tags_go_by_their_first_word(name: Seq<char>, rest: Seq<char>)
    requires
        name.len() > 0,
        name[0] != '/',
        forall|i: int| 0 <= i < name.len() ==> !is_space(#[trigger] name[i]),
    ensures
        tag_name(name) == ascii_lowercase(name),
        tag_name(seq!['/'] + name) == ascii_lowercase(name),
        tag_name(name + seq![' '] + rest) == ascii_lowercase(name),
{
    let closing = seq!['/'] + name;
    assert(closing.drop_first() =~= name);
    assert(without_slashes(closing) == without_slashes(name));
    let long = name + seq![' '] + rest;
    assert(long[0] == name[0]);
    lemma_word_len(name);
    lemma_word_len(long);
    let n = word_len(long);
    assert(n == name.len()) by {
        assert(long[name.len() as int] == ' ');
        if n < name.len() {
            assert(long[n] == name[n]);
        }
    }
    assert(word_len(name) == name.len());
    assert(long.take(n) =~= name);
    assert(name.take(name.len() as int) =~= name);
    assert(words(name)[0] == name);
    assert(words(long)[0] == name);
}

pub(crate) proof fn lemma_decimal_value(n: nat)
    ensures
        digits_value(decimal(n), 10) == Some(n as int),
        decimal(n).len() > 0,
        decimal(n)[0] != '+' && decimal(n)[0] != 'x' && decimal(n)[0] != 'X',
    decreases n,
{
    reveal_with_fuel(digits_value, 2);
    if n < 10 {
        let s = decimal(n);
        assert(s.drop_last() =~= Seq::<char>::empty());
        assert(s.last() == digit(n));
    } else {
        lemma_decimal_value(n / 10);
        let s = decimal(n);
        assert(s.drop_last() =~= decimal(n / 10));
        assert(s.last() == digit(n % 10));
        assert(s[0] == decimal(n / 10)[0]);
    }
}

/// A number in decimal digits between `&#` and `;` is shown as the character of that number.
pub proof fn numbers_are_shown_as_characters(n: u32)
    requires
        is_scalar(n),
    ensures
        decoded_entity(seq!['#'] + decimal(n as nat)) == seq![n as char],
{
    let e = seq!['#'] + decimal(n as nat);
    lemma_decimal_value(n as nat);
    assert(e.skip(1) =~= decimal(n as nat));
    assert(e[1] == decimal(n as nat)[0]);
}

/// Squeezing lines loses only empty ones, and none but such as follow another.
pub proof fn only_repeated_blank_lines_go(lines: Seq<Seq<char>>, n: int)
    requires
        0 <= n <= lines.len(),
    ensures
        squeezed(lines, n).filter(|l: Seq<char>| l.len() > 0) == lines.take(n).filter(|l: Seq<char>| l.len() > 0),
        (forall|k: int| 0 < k < n ==> (#[trigger] lines[k]).len() > 0) ==> squeezed(lines, n) == lines.take(n),
        n > 0 ==> squeezed(lines, n).len() > 0 && squeezed(lines, n).last() == lines[n - 1],
    decreases n,
{
    reveal(Seq::filter);
    let p = |l: Seq<char>| l.len() > 0;
    if n > 0 {
        only_repeated_blank_lines_go(lines, n - 1);
        assert(lines.take(n).drop_last() =~= lines.take(n - 1));
        let before = squeezed(lines, n - 1);
        before.lemma_filter_push(lines[n - 1], p);
        assert(lines.take(n) =~= lines.take(n - 1).push(lines[n - 1]));
        if forall|k: int| 0 < k < n ==> (#[trigger] lines[k]).len() > 0 {
            assert(squeezed(lines, n) =~= lines.take(n));
        }
    } else {
        assert(lines.take(0) =~= Seq::<Seq<char>>::empty());
    }
}

proof fn lemma_parts_letters(parts: Seq<Seq<char>>, sep: Seq<char>)
    requires
        letters(sep).len() == 0,
    ensures
        letters(join(parts, sep)) == letters(in_a_row(parts)),
    decreases parts.len(),
{
    lemma_in_a_row(Seq::empty(), Seq::empty());
    if parts.len() == 0 {
        assert(parts =~= Seq::<Seq<char>>::empty());
    } else {
        let front = parts.drop_last();
        let last = parts.last();
        lemma_parts_letters(front, sep);
        lemma_in_a_row(front, last);
        assert(front.push(last) =~= parts);
        lemma_letters_add(in_a_row(front), last);
        if parts.len() > 1 {
            lemma_letters_add(join(front, sep), sep);
            lemma_letters_add(join(front, sep) + sep, last);
            assert(letters(join(front, sep)) + letters(sep) =~= letters(join(front, sep)));
        } else {
            assert(front =~= Seq::<Seq<char>>::empty());
            lemma_letters_empty(Seq::<char>::empty());
            assert(letters(Seq::<char>::empty()) + letters(last) =~= letters(last));
        }
    }
}

proof fn lemma_lines_letters(s: Seq<char>)
    ensures
        letters(in_a_row(split_on(s, '\n'))) == letters(s),
    decreases s.len(),
{
    lemma_char_pos(s, '\n', 0);
    let i = char_pos(s, '\n', 0);
    let none = Seq::<Seq<char>>::empty();
    if i < s.len() {
        let head = s.take(i);
        let rest = s.skip(i + 1);
        lemma_lines_letters(rest);
        lemma_row_front(head, split_on(rest, '\n'));
        lemma_letters_add(head, in_a_row(split_on(rest, '\n')));
        assert(s =~= head + seq!['\n'] + rest);
        lemma_letters_add(head + seq!['\n'], rest);
        lemma_letters_push(head, '\n');
        assert(head + seq!['\n'] =~= head.push('\n'));
    } else {
        lemma_in_a_row(none, s);
        assert(none.push(s) =~= seq![s]);
        assert(Seq::<char>::empty() + s =~= s);
    }
}

proof fn lemma_row_front(head: Seq<char>, rest: Seq<Seq<char>>)
    ensures
        in_a_row(seq![head] + rest) == head + in_a_row(rest),
    decreases rest.len(),
{
    lemma_in_a_row(Seq::empty(), head);
    let all = seq![head] + rest;
    if rest.len() == 0 {
        assert(all =~= Seq::<Seq<char>>::empty().push(head));
        assert(rest =~= Seq::<Seq<char>>::empty());
        assert(Seq::<char>::empty() + head =~= head);
        assert(head + Seq::<char>::empty() =~= head);
    } else {
        let front = rest.drop_last();
        lemma_row_front(head, front);
        lemma_in_a_row(front, rest.last());
        lemma_in_a_row(seq![head] + front, rest.last());
        assert(front.push(rest.last()) =~= rest);
        assert((seq![head] + front).push(rest.last()) =~= all);
        assert(head + in_a_row(front) + rest.last() =~= head + (in_a_row(front) + rest.last()));
    }
}

proof fn lemma_trimmed_letters_of(lines: Seq<Seq<char>>)
    ensures
        letters(in_a_row(lines.map_values(|l: Seq<char>| trim_end(l)))) == letters(in_a_row(lines)),
    decreases lines.len(),
{
    let f = |l: Seq<char>| trim_end(l);
    if lines.len() == 0 {
        assert(lines.map_values(f) =~= lines);
    } else {
        let front = lines.drop_last();
        let last = lines.last();
        lemma_trimmed_letters_of(front);
        lemma_in_a_row(front, last);
        lemma_in_a_row(front.map_values(f), trim_end(last));
        assert(front.push(last) =~= lines);
        assert(front.map_values(f).push(trim_end(last)) =~= lines.map_values(f));
        lemma_letters_add(in_a_row(front), last);
        lemma_letters_add(in_a_row(front.map_values(f)), trim_end(last));
        crate::text::lemma_trim_end(last);
        lemma_trim_letters(last, last.len() as int);
        assert(last.take(last.len() as int) =~= last);
    }
}

proof fn lemma_squeezed_letters(lines: Seq<Seq<char>>, n: int)
    requires
        0 <= n <= lines.len(),
    ensures
        in_a_row(squeezed(lines, n)) == in_a_row(lines.take(n)),
    decreases n,
{
    if n > 0 {
        lemma_squeezed_letters(lines, n - 1);
        let last = lines[n - 1];
        lemma_in_a_row(squeezed(lines, n - 1), last);
        lemma_in_a_row(lines.take(n - 1), last);
        assert(lines.take(n - 1).push(last) =~= lines.take(n));
        if last.len() == 0 {
            assert(in_a_row(lines.take(n - 1)) + last =~= in_a_row(lines.take(n - 1)));
        }
    } else {
        assert(lines.take(0) =~= Seq::<Seq<char>>::empty());
    }
}

/// Tidying loses no letter and adds none.
pub proof fn tidy_text_has_the_same_letters(s: Seq<char>)
    ensures
        letters(tidy(s)) == letters(s),
{
    super::lines::lemma_newline();
    let lines = split_on(s, '\n');
    let cut = crate::dictionary::trimmed_lines(s);
    let n = cut.len() as int;
    lemma_lines_letters(s);
    lemma_trimmed_letters_of(lines);
    lemma_squeezed_letters(cut, n);
    assert(cut.take(n) =~= cut);
    lemma_letters_push(Seq::<char>::empty(), '\n');
    lemma_letters_empty(Seq::<char>::empty());
    assert(Seq::<char>::empty().push('\n') =~= "\n"@);
    lemma_parts_letters(squeezed(cut, n), "\n"@);
    super::compiling::lemma_trimmed_letters(join(squeezed(cut, n), "\n"@));
}

/// The lines are tidy: none holds a line feed or ends with space, no empty one follows another, and
/// the first and the last begin and end the text with a letter.
pub open spec fn are_tidy(lines: Seq<Seq<char>>) -> bool {
    &&& lines.len() > 0
    &&& lines[0].len() > 0 && !is_space(lines[0][0])
    &&& lines.last().len() > 0
    &&& forall|i: int|
        0 <= i < lines.len() ==> !(#[trigger] lines[i]).contains('\n') && (lines[i].len() > 0 ==> !is_space(
            lines[i].last(),
        ))
    &&& forall|i: int| 0 < i < lines.len() ==> (#[trigger] lines[i]).len() > 0 || lines[i - 1].len() > 0
}

proof fn lemma_squeezed_tidy(lines: Seq<Seq<char>>, n: int)
    requires
        0 <= n <= lines.len(),
        are_tidy(lines),
    ensures
        squeezed(lines, n) == lines.take(n),
    decreases n,
{
    if n > 0 {
        lemma_squeezed_tidy(lines, n - 1);
        assert(lines[n - 1].len() > 0 || n == 1 || lines[n - 2].len() > 0);
        assert(lines.take(n - 1).push(lines[n - 1]) =~= lines.take(n));
    } else {
        assert(lines.take(0) =~= Seq::<Seq<char>>::empty());
    }
}

proof fn lemma_ends_of_joined(lines: Seq<Seq<char>>)
    requires
        lines.len() > 0,
        lines[0].len() > 0,
        lines.last().len() > 0,
    ensures
        join(lines, "\n"@).len() > 0,
        join(lines, "\n"@)[0] == lines[0][0],
        join(lines, "\n"@).last() == lines.last().last(),
    decreases lines.len(),
{
    let s = join(lines, "\n"@);
    if lines.len() > 1 {
        lemma_front_of_joined(lines.drop_last());
        assert(s.last() == lines.last().last());
    }
}

proof fn lemma_front_of_joined(lines: Seq<Seq<char>>)
    requires
        lines.len() > 0,
        lines[0].len() > 0,
    ensures
        join(lines, "\n"@).len() > 0,
        join(lines, "\n"@)[0] == lines[0][0],
    decreases lines.len(),
{
    if lines.len() > 1 {
        lemma_front_of_joined(lines.drop_last());
    }
}

/// Tidy text stays as it is.
pub proof fn tidy_text_stays(lines: Seq<Seq<char>>)
    requires
        are_tidy(lines),
    ensures
        tidy(join(lines, "\n"@)) == join(lines, "\n"@),
{
    super::lines::lemma_newline();
    let s = join(lines, "\n"@);
    joined_parts_split_again(lines, '\n');
    let cut = crate::dictionary::trimmed_lines(s);
    assert forall|i: int| 0 <= i < lines.len() implies trim_end(#[trigger] lines[i]) == lines[i] by {
        assert(lines[i].len() > 0 ==> !is_space(lines[i].last()));
    }
    assert(cut =~= lines);
    lemma_squeezed_tidy(lines, lines.len() as int);
    assert(lines.take(lines.len() as int) =~= lines);
    lemma_ends_of_joined(lines);
}

// ---------------------------------------------------------------------------
// Context
// ---------------------------------------------------------------------------

proof fn lemma_first_space(s: Seq<char>, p: int)
    requires
        0 <= p <= s.len(),
        p < s.len() ==> is_space(s[p]),
        forall|i: int| 0 <= i < p ==> !is_space(#[trigger] s[i]),
    ensures
        first_space(s) == p,
    decreases s.len(),
{
    if p > 0 {
        let t = s.drop_first();
        assert forall|i: int| 0 <= i < p - 1 implies !is_space(#[trigger] t[i]) by {
            assert(t[i] == s[i + 1]);
        }
        assert(!is_space(s[0]));
        lemma_first_space(t, p - 1);
    }
}

proof fn lemma_last_space(s: Seq<char>, p: int)
    requires
        -1 <= p < s.len(),
        p >= 0 ==> is_space(s[p]),
        forall|i: int| p < i < s.len() ==> !is_space(#[trigger] s[i]),
    ensures
        last_space(s) == p,
    decreases s.len(),
{
    if p < s.len() - 1 {
        let t = s.drop_last();
        assert(!is_space(s[s.len() - 1]));
        assert forall|i: int| p < i < t.len() implies !is_space(#[trigger] t[i]) by {
            assert(t[i] == s[i]);
        }
        lemma_last_space(t, p);
    }
}

/// Before a word stands all that is no more than a hundred characters away, but for a word that
/// would be cut.
pub proof fn near_words_stand_before(text: Seq<char>, start: int, p: int)
    requires
        0 <= start <= text.len(),
    ensures
        start <= 100 ==> words_before(text, start) == trimmed(text.take(start)),
        start > 100 && start - 100 <= p < start && is_space(text[p]) && (forall|i: int|
            start - 100 <= i < p ==> !is_space(#[trigger] text[i])) ==> words_before(text, start) == trimmed(
            text.subrange(p + 1, start),
        ),
{
    let near = text.subrange(start - 100, start);
    assert(start >= 0);
    if start <= 100 {
        assert(text.subrange(0, start) =~= text.take(start));
    } else if start - 100 <= p < start && is_space(text[p]) && (forall|i: int|
        start - 100 <= i < p ==> !is_space(#[trigger] text[i])) {
        let q = p - (start - 100);
        assert forall|i: int| 0 <= i < q implies !is_space(#[trigger] near[i]) by {
            assert(near[i] == text[start - 100 + i]);
        }
        assert(near[q] == text[p]);
        lemma_first_space(near, q);
        assert(near.skip(q + 1) =~= text.subrange(p + 1, start));
    }
}

/// Behind a word stands all that is no more than a hundred characters away, but for a word that
/// would be cut.
pub proof fn near_words_stand_behind(text: Seq<char>, end: int, p: int)
    requires
        0 <= end <= text.len(),
    ensures
        end + 100 >= text.len() ==> words_behind(text, end) == trimmed(text.skip(end)),
        end + 100 < text.len() && end <= p < end + 100 && is_space(text[p]) && (forall|i: int|
            p < i < end + 100 ==> !is_space(#[trigger] text[i])) ==> words_behind(text, end) == trimmed(
            text.subrange(end, p),
        ),
{
    let near = text.subrange(end, end + 100);
    if end + 100 >= text.len() {
        assert(text.subrange(end, text.len() as int) =~= text.skip(end));
    } else if end <= p < end + 100 && is_space(text[p]) && (forall|i: int|
        p < i < end + 100 ==> !is_space(#[trigger] text[i])) {
        let q = p - end;
        assert forall|i: int| q < i < near.len() implies !is_space(#[trigger] near[i]) by {
            assert(near[i] == text[end + i]);
        }
        assert(near[q] == text[p]);
        lemma_last_space(near, q);
        assert(near.take(q) =~= text.subrange(end, p));
    }
}

// ---------------------------------------------------------------------------
// Meanings
// ---------------------------------------------------------------------------

/// Every definition of every meaning becomes an entry, in order, with the part of speech in front.
pub proof fn every_definition_becomes_an_entry(word: Seq<char>, meanings: Seq<ApiMeaning>, k: int, j: int, n: int)
    requires
        0 <= k < n <= meanings.len(),
        0 <= j < meanings[k].definitions@.len(),
    ensures
        ({
            let at = all_entries(word, meanings, k).len() + j;
            let all = all_entries(word, meanings, n);
            &&& at < all.len()
            &&& all[at].word == word
            &&& all[at].definition == "("@ + meanings[k].part_of_speech@ + ") "@ + meanings[k].definitions@[j]@
            &&& all_entries(word, meanings, k + 1).len() == all_entries(word, meanings, k).len()
                + meanings[k].definitions@.len()
            &&& all_entries(word, meanings, 0).len() == 0
        }),
    decreases n,
{
    let m = meanings[n - 1].definitions@.len() as int;
    lemma_meaning(word, meanings[n - 1], 0, m);
    if k < n - 1 {
        every_definition_becomes_an_entry(word, meanings, k, j, n - 1);
    } else {
        lemma_meaning(word, meanings[k], j, m);
    }
}

proof fn lemma_meaning(word: Seq<char>, m: ApiMeaning, j: int, n: int)
    requires
        0 <= n,
    ensures
        meaning_entries(word, m, n).len() == n,
        0 <= j < n ==> meaning_entries(word, m, n)[j] == (EntryText {
            word,
            definition: "("@ + m.part_of_speech@ + ") "@ + m.definitions@[j]@,
        }),
    decreases n,
{
    if n > 0 {
        lemma_meaning(word, m, j, n - 1);
    }
}

} // verus!
