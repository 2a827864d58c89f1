//! Looking words up: requests to a dictionary, and definitions as they are shown.

use vstd::prelude::*;
use vstd::utf8::{
    encode_utf8, encode_utf8_decode_utf8, is_ascii_chars, is_ascii_chars_encode_utf8, is_scalar,
};

use crate::text::{
    ascii_lowercase, char_pos, chars_of, find_char, is_space, is_white, join, join_texts,
    lower_ascii_char, push_repeated, repeated, same_text, split_on, split_text, split_words,
    text_of, texts, trim_end, trim_end_text, trim_text, trimmed, words,
};

verus! {

/// A word and what it means.
pub struct DictionaryEntry {
    pub word: String,
    pub definition: String,
}

// ---------------------------------------------------------------------------
// Entities
// ---------------------------------------------------------------------------

/// Calls `char::from_u32`: gives the character with a code where the code is one of a character,
/// and nothing otherwise.
pub assume_specification[ char::from_u32 ](i: u32) -> (r: Option<char>)
    ensures
        match r {
            Some(c) => is_scalar(i) && c == i as char,
            None => !is_scalar(i),
        },
;

/// The value of a digit, below 16, where it is one.
pub open spec fn digit_value(c: char) -> Option<int> {
    if '0' <= c <= '9' {
        Some(c as int - 48)
    } else if 'a' <= c <= 'f' {
        Some(c as int - 87)
    } else if 'A' <= c <= 'F' {
        Some(c as int - 55)
    } else {
        None
    }
}

/// The number that digits write, where all of them are digits.
pub open spec fn digits_value(s: Seq<char>, radix: int) -> Option<int>
    decreases s.len(),
{
    if s.len() == 0 {
        Some(0)
    } else {
        match (digits_value(s.drop_last(), radix), digit_value(s.last())) {
            (Some(before), Some(d)) => if d < radix {
                Some(before * radix + d)
            } else {
                None
            },
            _ => None,
        }
    }
}

/// The number of at most 32 bits that a text writes: digits, behind a plus sign or not.
pub open spec fn written_number(s: Seq<char>, radix: int) -> Option<int> {
    let digits = if s.len() > 0 && s[0] == '+' {
        s.skip(1)
    } else {
        s
    };
    if digits.len() == 0 {
        None
    } else {
        match digits_value(digits, radix) {
            Some(n) => if n <= u32::MAX {
                Some(n)
            } else {
                None
            },
            None => None,
        }
    }
}

/// The character with a code, where the code is one of a character.
pub open spec fn scalar(n: Option<int>) -> Option<char> {
    match n {
        Some(n) => if is_scalar(n as u32) {
            Some(n as u32 as char)
        } else {
            None
        },
        None => None,
    }
}

/// The character that an entity names by its code.
pub open spec fn numeric_entity(entity: Seq<char>) -> Option<char> {
    if entity.len() >= 2 && entity[0] == '#' && (entity[1] == 'x' || entity[1] == 'X') {
        scalar(written_number(entity.skip(2), 16))
    } else if entity.len() >= 1 && entity[0] == '#' {
        scalar(written_number(entity.skip(1), 10))
    } else {
        None
    }
}

/// What an entity stands for, by its name.
pub open spec fn named_entity(entity: Seq<char>) -> Option<char> {
    if entity == "amp"@ {
        Some('&')
    } else if entity == "lt"@ {
        Some('<')
    } else if entity == "gt"@ {
        Some('>')
    } else if entity == "quot"@ {
        Some('"')
    } else if entity == "apos"@ {
        Some('\'')
    } else if entity == "nbsp"@ {
        Some(' ')
    } else if entity == "lsqb"@ {
        Some('[')
    } else if entity == "rsqb"@ {
        Some(']')
    } else if entity == "lsquo"@ {
        Some('\u{2018}')
    } else if entity == "rsquo"@ {
        Some('\u{2019}')
    } else if entity == "ldquo"@ {
        Some('\u{201c}')
    } else if entity == "rdquo"@ {
        Some('\u{201d}')
    } else if entity == "mdash"@ {
        Some('\u{2014}')
    } else if entity == "ndash"@ {
        Some('\u{2013}')
    } else if entity == "hellip"@ {
        Some('\u{2026}')
    } else {
        None
    }
}

/// The characters that an entity stands for; one that is not known stands for itself.
pub open spec fn decoded_entity(entity: Seq<char>) -> Seq<char> {
    match numeric_entity(entity) {
        Some(c) => seq![c],
        None => match named_entity(entity) {
            Some(c) => seq![c],
            None => seq!['&'] + entity + seq![';'],
        },
    }
}

fn value_of_digit(c: char) -> (r: Option<u32>)
    ensures
        match r {
            Some(d) => digit_value(c) == Some(d as int) && d < 16,
            None => digit_value(c) is None,
        },
{
    let n: u32 = c as u32;
    if 48 <= n && n <= 57 {
        Some(n - 48)
    } else if 97 <= n && n <= 102 {
        Some(n - 87)
    } else if 65 <= n && n <= 70 {
        Some(n - 55)
    } else {
        None
    }
}

proof fn lemma_digits_prefix(s: Seq<char>, radix: int, k: int)
    requires
        0 <= k <= s.len(),
        radix >= 1,
    ensures
        digits_value(s, radix) matches Some(n) ==> digits_value(s.take(k), radix) matches Some(m) && 0 <= m <= n,
    decreases s.len(),
{
    if k == s.len() {
        assert(s.take(k) =~= s);
        lemma_digits_value(s, radix);
    } else {
        lemma_digits_prefix(s.drop_last(), radix, k);
        assert(s.drop_last().take(k) =~= s.take(k));
        match (digits_value(s.drop_last(), radix), digit_value(s.last())) {
            (Some(before), Some(d)) => {
                lemma_digits_value(s.drop_last(), radix);
                assert(before <= before * radix + d) by (nonlinear_arith)
                    requires
                        0 <= before,
                        radix >= 1,
                        d >= 0,
                ;
            },
            _ => {},
        }
    }
}

proof fn lemma_digits_value(s: Seq<char>, radix: int)
    requires
        radix >= 1,
    ensures
        digits_value(s, radix) matches Some(n) ==> 0 <= n,
    decreases s.len(),
{
    if s.len() > 0 {
        lemma_digits_value(s.drop_last(), radix);
        match (digits_value(s.drop_last(), radix), digit_value(s.last())) {
            (Some(before), Some(d)) => {
                assert(0 <= before * radix + d) by (nonlinear_arith)
                    requires
                        0 <= before,
                        radix >= 1,
                        d >= 0,
                ;
            },
            _ => {},
        }
    }
}

/// The number that the characters from `lo` on write.
fn read_number(chars: &Vec<char>, lo: usize, radix: u32) -> (r: Option<u32>)
    requires
        lo <= chars@.len(),
        radix == 10 || radix == 16,
    ensures
        match r {
            Some(n) => written_number(chars@.skip(lo as int), radix as int) == Some(n as int),
            None => written_number(chars@.skip(lo as int), radix as int) is None,
        },
{
    let total: usize = chars.len();
    let from: usize = if lo < total && chars[lo] == '+' {
        lo + 1
    } else {
        lo
    };
    let ghost all = chars@.skip(lo as int);
    let ghost digits = chars@.skip(from as int);
    assert(digits =~= if all.len() > 0 && all[0] == '+' {
        all.skip(1)
    } else {
        all
    });
    if from == total {
        return None;
    }
    let mut value: u64 = 0;
    let mut i: usize = from;
    assert(digits.take(0) =~= Seq::<char>::empty());
    while i < total
        invariant
            from <= i <= total,
            total == chars@.len(),
            from < total,
            radix == 10 || radix == 16,
            digits == chars@.skip(from as int),
            written_number(chars@.skip(lo as int), radix as int) == (match digits_value(digits, radix as int) {
                Some(n) => if n <= u32::MAX {
                    Some(n)
                } else {
                    None
                },
                None => None,
            }),
            value <= u32::MAX,
            digits_value(digits.take(i - from), radix as int) == Some(value as int),
        decreases total - i,
    {
        let ghost part = digits.take(i - from + 1);
        assert(part.drop_last() =~= digits.take(i - from));
        assert(part.last() == chars@[i as int]);
        proof {
            lemma_digits_prefix(digits, radix as int, i - from + 1);
        }
        match value_of_digit(chars[i]) {
            Some(d) => {
                if d >= radix {
                    return None;
                }
                value = value * radix as u64 + d as u64;
                if value > u32::MAX as u64 {
                    return None;
                }
            },
            None => return None,
        }
        i += 1;
    }
    assert(digits.take(i - from) =~= digits);
    Some(value as u32)
}

/// The number that the characters from `from` on write in decimal digits, where they are digits
/// and the number has at most 64 bits.
pub fn read_digits(chars: &Vec<char>, from: usize) -> (r: Option<u64>)
    requires
        from <= chars@.len(),
    ensures
        match r {
            Some(n) => digits_value(chars@.skip(from as int), 10) == Some(n as int),
            None => digits_value(chars@.skip(from as int), 10) matches Some(n) ==> n > u64::MAX,
        },
{
    let ghost digits = chars@.skip(from as int);
    let total: usize = chars.len();
    let mut value: u64 = 0;
    let mut i: usize = from;
    assert(digits.take(0) =~= Seq::<char>::empty());
    while i < total
        invariant
            from <= i <= total,
            total == chars@.len(),
            digits == chars@.skip(from as int),
            digits_value(digits.take(i - from), 10) == Some(value as int),
        decreases total - i,
    {
        let ghost part = digits.take(i - from + 1);
        assert(part.drop_last() =~= digits.take(i - from));
        assert(part.last() == chars@[i as int]);
        proof {
            lemma_digits_prefix(digits, 10, i - from + 1);
        }
        match value_of_digit(chars[i]) {
            Some(d) => {
                if d >= 10 {
                    return None;
                }
                let next: u128 = value as u128 * 10 + d as u128;
                if next > u64::MAX as u128 {
                    return None;
                }
                value = next as u64;
            },
            None => return None,
        }
        i += 1;
    }
    assert(digits.take(i - from) =~= digits);
    Some(value)
}

fn named(entity: &str) -> (r: Option<char>)
    ensures
        r == named_entity(entity@),
{
    if same_text(entity, "amp") {
        Some('&')
    } else if same_text(entity, "lt") {
        Some('<')
    } else if same_text(entity, "gt") {
        Some('>')
    } else if same_text(entity, "quot") {
        Some('"')
    } else if same_text(entity, "apos") {
        Some('\'')
    } else if same_text(entity, "nbsp") {
        Some(' ')
    } else if same_text(entity, "lsqb") {
        Some('[')
    } else if same_text(entity, "rsqb") {
        Some(']')
    } else if same_text(entity, "lsquo") {
        Some('\u{2018}')
    } else if same_text(entity, "rsquo") {
        Some('\u{2019}')
    } else if same_text(entity, "ldquo") {
        Some('\u{201c}')
    } else if same_text(entity, "rdquo") {
        Some('\u{201d}')
    } else if same_text(entity, "mdash") {
        Some('\u{2014}')
    } else if same_text(entity, "ndash") {
        Some('\u{2013}')
    } else if same_text(entity, "hellip") {
        Some('\u{2026}')
    } else {
        None
    }
}

fn numbered(chars: &Vec<char>) -> (r: Option<char>)
    ensures
        r == numeric_entity(chars@),
{
    if chars.len() == 0 || chars[0] != '#' {
        return None;
    }
    let code = if chars.len() >= 2 && (chars[1] == 'x' || chars[1] == 'X') {
        read_number(chars, 2, 16)
    } else {
        read_number(chars, 1, 10)
    };
    match code {
        Some(n) => char::from_u32(n),
        None => None,
    }
}

/// The characters that an entity stands for; one that is not known stands for itself.
pub fn decode_entity(entity: &str) -> (r: String)
    ensures
        r@ == decoded_entity(entity@),
{
    let mut out = String::new();
    match numbered(&chars_of(entity)) {
        Some(c) => out.push(c),
        None => match named(entity) {
            Some(c) => out.push(c),
            None => {
                out.push('&');
                out.append(entity);
                out.push(';');
            },
        },
    }
    assert(out@ =~= decoded_entity(entity@));
    out
}

// ---------------------------------------------------------------------------
// Definitions as text
// ---------------------------------------------------------------------------

/// A tag's text without the slashes at its front.
pub open spec fn without_slashes(tag: Seq<char>) -> Seq<char>
    decreases tag.len(),
{
    if tag.len() > 0 && tag[0] == '/' {
        without_slashes(tag.drop_first())
    } else {
        tag
    }
}

/// The name of a tag: its first word, in lower case.
pub open spec fn tag_name(tag: Seq<char>) -> Seq<char> {
    let parts = words(without_slashes(tag));
    if parts.len() > 0 {
        ascii_lowercase(parts[0])
    } else {
        Seq::empty()
    }
}

/// Whether a text holds nothing but spaces.
pub open spec fn only_spaces(s: Seq<char>) -> bool {
    forall|i: int| 0 <= i < s.len() ==> s[i] == ' '
}

/// One less, but not less than nothing.
pub open spec fn one_less(n: int) -> int {
    if n > 0 {
        n - 1
    } else {
        0
    }
}

/// The text so far and the depth of lists, behind a tag. A paragraph starts behind a blank line,
/// an item on a line of its own behind a bullet.
pub open spec fn after_tag(out: Seq<char>, depth: int, tag: Seq<char>) -> (Seq<char>, int) {
    let closing = tag.len() > 0 && tag[0] == '/';
    let name = tag_name(tag);
    if !closing && (name == "p"@ || name == "div"@) {
        (
            if only_spaces(out) {
                out
            } else {
                out + "\n\n"@
            },
            depth,
        )
    } else if !closing && name == "li"@ {
        let line = if out.len() > 0 && out.last() != '\n' {
            out.push('\n')
        } else {
            out
        };
        (line + repeated("  "@, one_less(depth) as nat) + "\u{2022} "@, depth)
    } else if name == "ol"@ || name == "ul"@ {
        (
            out,
            if closing {
                one_less(depth)
            } else {
                depth + 1
            },
        )
    } else if name == "br"@ {
        (out.push('\n'), depth)
    } else {
        (out, depth)
    }
}

/// The text so far, followed by what stands from place `i` on, with tags carried out and
/// entities replaced.
pub open spec fn shown_from(s: Seq<char>, i: int, out: Seq<char>, depth: int) -> Seq<char>
    decreases s.len() - i,
{
    if i < 0 || i >= s.len() {
        out
    } else if s[i] == '<' {
        let j = char_pos(s, '>', i);
        if i < j < s.len() {
            let (more, deeper) = after_tag(out, depth, s.subrange(i + 1, j));
            shown_from(s, j + 1, more, deeper)
        } else {
            out + s.skip(i)
        }
    } else if s[i] == '&' {
        let j = char_pos(s, ';', i);
        if i < j < s.len() {
            shown_from(s, j + 1, out + decoded_entity(s.subrange(i + 1, j)), depth)
        } else {
            shown_from(s, i + 1, out.push('&'), depth)
        }
    } else {
        shown_from(s, i + 1, out.push(s[i]), depth)
    }
}

/// The first `n` lines without those that are blank behind another blank one.
pub open spec fn squeezed(lines: Seq<Seq<char>>, n: int) -> Seq<Seq<char>>
    decreases n,
{
    if n <= 0 {
        Seq::empty()
    } else if n > 1 && lines[n - 1].len() == 0 && lines[n - 2].len() == 0 {
        squeezed(lines, n - 1)
    } else {
        squeezed(lines, n - 1).push(lines[n - 1])
    }
}

/// The lines of a text without the white space at their backs.
pub open spec fn trimmed_lines(s: Seq<char>) -> Seq<Seq<char>> {
    split_on(s, '\n').map_values(|l: Seq<char>| trim_end(l))
}

/// A text with its lines trimmed and no two blank lines together.
pub open spec fn tidy(s: Seq<char>) -> Seq<char> {
    let lines = trimmed_lines(s);
    trimmed(join(squeezed(lines, lines.len() as int), "\n"@))
}

/// A definition in HTML, as text.
pub open spec fn display_text(html: Seq<char>) -> Seq<char> {
    tidy(shown_from(html, 0, Seq::empty(), 0))
}

fn name_of_tag(chars: &Vec<char>, lo: usize, hi: usize) -> (r: String)
    requires
        lo <= hi <= chars@.len(),
    ensures
        r@ == tag_name(chars@.subrange(lo as int, hi as int)),
{
    let ghost tag = chars@.subrange(lo as int, hi as int);
    let mut k: usize = lo;
    while k < hi && chars[k] == '/'
        invariant
            lo <= k <= hi <= chars@.len(),
            tag == chars@.subrange(lo as int, hi as int),
            without_slashes(tag) == without_slashes(chars@.subrange(k as int, hi as int)),
        decreases hi - k,
    {
        assert(chars@.subrange(k as int, hi as int).drop_first() =~= chars@.subrange(k + 1, hi as int));
        k += 1;
    }
    let parts = split_words(text_of(chars, k, hi).as_str());
    let mut out = String::new();
    if parts.len() > 0 {
        let ghost name = parts@[0]@;
        assert(texts(parts@)[0] == name);
        let letters = chars_of(parts[0].as_str());
        let mut i: usize = 0;
        while i < letters.len()
            invariant
                i <= letters@.len(),
                letters@ == name,
                out@ =~= ascii_lowercase(name.take(i as int)),
            decreases letters@.len() - i,
        {
            out.push(lower_ascii_char(letters[i]));
            i += 1;
        }
        assert(name.take(i as int) =~= name);
    } else {
        assert(out@ =~= Seq::<char>::empty());
    }
    out
}

fn push_text(out: &mut Vec<char>, s: &str)
    ensures
        final(out)@ == old(out)@ + s@,
{
    let mut more = chars_of(s);
    out.append(&mut more);
}

fn holds_only_spaces(out: &Vec<char>) -> (r: bool)
    ensures
        r == only_spaces(out@),
{
    let mut i: usize = 0;
    while i < out.len()
        invariant
            i <= out@.len(),
            forall|j: int| 0 <= j < i ==> out@[j] == ' ',
        decreases out@.len() - i,
    {
        if out[i] != ' ' {
            return false;
        }
        i += 1;
    }
    true
}

/// Carries out a tag, and gives the depth of lists behind it.
fn apply_tag(
    out: &mut Vec<char>,
    depth: usize,
    chars: &Vec<char>,
    lo: usize,
    hi: usize,
) -> (r: usize)
    requires
        lo <= hi <= chars@.len(),
        depth < usize::MAX,
    ensures
        (final(out)@, r as int) == after_tag(old(out)@, depth as int, chars@.subrange(lo as int, hi as int)),
        r <= depth + 1,
{
    let ghost before = out@;
    let ghost tag = chars@.subrange(lo as int, hi as int);
    let closing = lo < hi && chars[lo] == '/';
    let name = name_of_tag(chars, lo, hi);
    let name = name.as_str();
    if !closing && (same_text(name, "p") || same_text(name, "div")) {
        if !holds_only_spaces(out) {
            push_text(out, "\n\n");
        }
        depth
    } else if !closing && same_text(name, "li") {
        if out.len() > 0 && out[out.len() - 1] != '\n' {
            out.push('\n');
        }
        let mut bullet = String::new();
        push_repeated(
            &mut bullet,
            "  ",
            if depth > 0 {
                depth - 1
            } else {
                0
            },
        );
        bullet.append("\u{2022} ");
        push_text(out, bullet.as_str());
        assert(out@ =~= after_tag(before, depth as int, tag).0);
        depth
    } else if same_text(name, "ol") || same_text(name, "ul") {
        if closing {
            if depth > 0 {
                depth - 1
            } else {
                0
            }
        } else {
            depth + 1
        }
    } else if same_text(name, "br") {
        out.push('\n');
        depth
    } else {
        depth
    }
}

fn tidy_text(s: &str) -> (r: String)
    ensures
        r@ == tidy(s@),
{
    let pieces = split_text(s, '\n');
    let ghost lines = trimmed_lines(s@);
    assert(lines.len() == pieces@.len());
    let mut kept: Vec<String> = Vec::new();
    let mut after_blank = false;
    let mut k: usize = 0;
    assert(texts(kept@) =~= squeezed(lines, 0));
    while k < pieces.len()
        invariant
            k <= pieces@.len(),
            lines == trimmed_lines(s@),
            lines.len() == pieces@.len(),
            texts(pieces@) == split_on(s@, '\n'),
            after_blank == (k > 0 && lines[k - 1].len() == 0),
            texts(kept@) == squeezed(lines, k as int),
        decreases pieces@.len() - k,
    {
        assert(texts(pieces@)[k as int] == pieces@[k as int]@);
        let line = trim_end_text(pieces[k].as_str());
        assert(line@ == lines[k as int]);
        let blank = line.as_str().is_empty();
        let ghost before = kept@;
        if !(blank && after_blank) {
            kept.push(line);
            assert(texts(kept@) =~= texts(before).push(lines[k as int]));
        }
        after_blank = blank;
        k += 1;
    }
    trim_text(join_texts(&kept, "\n").as_str())
}

/// A definition in HTML, as text: paragraphs apart, items behind bullets, entities replaced, and
/// other tags left out. A tag that is not closed is text.
pub fn html_to_display_text(html: &str) -> (r: String)
    ensures
        r@ == display_text(html@),
{
    let chars = chars_of(html);
    let total: usize = chars.len();
    let mut out: Vec<char> = Vec::new();
    let mut depth: usize = 0;
    let mut i: usize = 0;
    let ghost whole = shown_from(html@, 0, Seq::empty(), 0);
    assert(out@ =~= Seq::<char>::empty());
    while i < total
        invariant
            i <= total,
            total == chars@.len(),
            chars@ == html@,
            depth <= i,
            whole == shown_from(html@, i as int, out@, depth as int),
        ensures
            whole == out@,
        decreases total - i,
    {
        let c = chars[i];
        let ghost before = out@;
        if c == '<' {
            let j: usize = find_char(&chars, '>', i);
            if j < total {
                depth = apply_tag(&mut out, depth, &chars, i + 1, j);
                i = j + 1;
            } else {
                push_text(&mut out, text_of(&chars, i, total).as_str());
                assert(chars@.subrange(i as int, total as int) =~= chars@.skip(i as int));
                i = total;
            }
        } else if c == '&' {
            let j: usize = find_char(&chars, ';', i);
            if j < total {
                push_text(&mut out, decode_entity(text_of(&chars, i + 1, j).as_str()).as_str());
                i = j + 1;
            } else {
                out.push('&');
                i += 1;
            }
        } else {
            out.push(c);
            i += 1;
        }
    }
    let text = text_of(&out, 0, out.len());
    assert(out@.subrange(0, out@.len() as int) =~= out@);
    tidy_text(text.as_str())
}

proof fn lemma_squeezed_end(lines: Seq<Seq<char>>, n: int)
    requires
        0 < n <= lines.len(),
    ensures
        squeezed(lines, n).len() > 0,
        squeezed(lines, n).last().len() == 0 <==> lines[n - 1].len() == 0,
    decreases n,
{
    reveal_with_fuel(squeezed, 2);
    if n > 1 {
        lemma_squeezed_end(lines, n - 1);
    }
}

/// No two blank lines follow one another in a definition as text.
pub proof fn blank_lines_stand_alone(lines: Seq<Seq<char>>, n: int, k: int)
    requires
        0 <= n <= lines.len(),
        0 <= k < squeezed(lines, n).len() - 1,
    ensures
        squeezed(lines, n)[k].len() > 0 || squeezed(lines, n)[k + 1].len() > 0,
    decreases n,
{
    if n > 0 {
        if k < squeezed(lines, n - 1).len() - 1 {
            blank_lines_stand_alone(lines, n - 1, k);
        } else if n > 1 {
            lemma_squeezed_end(lines, n - 1);
        }
    }
}

// ---------------------------------------------------------------------------
// Context
// ---------------------------------------------------------------------------

/// How many characters to either side of a word are looked at.
pub const VOCAB_CONTEXT_RADIUS: usize = 100;

/// The place of the first white space, or the length where there is none.
pub open spec fn first_space(s: Seq<char>) -> int
    decreases s.len(),
{
    if s.len() == 0 || is_space(s[0]) {
        0
    } else {
        1 + first_space(s.drop_first())
    }
}

/// The place of the last white space, or `-1` where there is none.
pub open spec fn last_space(s: Seq<char>) -> int
    decreases s.len(),
{
    if s.len() == 0 {
        -1
    } else if is_space(s.last()) {
        s.len() - 1
    } else {
        last_space(s.drop_last())
    }
}

/// The words before a word: those within the radius, without one that is cut.
pub open spec fn words_before(text: Seq<char>, word_start: int) -> Seq<char> {
    let from = if word_start > VOCAB_CONTEXT_RADIUS {
        word_start - VOCAB_CONTEXT_RADIUS
    } else {
        0
    };
    let near = text.subrange(from, word_start);
    trimmed(
        if from == 0 {
            near
        } else if first_space(near) < near.len() {
            near.skip(first_space(near) + 1)
        } else {
            Seq::empty()
        },
    )
}

/// The words behind a word: those within the radius, without one that is cut.
pub open spec fn words_behind(text: Seq<char>, word_end: int) -> Seq<char> {
    let to = if word_end + VOCAB_CONTEXT_RADIUS < text.len() {
        word_end + VOCAB_CONTEXT_RADIUS
    } else {
        text.len() as int
    };
    let near = text.subrange(word_end, to);
    trimmed(
        if to == text.len() {
            near
        } else if last_space(near) >= 0 {
            near.take(last_space(near))
        } else {
            Seq::empty()
        },
    )
}

fn find_first_space(chars: &Vec<char>, lo: usize, hi: usize) -> (r: usize)
    requires
        lo <= hi <= chars@.len(),
    ensures
        lo <= r <= hi,
        r == lo + first_space(chars@.subrange(lo as int, hi as int)),
{
    let ghost near = chars@.subrange(lo as int, hi as int);
    let mut i: usize = lo;
    while i < hi && !is_white(chars[i])
        invariant
            lo <= i <= hi <= chars@.len(),
            near == chars@.subrange(lo as int, hi as int),
            first_space(near) == i - lo + first_space(chars@.subrange(i as int, hi as int)),
        decreases hi - i,
    {
        assert(chars@.subrange(i as int, hi as int).drop_first() =~= chars@.subrange(i + 1, hi as int));
        i += 1;
    }
    i
}

fn find_last_space(chars: &Vec<char>, lo: usize, hi: usize) -> (r: Option<usize>)
    requires
        lo <= hi <= chars@.len(),
    ensures
        match r {
            Some(i) => lo <= i < hi && last_space(chars@.subrange(lo as int, hi as int)) == i - lo,
            None => last_space(chars@.subrange(lo as int, hi as int)) == -1,
        },
{
    let ghost near = chars@.subrange(lo as int, hi as int);
    let mut i: usize = hi;
    while i > lo
        invariant
            lo <= i <= hi <= chars@.len(),
            near == chars@.subrange(lo as int, hi as int),
            last_space(near) == last_space(chars@.subrange(lo as int, i as int)),
        decreases i,
    {
        assert(chars@.subrange(lo as int, i as int).drop_last() =~= chars@.subrange(lo as int, i - 1));
        if is_white(chars[i - 1]) {
            return Some(i - 1);
        }
        i -= 1;
    }
    None
}

/// The words before and behind a word of a text.
pub fn context_around(text: &str, word_start: usize, word_end: usize) -> (r: (String, String))
    requires
        word_start <= text@.len(),
        word_end <= text@.len(),
    ensures
        r.0@ == words_before(text@, word_start as int),
        r.1@ == words_behind(text@, word_end as int),
{
    let chars = chars_of(text);
    let total: usize = chars.len();
    let from: usize = if word_start > VOCAB_CONTEXT_RADIUS {
        word_start - VOCAB_CONTEXT_RADIUS
    } else {
        0
    };
    let to: usize = if VOCAB_CONTEXT_RADIUS < total - word_end {
        word_end + VOCAB_CONTEXT_RADIUS
    } else {
        total
    };
    let mut lo: usize = from;
    if from > 0 {
        let at: usize = find_first_space(&chars, from, word_start);
        if at < word_start {
            lo = at + 1;
            assert(chars@.subrange(lo as int, word_start as int) =~= chars@.subrange(
                from as int,
                word_start as int,
            ).skip(at - from + 1));
        } else {
            lo = word_start;
            assert(chars@.subrange(lo as int, word_start as int) =~= Seq::<char>::empty());
        }
    }
    let before = text_of(&chars, lo, word_start);
    let mut hi: usize = to;
    if to < total {
        match find_last_space(&chars, word_end, to) {
            Some(at) => {
                hi = at;
                assert(chars@.subrange(word_end as int, hi as int) =~= chars@.subrange(
                    word_end as int,
                    to as int,
                ).take(at - word_end));
            },
            None => {
                hi = word_end;
                assert(chars@.subrange(word_end as int, hi as int) =~= Seq::<char>::empty());
            },
        }
    }
    let after = text_of(&chars, word_end, hi);
    (trim_text(before.as_str()), trim_text(after.as_str()))
}

proof fn lemma_first_space(s: Seq<char>)
    ensures
        0 <= first_space(s) <= s.len(),
        first_space(s) < s.len() ==> is_space(s[first_space(s)]),
    decreases s.len(),
{
    if s.len() > 0 && !is_space(s[0]) {
        lemma_first_space(s.drop_first());
    }
}

proof fn lemma_last_space(s: Seq<char>)
    ensures
        -1 <= last_space(s) < s.len(),
        last_space(s) >= 0 ==> is_space(s[last_space(s)]),
    decreases s.len(),
{
    if s.len() > 0 && !is_space(s.last()) {
        lemma_last_space(s.drop_last());
    }
}

/// The text from `p` to `q` begins and ends where the whole text does, at white space, or at the
/// word between `word_start` and `word_end`.
pub open spec fn is_uncut(
    text: Seq<char>,
    p: int,
    q: int,
    word_start: int,
    word_end: int,
) -> bool {
    &&& 0 <= p <= q <= text.len()
    &&& p == 0 || p == word_start || p == word_end || is_space(text[p - 1])
    &&& q == text.len() || q == word_start || q == word_end || is_space(text[q])
}

/// The words before and behind a word never open or close in the middle of another word.
pub proof fn contexts_hold_whole_words(text: Seq<char>, word_start: int, word_end: int)
    requires
        0 <= word_start <= text.len(),
        0 <= word_end <= text.len(),
    ensures
        exists|p: int|
            #![trigger text.subrange(p, word_start)]
            is_uncut(text, p, word_start, word_start, word_end) && words_before(text, word_start)
                == trimmed(text.subrange(p, word_start)),
        exists|q: int|
            #![trigger text.subrange(word_end, q)]
            is_uncut(text, word_end, q, word_start, word_end) && words_behind(text, word_end)
                == trimmed(text.subrange(word_end, q)),
{
    let from = if word_start > VOCAB_CONTEXT_RADIUS {
        word_start - VOCAB_CONTEXT_RADIUS
    } else {
        0
    };
    let near = text.subrange(from, word_start);
    lemma_first_space(near);
    let at = first_space(near);
    let p = if from == 0 {
        0
    } else if at < near.len() {
        from + at + 1
    } else {
        word_start
    };
    assert(text.subrange(p, word_start) =~= (if from == 0 {
        near
    } else if at < near.len() {
        near.skip(at + 1)
    } else {
        Seq::empty()
    }));
    assert(is_uncut(text, p, word_start, word_start, word_end)) by {
        if from > 0 && at < near.len() {
            assert(near[at] == text[from + at]);
        }
    }
    let to = if word_end + VOCAB_CONTEXT_RADIUS < text.len() {
        word_end + VOCAB_CONTEXT_RADIUS
    } else {
        text.len() as int
    };
    let beyond = text.subrange(word_end, to);
    lemma_last_space(beyond);
    let end = last_space(beyond);
    let q = if to == text.len() {
        to
    } else if end >= 0 {
        word_end + end
    } else {
        word_end
    };
    assert(text.subrange(word_end, q) =~= (if to == text.len() {
        beyond
    } else if end >= 0 {
        beyond.take(end)
    } else {
        Seq::empty()
    }));
    assert(is_uncut(text, word_end, q, word_start, word_end)) by {
        if to < text.len() && end >= 0 {
            assert(beyond[end] == text[word_end + end]);
        }
    }
}

// ---------------------------------------------------------------------------
// Asking a dictionary
// ---------------------------------------------------------------------------

/// Whether a byte stands in an address as it is.
pub open spec fn is_unreserved(b: u8) -> bool {
    65 <= b <= 90 || 97 <= b <= 122 || 48 <= b <= 57 || b == 45 || b == 95 || b == 46 || b == 126
}

/// An uppercase hexadecimal digit.
pub open spec fn upper_hex(d: int) -> char {
    if d < 10 {
        (d + 48) as char
    } else {
        (d + 55) as char
    }
}

/// A byte as it stands in an address.
pub open spec fn encoded_byte(b: u8) -> Seq<char> {
    if is_unreserved(b) {
        seq![b as char]
    } else {
        seq!['%', upper_hex(b as int / 16), upper_hex(b as int % 16)]
    }
}

/// The first `n` bytes as they stand in an address.
pub open spec fn encoded_bytes(bytes: Seq<u8>, n: int) -> Seq<char>
    decreases n,
{
    if n <= 0 {
        Seq::empty()
    } else {
        encoded_bytes(bytes, n - 1) + encoded_byte(bytes[n - 1])
    }
}

/// A text as it stands in an address: its UTF-8 bytes.
pub open spec fn url_encoded(s: Seq<char>) -> Seq<char> {
    encoded_bytes(encode_utf8(s), encode_utf8(s).len() as int)
}

fn upper_hex_char(d: u8) -> (r: char)
    requires
        d < 16,
    ensures
        r == upper_hex(d as int),
{
    if d < 10 {
        (d + 48) as char
    } else {
        (d + 55) as char
    }
}

/// A text as it stands in an address: letters, digits and `-_.~` as they are, every other byte
/// behind a percent sign.
pub fn urlencoding_encode(s: &str) -> (r: String)
    ensures
        r@ == url_encoded(s@),
{
    let bytes = s.as_bytes();
    let ghost all = encode_utf8(s@);
    let mut out = String::new();
    assert(out@ =~= Seq::<char>::empty());
    let mut i: usize = 0;
    while i < bytes.len()
        invariant
            i <= bytes@.len(),
            bytes@ == all,
            out@ == encoded_bytes(all, i as int),
        decreases bytes@.len() - i,
    {
        let b: u8 = bytes[i];
        let ghost before = out@;
        if (65 <= b && b <= 90) || (97 <= b && b <= 122) || (48 <= b && b <= 57) || b == 45 || b == 95 || b == 46 || b
            == 126 {
            out.push(b as char);
        } else {
            out.push('%');
            out.push(upper_hex_char(b / 16));
            out.push(upper_hex_char(b % 16));
        }
        assert(out@ =~= before + encoded_byte(b));
        i += 1;
    }
    out
}

/// A decimal digit or one of the letters from `A` to `F`.
pub open spec fn is_upper_hex(c: char) -> bool {
    '0' <= c <= '9' || 'A' <= c <= 'F'
}

/// How many of the first `n` bytes do not stand in an address as they are.
pub open spec fn reserved_count(bytes: Seq<u8>, n: int) -> int
    decreases n,
{
    if n <= 0 {
        0
    } else if is_unreserved(bytes[n - 1]) {
        reserved_count(bytes, n - 1)
    } else {
        reserved_count(bytes, n - 1) + 1
    }
}

/// How many percent signs stand in a text.
pub open spec fn percent_signs(s: Seq<char>) -> int
    decreases s.len(),
{
    if s.len() == 0 {
        0
    } else if s.last() == '%' {
        percent_signs(s.drop_last()) + 1
    } else {
        percent_signs(s.drop_last())
    }
}

proof fn lemma_percent_signs_add(a: Seq<char>, b: Seq<char>)
    ensures
        percent_signs(a + b) == percent_signs(a) + percent_signs(b),
    decreases b.len(),
{
    if b.len() == 0 {
        assert(a + b =~= a);
    } else {
        assert((a + b).drop_last() =~= a + b.drop_last());
        assert((a + b).last() == b.last());
        lemma_percent_signs_add(a, b.drop_last());
    }
}

proof fn lemma_byte_signs(b: u8)
    ensures
        percent_signs(encoded_byte(b)) == (if is_unreserved(b) {
            0int
        } else {
            1int
        }),
{
    let s = encoded_byte(b);
    reveal_with_fuel(percent_signs, 4);
    if !is_unreserved(b) {
        assert(s.drop_last().drop_last().drop_last().len() == 0);
        assert(s.last() == upper_hex(b as int % 16));
        assert(s.drop_last().last() == upper_hex(b as int / 16));
        assert(s.drop_last().drop_last().last() == '%');
    } else {
        assert(s.last() == b as char);
        assert(s.drop_last().len() == 0);
    }
}

proof fn lemma_encoded_shape(bytes: Seq<u8>, n: int)
    requires
        0 <= n <= bytes.len(),
    ensures
        encoded_bytes(bytes, n).len() == n + 2 * reserved_count(bytes, n),
        percent_signs(encoded_bytes(bytes, n)) == reserved_count(bytes, n),
        forall|i: int|
            0 <= i < encoded_bytes(bytes, n).len() ==> is_encoded_at(encoded_bytes(bytes, n), i),
    decreases n,
{
    if n > 0 {
        lemma_encoded_shape(bytes, n - 1);
        let b = bytes[n - 1];
        let before = encoded_bytes(bytes, n - 1);
        let all = encoded_bytes(bytes, n);
        lemma_percent_signs_add(before, encoded_byte(b));
        lemma_byte_signs(b);
        assert forall|i: int| 0 <= i < all.len() implies is_encoded_at(all, i) by {
            if i < before.len() {
                assert(is_encoded_at(before, i));
                assert(all[i] == before[i]);
                if before[i] == '%' {
                    assert(all[i + 1] == before[i + 1]);
                    assert(all[i + 2] == before[i + 2]);
                }
            } else {
                assert(all[i] == encoded_byte(b)[i - before.len()]);
                if all[i] == '%' {
                    assert(all[i + 1] == encoded_byte(b)[1]);
                    assert(all[i + 2] == encoded_byte(b)[2]);
                }
            }
        }
    }
}

/// At `i` stands a percent sign with two hexadecimal digits in upper case behind it, or a
/// character that stands in an address as it is.
pub open spec fn is_encoded_at(s: Seq<char>, i: int) -> bool {
    if s[i] == '%' {
        i + 2 < s.len() && is_upper_hex(s[i + 1]) && is_upper_hex(s[i + 2])
    } else {
        s[i] <= '\u{7f}' && is_unreserved(s[i] as u8)
    }
}

/// An encoded text is one segment of an address: characters that stand there as they are, and one
/// percent sign with two digits for each byte that does not.
pub proof fn encoded_text_is_one_segment(s: Seq<char>)
    ensures
        forall|i: int| 0 <= i < url_encoded(s).len() ==> is_encoded_at(url_encoded(s), i),
        percent_signs(url_encoded(s)) == reserved_count(encode_utf8(s), encode_utf8(s).len() as int),
        url_encoded(s).len() == encode_utf8(s).len() + 2 * percent_signs(url_encoded(s)),
{
    lemma_encoded_shape(encode_utf8(s), encode_utf8(s).len() as int);
}

/// The value of a hexadecimal digit.
pub open spec fn hex_value(c: char) -> int {
    if c as int <= 57 {
        c as int - 48
    } else if c as int <= 70 {
        c as int - 55
    } else {
        c as int - 87
    }
}

/// The bytes that an encoded text stands for: two hexadecimal digits behind a percent sign are
/// one byte, and so is any other character.
pub open spec fn url_decoded(s: Seq<char>) -> Seq<u8>
    decreases s.len(),
{
    if s.len() == 0 {
        Seq::empty()
    } else if s[0] == '%' && s.len() >= 3 {
        seq![(16 * hex_value(s[1]) + hex_value(s[2])) as u8] + url_decoded(s.skip(3))
    } else {
        seq![s[0] as u8] + url_decoded(s.skip(1))
    }
}

proof fn lemma_byte_decodes(b: u8, rest: Seq<char>)
    ensures
        url_decoded(encoded_byte(b) + rest) == seq![b] + url_decoded(rest),
{
    let all = encoded_byte(b) + rest;
    if is_unreserved(b) {
        assert(all[0] == b as char);
        assert(all.skip(1) =~= rest);
    } else {
        assert(all[0] == '%');
        assert(all[1] == upper_hex(b as int / 16));
        assert(all[2] == upper_hex(b as int % 16));
        assert(hex_value(all[1]) == b as int / 16);
        assert(hex_value(all[2]) == b as int % 16);
        assert(all.skip(3) =~= rest);
    }
}

proof fn lemma_bytes_decode(bytes: Seq<u8>, n: int, rest: Seq<char>)
    requires
        0 <= n <= bytes.len(),
    ensures
        url_decoded(encoded_bytes(bytes, n) + rest) == bytes.take(n) + url_decoded(rest),
    decreases n,
{
    if n == 0 {
        assert(encoded_bytes(bytes, n) + rest =~= rest);
        assert(bytes.take(0) + url_decoded(rest) =~= url_decoded(rest));
    } else {
        let b = bytes[n - 1];
        let more = encoded_byte(b) + rest;
        assert(encoded_bytes(bytes, n) + rest =~= encoded_bytes(bytes, n - 1) + more);
        lemma_bytes_decode(bytes, n - 1, more);
        lemma_byte_decodes(b, rest);
        assert(bytes.take(n - 1) + (seq![b] + url_decoded(rest)) =~= bytes.take(n)
            + url_decoded(rest));
    }
}

/// Decoding an encoded text gives its bytes back, so that no two texts are encoded alike.
pub proof fn encoding_can_be_undone(s: Seq<char>, other: Seq<char>)
    ensures
        url_decoded(url_encoded(s)) == encode_utf8(s),
        url_encoded(s) == url_encoded(other) ==> s == other,
{
    lemma_text_decodes(s);
    lemma_text_decodes(other);
    encode_utf8_decode_utf8(s);
    encode_utf8_decode_utf8(other);
}

proof fn lemma_text_decodes(s: Seq<char>)
    ensures
        url_decoded(url_encoded(s)) == encode_utf8(s),
{
    let bytes = encode_utf8(s);
    lemma_bytes_decode(bytes, bytes.len() as int, Seq::empty());
    assert(url_encoded(s) + Seq::<char>::empty() =~= url_encoded(s));
    assert(bytes.take(bytes.len() as int) + Seq::<u8>::empty() =~= bytes);
}

proof fn lemma_unreserved_bytes(bytes: Seq<u8>, n: int)
    requires
        0 <= n <= bytes.len(),
        forall|i: int| 0 <= i < n ==> is_unreserved(#[trigger] bytes[i]),
    ensures
        encoded_bytes(bytes, n).len() == n,
        forall|i: int| 0 <= i < n ==> #[trigger] encoded_bytes(bytes, n)[i] == bytes[i] as char,
    decreases n,
{
    if n > 0 {
        lemma_unreserved_bytes(bytes, n - 1);
        let before = encoded_bytes(bytes, n - 1);
        let all = encoded_bytes(bytes, n);
        assert(all =~= before.push(bytes[n - 1] as char));
        assert forall|i: int| 0 <= i < n implies #[trigger] all[i] == bytes[i] as char by {
            if i < n - 1 {
                assert(all[i] == before[i]);
            }
        }
    }
}

proof fn lemma_chars_start_at_zero(c: char)
    ensures
        '\0' <= c,
{
}

/// A text of letters, digits and `-_.~` alone is encoded as it stands.
pub proof fn unreserved_text_stays(s: Seq<char>)
    requires
        forall|i: int|
            0 <= i < s.len() ==> (#[trigger] s[i]) <= '\u{7f}' && is_unreserved(s[i] as u8),
    ensures
        url_encoded(s) == s,
{
    assert forall|i: int| 0 <= i < s.len() implies '\0' <= #[trigger] s[i] <= '\u{7f}' by {
        lemma_chars_start_at_zero(s[i]);
    }
    is_ascii_chars_encode_utf8(s);
    let bytes = encode_utf8(s);
    assert forall|i: int| 0 <= i < bytes.len() implies is_unreserved(#[trigger] bytes[i]) by {
        assert(s[i] as u8 == bytes[i]);
    }
    lemma_unreserved_bytes(bytes, bytes.len() as int);
    assert forall|i: int| 0 <= i < s.len() implies url_encoded(s)[i] == s[i] by {
        assert(s[i] as u8 == bytes[i]);
        assert(encoded_bytes(bytes, bytes.len() as int)[i] == bytes[i] as char);
    }
    assert(url_encoded(s) =~= s);
}

/// The address under which a word is looked up.
pub open spec fn lookup_address(word: Seq<char>) -> Seq<char> {
    "https://api.dictionaryapi.dev/api/v2/entries/en/"@ + url_encoded(trimmed(word))
}

/// The word to look up in the local dictionary, where there is one.
pub fn lookup_word(word: &str) -> (r: Option<String>)
    ensures
        match r {
            Some(w) => w@ == trimmed(word@) && w@.len() > 0,
            None => trimmed(word@).len() == 0,
        },
{
    let w = trim_text(word);
    if w.as_str().is_empty() {
        None
    } else {
        Some(w)
    }
}

/// The address under which to look a word up, where there is a word.
pub fn lookup_word_online(word: &str) -> (r: Option<String>)
    ensures
        match r {
            Some(url) => url@ == lookup_address(word@) && trimmed(word@).len() > 0,
            None => trimmed(word@).len() == 0,
        },
{
    match lookup_word(word) {
        None => None,
        Some(w) => {
            let mut url = "https://api.dictionaryapi.dev/api/v2/entries/en/".to_owned();
            url.append(urlencoding_encode(w.as_str()).as_str());
            Some(url)
        },
    }
}

/// What an online dictionary says of a word under one part of speech.
pub struct ApiMeaning {
    pub part_of_speech: String,
    pub definitions: Vec<String>,
}

/// The mathematical view of a [`DictionaryEntry`].
#[verifier::ext_equal]
pub struct EntryText {
    pub word: Seq<char>,
    pub definition: Seq<char>,
}

impl View for DictionaryEntry {
    type V = EntryText;

    open spec fn view(&self) -> EntryText {
        EntryText { word: self.word@, definition: self.definition@ }
    }
}

/// The views of dictionary entries.
pub open spec fn entry_texts(entries: Seq<DictionaryEntry>) -> Seq<EntryText> {
    entries.map_values(|e: DictionaryEntry| e@)
}

/// The entries that the first `n` definitions of a meaning give.
pub open spec fn meaning_entries(word: Seq<char>, m: ApiMeaning, n: int) -> Seq<EntryText>
    decreases n,
{
    if n <= 0 {
        Seq::empty()
    } else {
        meaning_entries(word, m, n - 1).push(
            EntryText {
                word,
                definition: "("@ + m.part_of_speech@ + ") "@ + m.definitions@[n - 1]@,
            },
        )
    }
}

/// The entries that the first `n` meanings give.
pub open spec fn all_entries(word: Seq<char>, meanings: Seq<ApiMeaning>, n: int) -> Seq<EntryText>
    decreases n,
{
    if n <= 0 {
        Seq::empty()
    } else {
        all_entries(word, meanings, n - 1) + meaning_entries(
            word,
            meanings[n - 1],
            meanings[n - 1].definitions@.len() as int,
        )
    }
}

/// The entries that an online dictionary's answer gives: one for every definition, behind its
/// part of speech.
pub fn entries_from_meanings(word: &str, meanings: &Vec<ApiMeaning>) -> (r: Vec<DictionaryEntry>)
    ensures
        entry_texts(r@) == all_entries(word@, meanings@, meanings@.len() as int),
{
    let mut out: Vec<DictionaryEntry> = Vec::new();
    assert(entry_texts(out@) =~= Seq::<EntryText>::empty());
    let mut k: usize = 0;
    while k < meanings.len()
        invariant
            k <= meanings@.len(),
            entry_texts(out@) == all_entries(word@, meanings@, k as int),
        decreases meanings@.len() - k,
    {
        let m = &meanings[k];
        let ghost before = entry_texts(out@);
        let mut i: usize = 0;
        assert(before + Seq::<EntryText>::empty() =~= before);
        while i < m.definitions.len()
            invariant
                i <= m.definitions@.len(),
                k < meanings@.len(),
                *m == meanings@[k as int],
                entry_texts(out@) == before + meaning_entries(word@, *m, i as int),
            decreases m.definitions@.len() - i,
        {
            let mut definition = "(".to_owned();
            definition.append(m.part_of_speech.as_str());
            definition.append(") ");
            definition.append(m.definitions[i].as_str());
            assert(definition@ =~= "("@ + m.part_of_speech@ + ") "@ + m.definitions@[i as int]@);
            let ghost sofar = out@;
            let e = DictionaryEntry { word: word.to_owned(), definition };
            out.push(e);
            assert(entry_texts(out@) =~= entry_texts(sofar).push(e@));
            i += 1;
            assert(entry_texts(out@) =~= before + meaning_entries(word@, *m, i as int));
        }
        k += 1;
    }
    out
}

} // verus!
