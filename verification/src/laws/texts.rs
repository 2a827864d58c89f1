//! What texts are made of: space, letters, words, numbers and their order.

use vstd::prelude::*;

use crate::order::text_le;
use crate::persistence::is_ascii_alphanumeric;
use crate::text::{
    ascii_lower, ascii_lowercase, decimal, digit, is_space, join, repeated, signed_decimal,
    trim_end, trim_start, trimmed, words,
};

verus! {

// ---------------------------------------------------------------------------
// Characters
// ---------------------------------------------------------------------------

/// White space is what Unicode calls so: the space, the controls that move on, and the spaces of
/// other widths.
pub proof fn white_space_is_that_of_unicode(c: char)
    ensures
        is_space(c) <==> {
            ||| c == ' ' || c == '\t' || c == '\n' || c == '\r' || c == '\u{b}' || c == '\u{c}'
            ||| c == '\u{85}' || c == '\u{a0}' || c == '\u{1680}'
            ||| c == '\u{2000}' || c == '\u{2001}' || c == '\u{2002}' || c == '\u{2003}' || c == '\u{2004}'
            ||| c == '\u{2005}' || c == '\u{2006}' || c == '\u{2007}' || c == '\u{2008}' || c == '\u{2009}'
            ||| c == '\u{200a}' || c == '\u{2028}' || c == '\u{2029}' || c == '\u{202f}' || c == '\u{205f}'
            ||| c == '\u{3000}'
        },
{
}

/// The capital letters of ASCII have small ones, and every other character is its own.
pub proof fn capital_letters_become_small(c: char, s: Seq<char>, i: int)
    ensures
        'A' as u32 <= c as u32 <= 'Z' as u32 ==> ascii_lower(c) as u32 == c as u32 + ('a' as u32 - 'A' as u32),
        !('A' as u32 <= c as u32 <= 'Z' as u32) ==> ascii_lower(c) == c,
        ascii_lowercase(s).len() == s.len(),
        0 <= i < s.len() ==> ascii_lowercase(s)[i] == ascii_lower(s[i]),
{
}

/// The letters and digits of ASCII are those between the first and the last of each.
pub proof fn letters_and_digits_are_those_of_ascii(c: char)
    ensures
        is_ascii_alphanumeric(c) <==> {
            ||| 'a' as u32 <= c as u32 <= 'z' as u32
            ||| 'A' as u32 <= c as u32 <= 'Z' as u32
            ||| '0' as u32 <= c as u32 <= '9' as u32
        },
{
}

// ---------------------------------------------------------------------------
// Parts of texts
// ---------------------------------------------------------------------------

proof fn lemma_start(s: Seq<char>, a: int)
    requires
        0 <= a <= s.len(),
        forall|i: int| 0 <= i < a ==> is_space(#[trigger] s[i]),
        a < s.len() ==> !is_space(s[a]),
    ensures
        trim_start(s) == s.skip(a),
    decreases a,
{
    if a > 0 {
        let t = s.drop_first();
        assert(is_space(s[0]));
        assert forall|i: int| 0 <= i < a - 1 implies is_space(#[trigger] t[i]) by {
            assert(t[i] == s[i + 1]);
        }
        lemma_start(t, a - 1);
        assert(t.skip(a - 1) =~= s.skip(a));
    } else {
        assert(s.skip(0) =~= s);
    }
}

proof fn lemma_stop(s: Seq<char>, b: int)
    requires
        0 <= b <= s.len(),
        forall|i: int| b <= i < s.len() ==> is_space(#[trigger] s[i]),
        b > 0 ==> !is_space(s[b - 1]),
    ensures
        trim_end(s) == s.take(b),
    decreases s.len(),
{
    if b < s.len() {
        let t = s.drop_last();
        assert(is_space(s[s.len() - 1]));
        assert forall|i: int| b <= i < t.len() implies is_space(#[trigger] t[i]) by {
            assert(t[i] == s[i]);
        }
        lemma_stop(t, b);
        assert(t.take(b) =~= s.take(b));
    } else {
        assert(s.take(b) =~= s);
    }
}

/// Trimming leaves what is between the first and the last character that are no space.
pub proof fn trimming_cuts_off_just_the_space_around(before: Seq<char>, s: Seq<char>, behind: Seq<char>)
    requires
        s.len() > 0,
        !is_space(s[0]),
        !is_space(s.last()),
        forall|i: int| 0 <= i < before.len() ==> is_space(#[trigger] before[i]),
        forall|i: int| 0 <= i < behind.len() ==> is_space(#[trigger] behind[i]),
    ensures
        trimmed(before + s + behind) == s,
        trim_end(s + behind) == s,
{
    let whole = before + s + behind;
    let rest = s + behind;
    assert forall|i: int| 0 <= i < before.len() implies is_space(#[trigger] whole[i]) by {
        assert(whole[i] == before[i]);
    }
    assert(whole[before.len() as int] == s[0]);
    lemma_start(whole, before.len() as int);
    assert(whole.skip(before.len() as int) =~= rest);
    assert forall|i: int| s.len() <= i < rest.len() implies is_space(#[trigger] rest[i]) by {
        assert(rest[i] == behind[i - s.len()]);
    }
    assert(rest[s.len() - 1] == s.last());
    lemma_stop(rest, s.len() as int);
    assert(rest.take(s.len() as int) =~= s);
}

/// Texts are joined in order, with the separator between any two of them.
pub proof fn separators_stand_between(parts: Seq<Seq<char>>, part: Seq<char>, sep: Seq<char>)
    ensures
        join(Seq::empty(), sep) == Seq::<char>::empty(),
        join(seq![part], sep) == part,
        parts.len() > 0 ==> join(parts.push(part), sep) == join(parts, sep) + sep + part,
{
    assert(parts.push(part).drop_last() =~= parts);
}

proof fn lemma_words_add(a: Seq<char>, b: Seq<char>)
    requires
        a.len() > 0 ==> is_space(a.last()),
    ensures
        words(a + b) == words(a) + words(b),
    decreases b.len(),
{
    if b.len() == 0 {
        assert(a + b =~= a);
        assert(words(a) + words(b) =~= words(a));
    } else {
        let front = b.drop_last();
        let c = b.last();
        lemma_words_add(a, front);
        crate::text::lemma_words_push(a + front, c);
        crate::text::lemma_words_push(front, c);
        assert((a + front).push(c) =~= a + b);
        assert(front.push(c) =~= b);
        if front.len() == 0 {
            assert(a + front =~= a);
            assert(words(front) =~= Seq::<Seq<char>>::empty());
        } else {
            assert((a + front).last() == front.last());
        }
        assert(words(a + b) =~= words(a) + words(b));
    }
}

/// Words are what stands between space: a text that is broken at a space has the words of both
/// parts, and a text without space is one word.
pub proof fn words_stand_between_space(a: Seq<char>, c: char, b: Seq<char>, word: Seq<char>)
    requires
        is_space(c),
        word.len() > 0,
        forall|i: int| 0 <= i < word.len() ==> !is_space(#[trigger] word[i]),
    ensures
        words(a.push(c) + b) == words(a) + words(b),
        words(word) == seq![word],
        words(Seq::empty()) == Seq::<Seq<char>>::empty(),
{
    lemma_words_add(a.push(c), b);
    crate::text::lemma_words_push(a, c);
    lemma_one_word(word);
}

proof fn lemma_one_word(word: Seq<char>)
    requires
        word.len() > 0,
        forall|i: int| 0 <= i < word.len() ==> !is_space(#[trigger] word[i]),
    ensures
        words(word) == seq![word],
    decreases word.len(),
{
    let front = word.drop_last();
    let c = word.last();
    crate::text::lemma_words_push(front, c);
    assert(front.push(c) =~= word);
    if front.len() > 0 {
        assert forall|i: int| 0 <= i < front.len() implies !is_space(#[trigger] front[i]) by {
            assert(front[i] == word[i]);
        }
        lemma_one_word(front);
        assert(!is_space(front.last()));
        assert(words(word) =~= seq![word]);
    } else {
        assert(words(front) =~= Seq::<Seq<char>>::empty());
        assert(seq![c] =~= word);
        assert(words(word) =~= seq![word]);
    }
}

// ---------------------------------------------------------------------------
// Numbers
// ---------------------------------------------------------------------------

/// The number that digits stand for.
pub open spec fn number_of(digits: Seq<char>) -> int
    decreases digits.len(),
{
    if digits.len() == 0 {
        0
    } else {
        10 * number_of(digits.drop_last()) + (digits.last() as u32 - '0' as u32)
    }
}

/// A number is written in decimal digits, without zeros in front, and with a hyphen if it is less
/// than nothing.
pub proof fn numbers_are_written_in_digits(n: nat)
    ensures
        number_of(decimal(n)) == n,
        decimal(n).len() > 0,
        forall|i: int| 0 <= i < decimal(n).len() ==> '0' as u32 <= #[trigger] decimal(n)[i] as u32 <= '9' as u32,
        n > 0 ==> decimal(n)[0] != '0',
        n == 0 ==> decimal(n) == seq!['0'],
        signed_decimal(n as int) == decimal(n),
        n > 0 ==> signed_decimal(-(n as int)) == seq!['-'] + decimal(n),
    decreases n,
{
    reveal_with_fuel(number_of, 2);
    let s = decimal(n);
    if n < 10 {
        assert(s.drop_last() =~= Seq::<char>::empty());
        assert(s.last() == digit(n));
    } else {
        numbers_are_written_in_digits(n / 10);
        let front = decimal(n / 10);
        assert(s.drop_last() =~= front);
        assert(s.last() == digit(n % 10));
        assert forall|i: int| 0 <= i < s.len() implies '0' as u32 <= #[trigger] s[i] as u32 <= '9' as u32 by {
            if i < front.len() {
                assert(s[i] == front[i]);
            }
        }
        assert(s[0] == front[0]);
    }
}

/// A text that is repeated stands there as often as was asked for.
pub proof fn repetitions_follow_each_other(s: Seq<char>, n: nat)
    ensures
        repeated(s, n) == join(Seq::new(n, |i: int| s), Seq::empty()),
    decreases n,
{
    let all = Seq::new(n, |i: int| s);
    if n > 0 {
        let m = (n - 1) as nat;
        repetitions_follow_each_other(s, m);
        let before = Seq::new(m, |i: int| s);
        super::lines::lemma_in_a_row(before, s);
        assert(all =~= before.push(s));
    } else {
        assert(all =~= Seq::<Seq<char>>::empty());
    }
}

// ---------------------------------------------------------------------------
// Order
// ---------------------------------------------------------------------------

/// Texts are ordered by the first character in which they differ, and one that another begins with
/// comes before it.
pub proof fn the_first_difference_decides(same: Seq<char>, a: Seq<char>, b: Seq<char>)
    ensures
        text_le(same, same + b),
        b.len() > 0 ==> !text_le(same + b, same),
        a.len() > 0 && b.len() > 0 && a[0] != b[0] ==> (text_le(same + a, same + b) <==> (a[0] as int) < (
        b[0] as int)),
    decreases same.len(),
{
    if same.len() == 0 {
        assert(same + a =~= a);
        assert(same + b =~= b);
    } else {
        let rest = same.drop_first();
        the_first_difference_decides(rest, a, b);
        assert((same + a).drop_first() =~= rest + a);
        assert((same + b).drop_first() =~= rest + b);
        assert((same + a)[0] == same[0] && (same + b)[0] == same[0]);
    }
}

} // verus!
