//! What files are called, and what their names say of them.

use vstd::prelude::*;

use super::definitions::lemma_decimal_value;
use crate::bookshelf::{candidate, copy_char, copy_stem};
use crate::epub::{guessed_mime, mime_of};
use crate::persistence::{file_stem, is_ascii_alphanumeric};
use crate::text::{
    all_ascii, ascii_lower, ascii_lowercase, decimal, ends_with, last_char_pos, lowercase, trimmed,
};
use crate::toolkit::{asset_extension_of, first_bytes, stem_of, utf8_width};

verus! {

// ---------------------------------------------------------------------------
// Types
// ---------------------------------------------------------------------------

/// The text is of lower-case ASCII letters, digits and dots.
pub open spec fn is_plain(s: Seq<char>) -> bool {
    forall|i: int|
        0 <= i < s.len() ==> #[trigger] s[i] as u32 == 46 || 48 <= s[i] as u32 <= 57 || 97 <= s[i] as u32 <= 122
}

proof fn lemma_lower_end(stem: Seq<char>, e: Seq<char>)
    requires
        all_ascii(stem),
        is_plain(e),
    ensures
        lowercase(stem + e) == ascii_lowercase(stem) + e,
{
    let s = stem + e;
    assert(all_ascii(s)) by {
        assert forall|i: int| 0 <= i < s.len() implies ((#[trigger] s[i]) as u32) < 0x80 by {
            if i < stem.len() {
                assert(s[i] == stem[i]);
            } else {
                assert(s[i] == e[i - stem.len()]);
            }
        }
    }
    assert forall|i: int| 0 <= i < e.len() implies ascii_lower(#[trigger] e[i]) == e[i] by {}
    assert(ascii_lowercase(s) =~= ascii_lowercase(stem) + e);
}

/// The last `n` characters of a text that ends with another are the last of that.
proof fn lemma_end(l: Seq<char>, e: Seq<char>)
    requires
        ends_with(l, e),
    ensures
        forall|i: int| 0 <= i < e.len() ==> #[trigger] e[i] == l[l.len() - e.len() + i],
        e.len() <= l.len(),
{
    let at = l.len() - e.len();
    assert forall|i: int| 0 <= i < e.len() implies #[trigger] e[i] == l[at + i] by {
        assert(l.subrange(at, at + e.len())[i] == l[at + i]);
    }
}

proof fn lemma_ends(a: Seq<char>, e: Seq<char>)
    ensures
        ends_with(a + e, e),
{
    let l = a + e;
    assert(l.subrange(l.len() - e.len(), l.len() - e.len() + e.len()) =~= e);
}

proof fn lemma_extensions()
    ensures
        ".png"@ =~= seq!['.', 'p', 'n', 'g'],
        ".webp"@ =~= seq!['.', 'w', 'e', 'b', 'p'],
        ".svg"@ =~= seq!['.', 's', 'v', 'g'],
        ".gif"@ =~= seq!['.', 'g', 'i', 'f'],
        ".avif"@ =~= seq!['.', 'a', 'v', 'i', 'f'],
        ".jpg"@ =~= seq!['.', 'j', 'p', 'g'],
        ".jpeg"@ =~= seq!['.', 'j', 'p', 'e', 'g'],
        ".xhtml"@ =~= seq!['.', 'x', 'h', 't', 'm', 'l'],
        ".html"@ =~= seq!['.', 'h', 't', 'm', 'l'],
        ".htm"@ =~= seq!['.', 'h', 't', 'm'],
        ".css"@ =~= seq!['.', 'c', 's', 's'],
        ".ncx"@ =~= seq!['.', 'n', 'c', 'x'],
        ".mp3"@ =~= seq!['.', 'm', 'p', '3'],
        ".wav"@ =~= seq!['.', 'w', 'a', 'v'],
        ".m4a"@ =~= seq!['.', 'm', '4', 'a'],
{
    reveal_strlit(".png");
    reveal_strlit(".webp");
    reveal_strlit(".svg");
    reveal_strlit(".gif");
    reveal_strlit(".avif");
    reveal_strlit(".jpg");
    reveal_strlit(".jpeg");
    reveal_strlit(".xhtml");
    reveal_strlit(".html");
    reveal_strlit(".htm");
    reveal_strlit(".css");
    reveal_strlit(".ncx");
    reveal_strlit(".mp3");
    reveal_strlit(".wav");
    reveal_strlit(".m4a");
}

/// Two texts of which a third ends with both agree in the characters they share at the end.
proof fn lemma_apart(l: Seq<char>, e: Seq<char>, f: Seq<char>, i: int)
    requires
        ends_with(l, e),
        0 < i <= e.len(),
        i <= f.len(),
        e[e.len() - i] != f[f.len() - i],
    ensures
        !ends_with(l, f),
{
    if ends_with(l, f) {
        lemma_end(l, e);
        lemma_end(l, f);
        assert(e[e.len() - i] == l[l.len() - i]);
        assert(f[f.len() - i] == l[l.len() - i]);
    }
}

/// The type that files with this ending have.
pub open spec fn type_of_ending(e: Seq<char>) -> Option<Seq<char>> {
    if e == ".png"@ {
        Some("image/png"@)
    } else if e == ".webp"@ {
        Some("image/webp"@)
    } else if e == ".svg"@ {
        Some("image/svg+xml"@)
    } else if e == ".gif"@ {
        Some("image/gif"@)
    } else if e == ".avif"@ {
        Some("image/avif"@)
    } else if e == ".jpg"@ || e == ".jpeg"@ {
        Some("image/jpeg"@)
    } else if e == ".xhtml"@ || e == ".html"@ || e == ".htm"@ {
        Some("application/xhtml+xml"@)
    } else if e == ".css"@ {
        Some("text/css"@)
    } else if e == ".ncx"@ {
        Some("application/x-dtbncx+xml"@)
    } else if e == ".mp3"@ {
        Some("audio/mpeg"@)
    } else if e == ".wav"@ {
        Some("audio/wav"@)
    } else if e == ".m4a"@ {
        Some("audio/mp4"@)
    } else {
        None
    }
}

proof fn lemma_not(l: Seq<char>, e: Seq<char>)
    requires
        ends_with(l, e),
        type_of_ending(e) is Some,
    ensures
        forall|f: Seq<char>| #[trigger]
            type_of_ending(f) is Some && type_of_ending(f) != type_of_ending(e) ==> !ends_with(l, f),
{
    lemma_extensions();
    assert forall|f: Seq<char>| #[trigger]
        type_of_ending(f) is Some && type_of_ending(f) != type_of_ending(e) implies !ends_with(l, f) by {
        let n = e.len() as int;
        let m = f.len() as int;
        if e[n - 1] != f[m - 1] {
            lemma_apart(l, e, f, 1);
        } else if e[n - 2] != f[m - 2] {
            lemma_apart(l, e, f, 2);
        } else if e[n - 3] != f[m - 3] {
            lemma_apart(l, e, f, 3);
        } else if e[n - 4] != f[m - 4] {
            lemma_apart(l, e, f, 4);
        }
    }
}

/// A file is of the type of its ending, whatever the case of the letters in its name.
pub proof fn files_are_of_the_type_of_their_ending(stem: Seq<char>, ending: Seq<char>)
    requires
        all_ascii(stem),
        type_of_ending(ending) is Some,
    ensures
        mime_of(stem + ending) == type_of_ending(ending)->0,
{
    lemma_extensions();
    lemma_lower_end(stem, ending);
    let l = lowercase(stem + ending);
    lemma_ends(ascii_lowercase(stem), ending);
    lemma_not(l, ending);
    lemma_all_endings();
}

/// A file with no such ending is of the type that is guessed for it, or of none in particular.
pub proof fn other_types_are_guessed(path: Seq<char>)
    requires
        forall|e: Seq<char>| #[trigger] type_of_ending(e) is Some ==> !ends_with(lowercase(path), e),
    ensures
        guessed_mime(path) matches Some(m) ==> mime_of(path) == m,
        guessed_mime(path) is None ==> mime_of(path) == "application/octet-stream"@,
{
    lemma_all_endings();
}

proof fn lemma_all_endings()
    ensures
        type_of_ending(".png"@) is Some && type_of_ending(".webp"@) is Some && type_of_ending(".svg"@) is Some,
        type_of_ending(".gif"@) is Some && type_of_ending(".avif"@) is Some && type_of_ending(".jpg"@) is Some,
        type_of_ending(".jpeg"@) is Some && type_of_ending(".xhtml"@) is Some && type_of_ending(".html"@) is Some,
        type_of_ending(".htm"@) is Some && type_of_ending(".css"@) is Some && type_of_ending(".ncx"@) is Some,
        type_of_ending(".mp3"@) is Some && type_of_ending(".wav"@) is Some && type_of_ending(".m4a"@) is Some,
{
}

/// The ending that an asset gets stands for its type.
pub proof fn assets_get_the_ending_of_their_type(stem: Seq<char>, kind: Seq<char>)
    requires
        all_ascii(stem),
        kind == "image/png"@ || kind == "image/webp"@ || kind == "image/svg+xml"@ || kind == "image/jpeg"@ || kind
            == "image/gif"@ || kind == "audio/mpeg"@ || kind == "audio/wav"@,
    ensures
        mime_of(stem + ("."@ + asset_extension_of(kind))) == kind,
{
    reveal_strlit("image/png");
    reveal_strlit("image/webp");
    reveal_strlit("image/svg+xml");
    reveal_strlit("image/jpeg");
    reveal_strlit("image/gif");
    reveal_strlit("audio/mpeg");
    reveal_strlit("audio/wav");
    reveal_strlit(".");
    reveal_strlit("png");
    reveal_strlit("webp");
    reveal_strlit("svg");
    reveal_strlit("jpg");
    reveal_strlit("gif");
    reveal_strlit("mp3");
    reveal_strlit("wav");
    lemma_extensions();
    assert("image/png"@[6] == 'p');
    assert("image/gif"@[6] == 'g');
    assert("audio/wav"@[6] == 'w');
    assert("image/webp"@[0] == 'i');
    assert("image/jpeg"@[0] == 'i');
    assert("image/webp"@[6] == 'w');
    assert("image/jpeg"@[6] == 'j');
    assert("audio/mpeg"@[0] == 'a');
    let e = "."@ + asset_extension_of(kind);
    if kind == "image/png"@ {
        assert(e =~= ".png"@);
    } else if kind == "image/webp"@ {
        assert(e =~= ".webp"@);
    } else if kind == "image/svg+xml"@ {
        assert(e =~= ".svg"@);
    } else if kind == "image/jpeg"@ {
        assert(e =~= ".jpg"@);
    } else if kind == "image/gif"@ {
        assert(e =~= ".gif"@);
    } else if kind == "audio/mpeg"@ {
        assert(e =~= ".mp3"@);
    } else {
        assert(e =~= ".wav"@);
    }
    files_are_of_the_type_of_their_ending(stem, e);
}

// ---------------------------------------------------------------------------
// Parts of names
// ---------------------------------------------------------------------------

/// The stem of a name is what stands before its last dot; a name without one, or with none but at
/// the front, is its own stem.
pub proof fn stems_stand_before_the_last_dot(a: Seq<char>, b: Seq<char>)
    requires
        !b.contains('.'),
    ensures
        a.len() > 0 ==> stem_of(a + seq!['.'] + b) == a,
        stem_of(b) == b,
        stem_of(seq!['.'] + b) == seq!['.'] + b,
{
    lemma_last_dot(a + seq!['.'], b);
    lemma_last_dot(Seq::empty(), b);
    lemma_last_dot(seq!['.'], b);
    assert(Seq::<char>::empty() + b =~= b);
    assert((a + seq!['.'] + b).take(a.len() as int) =~= a);
}

proof fn lemma_last_dot(a: Seq<char>, b: Seq<char>)
    requires
        !b.contains('.'),
        a.len() > 0 ==> a.last() == '.',
    ensures
        last_char_pos(a + b, '.') == a.len() - 1,
    decreases b.len(),
{
    let s = a + b;
    if b.len() > 0 {
        let front = b.drop_last();
        assert(b.contains(b.last()));
        assert(s.drop_last() =~= a + front);
        assert forall|i: int| 0 <= i < front.len() implies front[i] != '.' by {
            assert(b.contains(b[i]));
        }
        lemma_last_dot(a, front);
    } else {
        assert(s =~= a);
    }
}

/// How many bytes the characters take.
pub open spec fn width(s: Seq<char>) -> int {
    s.fold_left(0int, |n: int, c: char| n + utf8_width(c))
}

proof fn lemma_width_front(c: char, rest: Seq<char>)
    ensures
        width(seq![c] + rest) == utf8_width(c) + width(rest),
        width(Seq::empty()) == 0,
    decreases rest.len(),
{
    reveal_with_fuel(Seq::fold_left, 3);
    let s = seq![c] + rest;
    if rest.len() > 0 {
        lemma_width_front(c, rest.drop_last());
        assert(s.drop_last() =~= seq![c] + rest.drop_last());
    } else {
        assert(s =~= seq![c]);
        assert(seq![c].drop_last() =~= Seq::<char>::empty());
    }
}

/// The first bytes of a text are as many of its characters, from the front, as fit.
pub proof fn as_many_characters_as_fit_are_kept(s: Seq<char>, n: int)
    requires
        n >= 0,
    ensures
        ({
            let kept = first_bytes(s, n);
            &&& kept.len() <= s.len() && kept == s.take(kept.len() as int)
            &&& width(kept) <= n
            &&& kept.len() < s.len() ==> width(kept) + utf8_width(s[kept.len() as int]) > n
        }),
    decreases s.len(),
{
    let kept = first_bytes(s, n);
    lemma_width_front('a', Seq::empty());
    if s.len() == 0 || utf8_width(s[0]) > n {
        assert(s.take(0) =~= Seq::<char>::empty());
    } else {
        let rest = s.drop_first();
        as_many_characters_as_fit_are_kept(rest, n - utf8_width(s[0]));
        let more = first_bytes(rest, n - utf8_width(s[0]));
        lemma_width_front(s[0], more);
        assert(kept =~= s.take(kept.len() as int));
        if kept.len() < s.len() {
            assert(s[kept.len() as int] == rest[more.len() as int]);
        }
    }
}

/// A stem keeps its ASCII letters, digits, hyphens and underscores where they are, with an underscore
/// for every other character.
pub proof fn stems_keep_their_letters(s: Seq<char>, i: int)
    requires
        0 <= i < s.len(),
    ensures
        file_stem(s).len() == s.len(),
        is_ascii_alphanumeric(s[i]) || s[i] == '-' ==> file_stem(s)[i] == s[i],
        !is_ascii_alphanumeric(s[i]) && s[i] != '-' ==> file_stem(s)[i] == '_',
{
}

/// Copies of the same book get different names, and every name is the title's and ends the same
/// way.
pub proof fn copies_get_different_names(stem: Seq<char>, a: nat, b: nat)
    requires
        1 <= a,
        1 <= b,
        candidate(stem, a) == candidate(stem, b),
    ensures
        a == b,
{
    reveal_strlit(".wld");
    reveal_strlit(" (");
    reveal_strlit(").wld");
    lemma_decimal_value(a);
    lemma_decimal_value(b);
    let x = candidate(stem, a);
    let y = candidate(stem, b);
    let n = stem.len() as int;
    if a >= 2 && b >= 2 {
        assert(x.len() == n + 2 + decimal(a).len() + 5);
        assert(y.len() == n + 2 + decimal(b).len() + 5);
        assert(decimal(a) =~= x.subrange(n + 2, n + 2 + decimal(a).len()));
        assert(decimal(b) =~= y.subrange(n + 2, n + 2 + decimal(b).len()));
    } else if a >= 2 {
        assert(x.len() > y.len());
    } else if b >= 2 {
        assert(y.len() > x.len());
    }
}

/// A copy is called by the title with an underscore for every character but ASCII letters, digits,
/// spaces, hyphens and underscores, without space at the ends.
pub proof fn copies_are_called_by_their_titles(title: Seq<char>)
    ensures
        ({
            let signs = Seq::new(
                title.len(),
                |i: int|
                    if is_ascii_alphanumeric(title[i]) || title[i] == ' ' || title[i] == '-' {
                        title[i]
                    } else {
                        '_'
                    },
            );
            &&& trimmed(signs).len() > 0 ==> copy_stem(title) == trimmed(signs)
            &&& trimmed(signs).len() == 0 ==> copy_stem(title) == "book"@
        }),
{
    let signs = Seq::new(
        title.len(),
        |i: int|
            if is_ascii_alphanumeric(title[i]) || title[i] == ' ' || title[i] == '-' {
                title[i]
            } else {
                '_'
            },
    );
    assert(signs =~= title.map_values(|c: char| copy_char(c)));
}

} // verus!
