//! Text as sequences of characters: trimming, searching, splitting, joining.

use vstd::prelude::*;
use vstd::utf8::{encode_utf8, encode_utf8_decode_utf8};

verus! {

/// Unicode's `White_Space` property.
pub open spec fn is_space(c: char) -> bool {
    let n = c as u32;
    ||| 0x9 <= n <= 0xd
    ||| n == 0x20
    ||| n == 0x85
    ||| n == 0xa0
    ||| n == 0x1680
    ||| 0x2000 <= n <= 0x200a
    ||| n == 0x2028
    ||| n == 0x2029
    ||| n == 0x202f
    ||| n == 0x205f
    ||| n == 0x3000
}

/// Whether `c` has Unicode's `White_Space` property.
pub fn is_white(c: char) -> (r: bool)
    ensures
        r == is_space(c),
{
    let n: u32 = c as u32;
    (0x9 <= n && n <= 0xd) || n == 0x20 || n == 0x85 || n == 0xa0 || n == 0x1680
        || (0x2000 <= n && n <= 0x200a) || n == 0x2028 || n == 0x2029 || n == 0x202f
        || n == 0x205f || n == 0x3000
}

/// Calls `String::push`: appends one character.
pub assume_specification[ String::push ](s: &mut String, c: char)
    ensures
        final(s)@ == old(s)@.push(c),
;

/// Whether two texts hold the same characters.
pub(crate) fn same_text(a: &str, b: &str) -> (r: bool)
    ensures
        r == (a@ == b@),
{
    let v = a.as_bytes();
    let w = b.as_bytes();
    let n: usize = v.len();
    if w.len() != n {
        return false;
    }
    let mut i: usize = 0;
    while i < n
        invariant
            i <= n == v@.len() == w@.len(),
            v@ == encode_utf8(a@),
            w@ == encode_utf8(b@),
            forall|k: int| 0 <= k < i ==> v@[k] == w@[k],
        decreases n - i,
    {
        if v[i] != w[i] {
            return false;
        }
        i += 1;
    }
    proof {
        assert(v@ =~= w@);
        encode_utf8_decode_utf8(a@);
        encode_utf8_decode_utf8(b@);
    }
    true
}

/// What `str::to_lowercase` makes of a text that is not all ASCII.
pub uninterp spec fn unicode_lowercase(s: Seq<char>) -> Seq<char>;

/// All characters of `s` are ASCII.
pub open spec fn all_ascii(s: Seq<char>) -> bool {
    forall|i: int| 0 <= i < s.len() ==> ((#[trigger] s[i]) as u32) < 0x80
}

/// The lowercase form of an ASCII letter; any other character itself.
pub open spec fn ascii_lower(c: char) -> char {
    if 65 <= c as u32 <= 90 {
        ((c as u32 + 32) as u32) as char
    } else {
        c
    }
}

/// `s` with its ASCII letters in lower case.
pub open spec fn ascii_lowercase(s: Seq<char>) -> Seq<char> {
    s.map_values(|c: char| ascii_lower(c))
}

/// The lowercase form of a text.
pub open spec fn lowercase(s: Seq<char>) -> Seq<char> {
    if all_ascii(s) {
        ascii_lowercase(s)
    } else {
        unicode_lowercase(s)
    }
}

/// Calls `str::to_lowercase`: on a text that is all ASCII, each letter is replaced by its
/// lowercase form; on any other text the result depends on the text alone.
#[verifier::external_body]
pub(crate) fn lower_text(s: &str) -> (r: String)
    ensures
        all_ascii(s@) ==> r@ == ascii_lowercase(s@),
        !all_ascii(s@) ==> r@ == unicode_lowercase(s@),
{
    s.to_lowercase()
}

/// The lowercase form of an ASCII letter; any other character itself.
pub fn lower_ascii_char(c: char) -> (r: char)
    ensures
        r == ascii_lower(c),
{
    let n: u32 = c as u32;
    if 65 <= n && n <= 90 {
        (n as u8 + 32) as char
    } else {
        c
    }
}

/// Whether two texts are the same up to the case of their ASCII letters.
pub fn same_text_ignoring_case(a: &str, b: &str) -> (r: bool)
    ensures
        r == (ascii_lowercase(a@) == ascii_lowercase(b@)),
{
    let v = chars_of(a);
    let w = chars_of(b);
    if v.len() != w.len() {
        assert(ascii_lowercase(a@).len() != ascii_lowercase(b@).len());
        return false;
    }
    let mut i: usize = 0;
    while i < v.len()
        invariant
            i <= v@.len(),
            v@ == a@,
            w@ == b@,
            v@.len() == w@.len(),
            forall|j: int| 0 <= j < i ==> ascii_lower(v@[j]) == ascii_lower(w@[j]),
        decreases v@.len() - i,
    {
        if lower_ascii_char(v[i]) != lower_ascii_char(w[i]) {
            assert(ascii_lowercase(v@)[i as int] != ascii_lowercase(w@)[i as int]);
            return false;
        }
        i += 1;
    }
    assert(ascii_lowercase(v@) == ascii_lowercase(w@));
    true
}

/// The characters of `s`, in order.
pub fn chars_of(s: &str) -> (v: Vec<char>)
    ensures
        v@ == s@,
{
    let mut v: Vec<char> = Vec::new();
    for c in it: s.chars()
        invariant
            it.seq() == s@,
            v@ == s@.take(it.index() as int),
    {
        v.push(c);
        assert(s@.take(it.index() + 1) == s@.take(it.index() as int).push(c));
    }
    assert(s@.take(s@.len() as int) == s@);
    v
}

/// The text made of the characters of `v` from `lo` up to `hi`.
pub fn text_of(v: &Vec<char>, lo: usize, hi: usize) -> (s: String)
    requires
        lo <= hi <= v@.len(),
    ensures
        s@ == v@.subrange(lo as int, hi as int),
{
    let mut s = String::new();
    let mut i: usize = lo;
    while i < hi
        invariant
            lo <= i <= hi <= v@.len(),
            s@ == v@.subrange(lo as int, i as int),
        decreases hi - i,
    {
        s.push(v[i]);
        i += 1;
        assert(v@.subrange(lo as int, i as int) == v@.subrange(lo as int, i - 1).push(v@[i - 1]));
    }
    s
}

// ---------------------------------------------------------------------------
// Trimming
// ---------------------------------------------------------------------------

/// `s` without the white space at its front.
pub open spec fn trim_start(s: Seq<char>) -> Seq<char>
    decreases s.len(),
{
    if s.len() > 0 && is_space(s[0]) {
        trim_start(s.drop_first())
    } else {
        s
    }
}

/// `s` without the white space at its back.
pub open spec fn trim_end(s: Seq<char>) -> Seq<char>
    decreases s.len(),
{
    if s.len() > 0 && is_space(s.last()) {
        trim_end(s.drop_last())
    } else {
        s
    }
}

/// `s` without the white space at either end.
pub open spec fn trimmed(s: Seq<char>) -> Seq<char> {
    trim_end(trim_start(s))
}

/// The bounds of what is left of `v[lo..hi]` once both its ends are trimmed.
pub fn trim_bounds(v: &Vec<char>, lo: usize, hi: usize) -> (r: (usize, usize))
    requires
        lo <= hi <= v@.len(),
    ensures
        lo <= r.0 <= r.1 <= hi,
        v@.subrange(r.0 as int, r.1 as int) == trimmed(v@.subrange(lo as int, hi as int)),
{
    let ghost whole = v@.subrange(lo as int, hi as int);
    let mut a: usize = lo;
    while a < hi && is_white(v[a])
        invariant
            lo <= a <= hi <= v@.len(),
            whole == v@.subrange(lo as int, hi as int),
            trim_start(whole) == trim_start(v@.subrange(a as int, hi as int)),
        decreases hi - a,
    {
        assert(v@.subrange(a as int, hi as int).drop_first() == v@.subrange(a + 1, hi as int));
        a += 1;
    }
    assert(trim_start(whole) == v@.subrange(a as int, hi as int));
    let mut b: usize = hi;
    while a < b && is_white(v[b - 1])
        invariant
            lo <= a <= b <= hi <= v@.len(),
            trimmed(whole) == trim_end(v@.subrange(a as int, b as int)),
        decreases b - a,
    {
        assert(v@.subrange(a as int, b as int).drop_last() == v@.subrange(a as int, b - 1));
        b -= 1;
    }
    (a, b)
}

/// `s` without the white space at either end.
pub fn trim_text(s: &str) -> (r: String)
    ensures
        r@ == trimmed(s@),
{
    let v = chars_of(s);
    let (a, b) = trim_bounds(&v, 0, v.len());
    assert(v@.subrange(0, v@.len() as int) == v@);
    text_of(&v, a, b)
}

/// `s` without the white space at its back.
pub fn trim_end_text(s: &str) -> (r: String)
    ensures
        r@ == trim_end(s@),
{
    let v = chars_of(s);
    let mut b: usize = v.len();
    assert(v@.subrange(0, b as int) =~= v@);
    while b > 0 && is_white(v[b - 1])
        invariant
            b <= v@.len(),
            v@ == s@,
            trim_end(s@) == trim_end(v@.subrange(0, b as int)),
        decreases b,
    {
        assert(v@.subrange(0, b as int).drop_last() =~= v@.subrange(0, b - 1));
        b -= 1;
    }
    text_of(&v, 0, b)
}

/// Trimming leaves nothing exactly when there is nothing but white space.
pub proof fn only_blank_text_trims_to_nothing(s: Seq<char>)
    ensures
        trimmed(s).len() == 0 <==> (forall|i: int| 0 <= i < s.len() ==> is_space(#[trigger] s[i])),
    decreases s.len(),
{
    if s.len() > 0 && is_space(s[0]) {
        only_blank_text_trims_to_nothing(s.drop_first());
        assert(forall|i: int| 0 < i < s.len() ==> s[i] == s.drop_first()[i - 1]);
        assert(forall|i: int| 0 <= i < s.drop_first().len() ==> s.drop_first()[i] == s[i + 1]);
    } else if s.len() > 0 {
        lemma_trim_end_front(s);
    }
}

/// What opens with a character that is no white space is not trimmed away from the back.
pub proof fn lemma_trim_end_front(s: Seq<char>)
    requires
        s.len() > 0,
        !is_space(s[0]),
    ensures
        trim_end(s).len() > 0,
        trim_end(s)[0] == s[0],
    decreases s.len(),
{
    if is_space(s.last()) {
        assert(s.len() > 1);
        assert(s.drop_last()[0] == s[0]);
        lemma_trim_end_front(s.drop_last());
    }
}

/// The back of a text trimmed at its end is no white space, and the text is a prefix of the whole.
pub proof fn lemma_trim_end(s: Seq<char>)
    ensures
        trim_end(s).len() <= s.len(),
        trim_end(s) == s.take(trim_end(s).len() as int),
        trim_end(s).len() > 0 ==> !is_space(trim_end(s).last()),
    decreases s.len(),
{
    if s.len() > 0 && is_space(s.last()) {
        lemma_trim_end(s.drop_last());
        let n = trim_end(s).len() as int;
        assert(s.drop_last().take(n) == s.take(n));
    } else {
        assert(s.take(s.len() as int) == s);
    }
}

/// A text trimmed at its front is what follows its leading white space.
pub proof fn lemma_trim_start(s: Seq<char>)
    ensures
        trim_start(s).len() <= s.len(),
        trim_start(s) == s.skip(s.len() - trim_start(s).len()),
        trim_start(s).len() > 0 ==> !is_space(trim_start(s)[0]),
    decreases s.len(),
{
    if s.len() > 0 && is_space(s[0]) {
        let t = s.drop_first();
        lemma_trim_start(t);
        assert(s.skip(s.len() - trim_start(s).len()) == t.skip(t.len() - trim_start(t).len()));
    } else {
        assert(s.skip(0) == s);
    }
}

/// A trimmed text neither opens nor closes with white space, and trimming it again changes
/// nothing.
pub proof fn trimming_is_idempotent(s: Seq<char>)
    ensures
        trimmed(trimmed(s)) == trimmed(s),
        trimmed(s).len() > 0 ==> !is_space(trimmed(s)[0]) && !is_space(trimmed(s).last()),
{
    let t = trim_start(s);
    lemma_trim_start(s);
    lemma_trim_end(t);
    if t.len() > 0 {
        lemma_trim_end_front(t);
    }
}

// ---------------------------------------------------------------------------
// Searching
// ---------------------------------------------------------------------------

/// `pat` stands in `s` at position `i`.
pub open spec fn occurs_at(s: Seq<char>, pat: Seq<char>, i: int) -> bool {
    &&& 0 <= i
    &&& i + pat.len() <= s.len()
    &&& s.subrange(i, i + pat.len()) == pat
}

/// The first position from `from` on at which `pat` stands in `s`.
pub open spec fn find_from(s: Seq<char>, pat: Seq<char>, from: int) -> Option<int>
    decreases s.len() + 1 - from,
{
    if from < 0 || from + pat.len() > s.len() {
        None
    } else if occurs_at(s, pat, from) {
        Some(from)
    } else {
        find_from(s, pat, from + 1)
    }
}

/// `pat` stands somewhere in `s`.
pub open spec fn contains(s: Seq<char>, pat: Seq<char>) -> bool {
    find_from(s, pat, 0) is Some
}

/// Where the first `c` from `from` on stands in `s`; the length of `s` when there is none.
pub open spec fn char_pos(s: Seq<char>, c: char, from: int) -> int
    decreases s.len() - from,
{
    if from < 0 || from >= s.len() {
        s.len() as int
    } else if s[from] == c {
        from
    } else {
        char_pos(s, c, from + 1)
    }
}

/// What `find_from` gives is the first occurrence, and it gives one whenever there is one.
pub proof fn lemma_find_from(s: Seq<char>, pat: Seq<char>, from: int)
    requires
        0 <= from,
    ensures
        find_from(s, pat, from) matches Some(i) ==> {
            &&& from <= i
            &&& occurs_at(s, pat, i)
            &&& forall|j: int| from <= j < i ==> !occurs_at(s, pat, j)
        },
        find_from(s, pat, from) is None ==> forall|j: int| from <= j ==> !occurs_at(s, pat, j),
    decreases s.len() + 1 - from,
{
    if from + pat.len() <= s.len() && !occurs_at(s, pat, from) {
        lemma_find_from(s, pat, from + 1);
    }
}

/// A text contains another exactly when the other stands at some position of it.
pub proof fn contains_means_occurs(s: Seq<char>, pat: Seq<char>)
    ensures
        contains(s, pat) <==> exists|i: int| occurs_at(s, pat, i),
{
    lemma_find_from(s, pat, 0);
}

/// `char_pos` is the first position of the character.
pub proof fn lemma_char_pos(s: Seq<char>, c: char, from: int)
    requires
        0 <= from <= s.len(),
    ensures
        from <= char_pos(s, c, from) <= s.len(),
        char_pos(s, c, from) < s.len() ==> s[char_pos(s, c, from)] == c,
        forall|j: int| from <= j < char_pos(s, c, from) ==> s[j] != c,
    decreases s.len() - from,
{
    if from < s.len() && s[from] != c {
        lemma_char_pos(s, c, from + 1);
    }
}

/// Whether `pat` stands in `v` at position `i`.
pub fn stands_at(v: &Vec<char>, pat: &Vec<char>, i: usize) -> (r: bool)
    ensures
        r == occurs_at(v@, pat@, i as int),
{
    if i > v.len() || pat.len() > v.len() - i {
        return false;
    }
    let mut k: usize = 0;
    while k < pat.len()
        invariant
            k <= pat@.len(),
            i + pat@.len() <= v@.len() <= usize::MAX,
            forall|j: int| 0 <= j < k ==> v@[i + j] == pat@[j],
        decreases pat@.len() - k,
    {
        if v[i + k] != pat[k] {
            assert(v@.subrange(i as int, i + pat@.len())[k as int] != pat@[k as int]);
            return false;
        }
        k += 1;
    }
    assert(v@.subrange(i as int, i + pat@.len()) == pat@);
    true
}

/// The first position from `from` on at which `pat` stands in `v`.
pub fn find_pos(v: &Vec<char>, pat: &Vec<char>, from: usize) -> (r: Option<usize>)
    requires
        from <= v@.len(),
    ensures
        match r {
            Some(i) => find_from(v@, pat@, from as int) == Some(i as int),
            None => find_from(v@, pat@, from as int) is None,
        },
        r matches Some(i) ==> from <= i && i + pat@.len() <= v@.len(),
{
    let mut i: usize = from;
    while i <= v.len() && pat.len() <= v.len() - i
        invariant
            from <= i,
            i <= v@.len() + 1,
            find_from(v@, pat@, from as int) == find_from(v@, pat@, i as int),
        decreases v@.len() + 1 - i,
    {
        if stands_at(v, pat, i) {
            return Some(i);
        }
        if i == v.len() {
            assert(v@.subrange(i as int, i + pat@.len()) == pat@);
        }
        i += 1;
    }
    None
}

/// Whether `pat` stands somewhere in `s`.
pub fn contains_text(s: &str, pat: &str) -> (r: bool)
    ensures
        r == contains(s@, pat@),
{
    let v = chars_of(s);
    let p = chars_of(pat);
    find_pos(&v, &p, 0).is_some()
}

/// Where the first `c` from `from` on stands in `v`; the length of `v` when there is none.
pub fn find_char(v: &Vec<char>, c: char, from: usize) -> (r: usize)
    requires
        from <= v@.len(),
    ensures
        r == char_pos(v@, c, from as int),
        from <= r <= v@.len(),
        r < v@.len() ==> v@[r as int] == c,
{
    let mut i: usize = from;
    while i < v.len() && v[i] != c
        invariant
            from <= i <= v@.len(),
            char_pos(v@, c, from as int) == char_pos(v@, c, i as int),
        decreases v@.len() - i,
    {
        i += 1;
    }
    i
}

/// Whether `s` holds the character `c`.
pub fn contains_char(s: &str, c: char) -> (r: bool)
    ensures
        r == s@.contains(c),
{
    let v = chars_of(s);
    let i = find_char(&v, c, 0);
    proof {
        lemma_char_pos(s@, c, 0);
        if i < v@.len() {
            assert(s@[i as int] == c);
        }
    }
    i < v.len()
}

/// `s` opens with `pat`.
pub open spec fn starts_with(s: Seq<char>, pat: Seq<char>) -> bool {
    occurs_at(s, pat, 0)
}

/// `s` closes with `pat`.
pub open spec fn ends_with(s: Seq<char>, pat: Seq<char>) -> bool {
    occurs_at(s, pat, s.len() - pat.len())
}

/// Whether `s` opens with `pat`.
pub fn opens_with(s: &str, pat: &str) -> (r: bool)
    ensures
        r == starts_with(s@, pat@),
{
    let v = chars_of(s);
    let p = chars_of(pat);
    stands_at(&v, &p, 0)
}

/// Whether `s` closes with `pat`.
pub fn closes_with(s: &str, pat: &str) -> (r: bool)
    ensures
        r == ends_with(s@, pat@),
{
    let v = chars_of(s);
    let p = chars_of(pat);
    if p.len() > v.len() {
        return false;
    }
    stands_at(&v, &p, v.len() - p.len())
}

// ---------------------------------------------------------------------------
// Splitting and joining
// ---------------------------------------------------------------------------

/// The pieces of `s` between the occurrences of `c`, the empty ones included.
pub open spec fn split_on(s: Seq<char>, c: char) -> Seq<Seq<char>>
    decreases s.len(),
{
    let i = char_pos(s, c, 0);
    if 0 <= i < s.len() {
        seq![s.take(i)] + split_on(s.skip(i + 1), c)
    } else {
        seq![s]
    }
}

/// How many characters at the front of `s` are no white space.
pub open spec fn word_len(s: Seq<char>) -> int
    decreases s.len(),
{
    if s.len() > 0 && !is_space(s[0]) {
        1 + word_len(s.drop_first())
    } else {
        0
    }
}

/// The maximal pieces of `s` without white space.
pub open spec fn words(s: Seq<char>) -> Seq<Seq<char>>
    decreases s.len(),
{
    if s.len() == 0 {
        Seq::empty()
    } else if is_space(s[0]) {
        words(s.drop_first())
    } else {
        let n = word_len(s);
        if 0 < n <= s.len() {
            seq![s.take(n)] + words(s.skip(n))
        } else {
            Seq::empty()
        }
    }
}

/// The parts one after the other, with `sep` between any two.
pub open spec fn join(parts: Seq<Seq<char>>, sep: Seq<char>) -> Seq<char>
    decreases parts.len(),
{
    if parts.len() == 0 {
        Seq::empty()
    } else if parts.len() == 1 {
        parts[0]
    } else {
        join(parts.drop_last(), sep) + sep + parts.last()
    }
}

/// The texts of a list of strings.
pub open spec fn texts(parts: Seq<String>) -> Seq<Seq<char>> {
    parts.map_values(|p: String| p@)
}

pub proof fn lemma_word_len(s: Seq<char>)
    ensures
        0 <= word_len(s) <= s.len(),
        forall|j: int| 0 <= j < word_len(s) ==> !is_space(#[trigger] s[j]),
        word_len(s) < s.len() ==> is_space(s[word_len(s)]),
    decreases s.len(),
{
    if s.len() > 0 && !is_space(s[0]) {
        let t = s.drop_first();
        lemma_word_len(t);
        assert(forall|j: int| 0 < j < s.len() ==> s[j] == t[j - 1]);
    }
}

/// The words of a text with one more character: white space changes none; any other character
/// starts a word behind white space, and otherwise belongs to the last word.
pub proof fn lemma_words_push(s: Seq<char>, c: char)
    ensures
        is_space(c) ==> words(s.push(c)) == words(s),
        !is_space(c) && (s.len() == 0 || is_space(s.last())) ==> words(s.push(c)) == words(s).push(seq![c]),
        !is_space(c) && s.len() > 0 && !is_space(s.last()) ==> words(s).len() > 0 && words(s.push(c)) == words(
            s,
        ).drop_last().push(words(s).last().push(c)),
    decreases s.len(),
{
    let t = s.push(c);
    if s.len() == 0 {
        assert(t =~= seq![c]);
        reveal_with_fuel(word_len, 3);
        reveal_with_fuel(words, 3);
        assert(t.drop_first() =~= Seq::<char>::empty());
        assert(t.take(1) =~= seq![c]);
        assert(t.skip(1) =~= Seq::<char>::empty());
        assert(words(t) =~= if is_space(c) {
            Seq::empty()
        } else {
            seq![seq![c]]
        });
    } else if is_space(s[0]) {
        assert(t.drop_first() =~= s.drop_first().push(c));
        lemma_words_push(s.drop_first(), c);
    } else {
        let n = word_len(s);
        lemma_word_len(s);
        lemma_word_len(t);
        lemma_word_len_push(s, c);
        if n == s.len() {
            assert(s.take(n) =~= s);
            assert(s.skip(n) =~= Seq::<char>::empty());
            assert(words(s.skip(n)) =~= Seq::<Seq<char>>::empty());
            assert(words(s) =~= seq![s]);
            if is_space(c) {
                assert(t.take(n) =~= s);
                assert(t.skip(n) =~= seq![c]);
                reveal_with_fuel(words, 3);
                assert(seq![c].drop_first() =~= Seq::<char>::empty());
                assert(words(t) =~= seq![s]);
            } else {
                assert(t.take(n + 1) =~= t);
                assert(t.skip(n + 1) =~= Seq::<char>::empty());
                assert(words(t.skip(n + 1)) =~= Seq::<Seq<char>>::empty());
                assert(words(t) =~= seq![t]);
                assert(words(s).drop_last().push(s.push(c)) =~= seq![t]);
            }
        } else {
            let rest = s.skip(n);
            assert(t.take(n) =~= s.take(n));
            assert(t.skip(n) =~= rest.push(c));
            lemma_words_push(rest, c);
            assert(rest.last() == s.last());
            let head = seq![s.take(n)];
            assert(words(s) =~= head + words(rest));
            assert(words(t) =~= head + words(rest.push(c)));
            if !is_space(c) && is_space(s.last()) {
                assert(words(t) =~= words(s).push(seq![c]));
            } else if !is_space(c) {
                assert(words(s).last() == words(rest).last());
                assert(words(t) =~= words(s).drop_last().push(words(s).last().push(c)));
            }
        }
    }
}

proof fn lemma_word_len_push(s: Seq<char>, c: char)
    ensures
        word_len(s) < s.len() ==> word_len(s.push(c)) == word_len(s),
        word_len(s) == s.len() ==> word_len(s.push(c)) == s.len() + if is_space(c) {
            0int
        } else {
            1int
        },
    decreases s.len(),
{
    reveal_with_fuel(word_len, 3);
    if s.len() > 0 && !is_space(s[0]) {
        lemma_word_len_push(s.drop_first(), c);
        assert(s.push(c).drop_first() =~= s.drop_first().push(c));
    } else if s.len() == 0 {
        assert(s.push(c).drop_first() =~= Seq::<char>::empty());
    }
}

/// The pieces of `s` between the occurrences of `c`, the empty ones included.
pub fn split_text(s: &str, c: char) -> (r: Vec<String>)
    ensures
        texts(r@) == split_on(s@, c),
{
    let v = chars_of(s);
    let mut out: Vec<String> = Vec::new();
    let mut from: usize = 0;
    assert(v@.skip(0) == v@);
    loop
        invariant
            from <= v@.len(),
            split_on(v@, c) == texts(out@) + split_on(v@.skip(from as int), c),
        ensures
            from <= v@.len(),
            split_on(v@, c) == texts(out@) + seq![v@.skip(from as int)],
        decreases v@.len() - from,
    {
        let i = find_char(&v, c, from);
        proof {
            lemma_char_pos_skip(v@, c, from as int);
        }
        let ghost rest = v@.skip(from as int);
        let ghost before = out@;
        if i == v.len() {
            break;
        }
        assert(rest.take(i - from) == v@.subrange(from as int, i as int));
        assert(rest.skip(i - from + 1) == v@.skip(i + 1));
        let piece = text_of(&v, from, i);
        out.push(piece);
        assert(texts(out@) == texts(before) + seq![rest.take(i - from)]);
        from = i + 1;
    }
    let ghost before = out@;
    let last = text_of(&v, from, v.len());
    assert(v@.subrange(from as int, v@.len() as int) == v@.skip(from as int));
    out.push(last);
    assert(texts(out@) == texts(before) + seq![v@.skip(from as int)]);
    out
}

pub proof fn lemma_char_pos_skip(s: Seq<char>, c: char, from: int)
    requires
        0 <= from <= s.len(),
    ensures
        char_pos(s, c, from) == from + char_pos(s.skip(from), c, 0),
    decreases s.len() - from,
{
    lemma_char_pos(s, c, from);
    let t = s.skip(from);
    lemma_char_pos(t, c, 0);
    let a = char_pos(s, c, from);
    let b = char_pos(t, c, 0);
    if a < from + b {
        assert(t[a - from] == s[a]);
    } else if a > from + b {
        assert(t[b] == s[from + b]);
    }
}

/// The maximal pieces of `s` without white space.
pub fn split_words(s: &str) -> (r: Vec<String>)
    ensures
        texts(r@) == words(s@),
{
    let v = chars_of(s);
    let mut out: Vec<String> = Vec::new();
    let mut i: usize = 0;
    assert(v@.skip(0) == v@);
    while i < v.len()
        invariant
            i <= v@.len(),
            words(v@) == texts(out@) + words(v@.skip(i as int)),
        decreases v@.len() - i,
    {
        let ghost rest = v@.skip(i as int);
        assert(rest[0] == v@[i as int]);
        if is_white(v[i]) {
            assert(rest.drop_first() == v@.skip(i + 1));
            i += 1;
        } else {
            let start: usize = i;
            while i < v.len() && !is_white(v[i])
                invariant
                    start <= i <= v@.len(),
                    rest == v@.skip(start as int),
                    word_len(rest) == (i - start) + word_len(v@.skip(i as int)),
                decreases v@.len() - i,
            {
                assert(v@.skip(i as int)[0] == v@[i as int]);
                assert(v@.skip(i as int).drop_first() == v@.skip(i + 1));
                i += 1;
            }
            assert(word_len(v@.skip(i as int)) == 0) by {
                if i < v@.len() {
                    assert(v@.skip(i as int)[0] == v@[i as int]);
                }
            }
            let ghost before = out@;
            assert(rest.take(i - start) == v@.subrange(start as int, i as int));
            assert(rest.skip(i - start) == v@.skip(i as int));
            let word = text_of(&v, start, i);
            out.push(word);
            assert(texts(out@) == texts(before) + seq![rest.take(i - start)]);
        }
    }
    assert(v@.skip(i as int).len() == 0);
    out
}

/// The parts one after the other, with `sep` between any two.
pub fn join_texts(parts: &Vec<String>, sep: &str) -> (r: String)
    ensures
        r@ == join(texts(parts@), sep@),
{
    let mut out = String::new();
    let mut i: usize = 0;
    while i < parts.len()
        invariant
            i <= parts@.len(),
            out@ == join(texts(parts@).take(i as int), sep@),
        decreases parts@.len() - i,
    {
        if i > 0 {
            out.append(sep);
        }
        out.append(parts[i].as_str());
        i += 1;
        let ghost t = texts(parts@).take(i as int);
        assert(t.drop_last() == texts(parts@).take(i - 1));
        assert(t.last() == parts@[i - 1]@);
    }
    assert(texts(parts@).take(i as int) == texts(parts@));
    out
}

/// Where the last `c` stands in `s`; -1 when there is none.
pub open spec fn last_char_pos(s: Seq<char>, c: char) -> int
    decreases s.len(),
{
    if s.len() == 0 {
        -1
    } else if s.last() == c {
        s.len() - 1
    } else {
        last_char_pos(s.drop_last(), c)
    }
}

/// Where the last `c` stands in `v`.
pub fn find_last_char(v: &Vec<char>, c: char) -> (r: Option<usize>)
    ensures
        match r {
            Some(i) => i < v@.len() && v@[i as int] == c && last_char_pos(v@, c) == i,
            None => last_char_pos(v@, c) == -1,
        },
{
    let mut n: usize = v.len();
    assert(v@.take(n as int) == v@);
    while n > 0
        invariant
            n <= v@.len(),
            last_char_pos(v@, c) == last_char_pos(v@.take(n as int), c),
        decreases n,
    {
        assert(v@.take(n as int).last() == v@[n - 1]);
        assert(v@.take(n as int).drop_last() == v@.take(n - 1));
        if v[n - 1] == c {
            return Some(n - 1);
        }
        n -= 1;
    }
    None
}

/// `s` up to the first `c`.
pub open spec fn before_char(s: Seq<char>, c: char) -> Seq<char> {
    s.take(char_pos(s, c, 0))
}

/// `s` up to the first `c`.
pub fn cut_at(s: &str, c: char) -> (r: String)
    ensures
        r@ == before_char(s@, c),
{
    let v = chars_of(s);
    let i = find_char(&v, c, 0);
    text_of(&v, 0, i)
}

/// A text that is joined from parts without the separator splits into those parts again.
pub proof fn joined_parts_split_again(parts: Seq<Seq<char>>, c: char)
    requires
        parts.len() > 0,
        forall|i: int| 0 <= i < parts.len() ==> !(#[trigger] parts[i]).contains(c),
    ensures
        split_on(join(parts, seq![c]), c) == parts,
    decreases parts.len(),
{
    let all = join(parts, seq![c]);
    if parts.len() == 1 {
        lemma_no_char(all, c);
        assert(split_on(all, c) == parts);
    } else {
        let head = parts.drop_last();
        assert forall|i: int| 0 <= i < head.len() implies !(#[trigger] head[i]).contains(c) by {
            assert(head[i] == parts[i]);
        }
        joined_parts_split_again(head, c);
        lemma_split_append(join(head, seq![c]), parts.last(), c);
        assert(join(head, seq![c]) + seq![c] + parts.last() == all);
        assert(head.push(parts.last()) == parts);
    }
}

proof fn lemma_no_char(s: Seq<char>, c: char)
    requires
        !s.contains(c),
    ensures
        char_pos(s, c, 0) == s.len(),
{
    lemma_char_pos(s, c, 0);
}

proof fn lemma_char_pos_first(s: Seq<char>, c: char, i: int)
    requires
        0 <= i < s.len(),
        s[i] == c,
        forall|j: int| 0 <= j < i ==> s[j] != c,
    ensures
        char_pos(s, c, 0) == i,
{
    lemma_char_pos(s, c, 0);
    let p = char_pos(s, c, 0);
    if p < i {
        assert(s[p] != c);
    }
}

proof fn lemma_split_append(a: Seq<char>, b: Seq<char>, c: char)
    requires
        !b.contains(c),
    ensures
        split_on(a + seq![c] + b, c) == split_on(a, c).push(b),
    decreases a.len(),
{
    let s = a + seq![c] + b;
    lemma_char_pos(a, c, 0);
    let i = char_pos(a, c, 0);
    if i < a.len() {
        assert forall|j: int| 0 <= j < i implies s[j] != c by {
            assert(s[j] == a[j]);
        }
        lemma_char_pos_first(s, c, i);
        assert(s.take(i) == a.take(i));
        assert(s.skip(i + 1) == a.skip(i + 1) + seq![c] + b);
        lemma_split_append(a.skip(i + 1), b, c);
        assert(split_on(s, c) == seq![a.take(i)] + split_on(a.skip(i + 1), c).push(b));
        assert(split_on(a, c).push(b) == seq![a.take(i)] + split_on(a.skip(i + 1), c).push(b));
    } else {
        assert forall|j: int| 0 <= j < a.len() implies s[j] != c by {
            assert(s[j] == a[j]);
        }
        lemma_char_pos_first(s, c, a.len() as int);
        assert(s.take(a.len() as int) == a);
        assert(s.skip((a.len() + 1) as int) == b);
        lemma_no_char(b, c);
        assert(split_on(b, c) == seq![b]);
        assert(split_on(a, c) == seq![a]);
        assert(split_on(s, c) == seq![a].push(b));
    }
}

/// No piece of a split text holds the separator.
pub proof fn split_pieces_lack_separator(s: Seq<char>, c: char)
    ensures
        forall|i: int| 0 <= i < split_on(s, c).len() ==> !(#[trigger] split_on(s, c)[i]).contains(c),
        split_on(s, c).len() > 0,
    decreases s.len(),
{
    lemma_char_pos(s, c, 0);
    let p = char_pos(s, c, 0);
    if p < s.len() {
        split_pieces_lack_separator(s.skip(p + 1), c);
        let rest = split_on(s.skip(p + 1), c);
        assert forall|i: int| 0 <= i < split_on(s, c).len() implies !(#[trigger] split_on(
            s,
            c,
        )[i]).contains(c) by {
            if i > 0 {
                assert(split_on(s, c)[i] == rest[i - 1]);
            }
        }
    }
}

/// Where no piece of a text holds a character, what is split from it does not either.
pub proof fn lemma_split_pieces_lack(s: Seq<char>, c: char, x: char)
    requires
        !s.contains(x),
    ensures
        forall|i: int| 0 <= i < split_on(s, c).len() ==> !(#[trigger] split_on(s, c)[i]).contains(x),
    decreases s.len(),
{
    lemma_char_pos(s, c, 0);
    let p = char_pos(s, c, 0);
    if p < s.len() {
        let t = s.skip(p + 1);
        assert(forall|j: int| 0 <= j < t.len() ==> t[j] == s[p + 1 + j]);
        assert(!t.contains(x));
        lemma_split_pieces_lack(t, c, x);
        let rest = split_on(t, c);
        assert forall|i: int| 0 <= i < split_on(s, c).len() implies !(#[trigger] split_on(
            s,
            c,
        )[i]).contains(x) by {
            if i > 0 {
                assert(split_on(s, c)[i] == rest[i - 1]);
            }
        }
    }
}

/// What is joined from parts without a character, with a separator without it, does not hold it.
pub proof fn lemma_join_lacks(parts: Seq<Seq<char>>, sep: Seq<char>, x: char)
    requires
        !sep.contains(x),
        forall|i: int| 0 <= i < parts.len() ==> !(#[trigger] parts[i]).contains(x),
    ensures
        !join(parts, sep).contains(x),
    decreases parts.len(),
{
    if parts.len() > 1 {
        let head = parts.drop_last();
        assert forall|i: int| 0 <= i < head.len() implies !(#[trigger] head[i]).contains(x) by {
            assert(head[i] == parts[i]);
        }
        lemma_join_lacks(head, sep, x);
        let h = join(head, sep);
        let all = join(parts, sep);
        assert forall|i: int| 0 <= i < all.len() implies all[i] != x by {
            if i < h.len() {
                assert(all[i] == h[i]);
            } else if i < h.len() + sep.len() {
                assert(all[i] == sep[i - h.len()]);
            } else {
                assert(all[i] == parts.last()[i - h.len() - sep.len()]);
            }
        }
    }
}

// ---------------------------------------------------------------------------
// Numbers and repetition
// ---------------------------------------------------------------------------

/// The decimal digit of a number below ten.
pub open spec fn digit(d: nat) -> char {
    (48 + d) as char
}

/// A number in decimal digits.
pub open spec fn decimal(n: nat) -> Seq<char>
    decreases n,
{
    if n < 10 {
        seq![digit(n)]
    } else {
        decimal(n / 10).push(digit(n % 10))
    }
}

/// An integer in decimal digits, a negative one with a minus sign.
pub open spec fn signed_decimal(n: int) -> Seq<char> {
    if n < 0 {
        seq!['-'] + decimal((-n) as nat)
    } else {
        decimal(n as nat)
    }
}

/// `s` repeated `n` times.
pub open spec fn repeated(s: Seq<char>, n: nat) -> Seq<char>
    decreases n,
{
    if n == 0 {
        Seq::empty()
    } else {
        repeated(s, (n - 1) as nat) + s
    }
}

/// Appends a number in decimal digits.
pub fn push_decimal(out: &mut String, n: u64)
    ensures
        final(out)@ == old(out)@ + decimal(n as nat),
    decreases n,
{
    let ghost before = out@;
    if n >= 10 {
        push_decimal(out, n / 10);
    }
    let d: u8 = (n % 10) as u8;
    out.push((48 + d) as char);
    assert(out@ =~= before + decimal(n as nat));
}

/// Appends an integer in decimal digits, a negative one with a minus sign.
pub fn push_signed(out: &mut String, n: i64)
    ensures
        final(out)@ == old(out)@ + signed_decimal(n as int),
{
    let ghost before = out@;
    if n < 0 {
        out.push('-');
        if n == i64::MIN {
            push_decimal(out, 9223372036854775808);
        } else {
            push_decimal(out, (-n) as u64);
        }
        assert(out@ =~= before + signed_decimal(n as int));
    } else {
        push_decimal(out, n as u64);
    }
}

/// Appends `s` repeated `n` times.
pub fn push_repeated(out: &mut String, s: &str, n: usize)
    ensures
        final(out)@ == old(out)@ + repeated(s@, n as nat),
{
    let ghost before = out@;
    let mut k: usize = 0;
    assert(before + repeated(s@, 0) =~= before);
    while k < n
        invariant
            k <= n,
            out@ == before + repeated(s@, k as nat),
        decreases n - k,
    {
        out.append(s);
        k += 1;
        assert(out@ =~= before + repeated(s@, k as nat));
    }
}

} // verus!
