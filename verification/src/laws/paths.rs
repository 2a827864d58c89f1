//! Paths inside an archive lead where their steps lead.

use vstd::prelude::*;

use crate::epub::{
    entry_for, first_alike, first_exact, forward_slashes, is_alike, is_clean_step, normalized,
    normalized_decoded, normalized_steps, parent_dir, path_steps, percent_decoded, resolved,
};
use crate::text::{
    ascii_lowercase, before_char, char_pos, join, last_char_pos, lemma_char_pos, split_on,
};

verus! {

/// The text holds no sign that a path reads otherwise.
pub open spec fn is_bare(s: Seq<char>) -> bool {
    !s.contains('#') && !s.contains('?')
}

proof fn lemma_before(a: Seq<char>, c: char, b: Seq<char>)
    requires
        !a.contains(c),
    ensures
        before_char(a + seq![c] + b, c) == a,
        before_char(a, c) == a,
        char_pos(a + seq![c] + b, c, 0) == a.len(),
        char_pos(a, c, 0) == a.len(),
{
    let s = a + seq![c] + b;
    lemma_char_pos(s, c, 0);
    lemma_char_pos(a, c, 0);
    let p = char_pos(s, c, 0);
    assert(s[a.len() as int] == c);
    if p < a.len() {
        assert(s[p] == a[p]);
        assert(a.contains(a[p]));
    }
    if char_pos(a, c, 0) < a.len() {
        assert(a.contains(a[char_pos(a, c, 0)]));
    }
    assert(s.take(a.len() as int) =~= a);
    assert(a.take(a.len() as int) =~= a);
}

/// The query and the fragment of a path are no part of its normal form, and a backslash is a
/// slash.
pub proof fn queries_and_fragments_are_cut_off(a: Seq<char>, rest: Seq<char>)
    requires
        is_bare(a),
    ensures
        normalized_decoded(a + seq!['#'] + rest) == normalized_decoded(a),
        normalized_decoded(a + seq!['?'] + rest) == normalized_decoded(a),
        normalized_decoded(Seq::new(a.len(), |i: int| if a[i] == '\\' { '/' } else { a[i] })) == normalized_decoded(a),
{
    lemma_before(a, '#', rest);
    lemma_before(a, '?', rest);
    let q = a + seq!['?'] + rest;
    lemma_char_pos(q, '#', 0);
    let p = char_pos(q, '#', 0);
    assert(p > a.len()) by {
        if p < a.len() {
            assert(q[p] == a[p]);
            assert(a.contains(a[p]));
        }
        if p == a.len() {
            assert(q[p] == '?');
        }
    }
    assert(before_char(q, '#') =~= a + seq!['?'] + rest.take(p - a.len() - 1));
    lemma_before(a, '?', rest.take(p - a.len() - 1));
    let f = Seq::new(a.len(), |i: int| if a[i] == '\\' { '/' } else { a[i] });
    assert forall|i: int| 0 <= i < f.len() implies f[i] != '#' && f[i] != '?' by {
        assert(a.contains(a[i]));
    }
    lemma_before(f, '#', rest);
    lemma_before(f, '?', rest);
    assert(forward_slashes(f) =~= forward_slashes(a));
}

proof fn lemma_split_join(a: Seq<char>, b: Seq<char>, c: char)
    ensures
        split_on(a + seq![c] + b, c) == split_on(a, c) + split_on(b, c),
    decreases a.len(),
{
    let s = a + seq![c] + b;
    lemma_char_pos(a, c, 0);
    lemma_char_pos(s, c, 0);
    let p = char_pos(a, c, 0);
    let q = char_pos(s, c, 0);
    assert(s[a.len() as int] == c);
    assert(p == q) by {
        if q < p {
            assert(s[q] == a[q]);
        }
        if p < q {
            if p < a.len() {
                assert(s[p] == a[p]);
            }
        }
    }
    if p < a.len() {
        lemma_split_join(a.skip(p + 1), b, c);
        assert(s.take(p) =~= a.take(p));
        assert(s.skip(p + 1) =~= a.skip(p + 1) + seq![c] + b);
    } else {
        assert(s.take(p) =~= a);
        assert(s.skip(p + 1) =~= b);
    }
    assert(split_on(s, c) =~= split_on(a, c) + split_on(b, c));
}

proof fn lemma_steps(a: Seq<char>)
    requires
        is_bare(a),
    ensures
        normalized_steps(a) == path_steps(split_on(forward_slashes(a), '/')),
{
    lemma_before(a, '#', a);
    lemma_before(a, '?', a);
}

proof fn lemma_one_step(x: Seq<char>)
    requires
        !x.contains('/'),
        !x.contains('\\'),
    ensures
        split_on(forward_slashes(x), '/') == seq![x],
        forward_slashes(x) == x,
{
    assert forall|i: int| 0 <= i < x.len() implies x[i] != '\\' && x[i] != '/' by {
        assert(x.contains(x[i]));
    }
    assert(forward_slashes(x) =~= x);
    lemma_char_pos(x, '/', 0);
}

proof fn lemma_append(a: Seq<char>, x: Seq<char>)
    requires
        is_bare(a),
        is_bare(x),
        !x.contains('/'),
        !x.contains('\\'),
    ensures
        is_bare(a + seq!['/'] + x),
        normalized_steps(a + seq!['/'] + x) == path_steps(split_on(forward_slashes(a), '/').push(x)),
{
    let s = a + seq!['/'] + x;
    assert forall|i: int| 0 <= i < s.len() implies s[i] != '#' && s[i] != '?' by {
        if i < a.len() {
            assert(a.contains(a[i]));
        } else if i > a.len() {
            assert(s[i] == x[i - a.len() - 1]);
            assert(x.contains(x[i - a.len() - 1]));
        }
    }
    lemma_steps(s);
    assert(forward_slashes(s) =~= forward_slashes(a) + seq!['/'] + forward_slashes(x));
    lemma_split_join(forward_slashes(a), forward_slashes(x), '/');
    lemma_one_step(x);
    let parts = split_on(forward_slashes(a), '/');
    assert(parts + seq![x] =~= parts.push(x));
}

proof fn lemma_dots()
    ensures
        "."@ =~= seq!['.'],
        ".."@ =~= seq!['.', '.'],
        "/"@ =~= seq!['/'],
{
    reveal_strlit(".");
    reveal_strlit("..");
    reveal_strlit("/");
}

/// A name behind a path leads one step further; `.` and nothing lead nowhere; a name and `..`
/// behind it lead back.
pub proof fn names_lead_on_and_dots_lead_back(a: Seq<char>, x: Seq<char>)
    requires
        is_bare(a),
        is_clean_step(x),
    ensures
        normalized_decoded(a).len() > 0 ==> normalized_decoded(a + "/"@ + x) == normalized_decoded(a) + "/"@ + x,
        normalized_decoded(a).len() == 0 ==> normalized_decoded(a + "/"@ + x) == x,
        normalized_decoded(x) == x,
        normalized_decoded(a + "/"@) == normalized_decoded(a),
        normalized_decoded(a + "/."@) == normalized_decoded(a),
        normalized_decoded(a + "/"@ + x + "/.."@) == normalized_decoded(a),
        normalized_decoded("../"@ + x) == x,
{
    lemma_dots();
    reveal_strlit("/.");
    reveal_strlit("/..");
    reveal_strlit("../");
    lemma_append(a, x);
    lemma_append(a, "."@);
    lemma_append(a, Seq::empty());
    lemma_append(a + "/"@ + x, ".."@);
    lemma_append(".."@, x);
    assert(a + "/"@ + Seq::<char>::empty() =~= a + "/"@);
    assert(a + "/."@ =~= a + "/"@ + "."@);
    assert(a + "/"@ + x + "/.."@ =~= a + "/"@ + x + "/"@ + ".."@);
    assert("../"@ + x =~= ".."@ + "/"@ + x);
    lemma_steps(a);
    lemma_steps(x);
    lemma_one_step(x);
    lemma_one_step(".."@);
    let parts = split_on(forward_slashes(a), '/');
    let steps = path_steps(parts);
    assert(parts.push(x).drop_last() =~= parts);
    assert(parts.push("."@).drop_last() =~= parts);
    assert(parts.push(Seq::<char>::empty()).drop_last() =~= parts);
    let longer = split_on(forward_slashes(a + "/"@ + x), '/');
    assert(longer.push(".."@).drop_last() =~= longer);
    lemma_steps(a + "/"@ + x);
    assert(steps.push(x).drop_last() =~= steps);
    assert(seq![x].drop_last() =~= Seq::<Seq<char>>::empty());
    assert(path_steps(Seq::<Seq<char>>::empty()) =~= Seq::<Seq<char>>::empty());
    assert(path_steps(seq![x]) =~= seq![x]);
    assert(seq![".."@].drop_last() =~= Seq::<Seq<char>>::empty());
    assert(path_steps(seq![".."@]) =~= Seq::<Seq<char>>::empty());
    assert(seq![".."@].push(x).drop_last() =~= seq![".."@]);
    assert(path_steps(seq![".."@].push(x)) =~= seq![x]);
    assert(join(seq![x], "/"@) == x);
    crate::epub::normalized_paths_stay_inside(a);
    lemma_join_len(steps);
}

proof fn lemma_join_len(steps: Seq<Seq<char>>)
    requires
        forall|i: int| 0 <= i < steps.len() ==> is_clean_step(#[trigger] steps[i]),
    ensures
        join(steps, "/"@).len() == 0 <==> steps.len() == 0,
        forall|x: Seq<char>| #[trigger] join(steps.push(x), "/"@) == (if steps.len() == 0 {
            x
        } else {
            join(steps, "/"@) + "/"@ + x
        }),
{
    lemma_dots();
    assert forall|x: Seq<char>| #[trigger] join(steps.push(x), "/"@) == (if steps.len() == 0 {
        x
    } else {
        join(steps, "/"@) + "/"@ + x
    }) by {
        assert(steps.push(x).drop_last() =~= steps);
    }
    if steps.len() == 1 {
        assert(is_clean_step(steps[0]));
    } else if steps.len() > 1 {
        assert(is_clean_step(steps.last()));
    }
}

/// A reference without a fragment leads to its path below the directory it stands in, and a
/// fragment behind it stays.
pub proof fn references_keep_their_fragments(dir: Seq<char>, path: Seq<char>, fragment: Seq<char>)
    requires
        !path.contains('#'),
        fragment.len() > 0,
    ensures
        resolved(dir, path + "#"@ + fragment) == resolved(dir, path) + "#"@ + fragment,
        dir.len() > 0 ==> resolved(dir, path) == normalized(dir + "/"@ + path),
        resolved(Seq::empty(), path) == normalized(path),
        resolved(dir, path + "#"@) == resolved(dir, path),
{
    reveal_strlit("#");
    lemma_before(path, '#', Seq::empty());
    assert(path + "#"@ =~= path + seq!['#'] + Seq::<char>::empty());
    assert("#"@ =~= seq!['#']);
    lemma_before(path, '#', fragment);
    let r = path + "#"@ + fragment;
    assert(r.skip(path.len() as int) =~= "#"@ + fragment);
    assert(normalized(path) + Seq::empty() =~= normalized(path));
    assert(normalized(dir + "/"@ + path) + Seq::empty() =~= normalized(dir + "/"@ + path));
    assert(resolved(dir, r) =~= resolved(dir, path) + "#"@ + fragment);
}

/// Escapes in a path are decoded before all else, and a path without them is taken as it is.
pub proof fn escapes_are_decoded_first(path: Seq<char>)
    ensures
        !path.contains('%') ==> normalized(path) == normalized_decoded(path),
        path.contains('%') ==> normalized(path) == normalized_decoded(percent_decoded(path)),
{
}

/// The directory of a path is what stands before its last step.
pub proof fn directories_stand_before_the_last_step(dir: Seq<char>, name: Seq<char>)
    requires
        !name.contains('/'),
    ensures
        parent_dir(dir + "/"@ + name) == dir,
        parent_dir(name) == Seq::<char>::empty(),
{
    lemma_dots();
    lemma_last(dir + "/"@, name);
    lemma_last(Seq::empty(), name);
    assert(Seq::<char>::empty() + name =~= name);
    assert((dir + "/"@ + name).take(dir.len() as int) =~= dir);
}

proof fn lemma_last(a: Seq<char>, name: Seq<char>)
    requires
        !name.contains('/'),
        a.len() > 0 ==> a.last() == '/',
    ensures
        last_char_pos(a + name, '/') == a.len() - 1,
    decreases name.len(),
{
    let s = a + name;
    if name.len() > 0 {
        assert(name.contains(name.last()));
        let front = name.drop_last();
        assert(s.drop_last() =~= a + front);
        assert forall|i: int| 0 <= i < front.len() implies front[i] != '/' by {
            assert(name.contains(name[i]));
        }
        lemma_last(a, front);
    } else {
        assert(s =~= a);
    }
}

/// The path names an entry of just that name, the first of it, if there is one; otherwise the
/// first whose name is the same but for the case of letters; and no entry if there is neither.
pub proof fn paths_find_their_entries(names: Seq<Option<Seq<char>>>, path: Seq<char>, k: int)
    requires
        0 <= k < names.len(),
    ensures
        ({
            let name = normalized(path);
            let exact = |j: int| names[j] == Some(name);
            let alike = |j: int|
                names[j] matches Some(n) && ascii_lowercase(normalized(n)) == ascii_lowercase(name);
            &&& exact(k) && (forall|j: int| 0 <= j < k ==> !#[trigger] exact(j)) ==> entry_for(names, path) == Some(k)
            &&& (forall|j: int| 0 <= j < names.len() ==> !#[trigger] exact(j)) && alike(k) && (forall|j: int|
                0 <= j < k ==> !#[trigger] alike(j)) ==> entry_for(names, path) == Some(k)
            &&& (forall|j: int| 0 <= j < names.len() ==> !#[trigger] exact(j)) && (forall|j: int|
                0 <= j < names.len() ==> !#[trigger] alike(j)) ==> entry_for(names, path) is None
        }),
{
    let name = normalized(path);
    let exact = |j: int| names[j] == Some(name);
    let alike = |j: int| names[j] matches Some(n) && ascii_lowercase(normalized(n)) == ascii_lowercase(name);
    lemma_first_exact(names, name, 0);
    lemma_first_alike(names, name, 0);
    match first_exact(names, name, 0) {
        Some(i) => {
            assert(exact(i));
            if exact(k) && (forall|j: int| 0 <= j < k ==> !#[trigger] exact(j)) {
                assert(i == k);
            }
        },
        None => {},
    }
    match first_alike(names, name, 0) {
        Some(i) => {
            assert(alike(i));
            if alike(k) && (forall|j: int| 0 <= j < k ==> !#[trigger] alike(j)) {
                assert(is_alike(names[k], name));
                assert(i == k);
            }
        },
        None => {
            assert(!is_alike(names[k], name));
        },
    }
}

proof fn lemma_first_exact(names: Seq<Option<Seq<char>>>, name: Seq<char>, from: int)
    requires
        0 <= from,
    ensures
        match first_exact(names, name, from) {
            Some(i) => from <= i < names.len() && names[i] == Some(name) && forall|j: int|
                from <= j < i ==> #[trigger] names[j] != Some(name),
            None => forall|j: int| from <= j < names.len() ==> #[trigger] names[j] != Some(name),
        },
    decreases names.len() - from,
{
    if from < names.len() {
        lemma_first_exact(names, name, from + 1);
    }
}

proof fn lemma_first_alike(names: Seq<Option<Seq<char>>>, name: Seq<char>, from: int)
    requires
        0 <= from,
    ensures
        match first_alike(names, name, from) {
            Some(i) => from <= i < names.len() && is_alike(names[i], name) && forall|j: int|
                from <= j < i ==> !is_alike(#[trigger] names[j], name),
            None => forall|j: int| from <= j < names.len() ==> !is_alike(#[trigger] names[j], name),
        },
    decreases names.len() - from,
{
    if from < names.len() {
        lemma_first_alike(names, name, from + 1);
    }
}

} // verus!
