//! Ordering texts, and putting things in order without disturbing equals.

use vstd::prelude::*;

use crate::text::{chars_of, same_text};

verus! {

/// `a` comes no later than `b`, character by character.
pub open spec fn text_le(a: Seq<char>, b: Seq<char>) -> bool
    decreases a.len(),
{
    if a.len() == 0 {
        true
    } else if b.len() == 0 {
        false
    } else if a[0] == b[0] {
        text_le(a.drop_first(), b.drop_first())
    } else {
        (a[0] as int) < (b[0] as int)
    }
}

/// Any two texts are in order one way or the other; both ways only if they are the same.
pub proof fn texts_are_totally_ordered(a: Seq<char>, b: Seq<char>)
    ensures
        text_le(a, b) || text_le(b, a),
        text_le(a, b) && text_le(b, a) ==> a == b,
    decreases a.len(),
{
    if a.len() > 0 && b.len() > 0 {
        texts_are_totally_ordered(a.drop_first(), b.drop_first());
        if a[0] == b[0] && text_le(a, b) && text_le(b, a) {
            assert(a =~= seq![a[0]] + a.drop_first());
            assert(b =~= seq![b[0]] + b.drop_first());
        }
    } else if a.len() == 0 && b.len() == 0 {
        assert(a =~= b);
    }
}

/// The order of texts is transitive.
pub proof fn text_order_is_transitive(a: Seq<char>, b: Seq<char>, c: Seq<char>)
    requires
        text_le(a, b),
        text_le(b, c),
    ensures
        text_le(a, c),
    decreases a.len(),
{
    if a.len() > 0 && b.len() > 0 && c.len() > 0 && a[0] == b[0] && b[0] == c[0] {
        text_order_is_transitive(a.drop_first(), b.drop_first(), c.drop_first());
    }
}

/// Whether `a` comes no later than `b`.
pub fn text_at_most(a: &str, b: &str) -> (r: bool)
    ensures
        r == text_le(a@, b@),
{
    let v = chars_of(a);
    let w = chars_of(b);
    let mut i: usize = 0;
    assert(v@.skip(0) =~= v@);
    assert(w@.skip(0) =~= w@);
    while i < v.len() && i < w.len() && v[i] == w[i]
        invariant
            i <= v@.len(),
            i <= w@.len(),
            text_le(v@, w@) == text_le(v@.skip(i as int), w@.skip(i as int)),
        decreases v@.len() - i,
    {
        assert(v@.skip(i as int).drop_first() =~= v@.skip(i + 1));
        assert(w@.skip(i as int).drop_first() =~= w@.skip(i + 1));
        i += 1;
    }
    if i >= v.len() {
        true
    } else if i >= w.len() {
        false
    } else {
        let x: char = v[i];
        let y: char = w[i];
        assert(v@.skip(i as int)[0] == x && w@.skip(i as int)[0] == y);
        char_below(x, y)
    }
}

fn char_below(x: char, y: char) -> (r: bool)
    ensures
        r == ((x as int) < (y as int)),
{
    (x as u32) < (y as u32)
}

/// What a thing is put in order by.
pub enum SortKey {
    Number(i64),
    /// Two numbers; the second counts where the first ones are the same.
    Numbers(i64, i64),
    Text(String),
    /// Three texts and two numbers; each counts where those before it are the same.
    Mixed(String, String, String, i64, i64),
}

/// The mathematical view of a [`SortKey`].
#[verifier::ext_equal]
pub enum KeyView {
    Number(int),
    Numbers(int, int),
    Text(Seq<char>),
    Mixed(Seq<char>, Seq<char>, Seq<char>, int, int),
}

impl View for SortKey {
    type V = KeyView;

    open spec fn view(&self) -> KeyView {
        match *self {
            SortKey::Number(n) => KeyView::Number(n as int),
            SortKey::Numbers(m, n) => KeyView::Numbers(m as int, n as int),
            SortKey::Text(t) => KeyView::Text(t@),
            SortKey::Mixed(t, u, v, m, n) => KeyView::Mixed(t@, u@, v@, m as int, n as int),
        }
    }
}

/// The views of keys.
pub open spec fn keys_view(keys: Seq<SortKey>) -> Seq<KeyView> {
    keys.map_values(|k: SortKey| k@)
}

/// Where keys of this form come among keys of other forms.
pub open spec fn key_rank(k: KeyView) -> int {
    match k {
        KeyView::Number(_) => 0,
        KeyView::Numbers(_, _) => 1,
        KeyView::Text(_) => 2,
        KeyView::Mixed(_, _, _, _, _) => 3,
    }
}

/// The first key comes no later than the second.
pub open spec fn key_le(a: KeyView, b: KeyView) -> bool {
    match (a, b) {
        (KeyView::Number(x), KeyView::Number(y)) => x <= y,
        (KeyView::Numbers(x, v), KeyView::Numbers(y, w)) => x < y || x == y && v <= w,
        (KeyView::Text(x), KeyView::Text(y)) => text_le(x, y),
        (KeyView::Mixed(t1, u1, v1, m1, n1), KeyView::Mixed(t2, u2, v2, m2, n2)) => if t1 != t2 {
            text_le(t1, t2)
        } else if u1 != u2 {
            text_le(u1, u2)
        } else if v1 != v2 {
            text_le(v1, v2)
        } else {
            m1 < m2 || m1 == m2 && n1 <= n2
        },
        _ => key_rank(a) < key_rank(b),
    }
}

/// The first key comes no later than the second, or no earlier where the order is reversed.
pub open spec fn in_order(a: KeyView, b: KeyView, descending: bool) -> bool {
    if descending {
        key_le(b, a)
    } else {
        key_le(a, b)
    }
}

proof fn lemma_in_order_total(a: KeyView, b: KeyView, descending: bool)
    ensures
        in_order(a, b, descending) || in_order(b, a, descending),
{
    match (a, b) {
        (KeyView::Text(x), KeyView::Text(y)) => texts_are_totally_ordered(x, y),
        (KeyView::Mixed(t1, u1, v1, _, _), KeyView::Mixed(t2, u2, v2, _, _)) => {
            texts_are_totally_ordered(t1, t2);
            texts_are_totally_ordered(u1, u2);
            texts_are_totally_ordered(v1, v2);
        },
        _ => {},
    }
}

proof fn lemma_distinct_texts_chain(a: Seq<char>, b: Seq<char>, c: Seq<char>)
    ensures
        text_le(a, b) && text_le(b, c) ==> text_le(a, c),
        text_le(a, b) && text_le(b, c) && a == c ==> a == b,
{
    texts_are_totally_ordered(a, b);
    if text_le(a, b) && text_le(b, c) {
        text_order_is_transitive(a, b, c);
    }
}

proof fn lemma_in_order_transitive(a: KeyView, b: KeyView, c: KeyView, descending: bool)
    requires
        in_order(a, b, descending),
        in_order(b, c, descending),
    ensures
        in_order(a, c, descending),
{
    match (a, b, c) {
        (KeyView::Text(x), KeyView::Text(y), KeyView::Text(z)) => {
            if descending {
                text_order_is_transitive(z, y, x);
            } else {
                text_order_is_transitive(x, y, z);
            }
        },
        (
            KeyView::Mixed(t1, u1, v1, _, _),
            KeyView::Mixed(t2, u2, v2, _, _),
            KeyView::Mixed(t3, u3, v3, _, _),
        ) => {
            if descending {
                lemma_distinct_texts_chain(t3, t2, t1);
                lemma_distinct_texts_chain(u3, u2, u1);
                lemma_distinct_texts_chain(v3, v2, v1);
            } else {
                lemma_distinct_texts_chain(t1, t2, t3);
                lemma_distinct_texts_chain(u1, u2, u3);
                lemma_distinct_texts_chain(v1, v2, v3);
            }
        },
        _ => {},
    }
}

fn keys_in_order(a: &SortKey, b: &SortKey, descending: bool) -> (r: bool)
    ensures
        r == in_order(a@, b@, descending),
{
    let (first, second) = if descending { (b, a) } else { (a, b) };
    match (first, second) {
        (SortKey::Number(x), SortKey::Number(y)) => *x <= *y,
        (SortKey::Numbers(x, v), SortKey::Numbers(y, w)) => *x < *y || *x == *y && *v <= *w,
        (SortKey::Text(x), SortKey::Text(y)) => text_at_most(x.as_str(), y.as_str()),
        (SortKey::Mixed(t1, u1, v1, m1, n1), SortKey::Mixed(t2, u2, v2, m2, n2)) => {
            if !same_text(t1.as_str(), t2.as_str()) {
                text_at_most(t1.as_str(), t2.as_str())
            } else if !same_text(u1.as_str(), u2.as_str()) {
                text_at_most(u1.as_str(), u2.as_str())
            } else if !same_text(v1.as_str(), v2.as_str()) {
                text_at_most(v1.as_str(), v2.as_str())
            } else {
                *m1 < *m2 || *m1 == *m2 && *n1 <= *n2
            }
        },
        (SortKey::Number(_), _) => true,
        (SortKey::Numbers(_, _), SortKey::Text(_)) => true,
        (SortKey::Numbers(_, _), SortKey::Mixed(_, _, _, _, _)) => true,
        (SortKey::Text(_), SortKey::Mixed(_, _, _, _, _)) => true,
        _ => false,
    }
}

/// Place `i` belongs before place `j`: its key comes first, or the keys are level and it does.
pub open spec fn belongs_before(keys: Seq<KeyView>, i: usize, j: usize, descending: bool) -> bool {
    &&& in_order(keys[i as int], keys[j as int], descending)
    &&& in_order(keys[j as int], keys[i as int], descending) ==> i < j
}

/// `order` lists each of the first `n` places once, in the order of their keys; places with level
/// keys stay in their order.
pub open spec fn is_stable_order(
    order: Seq<usize>,
    keys: Seq<KeyView>,
    n: int,
    descending: bool,
) -> bool {
    &&& order.len() == n
    &&& forall|i: int| 0 <= i < order.len() ==> 0 <= #[trigger] order[i] < n
    &&& forall|q: usize| 0 <= q < n ==> #[trigger] order.contains(q)
    &&& forall|i: int, j: int|
        0 <= i < j < order.len() ==> belongs_before(
            keys,
            #[trigger] order[i],
            #[trigger] order[j],
            descending,
        )
}

/// A stable order names no place twice.
pub proof fn stable_orders_have_no_duplicates(
    order: Seq<usize>,
    keys: Seq<KeyView>,
    n: int,
    descending: bool,
)
    requires
        is_stable_order(order, keys, n, descending),
    ensures
        order.no_duplicates(),
{
    assert forall|i: int, j: int| 0 <= i < order.len() && 0 <= j < order.len() && i != j implies
        order[i] != order[j] by {
        if i < j {
            assert(belongs_before(keys, order[i], order[j], descending));
        } else {
            assert(belongs_before(keys, order[j], order[i], descending));
        }
    }
}

proof fn lemma_orders_agree(
    a: Seq<usize>,
    b: Seq<usize>,
    keys: Seq<KeyView>,
    n: int,
    descending: bool,
    k: int,
)
    requires
        is_stable_order(a, keys, n, descending),
        is_stable_order(b, keys, n, descending),
        0 <= k <= n,
    ensures
        a.take(k) == b.take(k),
    decreases k,
{
    if k > 0 {
        lemma_orders_agree(a, b, keys, n, descending, k - 1);
        stable_orders_have_no_duplicates(a, keys, n, descending);
        stable_orders_have_no_duplicates(b, keys, n, descending);
        let i = k - 1;
        let x = a[i];
        let y = b[i];
        assert forall|m: int| 0 <= m < i implies a[m] == b[m] by {
            assert(a.take(i)[m] == b.take(i)[m]);
        }
        if x != y {
            assert(b.contains(x));
            assert(a.contains(y));
            let j = b.index_of(x);
            let m = a.index_of(y);
            assert(j > i) by {
                if j < i {
                    assert(a[j] == x);
                }
            }
            assert(m > i) by {
                if m < i {
                    assert(b[m] == y);
                }
            }
            assert(belongs_before(keys, b[i], b[j], descending));
            assert(belongs_before(keys, a[i], a[m], descending));
        }
    }
    assert(a.take(k) =~= b.take(k));
}

/// There is only one stable order of given keys.
pub proof fn stable_orders_are_unique(
    a: Seq<usize>,
    b: Seq<usize>,
    keys: Seq<KeyView>,
    n: int,
    descending: bool,
)
    requires
        is_stable_order(a, keys, n, descending),
        is_stable_order(b, keys, n, descending),
    ensures
        a == b,
{
    lemma_orders_agree(a, b, keys, n, descending, n);
    assert(a.take(n) =~= a);
    assert(b.take(n) =~= b);
}

/// A place that comes behind those of keys no later than its own, and before the others, leaves
/// them in order.
proof fn lemma_insertion(
    before: Seq<usize>,
    keys: Seq<KeyView>,
    k: usize,
    pos: int,
    descending: bool,
)
    requires
        is_stable_order(before, keys, k as int, descending),
        0 <= pos <= before.len(),
        pos > 0 ==> in_order(keys[before[pos - 1] as int], keys[k as int], descending),
        forall|j: int|
            pos <= j < before.len() ==> !in_order(
                keys[#[trigger] before[j] as int],
                keys[k as int],
                descending,
            ),
    ensures
        is_stable_order(before.insert(pos, k), keys, k + 1, descending),
{
    let after = before.insert(pos, k);
    assert forall|i: int, j: int| 0 <= i < j < after.len() implies belongs_before(
        keys,
        #[trigger] after[i],
        #[trigger] after[j],
        descending,
    ) by {
        if i < pos && j == pos {
            assert(after[i] == before[i]);
            assert(in_order(keys[before[pos - 1] as int], keys[k as int], descending));
            if i < pos - 1 {
                assert(belongs_before(keys, before[i], before[pos - 1], descending));
                lemma_in_order_transitive(
                    keys[before[i] as int],
                    keys[before[pos - 1] as int],
                    keys[k as int],
                    descending,
                );
            }
        } else if i == pos && j > pos {
            assert(after[j] == before[j - 1]);
            lemma_in_order_total(keys[before[j - 1] as int], keys[k as int], descending);
        } else {
            let a = if i < pos { i } else { i - 1 };
            let b = if j < pos { j } else { j - 1 };
            assert(after[i] == before[a]);
            assert(after[j] == before[b]);
            assert(belongs_before(keys, before[a], before[b], descending));
        }
    }
    assert forall|q: usize| 0 <= q < k + 1 implies #[trigger] after.contains(q) by {
        if q == k {
            assert(after[pos] == q);
        } else {
            assert(before.contains(q));
            let i = choose|i: int| 0 <= i < before.len() && before[i] == q;
            assert(after[if i < pos { i } else { i + 1 }] == q);
        }
    }
}

/// Where the place `k` goes among the first `pos` places of an order: behind the last of them
/// whose key comes no later.
spec fn place_for(
    order: Seq<usize>,
    keys: Seq<KeyView>,
    k: usize,
    pos: int,
    descending: bool,
) -> int
    decreases pos,
{
    if pos <= 0 || in_order(keys[order[pos - 1] as int], keys[k as int], descending) {
        pos
    } else {
        place_for(order, keys, k, pos - 1, descending)
    }
}

proof fn lemma_place_for(
    order: Seq<usize>,
    keys: Seq<KeyView>,
    k: usize,
    pos: int,
    descending: bool,
)
    requires
        0 <= pos <= order.len(),
    ensures
        ({
            let at = place_for(order, keys, k, pos, descending);
            &&& 0 <= at <= pos
            &&& at > 0 ==> in_order(keys[order[at - 1] as int], keys[k as int], descending)
            &&& forall|j: int|
                at <= j < pos ==> !in_order(
                    keys[#[trigger] order[j] as int],
                    keys[k as int],
                    descending,
                )
        }),
    decreases pos,
{
    if pos > 0 && !in_order(keys[order[pos - 1] as int], keys[k as int], descending) {
        lemma_place_for(order, keys, k, pos - 1, descending);
    }
}

proof fn lemma_some_order(keys: Seq<KeyView>, n: nat, descending: bool) -> (order: Seq<usize>)
    requires
        n <= keys.len(),
        n <= usize::MAX,
    ensures
        is_stable_order(order, keys, n as int, descending),
    decreases n,
{
    if n == 0 {
        Seq::empty()
    } else {
        let k = (n - 1) as usize;
        let before = lemma_some_order(keys, (n - 1) as nat, descending);
        let len = before.len() as int;
        lemma_place_for(before, keys, k, len, descending);
        let pos = place_for(before, keys, k, len, descending);
        lemma_insertion(before, keys, k, pos, descending);
        before.insert(pos, k)
    }
}

/// Keys have a stable order.
pub proof fn stable_orders_exist(keys: Seq<KeyView>, descending: bool)
    requires
        keys.len() <= usize::MAX,
    ensures
        is_stable_order(order_of(keys, descending), keys, keys.len() as int, descending),
{
    let order = lemma_some_order(keys, keys.len(), descending);
}

/// The places of keys in the order of the keys.
pub open spec fn order_of(keys: Seq<KeyView>, descending: bool) -> Seq<usize> {
    choose|order: Seq<usize>| is_stable_order(order, keys, keys.len() as int, descending)
}

/// The places of `keys` in the order of the keys; places with level keys stay in their order.
pub fn stable_order(keys: &Vec<SortKey>, descending: bool) -> (r: Vec<usize>)
    ensures
        is_stable_order(r@, keys_view(keys@), keys@.len() as int, descending),
        r@ == order_of(keys_view(keys@), descending),
{
    let ghost views = keys_view(keys@);
    let mut out: Vec<usize> = Vec::new();
    let mut k: usize = 0;
    while k < keys.len()
        invariant
            k <= keys@.len(),
            views == keys_view(keys@),
            is_stable_order(out@, views, k as int, descending),
        decreases keys@.len() - k,
    {
        let ghost before = out@;
        let mut pos: usize = out.len();
        while pos > 0 && !keys_in_order(&keys[out[pos - 1]], &keys[k], descending)
            invariant
                pos <= out@.len(),
                k < keys@.len(),
                views == keys_view(keys@),
                out@ == before,
                is_stable_order(out@, views, k as int, descending),
                forall|j: int|
                    pos <= j < out@.len() ==> !in_order(
                        views[#[trigger] out@[j] as int],
                        views[k as int],
                        descending,
                    ),
            decreases pos,
        {
            pos -= 1;
        }
        out.insert(pos, k);
        proof {
            lemma_insertion(before, views, k, pos as int, descending);
        }
        k += 1;
    }
    proof {
        stable_orders_are_unique(out@, order_of(views, descending), views, keys@.len() as int, descending);
    }
    out
}

} // verus!
