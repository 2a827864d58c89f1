//! Numbers are rounded to the nearest, and pictures keep their proportions.

use vstd::arithmetic::power2::{lemma_pow2_pos, pow2};
use vstd::prelude::*;

use crate::appearance::{
    leading_scale, pixels, range_of, scaled_side, side_scale, stepped, Measure, ONE,
};
use crate::document::image_fit;
use crate::double::{
    divided, excess, half_even, lack, lemma_divided, lemma_excess, lemma_lack, lemma_shortened,
    of_bits, product, quotient, rounded, shortened, DoubleView, LEAST, LIMIT,
};
use crate::node_index::fraction_bits;
use crate::settings::{SettingsView, DEFAULT_LEADING};

verus! {

/// Halves are rounded to the even neighbour, and all else to the nearest.
pub proof fn halves_are_rounded_to_even(n: nat, d: nat)
    requires
        d > 0,
    ensures
        -(d as int) <= 2 * (half_even(n, d) * d - n) <= d,
        2 * (half_even(n, d) * d - n) == d || 2 * (half_even(n, d) * d - n) == -(d as int) ==> half_even(n, d) % 2 == 0,
{
    let q = n / d;
    let r = n % d;
    vstd::arithmetic::div_mod::lemma_fundamental_div_mod(n as int, d as int);
    assert(n == d * q + r);
    assert(r < d);
    assert(q * d == d * q) by (nonlinear_arith);
    assert((q + 1) * d == d * q + d) by (nonlinear_arith);
}

/// A number that is shortened keeps as many binary digits as double precision has, and is off by no
/// more than half of the last of them.
pub proof fn shortened_numbers_are_nearest(n: nat, e: int)
    ensures
        ({
            let r = shortened(n, e);
            let step = pow2((r.e - e) as nat) as int;
            &&& r.e >= e
            &&& n < LIMIT ==> r == (DoubleView { m: n, e })
            &&& n >= LIMIT ==> LEAST <= r.m <= LIMIT
            &&& -step <= 2 * (r.m * step - n) <= step
        }),
{
    lemma_excess(n);
    lemma_shortened(n, e);
    let k = excess(n);
    lemma_pow2_pos(k);
    halves_are_rounded_to_even(n, pow2(k));
    if n < LIMIT {
        vstd::arithmetic::power2::lemma2_to64();
        assert(k == 0);
        assert(pow2(0) == 1);
        assert(n / 1 == n && n % 1 == 0);
    } else {
        let d = pow2(k);
        assert(k > 0);
        assert(n >= LEAST * d);
        crate::double::rounding_keeps_bounds(n, d, LEAST as nat, LIMIT as nat);
    }
}

/// A quotient keeps as many binary digits as double precision has, and is off by no more than half
/// of the last of them.
pub proof fn quotients_are_nearest(n: nat, d: nat, e: int)
    requires
        0 < n < LIMIT * d,
        d > 0,
    ensures
        ({
            let r = divided(n, d, e);
            let scale = pow2((e - r.e) as nat) as int;
            &&& r.e <= e
            &&& LEAST <= r.m <= LIMIT
            &&& -(d as int) <= 2 * (r.m * d - n * scale) <= d
        }),
{
    lemma_divided(n, d, e);
    let k = lack(n, d);
    halves_are_rounded_to_even(n * pow2(k), d);
}

/// A number is its whole part and its fraction, and the nearest whole number is off by no more than
/// a half.
pub proof fn numbers_are_whole_and_part(d: DoubleView)
    requires
        d.e < 0,
    ensures
        ({
            let unit = pow2((-d.e) as nat) as int;
            &&& d.m == d.whole() * unit + d.part()
            &&& 0 <= d.part() < unit
            &&& -unit <= 2 * (d.nearest() * unit - d.m) <= unit
        }),
{
    let k = (-d.e) as nat;
    let unit = pow2(k) as int;
    let half = pow2((k - 1) as nat) as int;
    lemma_pow2_pos(k);
    vstd::arithmetic::power2::lemma_pow2_unfold(k);
    assert(unit == 2 * half);
    vstd::arithmetic::div_mod::lemma_fundamental_div_mod(d.m as int, unit);
    assert(d.whole() * unit == unit * d.whole()) by (nonlinear_arith);
    vstd::arithmetic::div_mod::lemma_fundamental_div_mod(d.m + half, unit);
    let n = (d.m + half) / unit;
    assert(n * unit == unit * n) by (nonlinear_arith);
}

/// A number divided by itself is one, and one times a number is the number.
pub proof fn one_changes_nothing(d: DoubleView)
    requires
        LEAST <= d.m < LIMIT,
    ensures
        quotient(d, d) == (DoubleView { m: LEAST as nat, e: -52 }),
        product(d, quotient(d, d)) == d,
{
    vstd::arithmetic::power2::lemma2_to64();
    vstd::arithmetic::power2::lemma2_to64_rest();
    assert(0 < d.m < LIMIT * d.m) by (nonlinear_arith)
        requires
            d.m >= 1,
            LIMIT == 0x20000000000000,
    ;
    lemma_lack(d.m, d.m);
    let k = lack(d.m, d.m);
    assert(pow2(52) == LEAST);
    assert(pow2(53) == LIMIT);
    assert(pow2(52) <= pow2(k) < pow2(53)) by (nonlinear_arith)
        requires
            LEAST * d.m <= d.m * pow2(k) < LIMIT * d.m,
            pow2(52) == LEAST,
            pow2(53) == LIMIT,
            d.m > 0,
    ;
    if k < 52 {
        vstd::arithmetic::power2::lemma_pow2_strictly_increases(k, 52);
    }
    if k > 52 {
        if k > 53 {
            vstd::arithmetic::power2::lemma_pow2_strictly_increases(53, k);
        }
    }
    assert(k == 52);
    let n = d.m * pow2(52);
    assert(n / d.m == pow2(52) && n % d.m == 0) by (nonlinear_arith)
        requires
            n == d.m * pow2(52),
            d.m > 0,
    ;
    let one = quotient(d, d);
    assert(one.m == LEAST && one.e == -52);
    let whole = d.m * one.m;
    assert(whole == n);
    assert(whole >= LIMIT) by (nonlinear_arith)
        requires
            whole == d.m * LEAST,
            d.m >= LEAST,
            LEAST == 0x10000000000000,
            LIMIT == 0x20000000000000,
    ;
    lemma_excess(whole);
    let x = excess(whole);
    assert(x > 0);
    lemma_pow2_pos(x);
    assert(x == 52) by {
        if x > 52 {
            vstd::arithmetic::power2::lemma_pow2_strictly_increases(52, x);
            vstd::arithmetic::power2::lemma_pow2_unfold(53);
            if x > 53 {
                vstd::arithmetic::power2::lemma_pow2_strictly_increases(53, x);
            }
            assert(pow2(x) >= LIMIT);
            assert(false) by (nonlinear_arith)
                requires
                    d.m * LEAST >= LEAST * pow2(x),
                    pow2(x) >= LIMIT,
                    d.m < LIMIT,
                    LEAST > 0,
            ;
        }
        if x < 52 {
            vstd::arithmetic::power2::lemma_pow2_strictly_increases(x, 52);
            vstd::arithmetic::power2::lemma_pow2_unfold(52);
            if x < 51 {
                vstd::arithmetic::power2::lemma_pow2_strictly_increases(x, 51);
            }
            assert(2 * pow2(x) <= LEAST);
            assert(false) by (nonlinear_arith)
                requires
                    d.m * LEAST < LIMIT * pow2(x),
                    2 * pow2(x) <= LEAST,
                    d.m >= LEAST,
                    LIMIT == 2 * LEAST,
                    LEAST > 0,
            ;
        }
    }
    assert(whole / pow2(52) == d.m && whole % pow2(52) == 0) by (nonlinear_arith)
        requires
            whole == d.m * pow2(52),
            pow2(52) > 0,
    ;
    assert(rounded(whole, d.e + one.e) == shortened(whole, d.e - 52));
}

/// A number is read back from its bits.
pub proof fn bits_are_read_back(d: DoubleView)
    requires
        LEAST <= d.m < LIMIT,
        d.e >= -1074,
    ensures
        of_bits(d.bits()) == d,
{
    let l = LEAST as int;
    let rest = d.m - l;
    let b = d.bits();
    assert((d.e + 1074) * l + d.m == (d.e + 1075) * l + rest) by (nonlinear_arith)
        requires
            rest == d.m - l,
    ;
    vstd::arithmetic::div_mod::lemma_fundamental_div_mod_converse(b, l, d.e + 1075, rest);
}

/// A step adds the measure's step to its value, or takes it away, rounded to the nearest, and never
/// leaves the measure's range.
pub proof fn steps_add_the_step(current: i64, measure: Measure, up: bool)
    requires
        range_of(measure).1 <= current <= range_of(measure).2,
    ensures
        ({
            let (step, lo, hi) = range_of(measure);
            let c = of_bits(current as int);
            let s = of_bits(step as int);
            let scale = pow2((c.e - s.e) as nat);
            let exact = if up {
                (c.m * scale + s.m) as int
            } else {
                c.m * scale - s.m
            };
            let bits = rounded(exact as nat, s.e).bits();
            c.e > s.e ==> stepped(current, step, lo, hi, up) == (if bits < lo {
                lo as int
            } else if bits > hi {
                hi as int
            } else {
                bits
            })
        }),
        range_of(Measure::Size) == (0x3ff0000000000000i64, 0x402c000000000000i64, 0x4038000000000000i64),
        range_of(Measure::Leading) == (0x3fa999999999999ai64, 0x3ff4cccccccccccdi64, 0x400199999999999ai64),
        range_of(Measure::VerseSpacing) == (0x3fd0000000000000i64, 0x3fe0000000000000i64, 0x4018000000000000i64),
{
}

/// An integer of a few digits is kept as it is.
pub proof fn small_integers_are_kept(n: nat)
    requires
        0 < n <= 0x7fffffff,
    ensures
        ({
            let d = rounded(n, 0);
            &&& LEAST <= d.m < LIMIT
            &&& d.e < 0
            &&& d.m == n * pow2((-d.e) as nat)
            &&& d.nearest() == n
        }),
{
    let k = lack(n, 1);
    assert(0 < n < LIMIT * 1);
    lemma_lack(n, 1);
    let p = pow2(k);
    lemma_pow2_pos(k);
    let m = n * p;
    assert(m / 1 == m && m % 1 == 0);
    let d = rounded(n, 0);
    assert(d == divided(n, 1, 0));
    assert(d.m == m && d.e == -(k as int));
    if k == 0 {
        vstd::arithmetic::power2::lemma2_to64();
        assert(m == n * 1);
        assert(false);
    }
    vstd::arithmetic::power2::lemma_pow2_unfold(k);
    let half = pow2((k - 1) as nat);
    assert(p == 2 * half);
    lemma_pow2_pos((k - 1) as nat);
    assert((m + half) / p == n) by (nonlinear_arith)
        requires
            m == n * p,
            p == 2 * half,
            half > 0,
    ;
}

proof fn lemma_times_one(d: DoubleView)
    requires
        LEAST <= d.m < LIMIT,
    ensures
        product(d, (DoubleView { m: LEAST as nat, e: -52 })) == d,
{
    one_changes_nothing(d);
}

/// At the scale of one a picture keeps its size, and at the default leading every distance.
pub proof fn the_scale_of_one_changes_nothing(side: int, s: SettingsView, d: DoubleView)
    requires
        0 < side <= i32::MAX,
        LEAST <= d.m < LIMIT,
    ensures
        scaled_side(side, ONE) == side,
        s.reading_leading is None || s.reading_leading == Some(DEFAULT_LEADING) ==> pixels(d, leading_scale(s))
            == d.nearest(),
{
    small_integers_are_kept(side as nat);
    let n = rounded(side as nat, 0);
    lemma_times_one(n);
    assert(of_bits(ONE as int) == (DoubleView { m: LEAST as nat, e: -52 }));
    if s.reading_leading is None || s.reading_leading == Some(DEFAULT_LEADING) {
        let l = of_bits(DEFAULT_LEADING as int);
        assert(LEAST <= l.m < LIMIT);
        one_changes_nothing(l);
        lemma_times_one(d);
    }
}

/// A leading outside of its range counts as the end of the range that it is beyond.
pub proof fn leadings_stay_in_their_range(s: SettingsView, v: i64)
    requires
        s.reading_leading == Some(v),
    ensures
        v <= 0x3ff4cccccccccccd ==> leading_scale(s) == quotient(
            of_bits(0x3ff4cccccccccccd),
            of_bits(DEFAULT_LEADING as int),
        ),
        v >= 0x400199999999999a ==> leading_scale(s) == quotient(
            of_bits(0x400199999999999a),
            of_bits(DEFAULT_LEADING as int),
        ),
        0x3ff4cccccccccccd <= v <= 0x400199999999999a ==> leading_scale(s) == quotient(
            of_bits(v as int),
            of_bits(DEFAULT_LEADING as int),
        ),
{
}

/// A picture that fits is shown in its own size. One that does not is made smaller in its own
/// proportions, up to the pixel that is cut off, and fills the height or the width there is.
pub proof fn pictures_keep_their_proportions(usable: int, width: int, height: int)
    requires
        usable > 0,
        width > 0,
        height > 0,
    ensures
        ({
            let (w, h) = image_fit(usable, width, height);
            &&& w <= usable && h <= 340
            &&& width <= usable && height <= 340 ==> (w, h) == (width, height)
            &&& w == usable || h == height || h == 340
            &&& w != usable ==> w * height <= width * h < (w + 1) * height
            &&& w == usable && h != height && h != 340 ==> h * width <= height * w < (h + 1) * width
        }),
{
    let cap = if height > 340 { 340int } else { height };
    let w = width * cap / height;
    vstd::arithmetic::div_mod::lemma_fundamental_div_mod(width * cap, height);
    let r = (width * cap) % height;
    assert(width * cap == height * w + r);
    assert(0 <= r < height);
    assert(w * height == height * w) by (nonlinear_arith);
    assert((w + 1) * height == height * w + height) by (nonlinear_arith);
    if cap == height {
        assert(w == width) by (nonlinear_arith)
            requires
                width * cap == height * w + r,
                0 <= r < height,
                cap == height,
        ;
    }
    if w > usable {
        let h = height * usable / width;
        vstd::arithmetic::div_mod::lemma_fundamental_div_mod(height * usable, width);
        let q = (height * usable) % width;
        assert(height * usable == width * h + q);
        assert(0 <= q < width);
        assert(h * width == width * h) by (nonlinear_arith);
        assert((h + 1) * width == width * h + width) by (nonlinear_arith);
        assert(h <= cap) by (nonlinear_arith)
            requires
                height * usable == width * h + q,
                0 <= q,
                w > usable,
                width * cap == height * w + r,
                0 <= r,
                width > 0,
                height > 0,
        ;
    }
}

/// How far a place is through a book: nothing at the beginning, the whole at the end and behind it,
/// and no more than the whole between.
pub proof fn places_are_within_the_book(offset: nat, total: nat)
    ensures
        total == 0 ==> fraction_bits(offset, total) == 0,
        total > 0 && offset >= total ==> fraction_bits(offset, total) == 0x3ff0000000000000,
        offset == 0 ==> fraction_bits(offset, total) == 0,
{
    if total > 0 && offset == 0 {
        lemma_excess(0);
        vstd::arithmetic::power2::lemma2_to64();
        assert(excess(0) == 0);
        let a = shortened(0, 0);
        assert(half_even(0, 1) == 0);
        assert(a.m == 0);
        let b = shortened(total, 0);
        lemma_shortened(total, 0);
        assert(lack(0, b.m) == 0);
        assert(0 * pow2(0) == 0);
        assert(half_even(0, b.m) == 0);
    }
}

/// The number, with all its binary digits, is the nearest to a fraction.
pub open spec fn is_nearest_to(r: DoubleView, n: int, d: int) -> bool {
    &&& LEAST <= r.m <= LIMIT
    &&& r.e <= 0
    &&& -d <= 2 * (r.m * d - n * pow2((-r.e) as nat)) <= d
}

/// A place inside a book is as far through it as its offset is through the whole, to the nearest
/// number of double precision.
pub proof fn places_are_told_to_the_nearest(offset: nat, total: nat)
    requires
        0 < offset < total < LIMIT,
    ensures
        exists|r: DoubleView| #[trigger] is_nearest_to(r, offset as int, total as int) && fraction_bits(offset, total)
            == r.bits(),
{
    shortened_numbers_are_nearest(offset, 0);
    shortened_numbers_are_nearest(total, 0);
    assert(0 < offset < LIMIT * total) by (nonlinear_arith)
        requires
            0 < offset < LIMIT,
            total >= 1,
    ;
    quotients_are_nearest(offset, total, 0);
    let r = divided(offset, total, 0);
    assert(is_nearest_to(r, offset as int, total as int));
}

/// A picture is fitted by the ratio of the space to its side, to the nearest number of double
/// precision.
pub proof fn pictures_are_fitted_to_the_nearest(length: i64, side: int)
    requires
        0 < side <= i32::MAX,
    ensures
        ({
            let space = of_bits(length as int);
            let own = rounded(side as nat, 0);
            let r = quotient(space, own);
            let scale = pow2((space.e - own.e - r.e) as nat) as int;
            &&& side_scale(length, side) == r.bits()
            &&& LEAST <= r.m <= LIMIT
            &&& -(own.m as int) <= 2 * (r.m * own.m - space.m * scale) <= own.m
            &&& own.m == side * pow2((-own.e) as nat)
        }),
{
    small_integers_are_kept(side as nat);
    let space = of_bits(length as int);
    let own = rounded(side as nat, 0);
    assert(0 < space.m < LIMIT * own.m) by (nonlinear_arith)
        requires
            0 < space.m < LIMIT,
            own.m >= 1,
    ;
    quotients_are_nearest(space.m, own.m, space.e - own.e);
}

} // verus!
