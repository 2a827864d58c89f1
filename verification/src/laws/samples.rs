//! Samples are taken where their time lies, between their neighbours.

use vstd::arithmetic::power2::{lemma_pow2_adds, lemma_pow2_pos, pow2};
use vstd::prelude::*;

use super::numbers::{
    halves_are_rounded_to_even, quotients_are_nearest, shortened_numbers_are_nearest,
};
use crate::double::{divided, excess, shortened, DoubleView, LEAST, LIMIT};
use crate::recording::{
    interpolated, lemma_step, lemma_value, magnitude, resampled_at, sample, source_place,
};

verus! {

proof fn lemma_scaled(
    s0: int,
    s1: int,
    f: int,
    m: int,
    t: int,
    p: int,
    q: int,
    scaled: int,
)
    requires
        q == p * t,
        t > 0,
        p > 0,
        s1 >= s0 ==> scaled == s0 * p + m && -t <= 2 * (m * t - (s1 - s0) * f) <= t,
        s1 < s0 ==> scaled == s0 * p - m && -t <= 2 * (m * t - (s0 - s1) * f) <= t,
    ensures
        -t <= 2 * (scaled * t - (s0 * q + (s1 - s0) * f)) <= t,
{
    assert(s0 * q == s0 * p * t) by (nonlinear_arith)
        requires
            q == p * t,
    ;
    if s1 >= s0 {
        assert(scaled * t == s0 * p * t + m * t) by (nonlinear_arith)
            requires
                scaled == s0 * p + m,
        ;
    } else {
        assert(scaled * t == s0 * p * t - m * t) by (nonlinear_arith)
            requires
                scaled == s0 * p - m,
        ;
        assert((s1 - s0) * f == -((s0 - s1) * f)) by (nonlinear_arith);
    }
}

/// Shortening a number of `n` units of `2^-c` and cutting off its fraction moves it by no more than
/// one and a half.
proof fn lemma_cut(n: nat, c: nat)
    requires
        n <= 32768 * pow2(c),
        c <= 106,
    ensures
        -3 * pow2(c) <= 2 * (shortened(n, -c).whole() * pow2(c) - n) <= 3 * pow2(c),
{
    lemma_value(n, c, 0, 32768);
    let r = shortened(n, -(c as int));
    let k = excess(n);
    assert(r.e == -(c as int) + k);
    let b = (c - k) as nat;
    lemma_pow2_adds(b, k);
    lemma_pow2_pos(b);
    lemma_pow2_pos(k);
    lemma_pow2_pos(c);
    let u = pow2(k) as int;
    let w = pow2(b) as int;
    let p = pow2(c) as int;
    halves_are_rounded_to_even(n, pow2(k));
    let m = r.m as int;
    let v = r.whole() as int;
    assert(v * w <= m < (v + 1) * w) by {
        if b == 0 {
            vstd::arithmetic::power2::lemma2_to64();
            assert(w == 1);
            assert(v == m * pow2(0));
            assert(v == m);
        } else {
            assert(v == m / w);
            vstd::arithmetic::div_mod::lemma_fundamental_div_mod(m, w);
            assert(v * w == w * v) by (nonlinear_arith);
            assert((v + 1) * w == w * v + w) by (nonlinear_arith);
        }
    }
    assert(v * p <= m * u && m * u < (v + 1) * p) by (nonlinear_arith)
        requires
            v * w <= m < (v + 1) * w,
            p == w * u,
            u > 0,
    ;
    assert((v + 1) * p == v * p + p) by (nonlinear_arith);
    assert(u <= p) by (nonlinear_arith)
        requires
            p == w * u,
            w >= 1,
            u > 0,
    ;
}

/// Between two samples the value lies on the line from one to the other, off by no more than two for
/// what is rounded and cut off.
pub proof fn values_lie_on_the_line(s0: int, s1: int, place: DoubleView)
    requires
        -32768 <= s0 <= 32767,
        -32768 <= s1 <= 32767,
        -106 <= place.e < 0,
    ensures
        ({
            let q = pow2((-place.e) as nat) as int;
            let line = s0 * q + (s1 - s0) * place.part();
            -2 * q <= interpolated(s0, s1, place) * q - line <= 2 * q
        }),
{
    let a = (-place.e) as nat;
    let q = pow2(a) as int;
    let f = place.part();
    lemma_pow2_pos(a);
    if f > 0 {
        let way = magnitude(s1 - s0);
        let n = way * f;
        let step = shortened(n, place.e);
        let k = excess(n);
        lemma_step(way, place);
        lemma_pow2_pos(k);
        halves_are_rounded_to_even(n, pow2(k));
        let c = (-step.e) as nat;
        assert(c == a - k);
        lemma_pow2_adds(c, k);
        lemma_pow2_pos(c);
        let p = pow2(c) as int;
        let t = pow2(k) as int;
        let m = step.m as int;
        let scaled = if s1 < s0 {
            s0 * p - m
        } else {
            s0 * p + m
        };
        assert(q == p * t);
        lemma_scaled(s0, s1, f as int, m, t, p, q, scaled);
        let size = magnitude(scaled);
        assert(m <= way * p);
        assert(size <= 32768 * p) by (nonlinear_arith)
            requires
                0 <= m <= way * p,
                p > 0,
                -32768 <= s0 <= 32767,
                -32768 <= s1 <= 32767,
                s1 < s0 ==> scaled == s0 * p - m && way == s0 - s1,
                s1 >= s0 ==> scaled == s0 * p + m && way == s1 - s0,
                size == scaled || size == -scaled,
        ;
        lemma_cut(size, c);
        assert(step.e == -(c as int));
        let value = shortened(size, step.e).whole() as int;
        let r = interpolated(s0, s1, place);
        assert(r == if scaled < 0 { -value } else { value });
        assert(r * p == if scaled < 0 { -(value * p) } else { value * p }) by (nonlinear_arith)
            requires
                r == if scaled < 0 { -value } else { value },
        ;
        assert(-3 * p <= 2 * (r * p - scaled) <= 3 * p);
        assert(r * q == r * p * t) by (nonlinear_arith)
            requires
                q == p * t,
        ;
        assert(-3 * q <= 2 * (r * q - scaled * t) <= 3 * q) by (nonlinear_arith)
            requires
                -3 * p <= 2 * (r * p - scaled) <= 3 * p,
                r * q == r * p * t,
                q == p * t,
                t > 0,
        ;
        assert(t <= q) by (nonlinear_arith)
            requires
                q == p * t,
                p >= 1,
                t > 0,
        ;
    } else {
        assert((s1 - s0) * 0 == 0);
    }
}

/// Sample `i` at the new rate is taken at its time: `i` divided by the ratio of the rates, each
/// rounded to the nearest, with the two samples around it.
pub proof fn samples_are_taken_at_their_time(input: Seq<i16>, from_rate: u32, to_rate: u32, i: nat)
    requires
        from_rate > 0,
        to_rate > 0,
        0 < i < LIMIT,
    ensures
        ({
            let ratio = divided(to_rate as nat, from_rate as nat, 0);
            let place = source_place(from_rate as nat, to_rate as nat, i);
            let unit = pow2((-ratio.e) as nat) as int;
            let scale = pow2((-ratio.e - place.e) as nat) as int;
            &&& ratio.e <= 0
            &&& -(from_rate as int) <= 2 * (ratio.m * from_rate - to_rate * unit) <= from_rate
            &&& -(ratio.m as int) <= 2 * (place.m * ratio.m - i * scale) <= ratio.m
            &&& LEAST <= place.m <= LIMIT
            &&& resampled_at(input, from_rate as nat, to_rate as nat, i) == interpolated(
                sample(input, place.whole()),
                sample(input, place.whole() + 1),
                place,
            )
        }),
{
    let ratio = divided(to_rate as nat, from_rate as nat, 0);
    assert(0 < to_rate < LIMIT * from_rate) by (nonlinear_arith)
        requires
            0 < to_rate <= u32::MAX,
            from_rate >= 1,
            LIMIT == 0x20000000000000,
    ;
    quotients_are_nearest(to_rate as nat, from_rate as nat, 0);
    shortened_numbers_are_nearest(i, 0);
    assert(0 < i < LIMIT * ratio.m) by (nonlinear_arith)
        requires
            0 < i < LIMIT,
            ratio.m >= 1,
    ;
    quotients_are_nearest(i, ratio.m, -ratio.e);
}

/// Behind the last sample the last is taken, and before that each is its own.
pub proof fn the_last_sample_stays(input: Seq<i16>, k: nat)
    requires
        input.len() > 0,
    ensures
        k < input.len() ==> sample(input, k) == input[k as int],
        k >= input.len() ==> sample(input, k) == input[input.len() - 1],
{
}

} // verus!
