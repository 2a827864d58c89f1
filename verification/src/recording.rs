//! Voice notes: collecting samples, and bringing them to the rate at which they are kept.

use vstd::arithmetic::power2::{
    lemma2_to64, lemma2_to64_rest, lemma_pow2_adds, lemma_pow2_pos, lemma_pow2_strictly_increases,
    lemma_pow2_unfold, pow2,
};
use vstd::prelude::*;

use crate::double::{
    divide, divided, excess, half_even, lack, lemma_divided, lemma_excess, lemma_excess_bound,
    lemma_lack, lemma_lack_bound, lemma_shortened, power, rounding_keeps_bounds, shorten, shortened,
    Double, DoubleView, LEAST, LIMIT,
};

verus! {

/// The rate, in samples a second, at which voice notes are kept.
pub const VOICE_RATE: u32 = 48000;

/// The quotient of two numbers, without its fraction.
pub open spec fn quotient(n: int, d: int) -> int {
    if n < 0 {
        -((-n) / d)
    } else {
        n / d
    }
}

fn truncated_quotient(n: i64, d: i64) -> (r: i64)
    requires
        d > 0,
        n > i64::MIN,
    ensures
        r == quotient(n as int, d as int),
{
    if n < 0 {
        -((-n) / d)
    } else {
        n / d
    }
}

proof fn lemma_quotient_between(n: int, d: int, lo: int, hi: int)
    requires
        d > 0,
        lo * d <= n <= hi * d,
    ensures
        lo <= quotient(n, d) <= hi,
{
    if n < 0 {
        assert(-hi <= (-n) / d <= -lo) by (nonlinear_arith)
            requires
                d > 0,
                lo * d <= n <= hi * d,
        ;
    } else {
        assert(lo <= n / d <= hi) by (nonlinear_arith)
            requires
                d > 0,
                lo * d <= n <= hi * d,
        ;
    }
}

// ---------------------------------------------------------------------------
// One channel
// ---------------------------------------------------------------------------

/// The sum of samples from `lo` up to `hi`.
pub open spec fn sum(data: Seq<i16>, lo: int, hi: int) -> int
    decreases hi - lo,
{
    if hi <= lo {
        0
    } else {
        sum(data, lo, hi - 1) + data[hi - 1]
    }
}

/// Where the frame that starts at `lo` ends.
pub open spec fn frame_end(len: int, channels: int, lo: int) -> int {
    if lo + channels < len {
        lo + channels
    } else {
        len
    }
}

/// The frames from a place on, each as the average over its channels.
pub open spec fn averaged(data: Seq<i16>, channels: int, lo: int) -> Seq<i16>
    decreases data.len() - lo,
{
    if lo < 0 || lo >= data.len() || channels <= 0 {
        Seq::empty()
    } else {
        let hi = frame_end(data.len() as int, channels, lo);
        seq![quotient(sum(data, lo, hi), channels) as i16] + averaged(data, channels, hi)
    }
}

proof fn lemma_sum_bounds(data: Seq<i16>, lo: int, hi: int)
    requires
        0 <= lo <= hi <= data.len(),
    ensures
        -32768 * (hi - lo) <= sum(data, lo, hi) <= 32767 * (hi - lo),
    decreases hi - lo,
{
    if lo < hi {
        lemma_sum_bounds(data, lo, hi - 1);
    }
}

/// The average over the channels of each frame of samples; the last frame may be cut short.
pub fn mono_from_i16(data: &Vec<i16>, channels: u16) -> (r: Vec<i16>)
    requires
        channels > 0,
    ensures
        r@ == averaged(data@, channels as int, 0),
{
    let total: usize = data.len();
    let step: usize = channels as usize;
    let mut out: Vec<i16> = Vec::new();
    let mut lo: usize = 0;
    assert(out@ + averaged(data@, channels as int, 0) =~= averaged(data@, channels as int, 0));
    while lo < total
        invariant
            lo <= total,
            total == data@.len(),
            step == channels,
            channels > 0,
            out@ + averaged(data@, channels as int, lo as int) == averaged(data@, channels as int, 0),
        decreases total - lo,
    {
        let hi: usize = if step < total - lo {
            lo + step
        } else {
            total
        };
        let mut acc: i64 = 0;
        let mut k: usize = lo;
        while k < hi
            invariant
                lo <= k <= hi <= total,
                hi - lo <= step,
                step == channels,
                total == data@.len(),
                acc == sum(data@, lo as int, k as int),
            decreases hi - k,
        {
            proof {
                lemma_sum_bounds(data@, lo as int, k as int);
            }
            acc += data[k] as i64;
            k += 1;
        }
        proof {
            lemma_sum_bounds(data@, lo as int, hi as int);
            lemma_quotient_between(acc as int, channels as int, -32768, 32767);
        }
        let average: i64 = truncated_quotient(acc, channels as i64);
        let ghost before = out@;
        out.push(average as i16);
        let ghost rest = averaged(data@, channels as int, hi as int);
        assert(out@ + rest =~= before + (seq![average as i16] + rest));
        lo = hi;
    }
    assert(out@ + averaged(data@, channels as int, lo as int) =~= out@);
    out
}

/// Unsigned samples as signed ones.
pub open spec fn centered(data: Seq<u16>) -> Seq<i16> {
    data.map_values(|s: u16| (s - 32768) as i16)
}

/// The average over the channels of each frame of unsigned samples.
pub fn mono_from_u16(data: &Vec<u16>, channels: u16) -> (r: Vec<i16>)
    requires
        channels > 0,
    ensures
        r@ == averaged(centered(data@), channels as int, 0),
{
    let mut signed: Vec<i16> = Vec::new();
    let mut k: usize = 0;
    while k < data.len()
        invariant
            k <= data@.len(),
            signed@ =~= centered(data@.take(k as int)),
        decreases data@.len() - k,
    {
        signed.push((data[k] as i32 - 32768) as i16);
        k += 1;
    }
    assert(data@.take(k as int) =~= data@);
    mono_from_i16(&signed, channels)
}

// ---------------------------------------------------------------------------
// Resampling
// ---------------------------------------------------------------------------

/// How many samples `len` samples become at another rate, to the nearest one, as double precision
/// gives it.
pub open spec fn resampled_len(len: nat, from_rate: nat, to_rate: nat) -> nat {
    let n = shortened(len, 0);
    let ratio = divided(to_rate, from_rate, 0);
    shortened(n.m * ratio.m, n.e + ratio.e).nearest()
}

/// The place, among the samples, of place `i` at another rate, as double precision gives it.
pub open spec fn source_place(from_rate: nat, to_rate: nat, i: nat) -> DoubleView {
    let n = shortened(i, 0);
    let ratio = divided(to_rate, from_rate, 0);
    divided(n.m, ratio.m, n.e - ratio.e)
}

/// The sample at a place, or the last one behind the end.
pub open spec fn sample(input: Seq<i16>, k: nat) -> int {
    if k < input.len() {
        input[k as int] as int
    } else {
        input.last() as int
    }
}

/// A number without its sign.
pub open spec fn magnitude(n: int) -> nat {
    if n < 0 {
        (-n) as nat
    } else {
        n as nat
    }
}

/// The value on the straight line from `s0` to `s1` at the fraction of a place, as double
/// precision gives it, without its own fraction.
pub open spec fn interpolated(s0: int, s1: int, place: DoubleView) -> int {
    if place.part() == 0 {
        s0
    } else {
        let step = shortened(magnitude(s1 - s0) * place.part(), place.e);
        let scaled = if s1 < s0 {
            s0 * pow2((-step.e) as nat) - step.m
        } else {
            s0 * pow2((-step.e) as nat) + step.m
        };
        let value = shortened(magnitude(scaled), step.e).whole();
        if scaled < 0 {
            -value
        } else {
            value as int
        }
    }
}

/// The sample at place `i` at another rate: on the straight line between the two samples around
/// it.
pub open spec fn resampled_at(input: Seq<i16>, from_rate: nat, to_rate: nat, i: nat) -> int {
    let place = source_place(from_rate, to_rate, i);
    interpolated(sample(input, place.whole()), sample(input, place.whole() + 1), place)
}

/// Samples at another rate.
pub open spec fn resampled(input: Seq<i16>, from_rate: nat, to_rate: nat) -> Seq<i16> {
    if from_rate == to_rate || input.len() == 0 {
        input
    } else {
        Seq::new(
            resampled_len(input.len(), from_rate, to_rate),
            |i: int| resampled_at(input, from_rate, to_rate, i as nat) as i16,
        )
    }
}

/// The step from a sample towards the next one: its unit is one over a power of two, and it is no
/// longer than the way.
pub(crate) proof fn lemma_step(way: nat, place: DoubleView)
    requires
        place.part() > 0,
        place.e >= -106,
        way <= 65535,
    ensures
        ({
            let step = shortened(way * place.part(), place.e);
            &&& -106 <= step.e <= 0
            &&& step.m <= way * pow2((-step.e) as nat)
        }),
{
    let a = (-place.e) as nat;
    let f = place.part();
    let k = excess(way * f);
    lemma_pow2_pos(a);
    assert(f < pow2(a)) by (nonlinear_arith)
        requires
            f == place.m % pow2(a),
            pow2(a) > 0,
    ;
    lemma2_to64();
    lemma_pow2_adds(16, a);
    assert(way * f < pow2(16) * pow2(a)) by (nonlinear_arith)
        requires
            way < pow2(16),
            f < pow2(a),
            way >= 0,
            f >= 0,
            pow2(16) == 65536,
    ;
    lemma_excess_bound(way * f, 16 + a);
    assert(k <= a);
    let c = (a - k) as nat;
    lemma_pow2_adds(c, k);
    lemma_pow2_pos(k);
    assert(way * f <= way * pow2(c) * pow2(k)) by (nonlinear_arith)
        requires
            f <= pow2(a),
            pow2(a) == pow2(c) * pow2(k),
            way >= 0,
    ;
    rounding_keeps_bounds(way * f, pow2(k), 0, way * pow2(c));
}

/// A number that is `n` units of `2^-c` keeps its bounds when it is shortened and loses its
/// fraction.
pub(crate) proof fn lemma_value(n: nat, c: nat, lo: nat, hi: nat)
    requires
        lo * pow2(c) <= n <= hi * pow2(c),
        hi <= 32768,
        c <= 106,
    ensures
        lo <= shortened(n, -c).whole() <= hi,
        -106 <= shortened(n, -c).e <= 0,
{
    let k = excess(n);
    lemma2_to64();
    lemma_pow2_adds(16, c);
    lemma_pow2_pos(c);
    assert(n < pow2(16) * pow2(c)) by (nonlinear_arith)
        requires
            n <= hi * pow2(c),
            hi < pow2(16),
            pow2(c) > 0,
            pow2(16) == 65536,
    ;
    lemma_excess_bound(n, 16 + c);
    assert(k <= c);
    let b = (c - k) as nat;
    lemma_pow2_adds(b, k);
    lemma_pow2_pos(k);
    lemma_pow2_pos(b);
    assert(lo * pow2(b) * pow2(k) == lo * pow2(c) && hi * pow2(b) * pow2(k) == hi * pow2(c)) by (nonlinear_arith)
        requires
            pow2(c) == pow2(b) * pow2(k),
    ;
    rounding_keeps_bounds(n, pow2(k), lo * pow2(b), hi * pow2(b));
    let m = half_even(n, pow2(k));
    assert(lo <= m / pow2(b) <= hi) by (nonlinear_arith)
        requires
            lo * pow2(b) <= m <= hi * pow2(b),
            pow2(b) > 0,
    ;
    if b == 0 {
        assert(m * pow2(0) == m / pow2(0)) by (nonlinear_arith)
            requires
                pow2(0) == 1,
        ;
    }
}

/// What stands on the line from `s0` to `s1` lies between them.
proof fn lemma_interpolated(s0: int, s1: int, place: DoubleView)
    requires
        -32768 <= s0 <= 32767,
        -32768 <= s1 <= 32767,
        place.e >= -106,
    ensures
        s0 <= s1 ==> s0 <= interpolated(s0, s1, place) <= s1,
        s1 <= s0 ==> s1 <= interpolated(s0, s1, place) <= s0,
{
    if place.part() > 0 {
        let way = magnitude(s1 - s0);
        let step = shortened(way * place.part(), place.e);
        lemma_step(way, place);
        let c = (-step.e) as nat;
        let p = pow2(c) as int;
        lemma_pow2_pos(c);
        let scaled = if s1 < s0 {
            s0 * p - step.m
        } else {
            s0 * p + step.m
        };
        let (lo, hi) = if s0 <= s1 {
            (s0, s1)
        } else {
            (s1, s0)
        };
        assert(lo * p <= scaled <= hi * p) by (nonlinear_arith)
            requires
                step.m <= way * p,
                step.m >= 0,
                s0 <= s1 ==> scaled == s0 * p + step.m && way == s1 - s0 && lo == s0 && hi == s1,
                s1 < s0 ==> scaled == s0 * p - step.m && way == s0 - s1 && lo == s1 && hi == s0,
        ;
        if scaled >= 0 {
            assert(hi >= 0) by (nonlinear_arith)
                requires
                    0 <= scaled <= hi * p,
                    p > 0,
            ;
            let least: nat = if lo >= 0 {
                lo as nat
            } else {
                0
            };
            assert(least * p <= scaled) by (nonlinear_arith)
                requires
                    least == lo || least == 0,
                    lo * p <= scaled,
                    0 <= scaled,
            ;
            lemma_value(scaled as nat, c, least, hi as nat);
        } else {
            assert(lo < 0) by (nonlinear_arith)
                requires
                    lo * p <= scaled,
                    scaled < 0,
                    p > 0,
            ;
            let least: nat = if hi < 0 {
                (-hi) as nat
            } else {
                0
            };
            let most = (-lo) as nat;
            assert(least * p <= -scaled && -scaled <= most * p) by (nonlinear_arith)
                requires
                    least == -hi || least == 0,
                    most == -lo,
                    lo * p <= scaled <= hi * p,
                    scaled < 0,
            ;
            lemma_value((-scaled) as nat, c, least, most);
        }
    }
}

/// The ratio of two rates has 53 digits.
proof fn lemma_ratio(from_rate: nat, to_rate: nat)
    requires
        0 < from_rate <= u32::MAX,
        0 < to_rate <= u32::MAX,
    ensures
        LEAST <= divided(to_rate, from_rate, 0).m <= LIMIT,
{
    assert(to_rate < LIMIT * from_rate) by (nonlinear_arith)
        requires
            to_rate < LIMIT,
            from_rate >= 1,
    ;
    lemma_divided(to_rate, from_rate, 0);
}

proof fn lemma_unit(c: nat)
    requires
        c <= 106,
    ensures
        0 < pow2(c) <= 0x400000000000000000000000000,
{
    lemma2_to64();
    lemma2_to64_rest();
    lemma_pow2_pos(c);
    lemma_pow2_adds(53, 53);
    assert(pow2(106) == 0x400000000000000000000000000) by (nonlinear_arith)
        requires
            pow2(106) == pow2(53) * pow2(53),
            pow2(53) == 0x20000000000000,
    ;
    if c < 106 {
        lemma_pow2_strictly_increases(c, 106);
    }
}

fn interpolate(s0: i16, s1: i16, place: &Double) -> (r: i16)
    requires
        place.wf(),
        place.e >= -106,
    ensures
        r == interpolated(s0 as int, s1 as int, place@),
{
    let part: u64 = place.fraction();
    proof {
        lemma_interpolated(s0 as int, s1 as int, place@);
    }
    if part == 0 {
        return s0;
    }
    let way: u64 = if s1 < s0 {
        (s0 as i32 - s1 as i32) as u64
    } else {
        (s1 as i32 - s0 as i32) as u64
    };
    proof {
        lemma_step(way as nat, place@);
        assert(0 <= way * part <= 65535 * 0x20000000000000) by (nonlinear_arith)
            requires
                0 <= way <= 65535,
                0 <= part <= 0x20000000000000,
        ;
    }
    let step = shorten(way as u128 * part as u128, place.e);
    let unit: u128 = power((-step.e) as u32);
    proof {
        lemma_unit((-step.e) as nat);
        assert(-32768 * 0x400000000000000000000000000 <= s0 * unit <= 32767
            * 0x400000000000000000000000000) by (nonlinear_arith)
            requires
                -32768 <= s0 <= 32767,
                0 <= unit <= 0x400000000000000000000000000,
        ;
    }
    let line: i128 = s0 as i128 * unit as i128;
    let scaled: i128 = if s1 < s0 {
        line - step.m as i128
    } else {
        line + step.m as i128
    };
    let size: u128 = if scaled < 0 {
        (-scaled) as u128
    } else {
        scaled as u128
    };
    let value = shorten(size, step.e);
    let whole: usize = value.whole_below(40000);
    if scaled < 0 {
        (-(whole as i32)) as i16
    } else {
        whole as i16
    }
}

fn sample_at(input: &Vec<i16>, ratio: &Double, i: usize) -> (r: i16)
    requires
        input@.len() > 0,
        LEAST <= ratio.m <= LIMIT,
        -106 <= ratio.e <= 0,
    ensures
        ({
            let n = shortened(i as nat, 0);
            let place = divided(n.m, ratio@.m, n.e - ratio@.e);
            r == interpolated(
                sample(input@, place.whole()),
                sample(input@, place.whole() + 1),
                place,
            )
        }),
{
    let total: usize = input.len();
    let last: i16 = input[total - 1];
    let n = shorten(i as u128, 0);
    proof {
        lemma2_to64();
        lemma_excess_bound(i as nat, 64);
        assert(n.m < LIMIT * ratio.m) by (nonlinear_arith)
            requires
                n.m <= LIMIT,
                ratio.m >= LEAST,
                LEAST == 0x10000000000000,
                LIMIT == 0x20000000000000,
        ;
    }
    let place = divide(n.m, ratio.m, n.e - ratio.e);
    let k: usize = place.whole_below(total);
    let s0: i16 = if k < total {
        input[k]
    } else {
        last
    };
    let s1: i16 = if k < total - 1 {
        input[k + 1]
    } else {
        last
    };
    interpolate(s0, s1, &place)
}

/// Samples at another rate, each on the straight line between the two around it, as double
/// precision gives it.
pub fn resample_linear(input: &Vec<i16>, from_rate: u32, to_rate: u32) -> (r: Vec<i16>)
    requires
        from_rate > 0 || from_rate == to_rate || input@.len() == 0,
        resampled(input@, from_rate as nat, to_rate as nat).len() <= usize::MAX,
    ensures
        r@ == resampled(input@, from_rate as nat, to_rate as nat),
{
    if from_rate == to_rate || input.len() == 0 {
        let mut copy: Vec<i16> = Vec::new();
        let mut k: usize = 0;
        while k < input.len()
            invariant
                k <= input@.len(),
                copy@ =~= input@.take(k as int),
            decreases input@.len() - k,
        {
            copy.push(input[k]);
            k += 1;
        }
        assert(input@.take(k as int) =~= input@);
        return copy;
    }
    proof {
        lemma2_to64();
        assert(to_rate < LIMIT * from_rate) by (nonlinear_arith)
            requires
                0 <= to_rate < LIMIT,
                from_rate >= 1,
        ;
    }
    let ratio = divide(to_rate as u64, from_rate as u64, 0);
    let n = shorten(input.len() as u128, 0);
    proof {
        lemma_excess_bound(input@.len(), 64);
        assert(0 <= n.m * ratio.m <= 0x20000000000000 * 0x20000000000000) by (nonlinear_arith)
            requires
                0 <= n.m <= 0x20000000000000,
                0 <= ratio.m <= 0x20000000000000,
        ;
    }
    let len: usize = shorten(n.m as u128 * ratio.m as u128, n.e + ratio.e).nearest_integer();
    proof {
        if to_rate == 0 {
            lemma_nothing(input@.len(), from_rate as nat);
        }
    }
    let mut out: Vec<i16> = Vec::new();
    let mut i: usize = 0;
    while i < len
        invariant
            i <= len,
            input@.len() > 0,
            len > 0 ==> LEAST <= ratio.m <= LIMIT,
            -106 <= ratio.e <= 0,
            ratio@ == divided(to_rate as nat, from_rate as nat, 0),
            out@.len() == i,
            forall|j: int|
                0 <= j < i ==> #[trigger] out@[j] == resampled_at(
                    input@,
                    from_rate as nat,
                    to_rate as nat,
                    j as nat,
                ),
        decreases len - i,
    {
        out.push(sample_at(input, &ratio, i));
        i += 1;
    }
    assert(out@ =~= resampled(input@, from_rate as nat, to_rate as nat)) by {
        assert forall|j: int| 0 <= j < out@.len() implies out@[j] == resampled_at(
            input@,
            from_rate as nat,
            to_rate as nat,
            j as nat,
        ) as i16 by {
            assert(out@[j] == resampled_at(input@, from_rate as nat, to_rate as nat, j as nat));
        }
    }
    out
}

proof fn lemma_nothing(len: nat, from_rate: nat)
    requires
        from_rate > 0,
    ensures
        resampled_len(len, from_rate, 0) == 0,
{
    let n = shortened(len, 0);
    let ratio = divided(0, from_rate, 0);
    assert(0 * pow2(0) == 0);
    rounding_keeps_bounds(0, from_rate, 0, 0);
    assert(ratio.m == 0 && ratio.e == 0);
    assert(n.m * ratio.m == 0) by (nonlinear_arith)
        requires
            ratio.m == 0,
    ;
    lemma2_to64();
    rounding_keeps_bounds(0, 1, 0, 0);
    assert(0 * pow2(n.e as nat) == 0) by (nonlinear_arith);
}

/// Every resampled value lies between the two samples around its place.
pub proof fn resampling_stays_between_neighbours(
    input: Seq<i16>,
    from_rate: u32,
    to_rate: u32,
    i: usize,
)
    requires
        input.len() > 0,
        from_rate > 0,
        to_rate > 0,
    ensures
        ({
            let k = source_place(from_rate as nat, to_rate as nat, i as nat).whole();
            let s0 = sample(input, k);
            let s1 = sample(input, k + 1);
            let r = resampled_at(input, from_rate as nat, to_rate as nat, i as nat);
            if s0 <= s1 {
                s0 <= r <= s1
            } else {
                s1 <= r <= s0
            }
        }),
{
    let place = source_place(from_rate as nat, to_rate as nat, i as nat);
    let n = shortened(i as nat, 0);
    let ratio = divided(to_rate as nat, from_rate as nat, 0);
    lemma_ratio(from_rate as nat, to_rate as nat);
    lemma_shortened(i as nat, 0);
    lemma2_to64();
    lemma2_to64_rest();
    if n.m > 0 {
        lemma_pow2_adds(53, 52);
        assert(LEAST * ratio.m <= n.m * pow2(105)) by (nonlinear_arith)
            requires
                pow2(105) == pow2(53) * pow2(52),
                pow2(53) == LIMIT,
                pow2(52) == LEAST,
                ratio.m <= LIMIT,
                n.m >= 1,
        ;
        lemma_lack_bound(n.m, ratio.m, 105);
    }
    let k = place.whole();
    lemma_interpolated(sample(input, k), sample(input, k + 1), place);
}

/// Whatever the rates, the first sample stays the first.
pub proof fn resampling_keeps_the_first_sample(input: Seq<i16>, from_rate: u32, to_rate: u32)
    requires
        from_rate > 0,
        resampled(input, from_rate as nat, to_rate as nat).len() > 0,
    ensures
        resampled(input, from_rate as nat, to_rate as nat)[0] == input[0],
{
    if from_rate != to_rate && input.len() > 0 {
        if to_rate == 0 {
            lemma_nothing(input.len(), from_rate as nat);
        }
        let n = shortened(0, 0);
        let ratio = divided(to_rate as nat, from_rate as nat, 0);
        let place = source_place(from_rate as nat, to_rate as nat, 0);
        lemma2_to64();
        lemma_ratio(from_rate as nat, to_rate as nat);
        rounding_keeps_bounds(0, 1, 0, 0);
        assert(n.m == 0 && n.e == 0);
        assert(0 * pow2(0) == 0);
        rounding_keeps_bounds(0, ratio.m, 0, 0);
        assert(place.m == 0);
        if place.e < 0 {
            let unit = pow2((-place.e) as nat);
            lemma_pow2_pos((-place.e) as nat);
            assert(0nat / unit == 0 && 0nat % unit == 0) by (nonlinear_arith)
                requires
                    unit > 0,
            ;
        } else {
            assert(0 * pow2(place.e as nat) == 0) by (nonlinear_arith);
        }
        assert(place.whole() == 0 && place.part() == 0);
        assert(resampled_at(input, from_rate as nat, to_rate as nat, 0) == input[0]);
    }
}

/// The nearest integer to a quotient is at most half a unit away.
proof fn lemma_half_even_is_near(n: nat, d: nat)
    requires
        d > 0,
    ensures
        -d <= 2 * (half_even(n, d) * d - n) <= d,
{
    let q = n / d;
    let r = n % d;
    assert(n == q * d + r && r < d) by (nonlinear_arith)
        requires
            d > 0,
            q == n / d,
            r == n % d,
    ;
    assert((q + 1) * d == q * d + d) by (nonlinear_arith);
}

/// Two errors of at most half a unit each, and that of a ratio, are less than a unit together, and
/// where that of the ratio is small enough no more than half a unit.
proof fn lemma_errors_add_up(
    l: int,
    len: int,
    from: int,
    to: int,
    m: int,
    m2: int,
    a: int,
    b: int,
    u: int,
)
    requires
        from > 0,
        len > 0,
        a == b * u,
        b > 0,
        u > 0,
        -from <= 2 * (m * from - to * a) <= from,
        -b <= 2 * (m2 * b - len * m) <= b,
        -u <= 2 * (l * u - m2) <= u,
        b + len < a,
    ensures
        -from < l * from - len * to < from,
        (b + len) * from < a ==> -from <= 2 * (l * from - len * to) <= from,
{
    assert(-(u * b) <= 2 * (l * a - m2 * b) <= u * b) by (nonlinear_arith)
        requires
            a == b * u,
            b > 0,
            -u <= 2 * (l * u - m2) <= u,
    ;
    assert(u * b == a) by (nonlinear_arith)
        requires
            a == b * u,
    ;
    assert(-((a + b) * from) <= 2 * (l * a * from - len * m * from) <= (a + b) * from) by (nonlinear_arith)
        requires
            from > 0,
            -(a + b) <= 2 * (l * a - len * m) <= a + b,
    ;
    assert(-(len * from) <= 2 * (len * m * from - len * to * a) <= len * from) by (nonlinear_arith)
        requires
            len > 0,
            -from <= 2 * (m * from - to * a) <= from,
    ;
    assert((a + b) * from + len * from < 2 * a * from) by (nonlinear_arith)
        requires
            from > 0,
            b + len < a,
    ;
    assert(-(2 * a * from) < 2 * (l * a * from - len * to * a) < 2 * a * from);
    assert(-from < l * from - len * to < from) by (nonlinear_arith)
        requires
            a > 0,
            -(2 * a * from) < 2 * (l * a * from - len * to * a) < 2 * a * from,
    ;
    if (b + len) * from < a {
        let d = l * from - len * to;
        assert(l * a * from - len * to * a == a * d) by (nonlinear_arith)
            requires
                d == l * from - len * to,
        ;
        assert((a + b) * from + len * from == a * from + (b + len) * from) by (nonlinear_arith);
        assert(-from <= 2 * d <= from) by (nonlinear_arith)
            requires
                a > 0,
                -(a * from + (b + len) * from) <= 2 * (a * d) <= a * from + (b + len) * from,
                (b + len) * from < a,
        ;
    }
}

/// The number of resampled samples is less than one away from what the ratio of the rates asks
/// for, and is that exactly where it is a whole number, as long as double precision has enough
/// digits to tell. It is the nearest integer, or one of the two nearest, whatever the rates, for
/// up to 2^50 samples times the rate that they are brought to.
pub proof fn resampled_lengths_follow_the_rates(
    len: nat,
    from_rate: u32,
    to_rate: u32,
    exact: nat,
)
    requires
        0 < len < LIMIT,
        from_rate > 0,
        to_rate > 0,
        len * to_rate < 0x4000000000000 * from_rate,
    ensures
        -from_rate < resampled_len(len, from_rate as nat, to_rate as nat) * from_rate - len * to_rate
            < from_rate,
        len * to_rate == exact * from_rate ==> resampled_len(len, from_rate as nat, to_rate as nat)
            == exact,
        len * to_rate <= 0x4000000000000 ==> -from_rate <= 2 * (resampled_len(
            len,
            from_rate as nat,
            to_rate as nat,
        ) * from_rate - len * to_rate) <= from_rate,
{
    let from = from_rate as nat;
    let to = to_rate as nat;
    let n = shortened(len, 0);
    let ratio = divided(to, from, 0);
    let k = lack(to, from);
    let l = resampled_len(len, from, to);
    lemma2_to64();
    lemma2_to64_rest();
    rounding_keeps_bounds(len, 1, len, len);
    assert(n.m == len && n.e == 0);
    assert(to < LIMIT * from) by (nonlinear_arith)
        requires
            to < LIMIT,
            from >= 1,
    ;
    lemma_ratio(from, to);
    lemma_lack(to, from);
    lemma_pow2_pos(k);
    let a = pow2(k);
    lemma_half_even_is_near(to * a, from);
    let m = ratio.m;
    let p = len * m;
    let x = excess(p);
    let b = pow2(x);
    lemma_pow2_pos(x);
    lemma_excess(p);
    lemma_half_even_is_near(p, b);
    let short = shortened(p, -k);
    assert(b <= 2 * len) by {
        if x > 0 {
            assert(b <= 2 * len) by (nonlinear_arith)
                requires
                    LEAST * b <= len * m,
                    m <= LIMIT,
                    LIMIT == 2 * LEAST,
                    LEAST > 0,
                    len > 0,
            ;
        }
    }
    assert(4 * len < a) by (nonlinear_arith)
        requires
            len * to < 0x4000000000000 * from,
            LEAST * from <= to * a,
            LEAST == 4 * 0x4000000000000,
            to > 0,
    ;
    if x >= k {
        if x > k {
            lemma_pow2_strictly_increases(k, x);
        }
        assert(false);
    }
    let u = pow2((k - x) as nat);
    let half = pow2((k - x - 1) as nat);
    lemma_pow2_pos((k - x) as nat);
    lemma_pow2_adds(x, (k - x) as nat);
    lemma_pow2_unfold((k - x) as nat);
    assert(short.e == x - k);
    assert(l == (short.m + half) / u);
    assert(l * u <= short.m + half < l * u + u) by (nonlinear_arith)
        requires
            u > 0,
            l == (short.m + half) / u,
    ;
    if len * to <= 0x4000000000000 {
        assert((b + len) * from < a) by (nonlinear_arith)
            requires
                b <= 2 * len,
                len * to <= 0x4000000000000,
                LEAST * from <= to * a,
                LEAST == 4 * 0x4000000000000,
                from > 0,
                to > 0,
        ;
    }
    lemma_errors_add_up(
        l as int,
        len as int,
        from as int,
        to as int,
        m as int,
        short.m as int,
        a as int,
        b as int,
        u as int,
    );
    if len * to == exact * from {
        assert(l == exact) by (nonlinear_arith)
            requires
                -(from as int) < l * from - exact * from < from,
                from > 0,
        ;
    }
}

// ---------------------------------------------------------------------------
// Sessions
// ---------------------------------------------------------------------------

/// Why a recording gives no voice note.
#[derive(Clone, Copy, Debug, PartialEq, Eq, Structural)]
pub enum RecordingError {
    /// No recording is under way.
    NotRecording,
    /// Nothing was captured.
    Empty,
}

impl RecordingError {
    /// What the reader is told.
    pub fn message(&self) -> (r: &'static str)
        ensures
            r@ == (match self {
                RecordingError::NotRecording => "Not currently recording"@,
                RecordingError::Empty => "The recording came out empty \u{2014} nothing was captured."@,
            }),
    {
        match self {
            RecordingError::NotRecording => "Not currently recording",
            RecordingError::Empty => "The recording came out empty \u{2014} nothing was captured.",
        }
    }
}

/// A recording that is under way: what the microphone has given so far, on one channel.
pub struct RecordingSession {
    pub samples: Vec<i16>,
    pub sample_rate: u32,
    pub channels: u16,
}

impl RecordingSession {
    /// Whether the microphone has a rate and a channel.
    pub open spec fn wf(&self) -> bool {
        self.sample_rate > 0 && self.channels > 0
    }

    /// Starts a recording from a microphone with this rate and these channels.
    pub fn start(sample_rate: u32, channels: u16) -> (r: RecordingSession)
        requires
            sample_rate > 0,
            channels > 0,
        ensures
            r.wf(),
            r.sample_rate == sample_rate,
            r.channels == channels,
            r.samples@ == Seq::<i16>::empty(),
    {
        RecordingSession { samples: Vec::new(), sample_rate, channels }
    }

    /// Adds samples that are on one channel already.
    pub fn push_mono(&mut self, samples: Vec<i16>)
        requires
            old(self).wf(),
        ensures
            final(self).wf(),
            final(self).sample_rate == old(self).sample_rate,
            final(self).channels == old(self).channels,
            final(self).samples@ == old(self).samples@ + samples@,
    {
        let mut more = samples;
        self.samples.append(&mut more);
    }

    /// Adds signed samples, averaged over the channels.
    pub fn capture_i16(&mut self, data: &Vec<i16>)
        requires
            old(self).wf(),
        ensures
            final(self).wf(),
            final(self).sample_rate == old(self).sample_rate,
            final(self).channels == old(self).channels,
            final(self).samples@ == old(self).samples@ + averaged(data@, old(self).channels as int, 0),
    {
        let mono = mono_from_i16(data, self.channels);
        self.push_mono(mono);
    }

    /// Adds unsigned samples, averaged over the channels.
    pub fn capture_u16(&mut self, data: &Vec<u16>)
        requires
            old(self).wf(),
        ensures
            final(self).wf(),
            final(self).sample_rate == old(self).sample_rate,
            final(self).channels == old(self).channels,
            final(self).samples@ == old(self).samples@ + averaged(
                centered(data@),
                old(self).channels as int,
                0,
            ),
    {
        let mono = mono_from_u16(data, self.channels);
        self.push_mono(mono);
    }

    /// Ends the recording, and gives what was captured at the rate of voice notes.
    pub fn stop(self) -> (r: Result<Vec<i16>, RecordingError>)
        requires
            self.wf(),
            resampled(self.samples@, self.sample_rate as nat, VOICE_RATE as nat).len() <= usize::MAX,
        ensures
            match r {
                Ok(samples) => self.samples@.len() > 0 && samples@ == resampled(
                    self.samples@,
                    self.sample_rate as nat,
                    VOICE_RATE as nat,
                ),
                Err(e) => e == RecordingError::Empty && self.samples@.len() == 0,
            },
    {
        if self.samples.len() == 0 {
            return Err(RecordingError::Empty);
        }
        Ok(resample_linear(&self.samples, self.sample_rate, VOICE_RATE))
    }
}

/// Starts a recording in place of any that is under way.
pub fn start_voice_recording(
    recording: &mut Option<RecordingSession>,
    sample_rate: u32,
    channels: u16,
)
    requires
        sample_rate > 0,
        channels > 0,
    ensures
        *final(recording) matches Some(s) && s.wf() && s.sample_rate == sample_rate && s.channels
            == channels && s.samples@ == Seq::<i16>::empty(),
{
    *recording = Some(RecordingSession::start(sample_rate, channels));
}

/// Ends the recording that is under way, and gives what was captured at the rate of voice notes.
pub fn stop_voice_recording(recording: &mut Option<RecordingSession>) -> (r: Result<
    Vec<i16>,
    RecordingError,
>)
    requires
        *old(recording) matches Some(s) ==> s.wf() && resampled(
            s.samples@,
            s.sample_rate as nat,
            VOICE_RATE as nat,
        ).len() <= usize::MAX,
    ensures
        *final(recording) is None,
        match *old(recording) {
            None => r == Err::<Vec<i16>, RecordingError>(RecordingError::NotRecording),
            Some(s) => match r {
                Ok(samples) => s.samples@.len() > 0 && samples@ == resampled(
                    s.samples@,
                    s.sample_rate as nat,
                    VOICE_RATE as nat,
                ),
                Err(e) => e == RecordingError::Empty && s.samples@.len() == 0,
            },
        },
{
    match recording.take() {
        Some(session) => session.stop(),
        None => Err(RecordingError::NotRecording),
    }
}

} // verus!
