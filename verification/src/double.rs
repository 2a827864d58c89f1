//! Numbers with as many binary digits as double precision keeps, in integer arithmetic.

use vstd::arithmetic::power2::{
    lemma2_to64, lemma2_to64_rest, lemma_pow2_adds, lemma_pow2_pos, lemma_pow2_strictly_increases,
    lemma_pow2_unfold, pow2,
};
use vstd::prelude::*;

verus! {

/// Two to the power of 52, the least number with 53 binary digits.
pub const LEAST: u64 = 0x10000000000000;

/// Two to the power of 53, the least number with 54 binary digits.
pub const LIMIT: u64 = 0x20000000000000;

/// The mathematical view of a [`Double`].
#[verifier::ext_equal]
pub struct DoubleView {
    pub m: nat,
    pub e: int,
}

/// The number `m * 2^e`, which is not negative.
#[derive(Clone, Copy)]
pub struct Double {
    pub m: u64,
    pub e: i32,
}

impl View for Double {
    type V = DoubleView;

    open spec fn view(&self) -> DoubleView {
        DoubleView { m: self.m as nat, e: self.e as int }
    }
}

impl Double {
    /// The digits are no more than double precision keeps.
    pub open spec fn wf(&self) -> bool {
        self.m <= LIMIT
    }
}

/// The integer nearest to `n / d`, and of two that are equally near the even one.
pub open spec fn half_even(n: nat, d: nat) -> nat {
    if 2 * (n % d) > d || (2 * (n % d) == d && (n / d) % 2 == 1) {
        n / d + 1
    } else {
        n / d
    }
}

/// How many binary digits a number has beyond the 53rd.
pub open spec fn excess(n: nat) -> nat
    decreases n,
{
    if n < LIMIT {
        0
    } else {
        1 + excess(n / 2)
    }
}

/// The number `n * 2^e` in double precision.
pub open spec fn shortened(n: nat, e: int) -> DoubleView {
    DoubleView { m: half_even(n, pow2(excess(n))), e: e + excess(n) }
}

/// How often a number has to be doubled until its quotient by `d` has 53 binary digits before the
/// point.
pub open spec fn lack(n: nat, d: nat) -> nat
    decreases
            if n < LEAST * d {
                LEAST * d - n
            } else {
                0
            },
{
    if n == 0 || n >= LEAST * d {
        0
    } else {
        1 + lack(2 * n, d)
    }
}

/// The number `n / d * 2^e` in double precision, for a quotient below 2^53.
pub open spec fn divided(n: nat, d: nat, e: int) -> DoubleView {
    DoubleView { m: half_even(n * pow2(lack(n, d)), d), e: e - lack(n, d) }
}

/// The number `n * 2^e` in double precision, with 53 digits however few `n` has.
pub open spec fn rounded(n: nat, e: int) -> DoubleView {
    if n < LIMIT {
        divided(n, 1, e)
    } else {
        shortened(n, e)
    }
}

/// The number that has these bits in the format of double precision; it is positive and not too
/// small to have 53 digits.
pub open spec fn of_bits(bits: int) -> DoubleView {
    DoubleView { m: (bits % (LEAST as int) + LEAST) as nat, e: bits / (LEAST as int) - 1075 }
}

/// The product of two numbers.
pub open spec fn product(a: DoubleView, b: DoubleView) -> DoubleView {
    rounded(a.m * b.m, a.e + b.e)
}

/// The quotient of two numbers.
pub open spec fn quotient(a: DoubleView, b: DoubleView) -> DoubleView {
    divided(a.m, b.m, a.e - b.e)
}

/// The sum of two numbers, the first of which has the greater exponent.
pub open spec fn sum(a: DoubleView, b: DoubleView) -> DoubleView {
    rounded(a.m * pow2((a.e - b.e) as nat) + b.m, b.e)
}

/// The difference of two numbers, the first of which has the greater exponent.
pub open spec fn difference(a: DoubleView, b: DoubleView) -> DoubleView {
    rounded((a.m * pow2((a.e - b.e) as nat) - b.m) as nat, b.e)
}

impl DoubleView {
    /// The number has 53 digits.
    pub open spec fn is_full(self) -> bool {
        LEAST <= self.m <= LIMIT
    }

    /// The number without its fraction.
    pub open spec fn whole(self) -> nat {
        if self.e >= 0 {
            self.m * pow2(self.e as nat)
        } else {
            self.m / pow2((-self.e) as nat)
        }
    }

    /// The fraction of the number, in units of `2^e`.
    pub open spec fn part(self) -> nat {
        if self.e >= 0 {
            0
        } else {
            self.m % pow2((-self.e) as nat)
        }
    }

    /// The bits of the number in the format of double precision, read as an integer. The format
    /// puts the exponent, raised by 1075 for `e`, above the 52 digits behind the first one; so a
    /// greater number has a greater integer.
    pub open spec fn bits(self) -> int {
        if self.m == 0 {
            0
        } else {
            (self.e + 1074) * LEAST + self.m
        }
    }

    /// The integer nearest to the number, and of two that are equally near the greater one.
    pub open spec fn nearest(self) -> nat {
        if self.e >= 0 {
            self.m * pow2(self.e as nat)
        } else {
            (self.m + pow2((-self.e - 1) as nat)) / pow2((-self.e) as nat)
        }
    }
}

// ---------------------------------------------------------------------------
// Rounding
// ---------------------------------------------------------------------------

/// Rounding does not lead past an integer.
pub proof fn rounding_keeps_bounds(n: nat, d: nat, lo: nat, hi: nat)
    requires
        d > 0,
        lo * d <= n <= hi * d,
    ensures
        lo <= half_even(n, d) <= hi,
{
    let q = n / d;
    let r = n % d;
    assert(n == q * d + r && r < d) by (nonlinear_arith)
        requires
            d > 0,
            q == n / d,
            r == n % d,
    ;
    assert(lo <= q) by (nonlinear_arith)
        requires
            lo * d <= q * d + r,
            r < d,
    ;
    assert(q <= hi && (r > 0 ==> q < hi)) by (nonlinear_arith)
        requires
            q * d + r <= hi * d,
            r < d,
            d > 0,
            r >= 0,
    ;
}

/// What is taken off leaves 53 digits, and no fewer.
pub(crate) proof fn lemma_excess(n: nat)
    ensures
        n < LIMIT * pow2(excess(n)),
        excess(n) > 0 ==> n >= LEAST * pow2(excess(n)),
    decreases n,
{
    lemma2_to64();
    if n >= LIMIT {
        let k = excess(n / 2);
        lemma_excess(n / 2);
        lemma_pow2_unfold(excess(n));
        assert(pow2(excess(n)) == 2 * pow2(k));
        assert(LIMIT * pow2(excess(n)) == 2 * (LIMIT * pow2(k))) by (nonlinear_arith)
            requires
                pow2(excess(n)) == 2 * pow2(k),
        ;
        assert(LEAST * pow2(excess(n)) == 2 * (LEAST * pow2(k))) by (nonlinear_arith)
            requires
                pow2(excess(n)) == 2 * pow2(k),
        ;
        if k == 0 {
            assert(LEAST * pow2(k) == LEAST) by (nonlinear_arith)
                requires
                    pow2(k) == 1,
            ;
        }
    } else {
        assert(LIMIT * pow2(0) == LIMIT) by (nonlinear_arith)
            requires
                pow2(0) == 1,
        ;
    }
}

/// A number below a power of two has no more digits beyond the 53rd than that power allows.
pub(crate) proof fn lemma_excess_bound(n: nat, b: nat)
    requires
        n < pow2(b),
    ensures
        excess(n) <= if b > 53 {
            (b - 53) as nat
        } else {
            0
        },
    decreases b,
{
    lemma2_to64();
    lemma2_to64_rest();
    if b <= 53 {
        if b < 53 {
            lemma_pow2_strictly_increases(b, 53);
        }
    } else if n >= LIMIT {
        lemma_pow2_unfold(b);
        assert(n / 2 < pow2((b - 1) as nat));
        lemma_excess_bound(n / 2, (b - 1) as nat);
    }
}

/// A shortened number has at most 53 digits, but for 2^53 itself.
pub(crate) proof fn lemma_shortened(n: nat, e: int)
    ensures
        shortened(n, e).m <= LIMIT,
        n > 0 ==> shortened(n, e).m > 0,
{
    let k = excess(n);
    lemma_excess(n);
    lemma_pow2_pos(k);
    lemma2_to64();
    if n == 0 || k > 0 {
        assert(0 * pow2(k) <= n <= LIMIT * pow2(k));
        rounding_keeps_bounds(n, pow2(k), 0, LIMIT as nat);
        if k > 0 {
            rounding_keeps_bounds(n, pow2(k), LEAST as nat, LIMIT as nat);
        }
    } else {
        rounding_keeps_bounds(n, 1, n, n);
    }
}

/// Doubling goes as far as is needed, and not further.
pub(crate) proof fn lemma_lack(n: nat, d: nat)
    requires
        0 < n < LIMIT * d,
    ensures
        LEAST * d <= n * pow2(lack(n, d)) < LIMIT * d,
    decreases
            if n < LEAST * d {
                LEAST * d - n
            } else {
                0
            },
{
    lemma2_to64();
    if n < LEAST * d {
        let k = lack(2 * n, d);
        assert(2 * (LEAST * d) == LIMIT * d) by (nonlinear_arith)
            requires
                2 * LEAST == LIMIT,
        ;
        lemma_lack(2 * n, d);
        lemma_pow2_unfold(lack(n, d));
        assert(n * pow2(lack(n, d)) == 2 * n * pow2(k)) by (nonlinear_arith)
            requires
                pow2(lack(n, d)) == 2 * pow2(k),
        ;
    } else {
        assert(n * pow2(0) == n) by (nonlinear_arith)
            requires
                pow2(0) == 1,
        ;
    }
}

/// Doubling goes no further than the digits of the divisor ask for.
pub(crate) proof fn lemma_lack_bound(n: nat, d: nat, b: nat)
    requires
        n > 0,
        LEAST * d <= n * pow2(b),
    ensures
        lack(n, d) <= b,
    decreases b,
{
    lemma2_to64();
    if n < LEAST * d {
        if b == 0 {
            assert(n * pow2(0) == n) by (nonlinear_arith)
                requires
                    pow2(0) == 1,
            ;
        } else {
            lemma_pow2_unfold(b);
            assert(n * pow2(b) == 2 * n * pow2((b - 1) as nat)) by (nonlinear_arith)
                requires
                    pow2(b) == 2 * pow2((b - 1) as nat),
            ;
            lemma_lack_bound(2 * n, d, (b - 1) as nat);
        }
    }
}

/// A quotient has 53 digits.
pub(crate) proof fn lemma_divided(n: nat, d: nat, e: int)
    requires
        0 < n < LIMIT * d,
        d > 0,
    ensures
        LEAST <= divided(n, d, e).m <= LIMIT,
{
    lemma_lack(n, d);
    rounding_keeps_bounds(n * pow2(lack(n, d)), d, LEAST as nat, LIMIT as nat);
}

// ---------------------------------------------------------------------------
// Computing
// ---------------------------------------------------------------------------

/// Two to the power of `k`.
pub(crate) fn power(k: u32) -> (r: u128)
    requires
        k < 128,
    ensures
        r == pow2(k as nat),
{
    let mut r: u128 = 1;
    let mut i: u32 = 0;
    proof {
        lemma2_to64();
    }
    while i < k
        invariant
            i <= k < 128,
            r == pow2(i as nat),
        decreases k - i,
    {
        proof {
            lemma_pow2_unfold((i + 1) as nat);
            lemma_power_fits((i + 1) as nat);
        }
        r = 2 * r;
        i += 1;
    }
    r
}

proof fn lemma_pow127()
    ensures
        pow2(127) == 0x80000000000000000000000000000000,
{
    lemma2_to64();
    lemma2_to64_rest();
    lemma_pow2_adds(63, 64);
    assert(pow2(127) == 0x80000000000000000000000000000000) by (nonlinear_arith)
        requires
            pow2(127) == pow2(63) * pow2(64),
            pow2(63) == 0x8000000000000000,
            pow2(64) == 0x10000000000000000,
    ;
}

/// The powers of two below the 128th are numbers of 128 bits.
pub(crate) proof fn lemma_power_fits(k: nat)
    requires
        k < 128,
    ensures
        0 < pow2(k) <= 0x80000000000000000000000000000000,
{
    lemma_pow127();
    lemma_pow2_pos(k);
    if k < 127 {
        lemma_pow2_strictly_increases(k, 127);
    }
}

fn round_quotient(n: u128, d: u128) -> (r: u128)
    requires
        0 < d <= 0x80000000000000000000000000000000,
        n < u128::MAX,
    ensures
        r == half_even(n as nat, d as nat),
{
    let q: u128 = n / d;
    let rest: u128 = n % d;
    assert(q <= n) by (nonlinear_arith)
        requires
            d > 0,
            q == n / d,
            n >= 0,
    ;
    if rest > d - rest || (rest == d - rest && q % 2 == 1) {
        q + 1
    } else {
        q
    }
}

/// The number `n * 2^e` in double precision.
pub(crate) fn shorten(n: u128, e: i32) -> (r: Double)
    requires
        n < 0x80000000000000000000000000000000,
        -1000 <= e <= 1000,
    ensures
        r.wf(),
        r@ == shortened(n as nat, e as int),
{
    let mut k: u32 = 0;
    let mut rest: u128 = n;
    proof {
        lemma_pow127();
        lemma_excess_bound(n as nat, 127);
    }
    while rest >= LIMIT as u128
        invariant
            k + excess(rest as nat) == excess(n as nat),
            excess(n as nat) <= 74,
        decreases rest,
    {
        rest = rest / 2;
        k += 1;
    }
    proof {
        lemma_shortened(n as nat, e as int);
        lemma_power_fits(k as nat);
    }
    let m: u128 = round_quotient(n, power(k));
    Double { m: m as u64, e: e + k as i32 }
}

/// The number `n / d * 2^e` in double precision.
pub(crate) fn divide(n: u64, d: u64, e: i32) -> (r: Double)
    requires
        n < LIMIT * d,
        0 < d <= LIMIT,
        -1000 <= e <= 1000,
    ensures
        r.wf(),
        n > 0 ==> r.m >= LEAST,
        e - 106 <= r.e <= e,
        r@ == divided(n as nat, d as nat, e as int),
{
    let low: u128 = LEAST as u128 * d as u128;
    let mut k: u32 = 0;
    let mut lifted: u128 = n as u128;
    proof {
        lemma2_to64();
        lemma2_to64_rest();
        lemma_pow2_adds(53, 52);
        assert(n * pow2(0) == n) by (nonlinear_arith)
            requires
                pow2(0) == 1,
        ;
        if n > 0 {
            assert(pow2(105) == pow2(53) * pow2(52));
            assert(LEAST * d <= n * pow2(105)) by (nonlinear_arith)
                requires
                    pow2(105) == pow2(53) * pow2(52),
                    pow2(53) == LIMIT,
                    pow2(52) == LEAST,
                    d <= LIMIT,
                    n >= 1,
            ;
            lemma_lack_bound(n as nat, d as nat, 105);
        }
    }
    while lifted > 0 && lifted < low
        invariant
            low == LEAST * d,
            low <= 0x20000000000000 * 0x10000000000000,
            k + lack(lifted as nat, d as nat) == lack(n as nat, d as nat),
            lack(n as nat, d as nat) <= 105,
            lifted == n * pow2(k as nat),
            lifted > 0 <==> n > 0,
        decreases 106 - k,
    {
        proof {
            lemma_pow2_unfold((k + 1) as nat);
            assert(n * pow2((k + 1) as nat) == 2 * (n * pow2(k as nat))) by (nonlinear_arith)
                requires
                    pow2((k + 1) as nat) == 2 * pow2(k as nat),
            ;
        }
        lifted = 2 * lifted;
        k += 1;
    }
    proof {
        assert(lack(lifted as nat, d as nat) == 0);
        if n > 0 {
            lemma_lack(n as nat, d as nat);
            lemma_divided(n as nat, d as nat, e as int);
            assert(LIMIT * d <= 0x20000000000000 * 0x20000000000000) by (nonlinear_arith)
                requires
                    0 < d <= LIMIT,
                    LIMIT == 0x20000000000000,
            ;
        }
    }
    let m: u128 = round_quotient(lifted, d as u128);
    proof {
        if n == 0 {
            rounding_keeps_bounds(0, d as nat, 0, 0);
        }
    }
    Double { m: m as u64, e: e - k as i32 }
}

impl Double {
    /// The integer nearest to the number, and of two that are equally near the greater one.
    pub(crate) fn nearest_integer(&self) -> (r: usize)
        requires
            self.wf(),
            self.e >= -120,
            self@.nearest() <= usize::MAX,
        ensures
            r == self@.nearest(),
    {
        if self.e >= 0 {
            return self.whole_below(usize::MAX);
        }
        let half: u128 = power((-self.e - 1) as u32);
        let unit: u128 = power((-self.e) as u32);
        proof {
            lemma_pow2_unfold((-self.e) as nat);
            lemma_power_fits((-self.e) as nat);
        }
        ((self.m as u128 + half) / unit) as usize
    }

    /// The integer nearest to a number with a fraction, or the limit where that is less.
    pub(crate) fn nearest_below(&self, limit: u32) -> (r: u32)
        requires
            self.wf(),
            -120 <= self.e < 0,
        ensures
            r == if self@.nearest() < limit {
                self@.nearest()
            } else {
                limit as nat
            },
    {
        let half: u128 = power((-self.e - 1) as u32);
        let unit: u128 = power((-self.e) as u32);
        proof {
            lemma_pow2_unfold((-self.e) as nat);
            lemma_power_fits((-self.e) as nat);
        }
        let n: u128 = (self.m as u128 + half) / unit;
        if n < limit as u128 {
            n as u32
        } else {
            limit
        }
    }

    /// The number without its fraction, or the limit where that is less.
    pub(crate) fn whole_below(&self, limit: usize) -> (r: usize)
        requires
            self.wf(),
            self.e >= -120,
        ensures
            r == if self@.whole() < limit {
                self@.whole()
            } else {
                limit as nat
            },
    {
        if self.e < 0 {
            let unit: u128 = power((-self.e) as u32);
            proof {
                lemma_power_fits((-self.e) as nat);
            }
            let whole: u128 = self.m as u128 / unit;
            return if whole < limit as u128 {
                whole as usize
            } else {
                limit
            };
        }
        let mut whole: u128 = self.m as u128;
        let mut i: i32 = 0;
        proof {
            lemma2_to64();
            assert(self.m * pow2(0) == self.m) by (nonlinear_arith)
                requires
                    pow2(0) == 1,
            ;
        }
        while i < self.e && whole < limit as u128
            invariant
                0 <= i <= self.e,
                whole <= 2 * (u64::MAX as u128),
                whole == self.m * pow2(i as nat),
            decreases self.e - i,
        {
            proof {
                lemma_pow2_unfold((i + 1) as nat);
                assert(self.m * pow2((i + 1) as nat) == 2 * (self.m * pow2(i as nat))) by (nonlinear_arith)
                    requires
                        pow2((i + 1) as nat) == 2 * pow2(i as nat),
                ;
            }
            whole = 2 * whole;
            i += 1;
        }
        proof {
            lemma_pow2_adds(i as nat, (self.e - i) as nat);
            lemma_pow2_pos((self.e - i) as nat);
            assert(self.m * pow2(self.e as nat) >= self.m * pow2(i as nat)) by (nonlinear_arith)
                requires
                    pow2(self.e as nat) == pow2(i as nat) * pow2((self.e - i) as nat),
                    pow2((self.e - i) as nat) >= 1,
                    self.m >= 0,
            ;
        }
        if whole < limit as u128 {
            whole as usize
        } else {
            limit
        }
    }

    /// The bits of the number in the format of double precision, read as an integer.
    pub(crate) fn to_bits(&self) -> (r: i64)
        requires
            self.m == 0 || LEAST <= self.m <= LIMIT,
            -200 <= self.e <= 200,
        ensures
            r == self@.bits(),
    {
        if self.m == 0 {
            0
        } else {
            let raised: i64 = self.e as i64 + 1074;
            assert(0 <= raised * LEAST <= 1274 * 0x10000000000000) by (nonlinear_arith)
                requires
                    0 <= raised <= 1274,
                    LEAST == 0x10000000000000,
            ;
            raised * LEAST as i64 + self.m as i64
        }
    }

    /// The fraction of the number, in units of `2^e`.
    pub(crate) fn fraction(&self) -> (r: u64)
        requires
            self.wf(),
            self.e >= -120,
        ensures
            r == self@.part(),
            r <= self.m,
    {
        if self.e >= 0 {
            return 0;
        }
        let unit: u128 = power((-self.e) as u32);
        proof {
            lemma_power_fits((-self.e) as nat);
            assert(self.m as nat % pow2((-self.e) as nat) <= self.m) by (nonlinear_arith)
                requires
                    pow2((-self.e) as nat) > 0,
            ;
        }
        (self.m as u128 % unit) as u64
    }
}

/// The number `n * 2^e` in double precision, with 53 digits.
pub(crate) fn round(n: u128, e: i32) -> (r: Double)
    requires
        0 < n < 0x80000000000000000000000000000000,
        -900 <= e <= 900,
    ensures
        r@ == rounded(n as nat, e as int),
        r@.is_full(),
        n >= LEAST ==> r.e == e + excess(n as nat),
        e - 106 <= r.e <= e + 74,
{
    if n < LIMIT as u128 {
        return divide(n as u64, 1, e);
    }
    proof {
        lemma_pow127();
        lemma_excess_bound(n as nat, 127);
        lemma_full(n as nat, e as int);
    }
    shorten(n, e)
}

/// The product of two numbers with 53 digits is 52 to 54 digits too long.
proof fn lemma_product_excess(a: nat, b: nat)
    requires
        LEAST <= a <= LIMIT,
        LEAST <= b <= LIMIT,
    ensures
        52 <= excess(a * b) <= 54,
{
    let n = a * b;
    let k = excess(n);
    lemma2_to64();
    lemma2_to64_rest();
    lemma_pow2_adds(53, 54);
    assert(pow2(107) == pow2(53) * pow2(54));
    assert(LEAST * LEAST <= n && n < pow2(107)) by (nonlinear_arith)
        requires
            n == a * b,
            LEAST <= a <= LIMIT,
            LEAST <= b <= LIMIT,
            pow2(107) == pow2(53) * pow2(54),
            pow2(53) == LIMIT,
            pow2(54) == 2 * LIMIT,
            LIMIT == 0x20000000000000,
    ;
    lemma_excess_bound(n, 107);
    lemma_excess(n);
    if k < 52 {
        lemma_pow2_strictly_increases(k, 52);
        lemma_pow2_unfold(52);
        if k < 51 {
            lemma_pow2_strictly_increases(k, 51);
        }
        assert(pow2(k) <= pow2(51));
        assert(LIMIT * pow2(k) <= LEAST * LEAST) by (nonlinear_arith)
            requires
                pow2(k) <= pow2(51),
                pow2(51) == 0x8000000000000,
                LIMIT == 0x20000000000000,
                LEAST == 0x10000000000000,
        ;
    }
}

/// The quotient of two numbers with 53 digits is 51 to 53 digits too short.
proof fn lemma_quotient_lack(a: nat, b: nat)
    requires
        LEAST <= a <= LIMIT,
        LEAST <= b <= LIMIT,
    ensures
        51 <= lack(a, b) <= 53,
{
    let k = lack(a, b);
    lemma2_to64();
    lemma2_to64_rest();
    assert(LEAST * b <= a * pow2(53) && a < LIMIT * b) by (nonlinear_arith)
        requires
            LEAST <= a <= LIMIT,
            LEAST <= b <= LIMIT,
            pow2(53) == LIMIT,
            LEAST == 0x10000000000000,
            LIMIT == 0x20000000000000,
    ;
    lemma_lack_bound(a, b, 53);
    lemma_lack(a, b);
    if k < 51 {
        lemma_pow2_strictly_increases(k, 51);
        lemma_pow2_unfold(51);
        if k < 50 {
            lemma_pow2_strictly_increases(k, 50);
        }
        assert(a * pow2(k) < LEAST * b) by (nonlinear_arith)
            requires
                a <= LIMIT,
                pow2(k) <= 0x4000000000000,
                b >= LEAST,
                LEAST == 0x10000000000000,
                LIMIT == 0x20000000000000,
        ;
    }
}

/// An integer below 2^31 has 22 to 52 digits behind the point.
pub(crate) proof fn lemma_integer(n: nat)
    requires
        0 < n < 0x80000000,
    ensures
        -52 <= rounded(n, 0).e <= -22,
{
    let k = lack(n, 1);
    lemma2_to64();
    lemma2_to64_rest();
    lemma_lack(n, 1);
    assert(LEAST * 1 <= n * pow2(52)) by (nonlinear_arith)
        requires
            n >= 1,
            pow2(52) == LEAST,
    ;
    lemma_lack_bound(n, 1, 52);
    if k < 22 {
        if k < 21 {
            lemma_pow2_strictly_increases(k, 21);
        }
        assert(n * pow2(k) < LEAST * 1) by (nonlinear_arith)
            requires
                n < 0x80000000,
                pow2(k) <= 0x200000,
                LEAST == 0x10000000000000,
        ;
    }
}

/// A number with 53 digits, of which at least 42 stand behind the point, is near a small integer.
pub(crate) proof fn lemma_small(d: DoubleView)
    requires
        d.is_full(),
        -200 <= d.e <= -42,
    ensures
        d.nearest() <= 2049,
{
    let k = (-d.e) as nat;
    lemma2_to64();
    lemma2_to64_rest();
    lemma_pow2_unfold(k);
    if k > 42 {
        lemma_pow2_strictly_increases(42, k);
    }
    let unit = pow2(k);
    let half = pow2((k - 1) as nat);
    assert((d.m + half) / unit <= 2049) by (nonlinear_arith)
        requires
            d.m <= 0x20000000000000,
            unit >= 0x40000000000,
            unit == 2 * half,
    ;
}

/// A number that is long enough keeps 53 digits when it is shortened.
proof fn lemma_full(n: nat, e: int)
    requires
        n >= LIMIT,
    ensures
        shortened(n, e).is_full(),
{
    let k = excess(n);
    lemma_excess(n);
    lemma_pow2_pos(k);
    rounding_keeps_bounds(n, pow2(k), LEAST as nat, LIMIT as nat);
}

impl Double {
    /// The number that has these bits in the format of double precision.
    pub(crate) fn from_bits(bits: i64) -> (r: Double)
        requires
            bits >= LEAST,
        ensures
            r@ == of_bits(bits as int),
            r@.is_full(),
            r.m < LIMIT,
    {
        Double { m: (bits % (LEAST as i64)) as u64 + LEAST, e: (bits / (LEAST as i64)) as i32 - 1075 }
    }

    /// The product of two numbers.
    pub(crate) fn times(&self, other: &Double) -> (r: Double)
        requires
            self@.is_full(),
            other@.is_full(),
            -400 <= self.e <= 400,
            -400 <= other.e <= 400,
        ensures
            r@ == product(self@, other@),
            r@.is_full(),
            self.e + other.e + 52 <= r.e <= self.e + other.e + 54,
    {
        proof {
            lemma_product_excess(self.m as nat, other.m as nat);
            assert(self.m * other.m >= LEAST) by (nonlinear_arith)
                requires
                    self.m >= LEAST,
                    other.m >= 1,
            ;
            assert(1 <= self.m * other.m <= 0x20000000000000 * 0x20000000000000) by (nonlinear_arith)
                requires
                    1 <= self.m <= 0x20000000000000,
                    1 <= other.m <= 0x20000000000000,
            ;
        }
        round(self.m as u128 * other.m as u128, self.e + other.e)
    }

    /// The quotient of two numbers.
    pub(crate) fn over(&self, other: &Double) -> (r: Double)
        requires
            self@.is_full(),
            other@.is_full(),
            -400 <= self.e <= 400,
            -400 <= other.e <= 400,
        ensures
            r@ == quotient(self@, other@),
            r@.is_full(),
            self.e - other.e - 53 <= r.e <= self.e - other.e - 51,
    {
        proof {
            lemma_quotient_lack(self.m as nat, other.m as nat);
            assert(self.m < LIMIT * other.m) by (nonlinear_arith)
                requires
                    self.m <= LIMIT,
                    other.m >= LEAST,
                    LEAST == 0x10000000000000,
                    LIMIT == 0x20000000000000,
            ;
        }
        divide(self.m, other.m, self.e - other.e)
    }

    fn aligned(&self, e: i32) -> (r: u128)
        requires
            self@.is_full(),
            e <= self.e <= e + 60,
            -400 <= e <= 400,
        ensures
            r == self@.m * pow2((self@.e - e) as nat),
            LEAST <= r <= 0x20000000000000 * 0x1000000000000000,
    {
        let unit: u128 = power((self.e - e) as u32);
        proof {
            lemma2_to64();
            lemma2_to64_rest();
            lemma_pow2_pos((self.e - e) as nat);
            if self.e - e < 60 {
                lemma_pow2_strictly_increases((self.e - e) as nat, 60);
            }
            assert(LEAST <= self.m * unit <= 0x20000000000000 * 0x1000000000000000) by (nonlinear_arith)
                requires
                    LEAST <= self.m <= 0x20000000000000,
                    1 <= unit <= 0x1000000000000000,
            ;
        }
        self.m as u128 * unit
    }

    /// The sum of two numbers, the first of which has the greater exponent.
    pub(crate) fn plus(&self, other: &Double) -> (r: Double)
        requires
            self@.is_full(),
            other@.is_full(),
            other.e <= self.e <= other.e + 60,
            -400 <= other.e <= 400,
        ensures
            r@ == sum(self@, other@),
            r@.is_full(),
            other.e <= r.e <= other.e + 74,
    {
        let first: u128 = self.aligned(other.e);
        round(first + other.m as u128, other.e)
    }

    /// The difference of two numbers, the first of which has the greater exponent.
    pub(crate) fn minus(&self, other: &Double) -> (r: Double)
        requires
            self@.is_full(),
            other@.is_full(),
            other.e < self.e <= other.e + 60,
            -400 <= other.e <= 400,
            other.m < LIMIT,
        ensures
            r@ == difference(self@, other@),
            r@.is_full(),
            other.e - 106 <= r.e <= other.e + 74,
    {
        let first: u128 = self.aligned(other.e);
        proof {
            lemma_pow2_unfold((self.e - other.e) as nat);
            lemma_pow2_pos((self.e - other.e - 1) as nat);
            assert(self.m * pow2((self.e - other.e) as nat) >= LIMIT) by (nonlinear_arith)
                requires
                    self.m >= LEAST,
                    pow2((self.e - other.e) as nat) == 2 * pow2((self.e - other.e - 1) as nat),
                    pow2((self.e - other.e - 1) as nat) >= 1,
                    2 * LEAST == LIMIT,
            ;
        }
        round(first - other.m as u128, other.e)
    }
}

} // verus!
