//! IEEE 754 double-precision numbers, held as their bit patterns.
//!
//! Every finite number is a whole multiple of the smallest positive one, so its value is an
//! integer count of such units. Sums, products and quotients are the exact result rounded to the
//! nearest representable number, ties to the even pattern.
use vstd::arithmetic::div_mod::*;
use vstd::arithmetic::mul::*;
use vstd::arithmetic::power2::*;
use vstd::prelude::*;

verus! {

/// The sign bit.
pub const SIGN: u64 = 0x8000_0000_0000_0000;

/// The magnitude of an infinity. Larger magnitudes are not numbers.
pub const INFINITE: u64 = 0x7ff0_0000_0000_0000;

/// The pattern given to every result that is not a number.
pub const NOT_A_NUMBER: u64 = 0x7ff8_0000_0000_0000;

/// The first magnitude whose significand has its leading bit.
pub const LEADING: u64 = 0x0010_0000_0000_0000;

/// The first magnitude whose neighbours are more than one unit apart.
pub const SIGNIFICAND: u64 = 0x0020_0000_0000_0000;

/// A double-precision number.
#[derive(Clone, Copy, Debug, PartialEq, Eq, Structural)]
pub struct Binary64 {
    pub bits: u64,
}

/// The number of units that a finite magnitude stands for.
pub open spec fn units(magnitude: nat) -> nat
    decreases magnitude,
{
    if magnitude < SIGNIFICAND {
        magnitude
    } else {
        2 * units((magnitude - LEADING) as nat)
    }
}

/// The whole number nearest to `num / den`, the even one of two that are equally near.
pub open spec fn round_half_even(num: nat, den: nat) -> nat {
    let low = num / den;
    let rest = num % den;
    if 2 * rest > den || (2 * rest == den && low % 2 == 1) {
        low + 1
    } else {
        low
    }
}

/// The magnitude nearest to `num / den` units, were exponents unbounded.
pub open spec fn rounded(num: nat, den: nat) -> nat
    decreases num - den,
{
    if den == 0 || num < den * SIGNIFICAND {
        round_half_even(num, den)
    } else {
        LEADING as nat + rounded(num, 2 * den)
    }
}

/// The magnitude nearest to `num / den` units, infinite past the largest finite one.
pub open spec fn nearest(num: nat, den: nat) -> u64 {
    if rounded(num, den) < INFINITE {
        rounded(num, den) as u64
    } else {
        INFINITE
    }
}

/// The number with this sign and magnitude.
pub open spec fn signed(negative: bool, magnitude: u64) -> Binary64 {
    Binary64 {
        bits: if negative {
            (magnitude + SIGN) as u64
        } else {
            magnitude
        },
    }
}

impl Binary64 {
    pub open spec fn negative(self) -> bool {
        self.bits >= SIGN
    }

    pub open spec fn magnitude(self) -> u64 {
        if self.bits >= SIGN {
            (self.bits - SIGN) as u64
        } else {
            self.bits
        }
    }

    pub open spec fn nan(self) -> bool {
        self.magnitude() > INFINITE
    }

    pub open spec fn infinite(self) -> bool {
        self.magnitude() == INFINITE
    }

    pub open spec fn finite(self) -> bool {
        self.magnitude() < INFINITE
    }

    /// The value of a finite number, in units.
    pub open spec fn value(self) -> int {
        if self.negative() {
            -(units(self.magnitude() as nat) as int)
        } else {
            units(self.magnitude() as nat) as int
        }
    }

    /// The place of a number among all numbers; both zeros share one place.
    pub open spec fn rank(self) -> int {
        if self.negative() {
            -(self.magnitude() as int)
        } else {
            self.magnitude() as int
        }
    }

    pub open spec fn lt(self, other: Binary64) -> bool {
        !self.nan() && !other.nan() && self.rank() < other.rank()
    }

    pub open spec fn le(self, other: Binary64) -> bool {
        !self.nan() && !other.nan() && self.rank() <= other.rank()
    }

    pub open spec fn sum(self, other: Binary64) -> Binary64 {
        if self.nan() || other.nan() {
            Binary64 { bits: NOT_A_NUMBER }
        } else if self.infinite() {
            if other.infinite() && self.negative() != other.negative() {
                Binary64 { bits: NOT_A_NUMBER }
            } else {
                self
            }
        } else if other.infinite() {
            other
        } else {
            let exact = self.value() + other.value();
            if exact == 0 {
                signed(self.negative() && other.negative(), 0)
            } else if exact < 0 {
                signed(true, nearest((-exact) as nat, 1))
            } else {
                signed(false, nearest(exact as nat, 1))
            }
        }
    }

    /// The number with the opposite sign.
    pub open spec fn opposite(self) -> Binary64 {
        signed(!self.negative(), self.magnitude())
    }

    pub open spec fn difference(self, other: Binary64) -> Binary64 {
        self.sum(other.opposite())
    }

    pub open spec fn product(self, other: Binary64) -> Binary64 {
        let negative = self.negative() != other.negative();
        if self.nan() || other.nan() {
            Binary64 { bits: NOT_A_NUMBER }
        } else if self.infinite() || other.infinite() {
            if self.magnitude() == 0 || other.magnitude() == 0 {
                Binary64 { bits: NOT_A_NUMBER }
            } else {
                signed(negative, INFINITE)
            }
        } else {
            signed(
                negative,
                nearest(
                    units(self.magnitude() as nat) * units(other.magnitude() as nat),
                    pow2(1074),
                ),
            )
        }
    }

    pub open spec fn quotient(self, other: Binary64) -> Binary64 {
        let negative = self.negative() != other.negative();
        if self.nan() || other.nan() || (self.infinite() && other.infinite()) || (self.magnitude()
            == 0 && other.magnitude() == 0) {
            Binary64 { bits: NOT_A_NUMBER }
        } else if self.infinite() || other.magnitude() == 0 {
            signed(negative, INFINITE)
        } else if other.infinite() {
            signed(negative, 0)
        } else {
            signed(
                negative,
                nearest(
                    units(self.magnitude() as nat) * pow2(1074),
                    units(other.magnitude() as nat),
                ),
            )
        }
    }

    /// The number nearest to a whole number.
    pub open spec fn whole(n: nat) -> Binary64 {
        signed(false, nearest(n * pow2(1074), 1))
    }

    /// The larger of two numbers, ignoring one that is not a number.
    pub open spec fn larger(self, other: Binary64) -> Binary64 {
        if self.nan() || self.lt(other) {
            other
        } else {
            self
        }
    }

    /// The smaller of two numbers, ignoring one that is not a number.
    pub open spec fn smaller(self, other: Binary64) -> Binary64 {
        if self.nan() || other.lt(self) {
            other
        } else {
            self
        }
    }

    /// The nearest whole number, halves away from zero, brought into the range of `i32`;
    /// zero for what is not a number.
    pub open spec fn nearest_i32(self) -> int {
        if self.nan() {
            0
        } else if self.infinite() {
            if self.negative() {
                i32::MIN as int
            } else {
                i32::MAX as int
            }
        } else {
            let away = (2 * units(self.magnitude() as nat) + pow2(1074)) / (2 * pow2(1074));
            if self.negative() {
                if away > -(i32::MIN as int) {
                    i32::MIN as int
                } else {
                    -away
                }
            } else if away > i32::MAX {
                i32::MAX as int
            } else {
                away as int
            }
        }
    }
}

/// Numbers added one by one to a first one.
pub open spec fn added_to(start: Binary64, numbers: Seq<Binary64>) -> Binary64
    decreases numbers.len(),
{
    if numbers.len() == 0 {
        start
    } else {
        added_to(start, numbers.drop_last()).sum(numbers.last())
    }
}

/// The sum of some numbers from the first to the last. That of none is negative zero, the one value
/// that added to any number leaves it as it is.
pub open spec fn total(numbers: Seq<Binary64>) -> Binary64 {
    added_to(Binary64 { bits: SIGN }, numbers)
}

impl View for Binary64 {
    type V = Binary64;

    open spec fn view(&self) -> Binary64 {
        *self
    }
}

proof fn lemma_pow2_step(e: nat)
    ensures
        pow2(e + 1) == 2 * pow2(e),
        pow2(e) > 0,
{
    lemma_pow2_unfold(e + 1);
    lemma_pow2_pos(e);
}

proof fn lemma_rounded_unroll(num: nat, den: nat, steps: nat)
    requires
        den > 0,
        num < den * pow2(steps) * SIGNIFICAND,
        steps == 0 || num >= den * pow2((steps - 1) as nat) * SIGNIFICAND,
    ensures
        rounded(num, den) == steps * LEADING + round_half_even(num, den * pow2(steps)),
    decreases steps,
{
    if steps == 0 {
        lemma2_to64();
        assert(den * pow2(0) == den);
    } else {
        let p: nat = pow2((steps - 1) as nat);
        lemma_pow2_step((steps - 1) as nat);
        assert(den * p * SIGNIFICAND >= den * SIGNIFICAND) by (nonlinear_arith)
            requires
                p >= 1,
                SIGNIFICAND > 0,
        ;
        assert((2 * den) * p == den * pow2(steps)) by (nonlinear_arith)
            requires
                pow2(steps) == 2 * p,
        ;
        if steps >= 2 {
            let q: nat = pow2((steps - 2) as nat);
            lemma_pow2_step((steps - 2) as nat);
            assert((2 * den) * q == den * p) by (nonlinear_arith)
                requires
                    p == 2 * q,
            ;
        }
        lemma_rounded_unroll(num, 2 * den, (steps - 1) as nat);
        assert(rounded(num, den) == LEADING + rounded(num, 2 * den));
        assert(steps * LEADING == (steps - 1) * LEADING + LEADING) by (nonlinear_arith);
    }
}

/// A quotient of that many doublings of the significand range rounds to a magnitude of as many
/// exponent steps.
pub proof fn lemma_rounded_at_least(num: nat, den: nat, steps: nat)
    requires
        den > 0,
        num >= den * pow2(steps) * SIGNIFICAND,
    ensures
        rounded(num, den) >= (steps + 1) * LEADING,
    decreases steps,
{
    lemma_pow2_pos(steps);
    assert(den * pow2(steps) * SIGNIFICAND >= den * SIGNIFICAND) by (nonlinear_arith)
        requires
            pow2(steps) >= 1,
    ;
    if steps > 0 {
        lemma_pow2_step((steps - 1) as nat);
        assert((2 * den) * pow2((steps - 1) as nat) == den * pow2(steps)) by (nonlinear_arith)
            requires
                pow2(steps) == 2 * pow2((steps - 1) as nat),
        ;
        lemma_rounded_at_least(num, 2 * den, (steps - 1) as nat);
        assert((steps + 1) * LEADING == steps * LEADING + LEADING) by (nonlinear_arith);
    }
}

pub proof fn lemma_half_even_scale(num: nat, den: nat, c: nat)
    requires
        den > 0,
        c > 0,
    ensures
        round_half_even(c * num, c * den) == round_half_even(num, den),
{
    let q: nat = num / den;
    let r: nat = num % den;
    lemma_fundamental_div_mod(num as int, den as int);
    assert(c * num == q * (c * den) + c * r) by (nonlinear_arith)
        requires
            num == den * q + r,
    ;
    assert(0 <= c * r < c * den && c * den > 0) by (nonlinear_arith)
        requires
            0 <= r < den,
            c > 0,
    ;
    lemma_fundamental_div_mod_converse((c * num) as int, (c * den) as int, q as int, (c * r) as int);
    assert(2 * (c * r) > c * den <==> 2 * r > den) by (nonlinear_arith)
        requires
            c > 0,
    ;
    assert(2 * (c * r) == c * den <==> 2 * r == den) by (nonlinear_arith)
        requires
            c > 0,
    ;
}

proof fn lemma_rounded_scale(num: nat, den: nat, c: nat)
    requires
        den > 0,
        c > 0,
    ensures
        rounded(c * num, c * den) == rounded(num, den),
    decreases num - den,
{
    assert(c * den > 0) by (nonlinear_arith)
        requires
            c > 0,
            den > 0,
    ;
    assert(c * num < (c * den) * SIGNIFICAND <==> num < den * SIGNIFICAND) by (nonlinear_arith)
        requires
            c > 0,
    ;
    if num < den * SIGNIFICAND {
        lemma_half_even_scale(num, den, c);
    } else {
        lemma_rounded_scale(num, 2 * den, c);
        assert(c * (2 * den) == 2 * (c * den)) by (nonlinear_arith);
    }
}

/// Rounding depends on the quotient alone.
pub proof fn lemma_nearest_same_quotient(num1: nat, den1: nat, num2: nat, den2: nat)
    requires
        den1 > 0,
        den2 > 0,
        num1 * den2 == num2 * den1,
    ensures
        rounded(num1, den1) == rounded(num2, den2),
        nearest(num1, den1) == nearest(num2, den2),
{
    lemma_rounded_scale(num1, den1, den2);
    lemma_rounded_scale(num2, den2, den1);
    assert(den2 * num1 == den1 * num2) by (nonlinear_arith)
        requires
            num1 * den2 == num2 * den1,
    ;
    assert(den2 * den1 == den1 * den2) by (nonlinear_arith);
}

/// The power of two with exponent `e`, one for negative exponents.
pub open spec fn up(e: int) -> nat {
    if e >= 0 {
        pow2(e as nat)
    } else {
        1
    }
}


proof fn lemma_pow2_bound(n: u128, s: nat)
    requires
        pow2(s) <= n,
    ensures
        s < 128,
{
    if s >= 128 {
        assert(pow2(128) == pow2(64) * pow2(64)) by {
            lemma_pow2_adds(64, 64);
        }
        lemma2_to64();
        if s > 128 {
            lemma_pow2_strictly_increases(128, s);
        }
    }
}

proof fn lemma_halving(hi: nat, bit: nat, s: nat, h: nat, d: nat, rest: nat, exact: nat)
    requires
        s > 0,
        h <= 1,
        d > 0,
        exact == ((2 * hi + bit) * pow2(s) + h * pow2((s - 1) as nat)) * d + rest,
        rest < pow2((s - 1) as nat) * d,
    ensures
        exact == (hi * pow2(s + 1) + bit * pow2(s)) * d + (h * pow2((s - 1) as nat) * d + rest),
        h * pow2((s - 1) as nat) * d + rest < pow2(s) * d,
        h * pow2((s - 1) as nat) * d + rest > 0 <==> rest > 0 || h == 1,
{
    let p: nat = pow2((s - 1) as nat);
    lemma_pow2_step((s - 1) as nat);
    lemma_pow2_step(s);
    assert(((2 * hi + bit) * pow2(s) + h * p) * d + rest == (hi * pow2(s + 1) + bit * pow2(s)) * d
        + (h * p * d + rest)) by (nonlinear_arith)
        requires
            pow2(s + 1) == 2 * pow2(s),
    ;
    assert(h * p * d <= p * d && (h == 1 ==> h * p * d > 0) && (h == 0 ==> h * p * d == 0))
        by (nonlinear_arith)
        requires
            h <= 1,
            p > 0,
            d > 0,
    ;
    assert(p * d + p * d == pow2(s) * d) by (nonlinear_arith)
        requires
            pow2(s) == 2 * p,
    ;
}

proof fn lemma_rounding_bits(exact: nat, d: nat, s: nat, hi: nat, h: nat, rest: nat)
    requires
        s > 0,
        d > 0,
        h <= 1,
        exact == (hi * pow2(s) + h * pow2((s - 1) as nat)) * d + rest,
        rest < pow2((s - 1) as nat) * d,
    ensures
        round_half_even(exact, d * pow2(s)) == if h == 1 && (rest > 0 || hi % 2 == 1) {
            hi + 1
        } else {
            hi
        },
        hi * pow2(s) * d <= exact < (hi + 1) * pow2(s) * d,
{
    let p: nat = pow2((s - 1) as nat);
    lemma_pow2_step((s - 1) as nat);
    let den: nat = d * pow2(s);
    let low: nat = h * p * d + rest;
    assert(den > 0 && 2 * (p * d) == den) by (nonlinear_arith)
        requires
            d > 0,
            pow2(s) == 2 * p,
            p > 0,
            den == d * pow2(s),
    ;
    assert(exact == hi * den + low) by (nonlinear_arith)
        requires
            exact == (hi * pow2(s) + h * p) * d + rest,
            den == d * pow2(s),
            low == h * p * d + rest,
    ;
    assert(h == 1 ==> h * p * d == p * d) by (nonlinear_arith);
    assert(h == 0 ==> h * p * d == 0) by (nonlinear_arith);
    lemma_fundamental_div_mod_converse(exact as int, den as int, hi as int, low as int);
    assert(hi * pow2(s) * d == hi * den && (hi + 1) * pow2(s) * d == hi * den + den)
        by (nonlinear_arith)
        requires
            den == d * pow2(s),
    ;
}

pub proof fn lemma_times_one(a: int, p: int)
    requires
        p == 1,
    ensures
        a * p == a,
{
}

pub proof fn lemma_up_pos(e: int)
    ensures
        up(e) > 0,
{
    if e >= 0 {
        lemma_pow2_pos(e as nat);
    }
}

proof fn lemma_parts_whole(n: nat, e: nat, d: nat, hi: nat, x: nat)
    requires
        d > 0,
        hi < SIGNIFICAND,
        hi * pow2(x) == n * pow2(e),
        hi >= LEADING || x == 0,
    ensures
        rounded((n * d) * pow2(e), d) == x * LEADING + hi,
{
    let num: nat = (n * d) * pow2(e);
    let p: nat = pow2(x);
    lemma_pow2_pos(x);
    assert(num == hi * (d * p) + 0 && d * p > 0 && num < d * p * SIGNIFICAND)
        by (nonlinear_arith)
        requires
            num == (n * d) * pow2(e),
            hi * p == n * pow2(e),
            hi < SIGNIFICAND,
            d > 0,
            p > 0,
    ;
    if x > 0 {
        let q: nat = pow2((x - 1) as nat);
        lemma_pow2_step((x - 1) as nat);
        assert(num >= d * q * SIGNIFICAND) by (nonlinear_arith)
            requires
                num == hi * (d * p),
                p == 2 * q,
                hi >= LEADING,
                SIGNIFICAND == 2 * LEADING,
        ;
    }
    lemma_rounded_unroll(num, d, x);
    lemma_fundamental_div_mod_converse(num as int, (d * p) as int, hi as int, 0);
}

proof fn lemma_parts_shifted(exact: nat, e: int, d: nat, s: nat, hi: nat, h: nat, rest: nat)
    requires
        d > 0,
        hi < SIGNIFICAND,
        s > 0,
        e + s >= 0,
        h <= 1,
        exact == (hi * pow2(s) + h * pow2((s - 1) as nat)) * d + rest,
        rest < pow2((s - 1) as nat) * d,
        e + s <= 0 || exact >= SIGNIFICAND * pow2((s - 1) as nat) * d,
    ensures
        rounded(exact * up(e), d * up(-e)) == (e + s) * LEADING + if h == 1 && (rest > 0 || hi % 2
            == 1) {
            hi + 1
        } else {
            hi
        },
{
    let num: nat = exact * up(e);
    let den: nat = d * up(-e);
    let x: nat = (e + s) as nat;
    lemma_rounding_bits(exact, d, s, hi, h, rest);
    lemma_up_pos(e);
    lemma_up_pos(-e);
    lemma_pow2_pos(s);
    assert(den > 0) by (nonlinear_arith)
        requires
            den == d * up(-e),
            d > 0,
            up(-e) > 0,
    ;
    assert(exact < SIGNIFICAND * pow2(s) * d) by (nonlinear_arith)
        requires
            exact < (hi + 1) * pow2(s) * d,
            hi + 1 <= SIGNIFICAND,
    ;
    let k: nat = up(e);
    assert(den * pow2(x) == (d * pow2(s)) * k) by {
        lemma2_to64();
        if e >= 0 {
            lemma_times_one(d as int, up(-e) as int);
            lemma_pow2_adds(e as nat, s);
            assert(d * (pow2(e as nat) * pow2(s)) == (d * pow2(s)) * pow2(e as nat))
                by (nonlinear_arith);
        } else {
            lemma_pow2_adds((-e) as nat, x);
            lemma_times_one((d * pow2(s)) as int, k as int);
            assert((d * pow2((-e) as nat)) * pow2(x) == d * (pow2((-e) as nat) * pow2(x)))
                by (nonlinear_arith);
        }
    }
    assert(num < den * pow2(x) * SIGNIFICAND) by (nonlinear_arith)
        requires
            exact < SIGNIFICAND * pow2(s) * d,
            num == exact * k,
            den * pow2(x) == (d * pow2(s)) * k,
            k > 0,
    ;
    if x > 0 {
        let q: nat = pow2((s - 1) as nat);
        lemma_pow2_step((s - 1) as nat);
        lemma_pow2_step((x - 1) as nat);
        let y: nat = pow2((x - 1) as nat);
        assert(den * y == (d * q) * k) by (nonlinear_arith)
            requires
                den * pow2(x) == (d * pow2(s)) * k,
                pow2(x) == 2 * y,
                pow2(s) == 2 * q,
        ;
        assert(num >= den * y * SIGNIFICAND) by (nonlinear_arith)
            requires
                exact >= SIGNIFICAND * q * d,
                num == exact * k,
                den * y == (d * q) * k,
                k > 0,
        ;
    }
    lemma_rounded_unroll(num, den, x);
    assert(d * pow2(s) > 0) by (nonlinear_arith)
        requires
            d > 0,
            pow2(s) > 0,
    ;
    lemma_half_even_scale(exact, d * pow2(s), k);
    assert(k * exact == num && k * (d * pow2(s)) == den * pow2(x)) by (nonlinear_arith)
        requires
            num == exact * k,
            den * pow2(x) == (d * pow2(s)) * k,
    ;
}

/// The magnitude nearest to `(n + r / d) * 2^e` units, where `inexact` tells whether `r` is
/// positive.
pub(crate) fn round_parts(n: u128, e: i64, inexact: bool, Ghost(d): Ghost<nat>, Ghost(r): Ghost<nat>) -> (mag:
    u64)
    requires
        r < d,
        inexact == (r > 0),
        inexact ==> n >= SIGNIFICAND || e < 0,
        -5000 <= e <= 5000,
    ensures
        mag == nearest((n as nat * d + r) * up(e as int), d * up(-(e as int))),
{
    let ghost exact: nat = n as nat * d + r;
    if n == 0 && !inexact {
        proof {
            let den: nat = d * up(-(e as int));
            assert(exact * up(e as int) == 0) by (nonlinear_arith)
                requires
                    exact == 0 * d + 0,
            ;
            lemma_up_pos(-(e as int));
            assert(den > 0 && 0 < den * SIGNIFICAND) by (nonlinear_arith)
                requires
                    den == d * up(-(e as int)),
                    d > 0,
                    up(-(e as int)) > 0,
            ;
            lemma_fundamental_div_mod_converse(0, den as int, 0, 0);
        }
        return 0;
    }
    let mut hi: u128 = n;
    let mut s: i64 = 0;
    let mut half: bool = false;
    let mut sticky: bool = inexact;
    let ghost mut rest: nat = r;
    proof {
        lemma2_to64();
        lemma_times_one(n as int, pow2(0) as int);
    }
    while hi >= SIGNIFICAND as u128 || e + s < 0
        invariant
            -5000 <= e <= 5000,
            0 <= s <= 5000,
            d > 0,
            exact == n * d + r,
            r < d,
            s == 0 ==> hi == n && !half && rest == r,
            s > 0 ==> exact == (hi * pow2(s as nat) + (if half { 1nat } else { 0nat }) * pow2(
                (s - 1) as nat,
            )) * d + rest && rest < pow2((s - 1) as nat) * d,
            sticky == (rest > 0),
            hi * pow2(s as nat) <= n,
            s > 0 ==> e + s <= 0 || exact >= SIGNIFICAND * pow2((s - 1) as nat) * d,
        decreases hi + (if e + s < 0 { -(e + s) } else { 0 }),
    {
        let ghost old_hi: nat = hi as nat;
        let ghost old_half: nat = if half { 1 } else { 0 };
        let ghost old_s: nat = s as nat;
        proof {
            lemma_pow2_step(s as nat);
            if hi >= SIGNIFICAND {
                assert(hi * pow2(s as nat) >= pow2(s as nat)) by (nonlinear_arith)
                    requires
                        hi >= 1,
                        pow2(s as nat) > 0,
                ;
                lemma_pow2_bound(n, s as nat);
                assert(exact >= SIGNIFICAND * pow2(s as nat) * d) by {
                    if s == 0 {
                        lemma2_to64();
                        assert(n * d >= SIGNIFICAND * pow2(0) * d) by (nonlinear_arith)
                            requires
                                n >= SIGNIFICAND,
                                pow2(0) == 1,
                        ;
                    } else {
                        lemma_rounding_bits(exact, d, s as nat, hi as nat, old_half, rest);
                        assert(hi * pow2(s as nat) * d >= SIGNIFICAND * pow2(s as nat) * d)
                            by (nonlinear_arith)
                            requires
                                hi >= SIGNIFICAND,
                        ;
                    }
                }
            }
        }
        let bit: bool = hi % 2 == 1;
        sticky = sticky || half;
        half = bit;
        hi = hi / 2;
        s = s + 1;
        proof {
            let b: nat = if bit { 1 } else { 0 };
            assert(old_hi == 2 * hi + b);
            if old_s == 0 {
                lemma2_to64();
                assert(n * d == (hi * pow2(1) + b * pow2(0)) * d) by (nonlinear_arith)
                    requires
                        n == 2 * hi + b,
                        pow2(0) == 1,
                        pow2(1) == 2,
                ;
                lemma_times_one(d as int, pow2(0) as int);
                assert(pow2(0) * d == d) by (nonlinear_arith)
                    requires
                        pow2(0) == 1,
                ;
            } else {
                lemma_halving(hi as nat, b, old_s, old_half, d, rest, exact);
                rest = old_half * pow2((old_s - 1) as nat) * d + rest;
            }
            assert(hi * pow2(s as nat) <= old_hi * pow2(old_s)) by (nonlinear_arith)
                requires
                    old_hi == 2 * hi + b,
                    pow2(s as nat) == 2 * pow2(old_s),
            ;
        }
    }
    let mut x: i64 = e + s;
    if s == 0 {
        proof {
            assert(r == 0);
            lemma2_to64();
            lemma_times_one(n as int, pow2(0) as int);
        }
        while hi < LEADING as u128 && x > 0
            invariant
                0 <= x <= e <= 5000,
                hi < SIGNIFICAND,
                hi * pow2(x as nat) == n * pow2(e as nat),
            decreases x,
        {
            proof {
                lemma_pow2_step((x - 1) as nat);
                assert((2 * hi) * pow2((x - 1) as nat) == hi * pow2(x as nat)) by (nonlinear_arith)
                    requires
                        pow2(x as nat) == 2 * pow2((x - 1) as nat),
                ;
            }
            hi = hi * 2;
            x = x - 1;
        }
    }
    let round_up: bool = half && (sticky || hi % 2 == 1);
    let significand: u64 = if round_up {
        hi as u64 + 1
    } else {
        hi as u64
    };
    proof {
        let num: nat = exact * up(e as int);
        let den: nat = d * up(-(e as int));
        if s == 0 {
            assert(n * d + 0 == n * d);
            lemma2_to64();
            lemma_times_one(d as int, up(-(e as int)) as int);
            lemma_parts_whole(n as nat, e as nat, d, hi as nat, x as nat);
        } else {
            lemma_parts_shifted(
                exact,
                e as int,
                d,
                s as nat,
                hi as nat,
                if half {
                    1
                } else {
                    0
                },
                rest,
            );
        }
        assert(rounded(num, den) == x * LEADING + significand);
    }
    if x > 2046 {
        INFINITE
    } else {
        let mag: u64 = x as u64 * LEADING + significand;
        if mag < INFINITE {
            mag
        } else {
            INFINITE
        }
    }
}


/// The units of a magnitude with exponent `k` and significand `m`.
pub proof fn lemma_units_of(k: nat, m: nat)
    requires
        m < SIGNIFICAND,
        k == 0 || m >= LEADING,
    ensures
        units(k * LEADING as nat + m) == m * pow2(k),
    decreases k,
{
    lemma2_to64();
    if k == 0 {
        lemma_times_one(m as int, pow2(0) as int);
    } else {
        assert(k * LEADING as nat + m >= SIGNIFICAND && k * LEADING as nat + m - LEADING == (k - 1)
            * LEADING + m) by (nonlinear_arith)
            requires
                k >= 1,
                m >= LEADING,
                SIGNIFICAND == 2 * LEADING,
        ;
        lemma_units_of((k - 1) as nat, m);
        lemma_pow2_step((k - 1) as nat);
        assert(2 * (m * pow2((k - 1) as nat)) == m * pow2(k)) by (nonlinear_arith)
            requires
                pow2(k) == 2 * pow2((k - 1) as nat),
        ;
    }
}

/// Splits a finite magnitude into a significand and a power of two.
pub(crate) fn split_magnitude(magnitude: u64) -> (parts: (u64, i64))
    requires
        magnitude < INFINITE,
    ensures
        0 <= parts.1 <= 2045,
        parts.0 < SIGNIFICAND,
        parts.1 == 0 || parts.0 >= LEADING,
        units(magnitude as nat) == parts.0 as nat * pow2(parts.1 as nat),
        parts.0 == 0 <==> magnitude == 0,
        parts.1 == if magnitude < SIGNIFICAND { 0 } else { magnitude / LEADING - 1 },
        magnitude == parts.1 * LEADING + parts.0,
{
    if magnitude < SIGNIFICAND {
        proof {
            lemma_units_of(0, magnitude as nat);
        }
        (magnitude, 0)
    } else {
        let k: u64 = magnitude / LEADING - 1;
        let m: u64 = magnitude % LEADING + LEADING;
        proof {
            assert(magnitude == k * LEADING + m);
            lemma_units_of(k as nat, m as nat);
        }
        (m, k as i64)
    }
}

/// Two to the power `e`.
pub(crate) fn power_of_two(e: i64) -> (p: u128)
    requires
        0 <= e <= 120,
    ensures
        p == pow2(e as nat),
        p <= 0x100_0000_0000_0000_0000_0000_0000_0000,
{
    let mut p: u128 = 1;
    let mut i: i64 = 0;
    proof {
        lemma2_to64();
        lemma2_to64_rest();
        lemma_pow2_adds(60, 60);
    }
    while i < e
        invariant
            0 <= i <= e <= 120,
            p == pow2(i as nat),
            pow2(120) == 0x100_0000_0000_0000_0000_0000_0000_0000,
        decreases e - i,
    {
        proof {
            lemma_pow2_step(i as nat);
            if i + 1 < 120 {
                lemma_pow2_strictly_increases((i + 1) as nat, 120);
            }
        }
        p = p * 2;
        i = i + 1;
    }
    proof {
        if e < 120 {
            lemma_pow2_strictly_increases(e as nat, 120);
        }
    }
    p
}

proof fn lemma_aligned(ma: nat, mb: nat, ka: nat, kb: nat)
    requires
        ka >= kb,
    ensures
        ma * pow2((ka - kb) as nat) * pow2(kb) == ma * pow2(ka),
{
    lemma_pow2_adds((ka - kb) as nat, kb);
    assert(ma * pow2((ka - kb) as nat) * pow2(kb) == ma * (pow2((ka - kb) as nat) * pow2(kb)))
        by (nonlinear_arith);
}

/// The magnitude nearest to the sum or the difference of two amounts, the first at least the
/// second where they are subtracted.
fn combine(ma: u64, ka: i64, mb: u64, kb: i64, subtract: bool) -> (mag: u64)
    requires
        ma < SIGNIFICAND,
        mb < SIGNIFICAND,
        0 <= kb <= ka <= 2045,
        ka == kb || ma >= LEADING,
        mb > 0,
        subtract ==> ma as nat * pow2(ka as nat) > mb as nat * pow2(kb as nat),
    ensures
        mag == nearest(
            if subtract {
                (ma as nat * pow2(ka as nat) - mb as nat * pow2(kb as nat)) as nat
            } else {
                ma as nat * pow2(ka as nat) + mb as nat * pow2(kb as nat)
            },
            1,
        ),
{
    let gap: i64 = ka - kb;
    let ghost a: nat = ma as nat * pow2(ka as nat);
    let ghost b: nat = mb as nat * pow2(kb as nat);
    let ghost exact: nat = if subtract {
        (a - b) as nat
    } else {
        a + b
    };
    if gap <= 64 {
        let p: u128 = power_of_two(gap);
        proof {
            lemma2_to64();
            if gap < 64 {
                lemma_pow2_strictly_increases(gap as nat, 64);
            }
            assert(ma as nat * p <= 0x20_0000_0000_0000 * 0x1_0000_0000_0000_0000)
                by (nonlinear_arith)
                requires
                    ma < 0x20_0000_0000_0000,
                    p <= 0x1_0000_0000_0000_0000,
            ;
            lemma_aligned(ma as nat, mb as nat, ka as nat, kb as nat);
            lemma_pow2_pos(kb as nat);
        }
        let wide: u128 = ma as u128 * p;
        if subtract {
            proof {
                assert(wide > mb) by (nonlinear_arith)
                    requires
                        wide * pow2(kb as nat) > mb * pow2(kb as nat),
                        pow2(kb as nat) > 0,
                ;
            }
            let n: u128 = wide - mb as u128;
            proof {
                assert(n as nat * pow2(kb as nat) == exact) by (nonlinear_arith)
                    requires
                        n == wide - mb,
                        exact == wide * pow2(kb as nat) - mb * pow2(kb as nat),
                ;
                assert((n as nat * 1 + 0) * up(kb as int) == exact);
                lemma_down_one(kb as int);
            }
            round_parts(n, kb, false, Ghost(1), Ghost(0))
        } else {
            let n: u128 = wide + mb as u128;
            proof {
                assert(n as nat * pow2(kb as nat) == exact) by (nonlinear_arith)
                    requires
                        n == wide + mb,
                        exact == wide * pow2(kb as nat) + mb * pow2(kb as nat),
                ;
                assert((n as nat * 1 + 0) * up(kb as int) == exact);
                lemma_down_one(kb as int);
            }
            round_parts(n, kb, false, Ghost(1), Ghost(0))
        }
    } else {
        let p: u128 = power_of_two(11);
        proof {
            lemma2_to64();
        }
        let wide: u128 = ma as u128 * p;
        let ghost d: nat = pow2((gap - 11) as nat);
        let ghost shift: nat = (ka - 11) as nat;
        proof {
            lemma2_to64_rest();
            lemma_pow2_strictly_increases(53, (gap - 11) as nat);
            assert(mb < d);
            lemma_pow2_adds((gap - 11) as nat, kb as nat);
            lemma_pow2_adds(11, shift);
            lemma_down_one(ka - 11);
            lemma_times_one(d as int, up(-(ka - 11)) as int);
            // d units of 2^shift make up one step of `wide`
            assert(a * d == (wide * d) * pow2(shift)) by (nonlinear_arith)
                requires
                    a == ma * pow2(ka as nat),
                    pow2(ka as nat) == 2048 * pow2(shift),
                    wide == ma * 2048,
            ;
            assert(b * d == mb * pow2(shift)) by (nonlinear_arith)
                requires
                    b == mb * pow2(kb as nat),
                    pow2(shift) == d * pow2(kb as nat),
            ;
        }
        if subtract {
            let n: u128 = wide - 1;
            proof {
                let r: nat = (d - mb) as nat;
                let num: nat = (n as nat * d + r) * pow2(shift);
                assert(num == exact * d) by (nonlinear_arith)
                    requires
                        num == (n as nat * d + r) * pow2(shift),
                        n == wide - 1,
                        r == d - mb,
                        a * d == (wide * d) * pow2(shift),
                        b * d == mb * pow2(shift),
                        exact == a - b,
                ;
                lemma_nearest_same_quotient(num, d, exact, 1);
            }
            round_parts(n, ka - 11, true, Ghost(d), Ghost((d - mb) as nat))
        } else {
            proof {
                let num: nat = (wide as nat * d + mb as nat) * pow2(shift);
                assert(num == exact * d) by (nonlinear_arith)
                    requires
                        num == (wide as nat * d + mb as nat) * pow2(shift),
                        a * d == (wide * d) * pow2(shift),
                        b * d == mb * pow2(shift),
                        exact == a + b,
                ;
                lemma_nearest_same_quotient(num, d, exact, 1);
            }
            round_parts(wide, ka - 11, true, Ghost(d), Ghost(mb as nat))
        }
    }
}

pub proof fn lemma_down_one(e: int)
    requires
        e >= 0,
    ensures
        up(-e) == 1,
{
    lemma2_to64();
}


proof fn lemma_units_at_least(m: nat)
    ensures
        units(m) >= m,
    decreases m,
{
    if m >= SIGNIFICAND {
        lemma_units_at_least((m - LEADING) as nat);
    }
}

/// A larger magnitude stands for more units.
pub proof fn lemma_units_increase(a: nat, b: nat)
    requires
        a < b,
    ensures
        units(a) < units(b),
    decreases b,
{
    if b >= SIGNIFICAND {
        lemma_units_at_least((b - LEADING) as nat);
        if a >= SIGNIFICAND {
            lemma_units_increase((a - LEADING) as nat, (b - LEADING) as nat);
        }
    }
}

/// A number orders before another exactly when its value is smaller.
pub proof fn law_order_is_by_value(a: Binary64, b: Binary64)
    requires
        a.finite(),
        b.finite(),
    ensures
        a.lt(b) <==> a.value() < b.value(),
        a.le(b) <==> a.value() <= b.value(),
{
    let x: nat = a.magnitude() as nat;
    let y: nat = b.magnitude() as nat;
    if x < y {
        lemma_units_increase(x, y);
    }
    if y < x {
        lemma_units_increase(y, x);
    }
    lemma_units_at_least(x);
    lemma_units_at_least(y);
    assert(units(0) == 0);
}

/// A value that is representable is its own nearest number.
pub proof fn law_representable_is_exact(magnitude: u64)
    requires
        magnitude < INFINITE,
    ensures
        nearest(units(magnitude as nat), 1) == magnitude,
{
    let k: nat = if magnitude < SIGNIFICAND {
        0
    } else {
        (magnitude / LEADING - 1) as nat
    };
    let m: nat = (magnitude - k * LEADING) as nat;
    lemma_units_of(k, m);
    lemma_parts_whole(m, k, 1, m, k);
    assert((m * 1) * pow2(k) == m * pow2(k));
}

proof fn lemma_half_even_order(num1: nat, num2: nat, den: nat)
    requires
        den > 0,
        num1 <= num2,
    ensures
        round_half_even(num1, den) <= round_half_even(num2, den),
{
    lemma_fundamental_div_mod(num1 as int, den as int);
    lemma_fundamental_div_mod(num2 as int, den as int);
    lemma_div_is_ordered(num1 as int, num2 as int, den as int);
    if num1 / den == num2 / den {
        assert(num1 % den <= num2 % den);
    }
}

proof fn lemma_rounded_leading(num: nat, den: nat)
    requires
        den > 0,
        num >= LEADING * den,
    ensures
        rounded(num, den) >= LEADING,
{
    lemma_div_is_ordered((LEADING * den) as int, num as int, den as int);
    lemma_div_by_multiple(LEADING as int, den as int);
}

/// Of two quotients the larger is rounded to no less than the smaller.
pub proof fn law_rounding_keeps_order(num1: nat, num2: nat, den: nat)
    requires
        den > 0,
        num1 <= num2,
    ensures
        rounded(num1, den) <= rounded(num2, den),
        nearest(num1, den) <= nearest(num2, den),
    decreases num2 - den,
{
    if num2 < den * SIGNIFICAND {
        lemma_half_even_order(num1, num2, den);
    } else if num1 < den * SIGNIFICAND {
        assert(den * SIGNIFICAND == LEADING * (2 * den)) by (nonlinear_arith)
            requires
                SIGNIFICAND == 2 * LEADING,
        ;
        lemma_rounded_leading(num2, 2 * den);
        lemma_half_even_order(num1, den * SIGNIFICAND as nat, den);
        lemma_div_by_multiple(SIGNIFICAND as int, den as int);
        lemma_mod_multiples_basic(SIGNIFICAND as int, den as int);
        assert(den * SIGNIFICAND == SIGNIFICAND * den) by (nonlinear_arith);
    } else {
        assert(den * SIGNIFICAND >= den) by (nonlinear_arith)
            requires
                SIGNIFICAND >= 1,
        ;
        law_rounding_keeps_order(num1, num2, 2 * den);
    }
}

/// A quotient of at least a magnitude's units is rounded to that magnitude or one above it, and one
/// of at most as many to that magnitude or one below it.
pub proof fn law_rounding_respects_magnitudes(num: nat, den: nat, magnitude: u64)
    requires
        den > 0,
        magnitude < INFINITE,
    ensures
        num >= units(magnitude as nat) * den ==> nearest(num, den) >= magnitude,
        num <= units(magnitude as nat) * den ==> nearest(num, den) <= magnitude,
{
    let exact: nat = units(magnitude as nat) * den;
    law_representable_is_exact(magnitude);
    lemma_times_one(exact as int, 1);
    lemma_nearest_same_quotient(exact, den, units(magnitude as nat), 1);
    if num >= exact {
        law_rounding_keeps_order(exact, num, den);
    }
    if num <= exact {
        law_rounding_keeps_order(num, exact, den);
    }
}

proof fn lemma_scaled(n: nat, e: nat) -> (magnitude: nat)
    requires
        0 < n < SIGNIFICAND,
    ensures
        units(magnitude) == n * pow2(e),
        magnitude <= (e + 2) * LEADING,
    decreases e,
{
    if e == 0 {
        lemma2_to64();
        lemma_times_one(n as int, pow2(0) as int);
        n
    } else if n >= LEADING {
        lemma_units_of(e, n);
        assert((e + 2) * LEADING == e * LEADING as nat + SIGNIFICAND) by (nonlinear_arith)
            requires
                SIGNIFICAND == 2 * LEADING,
        ;
        e * LEADING as nat + n
    } else {
        let magnitude = lemma_scaled(2 * n, (e - 1) as nat);
        lemma_pow2_unfold(e);
        assert((2 * n) * pow2((e - 1) as nat) == n * pow2(e)) by (nonlinear_arith)
            requires
                pow2(e) == 2 * pow2((e - 1) as nat),
        ;
        assert((e - 1 + 2) * LEADING <= (e + 2) * LEADING) by (nonlinear_arith);
        magnitude
    }
}

/// A whole number of at most fifty-three bits is exact.
pub proof fn law_small_whole_is_exact(n: nat)
    requires
        n < SIGNIFICAND,
    ensures
        Binary64::whole(n).finite(),
        !Binary64::whole(n).negative(),
        units(Binary64::whole(n).magnitude() as nat) == n * pow2(1074),
{
    if n == 0 {
        assert(0 * pow2(1074) == 0);
        law_representable_is_exact(0);
    } else {
        let magnitude = lemma_scaled(n, 1074);
        law_representable_is_exact(magnitude as u64);
    }
}

/// One has as many units as a number has fractions.
pub proof fn lemma_units_of_one()
    ensures
        units(0x3ff0_0000_0000_0000) == pow2(1074),
{
    lemma_units_of(1022, LEADING as nat);
    lemma_pow2_adds(52, 1022);
    lemma2_to64_rest();
}

proof fn lemma_next_is_near(magnitude: nat)
    requires
        magnitude >= 4,
    ensures
        4 * units(magnitude + 1) <= 5 * units(magnitude),
    decreases magnitude,
{
    if magnitude + 1 >= SIGNIFICAND {
        if magnitude >= SIGNIFICAND {
            lemma_next_is_near((magnitude - LEADING) as nat);
        } else {
            assert(units(LEADING as nat) == LEADING);
        }
    }
}

/// A positive number times five quarters or more is larger, if it has room to grow.
pub proof fn law_growth_shows(a: Binary64, grown: Binary64, factor: Binary64)
    requires
        a.finite() && !a.negative() && a.magnitude() >= 4,
        !grown.nan() && !grown.negative() && grown.magnitude() >= a.magnitude(),
        factor.finite() && !factor.negative(),
        4 * units(factor.magnitude() as nat) >= 5 * pow2(1074),
    ensures
        a.lt(grown.product(factor)),
{
    lemma_pow2_pos(1074);
    assert(factor.magnitude() > 0);
    if grown.finite() {
        let p: nat = pow2(1074);
        let u: nat = units(a.magnitude() as nat);
        let g: nat = units(grown.magnitude() as nat);
        let f: nat = units(factor.magnitude() as nat);
        if grown.magnitude() > a.magnitude() {
            lemma_units_increase(a.magnitude() as nat, grown.magnitude() as nat);
        }
        lemma_next_is_near(a.magnitude() as nat);
        let next: nat = units(a.magnitude() as nat + 1);
        assert(g * f >= next * p) by (nonlinear_arith)
            requires
                g >= u,
                4 * f >= 5 * p,
                5 * u >= 4 * next,
        ;
        if a.magnitude() + 1 < INFINITE {
            law_rounding_respects_magnitudes(g * f, p, (a.magnitude() + 1) as u64);
        } else {
            lemma_past_the_largest(g * f, p);
        }
    }
}

proof fn lemma_past_the_largest(num: nat, den: nat)
    requires
        den > 0,
        num >= units(INFINITE as nat) * den,
    ensures
        nearest(num, den) == INFINITE,
{
    lemma_units_of(2046, LEADING as nat);
    assert(num >= den * pow2(2045) * SIGNIFICAND) by {
        lemma_pow2_unfold(2046);
        assert(units(INFINITE as nat) * den == den * pow2(2045) * SIGNIFICAND) by (nonlinear_arith)
            requires
                units(INFINITE as nat) == LEADING as nat * pow2(2046),
                pow2(2046) == 2 * pow2(2045),
                SIGNIFICAND == 2 * LEADING,
        ;
    }
    lemma_rounded_step(num, den, 2046);
}

proof fn lemma_rounded_step(num: nat, den: nat, steps: nat)
    requires
        den > 0,
        steps > 0,
        num >= den * pow2((steps - 1) as nat) * SIGNIFICAND,
    ensures
        rounded(num, den) >= (steps + 1) * LEADING,
    decreases steps,
{
    lemma_pow2_pos((steps - 1) as nat);
    assert(den * pow2((steps - 1) as nat) * SIGNIFICAND >= den * SIGNIFICAND) by (nonlinear_arith)
        requires
            pow2((steps - 1) as nat) >= 1,
    ;
    assert((steps + 1) * LEADING == steps * LEADING + LEADING) by (nonlinear_arith);
    if steps == 1 {
        assert(den * SIGNIFICAND == LEADING * (2 * den)) by (nonlinear_arith)
            requires
                SIGNIFICAND == 2 * LEADING,
        ;
        lemma_rounded_leading(num, 2 * den);
    } else {
        lemma_pow2_unfold((steps - 1) as nat);
        assert((2 * den) * pow2((steps - 2) as nat) == den * pow2((steps - 1) as nat))
            by (nonlinear_arith)
            requires
                pow2((steps - 1) as nat) == 2 * pow2((steps - 2) as nat),
        ;
        lemma_rounded_step(num, 2 * den, (steps - 1) as nat);
    }
}

/// Adding a number that is not negative to another such number gives no less than either had.
pub proof fn law_adding_does_not_shrink(a: Binary64, b: Binary64)
    requires
        !a.nan() && !b.nan(),
        !a.negative() && !b.negative(),
    ensures
        !a.sum(b).nan(),
        !a.sum(b).negative(),
        a.sum(b).magnitude() >= a.magnitude(),
        a.sum(b).magnitude() >= b.magnitude(),
{
    if a.finite() && b.finite() {
        let exact: nat = units(a.magnitude() as nat) + units(b.magnitude() as nat);
        lemma_times_one(units(a.magnitude() as nat) as int, 1);
        lemma_times_one(units(b.magnitude() as nat) as int, 1);
        law_rounding_respects_magnitudes(exact, 1, a.magnitude());
        law_rounding_respects_magnitudes(exact, 1, b.magnitude());
        lemma_units_at_least(a.magnitude() as nat);
        lemma_units_at_least(b.magnitude() as nat);
    }
}

/// Adding zero to a number that is neither zero nor undefined leaves it as it is.
pub proof fn law_zero_is_neutral(a: Binary64, zero: Binary64)
    requires
        !a.nan(),
        a.magnitude() > 0,
        zero.magnitude() == 0,
    ensures
        a.sum(zero) == a,
        zero.sum(a) == a,
{
    if a.finite() {
        law_representable_is_exact(a.magnitude());
        lemma_units_at_least(a.magnitude() as nat);
    }
}

/// A number added to two others leaves them in their order, unless a sum is undefined.
pub proof fn law_adding_keeps_order(a: Binary64, b: Binary64, c: Binary64)
    requires
        a.le(b),
        !a.sum(c).nan(),
        !b.sum(c).nan(),
    ensures
        a.sum(c).le(b.sum(c)),
{
    if a.finite() && b.finite() && c.finite() {
        law_order_is_by_value(a, b);
        let low = a.value() + c.value();
        let high = b.value() + c.value();
        if low < 0 && high < 0 {
            law_rounding_keeps_order((-high) as nat, (-low) as nat, 1);
        } else if low > 0 {
            law_rounding_keeps_order(low as nat, high as nat, 1);
        }
    }
}

/// A number that is not negative multiplies two such numbers so that they keep their order, unless a
/// product is undefined.
pub proof fn law_multiplying_keeps_order(a: Binary64, b: Binary64, c: Binary64)
    requires
        a.le(b),
        !a.negative() && !b.negative() && !c.negative(),
        !a.product(c).nan(),
        !b.product(c).nan(),
    ensures
        !a.product(c).negative(),
        !b.product(c).negative(),
        a.product(c).le(b.product(c)),
{
    if a.finite() && b.finite() && c.finite() {
        lemma_pow2_pos(1074);
        let low: nat = units(a.magnitude() as nat);
        let high: nat = units(b.magnitude() as nat);
        let by: nat = units(c.magnitude() as nat);
        law_order_is_by_value(a, b);
        assert(low * by <= high * by) by (nonlinear_arith)
            requires
                low <= high,
        ;
        law_rounding_keeps_order(low * by, high * by, pow2(1074));
    }
}

/// A number that is not negative divides two such numbers so that they keep their order, unless a
/// quotient is undefined.
pub proof fn law_dividing_keeps_order(a: Binary64, b: Binary64, c: Binary64)
    requires
        a.le(b),
        !a.negative() && !b.negative() && !c.negative(),
        !a.quotient(c).nan(),
        !b.quotient(c).nan(),
    ensures
        !a.quotient(c).negative(),
        !b.quotient(c).negative(),
        a.quotient(c).le(b.quotient(c)),
{
    if a.finite() && b.finite() && c.finite() && c.magnitude() > 0 {
        lemma_units_at_least(c.magnitude() as nat);
        let low: nat = units(a.magnitude() as nat);
        let high: nat = units(b.magnitude() as nat);
        law_order_is_by_value(a, b);
        assert(low * pow2(1074) <= high * pow2(1074)) by (nonlinear_arith)
            requires
                low <= high,
        ;
        law_rounding_keeps_order(
            low * pow2(1074),
            high * pow2(1074),
            units(c.magnitude() as nat),
        );
    }
}

/// Of two numbers that are not negative the larger has no smaller whole number nearest to it.
pub proof fn law_nearest_whole_keeps_order(a: Binary64, b: Binary64)
    requires
        a.le(b),
        !a.negative() && !b.negative(),
    ensures
        0 <= a.nearest_i32() <= b.nearest_i32(),
{
    lemma_pow2_pos(1074);
    let p: nat = pow2(1074);
    if a.finite() {
        let low: nat = 2 * units(a.magnitude() as nat) + p;
        assert((low as int) / (2 * p as int) >= 0) by {
            lemma_div_pos_is_pos(low as int, 2 * p as int);
        }
        if b.finite() {
            let high: nat = 2 * units(b.magnitude() as nat) + p;
            law_order_is_by_value(a, b);
            lemma_div_is_ordered(low as int, high as int, 2 * p as int);
        }
    }
}

pub proof fn lemma_half_even_error(num: nat, den: nat)
    requires
        den > 0,
    ensures
        -den <= 2 * (round_half_even(num, den) * den - num) <= den,
{
    lemma_fundamental_div_mod(num as int, den as int);
    let low: nat = num / den;
    assert((low + 1) * den == low * den + den && low * den == den * low) by (nonlinear_arith);
}

proof fn lemma_rounded_error(num: nat, den: nat)
    requires
        den > 0,
    ensures
        num < den * SIGNIFICAND ==> -den <= 2 * (units(rounded(num, den)) * den - num) <= den,
        num >= den * SIGNIFICAND ==> -num <= SIGNIFICAND * (units(rounded(num, den)) * den - num)
            <= num,
    decreases num - den,
{
    if num < den * SIGNIFICAND {
        lemma_half_even_error(num, den);
        let r: nat = rounded(num, den);
        assert(r <= SIGNIFICAND) by {
            lemma_half_even_order(num, den * SIGNIFICAND as nat, den);
            lemma_div_by_multiple(SIGNIFICAND as int, den as int);
            lemma_mod_multiples_basic(SIGNIFICAND as int, den as int);
            assert(den * SIGNIFICAND == SIGNIFICAND * den) by (nonlinear_arith);
        }
        if r == SIGNIFICAND {
            assert(units((SIGNIFICAND - LEADING) as nat) == LEADING);
        }
        assert(units(r) == r);
    } else {
        assert(den * SIGNIFICAND == LEADING * (2 * den) && den * SIGNIFICAND >= den)
            by (nonlinear_arith)
            requires
                SIGNIFICAND == 2 * LEADING,
                LEADING >= 1,
        ;
        lemma_rounded_leading(num, 2 * den);
        lemma_rounded_error(num, 2 * den);
        let r: nat = rounded(num, 2 * den);
        assert(units(LEADING as nat + r) == 2 * units(r));
        let u: nat = units(r);
        assert((2 * u) * den == u * (2 * den)) by (nonlinear_arith);
        let error: int = u * (2 * den) - num;
        if num < (2 * den) * SIGNIFICAND {
            assert(-den <= error <= den);
            assert(-num <= SIGNIFICAND * error <= num) by (nonlinear_arith)
                requires
                    -den <= error <= den,
                    num >= den * SIGNIFICAND,
                    SIGNIFICAND > 0,
            ;
        }
    }
}

/// Rounding is off by half a unit at most, or where units are finer than the significand by no more
/// than one part of its range.
pub proof fn law_rounding_is_close(num: nat, den: nat)
    requires
        den > 0,
        nearest(num, den) < INFINITE,
    ensures
        num < den * SIGNIFICAND ==> -den <= 2 * (units(nearest(num, den) as nat) * den - num)
            <= den,
        num >= den * SIGNIFICAND ==> -num <= SIGNIFICAND * (units(nearest(num, den) as nat) * den
            - num) <= num,
{
    lemma_rounded_error(num, den);
}

/// A proper fraction of at least a quarter rounds to the nearest of its magnitudes, which are as fine
/// as the significand.
pub proof fn lemma_fraction(num: nat, den: nat, exponent: nat, leading: nat)
    requires
        0 < den,
        exponent <= 1021,
        den * SIGNIFICAND <= num * pow2((1074 - exponent + 1) as nat),
        num * pow2((1074 - exponent) as nat) < den * SIGNIFICAND,
        exponent > 0,
        leading == round_half_even(num * pow2((1074 - exponent) as nat), den),
    ensures
        nearest(num * pow2(1074), den) == exponent * LEADING + leading,
{
    let fine: nat = pow2((1074 - exponent) as nat);
    let step: nat = pow2(exponent);
    lemma_pow2_adds((1074 - exponent) as nat, exponent);
    lemma_pow2_pos(exponent);
    assert(num * pow2(1074) == step * (num * fine)) by (nonlinear_arith)
        requires
            pow2(1074) == fine * step,
    ;
    let whole: nat = num * pow2(1074);
    assert(whole < den * step * SIGNIFICAND) by (nonlinear_arith)
        requires
            whole == step * (num * fine),
            num * fine < den * SIGNIFICAND,
            step > 0,
    ;
    lemma_pow2_step((exponent - 1) as nat);
    let half: nat = pow2((exponent - 1) as nat);
    lemma_pow2_step((1074 - exponent) as nat);
    assert(whole >= den * half * SIGNIFICAND) by (nonlinear_arith)
        requires
            whole == step * (num * fine),
            step == 2 * half,
            den * SIGNIFICAND <= num * (2 * fine),
            half > 0,
    ;
    lemma_rounded_unroll(whole, den, exponent);
    lemma_half_even_scale(num * fine, den, step);
    assert(step * den == den * step) by (nonlinear_arith);
    assert(leading <= SIGNIFICAND) by {
        lemma_half_even_order(num * fine, den * SIGNIFICAND as nat, den);
        lemma_div_by_multiple(SIGNIFICAND as int, den as int);
        lemma_mod_multiples_basic(SIGNIFICAND as int, den as int);
        assert(den * SIGNIFICAND == SIGNIFICAND * den) by (nonlinear_arith);
    }
    assert(exponent * LEADING <= 1021 * LEADING) by (nonlinear_arith)
        requires
            exponent <= 1021,
    ;
}

/// The order of two summands does not matter.
pub proof fn law_sum_commutes(a: Binary64, b: Binary64)
    ensures
        a.sum(b) == b.sum(a),
{
}

impl Binary64 {
    /// The number with this bit pattern.
    pub fn from_bits(bits: u64) -> (x: Binary64)
        ensures
            x.bits == bits,
    {
        Binary64 { bits }
    }

    /// Negative zero.
    pub fn negative_zero() -> (x: Binary64)
        ensures
            x.bits == SIGN,
    {
        Binary64 { bits: SIGN }
    }

    /// Positive zero.
    pub fn zero() -> (x: Binary64)
        ensures
            x.bits == 0,
    {
        Binary64 { bits: 0 }
    }

    pub fn is_negative(self) -> (b: bool)
        ensures
            b == self.negative(),
    {
        self.bits >= SIGN
    }

    pub(crate) fn size(self) -> (m: u64)
        ensures
            m == self.magnitude(),
            m < SIGN,
    {
        if self.bits >= SIGN {
            self.bits - SIGN
        } else {
            self.bits
        }
    }

    pub(crate) fn with_sign(negative: bool, magnitude: u64) -> (x: Binary64)
        requires
            magnitude < SIGN,
        ensures
            x == signed(negative, magnitude),
    {
        if negative {
            Binary64 { bits: magnitude + SIGN }
        } else {
            Binary64 { bits: magnitude }
        }
    }

    pub fn is_nan(self) -> (b: bool)
        ensures
            b == self.nan(),
    {
        self.size() > INFINITE
    }

    pub fn is_finite(self) -> (b: bool)
        ensures
            b == self.finite(),
    {
        self.size() < INFINITE
    }

    /// Whether this number is below the other; false where either is not a number.
    pub fn is_below(self, other: Binary64) -> (b: bool)
        ensures
            b == self.lt(other),
    {
        if self.is_nan() || other.is_nan() {
            false
        } else if self.is_negative() {
            if other.is_negative() {
                self.size() > other.size()
            } else {
                self.size() > 0 || other.size() > 0
            }
        } else if other.is_negative() {
            false
        } else {
            self.size() < other.size()
        }
    }

    /// Whether this number is at most the other; false where either is not a number.
    pub fn is_at_most(self, other: Binary64) -> (b: bool)
        ensures
            b == self.le(other),
    {
        !self.is_nan() && !other.is_nan() && !other.is_below(self)
    }

    /// The larger of two numbers, ignoring one that is not a number.
    pub fn max(self, other: Binary64) -> (m: Binary64)
        ensures
            m == self.larger(other),
    {
        if self.is_nan() || self.is_below(other) {
            other
        } else {
            self
        }
    }

    /// The smaller of two numbers, ignoring one that is not a number.
    pub fn min(self, other: Binary64) -> (m: Binary64)
        ensures
            m == self.smaller(other),
    {
        if self.is_nan() || other.is_below(self) {
            other
        } else {
            self
        }
    }

    /// The sum of two numbers.
    pub fn plus(self, other: Binary64) -> (r: Binary64)
        ensures
            r == self.sum(other),
    {
        if self.is_nan() || other.is_nan() {
            return Binary64 { bits: NOT_A_NUMBER };
        }
        let a: u64 = self.size();
        let b: u64 = other.size();
        if a == INFINITE {
            if b == INFINITE && self.is_negative() != other.is_negative() {
                return Binary64 { bits: NOT_A_NUMBER };
            }
            return self;
        }
        if b == INFINITE {
            return other;
        }
        proof {
            lemma_units_at_least(a as nat);
            lemma_units_at_least(b as nat);
            assert(units(0) == 0);
        }
        if b == 0 {
            if a == 0 {
                return Binary64::with_sign(self.is_negative() && other.is_negative(), 0);
            }
            proof {
                law_zero_is_neutral(self, other);
            }
            return self;
        }
        if a == 0 {
            proof {
                law_zero_is_neutral(other, self);
            }
            return other;
        }
        let (ma, ka) = split_magnitude(a);
        let (mb, kb) = split_magnitude(b);
        if self.is_negative() == other.is_negative() {
            let sum: u64 = if ka >= kb {
                combine(ma, ka, mb, kb, false)
            } else {
                combine(mb, kb, ma, ka, false)
            };
            Binary64::with_sign(self.is_negative(), sum)
        } else if a == b {
            Binary64::with_sign(false, 0)
        } else if a > b {
            proof {
                lemma_units_increase(b as nat, a as nat);
            }
            Binary64::with_sign(self.is_negative(), combine(ma, ka, mb, kb, true))
        } else {
            proof {
                lemma_units_increase(a as nat, b as nat);
            }
            Binary64::with_sign(other.is_negative(), combine(mb, kb, ma, ka, true))
        }
    }

    /// The number with the opposite sign.
    pub fn negated(self) -> (r: Binary64)
        ensures
            r == self.opposite(),
    {
        Binary64::with_sign(!self.is_negative(), self.size())
    }

    /// The difference of two numbers.
    pub fn minus(self, other: Binary64) -> (r: Binary64)
        ensures
            r == self.difference(other),
    {
        self.plus(other.negated())
    }

    /// The product of two numbers.
    pub fn times(self, other: Binary64) -> (r: Binary64)
        ensures
            r == self.product(other),
    {
        if self.is_nan() || other.is_nan() {
            return Binary64 { bits: NOT_A_NUMBER };
        }
        let a: u64 = self.size();
        let b: u64 = other.size();
        let negative: bool = self.is_negative() != other.is_negative();
        if a == INFINITE || b == INFINITE {
            if a == 0 || b == 0 {
                return Binary64 { bits: NOT_A_NUMBER };
            }
            return Binary64::with_sign(negative, INFINITE);
        }
        let (ma, ka) = split_magnitude(a);
        let (mb, kb) = split_magnitude(b);
        proof {
            assert(ma as nat * mb as nat <= 0x20_0000_0000_0000 * 0x20_0000_0000_0000)
                by (nonlinear_arith)
                requires
                    ma < 0x20_0000_0000_0000,
                    mb < 0x20_0000_0000_0000,
            ;
        }
        let n: u128 = ma as u128 * mb as u128;
        let e: i64 = ka + kb - 1074;
        proof {
            let num: nat = (n as nat * 1 + 0) * up(e as int);
            let den: nat = 1 * up(-(e as int));
            let exact: nat = units(a as nat) * units(b as nat);
            lemma_pow2_pos(1074);
            lemma_up_pos(-(e as int));
            lemma_balance(ka + kb, 1074, e as int);
            lemma_pow2_adds(ka as nat, kb as nat);
            assert(exact == n as nat * pow2((ka + kb) as nat)) by (nonlinear_arith)
                requires
                    exact == (ma as nat * pow2(ka as nat)) * (mb as nat * pow2(kb as nat)),
                    n as nat == ma as nat * mb as nat,
                    pow2((ka + kb) as nat) == pow2(ka as nat) * pow2(kb as nat),
            ;
            assert(num * pow2(1074) == exact * den) by (nonlinear_arith)
                requires
                    num == n as nat * up(e as int),
                    den == up(-(e as int)),
                    exact == n as nat * pow2((ka + kb) as nat),
                    up(e as int) * pow2(1074) == pow2((ka + kb) as nat) * up(-(e as int)),
            ;
            lemma_nearest_same_quotient(num, den, exact, pow2(1074));
        }
        Binary64::with_sign(negative, round_parts(n, e, false, Ghost(1), Ghost(0)))
    }

    /// The quotient of two numbers.
    pub fn over(self, other: Binary64) -> (r: Binary64)
        ensures
            r == self.quotient(other),
    {
        let a: u64 = self.size();
        let b: u64 = other.size();
        let negative: bool = self.is_negative() != other.is_negative();
        if self.is_nan() || other.is_nan() || (a == INFINITE && b == INFINITE) || (a == 0 && b
            == 0) {
            return Binary64 { bits: NOT_A_NUMBER };
        }
        if a == INFINITE || b == 0 {
            return Binary64::with_sign(negative, INFINITE);
        }
        if b == INFINITE {
            return Binary64::with_sign(negative, 0);
        }
        let (ma, ka) = split_magnitude(a);
        let (mb, kb) = split_magnitude(b);
        let ghost den: nat = units(b as nat);
        let ghost num: nat = units(a as nat) * pow2(1074);
        proof {
            lemma_units_at_least(b as nat);
        }
        if a == 0 {
            proof {
                assert(units(0) == 0);
                assert(num == 0) by (nonlinear_arith)
                    requires
                        num == 0 * pow2(1074),
                ;
                lemma_fundamental_div_mod_converse(0, den as int, 0, 0);
            }
            return Binary64::with_sign(negative, 0);
        }
        let mut m: u64 = ma;
        let mut k: i64 = ka;
        proof {
            lemma2_to64();
            lemma_pow2_adds(ka as nat, 60);
        }
        while m < LEADING
            invariant
                0 < m < SIGNIFICAND,
                ka - 60 <= k <= ka,
                0 <= ka <= 2045,
                m as nat * pow2((k + 60) as nat) == ma as nat * pow2((ka + 60) as nat),
                m as nat >= pow2((ka - k) as nat),
            decreases k - ka + 60,
        {
            proof {
                lemma_pow2_step((ka - k) as nat);
                if ka - k >= 53 {
                    lemma2_to64_rest();
                    if ka - k > 53 {
                        lemma_pow2_strictly_increases(53, (ka - k) as nat);
                    }
                }
                lemma_pow2_step((k + 59) as nat);
                assert((2 * m as nat) * pow2((k + 59) as nat) == m as nat * pow2((k + 60) as nat))
                    by (nonlinear_arith)
                    requires
                        pow2((k + 60) as nat) == 2 * pow2((k + 59) as nat),
                ;
            }
            m = m * 2;
            k = k - 1;
        }
        let p: u128 = power_of_two(56);
        proof {
            lemma2_to64_rest();
        }
        let wide: u128 = m as u128 * p;
        let n: u128 = wide / mb as u128;
        let r: u128 = wide % mb as u128;
        let e: i64 = k - 56 - kb + 1074;
        proof {
            let d: nat = mb as nat;
            lemma_fundamental_div_mod(wide as int, mb as int);
            assert(n as nat * d + r as nat == wide as nat) by (nonlinear_arith)
                requires
                    wide as int == mb as int * n as int + r as int,
                    d == mb as nat,
            ;
            assert(n >= SIGNIFICAND) by (nonlinear_arith)
                requires
                    wide == m * 0x100_0000_0000_0000,
                    m >= LEADING,
                    wide == mb * n + r,
                    r < mb < SIGNIFICAND,
                    LEADING == 0x10_0000_0000_0000,
                    SIGNIFICAND == 0x20_0000_0000_0000,
            ;
            let num2: nat = wide as nat * up(e as int);
            let den2: nat = d * up(-(e as int));
            lemma_up_pos(-(e as int));
            lemma_pow2_pos(60);
            lemma_pow2_pos(56);
            assert(den2 > 0) by (nonlinear_arith)
                requires
                    den2 == d * up(-(e as int)),
                    d > 0,
                    up(-(e as int)) > 0,
            ;
            lemma_balance(k + 60 + 1074, kb + 56 + 60, e as int);
            lemma_pow2_adds((k + 60) as nat, 1074);
            lemma_pow2_adds((ka + 60) as nat, 1074);
            lemma_pow2_adds(ka as nat, 60);
            lemma_pow2_adds(kb as nat, 56);
            lemma_pow2_adds((kb + 56) as nat, 60);
            lemma_quotient_balance(
                m as nat,
                ma as nat,
                d,
                wide as nat,
                pow2((k + 60) as nat),
                pow2(ka as nat),
                pow2((ka + 60) as nat),
                pow2(60),
                pow2(1074),
                pow2(kb as nat),
                pow2(56),
                up(e as int),
                up(-(e as int)),
            );
            assert(num2 * den == num * den2) by {
                assert(num2 == (wide as nat) * up(e as int));
                assert(den == d * pow2(kb as nat));
                assert(num == (ma as nat * pow2(ka as nat)) * pow2(1074));
            }
            lemma_nearest_same_quotient(num2, den2, num, den);
        }
        Binary64::with_sign(
            negative,
            round_parts(n, e, r != 0, Ghost(mb as nat), Ghost(r as nat)),
        )
    }

    /// The number nearest to a whole number.
    pub fn from_whole(n: u64) -> (x: Binary64)
        ensures
            x == Binary64::whole(n as nat),
    {
        proof {
            lemma_down_one(1074);
            assert((n as nat * 1 + 0) * up(1074) == n as nat * pow2(1074));
        }
        Binary64::with_sign(false, round_parts(n as u128, 1074, false, Ghost(1), Ghost(0)))
    }
}

proof fn lemma_away(m: nat, k: nat)
    requires
        k < 1074,
    ensures
        (2 * (m * pow2(k)) + pow2(1074)) / (2 * pow2(1074)) == (2 * m + pow2((1074 - k) as nat)) / (
        2 * pow2((1074 - k) as nat)),
{
    let p: nat = pow2((1074 - k) as nat);
    let c: nat = pow2(k);
    lemma_pow2_pos(k);
    lemma_pow2_pos((1074 - k) as nat);
    lemma_pow2_adds((1074 - k) as nat, k);
    let x: nat = 2 * m + p;
    let d: nat = 2 * p;
    let q: nat = x / d;
    let r: nat = x % d;
    lemma_fundamental_div_mod(x as int, d as int);
    assert(2 * (m * c) + pow2(1074) == q * (2 * pow2(1074)) + r * c && r * c < 2 * pow2(1074))
        by (nonlinear_arith)
        requires
            x == 2 * m + p,
            d == 2 * p,
            x == d * q + r,
            r < d,
            c > 0,
            pow2(1074) == p * c,
    ;
    lemma_fundamental_div_mod_converse(
        (2 * (m * c) + pow2(1074)) as int,
        (2 * pow2(1074)) as int,
        q as int,
        (r * c) as int,
    );
}

proof fn lemma_away_large(m: nat, k: nat)
    requires
        m >= LEADING,
        k >= 1074,
    ensures
        (2 * (m * pow2(k)) + pow2(1074)) / (2 * pow2(1074)) >= LEADING,
{
    let p: nat = pow2(1074);
    let c: nat = pow2((k - 1074) as nat);
    lemma_pow2_pos((k - 1074) as nat);
    lemma_pow2_pos(1074);
    lemma_pow2_adds((k - 1074) as nat, 1074);
    let x: nat = 2 * (m * pow2(k)) + p;
    assert(x == (m * c) * (2 * p) + p && m * c >= LEADING) by (nonlinear_arith)
        requires
            x == 2 * (m * pow2(k)) + p,
            pow2(k) == c * p,
            c >= 1,
            m >= LEADING,
    ;
    lemma_fundamental_div_mod_converse(x as int, (2 * p) as int, (m * c) as int, p as int);
}

impl Binary64 {
    /// The nearest whole number, halves away from zero, brought into the range of `i32`;
    /// zero for what is not a number.
    pub fn round_to_i32(self) -> (n: i32)
        ensures
            n == self.nearest_i32(),
    {
        if self.is_nan() {
            return 0;
        }
        let a: u64 = self.size();
        let negative: bool = self.is_negative();
        if a == INFINITE {
            return if negative {
                i32::MIN
            } else {
                i32::MAX
            };
        }
        let (m, k) = split_magnitude(a);
        let away: u128 = if k >= 1074 {
            proof {
                lemma_away_large(m as nat, k as nat);
            }
            return if negative {
                i32::MIN
            } else {
                i32::MAX
            };
        } else if k < 1020 {
            proof {
                let p: nat = pow2((1074 - k) as nat);
                lemma2_to64_rest();
                if k < 1019 {
                    lemma_pow2_strictly_increases(55, (1074 - k) as nat);
                }
                lemma_away(m as nat, k as nat);
                lemma_fundamental_div_mod_converse(
                    (2 * m + p) as int,
                    (2 * p) as int,
                    0,
                    (2 * m + p) as int,
                );
            }
            0
        } else {
            let p: u128 = power_of_two(1074 - k);
            proof {
                lemma_away(m as nat, k as nat);
                lemma_pow2_pos((1074 - k) as nat);
                lemma2_to64_rest();
                if k > 1020 {
                    lemma_pow2_strictly_increases((1074 - k) as nat, 54);
                }
            }
            (2 * m as u128 + p) / (2 * p)
        };
        if negative {
            if away > 0x8000_0000 {
                i32::MIN
            } else {
                (-(away as i64)) as i32
            }
        } else if away > 0x7fff_ffff {
            i32::MAX
        } else {
            away as i32
        }
    }
}

pub proof fn lemma_balance(a: int, b: int, e: int)
    requires
        a >= 0,
        b >= 0,
        e == a - b,
    ensures
        up(e) * pow2(b as nat) == pow2(a as nat) * up(-e),
{
    lemma2_to64();
    if e >= 0 {
        lemma_pow2_adds(e as nat, b as nat);
        lemma_times_one(pow2(a as nat) as int, up(-e) as int);
    } else {
        lemma_pow2_adds((-e) as nat, a as nat);
        assert(pow2((-e) as nat) * pow2(a as nat) == pow2(a as nat) * pow2((-e) as nat))
            by (nonlinear_arith);
        assert(up(e) * pow2(b as nat) == pow2(b as nat));
    }
}

proof fn lemma_quotient_balance(
    m: nat,
    ma: nat,
    d: nat,
    wide: nat,
    pk60: nat,
    pka: nat,
    pka60: nat,
    p60: nat,
    p1074: nat,
    pkb: nat,
    p56: nat,
    ue: nat,
    de: nat,
)
    requires
        wide == m * p56,
        m * pk60 == ma * pka60,
        pka60 == pka * p60,
        p60 > 0,
        p56 > 0,
        ue * (pkb * p56 * p60) == pk60 * p1074 * de,
    ensures
        (wide * ue) * (d * pkb) == ((ma * pka) * p1074) * (d * de),
{
    let x: nat = (wide * ue) * (d * pkb);
    let y: nat = ((ma * pka) * p1074) * (d * de);
    assert(x * p60 == (m * d) * (ue * (pkb * p56 * p60))) by (nonlinear_arith)
        requires
            x == (wide * ue) * (d * pkb),
            wide == m * p56,
    ;
    assert((m * d) * (pk60 * p1074 * de) == (m * pk60) * (d * p1074 * de)) by (nonlinear_arith);
    assert((ma * (pka * p60)) * (d * p1074 * de) == y * p60) by (nonlinear_arith)
        requires
            y == ((ma * pka) * p1074) * (d * de),
    ;
    assert(x == y) by (nonlinear_arith)
        requires
            x * p60 == y * p60,
            p60 > 0,
    ;
}

} // verus!
