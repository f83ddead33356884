//! Decimal text of double-precision numbers.
use vstd::arithmetic::div_mod::*;
use vstd::arithmetic::power2::*;
use vstd::prelude::*;

use crate::binary64::{Binary64, INFINITE, NOT_A_NUMBER, SIGNIFICAND};

verus! {

/// Ten to the power `n`.
pub open spec fn ten_to(n: nat) -> nat
    decreases n,
{
    if n == 0 {
        1
    } else {
        10 * ten_to((n - 1) as nat)
    }
}

/// The place of the first point in a text, or its length.
pub open spec fn point_at(s: Seq<char>) -> nat
    decreases s.len(),
{
    if s.len() == 0 || s[0] == '.' {
        0
    } else {
        1 + point_at(s.skip(1))
    }
}

/// A lower-case ASCII letter for an upper-case one.
pub open spec fn ascii_lower(c: char) -> char {
    if 'A' <= c <= 'Z' {
        (c as u32 + 32) as char
    } else {
        c
    }
}

/// Whether a text is a given one, but for the case of its ASCII letters.
pub open spec fn same_word(s: Seq<char>, word: Seq<char>) -> bool {
    s.len() == word.len() && forall|i: int|
        0 <= i < s.len() ==> ascii_lower(#[trigger] s[i]) == word[i]
}

pub open spec fn names_infinity(s: Seq<char>) -> bool {
    same_word(s, seq!['i', 'n', 'f']) || same_word(s, seq!['i', 'n', 'f', 'i', 'n', 'i', 't', 'y'])
}

pub open spec fn names_nan(s: Seq<char>) -> bool {
    same_word(s, seq!['n', 'a', 'n'])
}

/// The magnitude that digits with an optional point among them stand for.
pub open spec fn parsed_magnitude(s: Seq<char>) -> Option<u64> {
    let at = point_at(s) as int;
    let whole = s.take(at);
    let fraction = if at < s.len() {
        s.skip(at + 1)
    } else {
        Seq::empty()
    };
    if whole.len() + fraction.len() == 0 || !crate::text::all_digits(whole)
        || !crate::text::all_digits(fraction) {
        None
    } else {
        Some(
            crate::binary64::nearest(
                crate::text::decimal(whole + fraction) * pow2(1074),
                ten_to(fraction.len()),
            ),
        )
    }
}

/// The number that a text without an exponent stands for: the nearest one to digits with an
/// optional point among them, an infinity or an undefined value by its name, each with an optional
/// sign before it.
pub open spec fn parsed(s: Seq<char>) -> Option<Binary64> {
    let signed = s.len() > 0 && (s[0] == '-' || s[0] == '+');
    let negative = signed && s[0] == '-';
    let body = if signed {
        s.skip(1)
    } else {
        s
    };
    if names_infinity(body) {
        Some(crate::binary64::signed(negative, INFINITE))
    } else if names_nan(body) {
        Some(crate::binary64::signed(negative, NOT_A_NUMBER))
    } else {
        match parsed_magnitude(body) {
            Some(magnitude) => Some(crate::binary64::signed(negative, magnitude)),
            None => None,
        }
    }
}

/// The decimal form of a number with `places` digits behind the point, at most one: the nearest
/// such decimal, the even one of two that are equally near.
pub open spec fn fixed_text(x: Binary64, places: nat) -> Seq<char> {
    let sign = if x.negative() {
        seq!['-']
    } else {
        Seq::empty()
    };
    if x.nan() {
        seq!['N', 'a', 'N']
    } else if x.infinite() {
        sign + seq!['i', 'n', 'f']
    } else {
        let scaled = crate::binary64::round_half_even(
            crate::binary64::units(x.magnitude() as nat) * ten_to(places),
            pow2(1074),
        );
        if places == 0 {
            sign + crate::text::decimal_text(scaled)
        } else {
            sign + crate::text::decimal_text(scaled / 10).push('.').push(
                crate::text::digit_char(scaled % 10),
            )
        }
    }
}

/// The number that decimal digits, the most significant first, stand for.
pub open spec fn digits_value(s: Seq<u8>) -> nat
    decreases s.len(),
{
    if s.len() == 0 {
        0
    } else {
        10 * digits_value(s.drop_last()) + s.last() as nat
    }
}

pub open spec fn are_digits(s: Seq<u8>) -> bool {
    forall|i: int| 0 <= i < s.len() ==> #[trigger] s[i] < 10
}

proof fn lemma_ten_to(n: nat)
    ensures
        ten_to(n) > 0,
    decreases n,
{
    if n > 0 {
        lemma_ten_to((n - 1) as nat);
    }
}

proof fn lemma_value_below(s: Seq<u8>)
    requires
        are_digits(s),
    ensures
        digits_value(s) < ten_to(s.len()),
    decreases s.len(),
{
    if s.len() > 0 {
        assert forall|i: int| 0 <= i < s.drop_last().len() implies #[trigger] s.drop_last()[i]
            < 10 by {
            assert(s[i] < 10);
        }
        lemma_value_below(s.drop_last());
    }
}

proof fn lemma_value_front(s: Seq<u8>)
    requires
        s.len() > 0,
    ensures
        digits_value(s) == s[0] as nat * ten_to((s.len() - 1) as nat) + digits_value(s.skip(1)),
    decreases s.len(),
{
    if s.len() == 1 {
        assert(s.skip(1) =~= Seq::empty());
        assert(s.drop_last() =~= Seq::empty());
        assert(digits_value(s.drop_last()) == 0);
        assert(s[0] as nat * ten_to(0) == s[0]) by (nonlinear_arith)
            requires
                ten_to(0) == 1,
        ;
    } else {
        lemma_value_front(s.drop_last());
        assert(s.drop_last().skip(1) =~= s.skip(1).drop_last());
        let a: nat = s[0] as nat;
        let t: nat = ten_to((s.len() - 2) as nat);
        assert(10 * (a * t) == a * (10 * t)) by (nonlinear_arith);
    }
}

proof fn lemma_value_large(s: Seq<u8>)
    requires
        s.len() > 0,
        s[0] > 0,
    ensures
        digits_value(s) >= ten_to((s.len() - 1) as nat),
{
    lemma_value_front(s);
    assert(s[0] as nat * ten_to((s.len() - 1) as nat) >= ten_to((s.len() - 1) as nat))
        by (nonlinear_arith)
        requires
            s[0] >= 1,
    ;
}

/// Halves a number in place and tells whether it was odd.
fn halve(digits: &mut Vec<u8>) -> (odd: bool)
    requires
        are_digits(old(digits)@),
    ensures
        final(digits)@.len() == old(digits)@.len(),
        are_digits(final(digits)@),
        digits_value(old(digits)@) == 2 * digits_value(final(digits)@) + if odd {
            1int
        } else {
            0
        },
        final(digits)@.len() > 1 && old(digits)@[0] > 0 && final(digits)@[0] == 0
            ==> old(digits)@[0] == 1,
{
    let ghost start = digits@;
    let mut carry: u8 = 0;
    let mut i: usize = 0;
    while i < digits.len()
        invariant
            i <= digits@.len(),
            digits@.len() == start.len(),
            are_digits(start),
            are_digits(digits@),
            carry <= 1,
            i == 0 ==> carry == 0,
            forall|j: int| i <= j < digits@.len() ==> digits@[j] == #[trigger] start[j],
            digits_value(start.take(i as int)) == 2 * digits_value(digits@.take(i as int)) + carry,
            i > 0 ==> digits@[0] == start[0] / 2,
        decreases digits@.len() - i,
    {
        let d: u8 = digits[i] + 10 * carry;
        let ghost before = digits@;
        proof {
            assert(digits@[i as int] == start[i as int]);
            assert(start[i as int] < 10);
        }
        digits.set(i, d / 2);
        proof {
            assert(start.take(i + 1).drop_last() =~= start.take(i as int));
            assert(digits@.take(i + 1).drop_last() =~= before.take(i as int));
            assert(start.take(i + 1).last() == start[i as int]);
            assert(digits@.take(i + 1).last() == d / 2);
        }
        carry = d % 2;
        i = i + 1;
    }
    proof {
        assert(start.take(i as int) =~= start);
        assert(digits@.take(i as int) =~= digits@);
    }
    carry == 1
}

/// Doubles a number in place and tells whether a one has to go before its digits.
fn double(digits: &mut Vec<u8>) -> (over: bool)
    requires
        are_digits(old(digits)@),
    ensures
        final(digits)@.len() == old(digits)@.len(),
        are_digits(final(digits)@),
        2 * digits_value(old(digits)@) == digits_value(final(digits)@) + if over {
            ten_to(old(digits)@.len())
        } else {
            0
        },
        old(digits)@.len() > 0 && old(digits)@[0] > 0 && !over ==> final(digits)@[0] > 0,
{
    let ghost start = digits@;
    let ghost len: int = digits@.len() as int;
    let mut carry: u8 = 0;
    let mut i: usize = digits.len();
    proof {
        assert(start.skip(len) =~= Seq::empty());
        assert(ten_to(0) == 1);
    }
    while i > 0
        invariant
            i <= digits@.len(),
            len == start.len(),
            digits@.len() == start.len(),
            are_digits(start),
            are_digits(digits@),
            carry <= 1,
            i == len ==> carry == 0,
            forall|j: int| 0 <= j < i ==> digits@[j] == #[trigger] start[j],
            2 * digits_value(start.skip(i as int)) == digits_value(digits@.skip(i as int)) + carry
                * ten_to((len - i) as nat),
            i == 0 && len > 0 && start[0] > 0 && carry == 0 ==> digits@[0] > 0,
        decreases i,
    {
        let ghost before = digits@;
        proof {
            assert(digits@[i - 1] == start[i - 1]);
            assert(start[i - 1] < 10);
        }
        let d: u8 = 2 * digits[i - 1] + carry;
        digits.set(i - 1, d % 10);
        proof {
            let s = start.skip(i - 1);
            let t = digits@.skip(i - 1);
            let p: nat = ten_to((len - i) as nat);
            lemma_value_front(s);
            lemma_value_front(t);
            assert(s.skip(1) =~= start.skip(i as int));
            assert(t.skip(1) =~= before.skip(i as int));
            assert(ten_to((len - i + 1) as nat) == 10 * p);
            let x: nat = start[i - 1] as nat;
            let c: nat = carry as nat;
            assert(2 * (x * p) + c * p == (d % 10) as nat * p + (d / 10) as nat * (10 * p))
                by (nonlinear_arith)
                requires
                    d == 2 * x + c,
            ;
        }
        carry = d / 10;
        i = i - 1;
    }
    proof {
        assert(start.skip(0) =~= start);
        assert(digits@.skip(0) =~= digits@);
        assert(carry * ten_to(len as nat) == if carry == 1 {
            ten_to(len as nat)
        } else {
            0
        }) by (nonlinear_arith)
            requires
                carry <= 1,
        ;
    }
    carry == 1
}


proof fn lemma_ten_powers(n: nat)
    ensures
        pow2(3 * n) <= ten_to(n) <= pow2(4 * n),
    decreases n,
{
    lemma2_to64();
    if n > 0 {
        lemma_ten_powers((n - 1) as nat);
        lemma_pow2_adds(3 * (n - 1) as nat, 3);
        lemma_pow2_adds(4 * (n - 1) as nat, 4);
        lemma_pow2_pos(3 * (n - 1) as nat);
    }
}

proof fn lemma_value_append(a: Seq<u8>, b: Seq<u8>)
    ensures
        digits_value(a + b) == digits_value(a) * ten_to(b.len()) + digits_value(b),
    decreases b.len(),
{
    if b.len() == 0 {
        assert(a + b =~= a);
        crate::binary64::lemma_times_one(digits_value(a) as int, ten_to(0) as int);
    } else {
        lemma_value_append(a, b.drop_last());
        assert((a + b).drop_last() =~= a + b.drop_last());
        let v: nat = digits_value(a);
        let t: nat = ten_to((b.len() - 1) as nat);
        assert(10 * (v * t) == v * (10 * t)) by (nonlinear_arith);
    }
}

proof fn lemma_value_zero(s: Seq<u8>)
    ensures
        digits_value(s) == 0 <==> forall|i: int| 0 <= i < s.len() ==> #[trigger] s[i] == 0,
    decreases s.len(),
{
    if s.len() > 0 {
        lemma_value_zero(s.drop_last());
        if digits_value(s) == 0 {
            assert forall|i: int| 0 <= i < s.len() implies #[trigger] s[i] == 0 by {
                if i < s.len() - 1 {
                    assert(s.drop_last()[i] == 0);
                }
            }
        } else if forall|i: int| 0 <= i < s.len() ==> #[trigger] s[i] == 0 {
            assert(s[s.len() - 1] == 0);
            assert forall|i: int| 0 <= i < s.drop_last().len() implies #[trigger] s.drop_last()[i]
                == 0 by {
                assert(s[i] == 0);
            }
        }
    }
}

/// Takes away the zeros before a number.
fn strip_zeros(digits: &mut Vec<u8>)
    requires
        are_digits(old(digits)@),
    ensures
        are_digits(final(digits)@),
        digits_value(final(digits)@) == digits_value(old(digits)@),
        final(digits)@.len() <= old(digits)@.len(),
        final(digits)@.len() == 0 || final(digits)@[0] > 0,
{
    while digits.len() > 0 && digits[0] == 0
        invariant
            are_digits(digits@),
            digits_value(digits@) == digits_value(old(digits)@),
            digits@.len() <= old(digits)@.len(),
        decreases digits@.len(),
    {
        let ghost before = digits@;
        let _ = digits.remove(0);
        proof {
            lemma_value_front(before);
            assert(before.skip(1) =~= digits@);
            assert(0 * ten_to((before.len() - 1) as nat) == 0);
            assert forall|i: int| 0 <= i < digits@.len() implies #[trigger] digits@[i] < 10 by {
                assert(before[i + 1] < 10);
            }
        }
    }
}

fn any_nonzero(digits: &Vec<u8>) -> (found: bool)
    ensures
        found == (digits_value(digits@) > 0),
{
    proof {
        lemma_value_zero(digits@);
    }
    let mut i: usize = 0;
    while i < digits.len()
        invariant
            i <= digits@.len(),
            forall|j: int| 0 <= j < i ==> #[trigger] digits@[j] == 0,
            digits_value(digits@) == 0 <==> forall|i: int|
                0 <= i < digits@.len() ==> #[trigger] digits@[i] == 0,
        decreases digits@.len() - i,
    {
        if digits[i] != 0 {
            return true;
        }
        i = i + 1;
    }
    false
}

/// The number that at most thirty digits stand for.
fn small_value(digits: &Vec<u8>) -> (n: u128)
    requires
        are_digits(digits@),
        digits@.len() <= 30,
    ensures
        n == digits_value(digits@),
{
    let mut n: u128 = 0;
    let mut i: usize = 0;
    proof {
        lemma2_to64();
        lemma_pow2_adds(64, 56);
        lemma2_to64_rest();
    }
    while i < digits.len()
        invariant
            i <= digits@.len() <= 30,
            are_digits(digits@),
            n == digits_value(digits@.take(i as int)),
            pow2(120) == 0x100_0000_0000_0000_0000_0000_0000_0000,
        decreases digits@.len() - i,
    {
        proof {
            let t = digits@.take(i as int);
            assert forall|j: int| 0 <= j < t.len() implies #[trigger] t[j] < 10 by {
                assert(digits@[j] < 10);
            }
            lemma_value_below(t);
            lemma_ten_powers(i as nat);
            if i < 30 {
                lemma_pow2_strictly_increases((4 * i) as nat, 120);
            }
            assert(digits@.take(i + 1).drop_last() =~= t);
            assert(digits@[i as int] < 10);
        }
        n = n * 10 + digits[i] as u128;
        i = i + 1;
    }
    proof {
        assert(digits@.take(i as int) =~= digits@);
    }
    n
}

proof fn lemma_too_large(w: nat, x: nat, d: nat)
    requires
        w >= ten_to(400),
        d > 0,
        x >= w * d,
    ensures
        crate::binary64::nearest(x * pow2(1074), d) == INFINITE,
{
    lemma_ten_powers(400);
    lemma_pow2_adds(1200, 1074);
    lemma_pow2_adds(2046, 53);
    lemma2_to64_rest();
    lemma_pow2_strictly_increases(2099, 2274);
    lemma_pow2_pos(1074);
    let p: nat = pow2(1074);
    let q: nat = pow2(2046);
    assert(x * p >= d * q * SIGNIFICAND) by (nonlinear_arith)
        requires
            x >= w * d,
            w >= pow2(1200),
            pow2(1200) * p == pow2(2274),
            pow2(2274) >= q * SIGNIFICAND,
            d > 0,
            p > 0,
    ;
    crate::binary64::lemma_rounded_at_least(x * p, d, 2046);
}

/// The magnitude nearest to a decimal number.
fn decimal_magnitude(whole: Vec<u8>, fraction: Vec<u8>) -> (mag: u64)
    requires
        are_digits(whole@),
        are_digits(fraction@),
    ensures
        mag == crate::binary64::nearest(
            digits_value(whole@ + fraction@) * pow2(1074),
            ten_to(fraction@.len()),
        ),
{
    let mut whole: Vec<u8> = whole;
    let mut fraction: Vec<u8> = fraction;
    let ghost d: nat = ten_to(fraction@.len());
    let ghost w: nat = digits_value(whole@);
    let ghost f: nat = digits_value(fraction@);
    let ghost x: nat = digits_value(whole@ + fraction@);
    proof {
        lemma_value_append(whole@, fraction@);
        lemma_ten_to(fraction@.len());
        lemma_value_below(fraction@);
        lemma2_to64();
        lemma_pow2_pos(1074);
    }
    strip_zeros(&mut whole);
    if whole.len() > 400 {
        proof {
            lemma_value_large(whole@);
            let more: nat = (whole@.len() - 401) as nat;
            lemma_ten_grows(400, more);
            lemma_too_large(w, x, d);
        }
        return INFINITE;
    }
    if whole.len() > 30 {
        let mut t: i64 = 0;
        let mut sticky: bool = false;
        let ghost mut low: nat = 0;
        proof {
            crate::binary64::lemma_times_one(w as int, pow2(0) as int);
            lemma_value_below(whole@);
            lemma_ten_powers(whole@.len());
            if whole@.len() < 400 {
                lemma_pow2_strictly_increases(4 * whole@.len(), 1600);
            }
        }
        while whole.len() > 30
            invariant
                are_digits(whole@),
                whole@.len() == 0 || whole@[0] > 0,
                0 <= t <= 1600,
                w == digits_value(whole@) * pow2(t as nat) + low,
                low < pow2(t as nat),
                sticky == (low > 0),
                w < pow2(1600),
                t > 0 ==> digits_value(whole@) >= SIGNIFICAND,
                t == 0 ==> whole@.len() > 30,
            decreases digits_value(whole@),
        {
            let ghost before: nat = digits_value(whole@);
            proof {
                lemma_value_large(whole@);
                lemma_ten_grows(30, (whole@.len() - 31) as nat);
                lemma_ten_powers(30);
                lemma2_to64_rest();
                lemma_pow2_strictly_increases(60, 90);
                lemma_pow2_pos(t as nat);
                assert(before * pow2(t as nat) >= pow2(t as nat)) by (nonlinear_arith)
                    requires
                        before >= 1,
                ;
                if t >= 1600 {
                    assert(t == 1600);
                }
            }
            let odd: bool = halve(&mut whole);
            strip_zeros(&mut whole);
            sticky = sticky || odd;
            proof {
                let p: nat = pow2(t as nat);
                let o: nat = if odd {
                    1
                } else {
                    0
                };
                let h: nat = digits_value(whole@);
                lemma_pow2_unfold((t + 1) as nat);
                assert(w == h * (2 * p) + (o * p + low) && o * p + low < 2 * p && (o * p + low > 0
                    <==> o == 1 || low > 0)) by (nonlinear_arith)
                    requires
                        w == (2 * h + o) * p + low,
                        low < p,
                        o <= 1,
                        p > 0,
                ;
                low = o * p + low;
            }
            t = t + 1;
        }
        let n: u128 = small_value(&whole);
        let inexact: bool = sticky || any_nonzero(&fraction);
        let e: i64 = 1074 + t;
        proof {
            let p: nat = pow2(t as nat);
            let dd: nat = d * p;
            let r: nat = low * d + f;
            assert(r < dd && (r > 0 <==> low > 0 || f > 0) && n as nat * dd + r == x && dd > 0)
                by (nonlinear_arith)
                requires
                    r == low * d + f,
                    dd == d * p,
                    low < p,
                    f < d,
                    x == w * d + f,
                    w == n as nat * p + low,
                    d > 0,
                    p > 0,
            ;
            crate::binary64::lemma_down_one(e as int);
            crate::binary64::lemma_times_one(dd as int, crate::binary64::up(-(e as int)) as int);
            lemma_pow2_adds(1074, t as nat);
            let num: nat = x * pow2((1074 + t) as nat);
            assert(num * d == (x * pow2(1074)) * dd) by (nonlinear_arith)
                requires
                    num == x * (pow2(1074) * p),
                    dd == d * p,
            ;
            crate::binary64::lemma_nearest_same_quotient(num, dd, x * pow2(1074), d);
        }
        return crate::binary64::round_parts(
            n,
            e,
            inexact,
            Ghost(d * pow2(t as nat)),
            Ghost(low * d + f),
        );
    }
    let mut n: u128 = small_value(&whole);
    let mut e: i64 = 1074;
    proof {
        crate::binary64::lemma_times_one(x as int, pow2(0) as int);
    }
    while n < SIGNIFICAND as u128 && e >= 0
        invariant
            are_digits(fraction@),
            -1 <= e <= 1074,
            d == ten_to(fraction@.len()),
            x * pow2((1074 - e) as nat) == n as nat * d + digits_value(fraction@),
        decreases e + 1,
    {
        let ghost before: nat = digits_value(fraction@);
        let over: bool = double(&mut fraction);
        proof {
            let o: nat = if over {
                1
            } else {
                0
            };
            let now: nat = digits_value(fraction@);
            lemma_pow2_unfold((1075 - e) as nat);
            assert(x * pow2((1075 - e) as nat) == (2 * n as nat + o) * d + now) by (nonlinear_arith)
                requires
                    pow2((1075 - e) as nat) == 2 * pow2((1074 - e) as nat),
                    x * pow2((1074 - e) as nat) == n as nat * d + before,
                    2 * before == now + o * d,
            ;
        }
        n = 2 * n + if over {
            1
        } else {
            0
        };
        e = e - 1;
    }
    let inexact: bool = any_nonzero(&fraction);
    proof {
        lemma_value_below(fraction@);
        let r: nat = digits_value(fraction@);
        let u: nat = crate::binary64::up(e as int);
        let v: nat = crate::binary64::up(-(e as int));
        let b: nat = pow2((1074 - e) as nat);
        crate::binary64::lemma_balance(1074, 1074 - e, e as int);
        crate::binary64::lemma_up_pos(-(e as int));
        let num: nat = (n as nat * d + r) * u;
        assert(num * d == (x * pow2(1074)) * (d * v) && d * v > 0) by (nonlinear_arith)
            requires
                num == (x * b) * u,
                u * b == pow2(1074) * v,
                d > 0,
                v > 0,
        ;
        crate::binary64::lemma_nearest_same_quotient(num, d * v, x * pow2(1074), d);
    }
    crate::binary64::round_parts(n, e, inexact, Ghost(d), Ghost(digits_value(fraction@)))
}

proof fn lemma_ten_grows(n: nat, more: nat)
    ensures
        ten_to(n + more) >= ten_to(n),
    decreases more,
{
    if more > 0 {
        lemma_ten_grows(n, (more - 1) as nat);
    }
}


proof fn lemma_digits_decimal(d: Seq<u8>, s: Seq<char>)
    requires
        d.len() == s.len(),
        forall|i: int| 0 <= i < d.len() ==> #[trigger] d[i] == crate::text::digit(s[i]),
    ensures
        digits_value(d) == crate::text::decimal(s),
    decreases d.len(),
{
    if d.len() > 0 {
        lemma_digits_decimal(d.drop_last(), s.drop_last());
        assert(d[d.len() - 1] == crate::text::digit(s[d.len() - 1]));
    }
}

/// The values of a run of digits.
fn digits_of(chars: &Vec<char>, from: usize, to: usize) -> (r: Option<Vec<u8>>)
    requires
        from <= to <= chars@.len(),
    ensures
        r is Some <==> crate::text::all_digits(chars@.subrange(from as int, to as int)),
        r matches Some(d) ==> are_digits(d@) && d@.len() == to - from && forall|i: int|
            0 <= i < d@.len() ==> #[trigger] d@[i] == crate::text::digit(
                chars@.subrange(from as int, to as int)[i],
            ),
{
    let mut out: Vec<u8> = Vec::new();
    let mut i: usize = from;
    let ghost part = chars@.subrange(from as int, to as int);
    while i < to
        invariant
            from <= i <= to <= chars@.len(),
            part == chars@.subrange(from as int, to as int),
            out@.len() == i - from,
            are_digits(out@),
            forall|j: int| 0 <= j < out@.len() ==> crate::text::is_digit(#[trigger] part[j]),
            forall|j: int| 0 <= j < out@.len() ==> #[trigger] out@[j] == crate::text::digit(part[j]),
        decreases to - i,
    {
        let c: char = chars[i];
        proof {
            assert(part[i - from] == c);
        }
        if !('0' <= c && c <= '9') {
            return None;
        }
        out.push((c as u32 - '0' as u32) as u8);
        i = i + 1;
    }
    Some(out)
}

/// Whether a text is a word in small letters, but for the case of its letters.
fn is_word(chars: &Vec<char>, from: usize, word: &str) -> (b: bool)
    requires
        from <= chars@.len(),
    ensures
        b == same_word(chars@.skip(from as int), word@),
{
    let letters: Vec<char> = crate::text::chars_of(word);
    let ghost body = chars@.skip(from as int);
    if chars.len() - from != letters.len() {
        return false;
    }
    let mut i: usize = 0;
    while i < letters.len()
        invariant
            i <= letters@.len(),
            letters@ == word@,
            from + letters@.len() == chars.len(),
            body == chars@.skip(from as int),
            forall|j: int| 0 <= j < i ==> ascii_lower(#[trigger] body[j]) == letters@[j],
        decreases letters@.len() - i,
    {
        let c: char = chars[from + i];
        let lower: char = if 'A' <= c && c <= 'Z' {
            (c as u8 + 32) as char
        } else {
            c
        };
        proof {
            assert(body[i as int] == c);
        }
        if lower != letters[i] {
            return false;
        }
        i = i + 1;
    }
    true
}

proof fn lemma_point(s: Seq<char>, at: nat)
    requires
        at <= s.len(),
        forall|j: int| 0 <= j < at ==> #[trigger] s[j] != '.',
        at == s.len() || s[at as int] == '.',
    ensures
        point_at(s) == at,
    decreases s.len(),
{
    if at > 0 {
        assert(s[0] != '.');
        assert forall|j: int| 0 <= j < at - 1 implies #[trigger] s.skip(1)[j] != '.' by {
            assert(s[j + 1] != '.');
        }
        lemma_point(s.skip(1), (at - 1) as nat);
    }
}

/// Reads the magnitude behind an optional sign.
fn parse_magnitude(chars: &Vec<char>, from: usize) -> (r: Option<u64>)
    requires
        from <= chars@.len(),
    ensures
        r == parsed_magnitude(chars@.skip(from as int)),
{
    let ghost body = chars@.skip(from as int);
    let mut at: usize = from;
    while at < chars.len() && chars[at] != '.'
        invariant
            from <= at <= chars@.len(),
            body == chars@.skip(from as int),
            forall|j: int| 0 <= j < at - from ==> #[trigger] body[j] != '.',
        decreases chars@.len() - at,
    {
        proof {
            assert(body[at - from] == chars@[at as int]);
        }
        at = at + 1;
    }
    let start: usize = if at < chars.len() {
        at + 1
    } else {
        at
    };
    proof {
        if at < chars@.len() {
            assert(body[at - from] == chars@[at as int]);
        }
        lemma_point(body, (at - from) as nat);
        assert(body.take(at - from) =~= chars@.subrange(from as int, at as int));
        let fraction = if at < chars@.len() {
            body.skip(at - from + 1)
        } else {
            Seq::empty()
        };
        assert(fraction =~= chars@.subrange(start as int, chars@.len() as int));
    }
    if at - from + (chars.len() - start) == 0 {
        return None;
    }
    match (digits_of(chars, from, at), digits_of(chars, start, chars.len())) {
        (Some(whole), Some(fraction)) => {
            proof {
                let w = chars@.subrange(from as int, at as int);
                let f = chars@.subrange(start as int, chars@.len() as int);
                lemma_digits_decimal(whole@ + fraction@, w + f);
            }
            Some(decimal_magnitude(whole, fraction))
        },
        _ => None,
    }
}

/// Reads a number without an exponent.
pub fn parse(chars: &Vec<char>) -> (r: Option<Binary64>)
    ensures
        r == parsed(chars@),
{
    let signed: bool = chars.len() > 0 && (chars[0] == '-' || chars[0] == '+');
    let negative: bool = signed && chars[0] == '-';
    let from: usize = if signed {
        1
    } else {
        0
    };
    proof {
        assert(chars@.skip(0) =~= chars@);
        reveal_strlit("inf");
        reveal_strlit("infinity");
        reveal_strlit("nan");
        assert("inf"@ =~= seq!['i', 'n', 'f']);
        assert("infinity"@ =~= seq!['i', 'n', 'f', 'i', 'n', 'i', 't', 'y']);
        assert("nan"@ =~= seq!['n', 'a', 'n']);
    }
    if is_word(chars, from, "inf") || is_word(chars, from, "infinity") {
        return Some(Binary64::with_sign(negative, INFINITE));
    }
    if is_word(chars, from, "nan") {
        return Some(Binary64::with_sign(negative, NOT_A_NUMBER));
    }
    match parse_magnitude(chars, from) {
        Some(magnitude) => Some(Binary64::with_sign(negative, magnitude)),
        None => None,
    }
}

/// The characters of some digits.
pub open spec fn digit_chars(s: Seq<u8>) -> Seq<char> {
    Seq::new(s.len(), |i: int| crate::text::digit_char(s[i] as nat))
}

proof fn lemma_digit_chars(s: Seq<u8>)
    requires
        are_digits(s),
        s.len() == 1 || (s.len() > 1 && s[0] > 0),
    ensures
        digit_chars(s) == crate::text::decimal_text(digits_value(s)),
    decreases s.len(),
{
    let front = s.drop_last();
    assert(s[s.len() - 1] < 10);
    assert(digit_chars(s) =~= digit_chars(front).push(
        crate::text::digit_char(s[s.len() - 1] as nat),
    ));
    if s.len() == 1 {
        assert(digits_value(front) == 0);
        assert(digit_chars(front) =~= Seq::empty());
    } else {
        assert forall|i: int| 0 <= i < front.len() implies #[trigger] front[i] < 10 by {
            assert(s[i] < 10);
        }
        assert(front[0] == s[0]);
        lemma_digit_chars(front);
        lemma_value_large(front);
        lemma_ten_to((front.len() - 1) as nat);
        assert(digits_value(s) == 10 * digits_value(front) + s[s.len() - 1]);
        assert(digits_value(s) / 10 == digits_value(front));
        assert(digits_value(s) % 10 == s[s.len() - 1]);
        assert(digits_value(s) >= 10);
    }
}

proof fn lemma_leading_digit(n: nat)
    requires
        n > 0,
    ensures
        crate::text::decimal_text(n).len() > 0,
        crate::text::digit(crate::text::decimal_text(n)[0]) > 0,
    decreases n,
{
    if n >= 10 {
        lemma_leading_digit(n / 10);
    }
}

/// The digits of `m` doubled `times` times.
fn scaled_digits(m: u64, times: i64) -> (out: Vec<char>)
    requires
        0 <= times,
        m > 0,
    ensures
        out@ == crate::text::decimal_text(m as nat * pow2(times as nat)),
{
    let chars: Vec<char> = crate::text::decimal_chars(m);
    let mut digits: Vec<u8> = match digits_of(&chars, 0, chars.len()) {
        Some(d) => d,
        None => Vec::new(),
    };
    proof {
        crate::text::lemma_decimal_text(m as nat);
        lemma_leading_digit(m as nat);
        assert(chars@.subrange(0, chars@.len() as int) =~= chars@);
        lemma_digits_decimal(digits@, chars@);
        lemma2_to64();
        crate::binary64::lemma_times_one(m as int, pow2(0) as int);
    }
    let mut done: i64 = 0;
    while done < times
        invariant
            0 <= done <= times,
            m > 0,
            are_digits(digits@),
            digits@.len() > 0,
            digits@[0] > 0,
            digits_value(digits@) == m as nat * pow2(done as nat),
        decreases times - done,
    {
        let ghost before = digits@;
        let over: bool = double(&mut digits);
        let ghost after = digits@;
        if over {
            digits.insert(0, 1);
            proof {
                lemma_value_front(digits@);
                assert(digits@.skip(1) =~= after);
                assert(digits@[0] as nat * ten_to(after.len()) == ten_to(after.len()))
                    by (nonlinear_arith)
                    requires
                        digits@[0] == 1,
                ;
                assert forall|i: int| 0 <= i < digits@.len() implies #[trigger] digits@[i] < 10 by {
                    if i > 0 {
                        assert(after[i - 1] < 10);
                    }
                }
            }
        } else {
            proof {
                if after[0] == 0 {
                    lemma_value_front(after);
                    lemma_value_below(after.skip(1));
                    lemma_value_large(before);
                    assert(0 * ten_to((after.len() - 1) as nat) == 0);
                }
            }
        }
        proof {
            lemma_pow2_unfold((done + 1) as nat);
            assert(2 * (m as nat * pow2(done as nat)) == m as nat * pow2((done + 1) as nat))
                by (nonlinear_arith)
                requires
                    pow2((done + 1) as nat) == 2 * pow2(done as nat),
            ;
        }
        done = done + 1;
    }
    proof {
        lemma_digit_chars(digits@);
    }
    let mut out: Vec<char> = Vec::new();
    let mut i: usize = 0;
    while i < digits.len()
        invariant
            i <= digits@.len(),
            are_digits(digits@),
            out@ == digit_chars(digits@).take(i as int),
        decreases digits@.len() - i,
    {
        proof {
            assert(digits@[i as int] < 10);
            assert(digit_chars(digits@).take(i + 1) =~= out@.push(
                crate::text::digit_char(digits@[i as int] as nat),
            ));
        }
        out.push(crate::text::digit_to_char(digits[i]));
        i = i + 1;
    }
    proof {
        assert(digit_chars(digits@).take(i as int) =~= digit_chars(digits@));
    }
    out
}

/// `n / 2^s` as the nearest whole number, the even one of two that are equally near.
fn shifted_half_even(n: u64, s: i64) -> (q: u64)
    requires
        n < 0x1000_0000_0000_0000,
        s >= 1,
    ensures
        q == crate::binary64::round_half_even(n as nat, pow2(s as nat)),
{
    proof {
        lemma2_to64();
        lemma2_to64_rest();
        lemma_pow2_pos(s as nat);
    }
    if s > 64 {
        proof {
            lemma_pow2_strictly_increases(64, s as nat);
            lemma_small_mod(n as nat, pow2(s as nat));
            lemma_basic_div(n as int, pow2(s as nat) as int);
        }
        return 0;
    }
    let p: u128 = crate::binary64::power_of_two(s);
    let low: u128 = n as u128 / p;
    let rest: u128 = n as u128 % p;
    proof {
        lemma_div_is_ordered_by_denominator(n as int, 1, p as int);
        lemma_fundamental_div_mod(n as int, p as int);
        assert(p <= 0x1_0000_0000_0000_0000) by {
            if s < 64 {
                lemma_pow2_strictly_increases(s as nat, 64);
            }
        }
    }
    if 2 * rest > p || (2 * rest == p && low % 2 == 1) {
        (low + 1) as u64
    } else {
        low as u64
    }
}

/// A finite number's decimal form with `places` digits behind the point, without its sign.
fn unsigned_chars(size: u64, places: u8) -> (out: Vec<char>)
    requires
        size < INFINITE,
        places <= 1,
    ensures
        ({
            let scaled = crate::binary64::round_half_even(
                crate::binary64::units(size as nat) * ten_to(places as nat),
                pow2(1074),
            );
            out@ == if places == 0 {
                crate::text::decimal_text(scaled)
            } else {
                crate::text::decimal_text(scaled / 10).push('.').push(
                    crate::text::digit_char(scaled % 10),
                )
            }
        }),
{
    let (m, k): (u64, i64) = crate::binary64::split_magnitude(size);
    let ghost num: nat = crate::binary64::units(size as nat) * ten_to(places as nat);
    proof {
        reveal_with_fuel(ten_to, 2);
        lemma_pow2_pos(1074);
        lemma_pow2_pos(k as nat);
    }
    if k >= 1074 {
        let mut out: Vec<char> = scaled_digits(m, k - 1074);
        proof {
            let times: nat = (k - 1074) as nat;
            let whole: nat = m as nat * pow2(times);
            lemma_pow2_adds(times, 1074);
            let t: nat = ten_to(places as nat);
            assert(num == (whole * t) * pow2(1074)) by (nonlinear_arith)
                requires
                    num == m as nat * pow2(k as nat) * t,
                    pow2(k as nat) == pow2(times) * pow2(1074),
                    whole == m as nat * pow2(times),
            ;
            lemma_div_by_multiple((whole * t) as int, pow2(1074) as int);
            lemma_mod_multiples_basic((whole * t) as int, pow2(1074) as int);
            assert(crate::binary64::round_half_even(num, pow2(1074)) == whole * t);
            assert(places == 1 ==> whole * t == whole * 10) by (nonlinear_arith)
                requires
                    places == 1 ==> t == 10,
            ;
            crate::binary64::lemma_times_one(whole as int, 1);
        }
        if places == 1 {
            out.push('.');
            out.push('0');
        }
        return out;
    }
    let n: u64 = if places == 0 {
        m
    } else {
        m * 10
    };
    let q: u64 = shifted_half_even(n, 1074 - k);
    proof {
        let s: nat = (1074 - k) as nat;
        lemma_pow2_adds(k as nat, s);
        let t: nat = ten_to(places as nat);
        crate::binary64::lemma_half_even_scale(n as nat, pow2(s), pow2(k as nat));
        crate::binary64::lemma_times_one(m as int, 1);
        assert(num == pow2(k as nat) * n as nat) by (nonlinear_arith)
            requires
                num == m as nat * pow2(k as nat) * t,
                n as nat == m as nat * t,
        ;
    }
    if places == 0 {
        return crate::text::decimal_chars(q);
    }
    let mut out: Vec<char> = crate::text::decimal_chars(q / 10);
    out.push('.');
    out.push(crate::text::digit_to_char((q % 10) as u8));
    out
}

/// A number's decimal form with at most one digit behind the point.
pub fn fixed_chars(x: Binary64, places: u8) -> (out: Vec<char>)
    requires
        places <= 1,
    ensures
        out@ == fixed_text(x, places as nat),
{
    if x.is_nan() {
        return vec!['N', 'a', 'N'];
    }
    let mut out: Vec<char> = Vec::new();
    if x.is_negative() {
        out.push('-');
    }
    let mut body: Vec<char> = if x.is_finite() {
        unsigned_chars(x.size(), places)
    } else {
        vec!['i', 'n', 'f']
    };
    out.append(&mut body);
    out
}

} // verus!
