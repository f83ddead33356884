//! How close sums and averages of doubles are to the exact ones.
use vstd::arithmetic::power2::*;
use vstd::prelude::*;

use crate::binary64::Binary64;

verus! {

/// The exact sum of some numbers, in units.
pub open spec fn exact_sum(numbers: Seq<Binary64>) -> int
    decreases numbers.len(),
{
    if numbers.len() == 0 {
        0
    } else {
        exact_sum(numbers.drop_last()) + numbers.last().value()
    }
}

/// Whether numbers are plain ones, none of them negative, so few and so small that their sum is one
/// too.
pub open spec fn plain(numbers: Seq<Binary64>) -> bool {
    &&& numbers.len() <= 0x10_0000
    &&& forall|i: int|
        0 <= i < numbers.len() ==> (#[trigger] numbers[i]).finite() && numbers[i].value() >= 0
    &&& 2 * exact_sum(numbers) <= (Binary64 { bits: 0x7fef_ffff_ffff_ffff }).value()
}

proof fn lemma_plain_front(numbers: Seq<Binary64>)
    requires
        plain(numbers),
        numbers.len() > 0,
    ensures
        plain(numbers.drop_last()),
        numbers.last().finite(),
        numbers.last().value() >= 0,
        exact_sum(numbers.drop_last()) >= 0,
{
    let front = numbers.drop_last();
    assert(numbers[numbers.len() - 1].finite());
    assert forall|i: int| 0 <= i < front.len() implies (#[trigger] front[i]).finite()
        && front[i].value() >= 0 by {
        assert(front[i] == numbers[i]);
    }
    lemma_sum_not_negative(front);
}

proof fn lemma_sum_not_negative(numbers: Seq<Binary64>)
    requires
        forall|i: int|
            0 <= i < numbers.len() ==> (#[trigger] numbers[i]).finite() && numbers[i].value() >= 0,
    ensures
        exact_sum(numbers) >= 0,
    decreases numbers.len(),
{
    if numbers.len() > 0 {
        let front = numbers.drop_last();
        assert forall|i: int| 0 <= i < front.len() implies (#[trigger] front[i]).finite()
            && front[i].value() >= 0 by {
            assert(front[i] == numbers[i]);
        }
        lemma_sum_not_negative(front);
        assert(numbers[numbers.len() - 1].value() >= 0);
    }
}

proof fn lemma_one_sum(a: Binary64, b: Binary64)
    requires
        a.finite(),
        b.finite(),
        a.value() >= 0,
        b.value() >= 0,
        a.value() + b.value() <= (Binary64 { bits: 0x7fef_ffff_ffff_ffff }).value(),
    ensures
        a.sum(b).finite(),
        a.sum(b).value() >= 0,
        ({
            let exact = a.value() + b.value();
            -exact <= 0x20_0000_0000_0000 * (a.sum(b).value() - exact) <= exact
        }),
{
    let exact: int = a.value() + b.value();
    let top = Binary64 { bits: 0x7fef_ffff_ffff_ffff };
    assert(top.magnitude() == 0x7fef_ffff_ffff_ffff);
    if exact > 0 {
        let n: nat = exact as nat;
        let u: nat = crate::binary64::units(top.magnitude() as nat);
        assert(u * 1 == u);
        crate::binary64::law_rounding_respects_magnitudes(n, 1, 0x7fef_ffff_ffff_ffff);
        crate::binary64::law_rounding_is_close(n, 1);
        let m: nat = crate::binary64::units(crate::binary64::nearest(n, 1) as nat);
        assert(m * 1 == m);
        assert(a.sum(b).magnitude() == crate::binary64::nearest(n, 1));
    } else {
        assert(crate::binary64::units(0) == 0);
        assert(a.sum(b).magnitude() == 0);
    }
}

proof fn lemma_sum_error(start: Binary64, numbers: Seq<Binary64>)
    requires
        plain(numbers),
        start.magnitude() == 0,
    ensures
        ({
            let sum = crate::binary64::added_to(start, numbers);
            let exact = exact_sum(numbers);
            &&& sum.finite()
            &&& sum.value() >= 0
            &&& -(numbers.len() * exact) <= 0x10_0000_0000_0000 * (sum.value() - exact)
                <= numbers.len() * exact
        }),
    decreases numbers.len(),
{
    if numbers.len() == 0 {
        assert(crate::binary64::units(0) == 0);
    } else {
        let front = numbers.drop_last();
        lemma_plain_front(numbers);
        lemma_sum_error(start, front);
        let before = crate::binary64::added_to(start, front);
        let s: int = before.value();
        let e: int = exact_sum(front);
        let v: int = numbers.last().value();
        let k: int = front.len() as int;
        assert(k * e <= 0x10_0000 * e && -(0x10_0000 * e) <= -(k * e)) by (nonlinear_arith)
            requires
                0 <= k <= 0x10_0000,
                e >= 0,
        ;
        assert(s <= 2 * e);
        lemma_one_sum(before, numbers.last());
        let sum: int = crate::binary64::added_to(start, numbers).value();
        assert(k * e + (e + v) <= (k + 1) * (e + v)) by (nonlinear_arith)
            requires
                k >= 0,
                v >= 0,
        ;
    }
}

/// A sum of plain numbers is the exact one to one part in a billion.
pub proof fn law_sums_are_close(start: Binary64, numbers: Seq<Binary64>)
    requires
        plain(numbers),
        start.magnitude() == 0,
    ensures
        ({
            let sum = crate::binary64::added_to(start, numbers);
            let exact = exact_sum(numbers);
            &&& sum.finite()
            &&& sum.value() >= 0
            &&& -exact <= 1_000_000_000 * (sum.value() - exact) <= exact
        }),
{
    lemma_sum_error(start, numbers);
    lemma_sum_not_negative(numbers);
    let n: int = numbers.len() as int;
    let e: int = exact_sum(numbers);
    assert(n * e <= 0x10_0000 * e) by (nonlinear_arith)
        requires
            n <= 0x10_0000,
            e >= 0,
    ;
}

/// A number that is not negative over a whole one is the exact quotient to one part in a billion, or
/// half a unit.
pub proof fn law_quotients_are_close(x: Binary64, n: nat)
    requires
        x.finite(),
        x.value() >= 0,
        0 < n < 0x1_0000_0000,
    ensures
        ({
            let q = x.quotient(Binary64::whole(n));
            &&& q.finite()
            &&& q.value() >= 0
            &&& -(x.value() + 1_000_000_000 * n) <= 1_000_000_000 * (n * q.value() - x.value())
                <= x.value() + 1_000_000_000 * n
        }),
{
    let p: nat = pow2(1074);
    lemma_pow2_pos(1074);
    crate::binary64::law_small_whole_is_exact(n);
    let w = Binary64::whole(n);
    assert(n * p > 0) by (nonlinear_arith)
        requires
            n > 0,
            p > 0,
    ;
    assert(w.magnitude() > 0) by {
        assert(crate::binary64::units(0) == 0);
    }
    let u: nat = crate::binary64::units(x.magnitude() as nat);
    assert((u * p) * n == u * (n * p)) by (nonlinear_arith);
    crate::binary64::lemma_nearest_same_quotient(u * p, n * p, u, n);
    let q = x.quotient(w);
    assert(q.magnitude() == crate::binary64::nearest(u, n));
    assert(u <= u * n) by (nonlinear_arith)
        requires
            n >= 1,
            u >= 0,
    ;
    crate::binary64::law_rounding_respects_magnitudes(u, n, x.magnitude());
    crate::binary64::law_rounding_is_close(u, n);
    let r: nat = crate::binary64::units(crate::binary64::nearest(u, n) as nat);
    assert(r * n == n * r) by (nonlinear_arith);
    assert(x.value() == u) by {
        if x.negative() {
            assert(u == 0);
        }
    }
    assert(crate::binary64::units(0) == 0);
    if q.negative() {
        assert(x.magnitude() == 0) by {
            if x.magnitude() > 0 {
                crate::binary64::lemma_units_increase(0, x.magnitude() as nat);
            }
        }
        crate::binary64::law_rounding_respects_magnitudes(u, n, 0);
    }
}

/// A product of plain numbers is the exact one to one part in a billion or half a unit, where it is a
/// plain number too; it is negative where just one of them is.
pub proof fn law_products_are_close(a: Binary64, b: Binary64)
    requires
        a.finite(),
        b.finite(),
        a.product(b).finite(),
    ensures
        ({
            let exact = crate::binary64::units(a.magnitude() as nat) * crate::binary64::units(
                b.magnitude() as nat,
            );
            let found = crate::binary64::units(a.product(b).magnitude() as nat) * pow2(1074);
            &&& -(exact + 1_000_000_000 * pow2(1074)) <= 1_000_000_000 * (found - exact) <= exact
                + 1_000_000_000 * pow2(1074)
            &&& a.product(b).negative() == (a.negative() != b.negative())
        }),
{
    lemma_pow2_pos(1074);
    let exact: nat = crate::binary64::units(a.magnitude() as nat) * crate::binary64::units(
        b.magnitude() as nat,
    );
    crate::binary64::law_rounding_is_close(exact, pow2(1074));
    let m: u64 = crate::binary64::nearest(exact, pow2(1074));
    assert(a.product(b).magnitude() == m);
}

/// A sum of plain numbers, of whatever sign, is the exact one to one part in a billion or half a unit,
/// where it is a plain number too.
pub proof fn law_sums_of_two_are_close(a: Binary64, b: Binary64)
    requires
        a.finite(),
        b.finite(),
        a.sum(b).finite(),
    ensures
        ({
            let exact = a.value() + b.value();
            let most = if exact < 0 {
                -exact
            } else {
                exact
            };
            -(most + 1_000_000_000) <= 1_000_000_000 * (a.sum(b).value() - exact) <= most
                + 1_000_000_000
        }),
        a.difference(b) == a.sum(crate::binary64::signed(!b.negative(), b.magnitude())),
{
    let exact: int = a.value() + b.value();
    assert(crate::binary64::units(0) == 0);
    if exact != 0 {
        let n: nat = if exact < 0 {
            (-exact) as nat
        } else {
            exact as nat
        };
        crate::binary64::law_rounding_is_close(n, 1);
        let m: nat = crate::binary64::units(crate::binary64::nearest(n, 1) as nat);
        assert(m * 1 == m);
        assert(a.sum(b).magnitude() == crate::binary64::nearest(n, 1));
    }
}


/// The larger of two numbers is one of them and not below the other, and so the other way round.
pub proof fn law_larger_and_smaller(a: Binary64, b: Binary64)
    requires
        !a.nan(),
        !b.nan(),
    ensures
        a.larger(b) == a || a.larger(b) == b,
        a.le(a.larger(b)) && b.le(a.larger(b)),
        a.smaller(b) == a || a.smaller(b) == b,
        a.smaller(b).le(a) && a.smaller(b).le(b),
{
}

/// What is not a number is passed over.
pub proof fn law_undefined_numbers_are_passed_over(a: Binary64, b: Binary64)
    requires
        a.nan(),
        !b.nan(),
    ensures
        a.larger(b) == b && b.larger(a) == b,
        a.smaller(b) == b && b.smaller(a) == b,
        !a.lt(b) && !b.lt(a) && !a.le(b) && !b.le(a),
{
}

} // verus!
