//! What holds of the graphs as a whole.
use vstd::arithmetic::div_mod::*;
use vstd::arithmetic::power2::*;
use vstd::prelude::*;

use crate::binary64::Binary64;

verus! {

/// The parts of a product that lies within bounds, scaled.
proof fn lemma_within(k: int, x: int, bound: int)
    requires
        k >= 0,
        -bound <= x <= bound,
    ensures
        -(k * bound) <= k * x <= k * bound,
{
    assert(-(k * bound) <= k * x <= k * bound) by (nonlinear_arith)
        requires
            k >= 0,
            -bound <= x <= bound,
    ;
}

proof fn lemma_share_error(v: int, d: int, a: int, e: int, q: int, p: int)
    requires
        0 < v < d,
        p >= 0x40_0000_0000_0000,
        0 <= a,
        0 <= e,
        0 <= q <= p,
        -v <= 0x20_0000_0000_0000 * (a - v) <= v,
        -d <= 0x20_0000_0000_0000 * (e - d) <= d,
        -(a * p + 0x20_0000_0000_0000 * e) <= 0x20_0000_0000_0000 * (q * e - a * p) <= a * p
            + 0x20_0000_0000_0000 * e,
    ensures
        -(5 * (p * d)) <= 0x20_0000_0000_0000 * (q * d - p * v) <= 5 * (p * d),
{
    let x: int = d - e;
    let y: int = a - v;
    lemma_within(q, 0x20_0000_0000_0000 * x, d);
    lemma_within(p, 0x20_0000_0000_0000 * y, v);
    assert(q * (0x20_0000_0000_0000 * x) == 0x20_0000_0000_0000 * (q * x)) by (nonlinear_arith);
    assert(p * (0x20_0000_0000_0000 * y) == 0x20_0000_0000_0000 * (p * y)) by (nonlinear_arith);
    assert(q * d <= p * d && p * v <= p * d) by (nonlinear_arith)
        requires
            0 <= q <= p,
            0 < v < d,
    ;
    assert(a * p <= 2 * (p * d)) by (nonlinear_arith)
        requires
            a <= 2 * d,
            p >= 0,
    ;
    assert(0x20_0000_0000_0000 * e <= p * d) by (nonlinear_arith)
        requires
            0 <= e <= 2 * d,
            p >= 0x40_0000_0000_0000,
            d > 0,
    ;
    assert(q * x == q * d - q * e) by (nonlinear_arith)
        requires
            x == d - e,
    ;
    assert(p * y == a * p - p * v) by (nonlinear_arith)
        requires
            y == a - v,
    ;
    let f: int = p * d;
    let m: int = q * e - a * p;
    assert(-f <= 0x20_0000_0000_0000 * (q * x) <= f);
    assert(-f <= 0x20_0000_0000_0000 * (p * y) <= f);
    assert(-(3 * f) <= 0x20_0000_0000_0000 * m <= 3 * f);
    assert(q * d - p * v == q * x + m + p * y);
}

proof fn lemma_height_error(v: int, d: int, q: int, p: int, h: int, t: int, n: int)
    requires
        0 < v < d,
        p >= 0x40_0000_0000_0000,
        0 <= h <= 0x7fff_fffc,
        -(5 * (p * d)) <= 0x20_0000_0000_0000 * (q * d - p * v) <= 5 * (p * d),
        -(p * h + 0x20_0000_0000_0000) <= 0x20_0000_0000_0000 * (t - q * h) <= p * h
            + 0x20_0000_0000_0000,
        -p <= 2 * (p * n) - 2 * t <= p,
    ensures
        -(501 * d) <= 1000 * (n * d - h * v) <= 501 * d,
{
    let x: int = q * d - p * v;
    let y: int = t - q * h;
    let w: int = 2 * (p * n) - 2 * t;
    let z: int = n * d - h * v;
    let f: int = p * d;
    lemma_within(h, 0x20_0000_0000_0000 * x, 5 * f);
    lemma_within(d, 0x20_0000_0000_0000 * y, p * h + 0x20_0000_0000_0000);
    lemma_within(d, w, p);
    assert(h * (0x20_0000_0000_0000 * x) == 0x20_0000_0000_0000 * (h * x)) by (nonlinear_arith);
    assert(d * (0x20_0000_0000_0000 * y) == 0x20_0000_0000_0000 * (d * y)) by (nonlinear_arith);
    assert(d * (p * h + 0x20_0000_0000_0000) == h * f + 0x20_0000_0000_0000 * d)
        by (nonlinear_arith)
        requires
            f == p * d,
    ;
    assert(h * (5 * f) == 5 * (h * f)) by (nonlinear_arith);
    assert(d * p == f) by (nonlinear_arith)
        requires
            f == p * d,
    ;
    assert(0x40_0000_0000_0000 * d <= f) by (nonlinear_arith)
        requires
            p >= 0x40_0000_0000_0000,
            d > 0,
            f == p * d,
    ;
    assert(h * f <= 0x7fff_fffc * f) by (nonlinear_arith)
        requires
            h <= 0x7fff_fffc,
            f >= 0,
    ;
    assert(p * z == d * (p * n) - h * (p * v)) by (nonlinear_arith)
        requires
            z == n * d - h * v,
    ;
    assert(d * w == 2 * (d * (p * n)) - 2 * (d * t)) by (nonlinear_arith)
        requires
            w == 2 * (p * n) - 2 * t,
    ;
    assert(d * y == d * t - h * (q * d)) by (nonlinear_arith)
        requires
            y == t - q * h,
    ;
    assert(h * x == h * (q * d) - h * (p * v)) by (nonlinear_arith)
        requires
            x == q * d - p * v,
    ;
    assert(-(501 * f) <= 1000 * (p * z) <= 501 * f);
    assert(-(501 * d) <= 1000 * z <= 501 * d) by (nonlinear_arith)
        requires
            -(501 * f) <= 1000 * (p * z) <= 501 * f,
            f == p * d,
            p > 0,
    ;
}

/// A value lies above the bottom of a graph by more than a thousandth.
pub open spec fn stands_out(value: Binary64, min: Binary64) -> bool {
    value.finite() && min.finite() && value.value() - min.value() >= (Binary64 {
        bits: 0x3f50_624d_d2f1_a9fd,
    }).value()
}

/// A scale between two numbers, its length a number too.
pub open spec fn is_scale(min: Binary64, max: Binary64) -> bool {
    min.finite() && max.finite() && 0 < max.value() - min.value() <= (Binary64 {
        bits: 0x7fef_ffff_ffff_ffff,
    }).value()
}

proof fn lemma_difference(a: Binary64, b: Binary64)
    requires
        a.finite(),
        b.finite(),
        a.value() > b.value(),
    ensures
        a.difference(b) == (Binary64 {
            bits: crate::binary64::nearest((a.value() - b.value()) as nat, 1),
        }),
        a.difference(b).magnitude() == crate::binary64::nearest(
            (a.value() - b.value()) as nat,
            1,
        ),
        !a.difference(b).negative(),
        !a.difference(b).nan(),
{
    assert(b.opposite().magnitude() == b.magnitude());
    assert(b.opposite().value() == -b.value());
}

proof fn lemma_scale_length(min: Binary64, max: Binary64)
    requires
        is_scale(min, max),
    ensures
        max.difference(min).finite(),
        max.difference(min).magnitude() > 0,
        !max.le(min),
{
    let d: nat = (max.value() - min.value()) as nat;
    let top = Binary64 { bits: 0x7fef_ffff_ffff_ffff };
    assert(top.magnitude() == 0x7fef_ffff_ffff_ffff);
    lemma_difference(max, min);
    crate::binary64::law_order_is_by_value(max, min);
    assert(d * 1 == d);
    let u: nat = crate::binary64::units(top.magnitude() as nat);
    assert(u * 1 == u);
    crate::binary64::law_rounding_respects_magnitudes(d, 1, 0x7fef_ffff_ffff_ffff);
    crate::binary64::law_rounding_respects_magnitudes(d, 1, 1);
    assert(crate::binary64::units(1) == 1);
}

proof fn lemma_stands_out(value: Binary64, min: Binary64)
    requires
        stands_out(value, min),
    ensures
        crate::graph::activity(value, min) == value.difference(min),
        !value.difference(min).negative(),
        !value.difference(min).nan(),
        !crate::graph::activity(value, min).le(
            Binary64 { bits: crate::graph::GRAPH_ACTIVITY_EPSILON_BITS },
        ),
{
    let next = Binary64 { bits: 0x3f50_624d_d2f1_a9fd };
    assert(next.magnitude() == 0x3f50_624d_d2f1_a9fd);
    let u: nat = crate::binary64::units(next.magnitude() as nat);
    crate::binary64::lemma_units_increase(0, next.magnitude() as nat);
    let v: nat = (value.value() - min.value()) as nat;
    lemma_difference(value, min);
    assert(u * 1 == u);
    crate::binary64::law_rounding_respects_magnitudes(v, 1, 0x3f50_624d_d2f1_a9fd);
    let zero = Binary64 { bits: 0 };
    let least = Binary64 { bits: crate::graph::GRAPH_ACTIVITY_EPSILON_BITS };
    assert(zero.magnitude() == 0);
    assert(least.magnitude() == crate::graph::GRAPH_ACTIVITY_EPSILON_BITS);
}

/// A value at the top of the scale or above it fills the graph: four steps to each row.
pub proof fn law_values_at_the_top_fill_the_graph(
    value: Binary64,
    min: Binary64,
    max: Binary64,
    rows: nat,
)
    requires
        rows <= 0x1fff_ffff,
        is_scale(min, max),
        max.le(value),
        value.infinite() || stands_out(value, min),
    ensures
        crate::graph::steps(value, min, max, rows) == 4 * rows,
{
    let zero = Binary64 { bits: 0 };
    let one = Binary64 { bits: crate::graph::ONE_BITS };
    let least = Binary64 { bits: crate::graph::GRAPH_ACTIVITY_EPSILON_BITS };
    assert(zero.magnitude() == 0 && one.magnitude() == crate::graph::ONE_BITS);
    assert(least.magnitude() == crate::graph::GRAPH_ACTIVITY_EPSILON_BITS);
    lemma_scale_length(min, max);
    lemma_difference(max, min);
    crate::binary64::lemma_units_of_one();
    crate::binary64::law_small_whole_is_exact(4 * rows);
    lemma_pow2_pos(1074);
    let p: nat = pow2(1074);
    let scale = max.difference(min);
    let a = crate::graph::activity(value, min);
    let e: nat = crate::binary64::units(scale.magnitude() as nat);
    crate::binary64::lemma_units_increase(0, scale.magnitude() as nat);
    if value.infinite() {
        assert(!value.negative());
        assert(a == value);
    } else {
        lemma_stands_out(value, min);
        lemma_difference(value, min);
        crate::binary64::law_order_is_by_value(max, value);
        crate::binary64::law_rounding_keeps_order(
            (max.value() - min.value()) as nat,
            (value.value() - min.value()) as nat,
            1,
        );
        if a.finite() {
            let u: nat = crate::binary64::units(a.magnitude() as nat);
            crate::binary64::law_order_is_by_value(scale, a);
            assert(u * p >= p * e) by (nonlinear_arith)
                requires
                    u >= e,
            ;
            crate::binary64::law_rounding_respects_magnitudes(u * p, e, crate::graph::ONE_BITS);
        }
    }
    let share = crate::graph::clamped(a.quotient(scale));
    assert(share == one);
    let whole = Binary64::whole(4 * rows);
    let w: nat = crate::binary64::units(whole.magnitude() as nat);
    assert(p * w == w * p) by (nonlinear_arith);
    crate::binary64::law_rounding_respects_magnitudes(p * w, p, whole.magnitude());
    let product = share.product(whole);
    assert(product.magnitude() == whole.magnitude());
    assert((2 * w + p) / (2 * p) == 4 * rows) by {
        assert(2 * w + p == (4 * rows) * (2 * p) + p) by (nonlinear_arith)
            requires
                w == (4 * rows) * p,
        ;
        lemma_fundamental_div_mod_converse(
            (2 * w + p) as int,
            (2 * p) as int,
            (4 * rows) as int,
            p as int,
        );
    }
}

/// A value fills its share of the whole height, to the nearest step and a thousandth of one, but no
/// less than one step.
pub proof fn law_values_fill_their_share(
    value: Binary64,
    min: Binary64,
    max: Binary64,
    rows: nat,
)
    requires
        0 < rows <= 0x1fff_ffff,
        is_scale(min, max),
        stands_out(value, min),
    ensures
        ({
            let n = crate::graph::steps(value, min, max, rows);
            let above = value.value() - min.value();
            let length = max.value() - min.value();
            let filled = if above < length {
                above
            } else {
                length
            };
            let off = 1000 * (n * length - (4 * rows) * filled);
            -(501 * length) <= off <= 501 * length || (n == 1 && 1000 * ((4 * rows) * filled)
                <= 501 * length)
        }),
{
    let above: int = value.value() - min.value();
    let length: int = max.value() - min.value();
    if above >= length {
        crate::binary64::law_order_is_by_value(max, value);
        law_values_at_the_top_fill_the_graph(value, min, max, rows);
    } else {
        lemma_share_of_height(value, min, max, rows);
    }
}

proof fn lemma_rounds_close(num: nat)
    requires
        crate::binary64::nearest(num, 1) < crate::binary64::INFINITE,
    ensures
        ({
            let u = crate::binary64::units(crate::binary64::nearest(num, 1) as nat);
            -num <= 0x20_0000_0000_0000 * (u - num) <= num
        }),
{
    crate::binary64::law_rounding_is_close(num, 1);
    let u: nat = crate::binary64::units(crate::binary64::nearest(num, 1) as nat);
    assert(u * 1 == u);
}

#[verifier::spinoff_prover]
proof fn lemma_share_of_height(value: Binary64, min: Binary64, max: Binary64, rows: nat)
    requires
        0 < rows <= 0x1fff_ffff,
        is_scale(min, max),
        stands_out(value, min),
        value.value() - min.value() < max.value() - min.value(),
    ensures
        ({
            let n = crate::graph::steps(value, min, max, rows);
            let above = value.value() - min.value();
            let length = max.value() - min.value();
            let off = 1000 * (n * length - (4 * rows) * above);
            -(501 * length) <= off <= 501 * length || (n == 1 && 1000 * ((4 * rows) * above)
                <= 501 * length)
        }),
{
    let one = Binary64 { bits: crate::graph::ONE_BITS };
    let zero = Binary64 { bits: 0 };
    assert(zero.magnitude() == 0 && one.magnitude() == crate::graph::ONE_BITS);
    lemma_scale_length(min, max);
    lemma_stands_out(value, min);
    lemma_difference(max, min);
    lemma_difference(value, min);
    crate::binary64::lemma_units_of_one();
    crate::binary64::law_small_whole_is_exact(4 * rows);
    lemma_pow2_pos(1074);
    let p: nat = pow2(1074);
    lemma_unit_is_small();
    let v: nat = (value.value() - min.value()) as nat;
    let d: nat = (max.value() - min.value()) as nat;
    let scale = max.difference(min);
    let act = crate::graph::activity(value, min);
    crate::binary64::law_rounding_keeps_order(v, d, 1);
    let a: nat = crate::binary64::units(act.magnitude() as nat);
    let e: nat = crate::binary64::units(scale.magnitude() as nat);
    crate::binary64::lemma_units_increase(0, scale.magnitude() as nat);
    crate::binary64::law_order_is_by_value(act, scale);
    lemma_rounds_close(v);
    lemma_rounds_close(d);
    assert(a * p <= p * e) by (nonlinear_arith)
        requires
            a <= e,
    ;
    crate::binary64::law_rounding_respects_magnitudes(a * p, e, crate::graph::ONE_BITS);
    let quotient = act.quotient(scale);
    assert(quotient.magnitude() == crate::binary64::nearest(a * p, e));
    assert(!quotient.negative() && quotient.magnitude() <= crate::graph::ONE_BITS);
    let share = crate::graph::clamped(quotient);
    assert(share == quotient);
    let q: nat = crate::binary64::units(share.magnitude() as nat);
    crate::binary64::law_order_is_by_value(share, one);
    assert(q <= p);
    crate::binary64::law_rounding_is_close(a * p, e);
    assert(q * e >= 0 && a * p >= 0) by (nonlinear_arith)
        requires
            q >= 0,
            e >= 0,
            a >= 0,
            p >= 0,
    ;
    lemma_share_error(v as int, d as int, a as int, e as int, q as int, p as int);
    let h: nat = 4 * rows;
    let whole = Binary64::whole(h);
    let w: nat = crate::binary64::units(whole.magnitude() as nat);
    assert(w == h * p);
    let product = share.product(whole);
    let m: u64 = crate::binary64::nearest(q * w, p);
    assert(q * w <= w * p) by (nonlinear_arith)
        requires
            q <= p,
    ;
    crate::binary64::law_rounding_respects_magnitudes(q * w, p, whole.magnitude());
    assert(product.magnitude() == m && !product.negative());
    let t: nat = crate::binary64::units(m as nat);
    crate::binary64::law_rounding_is_close(q * w, p);
    assert(-(p * h + 0x20_0000_0000_0000) <= 0x20_0000_0000_0000 * (t - q * h) <= p * h
        + 0x20_0000_0000_0000) by {
        lemma_product_error(q as int, h as int, p as int, t as int);
    }
    let n: nat = (2 * t + p) / (2 * p);
    lemma_fundamental_div_mod((2 * t + p) as int, (2 * p) as int);
    assert((2 * p) * n == 2 * (p * n)) by (nonlinear_arith);
    lemma_height_error(v as int, d as int, q as int, p as int, h as int, t as int, n as int);
    assert(t <= w) by {
        if m < whole.magnitude() {
            crate::binary64::lemma_units_increase(m as nat, whole.magnitude() as nat);
        }
    }
    assert(n <= h) by {
        assert(2 * t + p < (h + 1) * (2 * p)) by (nonlinear_arith)
            requires
                t <= h * p,
                p > 0,
        ;
        lemma_multiply_divide_lt((2 * t + p) as int, (2 * p) as int, (h + 1) as int);
    }
    assert(product.nearest_i32() == n);
    if n == 0 {
        assert(0 * d == 0);
    }
}

proof fn lemma_unit_is_small()
    ensures
        pow2(1074) >= 0x40_0000_0000_0000,
{
    lemma2_to64();
    lemma2_to64_rest();
    lemma_pow2_strictly_increases(54, 1074);
    assert(pow2(54) == 0x40_0000_0000_0000);
}

proof fn lemma_product_error(q: int, h: int, p: int, t: int)
    requires
        0 <= q <= p,
        0 <= h,
        p > 0,
        q * (h * p) < p * 0x20_0000_0000_0000 ==> -p <= 2 * (t * p - q * (h * p)) <= p,
        q * (h * p) >= p * 0x20_0000_0000_0000 ==> -(q * (h * p)) <= 0x20_0000_0000_0000 * (t * p
            - q * (h * p)) <= q * (h * p),
    ensures
        -(p * h + 0x20_0000_0000_0000) <= 0x20_0000_0000_0000 * (t - q * h) <= p * h
            + 0x20_0000_0000_0000,
{
    let x: int = t - q * h;
    let g: int = q * h;
    assert(q * (h * p) == g * p && t * p - q * (h * p) == x * p) by (nonlinear_arith)
        requires
            x == t - q * h,
            g == q * h,
    ;
    assert(0 <= g <= p * h) by (nonlinear_arith)
        requires
            0 <= q <= p,
            0 <= h,
            g == q * h,
    ;
    if q * (h * p) < p * 0x20_0000_0000_0000 {
        assert(-1 <= 2 * x <= 1) by (nonlinear_arith)
            requires
                -p <= 2 * (x * p) <= p,
                p > 0,
        ;
    } else {
        assert(-g <= 0x20_0000_0000_0000 * x <= g) by (nonlinear_arith)
            requires
                -(g * p) <= 0x20_0000_0000_0000 * (x * p) <= g * p,
                p > 0,
        ;
    }
}

/// A value that is not above the bottom of a graph by more than a thousandth is blank, and so is what
/// is not a number.
pub proof fn law_quiet_values_are_blank(value: Binary64, min: Binary64, max: Binary64, rows: nat)
    requires
        min.finite(),
        value.nan() || (value.finite() && value.value() - min.value() <= (Binary64 {
            bits: 0x3f50_624d_d2f1_a9fc,
        }).value()),
    ensures
        crate::graph::steps(value, min, max, rows) == 0,
{
    let zero = Binary64 { bits: 0 };
    let least = Binary64 { bits: 0x3f50_624d_d2f1_a9fc };
    assert(zero.magnitude() == 0 && least.magnitude() == 0x3f50_624d_d2f1_a9fc);
    if value.finite() && value.value() > min.value() {
        lemma_difference(value, min);
        let v: nat = (value.value() - min.value()) as nat;
        let u: nat = crate::binary64::units(least.magnitude() as nat);
        assert(u * 1 == u);
        crate::binary64::law_rounding_respects_magnitudes(v, 1, 0x3f50_624d_d2f1_a9fc);
    } else if value.finite() {
        assert(min.opposite().magnitude() == min.magnitude());
        assert(min.opposite().value() == -min.value());
    }
}

/// Whether one of the dots of a Braille character is set, given the dot's worth.
pub open spec fn dot_set(glyph: char, worth: int) -> bool {
    (glyph as int) >= 0x2800 && ((glyph as int - 0x2800) / worth) % 2 == 1
}

/// The worth of the left dot of a row of dots, counted from the bottom.
pub open spec fn left_worth(dot: int) -> int {
    if dot == 0 {
        0x40
    } else if dot == 1 {
        0x04
    } else if dot == 2 {
        0x02
    } else {
        0x01
    }
}

/// The worth of the right dot of a row of dots, counted from the bottom.
pub open spec fn right_worth(dot: int) -> int {
    if dot == 0 {
        0x80
    } else if dot == 1 {
        0x20
    } else if dot == 2 {
        0x10
    } else {
        0x08
    }
}

proof fn lemma_dots(left: int, right: int, dot: int)
    requires
        0 <= left <= 4,
        0 <= right <= 4,
        0 <= dot < 4,
    ensures
        dot_set(crate::graph::braille(left, right), left_worth(dot)) <==> dot < left,
        dot_set(crate::graph::braille(left, right), right_worth(dot)) <==> dot < right,
{
}

/// The steps of a sample, none where it is missing.
pub open spec fn steps_of(
    sample: Option<Binary64>,
    min: Binary64,
    max: Binary64,
    rows: nat,
) -> int {
    match sample {
        Some(value) => crate::graph::steps(value, min, max, rows),
        None => 0,
    }
}

/// On a graph with a scale, a sample's bar has one dot for each of its steps, from the lowest row up,
/// four to a row: the first of two samples in the left half of its column, the other in the right.
pub proof fn law_bars_have_a_dot_for_each_step(
    chart: crate::graph::Chart,
    width: nat,
    row: int,
    col: int,
    dot: int,
)
    requires
        !chart.max.le(chart.min),
        0 <= row < chart.height,
        0 <= col < width,
        0 <= dot < 4,
    ensures
        chart.cells(width).len() == chart.height,
        chart.cells(width)[row].len() == width,
        ({
            let glyph = chart.cells(width)[row][col].0;
            let nth = 4 * (chart.height - 1 - row) + dot;
            &&& dot_set(glyph, left_worth(dot)) <==> nth < steps_of(
                chart.samples[2 * col],
                chart.min,
                chart.max,
                chart.height,
            )
            &&& dot_set(glyph, right_worth(dot)) <==> nth < steps_of(
                chart.samples[2 * col + 1],
                chart.min,
                chart.max,
                chart.height,
            )
        }),
{
    let left = chart.samples[2 * col];
    let right = chart.samples[2 * col + 1];
    if let Some(value) = left {
        crate::graph::law_active_values_show(value, chart.min, chart.max, chart.height);
    }
    if let Some(value) = right {
        crate::graph::law_active_values_show(value, chart.min, chart.max, chart.height);
    }
    let levels = chart.levels(row, col);
    lemma_dots(levels.0, levels.1, dot);
    if row == chart.height - 1 && !chart.visible(col) {
        assert(levels == (0int, 0int));
        lemma_dots(0, 0, dot);
    }
}

/// A graph shows the newest values, the newest one at its right end, two to a column.
pub proof fn law_graphs_show_the_newest_values(
    values: Seq<Binary64>,
    width: nat,
    height: nat,
    min: Binary64,
    max: Binary64,
    back: int,
)
    requires
        0 <= back < 2 * width,
    ensures
        crate::graph::chart_of(values, width, height, min, max).height == height,
        crate::graph::chart_of(values, width, height, min, max).min == min,
        crate::graph::chart_of(values, width, height, min, max).max == max,
        crate::graph::chart_of(values, width, height, min, max).samples.len() == 2 * width,
        crate::graph::chart_of(values, width, height, min, max).samples[2 * width - 1 - back]
            == Some(
            if back < values.len() {
                values[values.len() - 1 - back]
            } else {
                Binary64 { bits: 0 }
            },
        ),
{
}

/// The same of values that may be missing; what lies before the first is missing too.
pub proof fn law_optional_graphs_show_the_newest_values(
    values: Seq<Option<Binary64>>,
    width: nat,
    height: nat,
    min: Binary64,
    max: Binary64,
    back: int,
)
    requires
        0 <= back < 2 * width,
    ensures
        crate::graph::chart_of_optional(values, width, height, min, max).height == height,
        crate::graph::chart_of_optional(values, width, height, min, max).min == min,
        crate::graph::chart_of_optional(values, width, height, min, max).max == max,
        crate::graph::chart_of_optional(values, width, height, min, max).samples.len() == 2 * width,
        crate::graph::chart_of_optional(values, width, height, min, max).samples[2 * width - 1
            - back] == if back < values.len() {
            values[values.len() - 1 - back]
        } else {
            None
        },
{
}

proof fn lemma_compared(f: nat, n: nat, a: nat, b: nat, k: nat, fine: nat, m: nat)
    requires
        0 < n <= 0x1fff_ffff,
        0 < b <= 20,
        0 < k <= 1021,
        fine == pow2((1074 - k) as nat),
        fine >= 0x20_0000_0000_0000,
        0x10_0000_0000_0000 < m < 0x20_0000_0000_0000,
        crate::binary64::nearest(a * pow2(1074), b) == k * crate::binary64::LEADING + m,
        2 * (m * b) + b >= 2 * (a * fine),
    ensures
        crate::binary64::nearest(f * pow2(1074), n) >= crate::binary64::nearest(
            a * pow2(1074),
            b,
        ) <==> f * b >= a * n,
{
    let p: nat = pow2(1074);
    let limit: u64 = crate::binary64::nearest(a * p, b);
    assert(n * b > 0) by (nonlinear_arith)
        requires
            n > 0,
            b > 0,
    ;
    if f * b >= a * n {
        assert((f * p) * (n * b) == (f * p * b) * n && (a * p) * (n * b) == (a * p * n) * b)
            by (nonlinear_arith);
        crate::binary64::lemma_nearest_same_quotient(f * p, n, f * p * b, n * b);
        crate::binary64::lemma_nearest_same_quotient(a * p, b, a * p * n, n * b);
        assert(a * p * n <= f * p * b) by (nonlinear_arith)
            requires
                f * b >= a * n,
                p >= 0,
        ;
        crate::binary64::law_rounding_keeps_order(a * p * n, f * p * b, n * b);
    } else {
        let step: nat = pow2(k);
        lemma_pow2_adds((1074 - k) as nat, k);
        lemma_pow2_pos(k);
        let below: nat = (m - 1) as nat;
        crate::binary64::lemma_units_of(k, below);
        assert(k * crate::binary64::LEADING <= 1021 * crate::binary64::LEADING)
            by (nonlinear_arith)
            requires
                k <= 1021,
        ;
        assert(below * n >= f * fine) by {
            assert(3 * (b * n) <= 2 * fine) by (nonlinear_arith)
                requires
                    n <= 0x1fff_ffff,
                    b <= 20,
                    fine >= 0x20_0000_0000_0000,
            ;
            assert(2 * (f * fine * b) <= 2 * (a * n * fine) - 2 * fine) by (nonlinear_arith)
                requires
                    f * b <= a * n - 1,
                    fine > 0,
            ;
            assert(2 * (below * n * b) >= 2 * (a * n * fine) - 3 * (b * n)) by (nonlinear_arith)
                requires
                    2 * (m * b) + b >= 2 * (a * fine),
                    below == m - 1,
                    n > 0,
            ;
            assert(below * n >= f * fine) by (nonlinear_arith)
                requires
                    below * n * b >= f * fine * b,
                    b > 0,
            ;
        }
        assert(f * p <= (below * step) * n) by (nonlinear_arith)
            requires
                below * n >= f * fine,
                p == fine * step,
                step > 0,
        ;
        crate::binary64::law_rounding_respects_magnitudes(
            f * p,
            n,
            (k * crate::binary64::LEADING + below) as u64,
        );
    }
}

proof fn lemma_row_share(f: nat, n: nat)
    requires
        0 < n <= 0x1fff_ffff,
        f <= n,
    ensures
        Binary64::whole(f).quotient(Binary64::whole(n)) == (Binary64 {
            bits: crate::binary64::nearest(f * pow2(1074), n),
        }),
        crate::binary64::nearest(f * pow2(1074), n) <= crate::graph::ONE_BITS,
{
    let p: nat = pow2(1074);
    lemma_pow2_pos(1074);
    crate::binary64::law_small_whole_is_exact(f);
    crate::binary64::law_small_whole_is_exact(n);
    crate::binary64::lemma_units_of_one();
    assert(n * p > 0) by (nonlinear_arith)
        requires
            n > 0,
            p > 0,
    ;
    assert(((f * p) * p) * n == (f * p) * (n * p)) by (nonlinear_arith);
    crate::binary64::lemma_nearest_same_quotient((f * p) * p, n * p, f * p, n);
    assert(f * p <= p * n) by (nonlinear_arith)
        requires
            f <= n,
    ;
    crate::binary64::law_rounding_respects_magnitudes(f * p, n, crate::graph::ONE_BITS);
    let w = Binary64::whole(n);
    assert(w.magnitude() > 0) by {
        assert(crate::binary64::units(0) == 0);
    }
}

/// The color of a row goes by how far up the graph it is, from the lowest row to the top one: red
/// from seventeen twentieths, orange from thirteen, yellow from eight, and green below.
pub proof fn law_rows_are_colored_by_height(row: int, height: nat)
    requires
        1 < height <= 0x1fff_ffff,
        0 <= row < height,
    ensures
        ({
            let up = height - 1 - row;
            let most = height - 1;
            crate::graph::row_color(row, height) == if 20 * up >= 17 * most {
                crate::graph::HeatColor::Red
            } else if 20 * up >= 13 * most {
                crate::graph::HeatColor::Orange
            } else if 20 * up >= 8 * most {
                crate::graph::HeatColor::Yellow
            } else {
                crate::graph::HeatColor::Green
            }
        }),
{
    let f: nat = (height - 1 - row) as nat;
    let n: nat = (height - 1) as nat;
    lemma_row_share(f, n);
    lemma2_to64();
    lemma2_to64_rest();
    lemma_pow2_adds(1, 54);
    assert(pow2(55) == 0x80_0000_0000_0000);
    crate::binary64::lemma_fraction(17, 20, 1021, 0x1b_3333_3333_3333);
    crate::binary64::lemma_fraction(13, 20, 1021, 0x14_cccc_cccc_cccd);
    crate::binary64::lemma_fraction(2, 5, 1020, 0x19_9999_9999_999a);
    lemma_compared(f, n, 17, 20, 1021, pow2(53), 0x1b_3333_3333_3333);
    lemma_compared(f, n, 13, 20, 1021, pow2(53), 0x14_cccc_cccc_cccd);
    lemma_compared(f, n, 2, 5, 1020, pow2(54), 0x19_9999_9999_999a);
    let up = Binary64 { bits: crate::binary64::nearest(f * pow2(1074), n) };
    assert(up.magnitude() == up.bits);
    assert((Binary64 { bits: crate::graph::RED_FROM_BITS }).magnitude()
        == crate::graph::RED_FROM_BITS);
    assert((Binary64 { bits: crate::graph::ORANGE_FROM_BITS }).magnitude()
        == crate::graph::ORANGE_FROM_BITS);
    assert((Binary64 { bits: crate::graph::YELLOW_FROM_BITS }).magnitude()
        == crate::graph::YELLOW_FROM_BITS);
}

/// A graph of a single row is green.
pub proof fn law_single_rows_are_green(row: int, height: nat)
    requires
        height <= 1,
    ensures
        crate::graph::row_color(row, height) == crate::graph::HeatColor::Green,
{
}

/// Every cell of a row has the row's color.
pub proof fn law_cells_have_the_color_of_their_row(
    chart: crate::graph::Chart,
    width: nat,
    row: int,
    col: int,
)
    requires
        0 <= row < chart.height,
        0 <= col < width,
    ensures
        chart.cells(width)[row][col].1 == crate::graph::row_color(row, chart.height),
{
}

/// On a graph without a scale the lowest row has one dot for each sample that stands out, and all else
/// is blank.
pub proof fn law_flat_graphs_show_what_stands_out(
    chart: crate::graph::Chart,
    width: nat,
    row: int,
    col: int,
)
    requires
        chart.max.le(chart.min),
        0 <= row < chart.height,
        0 <= col < width,
    ensures
        ({
            let glyph = chart.cells(width)[row][col].0;
            let left = match chart.samples[2 * col] {
                Some(value) => crate::graph::active(value, chart.min),
                None => false,
            };
            let right = match chart.samples[2 * col + 1] {
                Some(value) => crate::graph::active(value, chart.min),
                None => false,
            };
            &&& row < chart.height - 1 ==> glyph == ' '
            &&& row == chart.height - 1 && !left && !right ==> glyph == ' '
            &&& row == chart.height - 1 && (left || right) ==> {
                &&& glyph as int == 0x2800 + (if left {
                    0x40int
                } else {
                    0
                }) + (if right {
                    0x80int
                } else {
                    0
                })
            }
        }),
{
    assert(chart.levels(row, col) == (0int, 0int));
    assert(!chart.visible(col)) by {
        if chart.visible(col) {
            let r = choose|r: int|
                0 <= r < chart.height && #[trigger] chart.levels(r, col) != (0int, 0int);
            assert(chart.levels(r, col) == (0int, 0int));
        }
    }
}

/// The extent of some numbers reaches from the smallest to the largest of them.
pub proof fn law_extents_reach_from_the_smallest_to_the_largest(values: Seq<Binary64>)
    requires
        values.len() > 0,
        forall|j: int| 0 <= j < values.len() ==> (#[trigger] values[j]).finite(),
    ensures
        ({
            let extent = crate::graph::extent(values);
            &&& extent is Some
            &&& values.contains((extent->0).0)
            &&& values.contains((extent->0).1)
            &&& forall|i: int|
                0 <= i < values.len() ==> (extent->0).0.le(#[trigger] values[i]) && values[i].le(
                    (extent->0).1,
                )
        }),
        crate::graph::extent(Seq::<Binary64>::empty()) is None,
    decreases values.len(),
{
    let front = values.drop_last();
    let last = values[values.len() - 1];
    assert(last.finite());
    assert(values.contains(last));
    if front.len() > 0 {
        assert forall|j: int| 0 <= j < front.len() implies (#[trigger] front[j]).finite() by {
            assert(front[j] == values[j]);
        }
        law_extents_reach_from_the_smallest_to_the_largest(front);
        let (min, max) = crate::graph::extent(front)->0;
        let a = choose|a: int| 0 <= a < front.len() && front[a] == min;
        let b = choose|b: int| 0 <= b < front.len() && front[b] == max;
        assert(values[a] == min && values[b] == max);
        assert forall|i: int| 0 <= i < values.len() implies (crate::graph::extent(
            values,
        )->0).0.le(#[trigger] values[i]) && values[i].le((crate::graph::extent(values)->0).1) by {
            if i < front.len() {
                assert(front[i] == values[i]);
            }
        }
    } else {
        assert(front =~= Seq::empty());
        assert(values[0] == last);
    }
}

/// A graph of nothing goes up to one. Else its top is a third and a bit more above the largest value,
/// and at least five above it; it is no more where the values differ by a quarter of the largest and
/// by one, and where they differ less, half of what is lacking is added before.
pub proof fn law_scales_leave_headroom(min: Binary64, max: Binary64)
    requires
        min.finite(),
        max.finite(),
    ensures
        ({
            let zero = Binary64 { bits: 0 };
            let one = Binary64 { bits: 0x3ff0_0000_0000_0000 };
            let top = crate::graph::scale_top(Some((min, max)));
            let plain = max.product(Binary64 { bits: 0x3ff5_9999_9999_999a }).larger(
                max.sum(Binary64 { bits: 0x4014_0000_0000_0000 }),
            ).larger(one);
            let wanted = max.product(Binary64 { bits: 0x3fd0_0000_0000_0000 }).larger(one);
            let span = max.difference(min).larger(zero);
            &&& max.le(zero) ==> top == one
            &&& crate::graph::scale_top(None) == one
            &&& !max.le(zero) ==> plain.le(top)
            &&& !max.le(zero) && wanted.le(span) ==> top == plain
            &&& !max.le(zero) && span.lt(wanted) ==> top == max.sum(
                wanted.difference(span).product(Binary64 { bits: 0x3fe0_0000_0000_0000 }),
            ).product(Binary64 { bits: 0x3ff5_9999_9999_999a }).larger(
                max.sum(Binary64 { bits: 0x4014_0000_0000_0000 }),
            ).larger(one)
        }),
{
    let zero = Binary64 { bits: 0 };
    let one = Binary64 { bits: 0x3ff0_0000_0000_0000 };
    let factor = Binary64 { bits: 0x3ff5_9999_9999_999a };
    let five = Binary64 { bits: 0x4014_0000_0000_0000 };
    let half = Binary64 { bits: 0x3fe0_0000_0000_0000 };
    assert(zero.magnitude() == 0 && one.magnitude() == 0x3ff0_0000_0000_0000);
    assert(factor.magnitude() == 0x3ff5_9999_9999_999a && five.magnitude()
        == 0x4014_0000_0000_0000);
    assert(half.magnitude() == 0x3fe0_0000_0000_0000);
    if !max.le(zero) {
        assert(!max.negative() && max.magnitude() > 0);
        let wanted = max.product(Binary64 { bits: 0x3fd0_0000_0000_0000 }).larger(one);
        let span = max.difference(min).larger(zero);
        crate::binary64::law_adding_does_not_shrink(max, five);
        assert((Binary64 { bits: 0x3fd0_0000_0000_0000 }).magnitude() == 0x3fd0_0000_0000_0000);
        if span.lt(wanted) {
            let extra = wanted.difference(span).product(half);
            crate::graph::lemma_gap_is_positive(wanted, span);
            crate::binary64::law_adding_does_not_shrink(max, extra);
            let base = max.sum(extra);
            crate::binary64::law_multiplying_keeps_order(max, base, factor);
        }
    }
}


/// A row is cut into runs of blanks, which have no color, and of dots, which have one.
pub proof fn law_dots_have_a_color(row: Seq<(char, crate::graph::HeatColor)>, i: int, k: int)
    requires
        0 <= i < crate::graph::runs(row).len(),
        0 <= k < crate::graph::runs(row)[i].text.len(),
    ensures
        crate::graph::runs(row)[i].text[k] == ' ' <==> crate::graph::runs(row)[i].color is None,
    decreases row.len(),
{
    if row.len() > 0 {
        let front = row.drop_last();
        let before = crate::graph::runs(front);
        let after = crate::graph::runs(row);
        if i < before.len() && k < before[i].text.len() {
            law_dots_have_a_color(front, i, k);
            if i < after.len() - 1 {
                assert(after[i] == before[i]);
            }
        }
    }
}

/// The lines of a graph have the text and the color of its runs, row by row.
pub proof fn law_lines_keep_text_and_color(
    cells: Seq<Seq<(char, crate::graph::HeatColor)>>,
    row: int,
    i: int,
)
    requires
        0 <= row < cells.len(),
        0 <= i < crate::graph::runs(cells[row]).len(),
    ensures
        ({
            let lines = crate::chips::run_lines(crate::graph::lines(cells));
            let run = crate::graph::runs(cells[row])[i];
            &&& lines.len() == cells.len()
            &&& lines[row].len() == crate::graph::runs(cells[row]).len()
            &&& lines[row][i].text == run.text
            &&& lines[row][i].tone.paint == match run.color {
                Some(color) => Some(crate::chips::Paint::Heat(color)),
                None => None,
            }
        }),
{
}

} // verus!
