//! How far rounding leads from exact results.
use crate::accuracy::{
    gap, in_unit, law_nearest_monotone, law_order_is_numeric, law_quotient_is_nearest,
    lemma_grid_position, lemma_grid_value, lemma_half_step, lemma_one, lemma_quotient_in_unit,
    lemma_representable, lemma_shares_sum, lemma_unit_value, lemma_units_monotone, lemma_zero_units,
};
use crate::domain::{running_sum, zero};
use crate::float32::{
    abs_int, lemma_nearest_bound, magnitude_units, of_count, product, quotient, sum, Float32,
};
use crate::rounding::{binade, half_even, lemma_binade_exists, nearest, INFINITE_MAGNITUDE};
use vstd::arithmetic::power2::{lemma2_to64, lemma_pow2_adds, lemma_pow2_pos, pow2};
use vstd::prelude::*;

verus! {

/// A rounded quotient is off by no more than one part in `2^24`, and one unit.
pub(crate) proof fn lemma_nearest_error(n: nat, d: nat)
    requires
        d > 0,
        nearest(n, d) < INFINITE_MAGNITUDE,
    ensures
        0x100_0000 * gap(magnitude_units(nearest(n, d)) * d as int, n as int) <= n + 0x100_0000
            * d,
{
    lemma_binade_exists(n, d);
    let k = binade(n, d);
    let p = pow2(k);
    let s = d * p;
    let h = half_even(n, s);
    lemma_pow2_pos(k);
    lemma_grid_position(n, d, k);
    lemma_grid_value(k, h);
    assert(s > 0) by (nonlinear_arith)
        requires
            s == d * p,
            d > 0,
            p > 0,
    ;
    assert((h * p) * d == h * s) by (nonlinear_arith)
        requires
            s == d * p,
    ;
    lemma_half_step(n, s);
    lemma2_to64();
    if k == 0 {
        assert(d * 1 == d);
    } else {
        lemma_pow2_adds(23, k);
        assert(d * pow2((23 + k) as nat) == 0x80_0000 * s) by (nonlinear_arith)
            requires
                s == d * p,
                pow2((23 + k) as nat) == 0x80_0000 * p,
        ;
    }
}

/// A sum is off by no more than one part in `2^24`, and one unit.
pub(crate) proof fn lemma_sum_error(a: Float32, b: Float32)
    requires
        a.finite(),
        b.finite(),
        sum(a, b).finite(),
    ensures
        0x100_0000 * gap(sum(a, b).units(), a.units() + b.units()) <= abs_int(
            a.units() + b.units(),
        ) + 0x100_0000,
{
    let s = a.units() + b.units();
    reveal(sum);
    lemma_zero_units(0);
    lemma_nearest_bound(abs_int(s), 1);
    if s != 0 {
        lemma_nearest_error(abs_int(s), 1);
        let m = magnitude_units(nearest(abs_int(s), 1));
        assert(m * 1 == m);
    }
}

/// A number that is not negative has the value of its rank.
pub(crate) proof fn lemma_rank_value(x: Float32)
    requires
        x.rank() >= 0,
    ensures
        x.magnitude() == x.rank(),
        x.units() == magnitude_units(x.magnitude()),
{
    lemma_zero_units(0);
}

/// A quotient of numbers that are not negative, by values.
pub(crate) proof fn lemma_quotient_error(a: Float32, b: Float32)
    requires
        a.finite(),
        b.finite(),
        a.rank() >= 0,
        b.rank() > 0,
        quotient(a, b).finite(),
    ensures
        quotient(a, b).rank() == nearest((a.units() * pow2(149)) as nat, b.units() as nat),
        quotient(a, b).units() >= 0,
        b.units() > 0,
        0x100_0000 * gap(quotient(a, b).units() * b.units(), a.units() * pow2(149)) <= a.units()
            * pow2(149) + 0x100_0000 * b.units(),
{
    lemma_rank_value(a);
    lemma_rank_value(b);
    lemma_zero_units(b.magnitude());
    law_quotient_is_nearest(a, b);
    lemma_rank_value(quotient(a, b));
    lemma_nearest_error(
        magnitude_units(a.magnitude()) * pow2(149),
        magnitude_units(b.magnitude()),
    );
}

/// A product of numbers that are not negative, by values.
pub(crate) proof fn lemma_product_error(a: Float32, b: Float32)
    requires
        a.finite(),
        b.finite(),
        a.rank() >= 0,
        b.rank() >= 0,
        product(a, b).finite(),
    ensures
        product(a, b).units() >= 0,
        product(a, b).units() == magnitude_units(
            nearest((a.units() * b.units()) as nat, pow2(149)),
        ),
        0x100_0000 * gap(product(a, b).units() * pow2(149), a.units() * b.units()) <= a.units()
            * b.units() + 0x100_0000 * pow2(149),
{
    lemma_rank_value(a);
    lemma_rank_value(b);
    lemma_pow2_pos(149);
    let (x, y, p) = (magnitude_units(a.magnitude()), magnitude_units(b.magnitude()), pow2(149));
    lemma_nearest_bound(x * y, p);
    let m = nearest(x * y, p);
    lemma_zero_units(0);
    assert(product(a, b).magnitude() == m) by {
        reveal(product);
    }
    assert(product(a, b).units() == magnitude_units(m)) by {
        reveal(product);
        if a.negative() != b.negative() {
            lemma_zero_units(a.magnitude());
            lemma_zero_units(b.magnitude());
            assert(x * y == 0) by (nonlinear_arith)
                requires
                    x == 0 || y == 0,
            ;
            lemma_one();
            assert(0 * 1 <= 0 * p);
            law_nearest_monotone(0, p, 0, 1);
        }
    }
    lemma_nearest_error(x * y, p);
}

/// The exact sum of finite numbers, in units of `2^-149`.
pub open spec fn exact_sum(values: Seq<Float32>) -> int
    decreases values.len(),
{
    if values.len() == 0 {
        0
    } else {
        exact_sum(values.drop_last()) + values.last().units()
    }
}

/// What one rounding of a sum of up to ten shares can be off, `2^24` times.
pub open spec fn one_rounding() -> int {
    10 * pow2(149) as int + 0x100_0000
}

/// Adding up to ten shares one after the other is off by no more than so many roundings.
pub(crate) proof fn lemma_running_error(values: Seq<Float32>)
    requires
        values.len() <= 10,
        forall|i: int| 0 <= i < values.len() ==> in_unit(#[trigger] values[i]),
    ensures
        running_sum(values).finite(),
        0 <= running_sum(values).units() <= values.len() * pow2(149),
        0x100_0000 * gap(running_sum(values).units(), exact_sum(values)) <= values.len()
            * one_rounding(),
    decreases values.len(),
{
    lemma_shares_sum(values);
    let n = values.len() as int;
    if n == 0 {
        lemma_zero_units(0);
        assert(running_sum(values).units() == 0);
        assert(0 * one_rounding() == 0);
    } else {
        let front = values.drop_last();
        assert forall|i: int| 0 <= i < front.len() implies in_unit(#[trigger] front[i]) by {
            assert(front[i] == values[i]);
        }
        lemma_running_error(front);
        assert(in_unit(values[n - 1]));
        lemma_unit_value(values.last());
        let (p, c) = (pow2(149) as int, one_rounding());
        assert((n - 1) * p + p <= 10 * p && (n - 1) * c + c == n * c) by (nonlinear_arith)
            requires
                n <= 10,
                p >= 0,
        ;
        lemma_sum_error(running_sum(front), values.last());
    }
}

/// A number by a whole one that is not smaller is a share, off by one rounding.
pub(crate) proof fn lemma_fraction_error(t: Float32, b: Float32, k: int)
    requires
        t.finite(),
        b.finite(),
        k > 0,
        b.units() == k * pow2(149),
        0 <= t.units() <= k * pow2(149),
    ensures
        in_unit(quotient(t, b)),
        0x100_0000 * gap(k * quotient(t, b).units(), t.units()) <= t.units() + k * 0x100_0000,
{
    let p = pow2(149) as int;
    lemma_pow2_pos(149);
    assert(k * p > 0) by (nonlinear_arith)
        requires
            k > 0,
            p > 0,
    ;
    lemma_zero_units(0);
    law_order_is_numeric(zero(), t);
    law_order_is_numeric(zero(), b);
    law_order_is_numeric(t, b);
    lemma_quotient_in_unit(t, b);
    let a = quotient(t, b);
    lemma_unit_value(a);
    lemma_quotient_error(t, b);
    let (u, v) = (a.units(), t.units());
    let x = k * u - v;
    assert(u * (k * p) - v * p == x * p) by (nonlinear_arith)
        requires
            x == k * u - v,
    ;
    assert(abs_int(x * p) == abs_int(x) * p) by (nonlinear_arith)
        requires
            p > 0,
            abs_int(x) == (if x < 0 {
                -x
            } else {
                x
            }),
            abs_int(x * p) == (if x * p < 0 {
                -(x * p)
            } else {
                x * p
            }),
    ;
    let g = abs_int(x) as int;
    assert(0x100_0000 * g <= v + k * 0x100_0000) by (nonlinear_arith)
        requires
            0x100_0000 * (g * p) <= v * p + 0x100_0000 * (k * p),
            p > 0,
    ;
}

/// One is many units.
pub(crate) proof fn lemma_large_unit()
    ensures
        pow2(149) >= 0x1_0000_0000_0000_0000,
{
    lemma2_to64();
    lemma_pow2_adds(64, 85);
    lemma_pow2_pos(85);
    let (p, q) = (pow2(149), pow2(85));
    assert(p >= 0x1_0000_0000_0000_0000) by (nonlinear_arith)
        requires
            p == 0x1_0000_0000_0000_0000 * q,
            q > 0,
    ;
}

/// A large count is a large number.
pub(crate) proof fn lemma_large_count(size: nat)
    requires
        0x10_0000 <= size <= 0x1_0000_0000_0000_0000,
    ensures
        of_count(size).finite(),
        0x10_0000 * pow2(149) <= of_count(size).units() <= pow2(213),
{
    let p = pow2(149);
    let (low, mid, high) = (0x10_0000 * p, size * p, pow2(213));
    lemma2_to64();
    lemma_pow2_adds(64, 149);
    lemma_pow2_adds(13, 200);
    lemma_representable(0x10_0000, 149);
    lemma_representable(0x2000, 200);
    assert(low <= mid <= high) by (nonlinear_arith)
        requires
            low == 0x10_0000 * p,
            mid == size * p,
            high == 0x1_0000_0000_0000_0000 * p,
            0x10_0000 <= size <= 0x1_0000_0000_0000_0000,
    ;
    law_nearest_monotone(low, 1, mid, 1);
    law_nearest_monotone(mid, 1, high, 1);
    reveal(of_count);
    lemma_units_monotone(nearest(low, 1), nearest(mid, 1));
    lemma_units_monotone(nearest(mid, 1), nearest(high, 1));
}

} // verus!
