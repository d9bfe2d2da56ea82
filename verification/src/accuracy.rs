//! What rounding keeps: order, exact values, and the range of shares and outputs.
use crate::catalog::sound_caps;
use crate::contract::{
    contract_average, contract_failure, greatest_average, known_shares, least_average, slot_skin,
    slots_failure, Slot, ONE_BITS, TEN_BITS,
};
use crate::domain::{
    adjusted, average, cap_span, float_failure, predicted_output, running_sum, zero, Skin,
};
use crate::float32::{
    abs_int, difference, grid_exponent, lemma_nearest_bound, magnitude_units, not_above, of_count,
    opposite, product, quotient, significand, signed, sum, Float32,
};
use crate::rounding::{
    binade, half_even, in_binade, lemma_binade_exists, lemma_binade_is, lemma_half_even_exact,
    lemma_pow2_monotone, nearest, INFINITE_MAGNITUDE,
};
use vstd::arithmetic::div_mod::lemma_fundamental_div_mod;
use vstd::arithmetic::power2::{
    lemma2_to64, lemma_pow2_adds, lemma_pow2_pos, lemma_pow2_unfold, pow2,
};
use vstd::prelude::*;

verus! {

/// Rounding to an integer keeps the order of quotients.
pub proof fn lemma_half_even_monotone(n1: nat, d1: nat, n2: nat, d2: nat)
    requires
        d1 > 0,
        d2 > 0,
        n1 * d2 <= n2 * d1,
    ensures
        half_even(n1, d1) <= half_even(n2, d2),
{
    let (q1, r1) = ((n1 / d1) as int, (n1 % d1) as int);
    let (q2, r2) = ((n2 / d2) as int, (n2 % d2) as int);
    lemma_fundamental_div_mod(n1 as int, d1 as int);
    lemma_fundamental_div_mod(n2 as int, d2 as int);
    assert(q1 <= q2) by (nonlinear_arith)
        requires
            n1 == d1 * q1 + r1,
            n2 == d2 * q2 + r2,
            0 <= r1 < d1,
            0 <= r2 < d2,
            n1 * d2 <= n2 * d1,
    ;
    if q1 == q2 {
        assert(r1 * d2 <= r2 * d1) by (nonlinear_arith)
            requires
                n1 == d1 * q1 + r1,
                n2 == d2 * q2 + r2,
                q1 == q2,
                n1 * d2 <= n2 * d1,
        ;
        assert(2 * r1 > d1 ==> 2 * r2 > d2) by (nonlinear_arith)
            requires
                r1 * d2 <= r2 * d1,
                d1 > 0,
                d2 > 0,
        ;
        assert(2 * r1 >= d1 ==> 2 * r2 >= d2) by (nonlinear_arith)
            requires
                r1 * d2 <= r2 * d1,
                d1 > 0,
                d2 > 0,
        ;
    }
}

/// The position on the grid within one binade.
pub(crate) proof fn lemma_grid_position(n: nat, d: nat, k: nat)
    requires
        d > 0,
        in_binade(n, d, k),
    ensures
        half_even(n, d * pow2(k)) <= 0x100_0000,
        k > 0 ==> half_even(n, d * pow2(k)) >= 0x80_0000,
{
    lemma2_to64();
    lemma_pow2_pos(k);
    lemma_pow2_adds(24, k);
    lemma_pow2_adds(23, k);
    let s = d * pow2(k);
    assert(s > 0) by (nonlinear_arith)
        requires
            s == d * pow2(k),
            d > 0,
            pow2(k) > 0,
    ;
    assert(d * pow2(24 + k) == 0x100_0000 * s) by (nonlinear_arith)
        requires
            s == d * pow2(k),
            pow2(24 + k) == 0x100_0000 * pow2(k),
    ;
    assert(n * s <= (0x100_0000 * s) * s) by (nonlinear_arith)
        requires
            n <= 0x100_0000 * s,
    ;
    lemma_half_even_monotone(n, s, 0x100_0000 * s, s);
    lemma_half_even_exact(0x100_0000, s);
    if k > 0 {
        assert(d * pow2((23 + k) as nat) == 0x80_0000 * s) by (nonlinear_arith)
            requires
                s == d * pow2(k),
                pow2((23 + k) as nat) == 0x80_0000 * pow2(k),
        ;
        assert((0x80_0000 * s) * s <= n * s) by (nonlinear_arith)
            requires
                0x80_0000 * s <= n,
        ;
        lemma_half_even_monotone(0x80_0000 * s, s, n, s);
        lemma_half_even_exact(0x80_0000, s);
    }
}

/// Rounding keeps the order of magnitudes.
pub proof fn law_nearest_monotone(n1: nat, d1: nat, n2: nat, d2: nat)
    requires
        d1 > 0,
        d2 > 0,
        n1 * d2 <= n2 * d1,
    ensures
        nearest(n1, d1) <= nearest(n2, d2),
{
    lemma_binade_exists(n1, d1);
    lemma_binade_exists(n2, d2);
    let (k1, k2) = (binade(n1, d1), binade(n2, d2));
    let (p1, p2) = (pow2(k1), pow2(k2));
    lemma_pow2_pos(k1);
    lemma_pow2_pos(k2);
    lemma_grid_position(n1, d1, k1);
    lemma_grid_position(n2, d2, k2);
    if k1 == k2 {
        assert(n1 * (d2 * p1) <= n2 * (d1 * p1) && d1 * p1 > 0 && d2 * p1 > 0)
            by (nonlinear_arith)
            requires
                n1 * d2 <= n2 * d1,
                p1 > 0,
                d1 > 0,
                d2 > 0,
        ;
        lemma_half_even_monotone(n1, d1 * p1, n2, d2 * p1);
    } else if k1 > k2 {
        lemma_pow2_monotone(24 + k2, (23 + k1) as nat);
        let (a, b) = (pow2((23 + k1) as nat), pow2(24 + k2));
        assert(false) by (nonlinear_arith)
            requires
                d1 * a <= n1,
                n2 < d2 * b,
                b <= a,
                n1 * d2 <= n2 * d1,
                d1 > 0,
                d2 > 0,
        ;
    }
}

/// A finite magnitude is its own nearest.
pub proof fn law_nearest_exact(m: nat)
    requires
        m < INFINITE_MAGNITUDE,
    ensures
        nearest(magnitude_units(m), 1) == m,
{
    let (g, k) = (significand(m), grid_exponent(m));
    let p = pow2(k);
    lemma2_to64();
    lemma_pow2_pos(k);
    lemma_pow2_adds(24, k);
    lemma_pow2_adds(23, k);
    assert(g * p < 0x100_0000 * p) by (nonlinear_arith)
        requires
            g < 0x100_0000,
            p > 0,
    ;
    assert(g >= 0x80_0000 ==> 0x80_0000 * p <= g * p) by (nonlinear_arith)
        requires
            p > 0,
    ;
    assert(1 * pow2(24 + k) == pow2(24 + k));
    assert(1 * pow2((23 + k) as nat) == pow2((23 + k) as nat));
    assert(1 * p == p);
    assert(in_binade(g * p, 1, k));
    lemma_binade_is(g * p, 1, k);
    lemma_half_even_exact(g, p);
    if m >= 0x80_0000 {
        assert(m == (m / 0x80_0000) * 0x80_0000 + m % 0x80_0000);
        assert(k * 0x80_0000 + g == m);
    }
}

/// The distance of two values.
pub open spec fn gap(a: int, b: int) -> nat {
    abs_int(a - b)
}

/// The value at a position on the grid of one binade.
pub(crate) proof fn lemma_grid_value(k: nat, h: nat)
    requires
        h <= 0x100_0000,
        k > 0 ==> h >= 0x80_0000,
    ensures
        magnitude_units((k * 0x80_0000 + h) as nat) == h * pow2(k),
{
    let m = (k * 0x80_0000 + h) as nat;
    if h == 0x100_0000 {
        assert(m / 0x80_0000 == k + 2 && m % 0x80_0000 == 0);
        lemma_pow2_unfold(k + 1);
        assert(0x80_0000 * pow2(k + 1) == 0x100_0000 * pow2(k)) by (nonlinear_arith)
            requires
                pow2(k + 1) == 2 * pow2(k),
        ;
    } else if h >= 0x80_0000 {
        assert(m / 0x80_0000 == k + 1 && m % 0x80_0000 == h - 0x80_0000);
    }
}

/// A rounded quotient is at most half a step off.
pub(crate) proof fn lemma_half_step(n: nat, d: nat)
    requires
        d > 0,
    ensures
        2 * gap(half_even(n, d) * d as int, n as int) <= d,
{
    let (q, r) = ((n / d) as int, (n % d) as int);
    lemma_fundamental_div_mod(n as int, d as int);
    assert(q * d == d * q && (q + 1) * d == d * q + d) by (nonlinear_arith);
}

/// Other multiples of the step are no closer.
proof fn lemma_no_closer_multiple(n: nat, d: nat, j: nat)
    requires
        d > 0,
    ensures
        gap(half_even(n, d) * d as int, n as int) <= gap(j * d as int, n as int),
{
    let h = half_even(n, d);
    lemma_half_step(n, d);
    if j > h {
        assert(j * d >= h * d + d) by (nonlinear_arith)
            requires
                j >= h + 1,
                d > 0,
        ;
    } else if j < h {
        assert(j * d + d <= h * d) by (nonlinear_arith)
            requires
                j + 1 <= h,
                d > 0,
        ;
    }
}

/// No finite magnitude is closer to a value than the one that it is rounded to.
pub proof fn law_nearest_is_closest(n: nat, d: nat, m: nat)
    requires
        d > 0,
        nearest(n, d) < INFINITE_MAGNITUDE,
        m < INFINITE_MAGNITUDE,
    ensures
        gap(magnitude_units(nearest(n, d)) * d as int, n as int) <= gap(
            magnitude_units(m) * d as int,
            n as int,
        ),
{
    lemma_binade_exists(n, d);
    let k = binade(n, d);
    let (p, u) = (pow2(k), magnitude_units(m));
    let s = d * p;
    let h = half_even(n, s);
    lemma_pow2_pos(k);
    lemma_grid_position(n, d, k);
    lemma_grid_value(k, h);
    assert(s > 0) by (nonlinear_arith)
        requires
            s == d * p,
            d > 0,
            p > 0,
    ;
    assert((h * p) * d == h * s) by (nonlinear_arith)
        requires
            s == d * p,
    ;
    let (g, e) = (significand(m), grid_exponent(m));
    if e >= k {
        let c = pow2((e - k) as nat);
        lemma_pow2_adds(k, (e - k) as nat);
        assert(u * d == (g * c) * s) by (nonlinear_arith)
            requires
                u == g * (p * c),
                s == d * p,
        ;
        lemma_no_closer_multiple(n, s, g * c);
    } else {
        let b = pow2(e);
        lemma2_to64();
        lemma_pow2_adds(23, k);
        lemma_pow2_unfold(e + 1);
        lemma_pow2_monotone(e + 1, k);
        assert(d * pow2((23 + k) as nat) == 0x80_0000 * s) by (nonlinear_arith)
            requires
                s == d * p,
                pow2((23 + k) as nat) == 0x80_0000 * p,
        ;
        assert(u * d <= 0x80_0000 * s) by (nonlinear_arith)
            requires
                u == g * b,
                g <= 0x100_0000,
                2 * b <= p,
                s == d * p,
        ;
        lemma_no_closer_multiple(n, s, 0x80_0000);
    }
}

/// Finite magnitudes are ordered as their encodings are.
pub proof fn lemma_units_monotone(a: nat, b: nat)
    requires
        a < INFINITE_MAGNITUDE,
        b < INFINITE_MAGNITUDE,
    ensures
        a < b <==> magnitude_units(a) < magnitude_units(b),
        a == b <==> magnitude_units(a) == magnitude_units(b),
{
    law_nearest_exact(a);
    law_nearest_exact(b);
    if magnitude_units(a) <= magnitude_units(b) {
        law_nearest_monotone(magnitude_units(a), 1, magnitude_units(b), 1);
    }
    if magnitude_units(b) <= magnitude_units(a) {
        law_nearest_monotone(magnitude_units(b), 1, magnitude_units(a), 1);
    }
}

/// Signs keep an order of magnitudes that starts at zero.
proof fn lemma_signs_keep_order(a: bool, x: nat, u: nat, b: bool, y: nat, v: nat)
    requires
        x < y <==> u < v,
        x == y <==> u == v,
        x == 0 <==> u == 0,
        y == 0 <==> v == 0,
    ensures
        ({
            let (p, q) = (if a { -x } else { x as int }, if b { -y } else { y as int });
            let (s, t) = (if a { -u } else { u as int }, if b { -v } else { v as int });
            (p < q <==> s < t) && (p == q <==> s == t)
        }),
{
}

/// Only zero is worth nothing.
pub(crate) proof fn lemma_zero_units(m: nat)
    requires
        m < INFINITE_MAGNITUDE,
    ensures
        m == 0 <==> magnitude_units(m) == 0,
{
    lemma2_to64();
    assert(magnitude_units(0) == 0 * pow2(0));
    lemma_units_monotone(0, m);
}

/// The comparison of finite numbers is the comparison of their values.
pub proof fn law_order_is_numeric(a: Float32, b: Float32)
    requires
        a.finite(),
        b.finite(),
    ensures
        a.rank() < b.rank() <==> a.units() < b.units(),
        a.rank() == b.rank() <==> a.units() == b.units(),
{
    let (x, y) = (a.magnitude(), b.magnitude());
    lemma_units_monotone(x, y);
    lemma_zero_units(x);
    lemma_zero_units(y);
    lemma_signs_keep_order(
        a.negative(),
        x,
        magnitude_units(x),
        b.negative(),
        y,
        magnitude_units(y),
    );
}

/// A number between zero and one.
pub open spec fn in_unit(x: Float32) -> bool {
    not_above(zero(), x) && not_above(x, Float32 { bits: ONE_BITS })
}

/// One, in units of `2^-149`.
pub(crate) proof fn lemma_one()
    ensures
        magnitude_units(ONE_BITS as nat) == pow2(149),
        nearest(pow2(149), 1) == ONE_BITS,
        nearest(0, 1) == 0,
{
    lemma2_to64();
    lemma_pow2_adds(23, 126);
    assert(grid_exponent(0x3f80_0000) == 126);
    assert(significand(0x3f80_0000) == 0x80_0000);
    law_nearest_exact(0x3f80_0000);
    law_nearest_exact(0);
    assert(magnitude_units(0) == 0 * pow2(0));
}

/// A quotient of a number by one that is not smaller lies between zero and one.
pub(crate) proof fn lemma_quotient_in_unit(a: Float32, b: Float32)
    requires
        a.finite(),
        b.finite(),
        0 <= a.rank() <= b.rank(),
        b.rank() > 0,
    ensures
        in_unit(quotient(a, b)),
{
    reveal(quotient);
    let (m, o) = (a.magnitude(), b.magnitude());
    let (x, y, p) = (magnitude_units(m), magnitude_units(o), pow2(149));
    lemma_one();
    lemma_units_monotone(m, o);
    lemma_units_monotone(0, o);
    lemma_units_monotone(0, m);
    lemma2_to64();
    assert(magnitude_units(0) == 0 * pow2(0));
    assert(x * p * 1 <= p * y) by (nonlinear_arith)
        requires
            x <= y,
    ;
    law_nearest_monotone(x * p, y, p, 1);
    if m == 0 {
        assert(0 * p * 1 <= 0 * y) by (nonlinear_arith);
        law_nearest_monotone(0 * p, y, 0, 1);
    }
}

/// The adjusted float of an accepted float lies between zero and one, wherever
/// the width of the caps is itself a finite number.
pub proof fn law_adjusted_in_unit(raw: Float32, skin: Skin)
    requires
        float_failure(raw, skin) is None,
        cap_span(skin).finite(),
    ensures
        in_unit(adjusted(raw, skin)),
{
    let (low, high) = (skin.min_float, skin.max_float);
    let a = difference(raw, low);
    let b = cap_span(skin);
    reveal(sum);
    assert(low.finite() && high.finite());
    law_order_is_numeric(raw, low);
    law_order_is_numeric(high, raw);
    law_order_is_numeric(high, low);
    let (s, t) = (raw.units() - low.units(), high.units() - low.units());
    assert(opposite(low).units() == -low.units());
    assert(0 <= s <= t);
    lemma_one();
    if t == 0 {
        assert(b.rank() == 0);
        assert(false);
    }
    law_nearest_monotone(s as nat, 1, t as nat, 1);
    if s == 0 {
        assert(a.magnitude() == 0);
    } else {
        assert(a == signed(false, nearest(s as nat, 1)));
    }
    assert(b == signed(false, nearest(t as nat, 1)));
    lemma_quotient_in_unit(a, b);
}

/// Multiples of powers of two by small numbers are exact.
pub proof fn lemma_representable(g: nat, k: nat)
    requires
        g <= 0x100_0000,
        k <= 200,
    ensures
        nearest(g * pow2(k), 1) < INFINITE_MAGNITUDE,
        magnitude_units(nearest(g * pow2(k), 1)) == g * pow2(k),
    decreases k,
{
    lemma2_to64();
    lemma_pow2_unfold(k + 1);
    if g >= 0x100_0000 {
        let m = ((k + 1) * 0x80_0000 + 0x80_0000) as nat;
        assert(m / 0x80_0000 == k + 2 && m % 0x80_0000 == 0);
        assert(0x80_0000 * pow2(k + 1) == 0x100_0000 * pow2(k)) by (nonlinear_arith)
            requires
                pow2(k + 1) == 2 * pow2(k),
        ;
        law_nearest_exact(m);
    } else if g >= 0x80_0000 {
        let m = (k * 0x80_0000 + g) as nat;
        assert(m / 0x80_0000 == k + 1 && m % 0x80_0000 == g - 0x80_0000);
        law_nearest_exact(m);
    } else if k == 0 {
        law_nearest_exact(g);
    } else {
        lemma_representable(2 * g, (k - 1) as nat);
        lemma_pow2_unfold(k);
        assert((2 * g) * pow2((k - 1) as nat) == g * pow2(k)) by (nonlinear_arith)
            requires
                pow2(k) == 2 * pow2((k - 1) as nat),
        ;
    }
}

/// A sum of two non-negative numbers, bounded by a representable one.
pub(crate) proof fn lemma_sum_bounded(a: Float32, b: Float32, bound: nat)
    requires
        a.finite(),
        b.finite(),
        a.units() >= 0,
        b.units() >= 0,
        a.units() + b.units() <= bound,
        nearest(bound, 1) < INFINITE_MAGNITUDE,
        magnitude_units(nearest(bound, 1)) == bound,
    ensures
        sum(a, b).finite(),
        a.units() <= sum(a, b).units() <= bound,
        b.units() <= sum(a, b).units(),
{
    reveal(sum);
    let s = a.units() + b.units();
    let m = nearest(s as nat, 1);
    lemma_one();
    law_nearest_exact(a.magnitude());
    law_nearest_exact(b.magnitude());
    law_nearest_monotone(s as nat, 1, bound, 1);
    law_nearest_monotone(a.units() as nat, 1, s as nat, 1);
    law_nearest_monotone(b.units() as nat, 1, s as nat, 1);
    lemma_units_monotone(m, nearest(bound, 1));
    lemma_units_monotone(a.magnitude(), m);
    lemma_units_monotone(b.magnitude(), m);
    lemma_units_monotone(0, m);
    lemma_units_monotone(0, a.magnitude());
    lemma_units_monotone(0, b.magnitude());
    lemma2_to64();
    assert(magnitude_units(0) == 0 * pow2(0));
}

/// A share lies between zero and one also by value.
pub(crate) proof fn lemma_unit_value(x: Float32)
    requires
        in_unit(x),
    ensures
        x.finite(),
        0 <= x.units() <= pow2(149),
{
    lemma_one();
    law_order_is_numeric(zero(), x);
    law_order_is_numeric(x, Float32 { bits: ONE_BITS });
    lemma2_to64();
    assert(magnitude_units(0) == 0 * pow2(0));
}

/// Shares add up to no more than their number.
pub proof fn lemma_shares_sum(values: Seq<Float32>)
    requires
        values.len() <= 0x100_0000,
        forall|i: int| 0 <= i < values.len() ==> in_unit(#[trigger] values[i]),
    ensures
        running_sum(values).finite(),
        0 <= running_sum(values).units() <= values.len() * pow2(149),
    decreases values.len(),
{
    lemma2_to64();
    if values.len() == 0 {
        assert(magnitude_units(0) == 0 * pow2(0));
        assert(0 * pow2(149) == 0);
    } else {
        let front = values.drop_last();
        assert forall|i: int| 0 <= i < front.len() implies in_unit(#[trigger] front[i]) by {
            assert(front[i] == values[i]);
        }
        lemma_shares_sum(front);
        assert(in_unit(values[values.len() - 1]));
        lemma_unit_value(values.last());
        let (n, p) = (values.len(), pow2(149));
        assert(front.len() * p + p == n * p) by (nonlinear_arith)
            requires
                front.len() + 1 == n,
        ;
        lemma_representable(n, 149);
        lemma_sum_bounded(running_sum(front), values.last(), n * p);
    }
}

/// A count up to sixteen million is exact.
pub proof fn lemma_count_exact(n: nat)
    requires
        n <= 0x100_0000,
    ensures
        of_count(n).finite(),
        !of_count(n).negative(),
        of_count(n).units() == n * pow2(149),
{
    reveal(of_count);
    lemma_representable(n, 149);
}

/// The average of shares is a share.
pub proof fn law_average_in_unit(values: Seq<Float32>)
    requires
        0 < values.len() <= 0x100_0000,
        forall|i: int| 0 <= i < values.len() ==> in_unit(#[trigger] values[i]),
    ensures
        in_unit(average(values, values.len())),
{
    let total = running_sum(values);
    let count = of_count(values.len());
    lemma_shares_sum(values);
    lemma_count_exact(values.len());
    law_order_is_numeric(total, count);
    law_order_is_numeric(zero(), total);
    law_order_is_numeric(zero(), count);
    lemma2_to64();
    lemma_pow2_pos(149);
    assert(magnitude_units(0) == 0 * pow2(0));
    assert(values.len() * pow2(149) > 0) by (nonlinear_arith)
        requires
            values.len() > 0,
            pow2(149) > 0,
    ;
    assert(zero().units() == 0);
    assert(zero().rank() == 0);
    assert(total.units() <= count.units());
    assert(count.rank() > 0);
    assert(total.rank() >= 0);
    lemma_quotient_in_unit(total, count);
}

/// The place in the numeric order of the number nearest to a value in units.
pub open spec fn rank_of_units(s: int) -> int {
    if s < 0 {
        -(nearest(abs_int(s), 1) as int)
    } else {
        nearest(s as nat, 1) as int
    }
}

proof fn lemma_rank_monotone(s: int, t: int)
    requires
        s <= t,
    ensures
        rank_of_units(s) <= rank_of_units(t),
{
    if s >= 0 {
        law_nearest_monotone(s as nat, 1, t as nat, 1);
    } else if t < 0 {
        law_nearest_monotone(abs_int(t), 1, abs_int(s), 1);
    }
}

proof fn lemma_rank_exact(a: Float32)
    requires
        a.finite(),
    ensures
        rank_of_units(a.units()) == a.rank(),
{
    law_nearest_exact(a.magnitude());
    lemma_zero_units(a.magnitude());
    lemma_one();
}

/// A sum is the number nearest to the sum of the values.
pub proof fn law_sum_is_nearest(a: Float32, b: Float32)
    requires
        a.finite(),
        b.finite(),
    ensures
        !sum(a, b).nan(),
        sum(a, b).rank() == rank_of_units(a.units() + b.units()),
{
    reveal(sum);
    let s = a.units() + b.units();
    lemma_one();
    lemma_nearest_bound(abs_int(s), 1);
}

/// Adding a number that is not negative never gives less, and adding a larger
/// one never gives less than adding a smaller one.
proof fn lemma_sum_monotone(a: Float32, b: Float32, c: Float32)
    requires
        a.finite(),
        b.finite(),
        c.finite(),
        0 <= b.units() <= c.units(),
    ensures
        not_above(a, sum(a, b)),
        not_above(sum(a, b), sum(a, c)),
{
    law_sum_is_nearest(a, b);
    law_sum_is_nearest(a, c);
    lemma_rank_exact(a);
    lemma_rank_monotone(a.units(), a.units() + b.units());
    lemma_rank_monotone(a.units() + b.units(), a.units() + c.units());
}

/// No whole number of units but zero rounds to zero.
pub proof fn law_nearest_positive(n: nat)
    ensures
        nearest(n, 1) == 0 <==> n == 0,
{
    lemma_one();
    if n > 0 {
        law_nearest_exact(1);
        lemma2_to64();
        assert(magnitude_units(1) == 1 * pow2(0));
        law_nearest_monotone(1, 1, n, 1);
    }
}

/// An output never lies below the lower cap, nor above what a full share gives.
pub proof fn law_output_in_range(share: Float32, skin: Skin)
    requires
        in_unit(share),
        sound_caps(skin),
        cap_span(skin).finite(),
    ensures
        not_above(skin.min_float, predicted_output(share, skin)),
        not_above(
            predicted_output(share, skin),
            sum(skin.min_float, cap_span(skin)),
        ),
{
    let span = cap_span(skin);
    lemma_span(skin);
    lemma_share_of_span(share, span);
    lemma_sum_monotone(skin.min_float, product(share, span), span);
}

/// The width of sound caps is not negative.
pub(crate) proof fn lemma_span(skin: Skin)
    requires
        sound_caps(skin),
        cap_span(skin).finite(),
    ensures
        cap_span(skin).rank() >= 0,
{
    let (low, high) = (skin.min_float, skin.max_float);
    reveal(sum);
    law_order_is_numeric(low, high);
    assert(opposite(low).units() == -low.units());
}

/// A share of a width is no more than the width.
pub(crate) proof fn lemma_share_of_span(share: Float32, span: Float32)
    requires
        in_unit(share),
        span.finite(),
        span.rank() >= 0,
    ensures
        product(share, span).finite(),
        0 <= product(share, span).units() <= span.units(),
{
    reveal(product);
    lemma_unit_value(share);
    lemma_one();
    lemma2_to64();
    lemma_pow2_pos(149);
    let (m, o) = (share.magnitude(), span.magnitude());
    let (x, y, p) = (magnitude_units(m), magnitude_units(o), pow2(149));
    law_order_is_numeric(zero(), span);
    assert(magnitude_units(0) == 0 * pow2(0));
    lemma_units_monotone(0, o);
    lemma_units_monotone(0, m);
    assert(x * y * 1 <= y * p) by (nonlinear_arith)
        requires
            x <= p,
    ;
    law_nearest_monotone(x * y, p, y, 1);
    law_nearest_exact(o);
    let r = nearest(x * y, p);
    lemma_units_monotone(r, o);
    if x == 0 || y == 0 {
        assert(x * y == 0) by (nonlinear_arith)
            requires
                x == 0 || y == 0,
        ;
        assert(0 * 1 <= 0 * p);
        law_nearest_monotone(0, p, 0, 1);
    }
}

/// The adjusted floats of accepted slots are shares.
pub proof fn lemma_shares_accepted(skins: Seq<Skin>, slots: Seq<Slot>, stattrak: bool)
    requires
        slots_failure(skins, slots, stattrak) is None,
        forall|i: int|
            0 <= i < slots.len() ==> cap_span(slot_skin(skins, #[trigger] slots[i])).finite(),
    ensures
        forall|i: int|
            0 <= i < known_shares(skins, slots).len() ==> in_unit(
                #[trigger] known_shares(skins, slots)[i],
            ),
        known_shares(skins, slots).len() <= slots.len(),
        (forall|i: int| 0 <= i < slots.len() ==> (#[trigger] slots[i]).float is Some)
            ==> known_shares(skins, slots).len() == slots.len(),
    decreases slots.len(),
{
    if slots.len() > 0 {
        let front = slots.drop_last();
        assert forall|i: int| 0 <= i < front.len() implies #[trigger] front[i] == slots[i] by {}
        assert forall|i: int| 0 <= i < front.len() implies cap_span(
            slot_skin(skins, #[trigger] front[i]),
        ).finite() by {
            assert(cap_span(slot_skin(skins, slots[i])).finite());
        }
        lemma_shares_accepted(skins, front, stattrak);
        assert(slots[slots.len() - 1] == slots.last());
        if let Some(value) = slots.last().float {
            law_adjusted_in_unit(value, slot_skin(skins, slots.last()));
        }
        if forall|i: int| 0 <= i < slots.len() ==> (#[trigger] slots[i]).float is Some {
            assert forall|i: int| 0 <= i < front.len() implies (
            #[trigger] front[i]).float is Some by {
                assert(slots[i].float is Some);
            }
        }
    }
}

/// The average of an accepted contract is a share, and what it yields of any
/// skin is not below that skin's lower cap, nor above what a full share gives.
pub proof fn law_contract_in_range(
    skins: Seq<Skin>,
    size: nat,
    slots: Seq<Slot>,
    stattrak: bool,
    skin: Skin,
)
    requires
        contract_failure(skins, size, slots, stattrak) is None,
        forall|i: int| 0 <= i < slots.len() ==> (#[trigger] slots[i]).float is Some,
        forall|i: int|
            0 <= i < slots.len() ==> cap_span(slot_skin(skins, #[trigger] slots[i])).finite(),
        sound_caps(skin),
        cap_span(skin).finite(),
    ensures
        in_unit(contract_average(skins, slots)),
        not_above(skin.min_float, predicted_output(contract_average(skins, slots), skin)),
        not_above(
            predicted_output(contract_average(skins, slots), skin),
            sum(skin.min_float, cap_span(skin)),
        ),
{
    lemma_shares_accepted(skins, slots, stattrak);
    law_average_in_unit(known_shares(skins, slots));
    law_output_in_range(contract_average(skins, slots), skin);
}

/// More shares never add up to less.
proof fn lemma_more_shares(known: Seq<Float32>, rest: Seq<Float32>)
    requires
        known.len() + rest.len() <= 0x100_0000,
        forall|i: int| 0 <= i < known.len() ==> in_unit(#[trigger] known[i]),
        forall|i: int| 0 <= i < rest.len() ==> in_unit(#[trigger] rest[i]),
    ensures
        running_sum(known).finite(),
        running_sum(known + rest).finite(),
        0 <= running_sum(known).units() <= running_sum(known + rest).units(),
    decreases rest.len(),
{
    lemma_shares_sum(known);
    let all = known + rest;
    assert forall|i: int| 0 <= i < all.len() implies in_unit(#[trigger] all[i]) by {
        if i < known.len() {
            assert(all[i] == known[i]);
        } else {
            assert(all[i] == rest[i - known.len()]);
        }
    }
    lemma_shares_sum(all);
    if rest.len() == 0 {
        assert(all == known);
    } else {
        let front = rest.drop_last();
        assert forall|i: int| 0 <= i < front.len() implies in_unit(#[trigger] front[i]) by {
            assert(front[i] == rest[i]);
        }
        lemma_more_shares(known, front);
        assert(all.drop_last() == known + front);
        assert(all.last() == rest[rest.len() - 1]);
        lemma_unit_value(all.last());
        lemma_sum_monotone(running_sum(known + front), all.last(), all.last());
        law_order_is_numeric(running_sum(known + front), running_sum(all));
    }
}

/// The least average that a preview announces is kept: whatever shares fill the
/// open slots after the known ones, the average is not below it.
pub proof fn law_preview_is_a_lower_bound(known: Seq<Float32>, rest: Seq<Float32>)
    requires
        known.len() + rest.len() == 10,
        forall|i: int| 0 <= i < known.len() ==> in_unit(#[trigger] known[i]),
        forall|i: int| 0 <= i < rest.len() ==> in_unit(#[trigger] rest[i]),
    ensures
        not_above(least_average(known), average(known + rest, 10)),
{
    lemma_more_shares(known, rest);
    lemma_ten();
    let (a, b) = (running_sum(known), running_sum(known + rest));
    law_order_is_numeric(a, b);
    law_order_is_numeric(zero(), a);
    lemma_zero_units(0);
    lemma_quotient_monotone(a, b, of_count(10));
}

/// A greater share never gives a smaller output.
pub proof fn law_output_is_monotone(a: Float32, b: Float32, skin: Skin)
    requires
        in_unit(a),
        in_unit(b),
        not_above(a, b),
        sound_caps(skin),
        cap_span(skin).finite(),
    ensures
        not_above(predicted_output(a, skin), predicted_output(b, skin)),
{
    let span = cap_span(skin);
    lemma_span(skin);
    lemma_share_of_span(a, span);
    lemma_share_of_span(b, span);
    lemma_greater_share(a, b, span);
    lemma_sum_monotone(skin.min_float, product(a, span), product(b, span));
}

/// A greater share of a width is no smaller.
proof fn lemma_greater_share(a: Float32, b: Float32, span: Float32)
    requires
        in_unit(a),
        in_unit(b),
        not_above(a, b),
        span.finite(),
        span.rank() >= 0,
    ensures
        product(a, span).units() <= product(b, span).units(),
{
    lemma_share_of_span(a, span);
    lemma_share_of_span(b, span);
    lemma_unit_value(a);
    lemma_unit_value(b);
    lemma_pow2_pos(149);
    lemma_zero_units(a.magnitude());
    lemma_zero_units(b.magnitude());
    lemma_zero_units(span.magnitude());
    lemma_units_monotone(a.magnitude(), b.magnitude());
    let (x, y, z, p) = (
        magnitude_units(a.magnitude()),
        magnitude_units(b.magnitude()),
        magnitude_units(span.magnitude()),
        pow2(149),
    );
    assert(x * z * p <= y * z * p) by (nonlinear_arith)
        requires
            x <= y,
    ;
    law_nearest_monotone(x * z, p, y * z, p);
    reveal(product);
    let (r, t) = (nearest(x * z, p), nearest(y * z, p));
    if r < INFINITE_MAGNITUDE && t < INFINITE_MAGNITUDE {
        lemma_units_monotone(r, t);
        lemma_zero_units(r);
        lemma_zero_units(t);
    }
}

/// The averages that a preview announces are shares, the lesser one first.
pub proof fn law_preview_range_is_in_order(known: Seq<Float32>)
    requires
        known.len() <= 10,
        forall|i: int| 0 <= i < known.len() ==> in_unit(#[trigger] known[i]),
    ensures
        in_unit(least_average(known)),
        in_unit(greatest_average(known)),
        not_above(least_average(known), greatest_average(known)),
{
    let open = (10 - known.len()) as nat;
    let (total, rest, ten, p) = (running_sum(known), of_count(open), of_count(10), pow2(149));
    lemma_shares_sum(known);
    lemma_count_exact(open);
    lemma_count_exact(10);
    lemma_ten();
    lemma_representable(10, 149);
    assert(known.len() * p + open * p == 10 * p) by (nonlinear_arith)
        requires
            known.len() + open == 10,
    ;
    assert(open * p >= 0) by (nonlinear_arith)
        requires
            open >= 0,
            p >= 0,
    ;
    lemma_sum_bounded(total, rest, 10 * p);
    let full = sum(total, rest);
    lemma_zero_units(0);
    law_order_is_numeric(zero(), total);
    law_order_is_numeric(zero(), ten);
    law_order_is_numeric(total, full);
    law_order_is_numeric(full, ten);
    lemma_pow2_pos(149);
    lemma_quotient_in_unit(total, ten);
    lemma_quotient_in_unit(full, ten);
    lemma_quotient_monotone(total, full, ten);
}

/// A quotient of numbers that are not negative is the number nearest to the
/// quotient of their values.
pub proof fn law_quotient_is_nearest(a: Float32, c: Float32)
    requires
        a.finite(),
        c.finite(),
        a.rank() >= 0,
        c.rank() > 0,
    ensures
        !quotient(a, c).nan(),
        quotient(a, c).rank() == nearest(
            magnitude_units(a.magnitude()) * pow2(149),
            magnitude_units(c.magnitude()),
        ),
{
    reveal(quotient);
    let (x, y, p) = (magnitude_units(a.magnitude()), magnitude_units(c.magnitude()), pow2(149));
    lemma_zero_units(a.magnitude());
    lemma_zero_units(c.magnitude());
    lemma_nearest_bound(x * p, y);
    if a.magnitude() == 0 {
        lemma_one();
        assert(0 * p * 1 <= 0 * y) by (nonlinear_arith);
        law_nearest_monotone(0 * p, y, 0, 1);
    }
}

/// Quotients by one positive number keep the order.
proof fn lemma_quotient_monotone(a: Float32, b: Float32, c: Float32)
    requires
        a.finite(),
        b.finite(),
        c.finite(),
        0 <= a.rank() <= b.rank(),
        c.rank() > 0,
    ensures
        not_above(quotient(a, c), quotient(b, c)),
{
    let (x, z, y, p) = (
        magnitude_units(a.magnitude()),
        magnitude_units(b.magnitude()),
        magnitude_units(c.magnitude()),
        pow2(149),
    );
    lemma_units_monotone(a.magnitude(), b.magnitude());
    lemma_zero_units(a.magnitude());
    lemma_zero_units(c.magnitude());
    assert(x * p * y <= z * p * y) by (nonlinear_arith)
        requires
            x <= z,
    ;
    law_nearest_monotone(x * p, y, z * p, y);
    law_quotient_is_nearest(a, c);
    law_quotient_is_nearest(b, c);
}

/// Ten is an exact number.
pub(crate) proof fn lemma_ten()
    ensures
        of_count(10) == (Float32 { bits: TEN_BITS }),
{
    reveal(of_count);
    lemma2_to64();
    lemma_pow2_adds(20, 129);
    lemma_pow2_adds(20, 3);
    lemma_pow2_pos(129);
    assert(grid_exponent(TEN_BITS as nat) == 129);
    assert(significand(TEN_BITS as nat) == 0xa0_0000);
    law_nearest_exact(TEN_BITS as nat);
    assert(0xa0_0000 * pow2(129) == 10 * pow2(149)) by (nonlinear_arith)
        requires
            pow2(149) == 0x10_0000 * pow2(129),
    ;
}

} // verus!
