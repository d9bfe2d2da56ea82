//! How near an ideal contract comes to what is aimed at.
use crate::accuracy::{
    gap, in_unit, law_adjusted_in_unit, law_nearest_monotone, law_order_is_numeric,
    law_output_in_range, law_sum_is_nearest, lemma_count_exact, lemma_one, lemma_representable,
    lemma_share_of_span, lemma_shares_accepted, lemma_span, lemma_ten, lemma_unit_value,
    lemma_zero_units,
};
use crate::beam::missing_sum;
use crate::catalog::{distinct_ids, input_pool, lemma_found};
use crate::contract::{
    contract_average, contract_outcomes, known_shares, slot_skin, slots_of, Slot, ONE_BITS,
};
use crate::domain::{
    adjusted, average, cap_span, float_failure, predicted_output, running_sum, tier_below, zero,
    PlanRequest, PlanResponse, Skin,
};
use crate::errors::{
    exact_sum, lemma_fraction_error, lemma_large_unit, lemma_product_error, lemma_quotient_error,
    lemma_rank_value, lemma_running_error, lemma_sum_error, one_rounding,
};
use crate::float32::{
    abs_int, absolute, clamped, difference, lemma_nearest_bound, magnitude_units, of_count,
    opposite, product, quotient, sum, Float32,
};
use crate::odds::{law_outcomes_of_contract, lemma_one_skin, lemma_pool_skin};
use crate::planner::{
    aimed_share, describes_ideal_plan, first_compatible, goal_aim, goal_failure, goal_skin,
    ideal_failure, ideal_share, ideal_skin, ideal_slots, inputs_failure, lemma_all_floats_known,
    lemma_slot_accepted, open_slots, outcome_place, owned_shares, target_entry,
};
use crate::preview::{finite_spans, lemma_unit_caps, nearly_at_most, unit_caps};
use crate::tally::Entry;
use vstd::arithmetic::power2::pow2;
use vstd::prelude::*;

verus! {

/// The distance of products with one factor in common.
pub(crate) proof fn lemma_gap_scaled(a: int, b: int, k: int)
    requires
        k >= 0,
    ensures
        gap(a * k, b * k) == gap(a, b) * k,
{
    let x = a - b;
    assert(a * k - b * k == x * k) by (nonlinear_arith)
        requires
            x == a - b,
    ;
    if x >= 0 {
        assert(x * k >= 0) by (nonlinear_arith)
            requires
                x >= 0,
                k >= 0,
        ;
    } else {
        assert(x * k <= 0 && -(x * k) == (-x) * k) by (nonlinear_arith)
            requires
                x < 0,
                k >= 0,
        ;
    }
}

/// Sums up to sixteen are finite.
pub(crate) proof fn lemma_sum_finite(a: Float32, b: Float32)
    requires
        a.finite(),
        b.finite(),
        abs_int(a.units() + b.units()) <= 16 * pow2(149),
    ensures
        sum(a, b).finite(),
{
    let s = abs_int(a.units() + b.units());
    lemma_representable(16, 149);
    law_nearest_monotone(s, 1, 16 * pow2(149), 1);
    law_sum_is_nearest(a, b);
}

/// The caps of a skin, by value: the upper one is the lower one and the width, up to
/// one rounding.
pub(crate) proof fn lemma_cap_values(skin: Skin)
    requires
        unit_caps(skin),
    ensures
        0 <= skin.min_float.units() <= pow2(149),
        skin.min_float.finite(),
        cap_span(skin).finite(),
        cap_span(skin).rank() >= 0,
        0 <= cap_span(skin).units() <= pow2(149),
        0x100_0000 * (skin.min_float.units() + cap_span(skin).units()) <= 0x100_0001 * pow2(149)
            + 0x100_0000,
{
    let (low, high) = (skin.min_float, skin.max_float);
    lemma_unit_caps(skin);
    lemma_span(skin);
    lemma_unit_value(low);
    lemma_unit_value(high);
    law_order_is_numeric(low, high);
    assert(opposite(low).units() == -low.units());
    lemma_sum_error(high, opposite(low));
}

/// What a share leads to, by value.
pub(crate) proof fn lemma_output_error(share: Float32, skin: Skin)
    requires
        in_unit(share),
        unit_caps(skin),
    ensures
        predicted_output(share, skin).finite(),
        0 <= predicted_output(share, skin).units() <= 2 * pow2(149),
        100 * (0x100_0000 * gap(
            predicted_output(share, skin).units() * pow2(149),
            skin.min_float.units() * pow2(149) + share.units() * cap_span(skin).units(),
        )) <= 201 * (pow2(149) * pow2(149)),
{
    let (p, m) = (pow2(149) as int, 0x100_0000int);
    let (low, span) = (skin.min_float, cap_span(skin));
    let part = product(share, span);
    lemma_cap_values(skin);
    lemma_large_unit();
    lemma_unit_value(share);
    lemma_share_of_span(share, span);
    lemma_product_error(share, span);
    lemma_sum_finite(low, part);
    lemma_sum_error(low, part);
    let (x, s, l, q, o) = (
        share.units(),
        span.units(),
        low.units(),
        part.units(),
        sum(low, part).units(),
    );
    let (pp, xs) = (p * p, x * s);
    assert(xs <= pp && xs >= 0) by (nonlinear_arith)
        requires
            xs == x * s,
            pp == p * p,
            0 <= x <= p,
            0 <= s <= p,
    ;
    // The sum is off by a little more than one part in 2^24 of one.
    let g = gap(o, l + q) as int;
    assert(1000 * (m * g) <= 1001 * p);
    lemma_gap_scaled(o, l + q, p);
    assert((l + q) * p == l * p + q * p) by (nonlinear_arith);
    assert(1000 * (m * (g * p)) <= 1001 * pp) by (nonlinear_arith)
        requires
            1000 * (m * g) <= 1001 * p,
            pp == p * p,
            p >= 0,
    ;
    assert(1000 * (m * p) <= pp) by (nonlinear_arith)
        requires
            p >= 1000 * m,
            p >= 0,
            pp == p * p,
    ;
    law_output_in_range(share, skin);
    law_order_is_numeric(low, predicted_output(share, skin));
    assert(o * p - (l * p + xs) == (o * p - (l * p + q * p)) + (q * p - xs));
}

/// The share that a float amounts to, by value.
pub(crate) proof fn lemma_adjusted_error(raw: Float32, skin: Skin)
    requires
        unit_caps(skin),
        float_failure(raw, skin) is None,
    ensures
        in_unit(adjusted(raw, skin)),
        raw.finite(),
        0 <= raw.units() <= pow2(149),
        100 * (0x100_0000 * gap(
            adjusted(raw, skin).units() * cap_span(skin).units(),
            raw.units() * pow2(149) - skin.min_float.units() * pow2(149),
        )) <= 201 * (pow2(149) * pow2(149)),
{
    let (p, m) = (pow2(149) as int, 0x100_0000int);
    let (low, high, span) = (skin.min_float, skin.max_float, cap_span(skin));
    lemma_cap_values(skin);
    lemma_large_unit();
    lemma_unit_value(low);
    lemma_unit_value(high);
    law_order_is_numeric(raw, low);
    law_order_is_numeric(high, raw);
    law_adjusted_in_unit(raw, skin);
    assert(opposite(low).units() == -low.units());
    let part = difference(raw, low);
    let s = raw.units() - low.units();
    assert(0 <= s <= p);
    lemma_sum_finite(raw, opposite(low));
    lemma_sum_error(raw, opposite(low));
    // The rounded difference is no more than one either.
    lemma_one();
    law_nearest_monotone(s as nat, 1, pow2(149), 1);
    law_nearest_monotone(0, 1, s as nat, 1);
    law_sum_is_nearest(raw, opposite(low));
    lemma_zero_units(0);
    law_order_is_numeric(zero(), part);
    law_order_is_numeric(part, Float32 { bits: ONE_BITS });
    let a = adjusted(raw, skin);
    lemma_unit_value(a);
    lemma_quotient_error(part, span);
    let (t, c) = (part.units(), span.units());
    let (pp, g) = (p * p, gap(t, s) as int);
    assert(0 <= t <= p);
    assert(1000 * (m * g) <= 1001 * p);
    lemma_gap_scaled(t, s, p);
    assert(s * p == raw.units() * p - low.units() * p) by (nonlinear_arith)
        requires
            s == raw.units() - low.units(),
    ;
    assert(1000 * (m * (g * p)) <= 1001 * pp && t * p <= pp) by (nonlinear_arith)
        requires
            1000 * (m * g) <= 1001 * p,
            pp == p * p,
            0 <= t <= p,
    ;
    assert(1000 * (m * c) <= pp) by (nonlinear_arith)
        requires
            p >= 1000 * m,
            0 <= c <= p,
            pp == p * p,
            m >= 0,
    ;
}

/// The average of ten shares, by value.
pub(crate) proof fn lemma_average_error(all: Seq<Float32>)
    requires
        all.len() == 10,
        forall|i: int| 0 <= i < all.len() ==> in_unit(#[trigger] all[i]),
    ensures
        in_unit(average(all, 10)),
        0x100_0000 * gap(10 * average(all, 10).units(), exact_sum(all)) <= 111 * pow2(149),
{
    lemma_large_unit();
    lemma_running_error(all);
    lemma_count_exact(10);
    lemma_fraction_error(running_sum(all), of_count(10), 10);
}

/// A value, moved into a range.
spec fn moved_into(y: int, high: int) -> int {
    if y < 0 {
        0
    } else if y > high {
        high
    } else {
        y
    }
}

/// A quotient of anything up to sixteen by a count, moved between zero and one.
proof fn lemma_clamped_quotient(d: Float32, k: nat)
    requires
        d.finite(),
        1 <= k <= 10,
    ensures
        ({
            let s = clamped(
                quotient(d, of_count(k)),
                zero(),
                Float32 { bits: ONE_BITS },
            );
            &&& in_unit(s)
            &&& 0x100_0000 * gap(
                k * s.units(),
                moved_into(d.units(), (k * pow2(149)) as int),
            ) <= k * pow2(149) + k * 0x100_0000
        }),
{
    let (p, b) = (pow2(149) as int, of_count(k));
    let q = quotient(d, b);
    let one = Float32 { bits: ONE_BITS };
    lemma_large_unit();
    lemma_one();
    lemma_count_exact(k);
    lemma_zero_units(0);
    let kp = k * p;
    assert(kp >= p) by (nonlinear_arith)
        requires
            kp == k * p,
            k >= 1,
            p >= 0,
    ;
    law_order_is_numeric(zero(), b);
    law_order_is_numeric(zero(), d);
    law_order_is_numeric(d, b);
    let (x, y) = (magnitude_units(d.magnitude()), magnitude_units(b.magnitude()));
    lemma_nearest_bound(x * pow2(149), y);
    if d.units() < 0 {
        assert(q.rank() <= 0 && !q.nan()) by {
            reveal(quotient);
        }
        let s = clamped(q, zero(), one);
        assert(s.magnitude() == 0);
        assert(s.units() == 0);
        assert(k * 0 == 0);
    } else if d.units() <= kp {
        lemma_fraction_error(d, b, k as int);
        lemma_unit_value(q);
    } else {
        assert(q.rank() >= one.rank() && !q.nan()) by {
            reveal(quotient);
            lemma_zero_units(d.magnitude());
            lemma_zero_units(b.magnitude());
            assert(pow2(149) * y <= (x * pow2(149)) * 1) by (nonlinear_arith)
                requires
                    y <= x,
            ;
            law_nearest_monotone(pow2(149), 1, x * pow2(149), y);
        }
        assert(clamped(q, zero(), one).rank() == one.rank());
        let s = clamped(q, zero(), one);
        law_order_is_numeric(s, one);
        assert(s.units() == p);
    }
}

/// Ten times a share, by value.
proof fn lemma_ten_times(aim: Float32)
    requires
        in_unit(aim),
    ensures
        product(aim, of_count(10)).finite(),
        product(aim, of_count(10)).units() >= 0,
        0x100_0000 * gap(product(aim, of_count(10)).units(), 10 * aim.units()) <= 10 * aim.units()
            + 0x100_0000,
{
    let (p, m) = (pow2(149) as int, 0x100_0000int);
    let ten = of_count(10);
    lemma_large_unit();
    lemma_count_exact(10);
    lemma_unit_value(aim);
    lemma_zero_units(0);
    law_order_is_numeric(zero(), aim);
    law_order_is_numeric(zero(), ten);
    let a = aim.units();
    let wanted = product(aim, ten);
    assert(wanted.finite()) by {
        let n = (a * (10 * p)) as nat;
        lemma_representable(10, 149);
        assert(n * 1 <= (10 * pow2(149)) * pow2(149)) by (nonlinear_arith)
            requires
                n == a * (10 * p),
                0 <= a <= p,
                p == pow2(149),
        ;
        law_nearest_monotone(n, pow2(149), 10 * pow2(149), 1);
        lemma_nearest_bound(n, pow2(149));
        lemma_rank_value(aim);
        lemma_rank_value(ten);
        reveal(product);
    }
    lemma_product_error(aim, ten);
    let w = wanted.units();
    assert(a * (10 * p) == (10 * a) * p) by (nonlinear_arith);
    lemma_gap_scaled(w, 10 * a, p);
    let g = gap(w, 10 * a) as int;
    assert(m * g <= 10 * a + m) by (nonlinear_arith)
        requires
            m * (g * p) <= (10 * a) * p + m * p,
            p > 0,
    ;
}

/// What is missing to the aim, by value.
pub(crate) proof fn lemma_missing(aim: Float32, owned: Seq<Float32>)
    requires
        in_unit(aim),
        owned.len() <= 9,
        forall|i: int| 0 <= i < owned.len() ==> in_unit(#[trigger] owned[i]),
    ensures
        missing_sum(aim, owned).finite(),
        abs_int(missing_sum(aim, owned).units()) <= 16 * pow2(149),
        0x100_0000 * gap(
            missing_sum(aim, owned).units(),
            10 * aim.units() - exact_sum(owned),
        ) <= 111 * pow2(149),
{
    let (p, m) = (pow2(149) as int, 0x100_0000int);
    let (ten, total) = (of_count(10), running_sum(owned));
    lemma_large_unit();
    lemma_ten();
    lemma_count_exact(10);
    lemma_unit_value(aim);
    lemma_running_error(owned);
    lemma_ten_times(aim);
    let (a, wanted) = (aim.units(), product(aim, ten));
    let w = wanted.units();
    let n = owned.len() as int;
    let c = one_rounding();
    assert(n * c <= 9 * c && n * p <= 9 * p && n * p >= 0) by (nonlinear_arith)
        requires
            0 <= n <= 9,
            c >= 0,
            p >= 0,
    ;
    assert(opposite(total).units() == -total.units());
    lemma_sum_finite(wanted, opposite(total));
    lemma_sum_error(wanted, opposite(total));
}

/// The share that each open slot is asked for, by value: what is missing to the aim,
/// moved into what the slots can give.
proof fn lemma_asked_share(aim: Float32, owned: Seq<Float32>, k: nat)
    requires
        in_unit(aim),
        1 <= k <= 10,
        owned.len() + k == 10,
        forall|i: int| 0 <= i < owned.len() ==> in_unit(#[trigger] owned[i]),
    ensures
        ({
            let s = clamped(
                quotient(missing_sum(aim, owned), of_count(k)),
                zero(),
                Float32 { bits: ONE_BITS },
            );
            &&& in_unit(s)
            &&& 0x100_0000 * gap(
                k * s.units(),
                moved_into(10 * aim.units() - exact_sum(owned), (k * pow2(149)) as int),
            ) <= 122 * pow2(149)
        }),
{
    let p = pow2(149) as int;
    lemma_large_unit();
    lemma_missing(aim, owned);
    lemma_clamped_quotient(missing_sum(aim, owned), k);
    let kp = k * p;
    assert(kp <= 10 * p && kp >= p) by (nonlinear_arith)
        requires
            kp == k * p,
            1 <= k <= 10,
            p >= 0,
    ;
}

/// Filling a slot with the float of a share gives that share back, up to the rounding
/// within the caps.
proof fn lemma_share_again(share: Float32, skin: Skin)
    requires
        in_unit(share),
        unit_caps(skin),
        25 * cap_span(skin).units() >= pow2(149),
        float_failure(predicted_output(share, skin), skin) is None,
    ensures
        in_unit(adjusted(predicted_output(share, skin), skin)),
        2 * (0x100_0000 * gap(
            adjusted(predicted_output(share, skin), skin).units(),
            share.units(),
        )) <= 201 * pow2(149),
{
    let (p, m) = (pow2(149) as int, 0x100_0000int);
    let raw = predicted_output(share, skin);
    let again = adjusted(raw, skin);
    lemma_large_unit();
    lemma_cap_values(skin);
    lemma_output_error(share, skin);
    lemma_adjusted_error(raw, skin);
    lemma_unit_value(share);
    lemma_unit_value(again);
    let (s, pp) = (cap_span(skin).units(), p * p);
    let (x, y) = (again.units(), share.units());
    lemma_gap_scaled(x, y, s);
    let g = gap(x, y) as int;
    assert(100 * (m * (g * s)) <= 402 * pp);
    assert(2 * (m * g) <= 201 * p) by (nonlinear_arith)
        requires
            100 * (m * (g * s)) <= 402 * pp,
            25 * s >= p,
            pp == p * p,
            p > 0,
            g >= 0,
            m > 0,
    ;
}

/// The exact sum of two parts together.
proof fn lemma_exact_concat(a: Seq<Float32>, b: Seq<Float32>)
    ensures
        exact_sum(a + b) == exact_sum(a) + exact_sum(b),
    decreases b.len(),
{
    if b.len() == 0 {
        assert(a + b =~= a);
    } else {
        lemma_exact_concat(a, b.drop_last());
        assert((a + b).drop_last() =~= a + b.drop_last());
    }
}

/// The exact sum of shares lies between none and all.
proof fn lemma_exact_range(values: Seq<Float32>)
    requires
        forall|i: int| 0 <= i < values.len() ==> in_unit(#[trigger] values[i]),
    ensures
        0 <= exact_sum(values) <= values.len() * pow2(149),
    decreases values.len(),
{
    let (n, p) = (values.len() as int, pow2(149) as int);
    if n == 0 {
        assert(0 * p == 0);
    } else {
        let front = values.drop_last();
        assert forall|i: int| 0 <= i < front.len() implies in_unit(#[trigger] front[i]) by {
            assert(front[i] == values[i]);
        }
        lemma_exact_range(front);
        assert(in_unit(values[n - 1]));
        lemma_unit_value(values.last());
        assert((n - 1) * p + p == n * p) by (nonlinear_arith);
    }
}

/// `count` times the same share.
pub open spec fn repeated(share: Float32, count: nat) -> Seq<Float32> {
    Seq::new(count, |i: int| share)
}

/// The exact sum of a share taken several times.
proof fn lemma_exact_repeated(share: Float32, count: nat)
    ensures
        exact_sum(repeated(share, count)) == count * share.units(),
    decreases count,
{
    let u = share.units();
    if count == 0 {
        assert(0 * u == 0);
    } else {
        let less = (count - 1) as nat;
        lemma_exact_repeated(share, less);
        assert(repeated(share, count).drop_last() =~= repeated(share, less));
        assert(less * u + u == count * u) by (nonlinear_arith)
            requires
                less + 1 == count,
        ;
    }
}

/// The distance of what an average leads to from what is aimed at.
pub open spec fn distance_of(share: Float32, center: Float32, target: Skin) -> Float32 {
    absolute(difference(predicted_output(share, target), center))
}

/// The distance from what is aimed at is that of the shares within the caps, up to
/// rounding.
proof fn lemma_distance_error(share: Float32, center: Float32, target: Skin)
    requires
        in_unit(share),
        unit_caps(target),
        float_failure(center, target) is None,
    ensures
        distance_of(share, center, target).finite(),
        100 * (0x100_0000 * gap(
            distance_of(share, center, target).units() * pow2(149),
            gap(share.units(), adjusted(center, target).units()) * cap_span(target).units(),
        )) <= 603 * (pow2(149) * pow2(149)),
{
    let (p, m) = (pow2(149) as int, 0x100_0000int);
    let (output, aim) = (predicted_output(share, target), adjusted(center, target));
    lemma_large_unit();
    lemma_cap_values(target);
    lemma_output_error(share, target);
    lemma_adjusted_error(center, target);
    lemma_unit_value(share);
    lemma_unit_value(aim);
    assert(opposite(center).units() == -center.units());
    lemma_sum_finite(output, opposite(center));
    lemma_sum_error(output, opposite(center));
    let r = difference(output, center);
    let d = absolute(r).units();
    let (o, c, l) = (output.units(), center.units(), target.min_float.units());
    let (u, a, s) = (share.units(), aim.units(), cap_span(target).units());
    let pp = p * p;
    let e = o - c;
    assert(d == abs_int(r.units()));
    let g = gap(d, abs_int(e) as int) as int;
    assert(m * g <= 2 * p + m);
    let f = gap(u, a) as int;
    lemma_gap_scaled(u, a, s);
    lemma_gap_scaled(d, abs_int(e) as int, p);
    lemma_gap_scaled(e, 0, p);
    assert(e * p == o * p - c * p) by (nonlinear_arith)
        requires
            e == o - c,
    ;
    assert(0 * p == 0);
    assert(gap(e, 0) == abs_int(e));
    // The exact difference of the output, within the caps.
    assert(100 * (m * gap(e * p, u * s - a * s)) <= 402 * pp);
    assert(gap((abs_int(e) * p) as int, f * s) <= gap(e * p, u * s - a * s));
    assert(100 * (m * g) <= 201 * p);
    assert(100 * (m * (g * p)) <= 201 * pp) by (nonlinear_arith)
        requires
            100 * (m * g) <= 201 * p,
            p >= 0,
            pp == p * p,
    ;
}

/// Nearer averages do not lead much farther away.
proof fn lemma_distances_follow(a: Float32, b: Float32, center: Float32, target: Skin)
    requires
        in_unit(a),
        in_unit(b),
        unit_caps(target),
        float_failure(center, target) is None,
        0x100_0000 * (gap(a.units(), adjusted(center, target).units()) - gap(
            b.units(),
            adjusted(center, target).units(),
        )) <= 135 * pow2(149),
    ensures
        nearly_at_most(distance_of(a, center, target), distance_of(b, center, target)),
{
    let (p, m) = (pow2(149) as int, 0x100_0000int);
    lemma_large_unit();
    lemma_cap_values(target);
    lemma_distance_error(a, center, target);
    lemma_distance_error(b, center, target);
    let aim = adjusted(center, target).units();
    let (f, g, s) = (
        gap(a.units(), aim) as int,
        gap(b.units(), aim) as int,
        cap_span(target).units(),
    );
    let (x, y) = (
        distance_of(a, center, target).units(),
        distance_of(b, center, target).units(),
    );
    let pp = p * p;
    assert(m * (f * s) - m * (g * s) <= 135 * pp) by (nonlinear_arith)
        requires
            m * (f - g) <= 135 * p,
            0 <= s <= p,
            pp == p * p,
            p >= 0,
    ;
    assert(100 * (m * (x * p)) - 100 * (m * (y * p)) <= 14706 * pp);
    assert(100 * (m * (x - y)) <= 14706 * p) by (nonlinear_arith)
        requires
            100 * (m * (x * p)) - 100 * (m * (y * p)) <= 14706 * pp,
            pp == p * p,
            p > 0,
    ;
}

/// Filling the open slots with the share that they are asked for comes as near to the
/// aim as any other shares do, up to rounding.
proof fn lemma_asked_share_is_nearest(
    aim: Float32,
    owned: Seq<Float32>,
    share: Float32,
    again: Float32,
    others: Seq<Float32>,
)
    requires
        in_unit(aim),
        in_unit(again),
        0 < others.len(),
        owned.len() + others.len() == 10,
        forall|i: int| 0 <= i < owned.len() ==> in_unit(#[trigger] owned[i]),
        forall|i: int| 0 <= i < others.len() ==> in_unit(#[trigger] others[i]),
        share == clamped(
            quotient(missing_sum(aim, owned), of_count(others.len())),
            zero(),
            Float32 { bits: ONE_BITS },
        ),
        2 * (0x100_0000 * gap(again.units(), share.units())) <= 201 * pow2(149),
    ensures
        ({
            let ours = average(owned + repeated(again, others.len()), 10);
            let theirs = average(owned + others, 10);
            &&& in_unit(ours)
            &&& in_unit(theirs)
            &&& 0x100_0000 * (gap(ours.units(), aim.units()) - gap(theirs.units(), aim.units()))
                <= 135 * pow2(149)
        }),
{
    let (p, m, k) = (pow2(149) as int, 0x100_0000int, others.len());
    let filled = owned + repeated(again, k);
    let other = owned + others;
    lemma_large_unit();
    assert forall|i: int| 0 <= i < filled.len() implies in_unit(#[trigger] filled[i]) by {
        if i < owned.len() {
            assert(filled[i] == owned[i]);
        } else {
            assert(filled[i] == again);
        }
    }
    assert forall|i: int| 0 <= i < other.len() implies in_unit(#[trigger] other[i]) by {
        if i < owned.len() {
            assert(other[i] == owned[i]);
        } else {
            assert(other[i] == others[i - owned.len()]);
        }
    }
    lemma_average_error(filled);
    lemma_average_error(other);
    lemma_exact_concat(owned, repeated(again, k));
    lemma_exact_concat(owned, others);
    lemma_exact_repeated(again, k);
    lemma_exact_range(others);
    lemma_asked_share(aim, owned, k);
    let (a, w) = (aim.units(), exact_sum(owned));
    let (u, v) = (again.units(), share.units());
    let (x, kp) = (exact_sum(others), (k * pow2(149)) as int);
    let y = 10 * a - w;
    let c = moved_into(y, kp);
    assert(u * k == k * u && v * k == k * v) by (nonlinear_arith);
    lemma_gap_scaled(u, v, k as int);
    let g = gap(u, v) as int;
    assert(2 * (m * (g * k)) <= 2010 * p) by (nonlinear_arith)
        requires
            2 * (m * g) <= 201 * p,
            0 <= k <= 10,
            p >= 0,
            g >= 0,
            m >= 0,
    ;
    assert(gap(c, y) <= gap(x, y));
    let (ours, theirs) = (average(filled, 10).units(), average(other, 10).units());
    assert(m * gap(10 * ours, w + c) <= 1238 * p);
    assert(m * gap(10 * theirs, w + x) <= 111 * p);
    assert(gap(10 * ours, 10 * a) <= gap(10 * ours, w + c) + gap(c, y));
    assert(gap(x, y) <= gap(10 * theirs, w + x) + gap(10 * theirs, 10 * a));
    assert(gap(10 * ours, 10 * a) == 10 * gap(ours, a));
    assert(gap(10 * theirs, 10 * a) == 10 * gap(theirs, a));
}

/// The outcome that is found under an id has that id.
pub(crate) proof fn lemma_place_has_id(outcomes: Seq<Entry<Skin>>, id: Seq<char>)
    ensures
        outcome_place(outcomes, id) matches Some(i) ==> 0 <= i < outcomes.len()
            && outcomes[i].item.id@ == id,
    decreases outcomes.len(),
{
    if outcomes.len() > 0 {
        lemma_place_has_id(outcomes.drop_last(), id);
    }
}

/// A compatible skin is one of the pool.
pub(crate) proof fn lemma_compatible_in_pool(pool: Seq<Skin>, stattrak: bool)
    ensures
        first_compatible(pool, stattrak) matches Some(skin) ==> pool.contains(skin),
    decreases pool.len(),
{
    if pool.len() > 0 {
        let front = pool.drop_last();
        lemma_compatible_in_pool(front, stattrak);
        if let Some(skin) = first_compatible(front, stattrak) {
            let i = choose|i: int| 0 <= i < front.len() && front[i] == skin;
            assert(pool[i] == skin);
        } else {
            assert(pool[pool.len() - 1] == pool.last());
        }
    }
}

/// Slots filled with one float add its share as often.
proof fn lemma_filled_shares(skins: Seq<Skin>, owned: Seq<Slot>, slot: Slot, count: nat)
    requires
        slot.float is Some,
    ensures
        known_shares(skins, owned + Seq::new(count, |i: int| slot)) == known_shares(skins, owned)
            + repeated(adjusted(slot.float->0, slot_skin(skins, slot)), count),
    decreases count,
{
    let all = owned + Seq::new(count, |i: int| slot);
    let share = adjusted(slot.float->0, slot_skin(skins, slot));
    if count == 0 {
        assert(all =~= owned);
        assert(known_shares(skins, owned) + repeated(share, 0) =~= known_shares(skins, owned));
    } else {
        let less = (count - 1) as nat;
        lemma_filled_shares(skins, owned, slot, less);
        assert(all.drop_last() =~= owned + Seq::new(less, |i: int| slot));
        assert(all.last() == slot);
        assert(known_shares(skins, owned) + repeated(share, count) =~= (known_shares(
            skins,
            owned,
        ) + repeated(share, less)).push(share));
    }
}

/// What an ideal plan is made of: the skin that fills its slots is found under its id,
/// its float is accepted, and the outcome that it is meant for is the target.
proof fn lemma_ideal_parts(skins: Seq<Skin>, request: PlanRequest)
    requires
        distinct_ids(skins),
        goal_failure(skins, request) is None,
        inputs_failure(skins, request) is None,
        open_slots(request) > 0,
        ideal_failure(skins, request) is None,
    ensures
        ({
            let (skin, target) = (ideal_skin(skins, request), goal_skin(skins, request));
            let share = ideal_share(skins, request);
            let slots = ideal_slots(skins, request);
            &&& float_failure(predicted_output(share, skin), skin) is None
            &&& target_entry(skins, slots, target).item == target
            &&& contract_average(skins, slots) == average(
                owned_shares(skins, request) + repeated(
                    adjusted(predicted_output(share, skin), skin),
                    open_slots(request),
                ),
                10,
            )
        }),
{
    let (skin, target) = (ideal_skin(skins, request), goal_skin(skins, request));
    let slots = ideal_slots(skins, request);
    let owned = slots_of(request.owned_inputs@);
    let inputs = input_pool(skins, target);
    let float = predicted_output(ideal_share(skins, request), skin);
    let slot = Slot { skin_id: skin.id@, float: Some(float) };
    lemma_found(skins, request.target_skin_id@);
    lemma_compatible_in_pool(inputs, request.stattrak);
    let i = choose|i: int| 0 <= i < inputs.len() && inputs[i] == skin;
    lemma_pool_skin(skins, target.collection_id@, tier_below(target.rarity)->0, i);
    let last = slots.len() - 1;
    assert(slots[last] == slot);
    lemma_slot_accepted(skins, slots, request.stattrak, last);
    lemma_found(skins, skin.id@);
    lemma_one_skin(skins, slot_skin(skins, slot), skin);
    assert(slots =~= owned + Seq::new(open_slots(request), |i: int| slot));
    lemma_filled_shares(skins, owned, slot, open_slots(request));
    let outcomes = contract_outcomes(skins, slots);
    law_outcomes_of_contract(skins, slots);
    lemma_place_has_id(outcomes, target.id@);
    let place = outcome_place(outcomes, target.id@)->0;
    assert(skins.contains(outcomes[place].item));
    lemma_one_skin(skins, outcomes[place].item, target);
}

/// An ideal contract is as near as can be: where caps lie between zero and one, and
/// those of the skin that fills the open slots are at least 0.04 apart, no choice of
/// shares for these slots comes nearer to what is aimed at, by 0.00001 or more, than the
/// plan says that it does.
pub proof fn law_ideal_plan_is_nearest(
    skins: Seq<Skin>,
    request: PlanRequest,
    response: PlanResponse,
    others: Seq<Float32>,
)
    requires
        distinct_ids(skins),
        goal_failure(skins, request) is None,
        inputs_failure(skins, request) is None,
        open_slots(request) > 0,
        ideal_failure(skins, request) is None,
        describes_ideal_plan(response, skins, request),
        finite_spans(skins, slots_of(request.owned_inputs@)),
        unit_caps(goal_skin(skins, request)),
        unit_caps(ideal_skin(skins, request)),
        25 * cap_span(ideal_skin(skins, request)).units() >= pow2(149),
        others.len() == open_slots(request),
        forall|i: int| 0 <= i < others.len() ==> in_unit(#[trigger] others[i]),
    ensures
        nearly_at_most(
            response.target_distance.value,
            distance_of(
                average(owned_shares(skins, request) + others, 10),
                goal_aim(skins, request).center,
                goal_skin(skins, request),
            ),
        ),
{
    let target = goal_skin(skins, request);
    let center = goal_aim(skins, request).center;
    let owned = owned_shares(skins, request);
    let (aim, share) = (aimed_share(skins, request), ideal_share(skins, request));
    let skin = ideal_skin(skins, request);
    let again = adjusted(predicted_output(share, skin), skin);
    lemma_ideal_parts(skins, request);
    lemma_adjusted_error(center, target);
    lemma_shares_accepted(skins, slots_of(request.owned_inputs@), request.stattrak);
    lemma_all_floats_known(skins, request.owned_inputs@);
    lemma_asked_share(aim, owned, open_slots(request));
    lemma_share_again(share, skin);
    lemma_asked_share_is_nearest(aim, owned, share, again, others);
    lemma_distances_follow(
        average(owned + repeated(again, others.len()), 10),
        average(owned + others, 10),
        center,
        target,
    );
}

} // verus!
