//! What a preview promises of the contracts that it grows into.
use crate::accuracy::{
    in_unit, law_adjusted_in_unit, law_nearest_exact, law_nearest_monotone, law_nearest_positive,
    law_order_is_numeric, law_output_in_range, law_quotient_is_nearest, lemma_count_exact,
    lemma_one, lemma_representable, lemma_share_of_span, lemma_span, lemma_sum_bounded, lemma_ten,
    lemma_unit_value, lemma_units_monotone, lemma_zero_units,
};
use crate::catalog::{belongs, distinct_ids, pool, sound_caps};
use crate::contract::{
    collection_ids, contract_average, contract_failure, contract_outcomes, describes_contract,
    describes_outcome, describes_preview, greatest_average, known_shares, least_average,
    preview_failure, same_rarity, slot_failure, slot_skin, slot_skins, slots_failure, slots_of,
    yielded_rarity, AnalyzeResponse, InputRequest, OutcomeAnalysis, PartialAnalyzeResponse,
    PartialOutcomeAnalysis, Slot, ONE_BITS, TEN_BITS,
};
use crate::domain::{
    adjusted, average, cap_span, predicted_output, running_sum, tier_above, zero, Skin,
};
use crate::errors::{
    exact_sum, lemma_fraction_error, lemma_large_count, lemma_large_unit, lemma_product_error,
    lemma_rank_value, lemma_running_error, lemma_sum_error, one_rounding,
};
use crate::float32::{
    abs_int, lemma_nearest_bound, of_count, opposite, product, quiet_nan, quotient, signed, sum,
    Float32,
};
use crate::odds::{law_outcomes_of_contract, lemma_none_barren, lemma_one_skin, shared_probability};
use crate::planner::lemma_all_floats_known;
use crate::rounding::nearest;
use crate::tally::{has_key, law_tally, occurrences, tallied};
use vstd::arithmetic::power2::{lemma2_to64, lemma_pow2_adds, lemma_pow2_pos, pow2};
use vstd::prelude::*;

verus! {

/// The averages that a preview announces enclose that of a contract, up to 24 parts
/// in `2^24`, where they do so without rounding.
proof fn lemma_averages_enclose(known: Seq<Float32>, all: Seq<Float32>)
    requires
        known.len() <= 10,
        all.len() == 10,
        forall|i: int| 0 <= i < known.len() ==> in_unit(#[trigger] known[i]),
        forall|i: int| 0 <= i < all.len() ==> in_unit(#[trigger] all[i]),
        exact_sum(known) <= exact_sum(all) <= exact_sum(known) + (10 - known.len()) * pow2(149),
    ensures
        in_unit(least_average(known)),
        in_unit(greatest_average(known)),
        in_unit(average(all, 10)),
        0x100_0000 * (least_average(known).units() - average(all, 10).units()) <= 24 * pow2(149),
        0x100_0000 * (average(all, 10).units() - greatest_average(known).units()) <= 24 * pow2(
            149,
        ),
{
    let open = (10 - known.len()) as nat;
    let (low, rest, total, p) = (
        running_sum(known),
        of_count(open),
        running_sum(all),
        pow2(149) as int,
    );
    lemma_ten();
    lemma_running_error(known);
    lemma_running_error(all);
    lemma_count_exact(open);
    lemma_representable(10, 149);
    let (n, c) = (known.len() as int, one_rounding());
    assert(n * p + open * p == 10 * p && n * p >= 0 && open * p >= 0 && n * c <= 10 * c)
        by (nonlinear_arith)
        requires
            n + open == 10,
            0 <= n <= 10,
            p >= 0,
            c >= 0,
    ;
    lemma_sum_bounded(low, rest, (10 * p) as nat);
    let full = sum(low, rest);
    lemma_sum_error(low, rest);
    lemma_count_exact(10);
    lemma_fraction_error(low, of_count(10), 10);
    lemma_fraction_error(full, of_count(10), 10);
    lemma_fraction_error(total, of_count(10), 10);
    lemma_large_unit();
}

/// Caps within which every share leads to a finite output.
pub open spec fn steady_caps(skin: Skin) -> bool {
    &&& sound_caps(skin)
    &&& cap_span(skin).finite()
    &&& sum(skin.min_float, cap_span(skin)).finite()
}

/// Caps between zero and one, as those of the game are.
pub open spec fn unit_caps(skin: Skin) -> bool {
    sound_caps(skin) && in_unit(skin.min_float) && in_unit(skin.max_float)
}

/// `x` is at most `y`, or less than 0.00001 above it.
pub open spec fn nearly_at_most(x: Float32, y: Float32) -> bool {
    x.finite() && y.finite() && 100_000 * (x.units() - y.units()) < pow2(149)
}

/// What rounding does to outputs within the caps of `skin`, `2^24` times: no more than 28
/// times the width, and twice the lower cap.
pub open spec fn rounding_slack(skin: Skin) -> int {
    28 * cap_span(skin).units() + 2 * abs_int(skin.min_float.units()) + 4 * 0x100_0000
}

/// `x` is at most `y`, up to what rounding does to outputs within the caps of `skin`.
pub open spec fn at_most_up_to_rounding(x: Float32, y: Float32, skin: Skin) -> bool {
    x.finite() && y.finite() && 0x100_0000 * (x.units() - y.units()) <= rounding_slack(skin)
}

/// Caps within which rounding does less than 0.00001: those between zero and one, and
/// others that are up to five apart and begin within ten of zero.
pub open spec fn modest_caps(skin: Skin) -> bool {
    steady_caps(skin) && 100_000 * rounding_slack(skin) < 0x100_0000 * pow2(149)
}

/// Outputs of steady caps are finite.
proof fn lemma_output_finite(share: Float32, skin: Skin)
    requires
        in_unit(share),
        steady_caps(skin),
    ensures
        predicted_output(share, skin).finite(),
{
    law_output_in_range(share, skin);
}

/// Shares that are close have close parts of a width.
proof fn lemma_parts_close(a: Float32, b: Float32, span: Float32)
    requires
        in_unit(a),
        in_unit(b),
        span.finite(),
        span.rank() >= 0,
        0x100_0000 * (a.units() - b.units()) <= 24 * pow2(149),
    ensures
        0x100_0000 * (product(a, span).units() - product(b, span).units()) <= 26 * span.units() + 2
            * 0x100_0000,
{
    lemma_share_of_span(a, span);
    lemma_share_of_span(b, span);
    lemma_unit_value(a);
    lemma_unit_value(b);
    lemma_product_error(a, span);
    lemma_product_error(b, span);
    lemma_pow2_pos(149);
    lemma_rank_value(span);
    let (u, v, w, p) = (a.units(), b.units(), span.units(), pow2(149) as int);
    let (x, y) = (product(a, span).units(), product(b, span).units());
    assert(u * w <= p * w && v * w <= p * w) by (nonlinear_arith)
        requires
            u <= p,
            v <= p,
            w >= 0,
    ;
    assert(0x100_0000 * (u * w) - 0x100_0000 * (v * w) <= 24 * (p * w)) by (nonlinear_arith)
        requires
            0x100_0000 * (u - v) <= 24 * p,
            w >= 0,
    ;
    assert(0x100_0000 * (x * p) - 0x100_0000 * (y * p) <= 26 * (p * w) + 2 * (0x100_0000 * p));
    assert(0x100_0000 * (x - y) <= 26 * w + 2 * 0x100_0000) by (nonlinear_arith)
        requires
            0x100_0000 * (x * p) - 0x100_0000 * (y * p) <= 26 * (p * w) + 2 * (0x100_0000 * p),
            p > 0,
    ;
}

/// Shares that are close lead to close outputs.
proof fn lemma_outputs_close(a: Float32, b: Float32, skin: Skin)
    requires
        in_unit(a),
        in_unit(b),
        steady_caps(skin),
        0x100_0000 * (a.units() - b.units()) <= 24 * pow2(149),
    ensures
        at_most_up_to_rounding(predicted_output(a, skin), predicted_output(b, skin), skin),
{
    let span = cap_span(skin);
    lemma_span(skin);
    lemma_share_of_span(a, span);
    lemma_share_of_span(b, span);
    lemma_parts_close(a, b, span);
    lemma_output_finite(a, skin);
    lemma_output_finite(b, skin);
    lemma_sum_error(skin.min_float, product(a, span));
    lemma_sum_error(skin.min_float, product(b, span));
    lemma_large_unit();
}

/// Caps that are up to five apart and begin within ten of zero are modest; so are caps
/// between zero and one.
pub proof fn law_modest_caps(skin: Skin)
    ensures
        steady_caps(skin) && cap_span(skin).units() <= 5 * pow2(149) && abs_int(
            skin.min_float.units(),
        ) <= 10 * pow2(149) ==> modest_caps(skin),
        unit_caps(skin) ==> modest_caps(skin),
{
    lemma_large_unit();
    if unit_caps(skin) {
        lemma_unit_caps(skin);
        lemma_unit_value(skin.min_float);
    }
}

/// Caps between zero and one are steady, and no wider than one.
pub(crate) proof fn lemma_unit_caps(skin: Skin)
    requires
        unit_caps(skin),
    ensures
        steady_caps(skin),
        0 <= cap_span(skin).units() <= pow2(149),
{
    let (low, high) = (skin.min_float, skin.max_float);
    let p = pow2(149);
    lemma_unit_value(low);
    lemma_unit_value(high);
    law_order_is_numeric(low, high);
    assert(opposite(low).units() == -low.units());
    let s = (high.units() - low.units()) as nat;
    lemma_one();
    law_nearest_monotone(s, 1, p, 1);
    law_nearest_exact(ONE_BITS as nat);
    reveal(sum);
    assert(cap_span(skin) == signed(false, nearest(s, 1)));
    lemma_units_monotone(nearest(s, 1), ONE_BITS as nat);
    lemma_representable(2, 149);
    lemma_sum_bounded(low, cap_span(skin), 2 * p);
}

/// `full` fills every float and begins as `slots` do: with the same skins, and the
/// floats that are given there.
pub open spec fn grows_into(slots: Seq<Slot>, full: Seq<Slot>) -> bool {
    &&& slots.len() <= full.len()
    &&& forall|i: int| 0 <= i < full.len() ==> (#[trigger] full[i]).float is Some
    &&& forall|i: int|
        0 <= i < slots.len() ==> {
            &&& (#[trigger] slots[i]).skin_id == full[i].skin_id
            &&& slots[i].float is Some ==> slots[i].float == full[i].float
        }
}

/// Every input can have an adjusted float.
pub open spec fn finite_spans(skins: Seq<Skin>, slots: Seq<Slot>) -> bool {
    forall|i: int| 0 <= i < slots.len() ==> cap_span(slot_skin(skins, #[trigger] slots[i])).finite()
}

/// The shares of a preview, and what the open slots can add, enclose those of a contract
/// that it grows into.
proof fn lemma_shares_enclose(
    skins: Seq<Skin>,
    slots: Seq<Slot>,
    full: Seq<Slot>,
    stattrak: bool,
)
    requires
        grows_into(slots, full),
        slots_failure(skins, full, stattrak) is None,
        finite_spans(skins, full),
    ensures
        ({
            let (known, all) = (known_shares(skins, slots), known_shares(skins, full));
            &&& known.len() <= slots.len()
            &&& all.len() == full.len()
            &&& forall|i: int| 0 <= i < known.len() ==> in_unit(#[trigger] known[i])
            &&& forall|i: int| 0 <= i < all.len() ==> in_unit(#[trigger] all[i])
            &&& exact_sum(known) <= exact_sum(all)
            &&& exact_sum(all) <= exact_sum(known) + (full.len() - known.len()) * pow2(149)
        }),
    decreases full.len(),
{
    let (known, all, p) = (known_shares(skins, slots), known_shares(skins, full), pow2(149) as int);
    let n = full.len() as int;
    if n == 0 {
        assert(0 * p == 0);
    } else {
        let front = full.drop_last();
        let fewer = if slots.len() < n {
            slots
        } else {
            slots.drop_last()
        };
        let last = full.last();
        assert(full[n - 1] == last);
        assert(finite_spans(skins, front)) by {
            assert forall|i: int| 0 <= i < front.len() implies cap_span(
                slot_skin(skins, #[trigger] front[i]),
            ).finite() by {
                assert(front[i] == full[i]);
            }
        }
        assert(grows_into(fewer, front)) by {
            assert forall|i: int| 0 <= i < front.len() implies (
            #[trigger] front[i]).float is Some by {
                assert(front[i] == full[i]);
            }
            assert forall|i: int| 0 <= i < fewer.len() implies {
                &&& (#[trigger] fewer[i]).skin_id == front[i].skin_id
                &&& fewer[i].float is Some ==> fewer[i].float == front[i].float
            } by {
                assert(fewer[i] == slots[i]);
            }
        }
        lemma_shares_enclose(skins, fewer, front, stattrak);
        let share = adjusted(last.float->0, slot_skin(skins, last));
        law_adjusted_in_unit(last.float->0, slot_skin(skins, last));
        lemma_unit_value(share);
        let (before, earlier) = (known_shares(skins, fewer), known_shares(skins, front));
        assert(all == earlier.push(share));
        assert(all.drop_last() =~= earlier);
        let open = n - 1 - before.len();
        assert((open + 1) * p == open * p + p) by (nonlinear_arith);
        if slots.len() == n {
            assert(slots[n - 1] == slots.last());
            if slots.last().float is Some {
                assert(slot_skin(skins, slots.last()) == slot_skin(skins, last));
                assert(known == before.push(share));
                assert(known.drop_last() =~= before);
            }
        }
    }
}

/// The floats that a preview announces for an outcome enclose, up to rounding, the
/// float in every contract that it grows into.
proof fn lemma_floats_enclosed(
    skins: Seq<Skin>,
    slots: Seq<Slot>,
    full: Seq<Slot>,
    stattrak: bool,
    skin: Skin,
)
    requires
        grows_into(slots, full),
        full.len() == 10,
        slots_failure(skins, full, stattrak) is None,
        finite_spans(skins, full),
        steady_caps(skin),
    ensures
        ({
            let known = known_shares(skins, slots);
            let output = predicted_output(contract_average(skins, full), skin);
            &&& at_most_up_to_rounding(
                predicted_output(least_average(known), skin),
                output,
                skin,
            )
            &&& at_most_up_to_rounding(
                output,
                predicted_output(greatest_average(known), skin),
                skin,
            )
        }),
{
    let (known, all) = (known_shares(skins, slots), known_shares(skins, full));
    lemma_shares_enclose(skins, slots, full, stattrak);
    lemma_averages_enclose(known, all);
    let share = average(all, 10);
    lemma_outputs_close(least_average(known), share, skin);
    lemma_outputs_close(share, greatest_average(known), skin);
}

/// A count of inputs as a part of all odds of a collection with `size` outcomes, as a
/// preview computes it.
pub open spec fn part_of_odds(count: nat, size: nat) -> Float32 {
    quotient(of_count(count), product(Float32 { bits: TEN_BITS }, of_count(size)))
}

/// Ten times the number of outcomes in a collection, where it is exact.
pub(crate) proof fn lemma_exact_whole(size: nat)
    requires
        0 < size,
        10 * size <= 0x100_0000,
    ensures
        product(Float32 { bits: TEN_BITS }, of_count(size)).finite(),
        product(Float32 { bits: TEN_BITS }, of_count(size)).units() == (10 * size) * pow2(149),
{
    let (ten, divisor, p) = (of_count(10), of_count(size), pow2(149));
    let whole = 10 * size;
    lemma_ten();
    lemma_count_exact(10);
    lemma_count_exact(size);
    lemma_pow2_pos(149);
    lemma_representable(whole, 149);
    let n = (10 * p) * (size * p);
    assert(n == (whole * p) * p) by (nonlinear_arith)
        requires
            n == (10 * p) * (size * p),
            whole == 10 * size,
    ;
    assert(n * 1 == n);
    law_nearest_monotone(n, p, whole * p, 1);
    law_nearest_monotone(whole * p, 1, n, p);
    reveal(product);
}

/// In a small pool the two ways to compute odds keep the order of the counts, up to
/// one part in `2^20`.
proof fn lemma_small_pool_odds(count: nat, other: nat, size: nat)
    requires
        count <= 10,
        other <= 10,
        0 < size,
        10 * size <= 0x100_0000,
    ensures
        part_of_odds(count, size).finite(),
        shared_probability(other, size).finite(),
        count <= other ==> 0x10_0000 * (part_of_odds(count, size).units() - shared_probability(
            other,
            size,
        ).units()) <= pow2(149),
        other <= count ==> 0x10_0000 * (shared_probability(other, size).units() - part_of_odds(
            count,
            size,
        ).units()) <= pow2(149),
{
    let p = pow2(149) as int;
    let (c, o, k) = (count as int, other as int, size as int);
    let whole = product(Float32 { bits: TEN_BITS }, of_count(size));
    let tenth = quotient(of_count(other), of_count(10));
    lemma_large_unit();
    lemma_exact_whole(size);
    lemma_count_exact(count);
    lemma_count_exact(other);
    lemma_count_exact(10);
    lemma_count_exact(size);
    assert(0 <= c * p <= 10 * p && 0 <= o * p <= 10 * p && 10 * p <= (10 * k) * p && p <= k * p)
        by (nonlinear_arith)
        requires
            0 <= c <= 10,
            0 <= o <= 10,
            k >= 1,
            p >= 0,
    ;
    assert(c <= o ==> c * p <= o * p) by (nonlinear_arith)
        requires
            p >= 0,
    ;
    assert(o <= c ==> o * p <= c * p) by (nonlinear_arith)
        requires
            p >= 0,
    ;
    lemma_fraction_error(of_count(count), whole, 10 * k);
    lemma_fraction_error(of_count(other), of_count(10), 10);
    lemma_unit_value(tenth);
    lemma_fraction_error(tenth, of_count(size), k);
    lemma_unit_value(part_of_odds(count, size));
    lemma_unit_value(shared_probability(other, size));
    let (u, r) = (part_of_odds(count, size).units(), shared_probability(other, size).units());
    assert((10 * k) * u == 10 * (k * u)) by (nonlinear_arith);
    lemma_shared_bound(u, r, k, p);
    lemma_shared_bound(r, u, k, p);
}

/// What holds of `k` parts together holds of one.
proof fn lemma_shared_bound(u: int, r: int, k: int, p: int)
    requires
        k >= 1,
        p >= 0x1_0000_0000_0000_0000,
    ensures
        0x100_0000 * (k * u - k * r) <= 3 * p + 3 * (k * 0x100_0000) ==> 0x10_0000 * (u - r) <= p,
{
    if 0x100_0000 * (k * u - k * r) <= 3 * p + 3 * (k * 0x100_0000) {
        assert(0x100_0000 * (u - r) <= 3 * p + 3 * 0x100_0000) by (nonlinear_arith)
            requires
                0x100_0000 * (k * u - k * r) <= 3 * p + 3 * (k * 0x100_0000),
                k >= 1,
                p >= 0,
        ;
    }
}

/// A number by one that is at least `2^20` times as large is at most `2^-20`.
proof fn lemma_small_quotient(t: Float32, b: Float32)
    requires
        t.finite(),
        b.finite(),
        t.units() >= 0,
        b.units() > 0,
        0x10_0000 * t.units() <= b.units(),
    ensures
        quotient(t, b).finite(),
        0 <= quotient(t, b).units() <= pow2(129),
{
    let (x, y, p, q) = (t.units() as nat, b.units() as nat, pow2(149), pow2(129));
    lemma_zero_units(0);
    law_order_is_numeric(zero(), t);
    law_order_is_numeric(zero(), b);
    lemma_rank_value(t);
    lemma_rank_value(b);
    lemma2_to64();
    lemma_pow2_adds(20, 129);
    assert((x * p) * 1 <= q * y) by (nonlinear_arith)
        requires
            p == 0x10_0000 * q,
            0x10_0000 * x <= y,
    ;
    law_quotient_is_nearest(t, b);
    law_nearest_monotone(x * p, y, q, 1);
    lemma_representable(1, 129);
    assert(1 * q == q);
    lemma_units_monotone(nearest(x * p, y), nearest(q, 1));
    lemma_rank_value(quotient(t, b));
}

/// Ten times a large count is a large number.
proof fn lemma_large_whole(size: nat)
    requires
        0x10_0000 <= size <= 0x1_0000_0000_0000_0000,
    ensures
        product(Float32 { bits: TEN_BITS }, of_count(size)).finite(),
        product(Float32 { bits: TEN_BITS }, of_count(size)).units() >= 0xa0_0000 * pow2(149),
{
    let p = pow2(149);
    let d = of_count(size).units() as nat;
    lemma_ten();
    lemma_count_exact(10);
    lemma_large_count(size);
    lemma_pow2_pos(149);
    lemma_zero_units(0);
    law_order_is_numeric(zero(), of_count(10));
    law_order_is_numeric(zero(), of_count(size));
    lemma_rank_value(of_count(10));
    lemma_rank_value(of_count(size));
    let (low, mid, high) = (0xa0_0000 * p, (10 * p) * d, pow2(217));
    lemma2_to64();
    lemma_pow2_adds(4, 213);
    lemma_pow2_adds(17, 200);
    lemma_representable(0xa0_0000, 149);
    lemma_representable(0x2_0000, 200);
    assert(low * p <= mid * 1 && mid * 1 <= high * p) by (nonlinear_arith)
        requires
            low == 0xa0_0000 * p,
            mid == (10 * p) * d,
            high == 16 * pow2(213),
            0x10_0000 * p <= d <= pow2(213),
            p > 0,
    ;
    law_nearest_monotone(low, 1, mid, p);
    law_nearest_monotone(mid, p, high, 1);
    lemma_units_monotone(nearest(low, 1), nearest(mid, p));
    reveal(product);
}

/// In a large pool odds are small, however they are computed.
proof fn lemma_large_pool_odds(count: nat, other: nat, size: nat)
    requires
        count <= 10,
        other <= 10,
        0x10_0000 <= size <= 0x1_0000_0000_0000_0000,
    ensures
        part_of_odds(count, size).finite(),
        shared_probability(other, size).finite(),
        0 <= part_of_odds(count, size).units() <= pow2(129),
        0 <= shared_probability(other, size).units() <= pow2(129),
{
    let p = pow2(149) as int;
    let (c, o) = (count as int, other as int);
    let tenth = quotient(of_count(other), of_count(10));
    lemma_large_unit();
    lemma_count_exact(count);
    lemma_count_exact(other);
    lemma_count_exact(10);
    lemma_large_count(size);
    lemma_large_whole(size);
    assert(0 <= c * p <= 10 * p && 0 <= o * p <= 10 * p) by (nonlinear_arith)
        requires
            0 <= c <= 10,
            0 <= o <= 10,
            p >= 0,
    ;
    lemma_fraction_error(of_count(other), of_count(10), 10);
    lemma_unit_value(tenth);
    lemma_small_quotient(of_count(count), product(Float32 { bits: TEN_BITS }, of_count(size)));
    lemma_small_quotient(tenth, of_count(size));
}

/// The two ways to compute odds keep the order of the counts, up to rounding.
proof fn lemma_odds_keep_order(count: nat, other: nat, size: nat)
    requires
        count <= 10,
        other <= 10,
        0 < size <= 0x1_0000_0000_0000_0000,
    ensures
        count <= other ==> nearly_at_most(
            part_of_odds(count, size),
            shared_probability(other, size),
        ),
        other <= count ==> nearly_at_most(
            shared_probability(other, size),
            part_of_odds(count, size),
        ),
{
    lemma_large_unit();
    if 10 * size <= 0x100_0000 {
        lemma_small_pool_odds(count, other, size);
    } else {
        lemma_large_pool_odds(count, other, size);
        lemma2_to64();
        lemma_pow2_adds(20, 129);
    }
}

/// More keys add occurrences, at most one each.
proof fn lemma_occurrences_grow(keys: Seq<Seq<char>>, n: int, key: Seq<char>)
    requires
        0 <= n <= keys.len(),
    ensures
        occurrences(keys.take(n), key) <= n,
        occurrences(keys.take(n), key) <= occurrences(keys, key),
        occurrences(keys, key) <= occurrences(keys.take(n), key) + keys.len() - n,
    decreases keys.len(),
{
    if keys.len() == 0 {
        assert(keys.take(n) =~= keys);
    } else if n < keys.len() {
        lemma_occurrences_grow(keys.drop_last(), n, key);
        assert(keys.drop_last().take(n) =~= keys.take(n));
    } else {
        assert(keys.take(n) =~= keys);
        lemma_occurrences_grow(keys.drop_last(), n - 1, key);
        assert(keys.drop_last().take(n - 1) =~= keys.drop_last());
    }
}

/// The odds of `x` lie within what `o` announces of the same outcome, up to rounding.
pub open spec fn bounds_odds(o: PartialOutcomeAnalysis, x: OutcomeAnalysis) -> bool {
    &&& nearly_at_most(o.probability_min, x.probability)
    &&& nearly_at_most(x.probability, o.probability_max)
}

/// The float of `x` lies within what `o` announces of the same outcome, up to rounding.
pub open spec fn bounds_float(o: PartialOutcomeAnalysis, x: OutcomeAnalysis, skin: Skin) -> bool {
    let (low, float, high) = (
        o.predicted_float_min.value,
        x.predicted_float.value,
        o.predicted_float_max.value,
    );
    &&& steady_caps(skin) ==> at_most_up_to_rounding(low, float, skin) && at_most_up_to_rounding(
        float,
        high,
        skin,
    )
    &&& modest_caps(skin) ==> nearly_at_most(low, float) && nearly_at_most(float, high)
}

/// One of `outcomes` lies within what `o` announces: its odds, and its float where
/// `finite` says that all shares are.
pub open spec fn bounds_one_of(
    o: PartialOutcomeAnalysis,
    outcomes: Seq<OutcomeAnalysis>,
    skin: Skin,
    finite: bool,
) -> bool {
    exists|j: int|
        0 <= j < outcomes.len() && o.skin_id@ == (#[trigger] outcomes[j]).skin_id@ && bounds_odds(
            o,
            outcomes[j],
        ) && (finite ==> bounds_float(o, outcomes[j], skin))
}

/// An outcome of a preview is an outcome of every contract that it grows into, and counts
/// no fewer inputs there, nor more than the open slots can add.
pub(crate) proof fn lemma_outcome_stays(skins: Seq<Skin>, slots: Seq<Slot>, full: Seq<Slot>, i: int) -> (j:
    int)
    requires
        distinct_ids(skins),
        0 < slots.len(),
        full.len() == 10,
        grows_into(slots, full),
        0 <= i < contract_outcomes(skins, slots).len(),
    ensures
        yielded_rarity(skins, full) == yielded_rarity(skins, slots),
        0 <= j < contract_outcomes(skins, full).len(),
        ({
            let (o, x) = (contract_outcomes(skins, slots)[i], contract_outcomes(skins, full)[j]);
            &&& o.item == x.item
            &&& skins.contains(o.item)
            &&& pool(skins, o.item.collection_id@, yielded_rarity(skins, slots)).len() > 0
            &&& o.count <= slots.len()
            &&& o.count <= x.count <= o.count + 10 - slots.len()
        }),
{
    let rarity = yielded_rarity(skins, slots);
    let (inputs, all) = (
        collection_ids(slot_skins(skins, slots)),
        collection_ids(slot_skins(skins, full)),
    );
    let (some, every) = (contract_outcomes(skins, slots), contract_outcomes(skins, full));
    law_outcomes_of_contract(skins, slots);
    law_outcomes_of_contract(skins, full);
    assert(slots[0].skin_id == full[0].skin_id);
    assert forall|h: int| 0 <= h < inputs.len() implies #[trigger] inputs[h] == all[h] by {
        assert(slots[h].skin_id == full[h].skin_id);
    }
    assert(all.take(slots.len() as int) =~= inputs);
    let skin = some[i].item;
    let home = skin.collection_id@;
    lemma_occurrences_grow(all, slots.len() as int, home);
    let h = choose|h: int| 0 <= h < inputs.len() && inputs[h] == home;
    assert(all[h] == home);
    let found = pool(skins, home, rarity);
    let g = choose|g: int| 0 <= g < skins.len() && skins[g] == skin;
    skins.lemma_filter_contains(belongs(home, rarity), g);
    let f = choose|f: int| 0 <= f < found.len() && found[f] == skin;
    assert(has_key(every, pool(skins, all[h], rarity)[f].id@));
    let j = choose|j: int| 0 <= j < every.len() && (#[trigger] every[j]).key == skin.id@;
    lemma_one_skin(skins, skin, every[j].item);
    j
}

/// Slots are accepted together where each one is.
pub(crate) proof fn lemma_each_slot_accepted(skins: Seq<Skin>, slots: Seq<Slot>, stattrak: bool)
    ensures
        slots_failure(skins, slots, stattrak) is None <==> forall|i: int|
            0 <= i < slots.len() ==> slot_failure(skins, #[trigger] slots[i], stattrak) is None,
    decreases slots.len(),
{
    if slots.len() > 0 {
        let front = slots.drop_last();
        lemma_each_slot_accepted(skins, front, stattrak);
        assert forall|i: int| 0 <= i < front.len() implies #[trigger] front[i] == slots[i] by {}
        assert(slots[slots.len() - 1] == slots.last());
        if forall|i: int|
            0 <= i < slots.len() ==> slot_failure(skins, #[trigger] slots[i], stattrak) is None {
            assert forall|i: int| 0 <= i < front.len() implies slot_failure(
                skins,
                #[trigger] front[i],
                stattrak,
            ) is None by {
                assert(slot_failure(skins, slots[i], stattrak) is None);
            }
        }
        if slots_failure(skins, slots, stattrak) is None {
            assert forall|i: int| 0 <= i < slots.len() implies slot_failure(
                skins,
                #[trigger] slots[i],
                stattrak,
            ) is None by {
                if i < front.len() {
                    assert(slot_failure(skins, front[i], stattrak) is None);
                }
            }
        }
    }
}

/// A contract that is accepted can be previewed from its first slot on.
pub proof fn law_contracts_can_be_previewed(
    skins: Seq<Skin>,
    slots: Seq<Slot>,
    full: Seq<Slot>,
    stattrak: bool,
)
    requires
        0 < slots.len(),
        grows_into(slots, full),
        contract_failure(skins, 10, full, stattrak) is None,
    ensures
        preview_failure(skins, slots, stattrak) is None,
{
    let (chosen, all) = (slot_skins(skins, slots), slot_skins(skins, full));
    lemma_each_slot_accepted(skins, full, stattrak);
    lemma_each_slot_accepted(skins, slots, stattrak);
    assert forall|i: int| 0 <= i < slots.len() implies slot_failure(
        skins,
        #[trigger] slots[i],
        stattrak,
    ) is None by {
        assert(slot_failure(skins, full[i], stattrak) is None);
    }
    assert forall|i: int| 0 <= i < chosen.len() implies #[trigger] chosen[i] == all[i] by {
        assert(slots[i].skin_id == full[i].skin_id);
    }
    assert(same_rarity(chosen)) by {
        assert forall|i: int| 0 <= i < chosen.len() implies (#[trigger] chosen[i]).rarity
            == chosen[0].rarity by {
            assert(all[i].rarity == all[0].rarity);
        }
    }
    let rarity = tier_above(chosen[0].rarity)->0;
    let (some, every) = (collection_ids(chosen), collection_ids(all));
    law_tally(some);
    law_tally(every);
    lemma_none_barren(skins, tallied(some), rarity);
    lemma_none_barren(skins, tallied(every), rarity);
    assert forall|i: int| 0 <= i < tallied(some).len() implies pool(
        skins,
        (#[trigger] tallied(some)[i]).key,
        rarity,
    ).len() > 0 by {
        let key = tallied(some)[i].key;
        let h = choose|h: int| 0 <= h < some.len() && some[h] == key;
        assert(chosen[h] == all[h]);
        assert(has_key(tallied(every), every[h]));
        let j = choose|j: int|
            0 <= j < tallied(every).len() && (#[trigger] tallied(every)[j]).key == every[h];
        assert(pool(skins, tallied(every)[j].key, rarity).len() > 0);
    }
}

/// A preview bounds every contract that it grows into: each outcome that it lists is an
/// outcome of the contract, with odds and a float that lie between the bounds that it
/// announces. The odds do so up to less than 0.00001; so does the float within modest
/// caps, and within wider ones up to what rounding does to such numbers, wherever the
/// widths of the caps are finite.
pub proof fn law_preview_bounds_contracts(
    skins: Seq<Skin>,
    slots: Seq<Slot>,
    stattrak: bool,
    inputs: Seq<InputRequest>,
    preview: PartialAnalyzeResponse,
    analysis: AnalyzeResponse,
)
    requires
        distinct_ids(skins),
        skins.len() <= usize::MAX,
        0 < slots.len(),
        describes_preview(preview, skins, slots),
        grows_into(slots, slots_of(inputs)),
        contract_failure(skins, 10, slots_of(inputs), stattrak) is None,
        describes_contract(analysis, skins, inputs),
    ensures
        forall|i: int|
            0 <= i < preview.outcomes@.len() ==> bounds_one_of(
                #[trigger] preview.outcomes@[i],
                analysis.outcomes@,
                contract_outcomes(skins, slots)[i].item,
                finite_spans(skins, slots_of(inputs)),
            ),
{
    let full = slots_of(inputs);
    let rarity = yielded_rarity(skins, slots);
    assert forall|i: int| 0 <= i < preview.outcomes@.len() implies bounds_one_of(
        #[trigger] preview.outcomes@[i],
        analysis.outcomes@,
        contract_outcomes(skins, slots)[i].item,
        finite_spans(skins, full),
    ) by {
        let j = lemma_outcome_stays(skins, slots, full, i);
        let (o, x) = (contract_outcomes(skins, slots)[i], contract_outcomes(skins, full)[j]);
        let skin = o.item;
        let shown = preview.outcomes@[i];
        if finite_spans(skins, full) && steady_caps(skin) {
            lemma_floats_enclosed(skins, slots, full, stattrak, skin);
        }
        let size = pool(skins, skin.collection_id@, rarity).len();
        skins.lemma_filter_len(belongs(skin.collection_id@, rarity));
        let most = (o.count + 10 - slots.len()) as nat;
        lemma_odds_keep_order(o.count, x.count, size);
        lemma_odds_keep_order(most, x.count, size);
        assert(describes_outcome(
            analysis.outcomes@[j],
            skins,
            x,
            rarity,
            10,
            contract_average(skins, full),
        ));
        assert(bounds_odds(shown, analysis.outcomes@[j]));
        assert(finite_spans(skins, full) ==> bounds_float(shown, analysis.outcomes@[j], skin));
    }
}

/// Adding up from zero never gives a negative zero, nor a not-a-number but the quiet one.
proof fn lemma_no_negative_zero(values: Seq<Float32>)
    ensures
        running_sum(values).magnitude() == 0 ==> !running_sum(values).negative(),
        running_sum(values).nan() ==> running_sum(values) == quiet_nan(),
    decreases values.len(),
{
    if values.len() > 0 {
        let (before, last) = (running_sum(values.drop_last()), values.last());
        let s = before.units() + last.units();
        lemma_no_negative_zero(values.drop_last());
        reveal(sum);
        if before.finite() && last.finite() {
            lemma_zero_units(before.magnitude());
            lemma_zero_units(last.magnitude());
            lemma_nearest_bound(abs_int(s), 1);
            law_nearest_positive(abs_int(s));
        }
    }
}

/// No open slots add nothing.
proof fn lemma_plus_nothing(values: Seq<Float32>)
    ensures
        sum(running_sum(values), of_count(0)) == running_sum(values),
{
    let total = running_sum(values);
    lemma_one();
    assert(of_count(0) == zero()) by {
        reveal(of_count);
        assert(0 * pow2(149) == 0);
    }
    lemma_no_negative_zero(values);
    lemma_zero_units(0);
    reveal(sum);
    if total.finite() {
        lemma_zero_units(total.magnitude());
        law_nearest_exact(total.magnitude());
    }
}

/// A preview of ten slots is refused exactly where the contract is.
pub proof fn law_full_preview_is_refused_with_the_contract(
    skins: Seq<Skin>,
    slots: Seq<Slot>,
    stattrak: bool,
)
    requires
        slots.len() == 10,
    ensures
        preview_failure(skins, slots, stattrak) is None <==> contract_failure(
            skins,
            10,
            slots,
            stattrak,
        ) is None,
{
}

/// A preview of ten known floats is the analysis: it leaves nothing open, and lists the
/// same outcomes in the same order with the predicted float as both bounds; in a catalog
/// with distinct ids the bounds of the odds meet as well.
pub proof fn law_full_preview_is_the_analysis(
    skins: Seq<Skin>,
    inputs: Seq<InputRequest>,
    preview: PartialAnalyzeResponse,
    analysis: AnalyzeResponse,
)
    requires
        inputs.len() == 10,
        describes_preview(preview, skins, slots_of(inputs)),
        describes_contract(analysis, skins, inputs),
    ensures
        preview.remaining_float_slots == 0,
        preview.outcomes@.len() == analysis.outcomes@.len(),
        forall|i: int|
            0 <= i < preview.outcomes@.len() ==> {
                let (o, x) = (#[trigger] preview.outcomes@[i], analysis.outcomes@[i]);
                &&& o.skin_id@ == x.skin_id@
                &&& o.predicted_float_min.bits == x.predicted_float.bits
                &&& o.predicted_float_max.bits == x.predicted_float.bits
                &&& distinct_ids(skins) ==> o.probability_min == o.probability_max
            },
{
    let slots = slots_of(inputs);
    let known = known_shares(skins, slots);
    lemma_all_floats_known(skins, inputs);
    lemma_ten();
    lemma_plus_nothing(known);
    if distinct_ids(skins) {
        law_outcomes_of_contract(skins, slots);
    }
    let entries = contract_outcomes(skins, slots);
    let all = collection_ids(slot_skins(skins, slots));
    assert(all.take(10) =~= all);
    assert forall|i: int| 0 <= i < preview.outcomes@.len() implies {
        let (o, x) = (#[trigger] preview.outcomes@[i], analysis.outcomes@[i]);
        &&& o.skin_id@ == x.skin_id@
        &&& o.predicted_float_min.bits == x.predicted_float.bits
        &&& o.predicted_float_max.bits == x.predicted_float.bits
        &&& distinct_ids(skins) ==> o.probability_min == o.probability_max
    } by {
        assert(describes_outcome(
            analysis.outcomes@[i],
            skins,
            entries[i],
            yielded_rarity(skins, slots),
            10,
            contract_average(skins, slots),
        ));
        if distinct_ids(skins) {
            lemma_occurrences_grow(all, 10, entries[i].item.collection_id@);
        }
    }
}

} // verus!
