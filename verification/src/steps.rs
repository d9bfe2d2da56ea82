//! Which single-precision steps lead to a result, one after the other.
use crate::acceptance::lemma_found_under;
use crate::accuracy::{law_nearest_exact, lemma_one, lemma_ten};
use crate::catalog::distinct_ids;
use crate::contract::{
    contract_average, contract_failure, contract_outcomes, describes_contract, describes_outcome,
    describes_partial_outcome, describes_preview, known_shares, percent, preview_failure, slot_of,
    slot_skin, slots_of, yielded_rarity, AnalyzeResponse, InputRequest, PartialAnalyzeResponse,
    Slot, ONE_BITS,
};
use crate::decimal::fixed;
use crate::domain::{
    adjusted_float, average_adjusted, output_float, predicted_output, sum_in_order, FixtureListing,
    PlannerError, Skin,
};
use crate::float32::{
    f32_add, f32_div, f32_mul, f32_sub, grid_exponent, of_count, significand, Float32,
};
use crate::planner::{
    describes_ideal, describes_owned, ideal_share, ideal_skin, is_ideal, PlanRequest, PlanResponse,
    TargetConstraint, TWO_BITS,
};
use crate::proposals::was_planned;
use crate::yields::{items_of, lemma_known_shares, lemma_outcome_skins, skins_in, slots_from};
use vstd::arithmetic::power2::{lemma2_to64, lemma_pow2_adds, pow2};
use vstd::prelude::*;

verus! {

/// A share is the rounded distance from the lower cap, divided by the rounded width of the
/// caps.
pub proof fn law_share_in_steps(
    raw: Float32,
    skin: Skin,
    r: Result<Float32, PlannerError>,
    distance: Float32,
    width: Float32,
    share: Float32,
)
    requires
        call_ensures(adjusted_float, (raw, &skin), r),
        call_ensures(f32_sub, (raw, skin.min_float), distance),
        call_ensures(f32_sub, (skin.max_float, skin.min_float), width),
        call_ensures(f32_div, (distance, width), share),
    ensures
        r is Ok ==> r->Ok_0 == share,
{
}

/// An average is the sum in order, divided by the count.
pub proof fn law_average_in_steps(
    values: &[Float32],
    count: usize,
    r: Float32,
    total: Float32,
    divisor: Float32,
    average: Float32,
)
    requires
        call_ensures(average_adjusted, (values, count), r),
        call_ensures(sum_in_order, (values,), total),
        call_ensures(Float32::from_count, (count,), divisor),
        call_ensures(f32_div, (total, divisor), average),
    ensures
        r == average,
{
}

/// An output is the lower cap and the share of the rounded width.
pub proof fn law_output_in_steps(
    share: Float32,
    skin: Skin,
    r: Float32,
    width: Float32,
    part: Float32,
    output: Float32,
)
    requires
        call_ensures(output_float, (share, &skin), r),
        call_ensures(f32_sub, (skin.max_float, skin.min_float), width),
        call_ensures(f32_mul, (share, width), part),
        call_ensures(f32_add, (skin.min_float, part), output),
    ensures
        r == output,
{
}

/// The odds of an outcome are the count of its collection's inputs, divided by ten, divided
/// by the number of outcomes in its collection.
pub proof fn law_odds_in_steps(
    skins: Seq<Skin>,
    inputs: Seq<InputRequest>,
    stattrak: bool,
    analysis: AnalyzeResponse,
    i: int,
    k: int,
    count: usize,
    size: usize,
    numbers: (Float32, Float32, Float32),
    tenth: Float32,
    odds: Float32,
)
    requires
        distinct_ids(skins),
        skins.len() <= usize::MAX,
        contract_failure(skins, inputs.len(), slots_of(inputs), stattrak) is None,
        describes_contract(analysis, skins, inputs),
        0 <= i < analysis.outcomes@.len(),
        0 <= k < skins.len(),
        analysis.outcomes@[i].skin_id@ == skins[k].id@,
        count == slots_from(skins, slots_of(inputs), skins[k].collection_id@),
        size == skins_in(skins, skins[k].collection_id@, skins[k].rarity),
        call_ensures(Float32::from_count, (count,), numbers.0),
        call_ensures(Float32::from_count, (10usize,), numbers.1),
        call_ensures(Float32::from_count, (size,), numbers.2),
        call_ensures(f32_div, (numbers.0, numbers.1), tenth),
        call_ensures(f32_div, (tenth, numbers.2), odds),
    ensures
        analysis.outcomes@[i].probability == odds,
{
    let slots = slots_of(inputs);
    lemma_outcome_skins(skins, slots, stattrak);
    let e = contract_outcomes(skins, slots)[i];
    assert(items_of(contract_outcomes(skins, slots))[i] == e.item);
    let h = choose|h: int| 0 <= h < skins.len() && skins[h] == e.item;
    lemma_found_under(skins, k);
    lemma_found_under(skins, h);
    assert(describes_outcome(
        analysis.outcomes@[i],
        skins,
        e,
        yielded_rarity(skins, slots),
        10,
        contract_average(skins, slots),
    ));
}

/// The odds that a preview shows are a count, divided by ten times the number of outcomes in
/// the collection: the slots from there at least, those and all open slots at most.
pub proof fn law_preview_odds_in_steps(
    skins: Seq<Skin>,
    slots: Seq<Slot>,
    stattrak: bool,
    preview: PartialAnalyzeResponse,
    i: int,
    k: int,
    count: usize,
    most: usize,
    size: usize,
    numbers: (Float32, Float32, Float32, Float32),
    whole: Float32,
    odds: (Float32, Float32),
)
    requires
        distinct_ids(skins),
        skins.len() <= usize::MAX,
        preview_failure(skins, slots, stattrak) is None,
        describes_preview(preview, skins, slots),
        0 <= i < preview.outcomes@.len(),
        0 <= k < skins.len(),
        preview.outcomes@[i].skin_id@ == skins[k].id@,
        count == slots_from(skins, slots, skins[k].collection_id@),
        most == count + 10 - slots.len(),
        size == skins_in(skins, skins[k].collection_id@, skins[k].rarity),
        call_ensures(Float32::from_count, (count,), numbers.0),
        call_ensures(Float32::from_count, (most,), numbers.1),
        call_ensures(Float32::from_count, (10usize,), numbers.2),
        call_ensures(Float32::from_count, (size,), numbers.3),
        call_ensures(f32_mul, (numbers.2, numbers.3), whole),
        call_ensures(f32_div, (numbers.0, whole), odds.0),
        call_ensures(f32_div, (numbers.1, whole), odds.1),
    ensures
        preview.outcomes@[i].probability_min == odds.0,
        preview.outcomes@[i].probability_max == odds.1,
{
    lemma_outcome_skins(skins, slots, stattrak);
    lemma_ten();
    let e = contract_outcomes(skins, slots)[i];
    assert(items_of(contract_outcomes(skins, slots))[i] == e.item);
    let h = choose|h: int| 0 <= h < skins.len() && skins[h] == e.item;
    lemma_found_under(skins, k);
    lemma_found_under(skins, h);
    assert(describes_partial_outcome(
        preview.outcomes@[i],
        skins,
        e,
        yielded_rarity(skins, slots),
        slots.len(),
        known_shares(skins, slots),
    ));
}

/// Two is an exact number.
proof fn lemma_two_counted()
    ensures
        of_count(2) == (Float32 { bits: TWO_BITS }),
{
    reveal(of_count);
    lemma2_to64();
    lemma_pow2_adds(23, 127);
    lemma_pow2_adds(1, 149);
    assert(grid_exponent(TWO_BITS as nat) == 127);
    assert(significand(TWO_BITS as nat) == 0x80_0000);
    law_nearest_exact(TWO_BITS as nat);
    assert(pow2(150) == 2 * pow2(149));
}

/// The bounds of what was asked for: the allowed deviation is taken off below and added
/// above, and the middle of a range is half of its ends together.
pub proof fn law_bounds_in_steps(
    target: TargetConstraint,
    delta: Float32,
    low: Float32,
    high: Float32,
    r: Result<(Float32, Float32, Float32), PlannerError>,
    value: Float32,
    other: Float32,
    under: Float32,
    over: Float32,
    two: Float32,
    together: Float32,
    middle: Float32,
)
    requires
        call_ensures(TargetConstraint::requested_bounds, (&target, delta, low, high), r),
        r is Ok,
        call_ensures(f32_sub, (value, delta), under),
        call_ensures(f32_add, (other, delta), over),
        call_ensures(Float32::from_count, (2usize,), two),
        call_ensures(f32_add, (value, other), together),
        call_ensures(f32_div, (together, two), middle),
        !low.nan() && !high.nan() && low.rank() <= high.rank(),
        under.rank() >= low.rank() && over.rank() <= high.rank(),
        low.rank() <= middle.rank() <= high.rank(),
        low.rank() <= value.rank() <= high.rank(),
    ensures
        target == (TargetConstraint::Range { min: value, max: other }) ==> r->Ok_0.0 == under
            && r->Ok_0.1 == over && r->Ok_0.2 == middle,
        target == (TargetConstraint::Exact { value }) && other == value ==> r->Ok_0.0 == under
            && r->Ok_0.1 == over && r->Ok_0.2 == value,
        target == (TargetConstraint::Maximum { value }) && other == value ==> r->Ok_0.0 == low
            && r->Ok_0.1 == over && r->Ok_0.2 == value,
{
    lemma_two_counted();
}

/// A percentage is a hundred times the probability, shown with two places.
pub proof fn law_percentage_in_steps(p: Float32, hundred: Float32, r: Float32)
    requires
        call_ensures(Float32::from_count, (100usize,), hundred),
        call_ensures(f32_mul, (p, hundred), r),
    ensures
        percent(p) == fixed(r, 2) + "%"@,
{
    lemma_hundred();
}

/// A hundred is an exact number.
proof fn lemma_hundred()
    ensures
        of_count(100) == (Float32 { bits: crate::contract::HUNDRED_BITS }),
{
    reveal(of_count);
    lemma2_to64();
    lemma_pow2_adds(17, 132);
    assert(grid_exponent(0x42c8_0000) == 132);
    assert(significand(0x42c8_0000) == 0xc8_0000);
    law_nearest_exact(0x42c8_0000);
    assert(0xc8_0000 * pow2(132) == 100 * pow2(149)) by (nonlinear_arith)
        requires
            pow2(149) == 0x2_0000 * pow2(132),
    ;
}

/// The share that every open slot is asked for without listings: ten times the share of the
/// aim, less the shares of the owned items in their order, divided by the number of open
/// slots, and moved between zero and one.
pub proof fn law_ideal_share_in_steps(
    r: PlanResponse,
    skins: Seq<Skin>,
    listings: Seq<FixtureListing>,
    request: PlanRequest,
    i: int,
    owned: &[Float32],
    count: usize,
    numbers: (Float32, Float32, Float32),
    total: Float32,
    wanted: Float32,
    missing: Float32,
    each: Float32,
    share: Float32,
)
    requires
        was_planned(r, skins, listings, request),
        is_ideal(skins, listings, request),
        request.owned_inputs@.len() <= i < 10,
        count == 10 - request.owned_inputs@.len(),
        owned@.len() == request.owned_inputs@.len(),
        forall|j: int|
            0 <= j < owned@.len() ==> #[trigger] owned@[j]
                == r.selected_inputs@[j].adjusted_float.value,
        call_ensures(Float32::from_count, (10usize,), numbers.0),
        call_ensures(Float32::from_count, (count,), numbers.1),
        call_ensures(Float32::from_count, (1usize,), numbers.2),
        call_ensures(sum_in_order, (owned,), total),
        call_ensures(f32_mul, (r.target_adjusted.value, numbers.0), wanted),
        call_ensures(f32_sub, (wanted, total), missing),
        call_ensures(f32_div, (missing, numbers.1), each),
        call_ensures(Float32::clamp, (each, Float32 { bits: 0 }, numbers.2), share),
    ensures
        r.selected_inputs@[i].adjusted_float.value == share,
{
    let given = request.owned_inputs@;
    lemma_ten();
    lemma_one_counted();
    lemma_known_shares(skins, given);
    assert(owned@ =~= known_shares(skins, slots_of(given))) by {
        assert forall|j: int| 0 <= j < owned@.len() implies owned@[j] == known_shares(
            skins,
            slots_of(given),
        )[j] by {
            assert(slots_of(given)[j] == slot_of(given[j]));
            assert(describes_owned(
                r.selected_inputs@[j],
                j,
                slot_skin(skins, slot_of(given[j])),
                given[j].float_value,
            ));
        }
    }
    assert(describes_ideal(
        r.selected_inputs@[i],
        i,
        ideal_skin(skins, request),
        predicted_output(ideal_share(skins, request), ideal_skin(skins, request)),
        ideal_share(skins, request),
    ));
}

/// One is an exact number.
proof fn lemma_one_counted()
    ensures
        of_count(1) == (Float32 { bits: ONE_BITS }),
{
    reveal(of_count);
    lemma_one();
    assert(1 * pow2(149) == pow2(149));
}

} // verus!
