//! What contracts and previews report, by what is counted and what is measured.
use crate::acceptance::{law_one_rarity, law_tiers, lemma_found_under, trades_up};
use crate::accuracy::{
    gap, in_unit, law_nearest_monotone, law_nearest_positive, law_order_is_numeric,
    law_quotient_is_nearest, law_sum_is_nearest, lemma_count_exact, lemma_one, lemma_representable,
    lemma_sum_bounded, lemma_ten, lemma_unit_value, lemma_zero_units,
};
use crate::catalog::{belongs, distinct_ids, pool};
use crate::contract::{
    collection_ids, contract_average, contract_failure, contract_outcomes, describes_contract,
    describes_input, describes_outcome, describes_partial_outcome, describes_preview,
    greatest_average, known_shares, least_average, percent, preview_failure, slot_failure, slot_skin,
    slot_skins, slots_of, yielded_rarity, AnalyzeResponse, InputAnalysis, InputRequest,
    OutcomeAnalysis, PartialAnalyzeResponse, Slot, ONE_BITS, TEN_BITS,
};
use crate::domain::{
    adjusted, average, cap_span, describes_wear, float_failure, predicted_output, running_sum, zero, Float32Value, Rarity, Skin,
};
use crate::errors::{
    exact_sum, lemma_fraction_error, lemma_large_unit, lemma_rank_value, lemma_running_error,
    lemma_sum_error, one_rounding,
};
use crate::float32::{
    difference, magnitude_units, of_count, opposite, product, quotient, sum, Float32,
};
use crate::ideal::{
    lemma_adjusted_error, lemma_average_error, lemma_cap_values, lemma_gap_scaled,
    lemma_output_error,
};
use crate::odds::{
    law_outcomes_of_contract, lemma_collection_probability, lemma_one_skin, shared_probability,
};
use crate::preview::{
    grows_into, lemma_each_slot_accepted, lemma_exact_whole, lemma_outcome_stays, part_of_odds,
    unit_caps,
};
use crate::rounding::nearest;
use crate::wear::{decimal_place, law_exterior_names};
use crate::tally::{has_key, occurrences};
use crate::text::text_before;
use vstd::arithmetic::power2::pow2;
use vstd::prelude::*;

verus! {

/// The number of skins of a rarity in a collection.
pub open spec fn skins_in(skins: Seq<Skin>, collection: Seq<char>, rarity: Rarity) -> nat
    decreases skins.len(),
{
    if skins.len() == 0 {
        0
    } else {
        skins_in(skins.drop_last(), collection, rarity) + if skins.last().collection_id@
            == collection && skins.last().rarity == rarity {
            1nat
        } else {
            0
        }
    }
}

/// The catalog has a skin with this id in this collection.
pub open spec fn comes_from(skins: Seq<Skin>, id: Seq<char>, collection: Seq<char>) -> bool {
    exists|k: int|
        0 <= k < skins.len() && (#[trigger] skins[k]).id@ == id && skins[k].collection_id@
            == collection
}

/// The number of slots that name a skin of a collection.
pub open spec fn slots_from(skins: Seq<Skin>, slots: Seq<Slot>, collection: Seq<char>) -> nat
    decreases slots.len(),
{
    if slots.len() == 0 {
        0
    } else {
        slots_from(skins, slots.drop_last(), collection) + if comes_from(
            skins,
            slots.last().skin_id,
            collection,
        ) {
            1nat
        } else {
            0
        }
    }
}

/// A pool has as many skins as there are in the catalog.
pub(crate) proof fn lemma_pool_size(skins: Seq<Skin>, collection: Seq<char>, rarity: Rarity)
    ensures
        pool(skins, collection, rarity).len() == skins_in(skins, collection, rarity),
        skins_in(skins, collection, rarity) <= skins.len(),
    decreases skins.len(),
{
    reveal(Seq::filter);
    if skins.len() > 0 {
        lemma_pool_size(skins.drop_last(), collection, rarity);
    }
}

/// A collection occurs among resolved slots as often as slots name a skin of it.
proof fn lemma_slots_from(skins: Seq<Skin>, slots: Seq<Slot>, collection: Seq<char>)
    requires
        distinct_ids(skins),
        forall|i: int|
            0 <= i < slots.len() ==> skins.contains(slot_skin(skins, #[trigger] slots[i]))
                && slot_skin(skins, slots[i]).id@ == slots[i].skin_id,
    ensures
        occurrences(collection_ids(slot_skins(skins, slots)), collection) == slots_from(
            skins,
            slots,
            collection,
        ),
        slots_from(skins, slots, collection) <= slots.len(),
    decreases slots.len(),
{
    let ids = collection_ids(slot_skins(skins, slots));
    if slots.len() > 0 {
        let front = slots.drop_last();
        assert forall|i: int| 0 <= i < front.len() implies skins.contains(
            slot_skin(skins, #[trigger] front[i]),
        ) && slot_skin(skins, front[i]).id@ == front[i].skin_id by {
            assert(front[i] == slots[i]);
        }
        lemma_slots_from(skins, front, collection);
        assert(ids.drop_last() =~= collection_ids(slot_skins(skins, front)));
        let last = slots[slots.len() - 1];
        assert(slots.last() == last);
        assert(ids.last() == slot_skin(skins, last).collection_id@);
        let k = choose|k: int| 0 <= k < skins.len() && skins[k] == slot_skin(skins, last);
        assert(skins[k].id@ == last.skin_id);
        if comes_from(skins, last.skin_id, collection) {
            let h = choose|h: int|
                0 <= h < skins.len() && (#[trigger] skins[h]).id@ == last.skin_id
                    && skins[h].collection_id@ == collection;
            lemma_found_under(skins, h);
            assert(slot_skin(skins, last) == skins[h]);
        }
    }
}

/// `skin` is one step above the slots' rarity, in a collection that one of them is from.
pub open spec fn can_come_out(skins: Seq<Skin>, slots: Seq<Slot>, skin: Skin) -> bool {
    exists|i: int, k: int|
        0 <= i < slots.len() && 0 <= k < skins.len() && (#[trigger] slots[i]).skin_id == (
        #[trigger] skins[k]).id@ && skins[k].collection_id@ == skin.collection_id@ && trades_up(
            skins[k].rarity,
            skin.rarity,
        )
}

/// What the outcomes of slots are, one by one.
pub open spec fn outcome_skins(skins: Seq<Skin>, slots: Seq<Slot>, listed: Seq<Skin>) -> bool {
    &&& forall|i: int|
        0 <= i < listed.len() ==> skins.contains(#[trigger] listed[i]) && can_come_out(
            skins,
            slots,
            listed[i],
        )
    &&& forall|k: int|
        0 <= k < skins.len() && can_come_out(skins, slots, #[trigger] skins[k])
            ==> listed.contains(skins[k])
    &&& forall|i: int, j: int|
        0 <= i < j < listed.len() ==> text_before(
            (#[trigger] listed[i]).id@,
            (#[trigger] listed[j]).id@,
        )
}

pub open spec fn items_of(entries: Seq<crate::tally::Entry<Skin>>) -> Seq<Skin> {
    Seq::new(entries.len(), |i: int| entries[i].item)
}

/// The outcomes of accepted slots.
#[verifier::rlimit(40)]
pub(crate) proof fn lemma_outcome_skins(skins: Seq<Skin>, slots: Seq<Slot>, stattrak: bool)
    requires
        distinct_ids(skins),
        skins.len() <= usize::MAX,
        contract_failure(skins, 10, slots, stattrak) is None || preview_failure(
            skins,
            slots,
            stattrak,
        ) is None,
    ensures
        0 < slots.len() <= 10,
        outcome_skins(skins, slots, items_of(contract_outcomes(skins, slots))),
        trades_up(slot_skin(skins, slots[0]).rarity, yielded_rarity(skins, slots)),
        forall|i: int|
            0 <= i < contract_outcomes(skins, slots).len() ==> {
                let e = #[trigger] contract_outcomes(skins, slots)[i];
                &&& e.item.rarity == yielded_rarity(skins, slots)
                &&& e.count == slots_from(skins, slots, e.item.collection_id@)
                &&& e.count <= slots.len()
                &&& pool(skins, e.item.collection_id@, yielded_rarity(skins, slots)).len()
                    == skins_in(skins, e.item.collection_id@, e.item.rarity)
                &&& 0 < skins_in(skins, e.item.collection_id@, e.item.rarity) <= skins.len()
            },
{
    let r = contract_outcomes(skins, slots);
    let listed = items_of(r);
    let rarity = yielded_rarity(skins, slots);
    let ids = collection_ids(slot_skins(skins, slots));
    law_outcomes_of_contract(skins, slots);
    assert forall|i: int| 0 <= i < slots.len() implies skins.contains(
        slot_skin(skins, #[trigger] slots[i]),
    ) && slot_skin(skins, slots[i]).id@ == slots[i].skin_id && slot_skin(skins, slots[i]).rarity
        == slot_skin(skins, slots[0]).rarity by {
        law_one_rarity(skins, 10, slots, stattrak, i, 0);
    }
    law_tiers(slot_skin(skins, slots[0]).rarity, rarity);
    assert forall|i: int| 0 <= i < r.len() implies {
        let e = #[trigger] r[i];
        &&& e.count == slots_from(skins, slots, e.item.collection_id@)
        &&& e.count <= slots.len()
        &&& pool(skins, e.item.collection_id@, rarity).len() == skins_in(
            skins,
            e.item.collection_id@,
            e.item.rarity,
        )
        &&& 0 < skins_in(skins, e.item.collection_id@, e.item.rarity) <= skins.len()
    } by {
        let item = r[i].item;
        lemma_slots_from(skins, slots, item.collection_id@);
        lemma_pool_size(skins, item.collection_id@, rarity);
        let k = choose|k: int| 0 <= k < skins.len() && skins[k] == item;
        skins.lemma_filter_contains(belongs(item.collection_id@, rarity), k);
    }
    assert forall|i: int| 0 <= i < listed.len() implies skins.contains(#[trigger] listed[i])
        && can_come_out(skins, slots, listed[i]) by {
        assert(listed[i] == r[i].item);
        let h = choose|h: int| 0 <= h < ids.len() && ids[h] == r[i].item.collection_id@;
        assert(skins.contains(slot_skin(skins, slots[h])));
        let k = choose|k: int| 0 <= k < skins.len() && skins[k] == slot_skin(skins, slots[h]);
        assert(slots[h].skin_id == skins[k].id@);
    }
    assert forall|k: int|
        0 <= k < skins.len() && can_come_out(skins, slots, #[trigger] skins[k]) implies listed.contains(
        skins[k],
    ) by {
        let (i, h) = choose|i: int, h: int|
            0 <= i < slots.len() && 0 <= h < skins.len() && (#[trigger] slots[i]).skin_id == (
            #[trigger] skins[h]).id@ && skins[h].collection_id@ == skins[k].collection_id@
                && trades_up(skins[h].rarity, skins[k].rarity);
        lemma_found_under(skins, h);
        assert(slot_skin(skins, slots[i]) == skins[h]);
        law_tiers(skins[h].rarity, skins[k].rarity);
        assert(skins[k].rarity == rarity);
        let found = pool(skins, ids[i], rarity);
        assert(ids[i] == skins[k].collection_id@);
        skins.lemma_filter_contains(belongs(ids[i], rarity), k);
        let j = choose|j: int| 0 <= j < found.len() && found[j] == skins[k];
        assert(has_key(r, found[j].id@));
        let e = choose|e: int| 0 <= e < r.len() && (#[trigger] r[e]).key == skins[k].id@;
        let l = choose|l: int| 0 <= l < skins.len() && skins[l] == r[e].item;
        lemma_found_under(skins, l);
        lemma_found_under(skins, k);
        assert(listed[e] == skins[k]);
    }
    assert forall|i: int, j: int| 0 <= i < j < listed.len() implies text_before(
        (#[trigger] listed[i]).id@,
        (#[trigger] listed[j]).id@,
    ) by {
        assert(listed[i] == r[i].item && listed[j] == r[j].item);
        assert(r[i].key == r[i].item.id@ && r[j].key == r[j].item.id@);
    }
}

/// A number that is shown with its bits is that number.
pub open spec fn shows_number(shown: Float32Value, x: Float32) -> bool {
    shown.value == x && shown.bits == x.bits
}

/// An analysis repeats its ten inputs in their order, and lists exactly the skins that can
/// come out, once each, by their ids.
pub proof fn law_analysis_lists_everything(
    skins: Seq<Skin>,
    inputs: Seq<InputRequest>,
    stattrak: bool,
    analysis: AnalyzeResponse,
) -> (listed: Seq<Skin>)
    requires
        distinct_ids(skins),
        skins.len() <= usize::MAX,
        contract_failure(skins, inputs.len(), slots_of(inputs), stattrak) is None,
        describes_contract(analysis, skins, inputs),
    ensures
        analysis.valid,
        analysis.contract_size == 10,
        inputs.len() == 10,
        analysis.inputs@.len() == 10,
        forall|i: int|
            0 <= i < 10 ==> {
                let shown = #[trigger] analysis.inputs@[i];
                &&& shown.slot == i + 1
                &&& shown.rarity == analysis.input_rarity
                &&& shows_number(shown.raw_float, inputs[i].float_value)
                &&& shown.inspect_link_supplied == (inputs[i].inspect_link is Some)
                &&& exists|k: int|
                    0 <= k < skins.len() && (#[trigger] skins[k]).id@ == inputs[i].skin_id@
                        && shown.skin_id@ == skins[k].id@ && shown.skin_name@ == skins[k].name@
                        && shown.collection_name@ == skins[k].collection_name@
                        && analysis.input_rarity == skins[k].rarity
            },
        outcome_skins(skins, slots_of(inputs), listed),
        analysis.outcomes@.len() == listed.len(),
        forall|i: int|
            0 <= i < listed.len() ==> {
                let shown = #[trigger] analysis.outcomes@[i];
                &&& shown.skin_id@ == listed[i].id@
                &&& shown.skin_name@ == listed[i].name@
                &&& shown.collection_name@ == listed[i].collection_name@
            },
{
    let slots = slots_of(inputs);
    lemma_outcome_skins(skins, slots, stattrak);
    assert forall|i: int| 0 <= i < 10 implies {
        let shown = #[trigger] analysis.inputs@[i];
        &&& shown.slot == i + 1
        &&& shown.rarity == analysis.input_rarity
        &&& shows_number(shown.raw_float, inputs[i].float_value)
        &&& shown.inspect_link_supplied == (inputs[i].inspect_link is Some)
        &&& exists|k: int|
            0 <= k < skins.len() && (#[trigger] skins[k]).id@ == inputs[i].skin_id@
                && shown.skin_id@ == skins[k].id@ && shown.skin_name@ == skins[k].name@
                && shown.collection_name@ == skins[k].collection_name@ && analysis.input_rarity
                == skins[k].rarity
    } by {
        law_one_rarity(skins, 10, slots, stattrak, i, 0);
        assert(describes_input(analysis.inputs@[i], i, slot_skin(skins, slots[i]), inputs[i]));
        let k = choose|k: int| 0 <= k < skins.len() && skins[k] == slot_skin(skins, slots[i]);
        assert(skins[k].id@ == inputs[i].skin_id@);
    }
    let listed = items_of(contract_outcomes(skins, slots));
    assert forall|i: int| 0 <= i < listed.len() implies {
        let shown = #[trigger] analysis.outcomes@[i];
        &&& shown.skin_id@ == listed[i].id@
        &&& shown.skin_name@ == listed[i].name@
        &&& shown.collection_name@ == listed[i].collection_name@
    } by {
        assert(listed[i] == contract_outcomes(skins, slots)[i].item);
    }
    listed
}

/// A chance of `count` in ten, shared by `size` outcomes, up to 0.000002 of it.
pub open spec fn chance(p: Float32, count: nat, size: nat) -> bool {
    &&& p.finite()
    &&& p.units() >= 0
    &&& 500_000 * gap(10 * (size * p.units()), (count * pow2(149)) as int) <= count * pow2(149)
        + 500_000 * (51 * size)
}

/// The chance of an outcome is the part of the inputs that come from its collection,
/// shared evenly by the skins of its collection that can come out.
pub proof fn law_chance_of_an_outcome(
    skins: Seq<Skin>,
    inputs: Seq<InputRequest>,
    stattrak: bool,
    analysis: AnalyzeResponse,
    i: int,
    skin: Skin,
)
    requires
        distinct_ids(skins),
        skins.len() <= usize::MAX,
        contract_failure(skins, inputs.len(), slots_of(inputs), stattrak) is None,
        describes_contract(analysis, skins, inputs),
        0 <= i < analysis.outcomes@.len(),
        skins.contains(skin),
        analysis.outcomes@[i].skin_id@ == skin.id@,
    ensures
        chance(
            analysis.outcomes@[i].probability,
            slots_from(skins, slots_of(inputs), skin.collection_id@),
            skins_in(skins, skin.collection_id@, skin.rarity),
        ),
{
    let slots = slots_of(inputs);
    lemma_outcome_skins(skins, slots, stattrak);
    let e = contract_outcomes(skins, slots)[i];
    assert(items_of(contract_outcomes(skins, slots))[i] == e.item);
    assert(skins.contains(e.item));
    let (k, h) = (
        choose|k: int| 0 <= k < skins.len() && skins[k] == skin,
        choose|h: int| 0 <= h < skins.len() && skins[h] == e.item,
    );
    lemma_found_under(skins, k);
    lemma_found_under(skins, h);
    let size = skins_in(skins, skin.collection_id@, skin.rarity);
    lemma_collection_probability(e.count, size);
    lemma_large_unit();
    lemma_unit_value(shared_probability(e.count, size));
    assert(describes_outcome(
        analysis.outcomes@[i],
        skins,
        e,
        yielded_rarity(skins, slots),
        10,
        contract_average(skins, slots),
    ));
}

/// Caps between zero and one, in order.
pub open spec fn caps_in_unit(skin: Skin) -> bool {
    &&& skin.min_float.finite()
    &&& skin.max_float.finite()
    &&& 0 <= skin.min_float.units() < skin.max_float.units() <= pow2(149)
}

/// `a` is the place of `x` between the caps, within 0.000001 of one.
pub open spec fn is_share(a: Float32, x: Float32, skin: Skin) -> bool {
    let p = pow2(149);
    &&& a.finite()
    &&& 0 <= a.units() <= p
    &&& 1_000_000 * gap(
        a.units() * (skin.max_float.units() - skin.min_float.units()),
        (x.units() - skin.min_float.units()) * p,
    ) <= p * p
}

/// `x` lies at the share `a` between the caps, within 0.000001.
pub open spec fn lies_at(x: Float32, a: Float32, skin: Skin) -> bool {
    let p = pow2(149);
    &&& x.finite()
    &&& 1_000_000 * gap(
        x.units() * p,
        skin.min_float.units() * p + a.units() * (skin.max_float.units() - skin.min_float.units()),
    ) <= p * p
}

/// Caps in unit, as they are used elsewhere.
proof fn lemma_caps_in_unit(skin: Skin)
    requires
        caps_in_unit(skin),
    ensures
        unit_caps(skin),
        cap_span(skin).finite(),
        0x100_0000 * gap(
            cap_span(skin).units(),
            skin.max_float.units() - skin.min_float.units(),
        ) <= pow2(149) + 0x100_0000,
{
    let (low, high) = (skin.min_float, skin.max_float);
    lemma_one();
    lemma_zero_units(0);
    law_order_is_numeric(low, high);
    law_order_is_numeric(zero(), low);
    law_order_is_numeric(zero(), high);
    law_order_is_numeric(low, Float32 { bits: ONE_BITS });
    law_order_is_numeric(high, Float32 { bits: ONE_BITS });
    lemma_cap_values(skin);
    assert(opposite(low).units() == -low.units());
    lemma_sum_error(high, opposite(low));
}

/// A product with the width of the caps, for the rounded width and the exact one.
proof fn lemma_span_part(a: int, skin: Skin)
    requires
        caps_in_unit(skin),
        0 <= a <= pow2(149),
    ensures
        100 * (0x100_0000 * gap(
            a * cap_span(skin).units(),
            a * (skin.max_float.units() - skin.min_float.units()),
        )) <= 101 * (pow2(149) * pow2(149)),
{
    let p = pow2(149) as int;
    let (c, w) = (cap_span(skin).units(), skin.max_float.units() - skin.min_float.units());
    lemma_caps_in_unit(skin);
    lemma_large_unit();
    lemma_gap_scaled(c, w, a);
    let g = gap(c, w) as int;
    assert(c * a == a * c && w * a == a * w) by (nonlinear_arith);
    assert(100 * (0x100_0000 * (g * a)) <= 101 * (p * p)) by (nonlinear_arith)
        requires
            0x100_0000 * g <= p + 0x100_0000,
            100 * 0x100_0000 <= p,
            0 <= a <= p,
            g >= 0,
    ;
}

/// The share of a float.
pub(crate) proof fn lemma_is_share(x: Float32, skin: Skin)
    requires
        caps_in_unit(skin),
        float_failure(x, skin) is None,
    ensures
        is_share(adjusted(x, skin), x, skin),
        in_unit(adjusted(x, skin)),
{
    let p = pow2(149) as int;
    let a = adjusted(x, skin);
    lemma_caps_in_unit(skin);
    lemma_adjusted_error(x, skin);
    lemma_unit_value(a);
    lemma_span_part(a.units(), skin);
    let (u, l, pp) = (x.units(), skin.min_float.units(), p * p);
    assert((u - l) * p == u * p - l * p) by (nonlinear_arith);
    let (c, w) = (cap_span(skin).units(), skin.max_float.units() - skin.min_float.units());
    let (s, t, g) = (a.units() * c, a.units() * w, (u - l) * p);
    assert(gap(t, g) <= gap(s, t) + gap(s, g));
    assert(100 * (0x100_0000 * gap(t, g)) <= 302 * pp);
}

/// What a share leads to.
pub(crate) proof fn lemma_lies_at(a: Float32, skin: Skin)
    requires
        caps_in_unit(skin),
        in_unit(a),
    ensures
        lies_at(predicted_output(a, skin), a, skin),
{
    let p = pow2(149) as int;
    lemma_caps_in_unit(skin);
    lemma_output_error(a, skin);
    lemma_unit_value(a);
    lemma_span_part(a.units(), skin);
    let (c, w) = (cap_span(skin).units(), skin.max_float.units() - skin.min_float.units());
    let (s, t, l, o) = (
        a.units() * c,
        a.units() * w,
        skin.min_float.units() * p,
        predicted_output(a, skin).units() * p,
    );
    assert(gap(o, l + t) <= gap(o, l + s) + gap(s, t));
    assert(100 * (0x100_0000 * gap(o, l + t)) <= 302 * (p * p));
}

/// The shares that an analysis reports for its inputs.
pub open spec fn reported_shares(shown: Seq<InputAnalysis>) -> Seq<Float32> {
    Seq::new(shown.len(), |i: int| shown[i].adjusted_float.value)
}

/// Known shares, one for each input.
pub(crate) proof fn lemma_known_shares(skins: Seq<Skin>, inputs: Seq<InputRequest>)
    ensures
        known_shares(skins, slots_of(inputs)).len() == inputs.len(),
        forall|i: int|
            0 <= i < inputs.len() ==> #[trigger] known_shares(skins, slots_of(inputs))[i]
                == adjusted(
                inputs[i].float_value,
                slot_skin(skins, slots_of(inputs)[i]),
            ),
    decreases inputs.len(),
{
    let slots = slots_of(inputs);
    if inputs.len() > 0 {
        let front = inputs.drop_last();
        lemma_known_shares(skins, front);
        assert(slots.drop_last() =~= slots_of(front));
        assert forall|i: int| 0 <= i < inputs.len() implies #[trigger] known_shares(skins, slots)[i]
            == adjusted(inputs[i].float_value, slot_skin(skins, slots[i])) by {
            if i < front.len() {
                assert(known_shares(skins, slots)[i] == known_shares(skins, slots_of(front))[i]);
                assert(slots_of(front)[i] == slots[i]);
                assert(front[i] == inputs[i]);
            }
        }
    }
}

/// The formula behind an analysis, by value: an input counts by its place between its
/// caps, the average of the ten places is the place of every outcome between its own.
#[verifier::rlimit(40)]
pub proof fn law_analysis_by_value(
    skins: Seq<Skin>,
    inputs: Seq<InputRequest>,
    stattrak: bool,
    analysis: AnalyzeResponse,
)
    requires
        distinct_ids(skins),
        skins.len() <= usize::MAX,
        forall|k: int| 0 <= k < skins.len() ==> caps_in_unit(#[trigger] skins[k]),
        contract_failure(skins, inputs.len(), slots_of(inputs), stattrak) is None,
        describes_contract(analysis, skins, inputs),
    ensures
        analysis.inputs@.len() == 10,
        forall|i: int, k: int|
            0 <= i < 10 && 0 <= k < skins.len() && (#[trigger] analysis.inputs@[i]).skin_id@ == (
            #[trigger] skins[k]).id@ ==> is_share(
                analysis.inputs@[i].adjusted_float.value,
                inputs[i].float_value,
                skins[k],
            ),
        100_000 * gap(
            10 * analysis.average_adjusted.value.units(),
            exact_sum(reported_shares(analysis.inputs@)),
        ) <= pow2(149),
        forall|i: int, k: int|
            0 <= i < analysis.outcomes@.len() && 0 <= k < skins.len() && (
            #[trigger] analysis.outcomes@[i]).skin_id@ == (#[trigger] skins[k]).id@ ==> lies_at(
                analysis.outcomes@[i].predicted_float.value,
                analysis.average_adjusted.value,
                skins[k],
            ),
{
    let slots = slots_of(inputs);
    let shares = known_shares(skins, slots);
    let average = contract_average(skins, slots);
    lemma_known_shares(skins, inputs);
    lemma_each_slot_accepted(skins, slots, stattrak);
    assert forall|i: int| 0 <= i < 10 implies {
        let skin = slot_skin(skins, #[trigger] slots[i]);
        &&& in_unit(shares[i])
        &&& is_share(shares[i], inputs[i].float_value, skin)
        &&& analysis.inputs@[i].adjusted_float.value == shares[i]
        &&& analysis.inputs@[i].skin_id@ == skin.id@
        &&& skins.contains(skin)
    } by {
        law_one_rarity(skins, 10, slots, stattrak, i, 0);
        let skin = slot_skin(skins, slots[i]);
        assert(slot_failure(skins, slots[i], stattrak) is None);
        let k = choose|k: int| 0 <= k < skins.len() && skins[k] == skin;
        assert(caps_in_unit(skins[k]));
        lemma_is_share(inputs[i].float_value, skin);
        assert(describes_input(analysis.inputs@[i], i, skin, inputs[i]));
    }
    assert forall|i: int, k: int|
        0 <= i < 10 && 0 <= k < skins.len() && (#[trigger] analysis.inputs@[i]).skin_id@ == (
        #[trigger] skins[k]).id@ implies is_share(
        analysis.inputs@[i].adjusted_float.value,
        inputs[i].float_value,
        skins[k],
    ) by {
        let skin = slot_skin(skins, slots[i]);
        lemma_one_skin(skins, skin, skins[k]);
    }
    assert forall|i: int| 0 <= i < 10 implies in_unit(#[trigger] shares[i]) by {
        assert(slots[i].skin_id == inputs[i].skin_id@);
    }
    assert(reported_shares(analysis.inputs@) =~= shares) by {
        assert forall|i: int| 0 <= i < 10 implies reported_shares(analysis.inputs@)[i]
            == shares[i] by {
            assert(slots[i].skin_id == inputs[i].skin_id@);
        }
    }
    lemma_average_error(shares);
    lemma_outcome_skins(skins, slots, stattrak);
    assert forall|i: int, k: int|
        0 <= i < analysis.outcomes@.len() && 0 <= k < skins.len() && (
        #[trigger] analysis.outcomes@[i]).skin_id@ == (#[trigger] skins[k]).id@ implies lies_at(
        analysis.outcomes@[i].predicted_float.value,
        analysis.average_adjusted.value,
        skins[k],
    ) by {
        let e = contract_outcomes(skins, slots)[i];
        assert(items_of(contract_outcomes(skins, slots))[i] == e.item);
        lemma_one_skin(skins, e.item, skins[k]);
        assert(caps_in_unit(skins[k]));
        lemma_lies_at(average, skins[k]);
    }
}

/// The number of slots whose float is known.
pub open spec fn floats_known(slots: Seq<Slot>) -> nat
    decreases slots.len(),
{
    if slots.len() == 0 {
        0
    } else {
        floats_known(slots.drop_last()) + if slots.last().float is Some {
            1nat
        } else {
            0
        }
    }
}

proof fn lemma_floats_known(skins: Seq<Skin>, slots: Seq<Slot>)
    ensures
        known_shares(skins, slots).len() == floats_known(slots),
        floats_known(slots) <= slots.len(),
    decreases slots.len(),
{
    if slots.len() > 0 {
        lemma_floats_known(skins, slots.drop_last());
    }
}

/// Odds of `count` in ten, shared by `size`, as a preview computes them.
proof fn lemma_part_of_odds(count: nat, size: nat)
    requires
        count <= 10,
        0 < size <= 1_000_000,
    ensures
        chance(part_of_odds(count, size), count, size),
{
    let p = pow2(149) as int;
    let (c, k) = (count as int, size as int);
    lemma_large_unit();
    lemma_count_exact(count);
    lemma_exact_whole(size);
    let whole = product(Float32 { bits: TEN_BITS }, of_count(size));
    assert(0 <= c * p <= 10 * p && 10 * p <= (10 * k) * p) by (nonlinear_arith)
        requires
            0 <= c <= 10,
            k >= 1,
            p >= 0,
    ;
    lemma_fraction_error(of_count(count), whole, 10 * k);
    let u = part_of_odds(count, size).units();
    lemma_unit_value(part_of_odds(count, size));
    assert((10 * k) * u == 10 * (k * u)) by (nonlinear_arith);
}

/// A preview counts its slots and the floats among them, and lists exactly the skins that
/// can come out. For each it counts the slots from its collection; the odds are those of a
/// contract whose open slots all go elsewhere, and those of one whose open slots all go to
/// its collection.
pub proof fn law_preview_lists_everything(
    skins: Seq<Skin>,
    slots: Seq<Slot>,
    stattrak: bool,
    preview: PartialAnalyzeResponse,
) -> (listed: Seq<Skin>)
    requires
        distinct_ids(skins),
        skins.len() <= 1_000_000,
        preview_failure(skins, slots, stattrak) is None,
        describes_preview(preview, skins, slots),
    ensures
        preview.selected_slots == slots.len(),
        preview.floats_specified == floats_known(slots),
        preview.remaining_float_slots + floats_known(slots) == 10,
        forall|i: int, k: int|
            0 <= i < slots.len() && 0 <= k < skins.len() && (#[trigger] slots[i]).skin_id == (
            #[trigger] skins[k]).id@ ==> preview.input_rarity == skins[k].rarity,
        outcome_skins(skins, slots, listed),
        preview.outcomes@.len() == listed.len(),
        forall|i: int|
            0 <= i < listed.len() ==> {
                let shown = #[trigger] preview.outcomes@[i];
                let count = slots_from(skins, slots, listed[i].collection_id@);
                let size = skins_in(skins, listed[i].collection_id@, listed[i].rarity);
                &&& shown.skin_id@ == listed[i].id@
                &&& shown.skin_name@ == listed[i].name@
                &&& shown.collection_name@ == listed[i].collection_name@
                &&& shown.known_inputs_from_collection == count
                &&& chance(shown.probability_min, count, size)
                &&& chance(shown.probability_max, (count + 10 - slots.len()) as nat, size)
            },
{
    lemma_outcome_skins(skins, slots, stattrak);
    lemma_floats_known(skins, slots);
    let entries = contract_outcomes(skins, slots);
    let listed = items_of(entries);
    assert forall|i: int, k: int|
        0 <= i < slots.len() && 0 <= k < skins.len() && (#[trigger] slots[i]).skin_id == (
        #[trigger] skins[k]).id@ implies preview.input_rarity == skins[k].rarity by {
        lemma_found_under(skins, k);
        law_one_rarity(skins, 10, slots, stattrak, i, 0);
    }
    assert forall|i: int| 0 <= i < listed.len() implies {
        let shown = #[trigger] preview.outcomes@[i];
        let count = slots_from(skins, slots, listed[i].collection_id@);
        let size = skins_in(skins, listed[i].collection_id@, listed[i].rarity);
        &&& shown.skin_id@ == listed[i].id@
        &&& shown.skin_name@ == listed[i].name@
        &&& shown.collection_name@ == listed[i].collection_name@
        &&& shown.known_inputs_from_collection == count
        &&& chance(shown.probability_min, count, size)
        &&& chance(shown.probability_max, (count + 10 - slots.len()) as nat, size)
    } by {
        let e = entries[i];
        assert(listed[i] == e.item);
        let size = skins_in(skins, e.item.collection_id@, e.item.rarity);
        lemma_part_of_odds(e.count, size);
        lemma_part_of_odds((e.count + 10 - slots.len()) as nat, size);
        assert(describes_partial_outcome(
            preview.outcomes@[i],
            skins,
            e,
            yielded_rarity(skins, slots),
            slots.len(),
            known_shares(skins, slots),
        ));
    }
    listed
}

/// The averages behind the bounds of a preview, by value.
proof fn lemma_bound_averages(known: Seq<Float32>)
    requires
        known.len() <= 10,
        forall|i: int| 0 <= i < known.len() ==> in_unit(#[trigger] known[i]),
    ensures
        in_unit(least_average(known)),
        in_unit(greatest_average(known)),
        0x100_0000 * gap(10 * least_average(known).units(), exact_sum(known)) <= 122 * pow2(149),
        0x100_0000 * gap(
            10 * greatest_average(known).units(),
            exact_sum(known) + (10 - known.len()) * pow2(149),
        ) <= 122 * pow2(149),
{
    let open = (10 - known.len()) as nat;
    let (low, rest, p) = (running_sum(known), of_count(open), pow2(149) as int);
    lemma_ten();
    lemma_running_error(known);
    lemma_count_exact(open);
    lemma_representable(10, 149);
    let (n, c) = (known.len() as int, one_rounding());
    assert(n * p + open * p == 10 * p && n * p >= 0 && open * p >= 0 && n * c <= 10 * c)
        by (nonlinear_arith)
        requires
            n + open == 10,
            0 <= n <= 10,
            p >= 0,
            c >= 0,
    ;
    lemma_sum_bounded(low, rest, (10 * p) as nat);
    let full = sum(low, rest);
    lemma_sum_error(low, rest);
    lemma_count_exact(10);
    lemma_fraction_error(low, of_count(10), 10);
    lemma_fraction_error(full, of_count(10), 10);
    lemma_large_unit();
}

/// Filling the open floats with one share adds that share for each.
proof fn lemma_filled_sum(skins: Seq<Skin>, slots: Seq<Slot>, full: Seq<Slot>, e: int)
    requires
        slots.len() <= full.len(),
        forall|i: int| 0 <= i < full.len() ==> (#[trigger] full[i]).float is Some,
        forall|i: int|
            0 <= i < full.len() ==> {
                let share = adjusted(
                    (#[trigger] full[i]).float->0,
                    slot_skin(skins, full[i]),
                );
                if i < slots.len() && slots[i].float is Some {
                    slots[i].float == full[i].float && slots[i].skin_id == full[i].skin_id
                } else {
                    share.units() == e
                }
            },
    ensures
        known_shares(skins, full).len() == full.len(),
        exact_sum(known_shares(skins, full)) == exact_sum(known_shares(skins, slots)) + (full.len()
            - known_shares(skins, slots).len()) * e,
    decreases full.len(),
{
    if full.len() > 0 {
        let n = full.len() - 1;
        let front = full.drop_last();
        let before = if slots.len() == full.len() {
            slots.drop_last()
        } else {
            slots
        };
        assert forall|i: int| 0 <= i < front.len() implies {
            let share = adjusted((#[trigger] front[i]).float->0, slot_skin(skins, front[i]));
            if i < before.len() && before[i].float is Some {
                before[i].float == front[i].float && before[i].skin_id == front[i].skin_id
            } else {
                share.units() == e
            }
        } by {
            assert(front[i] == full[i]);
            if i < before.len() {
                assert(before[i] == slots[i]);
            }
        }
        assert forall|i: int| 0 <= i < front.len() implies (#[trigger] front[i]).float is Some by {
            assert(front[i] == full[i]);
        }
        lemma_filled_sum(skins, before, front, e);
        assert(full[n] == full.last());
        let share = adjusted(full.last().float->0, slot_skin(skins, full.last()));
        let all = known_shares(skins, front);
        assert(all.push(share).drop_last() =~= all);
        let k = known_shares(skins, before);
        lemma_floats_known(skins, before);
        let m = n - k.len();
        assert((m + 1) * e == m * e + e) by (nonlinear_arith);
        assert(known_shares(skins, full) == all.push(share));
        assert(exact_sum(known_shares(skins, full)) == exact_sum(all) + share.units());
        if slots.len() == full.len() && slots.last().float is Some {
            assert(slots[n] == slots.last());
            assert(slot_skin(skins, slots.last()) == slot_skin(skins, full.last()));
            assert(k.push(share).drop_last() =~= k);
            assert(known_shares(skins, slots) == k.push(share));
            assert(full.len() - known_shares(skins, slots).len() == m);
        } else {
            if slots.len() == full.len() {
                assert(slots[n] == slots.last());
            }
            assert(known_shares(skins, slots) == k);
            assert(share.units() == e);
            assert(full.len() - known_shares(skins, slots).len() == m + 1);
        }
    } else {
        assert(slots =~= full);
        assert(0 * e == 0);
    }
}

/// Close averages lead to close outputs.
proof fn lemma_close_outputs(a: Float32, b: Float32, skin: Skin)
    requires
        caps_in_unit(skin),
        in_unit(a),
        in_unit(b),
        0x100_0000 * gap(10 * a.units(), 10 * b.units()) <= 240 * pow2(149),
    ensures
        100_000 * gap(predicted_output(a, skin).units(), predicted_output(b, skin).units())
            <= pow2(149),
{
    let p = pow2(149) as int;
    lemma_large_unit();
    lemma_unit_value(a);
    lemma_unit_value(b);
    lemma_lies_at(a, skin);
    lemma_lies_at(b, skin);
    let w = skin.max_float.units() - skin.min_float.units();
    let (x, y) = (predicted_output(a, skin).units(), predicted_output(b, skin).units());
    let (u, v, pp) = (a.units(), b.units(), p * p);
    lemma_gap_scaled(u, v, w);
    lemma_gap_scaled(x, y, p);
    let (g, h) = (gap(u, v) as int, gap(x, y) as int);
    assert(0x100_0000 * (g * w) <= 24 * pp) by (nonlinear_arith)
        requires
            0x100_0000 * g <= 24 * p,
            0 <= w <= p,
            g >= 0,
            pp == p * p,
    ;
    assert(1_000_000 * (h * p) <= 2 * pp + 1_000_000 * (g * w));
    assert(100_000 * h <= p) by (nonlinear_arith)
        requires
            1_000_000 * (h * p) <= 2 * pp + 1_000_000 * (g * w),
            0x100_0000 * (g * w) <= 24 * pp,
            pp == p * p,
            p > 0,
            h >= 0,
    ;
}

/// A float that has the value of a cap has the share of that cap.
proof fn lemma_share_at_cap(x: Float32, skin: Skin)
    requires
        caps_in_unit(skin),
        x.finite(),
    ensures
        x.units() == skin.min_float.units() ==> adjusted(x, skin).units() == 0,
        x.units() == skin.max_float.units() ==> adjusted(x, skin).units() == pow2(149),
{
    let (low, span) = (skin.min_float, cap_span(skin));
    let part = difference(x, low);
    lemma_caps_in_unit(skin);
    lemma_zero_units(0);
    lemma_one();
    assert(opposite(low).units() == -low.units());
    law_sum_is_nearest(x, opposite(low));
    law_sum_is_nearest(skin.max_float, opposite(low));
    let s = (skin.max_float.units() - low.units()) as nat;
    law_nearest_positive(s);
    lemma_rank_value(span);
    lemma_zero_units(span.magnitude());
    if x.units() == low.units() {
        assert(part.rank() == 0);
        assert(part.finite());
        law_quotient_is_nearest(part, span);
        lemma_rank_value(part);
        lemma_zero_quotient(magnitude_units(span.magnitude()));
        lemma_rank_value(quotient(part, span));
    }
    if x.units() == skin.max_float.units() {
        assert(part.rank() == span.rank());
        assert(part.finite());
        law_quotient_is_nearest(part, span);
        lemma_rank_value(part);
        let (c, p) = (magnitude_units(span.magnitude()), pow2(149));
        assert((c * p) * 1 == p * c) by (nonlinear_arith);
        law_nearest_monotone(c * p, c, p, 1);
        law_nearest_monotone(p, 1, c * p, c);
        lemma_rank_value(quotient(part, span));
    }
}

/// Nothing, divided, is nothing.
proof fn lemma_zero_quotient(c: nat)
    requires
        c > 0,
    ensures
        nearest(0 * pow2(149), c) == 0,
{
    lemma_one();
    law_nearest_monotone(0, c, 0, 1);
}

/// The inputs have the floats of the slots where those are known, and elsewhere the lower
/// cap of their skins, or the upper one.
pub open spec fn filled_with_cap(
    skins: Seq<Skin>,
    slots: Seq<Slot>,
    inputs: Seq<InputRequest>,
    upper: bool,
) -> bool {
    forall|i: int, k: int|
        0 <= i < inputs.len() && 0 <= k < skins.len() && (#[trigger] inputs[i]).skin_id@ == (
        #[trigger] skins[k]).id@ && (i >= slots.len() || slots[i].float is None)
            ==> inputs[i].float_value.units() == if upper {
            skins[k].max_float.units()
        } else {
            skins[k].min_float.units()
        }
}

/// `shown` is listed among the outcomes with this float, within 0.00001.
pub open spec fn reached_by(id: Seq<char>, x: Float32, outcomes: Seq<OutcomeAnalysis>) -> bool {
    exists|j: int|
        0 <= j < outcomes.len() && (#[trigger] outcomes[j]).skin_id@ == id && 100_000 * gap(
            x.units(),
            outcomes[j].predicted_float.value.units(),
        ) <= pow2(149)
}

/// The bounds that a preview announces for floats are reached: the lower one by the
/// contract whose open floats are the lower caps, the upper one by that with the upper
/// caps, within 0.00001.
#[verifier::rlimit(40)]
pub proof fn law_preview_bounds_are_reached(
    skins: Seq<Skin>,
    slots: Seq<Slot>,
    stattrak: bool,
    inputs: Seq<InputRequest>,
    preview: PartialAnalyzeResponse,
    analysis: AnalyzeResponse,
    upper: bool,
)
    requires
        distinct_ids(skins),
        skins.len() <= usize::MAX,
        forall|k: int| 0 <= k < skins.len() ==> caps_in_unit(#[trigger] skins[k]),
        0 < slots.len(),
        describes_preview(preview, skins, slots),
        grows_into(slots, slots_of(inputs)),
        filled_with_cap(skins, slots, inputs, upper),
        contract_failure(skins, 10, slots_of(inputs), stattrak) is None,
        describes_contract(analysis, skins, inputs),
    ensures
        forall|i: int|
            0 <= i < preview.outcomes@.len() ==> {
                let shown = #[trigger] preview.outcomes@[i];
                reached_by(
                    shown.skin_id@,
                    if upper {
                        shown.predicted_float_max.value
                    } else {
                        shown.predicted_float_min.value
                    },
                    analysis.outcomes@,
                )
            },
{
    let full = slots_of(inputs);
    let (known, all) = (known_shares(skins, slots), known_shares(skins, full));
    let e = if upper {
        pow2(149) as int
    } else {
        0
    };
    lemma_each_slot_accepted(skins, full, stattrak);
    assert forall|i: int| 0 <= i < full.len() implies {
        let skin = slot_skin(skins, #[trigger] full[i]);
        let share = adjusted(full[i].float->0, skin);
        &&& in_unit(share)
        &&& if i < slots.len() && slots[i].float is Some {
            slots[i].float == full[i].float && slots[i].skin_id == full[i].skin_id
        } else {
            share.units() == e
        }
    } by {
        law_one_rarity(skins, 10, full, stattrak, i, 0);
        let skin = slot_skin(skins, full[i]);
        assert(slot_failure(skins, full[i], stattrak) is None);
        let k = choose|k: int| 0 <= k < skins.len() && skins[k] == skin;
        assert(caps_in_unit(skins[k]));
        assert(inputs[i].skin_id@ == skins[k].id@);
        lemma_is_share(inputs[i].float_value, skin);
        lemma_share_at_cap(inputs[i].float_value, skin);
        if i < slots.len() {
            assert(slots[i].skin_id == full[i].skin_id);
        }
    }
    lemma_filled_sum(skins, slots, full, e);
    lemma_known_shares(skins, inputs);
    assert forall|i: int| 0 <= i < all.len() implies in_unit(#[trigger] all[i]) by {
        assert(full[i].float == Some(inputs[i].float_value));
    }
    lemma_known_in_unit(skins, slots, full);
    lemma_floats_known(skins, slots);
    lemma_bound_averages(known);
    lemma_average_error(all);
    let m = 10 - known.len();
    assert(m * 0 == 0);
    assert forall|i: int| 0 <= i < preview.outcomes@.len() implies {
        let shown = #[trigger] preview.outcomes@[i];
        reached_by(
            shown.skin_id@,
            if upper {
                shown.predicted_float_max.value
            } else {
                shown.predicted_float_min.value
            },
            analysis.outcomes@,
        )
    } by {
        let j = lemma_outcome_stays(skins, slots, full, i);
        let skin = contract_outcomes(skins, slots)[i].item;
        let k = choose|k: int| 0 <= k < skins.len() && skins[k] == skin;
        assert(caps_in_unit(skins[k]));
        let bound = if upper {
            greatest_average(known)
        } else {
            least_average(known)
        };
        lemma_close_outputs(bound, average(all, 10), skin);
        assert(describes_partial_outcome(
            preview.outcomes@[i],
            skins,
            contract_outcomes(skins, slots)[i],
            yielded_rarity(skins, slots),
            slots.len(),
            known,
        ));
        assert(analysis.outcomes@[j].skin_id@ == skin.id@);
    }
}

/// Known shares of slots that grow into accepted ones.
proof fn lemma_known_in_unit(skins: Seq<Skin>, slots: Seq<Slot>, full: Seq<Slot>)
    requires
        slots.len() <= full.len(),
        forall|i: int|
            0 <= i < slots.len() && (#[trigger] slots[i]).float is Some ==> in_unit(
                adjusted(slots[i].float->0, slot_skin(skins, slots[i])),
            ),
    ensures
        forall|i: int|
            0 <= i < known_shares(skins, slots).len() ==> in_unit(
                #[trigger] known_shares(skins, slots)[i],
            ),
    decreases slots.len(),
{
    if slots.len() > 0 {
        let front = slots.drop_last();
        assert forall|i: int|
            0 <= i < front.len() && (#[trigger] front[i]).float is Some implies in_unit(
            adjusted(front[i].float->0, slot_skin(skins, front[i])),
        ) by {
            assert(front[i] == slots[i]);
        }
        lemma_known_in_unit(skins, front, full);
        assert(slots[slots.len() - 1] == slots.last());
        let (before, known) = (known_shares(skins, front), known_shares(skins, slots));
        assert forall|i: int| 0 <= i < known.len() implies in_unit(#[trigger] known[i]) by {
            if i < before.len() {
                assert(known[i] == before[i]);
            }
        }
    }
}

/// Every outcome of an analysis shows the exterior of its float, and its odds as a
/// percentage with two places.
pub proof fn law_outcomes_are_shown(
    skins: Seq<Skin>,
    inputs: Seq<InputRequest>,
    analysis: AnalyzeResponse,
    i: int,
)
    requires
        describes_contract(analysis, skins, inputs),
        0 <= i < analysis.outcomes@.len(),
        !analysis.outcomes@[i].predicted_float.value.nan(),
    ensures
        ({
            let shown = analysis.outcomes@[i];
            let place = shown.predicted_float.value.rank();
            &&& describes_wear(shown.wear, shown.predicted_float.value)
            &&& shown.wear.name@ == "Factory New"@ <==> place < decimal_place(7, 100)
            &&& shown.wear.name@ == "Battle-Scarred"@ <==> decimal_place(45, 100) <= place
            &&& shown.probability_percent@ == percent(shown.probability)
            &&& shows_number(shown.predicted_float, shown.predicted_float.value)
        }),
{
    let slots = slots_of(inputs);
    assert(describes_outcome(
        analysis.outcomes@[i],
        skins,
        contract_outcomes(skins, slots)[i],
        yielded_rarity(skins, slots),
        slots.len(),
        contract_average(skins, slots),
    ));
    law_exterior_names(analysis.outcomes@[i].wear, analysis.outcomes@[i].predicted_float.value);
}

} // verus!
