//! What the services answer, from the request to the response.
use crate::acceptance::{
    law_which_contracts_are_analyzed, law_which_slots_are_previewed, leads_on,
    lemma_float_accepted, lemma_found_under, makes_contract, ordered_caps, orderly, slot_suited,
    slot_suits, trades_up,
};
use crate::accuracy::{in_unit, law_order_is_numeric, law_sum_is_nearest, rank_of_units};
use crate::api::error_status;
use crate::beam::prices_fit;
use crate::catalog::{find_skin, gathered, input_pool, lemma_found, Catalog};
use crate::contract::{
    analyze_contract, contract_failure, contract_outcomes, partial_slots, preview_partial_contract,
    slot_failure, slot_of, slots_failure, slots_of, AnalyzeRequest, AnalyzeResponse, PartialAnalyzeRequest,
    PartialAnalyzeResponse, Slot,
};
use crate::domain::{
    adjusted_float, output_float, sum_in_order, wear_info, Failure, FixtureListing, PlannerError, Skin, WearInfo,
};
use crate::float32::Float32;
use crate::goals::{
    law_goal_taken_on, law_which_inputs_are_taken, leads_to, lemma_center_accepted,
};
use crate::market::{eligible_wears, str_texts};
use crate::offers::{can_fill, is_offered, law_which_listings_are_offered};
use crate::planner::{
    best_plan, candidate_pool, chosen_slots, goal_failure, goal_skin, inputs_failure,
    law_plan_exists, law_plan_selects, lemma_candidate_known, offer_limit, open_slots,
    outcome_place, plan_reverse, planned_slots, skin_ids, PlanRequest, PlanResponse,
};
use crate::records::{can_have_come_out, lemma_output_possible, lemma_place_is_there};
use crate::regression::{prepare_regression_record, ActualContractSubmission, RegressionRecord};
use crate::searching::law_every_float_is_searched;
use crate::sorting::stable_sorted;
use crate::yields::{
    can_come_out, caps_in_unit, is_share, items_of, lemma_is_share, lemma_lies_at,
    lemma_outcome_skins, lies_at,
};
use vstd::arithmetic::power2::pow2;
use vstd::prelude::*;

verus! {

/// A request to analyse a contract is answered exactly where its ten inputs make one.
pub proof fn law_analysis_is_answered(
    catalog: Catalog,
    request: AnalyzeRequest,
    r: Result<AnalyzeResponse, PlannerError>,
)
    requires
        orderly(catalog.skins()),
        call_ensures(analyze_contract, (&catalog, request), r),
    ensures
        r is Ok <==> request.contract_size == 10 && request.inputs@.len() == 10 && makes_contract(
            catalog.skins(),
            slots_of(request.inputs@),
            request.stattrak,
        ),
{
    law_which_contracts_are_analyzed(
        catalog.skins(),
        request.contract_size as nat,
        slots_of(request.inputs@),
        request.stattrak,
    );
}

/// A request for a preview is answered exactly where one to ten inputs make the beginning
/// of a contract.
pub proof fn law_preview_is_answered(
    catalog: Catalog,
    request: PartialAnalyzeRequest,
    r: Result<PartialAnalyzeResponse, PlannerError>,
)
    requires
        orderly(catalog.skins()),
        call_ensures(preview_partial_contract, (&catalog, request), r),
    ensures
        r is Ok <==> 1 <= request.inputs@.len() <= 10 && makes_contract(
            catalog.skins(),
            partial_slots(request.inputs@),
            request.stattrak,
        ),
{
    law_which_slots_are_previewed(
        catalog.skins(),
        partial_slots(request.inputs@),
        request.stattrak,
    );
}

/// A slot that can be filled on the way to the target.
pub open spec fn on_the_way(skins: Seq<Skin>, slot: Slot, target: Skin, stattrak: bool) -> bool {
    exists|k: int|
        0 <= k < skins.len() && slot_suits(slot, #[trigger] skins[k], stattrak)
            && skins[k].collection_id@ == target.collection_id@ && trades_up(
            skins[k].rarity,
            target.rarity,
        )
}

/// Ten slots on the way to a covert target make a contract that the target can come out of.
proof fn lemma_way_makes_contract(
    skins: Seq<Skin>,
    slots: Seq<Slot>,
    target: Skin,
    h: int,
    stattrak: bool,
)
    requires
        orderly(skins),
        0 <= h < skins.len(),
        skins[h] == target,
        target.rarity is Covert,
        slots.len() == 10,
        forall|i: int|
            0 <= i < slots.len() ==> on_the_way(skins, #[trigger] slots[i], target, stattrak),
    ensures
        makes_contract(skins, slots, stattrak),
        can_have_come_out(skins, slots, target.id@),
{
    assert forall|i: int| 0 <= i < slots.len() implies slot_suited(
        skins,
        #[trigger] slots[i],
        stattrak,
    ) by {
        assert(on_the_way(skins, slots[i], target, stattrak));
    }
    assert forall|i: int, k: int|
        0 <= i < slots.len() && 0 <= k < skins.len() && (#[trigger] slots[i]).skin_id == (
        #[trigger] skins[k]).id@ implies skins[k].collection_id@ == target.collection_id@
        && skins[k].rarity is Classified by {
        assert(on_the_way(skins, slots[i], target, stattrak));
        let l = choose|l: int|
            0 <= l < skins.len() && slot_suits(slots[i], #[trigger] skins[l], stattrak)
                && skins[l].collection_id@ == target.collection_id@ && trades_up(
                skins[l].rarity,
                target.rarity,
            );
        lemma_found_under(skins, k);
        lemma_found_under(skins, l);
    }
    assert forall|i: int, k: int|
        0 <= i < slots.len() && 0 <= k < skins.len() && (#[trigger] slots[i]).skin_id == (
        #[trigger] skins[k]).id@ implies leads_on(skins, skins[k]) by {
        assert(skins[h].collection_id@ == skins[k].collection_id@);
    }
    assert(on_the_way(skins, slots[0], target, stattrak));
    let l = choose|l: int|
        0 <= l < skins.len() && slot_suits(slots[0], #[trigger] skins[l], stattrak)
            && skins[l].collection_id@ == target.collection_id@ && trades_up(
            skins[l].rarity,
            target.rarity,
        );
    assert(slots[0].skin_id == skins[l].id@);
    assert(can_come_out(skins, slots, skins[h]));
}

/// The slots of a plan are on the way to its target.
proof fn lemma_planned_on_the_way(
    skins: Seq<Skin>,
    listings: Seq<FixtureListing>,
    request: PlanRequest,
    places: Seq<int>,
    i: int,
)
    requires
        orderly(skins),
        goal_failure(skins, request) is None,
        inputs_failure(skins, request) is None,
        places.len() == open_slots(request),
        forall|j: int|
            0 <= j < places.len() ==> 0 <= #[trigger] places[j] < candidate_pool(
                skins,
                listings,
                request,
            ).len(),
        0 <= i < 10,
    ensures
        on_the_way(
            skins,
            planned_slots(
                request.owned_inputs@,
                candidate_pool(skins, listings, request),
                places,
            )[i],
            goal_skin(skins, request),
            request.stattrak,
        ),
{
    let pool = candidate_pool(skins, listings, request);
    let target = goal_skin(skins, request);
    let owned = request.owned_inputs@;
    let slots = planned_slots(owned, pool, places);
    law_which_inputs_are_taken(skins, request);
    if i < owned.len() {
        assert(leads_to(skins, owned[i], target, request.stattrak));
        assert(slots[i] == slot_of(owned[i]));
    } else {
        let place = places[i - owned.len()];
        let x = *pool[place].listing;
        assert(is_offered(pool, x));
        law_which_listings_are_offered(skins, listings, request, x, x);
        lemma_candidate_known(
            skins,
            stable_sorted(
                gathered(
                    listings,
                    skin_ids(input_pool(skins, target)),
                    offer_limit(request.listing_limit),
                ),
            ),
            request.stattrak,
            place,
        );
        let k = choose|k: int|
            0 <= k < skins.len() && can_fill(x, #[trigger] skins[k], target, request.stattrak);
        assert(slots[i] == chosen_slots(pool, places)[i - owned.len()]);
        assert(slot_suits(slots[i], skins[k], request.stattrak));
    }
}

/// A plan is owed wherever the goal and the inputs are taken on, enough listings are there
/// for the open slots, and their prices add up within what the machine can hold.
#[verifier::rlimit(40)]
pub proof fn law_plan_is_owed(catalog: Catalog, request: PlanRequest, r: Result<
    PlanResponse,
    PlannerError,
>)
    requires
        orderly(catalog.skins()),
        catalog.skins().len() <= usize::MAX,
        goal_failure(catalog.skins(), request) is None,
        inputs_failure(catalog.skins(), request) is None,
        candidate_pool(catalog.skins(), catalog.listings(), request).len() + request.owned_inputs@.len()
            >= 10,
        prices_fit(
            candidate_pool(catalog.skins(), catalog.listings(), request),
            (10 - request.owned_inputs@.len()) as nat,
        ),
        call_ensures(plan_reverse, (&catalog, request), r),
    ensures
        r is Ok,
{
    let (skins, listings) = (catalog.skins(), catalog.listings());
    let pool = candidate_pool(skins, listings, request);
    let target = goal_skin(skins, request);
    law_plan_exists(skins, listings, request);
    law_plan_selects(skins, listings, request);
    let plan = best_plan(skins, listings, request)->0;
    let slots = planned_slots(request.owned_inputs@, pool, plan.places);
    let h = law_goal_taken_on(skins, request);
    assert forall|i: int| 0 <= i < slots.len() implies on_the_way(
        skins,
        #[trigger] slots[i],
        target,
        request.stattrak,
    ) by {
        lemma_planned_on_the_way(skins, listings, request, plan.places, i);
    }
    lemma_way_makes_contract(skins, slots, target, h, request.stattrak);
    lemma_target_comes_out(skins, slots, request.stattrak, target.id@);
}

/// What can come out has a place among the outcomes.
proof fn lemma_target_comes_out(skins: Seq<Skin>, slots: Seq<Slot>, stattrak: bool, id: Seq<char>)
    requires
        orderly(skins),
        skins.len() <= usize::MAX,
        slots.len() == 10,
        makes_contract(skins, slots, stattrak),
        can_have_come_out(skins, slots, id),
    ensures
        contract_failure(skins, 10, slots, stattrak) is None,
        outcome_place(contract_outcomes(skins, slots), id) is Some,
{
    let entries = contract_outcomes(skins, slots);
    assert(contract_failure(skins, 10, slots, stattrak) is None) by {
        law_which_contracts_are_analyzed(skins, 10, slots, stattrak);
    }
    assert(outcome_place(entries, id) is Some) by {
        lemma_outcome_skins(skins, slots, stattrak);
        lemma_output_possible(skins, slots, items_of(entries), id);
        lemma_place_is_there(entries, id);
    }
}

/// The share of a float is given exactly where the float lies within the caps, and is its
/// place between them.
pub proof fn law_share_of_a_float(raw: Float32, skin: Skin, r: Result<Float32, PlannerError>)
    requires
        ordered_caps(skin),
        call_ensures(adjusted_float, (raw, &skin), r),
    ensures
        r is Ok <==> raw.finite() && skin.min_float.units() <= raw.units()
            <= skin.max_float.units(),
        r is Ok && caps_in_unit(skin) ==> is_share(r->Ok_0, raw, skin),
{
    lemma_float_accepted(raw, skin);
    if r is Ok && caps_in_unit(skin) {
        lemma_is_share(raw, skin);
    }
}

/// A share leads to the float at its place between the caps.
pub proof fn law_float_of_a_share(share: Float32, skin: Skin, r: Float32)
    requires
        caps_in_unit(skin),
        in_unit(share),
        call_ensures(output_float, (share, &skin), r),
    ensures
        lies_at(r, share, skin),
{
    lemma_lies_at(share, skin);
}

/// Numbers are added up one after the other: one more is added to what the others give.
pub proof fn law_sum_goes_in_order(
    values: &[Float32],
    more: &[Float32],
    x: Float32,
    r: Float32,
    s: Float32,
)
    requires
        more@ == values@.push(x),
        call_ensures(sum_in_order, (values,), r),
        call_ensures(sum_in_order, (more,), s),
    ensures
        r.finite() && x.finite() ==> s.rank() == rank_of_units(r.units() + x.units()),
        values@.len() == 0 ==> r.bits == 0,
{
    assert(more@.drop_last() =~= values@);
    if r.finite() && x.finite() {
        law_sum_is_nearest(r, x);
    }
}

/// The exterior of every float that an item of a skin can have inside its caps is among
/// the exteriors that the skin comes in.
pub proof fn law_exteriors_cover_floats(
    skin: Skin,
    x: Float32,
    info: WearInfo,
    wears: Vec<&'static str>,
)
    requires
        ordered_caps(skin),
        x.finite(),
        0 <= x.units() <= pow2(149),
        skin.min_float.units() < x.units() < skin.max_float.units(),
        call_ensures(wear_info, (x,), info),
        call_ensures(eligible_wears, (&skin,), wears),
    ensures
        str_texts(wears@).contains(info.name@),
{
    law_every_float_is_searched(skin, x, info);
}

/// In a catalog that is in order a slot is only refused for what the request says.
proof fn lemma_slot_refusal(skins: Seq<Skin>, slot: Slot, stattrak: bool)
    requires
        orderly(skins),
    ensures
        slot_failure(skins, slot, stattrak) matches Some(failure) ==> failure is Validation,
{
    lemma_found(skins, slot.skin_id);
    if let Some(skin) = find_skin(skins, slot.skin_id) {
        let k = choose|k: int| 0 <= k < skins.len() && skins[k] == skin;
        assert(ordered_caps(skins[k]));
        if let Some(x) = slot.float {
            lemma_float_accepted(x, skin);
            if x.finite() {
                law_order_is_numeric(x, skin.min_float);
                law_order_is_numeric(skin.max_float, x);
            }
        }
    }
}

proof fn lemma_slots_refusal(skins: Seq<Skin>, slots: Seq<Slot>, stattrak: bool)
    requires
        orderly(skins),
    ensures
        slots_failure(skins, slots, stattrak) matches Some(failure) ==> failure is Validation,
    decreases slots.len(),
{
    if slots.len() > 0 {
        lemma_slots_refusal(skins, slots.drop_last(), stattrak);
        lemma_slot_refusal(skins, slots.last(), stattrak);
    }
}

/// In a catalog that is in order a contract is only refused for what the request says, and
/// the answer is 422; so is that to a preview.
pub proof fn law_refused_contracts_are_422(
    catalog: Catalog,
    request: AnalyzeRequest,
    r: Result<AnalyzeResponse, PlannerError>,
    partial: PartialAnalyzeRequest,
    p: Result<PartialAnalyzeResponse, PlannerError>,
    code: u16,
    other: u16,
)
    requires
        orderly(catalog.skins()),
        call_ensures(analyze_contract, (&catalog, request), r),
        r is Err,
        call_ensures(error_status, (&r->Err_0,), code),
        call_ensures(preview_partial_contract, (&catalog, partial), p),
        p is Err,
        call_ensures(error_status, (&p->Err_0,), other),
    ensures
        code == 422,
        other == 422,
{
    lemma_slots_refusal(catalog.skins(), slots_of(request.inputs@), request.stattrak);
    lemma_slots_refusal(catalog.skins(), partial_slots(partial.inputs@), partial.stattrak);
}

/// In a catalog that is in order a submission is only refused for what it says.
pub proof fn law_refused_submissions_are_422(
    catalog: Catalog,
    submission: ActualContractSubmission,
    now: u64,
    r: Result<RegressionRecord, PlannerError>,
    code: u16,
)
    requires
        orderly(catalog.skins()),
        call_ensures(prepare_regression_record, (&catalog, submission, now), r),
        r is Err,
        call_ensures(error_status, (&r->Err_0,), code),
    ensures
        code == 422,
{
    lemma_slots_refusal(catalog.skins(), slots_of(submission.inputs@), false);
}

/// In a catalog that is in order a goal and its inputs are only refused for what the request
/// says.
pub proof fn law_refused_goals_are_validation(skins: Seq<Skin>, request: PlanRequest)
    requires
        orderly(skins),
    ensures
        goal_failure(skins, request) matches Some(failure) ==> failure is Validation,
        goal_failure(skins, request) is None ==> (inputs_failure(skins, request) matches Some(
            failure,
        ) ==> failure is Validation),
{
    if goal_failure(skins, request) is None {
        let h = law_goal_taken_on(skins, request);
        assert(ordered_caps(skins[h]));
        lemma_center_accepted(skins, request);
        lemma_slots_refusal(skins, slots_of(request.owned_inputs@), request.stattrak);
    }
}

/// A skin that the catalog does not have is named in the refusal.
pub proof fn law_unknown_skin_is_named(skins: Seq<Skin>, slot: Slot, stattrak: bool)
    requires
        forall|k: int| 0 <= k < skins.len() ==> (#[trigger] skins[k]).id@ != slot.skin_id,
    ensures
        slot_failure(skins, slot, stattrak) matches Some(Failure::Validation(text))
            && text.len() >= slot.skin_id.len() && text.subrange(
            text.len() - slot.skin_id.len(),
            text.len() as int,
        ) == slot.skin_id,
{
    lemma_found(skins, slot.skin_id);
    let text = "unknown skin_id: "@ + slot.skin_id;
    assert(text.subrange(text.len() - slot.skin_id.len(), text.len() as int) =~= slot.skin_id);
}

/// Where there are listings, but fewer than open slots, nothing is planned.
pub proof fn law_too_few_listings(catalog: Catalog, request: PlanRequest, r: Result<
    PlanResponse,
    PlannerError,
>)
    requires
        call_ensures(plan_reverse, (&catalog, request), r),
        candidate_pool(catalog.skins(), catalog.listings(), request).len() > 0,
        candidate_pool(catalog.skins(), catalog.listings(), request).len()
            + request.owned_inputs@.len() < 10,
    ensures
        r is Err,
{
}

} // verus!
