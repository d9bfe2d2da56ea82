//! What the rows of a plan are, and what they lead to.
use crate::acceptance::{lemma_found_under, trades_up};
use crate::accuracy::{gap, in_unit};
use crate::catalog::{belongs, distinct_ids, gathered, input_pool, lemma_found, pool, texts};
use crate::choices::{cost, cost_of, lemma_proposed};
use crate::contract::{
    contract_average, contract_failure, contract_outcomes, describes_contract, describes_outcome,
    slot_of, slot_skin, slots_of, AnalyzeResponse, InputRequest,
    OutcomeAnalysis, Slot,
};
use crate::domain::{predicted_output, FixtureListing, Rarity, Skin};
use crate::float32::Float32;
use crate::ideal::{lemma_compatible_in_pool, lemma_place_has_id};
use crate::odds::{law_outcomes_of_contract, lemma_one_skin, lemma_pool_skin};
use crate::planner::{
    answers_plan, best_plan, candidate_pool, describes_choice, describes_goal,
    first_compatible, from_market, goal_aim, goal_skin, ideal_skin, ideal_slots, is_ideal,
    law_plan_agrees_with_analysis, law_plan_selects, lemma_candidate_known, lemma_slot_accepted,
    offer_limit, plan_failure, plan_status, planned_slots, skin_ids,
    PlanRequest, PlanResponse, PlannedListing, TargetConstraint,
};
use crate::rounding::nearest;
use crate::search::Candidate;
use crate::sorting::stable_sorted;
use crate::text::decimal;
use crate::wear::lemma_distance;
use crate::yields::{caps_in_unit, is_share, lemma_is_share, lemma_lies_at, lemma_pool_size, lies_at, skins_in};
use vstd::prelude::*;

verus! {

/// What rows cost; a row without a price costs nothing.
pub open spec fn rows_price(rows: Seq<PlannedListing>) -> nat
    decreases rows.len(),
{
    if rows.len() == 0 {
        0
    } else {
        rows_price(rows.drop_last()) + match rows.last().price_cents {
            Some(price) => price as nat,
            None => 0,
        }
    }
}

/// The slots that rows stand for.
pub open spec fn row_slots(rows: Seq<PlannedListing>) -> Seq<Slot> {
    Seq::new(
        rows.len(),
        |i: int| Slot { skin_id: rows[i].skin_id@, float: Some(rows[i].float_value.value) },
    )
}

/// A request that was planned, and fits the machine.
pub open spec fn was_planned(
    r: PlanResponse,
    skins: Seq<Skin>,
    listings: Seq<FixtureListing>,
    request: PlanRequest,
) -> bool {
    &&& plan_failure(skins, listings, request) is None
    &&& answers_plan(r, skins, listings, request)
    &&& !is_ideal(skins, listings, request) ==> cost_of(
        skins,
        listings,
        request,
        best_plan(skins, listings, request)->0.places,
    ) <= u64::MAX
}

/// Rows with the prices of a choice cost what the choice does.
proof fn lemma_rows_price(
    rows: Seq<PlannedListing>,
    pool: Seq<Candidate<'_>>,
    places: Seq<int>,
    owned: nat,
)
    requires
        rows.len() == owned + places.len(),
        forall|i: int| 0 <= i < owned ==> (#[trigger] rows[i]).price_cents is None,
        forall|i: int|
            0 <= i < places.len() ==> (#[trigger] rows[owned + i]).price_cents == Some(
                pool[places[i]].listing.price_cents,
            ),
    ensures
        rows_price(rows) == cost(pool, places),
    decreases rows.len(),
{
    if rows.len() > 0 {
        let n = rows.len() - 1;
        let front = rows.drop_last();
        assert(rows[n] == rows.last());
        if places.len() > 0 {
            let shorter = places.drop_last();
            assert forall|i: int| 0 <= i < owned implies (
            #[trigger] front[i]).price_cents is None by {
                assert(front[i] == rows[i]);
            }
            assert forall|i: int| 0 <= i < shorter.len() implies (
            #[trigger] front[owned + i]).price_cents == Some(
                pool[shorter[i]].listing.price_cents,
            ) by {
                assert(front[owned + i] == rows[owned + i]);
            }
            lemma_rows_price(front, pool, shorter, owned);
            assert(rows[owned + (places.len() - 1)] == rows.last());
        } else {
            assert forall|i: int| 0 <= i < owned - 1 implies (
            #[trigger] front[i]).price_cents is None by {
                assert(front[i] == rows[i]);
            }
            lemma_rows_price(front, pool, places, (owned - 1) as nat);
        }
    }
}

/// Rows without prices cost nothing.
proof fn lemma_rows_free(rows: Seq<PlannedListing>)
    requires
        forall|i: int| 0 <= i < rows.len() ==> (#[trigger] rows[i]).price_cents is None,
    ensures
        rows_price(rows) == 0,
    decreases rows.len(),
{
    if rows.len() > 0 {
        let front = rows.drop_last();
        assert(rows[rows.len() - 1] == rows.last());
        assert forall|i: int| 0 <= i < front.len() implies (
        #[trigger] front[i]).price_cents is None by {
            assert(front[i] == rows[i]);
        }
        lemma_rows_free(front);
    }
}

/// The slots that the rows stand for.
#[verifier::rlimit(40)]
proof fn lemma_row_slots(
    r: PlanResponse,
    skins: Seq<Skin>,
    listings: Seq<FixtureListing>,
    request: PlanRequest,
)
    requires
        was_planned(r, skins, listings, request),
    ensures
        r.selected_inputs@.len() == 10,
        request.owned_inputs@.len() <= 10,
        row_slots(r.selected_inputs@) == if is_ideal(skins, listings, request) {
            ideal_slots(skins, request)
        } else {
            planned_slots(
                request.owned_inputs@,
                candidate_pool(skins, listings, request),
                best_plan(skins, listings, request)->0.places,
            )
        },
{
    let rows = r.selected_inputs@;
    let owned = request.owned_inputs@;
    assert forall|i: int| 0 <= i < owned.len() implies row_slots(rows)[i] == #[trigger] slots_of(
        owned,
    )[i] by {
        lemma_slot_accepted(skins, slots_of(owned), request.stattrak, i);
        lemma_found(skins, owned[i].skin_id@);
        assert(rows[i].skin_id@ == slot_skin(skins, slot_of(owned[i])).id@);
    }
    if is_ideal(skins, listings, request) {
        assert forall|i: int| owned.len() <= i < 10 implies #[trigger] row_slots(rows)[i]
            == ideal_slots(skins, request)[i] by {
            assert(rows[i].skin_id@ == ideal_skin(skins, request).id@);
        }
        assert(row_slots(rows) =~= ideal_slots(skins, request));
    } else {
        let pool = candidate_pool(skins, listings, request);
        let plan = best_plan(skins, listings, request)->0;
        law_plan_selects(skins, listings, request);
        let slots = planned_slots(owned, pool, plan.places);
        assert forall|i: int| owned.len() <= i < 10 implies #[trigger] row_slots(rows)[i]
            == slots[i] by {
            assert(describes_choice(
                rows[owned.len() + (i - owned.len())],
                i,
                pool[plan.places[i - owned.len()]],
            ));
        }
        assert(row_slots(rows) =~= slots);
    }
}

/// A plan has ten rows, numbered from one. The owned items come first, as they were given,
/// and cost nothing; the others are not owned. The total is what the rows cost, and prices
/// are there exactly where listings were.
#[verifier::rlimit(40)]
pub proof fn law_rows_of_a_plan(
    r: PlanResponse,
    skins: Seq<Skin>,
    listings: Seq<FixtureListing>,
    request: PlanRequest,
)
    requires
        was_planned(r, skins, listings, request),
    ensures
        r.contract_size == 10,
        r.selected_inputs@.len() == 10,
        request.owned_inputs@.len() <= 10,
        forall|i: int|
            0 <= i < 10 ==> {
                let row = #[trigger] r.selected_inputs@[i];
                &&& row.slot == i + 1
                &&& row.owned <==> i < request.owned_inputs@.len()
                &&& i < request.owned_inputs@.len() ==> {
                    &&& row.skin_id@ == request.owned_inputs@[i].skin_id@
                    &&& row.float_value.value == request.owned_inputs@[i].float_value
                    &&& row.source@ == "owned"@
                    &&& row.listing_id is None
                    &&& row.price_cents is None
                    &&& row.market_url is None
                }
            },
        r.total_price_cents == rows_price(r.selected_inputs@),
        r.pricing_available <==> candidate_pool(skins, listings, request).len() > 0
            || request.owned_inputs@.len() == 10,
{
    let rows = r.selected_inputs@;
    let owned = request.owned_inputs@;
    lemma_row_slots(r, skins, listings, request);
    assert forall|i: int| 0 <= i < owned.len() implies (#[trigger] rows[i]).skin_id@
        == owned[i].skin_id@ by {
        lemma_slot_accepted(skins, slots_of(owned), request.stattrak, i);
        lemma_found(skins, owned[i].skin_id@);
        assert(rows[i].skin_id@ == slot_skin(skins, slot_of(owned[i])).id@);
    }
    if is_ideal(skins, listings, request) {
        lemma_rows_free(rows);
    } else {
        let pool = candidate_pool(skins, listings, request);
        let plan = best_plan(skins, listings, request)->0;
        lemma_proposed(skins, listings, request, r);
        law_plan_selects(skins, listings, request);
        assert forall|i: int| owned.len() <= i < 10 implies (#[trigger] rows[i]).slot == i + 1
            && !rows[i].owned by {
            assert(describes_choice(
                rows[owned.len() + (i - owned.len())],
                i,
                pool[plan.places[i - owned.len()]],
            ));
        }
        lemma_rows_price(rows, pool, plan.places, owned.len());
    }
}

/// Two outcomes say the same.
pub open spec fn says_the_same(a: OutcomeAnalysis, b: OutcomeAnalysis) -> bool {
    &&& a.skin_id@ == b.skin_id@
    &&& a.skin_name@ == b.skin_name@
    &&& a.collection_name@ == b.collection_name@
    &&& a.probability == b.probability
    &&& a.probability_percent@ == b.probability_percent@
    &&& a.predicted_float.value == b.predicted_float.value
    &&& a.wear.name@ == b.wear.name@
}

/// Analysing the contract of the rows gives what the plan says: the contract is accepted,
/// its outcomes are those of the plan, and among them the target has the float, the odds
/// and the exterior that the plan names.
#[verifier::rlimit(40)]
pub proof fn law_plan_is_an_analysis(
    r: PlanResponse,
    skins: Seq<Skin>,
    listings: Seq<FixtureListing>,
    request: PlanRequest,
    inputs: Seq<InputRequest>,
    analysis: AnalyzeResponse,
) -> (j: int)
    requires
        distinct_ids(skins),
        was_planned(r, skins, listings, request),
        slots_of(inputs) == row_slots(r.selected_inputs@),
        describes_contract(analysis, skins, inputs),
    ensures
        contract_failure(skins, inputs.len(), slots_of(inputs), request.stattrak) is None,
        r.all_outcomes@.len() == analysis.outcomes@.len(),
        forall|i: int|
            0 <= i < analysis.outcomes@.len() ==> says_the_same(
                #[trigger] r.all_outcomes@[i],
                analysis.outcomes@[i],
            ),
        0 <= j < analysis.outcomes@.len(),
        analysis.outcomes@[j].skin_id@ == request.target_skin_id@,
        r.target_skin.id@ == request.target_skin_id@,
        r.predicted_target_float.value == analysis.outcomes@[j].predicted_float.value,
        r.target_probability@ == analysis.outcomes@[j].probability_percent@,
        r.target_wear.name@ == analysis.outcomes@[j].wear.name@,
{
    let slots = slots_of(inputs);
    let target = goal_skin(skins, request);
    let entries = contract_outcomes(skins, slots);
    lemma_row_slots(r, skins, listings, request);
    assert(slots.len() == 10);
    lemma_found(skins, request.target_skin_id@);
    law_outcomes_of_contract(skins, slots);
    lemma_place_has_id(entries, target.id@);
    let j = crate::planner::outcome_place(entries, target.id@)->0;
    lemma_one_skin(skins, entries[j].item, target);
    assert forall|i: int| 0 <= i < analysis.outcomes@.len() implies says_the_same(
        #[trigger] r.all_outcomes@[i],
        analysis.outcomes@[i],
    ) by {
        assert(describes_outcome(
            analysis.outcomes@[i],
            skins,
            entries[i],
            crate::contract::yielded_rarity(skins, slots),
            10,
            contract_average(skins, slots),
        ));
    }
    assert(describes_outcome(
        analysis.outcomes@[j],
        skins,
        entries[j],
        crate::contract::yielded_rarity(skins, slots),
        10,
        contract_average(skins, slots),
    ));
    if !is_ideal(skins, listings, request) {
        law_plan_agrees_with_analysis(skins, listings, request);
    }
    j
}

/// The status of a plan: "closest" exactly where the float that it leads to lies outside
/// the range that it shows, "exact" where it is the very float that was asked for, and
/// "within_tolerance" otherwise.
#[verifier::rlimit(40)]
pub proof fn law_status_of_a_plan(
    r: PlanResponse,
    skins: Seq<Skin>,
    listings: Seq<FixtureListing>,
    request: PlanRequest,
)
    requires
        was_planned(r, skins, listings, request),
        !r.predicted_target_float.value.nan(),
        !r.acceptable_output_range@[0].value.nan(),
        !r.acceptable_output_range@[1].value.nan(),
    ensures
        ({
            let x = r.predicted_target_float.value;
            let inside = r.acceptable_output_range@[0].value.rank() <= x.rank()
                <= r.acceptable_output_range@[1].value.rank();
            &&& r.status@ == "closest"@ <==> !inside
            &&& r.status@ == "exact"@ <==> inside && request.target == (TargetConstraint::Exact {
                value: x,
            })
            &&& r.status@ == "within_tolerance"@ <==> inside && request.target != (
            TargetConstraint::Exact { value: x })
        }),
{
    let x = r.predicted_target_float.value;
    let aim = goal_aim(skins, request);
    let inside = aim.low.rank() <= x.rank() <= aim.high.rank();
    assert(r.acceptable_output_range@[0].value == aim.low);
    assert(r.acceptable_output_range@[1].value == aim.high);
    lemma_status(request.target, inside, x);
    if !is_ideal(skins, listings, request) {
        let plan = best_plan(skins, listings, request)->0;
        lemma_proposed(skins, listings, request, r);
        assert(plan.within == inside);
        assert(plan.predicted == x);
    }
    assert(r.status@ == plan_status(request.target, inside, x));
}

/// The names of the statuses differ.
proof fn lemma_status(target: TargetConstraint, inside: bool, x: Float32)
    ensures
        ({
            let status = plan_status(target, inside, x);
            &&& status == "closest"@ <==> !inside
            &&& status == "exact"@ <==> inside && target == (TargetConstraint::Exact { value: x })
            &&& status == "within_tolerance"@ <==> inside && target != (TargetConstraint::Exact {
                value: x,
            })
        }),
{
    reveal_strlit("closest");
    reveal_strlit("exact");
    reveal_strlit("within_tolerance");
    assert("closest"@.len() == 7 && "exact"@.len() == 5 && "within_tolerance"@.len() == 16);
}

/// Without listings every open slot gets the same skin of the target's collection, one step
/// below it, which exists in the wanted variant.
pub proof fn law_ideal_rows(
    r: PlanResponse,
    skins: Seq<Skin>,
    listings: Seq<FixtureListing>,
    request: PlanRequest,
) -> (skin: Skin)
    requires
        was_planned(r, skins, listings, request),
        is_ideal(skins, listings, request),
    ensures
        skins.contains(skin),
        skin.collection_id@ == goal_skin(skins, request).collection_id@,
        trades_up(skin.rarity, goal_skin(skins, request).rarity),
        request.stattrak ==> skin.stattrak_supported,
        forall|i: int|
            request.owned_inputs@.len() <= i < 10 ==> {
                let row = #[trigger] r.selected_inputs@[i];
                &&& row.skin_id@ == skin.id@
                &&& row.skin_name@ == skin.name@
                &&& row.source@ == "ideal_math"@
                &&& row.float_value.value == r.selected_inputs@[9].float_value.value
            },
{
    let target = goal_skin(skins, request);
    let inputs = input_pool(skins, target);
    let skin = ideal_skin(skins, request);
    lemma_compatible_in_pool(inputs, request.stattrak);
    lemma_compatible_supports(inputs, request.stattrak);
    let j = choose|j: int| 0 <= j < inputs.len() && inputs[j] == skin;
    lemma_pool_skin(skins, target.collection_id@, crate::domain::Rarity::Classified, j);
    skin
}

/// A compatible skin exists in the wanted variant.
proof fn lemma_compatible_supports(pool: Seq<Skin>, stattrak: bool)
    ensures
        first_compatible(pool, stattrak) matches Some(skin) ==> (stattrak
            ==> skin.stattrak_supported),
    decreases pool.len(),
{
    if pool.len() > 0 {
        lemma_compatible_supports(pool.drop_last(), stattrak);
    }
}

/// The skins that a plan names as inputs are those of the catalog that lead to the target:
/// of its collection, one step below it, in the order of the catalog.
pub proof fn law_input_skins(
    r: PlanResponse,
    skins: Seq<Skin>,
    request: PlanRequest,
    skin: Skin,
)
    requires
        describes_goal(r, skins, request),
        r.target_skin.rarity is Covert,
    ensures
        r.candidate_input_skins@.contains(skin) <==> skins.contains(skin)
            && skin.collection_id@ == r.target_skin.collection_id@ && trades_up(
            skin.rarity,
            r.target_skin.rarity,
        ),
        r.candidate_input_skins@.len() == skins_in(
            skins,
            r.target_skin.collection_id@,
            Rarity::Classified,
        ),
{
    let collection = r.target_skin.collection_id@;
    let inputs = r.candidate_input_skins@;
    assert(inputs == pool(skins, collection, Rarity::Classified));
    lemma_pool_size(skins, collection, Rarity::Classified);
    if inputs.contains(skin) {
        let i = choose|i: int| 0 <= i < inputs.len() && inputs[i] == skin;
        lemma_pool_skin(skins, collection, Rarity::Classified, i);
    }
    if skins.contains(skin) && skin.collection_id@ == collection && trades_up(
        skin.rarity,
        r.target_skin.rarity,
    ) {
        let k = choose|k: int| 0 <= k < skins.len() && skins[k] == skin;
        skins.lemma_filter_contains(belongs(collection, Rarity::Classified), k);
    }
}

/// Every row shows its share: the place of its float between the caps of its skin.
#[verifier::rlimit(40)]
pub proof fn law_shares_of_rows(
    r: PlanResponse,
    skins: Seq<Skin>,
    listings: Seq<FixtureListing>,
    request: PlanRequest,
    i: int,
    k: int,
)
    requires
        distinct_ids(skins),
        was_planned(r, skins, listings, request),
        !is_ideal(skins, listings, request),
        0 <= i < 10,
        0 <= k < skins.len(),
        r.selected_inputs@[i].skin_id@ == skins[k].id@,
        caps_in_unit(skins[k]),
    ensures
        is_share(
            r.selected_inputs@[i].adjusted_float.value,
            r.selected_inputs@[i].float_value.value,
            skins[k],
        ),
        r.selected_inputs@[i].skin_name@ == skins[k].name@,
{
    let rows = r.selected_inputs@;
    let owned = request.owned_inputs@;
    lemma_found_under(skins, k);
    lemma_row_slots(r, skins, listings, request);
    if i < owned.len() {
        lemma_slot_accepted(skins, slots_of(owned), request.stattrak, i);
        lemma_found(skins, owned[i].skin_id@);
        assert(rows[i].skin_id@ == slot_skin(skins, slot_of(owned[i])).id@);
        lemma_one_skin(skins, slot_skin(skins, slot_of(owned[i])), skins[k]);
        lemma_is_share(owned[i].float_value, skins[k]);
    } else {
        let pool = candidate_pool(skins, listings, request);
        let plan = best_plan(skins, listings, request)->0;
        law_plan_selects(skins, listings, request);
        let candidate = pool[plan.places[i - owned.len()]];
        assert(describes_choice(rows[owned.len() + (i - owned.len())], i, candidate));
        lemma_candidate_known(
            skins,
            stable_sorted(
                gathered(
                    listings,
                    skin_ids(input_pool(skins, goal_skin(skins, request))),
                    offer_limit(request.listing_limit),
                ),
            ),
            request.stattrak,
            plan.places[i - owned.len()],
        );
        assert(*candidate.skin == skins[k]);
        lemma_is_share(candidate.listing.float_value, skins[k]);
    }
}

/// All rows that were bought come from the market.
pub open spec fn all_from_market(r: PlanResponse) -> bool {
    forall|i: int|
        0 <= i < r.selected_inputs@.len() && !(#[trigger] r.selected_inputs@[i]).owned
            ==> r.selected_inputs@[i].source@ == "steam_community_market"@
}

/// What a plan says of itself: the message follows from its status and from where its rows
/// come from, and up to 28 listings were tried in every combination.
#[verifier::rlimit(40)]
pub proof fn law_what_a_plan_says(
    r: PlanResponse,
    skins: Seq<Skin>,
    listings: Seq<FixtureListing>,
    request: PlanRequest,
)
    requires
        was_planned(r, skins, listings, request),
        !is_ideal(skins, listings, request),
    ensures
        r.status@ == "exact"@ ==> r.message@
            == "Найден bit-exact float32 результат для выбранной цели."@,
        r.status@ == "within_tolerance"@ && all_from_market(r) ==> r.message@
            == "Найден набор активных лотов Steam Community Market в допустимом диапазоне."@,
        r.status@ == "within_tolerance"@ && !all_from_market(r) ==> r.message@
            == "Найден самый дешёвый набор доступных лотов в допустимом диапазоне."@,
        r.status@ == "closest"@ ==> r.message@
            == "Набора в допустимом диапазоне нет; показан ближайший из доступных лотов."@,
        r.warnings@.len() == 2,
        candidate_pool(skins, listings, request).len() <= 28 ==> r.optimizer@
            == "exact combination enumeration over the available listing pool"@,
        candidate_pool(skins, listings, request).len() > 28 ==> r.optimizer@
            == "bounded beam search over "@ + decimal(
            candidate_pool(skins, listings, request).len(),
        ) + " listings (beam width 4096)"@,
{
    let rows = r.selected_inputs@;
    let owned = request.owned_inputs@;
    let pool = candidate_pool(skins, listings, request);
    let plan = best_plan(skins, listings, request)->0;
    reveal_strlit("closest");
    reveal_strlit("exact");
    reveal_strlit("within_tolerance");
    assert("closest"@.len() == 7 && "exact"@.len() == 5 && "within_tolerance"@.len() == 16);
    law_plan_selects(skins, listings, request);
    lemma_row_slots(r, skins, listings, request);
    assert(from_market(pool, plan.places) == all_from_market(r)) by {
        if from_market(pool, plan.places) {
            assert forall|i: int|
                0 <= i < rows.len() && !(#[trigger] rows[i]).owned implies rows[i].source@
                == "steam_community_market"@ by {
                if i >= owned.len() {
                    let place = plan.places[i - owned.len()];
                    assert(describes_choice(rows[owned.len() + (i - owned.len())], i, pool[place]));
                    assert(pool[place].listing.source@ == "steam_community_market"@);
                }
            }
        }
        if all_from_market(r) {
            assert forall|i: int| 0 <= i < plan.places.len() implies pool[
                #[trigger] plan.places[i]
            ].listing.source@ == "steam_community_market"@ by {
                let row = rows[owned.len() + i];
                assert(describes_choice(row, owned.len() + i, pool[plan.places[i]]));
                assert(!row.owned);
            }
        }
    }
    assert(texts(r.warnings@).len() == r.warnings@.len());
}

/// The distance that a plan shows is how far the float that it leads to lies from the center
/// of the request.
pub proof fn law_distance_of_a_plan(
    r: PlanResponse,
    skins: Seq<Skin>,
    listings: Seq<FixtureListing>,
    request: PlanRequest,
)
    requires
        was_planned(r, skins, listings, request),
        r.predicted_target_float.value.finite(),
        goal_aim(skins, request).center.finite(),
    ensures
        r.target_distance.value.rank() == nearest(
            gap(r.predicted_target_float.value.units(), goal_aim(skins, request).center.units()),
            1,
        ),
{
    lemma_distance(r.predicted_target_float.value, goal_aim(skins, request).center);
    if !is_ideal(skins, listings, request) {
        lemma_proposed(skins, listings, request, r);
    }
}

/// Without listings every open slot asks for the float at the share that it shows.
pub proof fn law_ideal_floats(
    r: PlanResponse,
    skins: Seq<Skin>,
    listings: Seq<FixtureListing>,
    request: PlanRequest,
    i: int,
    skin: Skin,
)
    requires
        was_planned(r, skins, listings, request),
        is_ideal(skins, listings, request),
        distinct_ids(skins),
        request.owned_inputs@.len() <= i < 10,
        skins.contains(skin),
        r.selected_inputs@[i].skin_id@ == skin.id@,
        caps_in_unit(skin),
        in_unit(r.selected_inputs@[i].adjusted_float.value),
    ensures
        lies_at(
            r.selected_inputs@[i].float_value.value,
            r.selected_inputs@[i].adjusted_float.value,
            skin,
        ),
{
    lemma_ideal_row(r, skins, listings, request, i);
    lemma_one_skin(skins, ideal_skin(skins, request), skin);
    lemma_lies_at(r.selected_inputs@[i].adjusted_float.value, skin);
}

/// The row of a computed slot.
#[verifier::rlimit(40)]
proof fn lemma_ideal_row(
    r: PlanResponse,
    skins: Seq<Skin>,
    listings: Seq<FixtureListing>,
    request: PlanRequest,
    i: int,
)
    requires
        was_planned(r, skins, listings, request),
        is_ideal(skins, listings, request),
        request.owned_inputs@.len() <= i < 10,
    ensures
        skins.contains(ideal_skin(skins, request)),
        r.selected_inputs@[i].skin_id@ == ideal_skin(skins, request).id@,
        r.selected_inputs@[i].float_value.value == predicted_output(
            r.selected_inputs@[i].adjusted_float.value,
            ideal_skin(skins, request),
        ),
{
    let target = goal_skin(skins, request);
    let inputs = input_pool(skins, target);
    assert(first_compatible(inputs, request.stattrak) is Some);
    lemma_compatible_in_pool(inputs, request.stattrak);
    let j = choose|j: int| 0 <= j < inputs.len() && inputs[j] == ideal_skin(skins, request);
    assert(target.rarity is Covert);
    lemma_pool_skin(skins, target.collection_id@, Rarity::Classified, j);
    assert(r.selected_inputs@[i].skin_id@ == ideal_skin(skins, request).id@);
}

} // verus!
