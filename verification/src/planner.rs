//! Reverse planning: which inputs lead to a wanted output.
use crate::accuracy::{
    in_unit, law_adjusted_in_unit, law_average_in_unit, law_output_in_range, law_sum_is_nearest,
    lemma_shares_accepted,
};
use crate::beam::{
    beam_level, law_beam_finds, law_beam_selects, missing_sum, prices_fit, search_combinations_beam,
};
use crate::catalog::{
    find_skin, gathered, input_pool, lemma_found, plain, sells, sound_caps, texts, Catalog,
};
use crate::contract::{
    adjusted_share, analyze_contract, contract_average, contract_failure, contract_outcomes,
    describes_outcomes, known_shares, lemma_all_known, outcome_probability, percent, resolve_inputs,
    resolved_shares, resolves, slot_failure, slot_of, slot_skin, slots_failure, slots_of,
    yielded_rarity, AnalyzeRequest, AnalyzeResponse, InputRequest, OutcomeAnalysis, ResolvedInput,
    Slot, ONE_BITS, TEN_BITS,
};
use crate::domain::{
    adjusted, adjusted_float, average, cap_span, describes_wear, float_failure, output_float,
    predicted_output, reports, sum_in_order, zero, Failure, FixtureListing, Float32, Float32Value,
    PlannerError, Rarity, Skin, WearInfo,
};
use crate::float32::{
    absolute, below, clamped, difference, f32_abs, f32_add, f32_div, f32_mul, f32_sub, larger,
    not_above, of_count, opposite, quotient, smaller, sum,
};
use crate::search::{
    as_places, best_over, chosen_shares, combinations, is_selection, law_best_is_unbeaten,
    law_combinations, lemma_combination_selects, plan_of, plan_view, plans_of, preferred,
    search_combinations, Aim, Candidate, ChosenPlan, Plan, PlanningPriority,
};
use crate::sorting::{lemma_stable_sorted, stable_sorted};
use crate::tally::Entry;
use crate::text::{copy_optional, decimal, decimal_text, join2, join3, same_text};
use vstd::prelude::*;
use vstd::string::StringExecFns;

verus! {

/// Single-precision two.
pub const TWO_BITS: u32 = 0x4000_0000;

/// Single-precision 0.0001.
pub const DEFAULT_DELTA_BITS: u32 = 0x38d1_b717;

/// The largest pool whose combinations are all gone through.
pub const EXACT_POOL: usize = 28;

/// The most listings that are considered for one skin.
pub const LISTING_LIMIT: usize = 200;

#[derive(Debug, Clone, Copy)]
pub enum TargetConstraint {
    Exact { value: Float32 },
    Maximum { value: Float32 },
    Range { min: Float32, max: Float32 },
}

#[derive(Debug)]
pub struct PlanRequest {
    pub target_skin_id: String,
    pub target: TargetConstraint,
    pub delta: Float32,
    pub stattrak: bool,
    pub owned_inputs: Vec<InputRequest>,
    pub priority: PlanningPriority,
    pub listing_limit: Option<usize>,
}

/// The deviation that is allowed where a request names none.
pub fn default_delta() -> (r: Float32)
    ensures
        r.bits == DEFAULT_DELTA_BITS,
{
    Float32::from_bits(DEFAULT_DELTA_BITS)
}

#[derive(Debug)]
pub struct PlannedListing {
    pub slot: usize,
    pub listing_id: Option<String>,
    pub source: String,
    pub skin_id: String,
    pub skin_name: String,
    pub float_value: Float32Value,
    pub adjusted_float: Float32Value,
    pub price_cents: Option<u64>,
    pub market_url: Option<String>,
    pub inspect_link: Option<String>,
    pub owned: bool,
}

#[derive(Debug)]
pub struct PlanResponse {
    pub status: String,
    pub message: String,
    pub target_skin: Skin,
    pub target_adjusted: Float32Value,
    pub acceptable_output_range: [Float32Value; 2],
    pub contract_size: usize,
    pub target_probability: String,
    pub candidate_input_skins: Vec<Skin>,
    pub selected_inputs: Vec<PlannedListing>,
    pub total_price_cents: u64,
    pub pricing_available: bool,
    pub predicted_target_float: Float32Value,
    pub target_distance: Float32Value,
    pub target_wear: WearInfo,
    pub all_outcomes: Vec<OutcomeAnalysis>,
    pub optimizer: String,
    pub warnings: Vec<String>,
}

/// The lower bound, the upper bound and the centre of what is asked for, before the caps apply.
pub open spec fn asked_bounds(target: TargetConstraint, delta: Float32, cap_min: Float32) -> (
    Float32,
    Float32,
    Float32,
) {
    match target {
        TargetConstraint::Exact { value } => (
            difference(value, delta),
            sum(value, delta),
            value,
        ),
        TargetConstraint::Maximum { value } => (cap_min, sum(value, delta), value),
        TargetConstraint::Range { min, max } => (
            difference(min, delta),
            sum(max, delta),
            quotient(sum(min, max), Float32 { bits: TWO_BITS }),
        ),
    }
}

/// Why what is asked for makes no sense, if so.
pub open spec fn bounds_failure(target: TargetConstraint, delta: Float32, cap_min: Float32) -> Option<
    Failure,
> {
    let (low, high, center) = asked_bounds(target, delta, cap_min);
    if !delta.finite() || below(delta, zero()) {
        Some(Failure::Validation("delta must be a finite non-negative float"@))
    } else if target matches TargetConstraint::Range { min, max } && below(max, min) {
        Some(Failure::Validation("target range min must not exceed max"@))
    } else if !low.finite() || !high.finite() || !center.finite() {
        Some(Failure::Validation("target constraint must contain finite floats"@))
    } else {
        None
    }
}

/// The lower bound, the upper bound and the centre within the caps.
pub open spec fn capped_bounds(
    target: TargetConstraint,
    delta: Float32,
    cap_min: Float32,
    cap_max: Float32,
) -> (Float32, Float32, Float32) {
    let (low, high, center) = asked_bounds(target, delta, cap_min);
    (larger(low, cap_min), smaller(high, cap_max), clamped(center, cap_min, cap_max))
}

impl TargetConstraint {
    /// What is asked for, before the caps apply.
    fn asked(&self, delta: Float32, cap_min: Float32) -> (r: Result<
        (Float32, Float32, Float32),
        PlannerError,
    >)
        ensures
            match r {
                Ok(bounds) => {
                    &&& bounds_failure(*self, delta, cap_min) is None
                    &&& bounds == asked_bounds(*self, delta, cap_min)
                },
                Err(error) => bounds_failure(*self, delta, cap_min) == Some(error@),
            },
    {
        if !delta.is_finite() || delta.less(Float32::from_bits(0)) {
            return Err(
                PlannerError::Validation("delta must be a finite non-negative float".to_owned()),
            );
        }
        let (low, high, center) = match *self {
            TargetConstraint::Exact { value } => (
                f32_sub(value, delta),
                f32_add(value, delta),
                value,
            ),
            TargetConstraint::Maximum { value } => (cap_min, f32_add(value, delta), value),
            TargetConstraint::Range { min, max } => {
                if max.less(min) {
                    return Err(
                        PlannerError::Validation(
                            "target range min must not exceed max".to_owned(),
                        ),
                    );
                }
                (
                    f32_sub(min, delta),
                    f32_add(max, delta),
                    f32_div(f32_add(min, max), Float32::from_bits(TWO_BITS)),
                )
            },
        };
        if !low.is_finite() || !high.is_finite() || !center.is_finite() {
            return Err(
                PlannerError::Validation(
                    "target constraint must contain finite floats".to_owned(),
                ),
            );
        }
        Ok((low, high, center))
    }

    /// The outputs that are accepted, and the one that is aimed at.
    pub fn requested_bounds(&self, delta: Float32, cap_min: Float32, cap_max: Float32) -> (r: Result<
        (Float32, Float32, Float32),
        PlannerError,
    >)
        requires
            bounds_failure(*self, delta, cap_min) is None ==> not_above(cap_min, cap_max),
        ensures
            match r {
                Ok(bounds) => {
                    &&& bounds_failure(*self, delta, cap_min) is None
                    &&& bounds == capped_bounds(*self, delta, cap_min, cap_max)
                },
                Err(error) => bounds_failure(*self, delta, cap_min) == Some(error@),
            },
    {
        match self.asked(delta, cap_min) {
            Ok((low, high, center)) => Ok(
                (low.maximum(cap_min), high.minimum(cap_max), center.clamp(cap_min, cap_max)),
            ),
            Err(error) => Err(error),
        }
    }
}

/// Why the goal of a request is refused, if it is.
pub open spec fn goal_failure(skins: Seq<Skin>, request: PlanRequest) -> Option<Failure> {
    match find_skin(skins, request.target_skin_id@) {
        None => Some(
            Failure::Validation("unknown target_skin_id: "@ + request.target_skin_id@),
        ),
        Some(target) => if request.stattrak && !target.stattrak_supported {
            Some(Failure::Validation(target.name@ + " has no StatTrak variant in the catalog"@))
        } else if !(target.rarity is Covert) {
            Some(
                Failure::Validation(
                    "this MVP reverse planner currently materializes normal 10-item paths to Covert targets"@,
                ),
            )
        } else {
            bounds_failure(request.target, request.delta, target.min_float)
        },
    }
}

/// The skin that a request aims at.
pub open spec fn goal_skin(skins: Seq<Skin>, request: PlanRequest) -> Skin {
    find_skin(skins, request.target_skin_id@)->0
}

/// What a request aims at.
pub open spec fn goal_aim(skins: Seq<Skin>, request: PlanRequest) -> Aim<'static> {
    let target = goal_skin(skins, request);
    let (low, high, center) = capped_bounds(
        request.target,
        request.delta,
        target.min_float,
        target.max_float,
    );
    Aim { target: &target, low, high, center }
}

/// Planning is defined where the caps of an accepted target are in order.
pub open spec fn plan_defined(skins: Seq<Skin>, request: PlanRequest) -> bool {
    goal_failure(skins, request) is None ==> not_above(
        goal_skin(skins, request).min_float,
        goal_skin(skins, request).max_float,
    )
}

/// Finds the skin that a request aims at.
fn find_goal<'a>(catalog: &'a Catalog, request: &PlanRequest) -> (r: Result<&'a Skin, PlannerError>)
    ensures
        match r {
            Ok(target) => {
                &&& goal_failure(catalog.skins(), *request) is None
                &&& *target == goal_skin(catalog.skins(), *request)
                &&& target.rarity is Covert
            },
            Err(error) => goal_failure(catalog.skins(), *request) == Some(error@),
        },
{
    let target: &Skin = match catalog.skin(request.target_skin_id.as_str()) {
        Some(target) => target,
        None => {
            return Err(
                PlannerError::Validation(
                    join2("unknown target_skin_id: ", request.target_skin_id.as_str()),
                ),
            );
        },
    };
    if request.stattrak && !target.stattrak_supported {
        return Err(
            PlannerError::Validation(
                join2(target.name.as_str(), " has no StatTrak variant in the catalog"),
            ),
        );
    }
    if target.rarity != Rarity::Covert {
        return Err(
            PlannerError::Validation(
                "this MVP reverse planner currently materializes normal 10-item paths to Covert targets".to_owned(),
            ),
        );
    }
    match request.target.asked(request.delta, target.min_float) {
        Ok(_) => Ok(target),
        Err(error) => Err(error),
    }
}

/// Whether planning is defined for a request.
pub fn plan_is_defined(catalog: &Catalog, request: &PlanRequest) -> (r: bool)
    ensures
        r == plan_defined(catalog.skins(), *request),
{
    match find_goal(catalog, request) {
        Ok(target) => target.min_float.at_most(target.max_float),
        Err(_) => true,
    }
}

pub open spec fn skin_ids(skins: Seq<Skin>) -> Seq<Seq<char>> {
    Seq::new(skins.len(), |i: int| skins[i].id@)
}

/// Every owned item is one of the valid inputs.
pub open spec fn owned_fit(skins: Seq<Skin>, owned: Seq<InputRequest>, target: Skin) -> bool {
    forall|i: int|
        0 <= i < owned.len() ==> skin_ids(input_pool(skins, target)).contains(
            slot_skin(skins, slot_of(#[trigger] owned[i])).id@,
        )
}

/// Why the inputs of a request are refused, if they are.
pub open spec fn inputs_failure(skins: Seq<Skin>, request: PlanRequest) -> Option<Failure> {
    let target = goal_skin(skins, request);
    let owned = request.owned_inputs@;
    match float_failure(goal_aim(skins, request).center, target) {
        Some(failure) => Some(failure),
        None => if input_pool(skins, target).len() == 0 {
            Some(
                Failure::Validation("no Some(Classified) inputs are known for "@ + target.name@),
            )
        } else {
            match slots_failure(skins, slots_of(owned), request.stattrak) {
                Some(failure) => Some(failure),
                None => if !owned_fit(skins, owned, target) {
                    Some(
                        Failure::Validation(
                            "owned items must be Some(Classified) from "@ + target.collection_name@,
                        ),
                    )
                } else if owned.len() > 10 {
                    Some(
                        Failure::Validation(
                            "a standard contract cannot contain more than 10 owned inputs"@,
                        ),
                    )
                } else {
                    None
                },
            }
        },
    }
}

/// A listing as a candidate, if it can fill a slot.
pub open spec fn usable(skins: Seq<Skin>, listing: FixtureListing, stattrak: bool) -> Option<
    Candidate<'static>,
> {
    match find_skin(skins, listing.skin_id@) {
        Some(skin) => if (stattrak && !skin.stattrak_supported) || float_failure(
            listing.float_value,
            skin,
        ) is Some {
            None
        } else {
            Some(
                Candidate {
                    listing: &listing,
                    skin: &skin,
                    adjusted: adjusted(listing.float_value, skin),
                },
            )
        },
        None => None,
    }
}

/// The usable ones of some listings.
pub open spec fn usable_offers(
    skins: Seq<Skin>,
    offers: Seq<FixtureListing>,
    stattrak: bool,
) -> Seq<Candidate<'static>>
    decreases offers.len(),
{
    if offers.len() == 0 {
        Seq::empty()
    } else {
        let front = usable_offers(skins, offers.drop_last(), stattrak);
        match usable(skins, offers.last(), stattrak) {
            Some(candidate) => front.push(candidate),
            None => front,
        }
    }
}

/// How many listings are considered for each input skin.
pub open spec fn offer_limit(limit: Option<usize>) -> nat {
    match limit {
        Some(n) => if n < 1 {
            1
        } else if n > LISTING_LIMIT {
            LISTING_LIMIT as nat
        } else {
            n as nat
        },
        None => LISTING_LIMIT as nat,
    }
}

/// The candidates for the open slots, the cheapest first.
pub open spec fn candidate_pool(
    skins: Seq<Skin>,
    listings: Seq<FixtureListing>,
    request: PlanRequest,
) -> Seq<Candidate<'static>> {
    usable_offers(
        skins,
        stable_sorted(
            gathered(
                listings,
                skin_ids(input_pool(skins, goal_skin(skins, request))),
                offer_limit(request.listing_limit),
            ),
        ),
        request.stattrak,
    )
}

/// The adjusted floats of the owned items.
pub open spec fn owned_shares(skins: Seq<Skin>, request: PlanRequest) -> Seq<Float32> {
    known_shares(skins, slots_of(request.owned_inputs@))
}

/// The number of slots that are still open.
pub open spec fn open_slots(request: PlanRequest) -> nat {
    (10 - request.owned_inputs@.len()) as nat
}

/// The adjusted float of the output that is aimed at.
pub open spec fn aimed_share(skins: Seq<Skin>, request: PlanRequest) -> Float32 {
    adjusted(goal_aim(skins, request).center, goal_skin(skins, request))
}

/// The plan that the search settles on.
pub open spec fn best_plan(
    skins: Seq<Skin>,
    listings: Seq<FixtureListing>,
    request: PlanRequest,
) -> Option<Plan> {
    let pool = candidate_pool(skins, listings, request);
    let n = pool.len() as int;
    let required = open_slots(request);
    let owned = owned_shares(skins, request);
    let choices = if pool.len() <= EXACT_POOL {
        combinations(n, required as int, 0)
    } else {
        beam_level(
            pool,
            missing_sum(aimed_share(skins, request), owned),
            required,
            n,
            required,
        )
    };
    best_over(None, plans_of(goal_aim(skins, request), owned, pool, choices), request.priority)
}

/// The slots of a contract that takes the candidates at the given places.
pub open spec fn planned_slots(
    owned: Seq<InputRequest>,
    pool: Seq<Candidate<'_>>,
    places: Seq<int>,
) -> Seq<Slot> {
    slots_of(owned) + chosen_slots(pool, places)
}

/// The slots that the candidates at the given places fill.
pub open spec fn chosen_slots(pool: Seq<Candidate<'_>>, places: Seq<int>) -> Seq<Slot> {
    Seq::new(
        places.len(),
        |i: int|
            Slot {
                skin_id: pool[places[i]].skin.id@,
                float: Some(pool[places[i]].listing.float_value),
            },
    )
}

/// The place of the first outcome with the given id.
pub open spec fn outcome_place(outcomes: Seq<Entry<Skin>>, id: Seq<char>) -> Option<int>
    decreases outcomes.len(),
{
    if outcomes.len() == 0 {
        None
    } else {
        match outcome_place(outcomes.drop_last(), id) {
            Some(place) => Some(place),
            None => if outcomes.last().item.id@ == id {
                Some(outcomes.len() - 1)
            } else {
                None
            },
        }
    }
}

/// Why a planned contract does not yield the target, if so.
pub open spec fn outcome_failure(
    skins: Seq<Skin>,
    slots: Seq<Slot>,
    stattrak: bool,
    target: Skin,
) -> Option<Failure> {
    match contract_failure(skins, 10, slots, stattrak) {
        Some(failure) => Some(failure),
        None => if outcome_place(contract_outcomes(skins, slots), target.id@) is None {
            Some(Failure::Catalog("target missing from its own contract outcomes"@))
        } else {
            None
        },
    }
}

/// The outcome that a planned contract is meant for.
pub open spec fn target_entry(skins: Seq<Skin>, slots: Seq<Slot>, target: Skin) -> Entry<Skin> {
    contract_outcomes(skins, slots)[outcome_place(
        contract_outcomes(skins, slots),
        target.id@,
    )->0]
}

/// The first input skin that exists in the wanted variant.
pub open spec fn first_compatible(pool: Seq<Skin>, stattrak: bool) -> Option<Skin>
    decreases pool.len(),
{
    if pool.len() == 0 {
        None
    } else {
        match first_compatible(pool.drop_last(), stattrak) {
            Some(skin) => Some(skin),
            None => if !stattrak || pool.last().stattrak_supported {
                Some(pool.last())
            } else {
                None
            },
        }
    }
}

/// The adjusted float that each open slot would need, within its bounds.
pub open spec fn ideal_share(skins: Seq<Skin>, request: PlanRequest) -> Float32 {
    clamped(
        quotient(
            missing_sum(aimed_share(skins, request), owned_shares(skins, request)),
            of_count(open_slots(request)),
        ),
        zero(),
        Float32 { bits: ONE_BITS },
    )
}

/// The skin that ideal slots are filled with.
pub open spec fn ideal_skin(skins: Seq<Skin>, request: PlanRequest) -> Skin {
    first_compatible(input_pool(skins, goal_skin(skins, request)), request.stattrak)->0
}

/// The slots of the contract that would reach the goal.
pub open spec fn ideal_slots(skins: Seq<Skin>, request: PlanRequest) -> Seq<Slot> {
    let skin = ideal_skin(skins, request);
    slots_of(request.owned_inputs@) + Seq::new(
        open_slots(request),
        |i: int|
            Slot {
                skin_id: skin.id@,
                float: Some(predicted_output(ideal_share(skins, request), skin)),
            },
    )
}

/// Whether the open slots have to be filled with computed floats.
pub open spec fn is_ideal(
    skins: Seq<Skin>,
    listings: Seq<FixtureListing>,
    request: PlanRequest,
) -> bool {
    candidate_pool(skins, listings, request).len() == 0 && open_slots(request) > 0
}

/// Why no ideal contract exists, if none does.
pub open spec fn ideal_failure(skins: Seq<Skin>, request: PlanRequest) -> Option<Failure> {
    let target = goal_skin(skins, request);
    if first_compatible(input_pool(skins, target), request.stattrak) is None {
        Some(Failure::Validation("no StatTrak-compatible inputs exist for this path"@))
    } else {
        outcome_failure(skins, ideal_slots(skins, request), request.stattrak, target)
    }
}

/// Why a request cannot be planned, if so.
pub open spec fn plan_failure(
    skins: Seq<Skin>,
    listings: Seq<FixtureListing>,
    request: PlanRequest,
) -> Option<Failure> {
    let pool = candidate_pool(skins, listings, request);
    if goal_failure(skins, request) is Some {
        goal_failure(skins, request)
    } else if inputs_failure(skins, request) is Some {
        inputs_failure(skins, request)
    } else if is_ideal(skins, listings, request) {
        ideal_failure(skins, request)
    } else if open_slots(request) > pool.len() {
        Some(
            Failure::Validation(
                "only "@ + decimal(pool.len()) + " usable fixture listings are available for "@
                    + decimal(open_slots(request)) + " missing slots"@,
            ),
        )
    } else {
        match best_plan(skins, listings, request) {
            None => Some(Failure::Validation("no candidate combination could be selected"@)),
            Some(plan) => outcome_failure(
                skins,
                planned_slots(request.owned_inputs@, pool, plan.places),
                request.stattrak,
                goal_skin(skins, request),
            ),
        }
    }
}

/// How well an output meets what was asked for.
pub open spec fn plan_status(
    target: TargetConstraint,
    within: bool,
    predicted: Float32,
) -> Seq<char> {
    if !within {
        "closest"@
    } else if target matches TargetConstraint::Exact { value } && predicted == value {
        "exact"@
    } else {
        "within_tolerance"@
    }
}

pub open spec fn describes_owned(
    shown: PlannedListing,
    place: int,
    skin: Skin,
    float: Float32,
) -> bool {
    &&& shown.slot == place + 1
    &&& shown.listing_id is None
    &&& shown.source@ == "owned"@
    &&& shown.skin_id@ == skin.id@
    &&& shown.skin_name@ == skin.name@
    &&& reports(shown.float_value, float)
    &&& reports(shown.adjusted_float, adjusted(float, skin))
    &&& shown.price_cents is None
    &&& shown.market_url is None
    &&& shown.inspect_link is None
    &&& shown.owned
}

pub open spec fn describes_choice(
    shown: PlannedListing,
    place: int,
    candidate: Candidate<'_>,
) -> bool {
    &&& shown.slot == place + 1
    &&& shown.listing_id == Some(candidate.listing.id)
    &&& shown.source@ == candidate.listing.source@
    &&& shown.skin_id@ == candidate.skin.id@
    &&& shown.skin_name@ == candidate.skin.name@
    &&& reports(shown.float_value, candidate.listing.float_value)
    &&& reports(shown.adjusted_float, candidate.adjusted)
    &&& shown.price_cents == Some(candidate.listing.price_cents)
    &&& shown.market_url == Some(candidate.listing.market_url)
    &&& shown.inspect_link == candidate.listing.inspect_link
    &&& !shown.owned
}

pub open spec fn describes_ideal(
    shown: PlannedListing,
    place: int,
    skin: Skin,
    float: Float32,
    share: Float32,
) -> bool {
    &&& shown.slot == place + 1
    &&& shown.listing_id is None
    &&& shown.source@ == "ideal_math"@
    &&& shown.skin_id@ == skin.id@
    &&& shown.skin_name@ == skin.name@
    &&& reports(shown.float_value, float)
    &&& reports(shown.adjusted_float, share)
    &&& shown.price_cents is None
    &&& shown.market_url is None
    &&& shown.inspect_link is None
    &&& !shown.owned
}

/// The owned items come first and keep their slots.
pub open spec fn keeps_owned(
    rows: Seq<PlannedListing>,
    skins: Seq<Skin>,
    owned: Seq<InputRequest>,
) -> bool {
    &&& rows.len() >= owned.len()
    &&& forall|i: int|
        0 <= i < owned.len() ==> describes_owned(
            #[trigger] rows[i],
            i,
            slot_skin(skins, slot_of(owned[i])),
            owned[i].float_value,
        )
}

/// What every plan says of its goal.
pub open spec fn describes_goal(r: PlanResponse, skins: Seq<Skin>, request: PlanRequest) -> bool {
    let target = goal_skin(skins, request);
    let aim = goal_aim(skins, request);
    &&& r.target_skin == target
    &&& reports(r.target_adjusted, aimed_share(skins, request))
    &&& reports(r.acceptable_output_range@[0], aim.low)
    &&& reports(r.acceptable_output_range@[1], aim.high)
    &&& r.contract_size == 10
    &&& r.candidate_input_skins@ == input_pool(skins, target)
}

/// What every plan says of the contract it proposes.
pub open spec fn describes_yield(
    r: PlanResponse,
    skins: Seq<Skin>,
    slots: Seq<Slot>,
    target: Skin,
) -> bool {
    let entry = target_entry(skins, slots, target);
    &&& describes_outcomes(r.all_outcomes@, skins, slots)
    &&& r.target_probability@ == percent(
        outcome_probability(skins, entry, yielded_rarity(skins, slots), slots.len()),
    )
    &&& describes_wear(
        r.target_wear,
        predicted_output(contract_average(skins, slots), entry.item),
    )
}

/// Whether all chosen listings come from the Steam Community Market.
pub open spec fn from_market(pool: Seq<Candidate<'_>>, places: Seq<int>) -> bool {
    forall|i: int|
        0 <= i < places.len() ==> pool[#[trigger] places[i]].listing.source@
            == "steam_community_market"@
}

pub open spec fn plan_message(status: Seq<char>, market: bool) -> Seq<char> {
    if status == "exact"@ {
        "Найден bit-exact float32 результат для выбранной цели."@
    } else if status == "within_tolerance"@ {
        if market {
            "Найден набор активных лотов Steam Community Market в допустимом диапазоне."@
        } else {
            "Найден самый дешёвый набор доступных лотов в допустимом диапазоне."@
        }
    } else {
        "Набора в допустимом диапазоне нет; показан ближайший из доступных лотов."@
    }
}

pub open spec fn plan_warnings(market: bool) -> Seq<Seq<char>> {
    seq![
        if market {
            "Steam Community Market listing содержит цену покупателя с комиссией, ссылку на Market, inspect link и exact raw float на момент чтения HTML; перед покупкой проверьте актуальный статус лота."@
        } else {
            "fixture означает, что это детерминированный тестовый лот, а не проверяемое объявление Steam Market."@
        },
        "delta применяется как допустимое отклонение результата от цели; формула и все промежуточные операции — float32."@,
    ]
}

/// How the search went about it.
pub open spec fn plan_optimizer(pool: nat) -> Seq<char> {
    if pool <= EXACT_POOL {
        "exact combination enumeration over the available listing pool"@
    } else {
        "bounded beam search over "@ + decimal(pool) + " listings (beam width 4096)"@
    }
}

/// `r` proposes the listings that the search settled on.
pub open spec fn describes_plan(
    r: PlanResponse,
    skins: Seq<Skin>,
    listings: Seq<FixtureListing>,
    request: PlanRequest,
) -> bool {
    let pool = candidate_pool(skins, listings, request);
    let plan = best_plan(skins, listings, request)->0;
    let owned = request.owned_inputs@;
    &&& describes_goal(r, skins, request)
    &&& r.status@ == plan_status(request.target, plan.within, plan.predicted)
    &&& r.message@ == plan_message(r.status@, from_market(pool, plan.places))
    &&& keeps_owned(r.selected_inputs@, skins, owned)
    &&& r.selected_inputs@.len() == owned.len() + plan.places.len()
    &&& forall|i: int|
        0 <= i < plan.places.len() ==> describes_choice(
            #[trigger] r.selected_inputs@[owned.len() + i],
            owned.len() + i,
            pool[plan.places[i]],
        )
    &&& r.total_price_cents == plan.price
    &&& r.pricing_available
    &&& reports(r.predicted_target_float, plan.predicted)
    &&& reports(r.target_distance, plan.distance)
    &&& describes_yield(
        r,
        skins,
        planned_slots(owned, pool, plan.places),
        goal_skin(skins, request),
    )
    &&& r.optimizer@ == plan_optimizer(pool.len())
    &&& texts(r.warnings@) == plan_warnings(from_market(pool, plan.places))
}

pub open spec fn ideal_warnings() -> Seq<Seq<char>> {
    seq![
        "Слоты ideal_math задают требуемые exact float, а не существующие рыночные предметы."@,
        "Подключите provider, который возвращает конкретный listing, inspect payload и exact float, чтобы оптимизировать цену и выдать ссылки на покупку."@,
        "delta применяется к результату; все промежуточные операции выполняются как последовательные float32."@,
    ]
}

/// `r` proposes computed floats for the open slots.
pub open spec fn describes_ideal_plan(
    r: PlanResponse,
    skins: Seq<Skin>,
    request: PlanRequest,
) -> bool {
    let owned = request.owned_inputs@;
    let skin = ideal_skin(skins, request);
    let share = ideal_share(skins, request);
    let slots = ideal_slots(skins, request);
    let target = goal_skin(skins, request);
    let aim = goal_aim(skins, request);
    let predicted = predicted_output(
        contract_average(skins, slots),
        target_entry(skins, slots, target).item,
    );
    let within = not_above(aim.low, predicted) && not_above(predicted, aim.high);
    &&& describes_goal(r, skins, request)
    &&& r.status@ == plan_status(request.target, within, predicted)
    &&& r.message@ == if within {
        "Построен идеальный математический контракт; реальные лоты для его покупки ещё не подключены."@
    } else {
        "С текущими owned-предметами цель недостижима: показан ближайший математический контракт."@
    }
    &&& keeps_owned(r.selected_inputs@, skins, owned)
    &&& r.selected_inputs@.len() == 10
    &&& forall|i: int|
        owned.len() <= i < 10 ==> describes_ideal(
            #[trigger] r.selected_inputs@[i],
            i,
            skin,
            predicted_output(share, skin),
            share,
        )
    &&& r.total_price_cents == 0
    &&& !r.pricing_available
    &&& reports(r.predicted_target_float, predicted)
    &&& reports(r.target_distance, absolute(difference(predicted, aim.center)))
    &&& describes_yield(r, skins, slots, target)
    &&& r.optimizer@
        == "analytical float32 construction; no purchasable listing provider is configured"@
    &&& texts(r.warnings@) == ideal_warnings()
}

/// Keeps the listings that can fill a slot.
fn pick_candidates<'a>(
    catalog: &'a Catalog,
    offers: &Vec<&'a FixtureListing>,
    stattrak: bool,
) -> (r: Vec<Candidate<'a>>)
    ensures
        r@ == usable_offers(catalog.skins(), plain(offers@), stattrak),
{
    let mut r: Vec<Candidate<'a>> = Vec::new();
    let ghost all = plain(offers@);
    let mut i: usize = 0;
    proof {
        assert(all.take(0) =~= Seq::empty());
    }
    while i < offers.len()
        invariant
            i <= offers@.len(),
            all == plain(offers@),
            r@ == usable_offers(catalog.skins(), all.take(i as int), stattrak),
        decreases offers.len() - i,
    {
        let listing: &'a FixtureListing = offers[i];
        proof {
            assert(all.take(i + 1).drop_last() =~= all.take(i as int));
            assert(all.take(i + 1).last() == *listing);
        }
        if let Some(skin) = catalog.skin(listing.skin_id.as_str()) {
            if !stattrak || skin.stattrak_supported {
                if let Ok(share) = adjusted_float(listing.float_value, skin) {
                    r.push(Candidate { listing, skin, adjusted: share });
                }
            }
        }
        i = i + 1;
    }
    proof {
        assert(all.take(i as int) =~= all);
    }
    r
}

/// The ids of skins.
fn ids_of_skins(skins: &Vec<&Skin>) -> (r: Vec<String>)
    ensures
        texts(r@) == skin_ids(plain(skins@)),
{
    let mut r: Vec<String> = Vec::new();
    let mut i: usize = 0;
    while i < skins.len()
        invariant
            i <= skins@.len(),
            r@.len() == i,
            forall|j: int| 0 <= j < i ==> (#[trigger] r@[j])@ == skins@[j].id@,
        decreases skins.len() - i,
    {
        r.push(skins[i].id.clone());
        i = i + 1;
    }
    proof {
        assert(texts(r@) =~= skin_ids(plain(skins@)));
    }
    r
}

/// Whether a text is among others.
pub(crate) fn contains_text(list: &Vec<String>, text: &str) -> (r: bool)
    ensures
        r == texts(list@).contains(text@),
{
    let mut i: usize = 0;
    while i < list.len()
        invariant
            i <= list@.len(),
            forall|j: int| 0 <= j < i ==> (#[trigger] list@[j])@ != text@,
        decreases list.len() - i,
    {
        if same_text(list[i].as_str(), text) {
            proof {
                assert(texts(list@)[i as int] == text@);
            }
            return true;
        }
        i = i + 1;
    }
    proof {
        if texts(list@).contains(text@) {
            let j = choose|j: int| 0 <= j < texts(list@).len() && texts(list@)[j] == text@;
            assert(list@[j]@ == text@);
        }
    }
    false
}

/// Whether every owned item is one of the valid inputs.
fn all_fit(owned: &Vec<ResolvedInput<'_>>, ids: &Vec<String>) -> (r: bool)
    ensures
        r == forall|i: int|
            0 <= i < owned@.len() ==> texts(ids@).contains((#[trigger] owned@[i]).skin.id@),
{
    let mut i: usize = 0;
    while i < owned.len()
        invariant
            i <= owned@.len(),
            forall|j: int|
                0 <= j < i ==> texts(ids@).contains((#[trigger] owned@[j]).skin.id@),
        decreases owned.len() - i,
    {
        if !contains_text(ids, owned[i].skin.id.as_str()) {
            proof {
                assert(!texts(ids@).contains(owned@[i as int].skin.id@));
            }
            return false;
        }
        i = i + 1;
    }
    true
}

/// The rows of the owned items.
fn owned_rows(
    owned: &Vec<ResolvedInput<'_>>,
    Ghost(skins): Ghost<Seq<Skin>>,
    Ghost(inputs): Ghost<Seq<InputRequest>>,
) -> (r: Vec<PlannedListing>)
    requires
        owned@.len() <= 10,
        resolves(owned@, skins, inputs),
    ensures
        r@.len() == inputs.len(),
        keeps_owned(r@, skins, inputs),
{
    let mut r: Vec<PlannedListing> = Vec::new();
    let mut i: usize = 0;
    while i < owned.len()
        invariant
            i <= owned@.len() <= 10,
            resolves(owned@, skins, inputs),
            r@.len() == i,
            forall|j: int|
                0 <= j < i ==> describes_owned(
                    #[trigger] r@[j],
                    j,
                    slot_skin(skins, slot_of(inputs[j])),
                    inputs[j].float_value,
                ),
        decreases owned.len() - i,
    {
        let input: &ResolvedInput<'_> = &owned[i];
        proof {
            assert(owned@[i as int].float_value == inputs[i as int].float_value);
        }
        r.push(
            PlannedListing {
                slot: i + 1,
                listing_id: None,
                source: "owned".to_owned(),
                skin_id: input.skin.id.clone(),
                skin_name: input.skin.name.clone(),
                float_value: Float32Value::new(input.float_value),
                adjusted_float: Float32Value::new(adjusted_share(input.float_value, input.skin)),
                price_cents: None,
                market_url: None,
                inspect_link: None,
                owned: true,
            },
        );
        i = i + 1;
    }
    r
}

/// Finds an outcome by its id.
pub(crate) fn find_outcome(
    outcomes: &Vec<OutcomeAnalysis>,
    id: &str,
    Ghost(skins): Ghost<Seq<Skin>>,
    Ghost(slots): Ghost<Seq<Slot>>,
) -> (r: Option<usize>)
    requires
        describes_outcomes(outcomes@, skins, slots),
    ensures
        match r {
            Some(place) => place < outcomes@.len() && outcome_place(
                contract_outcomes(skins, slots),
                id@,
            ) == Some(place as int),
            None => outcome_place(contract_outcomes(skins, slots), id@) is None,
        },
{
    let ghost entries = contract_outcomes(skins, slots);
    let mut i: usize = 0;
    proof {
        assert(entries.take(0) =~= Seq::empty());
    }
    while i < outcomes.len()
        invariant
            i <= outcomes@.len(),
            entries == contract_outcomes(skins, slots),
            describes_outcomes(outcomes@, skins, slots),
            outcome_place(entries.take(i as int), id@) is None,
        decreases outcomes.len() - i,
    {
        proof {
            assert(entries.take(i + 1).drop_last() =~= entries.take(i as int));
            assert(outcomes@[i as int].skin_id@ == entries[i as int].item.id@);
        }
        if same_text(outcomes[i].skin_id.as_str(), id) {
            proof {
                lemma_place_persists(entries, id@, i + 1);
            }
            return Some(i);
        }
        i = i + 1;
    }
    proof {
        assert(entries.take(i as int) =~= entries);
    }
    None
}

proof fn lemma_place_persists(entries: Seq<Entry<Skin>>, id: Seq<char>, n: int)
    requires
        0 <= n <= entries.len(),
    ensures
        outcome_place(entries.take(n), id) is Some ==> outcome_place(entries, id)
            == outcome_place(entries.take(n), id),
    decreases entries.len(),
{
    if n < entries.len() {
        lemma_place_persists(entries.drop_last(), id, n);
        assert(entries.drop_last().take(n) =~= entries.take(n));
    } else {
        assert(entries.take(n) =~= entries);
    }
}

/// Analyzes a planned contract and finds its target.
fn analyze_planned(
    catalog: &Catalog,
    inputs: Vec<InputRequest>,
    stattrak: bool,
    target: &Skin,
) -> (r: Result<(AnalyzeResponse, usize), PlannerError>)
    requires
        inputs@.len() == 10,
    ensures
        match r {
            Ok((analysis, place)) => {
                let skins = catalog.skins();
                let slots = slots_of(inputs@);
                &&& outcome_failure(skins, slots, stattrak, *target) is None
                &&& describes_outcomes(analysis.outcomes@, skins, slots)
                &&& place < analysis.outcomes@.len()
                &&& outcome_place(contract_outcomes(skins, slots), target.id@) == Some(
                    place as int,
                )
            },
            Err(error) => outcome_failure(
                catalog.skins(),
                slots_of(inputs@),
                stattrak,
                *target,
            ) == Some(error@),
        },
{
    let ghost slots = slots_of(inputs@);
    match analyze_contract(catalog, AnalyzeRequest { contract_size: 10, stattrak, inputs }) {
        Ok(analysis) => match find_outcome(
            &analysis.outcomes,
            target.id.as_str(),
            Ghost(catalog.skins()),
            Ghost(slots),
        ) {
            Some(place) => Ok((analysis, place)),
            None => Err(
                PlannerError::Catalog("target missing from its own contract outcomes".to_owned()),
            ),
        },
        Err(error) => Err(error),
    }
}

/// The word for how well an output meets what was asked for.
fn status_text(target: &TargetConstraint, within: bool, predicted: Float32) -> (r: &'static str)
    ensures
        r@ == plan_status(*target, within, predicted),
{
    if !within {
        return "closest";
    }
    match *target {
        TargetConstraint::Exact { value } => if predicted.to_bits() == value.to_bits() {
            "exact"
        } else {
            "within_tolerance"
        },
        _ => "within_tolerance",
    }
}

/// Copies of the owned inputs.
pub(crate) fn copy_inputs(inputs: &Vec<InputRequest>) -> (r: Vec<InputRequest>)
    ensures
        r@ == inputs@,
{
    let mut r: Vec<InputRequest> = Vec::new();
    let mut i: usize = 0;
    while i < inputs.len()
        invariant
            i <= inputs@.len(),
            r@ == inputs@.take(i as int),
        decreases inputs.len() - i,
    {
        r.push(inputs[i].clone());
        proof {
            assert(r@ =~= inputs@.take(i + 1));
        }
        i = i + 1;
    }
    proof {
        assert(inputs@.take(i as int) =~= inputs@);
    }
    r
}

fn copy_skins(skins: &Vec<&Skin>) -> (r: Vec<Skin>)
    ensures
        r@ == plain(skins@),
{
    let mut r: Vec<Skin> = Vec::new();
    let mut i: usize = 0;
    while i < skins.len()
        invariant
            i <= skins@.len(),
            r@ == plain(skins@).take(i as int),
        decreases skins.len() - i,
    {
        r.push(skins[i].clone());
        proof {
            assert(r@ =~= plain(skins@).take(i + 1));
        }
        i = i + 1;
    }
    proof {
        assert(plain(skins@).take(i as int) =~= plain(skins@));
    }
    r
}

/// The first input skin that exists in the wanted variant.
fn find_compatible<'a>(pool: &Vec<&'a Skin>, stattrak: bool) -> (r: Option<&'a Skin>)
    ensures
        match r {
            Some(skin) => first_compatible(plain(pool@), stattrak) == Some(*skin),
            None => first_compatible(plain(pool@), stattrak) is None,
        },
{
    let ghost all = plain(pool@);
    let mut i: usize = 0;
    proof {
        assert(all.take(0) =~= Seq::empty());
    }
    while i < pool.len()
        invariant
            i <= pool@.len(),
            all == plain(pool@),
            first_compatible(all.take(i as int), stattrak) is None,
        decreases pool.len() - i,
    {
        proof {
            assert(all.take(i + 1).drop_last() =~= all.take(i as int));
        }
        if !stattrak || pool[i].stattrak_supported {
            proof {
                lemma_compatible_persists(all, stattrak, i + 1);
            }
            return Some(pool[i]);
        }
        i = i + 1;
    }
    proof {
        assert(all.take(i as int) =~= all);
    }
    None
}

proof fn lemma_compatible_persists(pool: Seq<Skin>, stattrak: bool, n: int)
    requires
        0 <= n <= pool.len(),
    ensures
        first_compatible(pool.take(n), stattrak) is Some ==> first_compatible(pool, stattrak)
            == first_compatible(pool.take(n), stattrak),
    decreases pool.len(),
{
    if n < pool.len() {
        lemma_compatible_persists(pool.drop_last(), stattrak, n);
        assert(pool.drop_last().take(n) =~= pool.take(n));
    } else {
        assert(pool.take(n) =~= pool);
    }
}

/// A request whose goal and owned items have been accepted.
#[derive(Debug)]
struct Goal<'a> {
    aim: Aim<'a>,
    share: Float32,
    input_skins: Vec<&'a Skin>,
    owned: Vec<ResolvedInput<'a>>,
}

spec fn goal_ready(goal: Goal<'_>, skins: Seq<Skin>, request: PlanRequest) -> bool {
    &&& goal.aim == goal_aim(skins, request)
    &&& goal.share == aimed_share(skins, request)
    &&& plain(goal.input_skins@) == input_pool(skins, goal_skin(skins, request))
    &&& resolves(goal.owned@, skins, request.owned_inputs@)
    &&& request.owned_inputs@.len() <= 10
}

/// Checks the goal and the owned items of a request.
fn prepare<'a>(catalog: &'a Catalog, request: &PlanRequest) -> (r: Result<Goal<'a>, PlannerError>)
    requires
        plan_defined(catalog.skins(), *request),
    ensures
        match r {
            Ok(goal) => {
                &&& goal_failure(catalog.skins(), *request) is None
                &&& inputs_failure(catalog.skins(), *request) is None
                &&& goal_ready(goal, catalog.skins(), *request)
            },
            Err(error) => if goal_failure(catalog.skins(), *request) is Some {
                goal_failure(catalog.skins(), *request) == Some(error@)
            } else {
                inputs_failure(catalog.skins(), *request) == Some(error@)
            },
        },
{
    let ghost skins = catalog.skins();
    let target: &Skin = match find_goal(catalog, request) {
        Ok(target) => target,
        Err(error) => {
            return Err(error);
        },
    };
    let (low, high, center) = match request.target.requested_bounds(
        request.delta,
        target.min_float,
        target.max_float,
    ) {
        Ok(bounds) => bounds,
        Err(error) => {
            return Err(error);
        },
    };
    let share: Float32 = match adjusted_float(center, target) {
        Ok(share) => share,
        Err(error) => {
            return Err(error);
        },
    };
    let input_skins: Vec<&Skin> = catalog.input_skins_for_target(target);
    proof {
        assert(plain(input_skins@).len() == input_skins@.len());
    }
    if input_skins.len() == 0 {
        return Err(
            PlannerError::Validation(
                join2("no Some(Classified) inputs are known for ", target.name.as_str()),
            ),
        );
    }
    let owned: Vec<ResolvedInput<'_>> = match resolve_inputs(
        catalog,
        &request.owned_inputs,
        request.stattrak,
    ) {
        Ok(owned) => owned,
        Err(error) => {
            return Err(error);
        },
    };
    let ids: Vec<String> = ids_of_skins(&input_skins);
    let fit: bool = all_fit(&owned, &ids);
    proof {
        let inputs = request.owned_inputs@;
        assert(fit == owned_fit(skins, inputs, *target)) by {
            assert forall|i: int| 0 <= i < inputs.len() implies slot_skin(
                skins,
                slot_of(#[trigger] inputs[i]),
            ) == *owned@[i].skin by {
                assert(owned@[i].float_value == inputs[i].float_value);
            }
            if fit {
                assert forall|i: int| 0 <= i < inputs.len() implies skin_ids(
                    input_pool(skins, *target),
                ).contains(slot_skin(skins, slot_of(#[trigger] inputs[i])).id@) by {
                    assert(texts(ids@).contains(owned@[i].skin.id@));
                }
            } else {
                let i = choose|i: int|
                    0 <= i < owned@.len() && !texts(ids@).contains(
                        (#[trigger] owned@[i]).skin.id@,
                    );
                assert(slot_skin(skins, slot_of(inputs[i])) == *owned@[i].skin);
            }
        }
    }
    if !fit {
        return Err(
            PlannerError::Validation(
                join2(
                    "owned items must be Some(Classified) from ",
                    target.collection_name.as_str(),
                ),
            ),
        );
    }
    if owned.len() > 10 {
        return Err(
            PlannerError::Validation(
                "a standard contract cannot contain more than 10 owned inputs".to_owned(),
            ),
        );
    }
    Ok(Goal { aim: Aim { target, low, high, center }, share, input_skins, owned })
}

/// What a plan says beyond its goal and its yield.
#[derive(Debug)]
struct Proposal {
    status: String,
    message: String,
    rows: Vec<PlannedListing>,
    total_price_cents: u64,
    pricing_available: bool,
    predicted: Float32,
    distance: Float32,
    optimizer: String,
    warnings: Vec<String>,
}

/// Puts a response together.
fn respond(
    goal: &Goal<'_>,
    analysis: AnalyzeResponse,
    place: usize,
    proposal: Proposal,
    Ghost(skins): Ghost<Seq<Skin>>,
    Ghost(request): Ghost<PlanRequest>,
    Ghost(slots): Ghost<Seq<Slot>>,
) -> (r: PlanResponse)
    requires
        goal_ready(*goal, skins, request),
        slots.len() == 10,
        describes_outcomes(analysis.outcomes@, skins, slots),
        place < analysis.outcomes@.len(),
        outcome_place(contract_outcomes(skins, slots), goal_skin(skins, request).id@) == Some(
            place as int,
        ),
    ensures
        describes_goal(r, skins, request),
        describes_yield(r, skins, slots, goal_skin(skins, request)),
        r.status == proposal.status,
        r.message == proposal.message,
        r.selected_inputs == proposal.rows,
        r.total_price_cents == proposal.total_price_cents,
        r.pricing_available == proposal.pricing_available,
        reports(r.predicted_target_float, proposal.predicted),
        reports(r.target_distance, proposal.distance),
        r.optimizer == proposal.optimizer,
        r.warnings == proposal.warnings,
{
    let outcome: &OutcomeAnalysis = &analysis.outcomes[place];
    let target_probability: String = outcome.probability_percent.clone();
    let target_wear: WearInfo = outcome.wear.clone();
    PlanResponse {
        status: proposal.status,
        message: proposal.message,
        target_skin: goal.aim.target.clone(),
        target_adjusted: Float32Value::new(goal.share),
        acceptable_output_range: [
            Float32Value::new(goal.aim.low),
            Float32Value::new(goal.aim.high),
        ],
        contract_size: 10,
        target_probability,
        candidate_input_skins: copy_skins(&goal.input_skins),
        selected_inputs: proposal.rows,
        total_price_cents: proposal.total_price_cents,
        pricing_available: proposal.pricing_available,
        predicted_target_float: Float32Value::new(proposal.predicted),
        target_distance: Float32Value::new(proposal.distance),
        target_wear,
        all_outcomes: analysis.outcomes,
        optimizer: proposal.optimizer,
        warnings: proposal.warnings,
    }
}

/// Adds rows with a computed float until the contract is full.
fn ideal_rows(
    owned: Vec<PlannedListing>,
    skin: &Skin,
    float: Float32,
    share: Float32,
    Ghost(skins): Ghost<Seq<Skin>>,
    Ghost(inputs): Ghost<Seq<InputRequest>>,
) -> (rows: Vec<PlannedListing>)
    requires
        owned@.len() == inputs.len(),
        inputs.len() <= 10,
        keeps_owned(owned@, skins, inputs),
    ensures
        rows@.len() == 10,
        keeps_owned(rows@, skins, inputs),
        forall|i: int|
            inputs.len() <= i < 10 ==> describes_ideal(
                #[trigger] rows@[i],
                i,
                *skin,
                float,
                share,
            ),
{
    let mut rows: Vec<PlannedListing> = owned;
    while rows.len() < 10
        invariant
            inputs.len() <= rows@.len() <= 10,
            keeps_owned(rows@, skins, inputs),
            forall|i: int|
                inputs.len() <= i < rows@.len() ==> describes_ideal(
                    #[trigger] rows@[i],
                    i,
                    *skin,
                    float,
                    share,
                ),
        decreases 10 - rows@.len(),
    {
        let ghost before = rows@;
        let slot: usize = rows.len() + 1;
        rows.push(
            PlannedListing {
                slot,
                listing_id: None,
                source: "ideal_math".to_owned(),
                skin_id: skin.id.clone(),
                skin_name: skin.name.clone(),
                float_value: Float32Value::new(float),
                adjusted_float: Float32Value::new(share),
                price_cents: None,
                market_url: None,
                inspect_link: None,
                owned: false,
            },
        );
        proof {
            assert forall|i: int| 0 <= i < inputs.len() implies describes_owned(
                #[trigger] rows@[i],
                i,
                slot_skin(skins, slot_of(inputs[i])),
                inputs[i].float_value,
            ) by {
                assert(rows@[i] == before[i]);
            }
        }
    }
    rows
}

/// The remarks under an ideal plan.
fn ideal_remarks() -> (r: Vec<String>)
    ensures
        texts(r@) == ideal_warnings(),
{
    let mut r: Vec<String> = Vec::new();
    r.push(
        "Слоты ideal_math задают требуемые exact float, а не существующие рыночные предметы.".to_owned(),
    );
    r.push(
        "Подключите provider, который возвращает конкретный listing, inspect payload и exact float, чтобы оптимизировать цену и выдать ссылки на покупку.".to_owned(),
    );
    r.push(
        "delta применяется к результату; все промежуточные операции выполняются как последовательные float32.".to_owned(),
    );
    proof {
        assert(texts(r@) =~= ideal_warnings());
    }
    r
}

/// The share that each open slot would need, within its bounds.
fn needed_share(goal: &Goal<'_>, Ghost(skins): Ghost<Seq<Skin>>, Ghost(request): Ghost<
    PlanRequest,
>) -> (r: Float32)
    requires
        goal_ready(*goal, skins, request),
    ensures
        r == ideal_share(skins, request),
{
    let shares: Vec<Float32> = resolved_shares(&goal.owned);
    proof {
        lemma_all_known(goal.owned@, skins, request.owned_inputs@);
    }
    let wanted: Float32 = f32_div(
        f32_sub(
            f32_mul(goal.share, Float32::from_bits(TEN_BITS)),
            sum_in_order(shares.as_slice()),
        ),
        Float32::from_count(10 - goal.owned.len()),
    );
    wanted.clamp(Float32::from_bits(0), Float32::from_bits(ONE_BITS))
}

/// Fills the open slots with computed floats.
fn ideal_reverse_plan(catalog: &Catalog, request: &PlanRequest, goal: &Goal<'_>) -> (r: Result<
    PlanResponse,
    PlannerError,
>)
    requires
        goal_ready(*goal, catalog.skins(), *request),
    ensures
        match r {
            Ok(response) => {
                &&& ideal_failure(catalog.skins(), *request) is None
                &&& describes_ideal_plan(response, catalog.skins(), *request)
            },
            Err(error) => ideal_failure(catalog.skins(), *request) == Some(error@),
        },
{
    let ghost skins = catalog.skins();
    let ghost slots = ideal_slots(skins, *request);
    let target: &Skin = goal.aim.target;
    let input_skin: &Skin = match find_compatible(&goal.input_skins, request.stattrak) {
        Some(skin) => skin,
        None => {
            return Err(
                PlannerError::Validation(
                    "no StatTrak-compatible inputs exist for this path".to_owned(),
                ),
            );
        },
    };
    let share: Float32 = needed_share(goal, Ghost(skins), Ghost(*request));
    let float: Float32 = output_float(share, input_skin);
    let inputs: Vec<InputRequest> = fill_inputs(
        &request.owned_inputs,
        input_skin,
        float,
        10 - goal.owned.len(),
    );
    proof {
        assert(slots_of(inputs@) =~= slots);
        assert(slots_of(inputs@).len() == inputs@.len());
    }
    let (analysis, place) = match analyze_planned(catalog, inputs, request.stattrak, target) {
        Ok(found) => found,
        Err(error) => {
            return Err(error);
        },
    };
    let predicted: Float32 = analysis.outcomes[place].predicted_float.value;
    proof {
        assert(predicted == predicted_output(
            contract_average(skins, slots),
            target_entry(skins, slots, *target).item,
        ));
    }
    let within: bool = goal.aim.low.at_most(predicted) && predicted.at_most(goal.aim.high);
    let rows: Vec<PlannedListing> = ideal_rows(
        owned_rows(&goal.owned, Ghost(skins), Ghost(request.owned_inputs@)),
        input_skin,
        float,
        share,
        Ghost(skins),
        Ghost(request.owned_inputs@),
    );
    let message: &str = if within {
        "Построен идеальный математический контракт; реальные лоты для его покупки ещё не подключены."
    } else {
        "С текущими owned-предметами цель недостижима: показан ближайший математический контракт."
    };
    let proposal: Proposal = Proposal {
        status: status_text(&request.target, within, predicted).to_owned(),
        message: message.to_owned(),
        rows,
        total_price_cents: 0,
        pricing_available: false,
        predicted,
        distance: f32_abs(f32_sub(predicted, goal.aim.center)),
        optimizer: "analytical float32 construction; no purchasable listing provider is configured".to_owned(),
        warnings: ideal_remarks(),
    };
    Ok(respond(goal, analysis, place, proposal, Ghost(skins), Ghost(*request), Ghost(slots)))
}

/// The owned inputs, followed by `required` inputs of one kind.
fn fill_inputs(owned: &Vec<InputRequest>, skin: &Skin, float: Float32, required: usize) -> (r: Vec<
    InputRequest,
>)
    ensures
        slots_of(r@) == slots_of(owned@) + Seq::new(
            required as nat,
            |i: int| Slot { skin_id: skin.id@, float: Some(float) },
        ),
{
    let mut r: Vec<InputRequest> = copy_inputs(owned);
    let mut i: usize = 0;
    let ghost one = Slot { skin_id: skin.id@, float: Some(float) };
    proof {
        assert(slots_of(r@) =~= slots_of(owned@) + Seq::new(0, |i: int| one));
    }
    while i < required
        invariant
            i <= required,
            one == (Slot { skin_id: skin.id@, float: Some(float) }),
            slots_of(r@) == slots_of(owned@) + Seq::new(i as nat, |i: int| one),
        decreases required - i,
    {
        let ghost before = r@;
        r.push(InputRequest { skin_id: skin.id.clone(), float_value: float, inspect_link: None });
        proof {
            assert(slots_of(r@) =~= slots_of(before).push(one));
            assert(slots_of(r@) =~= slots_of(owned@) + Seq::new((i + 1) as nat, |i: int| one));
        }
        i = i + 1;
    }
    proof {
        assert(slots_of(r@) =~= slots_of(owned@) + Seq::new(
            required as nat,
            |i: int| Slot { skin_id: skin.id@, float: Some(float) },
        ));
    }
    r
}

/// The candidates for the open slots of a request.
fn collect_candidates<'a>(catalog: &'a Catalog, request: &PlanRequest, goal: &Goal<'_>) -> (r: Vec<
    Candidate<'a>,
>)
    requires
        goal_ready(*goal, catalog.skins(), *request),
    ensures
        r@ == candidate_pool(catalog.skins(), catalog.listings(), *request),
{
    let ids: Vec<String> = ids_of_skins(&goal.input_skins);
    // The limit is per input skin: a marketplace provider may deliberately
    // collect a broad pool for every valid trade-up path.
    let limit: usize = match request.listing_limit {
        Some(n) => if n < 1 {
            1
        } else if n > LISTING_LIMIT {
            LISTING_LIMIT
        } else {
            n
        },
        None => LISTING_LIMIT,
    };
    let offers: Vec<&FixtureListing> = catalog.fixture_listings_for_skins(&ids, limit);
    pick_candidates(catalog, &offers, request.stattrak)
}

/// Searches the pool for the plan to propose.
fn choose_plan(
    goal: &Goal<'_>,
    candidates: &Vec<Candidate<'_>>,
    priority: PlanningPriority,
    Ghost(skins): Ghost<Seq<Skin>>,
    Ghost(listings): Ghost<Seq<FixtureListing>>,
    Ghost(request): Ghost<PlanRequest>,
) -> (r: Option<ChosenPlan>)
    requires
        goal_ready(*goal, skins, request),
        candidates@ == candidate_pool(skins, listings, request),
        open_slots(request) <= candidates@.len(),
        priority == request.priority,
    ensures
        plan_view(r) == best_plan(skins, listings, request),
{
    let required: usize = 10 - goal.owned.len();
    let shares: Vec<Float32> = resolved_shares(&goal.owned);
    proof {
        lemma_all_known(goal.owned@, skins, request.owned_inputs@);
    }
    if candidates.len() <= EXACT_POOL {
        search_combinations(goal.aim, &shares, candidates, required, priority)
    } else {
        search_combinations_beam(goal.aim, &shares, candidates, required, goal.share, priority)
    }
}

/// The plan that the search settles on is one of the choices it compared.
pub(crate) proof fn lemma_best_is_listed(plans: Seq<Plan>, priority: PlanningPriority)
    ensures
        best_over(None, plans, priority) matches Some(plan) ==> plans.contains(plan),
        best_over(None, plans, priority) is None <==> plans.len() == 0,
    decreases plans.len(),
{
    if plans.len() > 0 {
        let front = plans.drop_last();
        lemma_best_is_listed(front, priority);
        assert(plans[plans.len() - 1] == plans.last());
        if let Some(plan) = best_over(None, front, priority) {
            let i = choose|i: int| 0 <= i < front.len() && front[i] == plan;
            assert(plans[i] == plan);
        }
    }
}

/// A plan fills the contract: the owned inputs stay in front, and with the chosen
/// offers, no two of them the same, there are ten.
pub proof fn law_plan_keeps_owned(
    skins: Seq<Skin>,
    listings: Seq<FixtureListing>,
    request: PlanRequest,
)
    requires
        inputs_failure(skins, request) is None,
    ensures
        best_plan(skins, listings, request) matches Some(plan) ==> {
            let slots = planned_slots(
                request.owned_inputs@,
                candidate_pool(skins, listings, request),
                plan.places,
            );
            &&& slots.len() == 10
            &&& slots.take(request.owned_inputs@.len() as int) == slots_of(request.owned_inputs@)
            &&& plan.places.no_duplicates()
        },
{
    law_plan_selects(skins, listings, request);
}

/// Where there are enough candidates, there is a plan, as long as what the
/// choices cost stays within the machine range.
pub proof fn law_plan_exists(
    skins: Seq<Skin>,
    listings: Seq<FixtureListing>,
    request: PlanRequest,
)
    requires
        open_slots(request) <= candidate_pool(skins, listings, request).len(),
        prices_fit(candidate_pool(skins, listings, request), open_slots(request)),
    ensures
        best_plan(skins, listings, request) is Some,
{
    let pool = candidate_pool(skins, listings, request);
    let (n, k) = (pool.len() as int, open_slots(request) as int);
    if pool.len() <= EXACT_POOL {
        law_combinations(n, k, Seq::new(k as nat, |i: int| i));
    } else {
        law_beam_finds(
            pool,
            missing_sum(aimed_share(skins, request), owned_shares(skins, request)),
            k as nat,
            n,
            k as nat,
        );
    }
}

/// A candidate's skin is the one that its id leads to, and its share is the one
/// that the skin's caps give to a float that it can have.
pub(crate) proof fn lemma_candidate_known(
    skins: Seq<Skin>,
    offers: Seq<FixtureListing>,
    stattrak: bool,
    i: int,
)
    requires
        0 <= i < usable_offers(skins, offers, stattrak).len(),
    ensures
        ({
            let candidate = usable_offers(skins, offers, stattrak)[i];
            &&& find_skin(skins, candidate.skin.id@) == Some(*candidate.skin)
            &&& candidate.adjusted == adjusted(candidate.listing.float_value, *candidate.skin)
            &&& float_failure(candidate.listing.float_value, *candidate.skin) is None
            &&& candidate.skin.id@ == candidate.listing.skin_id@
            &&& stattrak ==> candidate.skin.stattrak_supported
            &&& offers.contains(*candidate.listing)
        }),
    decreases offers.len(),
{
    let front = usable_offers(skins, offers.drop_last(), stattrak);
    if i < front.len() {
        lemma_candidate_known(skins, offers.drop_last(), stattrak, i);
        assert(usable_offers(skins, offers, stattrak)[i] == front[i]);
        let k = choose|k: int|
            0 <= k < offers.len() - 1 && offers.drop_last()[k] == *front[i].listing;
        assert(offers[k] == *front[i].listing);
    } else {
        lemma_found(skins, offers.last().skin_id@);
        assert(offers[offers.len() - 1] == offers.last());
    }
}

/// Slots with known floats add their shares behind those before them.
pub(crate) proof fn lemma_shares_follow(
    skins: Seq<Skin>,
    slots: Seq<Slot>,
    pool: Seq<Candidate<'_>>,
    places: Seq<int>,
)
    requires
        forall|i: int|
            0 <= i < places.len() ==> {
                let candidate = pool[#[trigger] places[i]];
                &&& find_skin(skins, candidate.skin.id@) == Some(*candidate.skin)
                &&& candidate.adjusted == adjusted(candidate.listing.float_value, *candidate.skin)
            },
    ensures
        known_shares(skins, slots + chosen_slots(pool, places)) == known_shares(skins, slots)
            + chosen_shares(pool, places),
    decreases places.len(),
{
    let all = slots + chosen_slots(pool, places);
    if places.len() == 0 {
        assert(all =~= slots);
        assert(known_shares(skins, slots) + chosen_shares(pool, places) =~= known_shares(
            skins,
            slots,
        ));
    } else {
        let front = places.drop_last();
        assert forall|i: int| 0 <= i < front.len() implies {
            let candidate = pool[#[trigger] front[i]];
            &&& find_skin(skins, candidate.skin.id@) == Some(*candidate.skin)
            &&& candidate.adjusted == adjusted(candidate.listing.float_value, *candidate.skin)
        } by {
            assert(front[i] == places[i]);
        }
        lemma_shares_follow(skins, slots, pool, front);
        assert(all.drop_last() =~= slots + chosen_slots(pool, front));
        assert(places[places.len() - 1] == places.last());
        assert(known_shares(skins, slots) + chosen_shares(pool, places) =~= (known_shares(
            skins,
            slots,
        ) + chosen_shares(pool, front)).push(pool[places.last()].adjusted));
    }
}

/// What the search promises is what the analysis of the proposed contract predicts.
pub proof fn law_plan_agrees_with_analysis(
    skins: Seq<Skin>,
    listings: Seq<FixtureListing>,
    request: PlanRequest,
)
    requires
        inputs_failure(skins, request) is None,
    ensures
        best_plan(skins, listings, request) matches Some(plan) ==> plan.predicted
            == predicted_output(
            contract_average(
                skins,
                planned_slots(
                    request.owned_inputs@,
                    candidate_pool(skins, listings, request),
                    plan.places,
                ),
            ),
            goal_skin(skins, request),
        ),
{
    let pool = candidate_pool(skins, listings, request);
    let owned = slots_of(request.owned_inputs@);
    if let Some(plan) = best_plan(skins, listings, request) {
        law_plan_keeps_owned(skins, listings, request);
        law_plan_selects(skins, listings, request);
        let offers = stable_sorted(
            gathered(
                listings,
                skin_ids(input_pool(skins, goal_skin(skins, request))),
                offer_limit(request.listing_limit),
            ),
        );
        assert forall|i: int| 0 <= i < plan.places.len() implies {
            let candidate = pool[#[trigger] plan.places[i]];
            &&& find_skin(skins, candidate.skin.id@) == Some(*candidate.skin)
            &&& candidate.adjusted == adjusted(candidate.listing.float_value, *candidate.skin)
        } by {
            lemma_candidate_known(skins, offers, request.stattrak, plan.places[i]);
        }
        lemma_shares_follow(skins, owned, pool, plan.places);
        lemma_all_floats_known(skins, request.owned_inputs@);
        let choices = if pool.len() <= EXACT_POOL {
            combinations(pool.len() as int, open_slots(request) as int, 0)
        } else {
            beam_level(
                pool,
                missing_sum(aimed_share(skins, request), owned_shares(skins, request)),
                open_slots(request),
                pool.len() as int,
                open_slots(request),
            )
        };
        let plans = plans_of(
            goal_aim(skins, request),
            owned_shares(skins, request),
            pool,
            choices,
        );
        lemma_best_is_listed(plans, request.priority);
        let i = choose|i: int| 0 <= i < plans.len() && plans[i] == plan;
        assert(plans[i].places == choices[i]);
    }
}

/// Every complete input has its float.
pub(crate) proof fn lemma_all_floats_known(skins: Seq<Skin>, inputs: Seq<InputRequest>)
    ensures
        known_shares(skins, slots_of(inputs)).len() == inputs.len(),
    decreases inputs.len(),
{
    if inputs.len() > 0 {
        lemma_all_floats_known(skins, inputs.drop_last());
        assert(slots_of(inputs).drop_last() =~= slots_of(inputs.drop_last()));
    }
}

/// In a small pool no selection that could fill the open slots is preferred to
/// the plan that is proposed.
pub proof fn law_exact_plan_is_best(
    skins: Seq<Skin>,
    listings: Seq<FixtureListing>,
    request: PlanRequest,
    places: Seq<int>,
)
    requires
        candidate_pool(skins, listings, request).len() <= EXACT_POOL,
        is_selection(
            places,
            candidate_pool(skins, listings, request).len() as int,
            open_slots(request) as int,
            0,
        ),
        forall|other: Seq<int>|
            is_selection(
                other,
                candidate_pool(skins, listings, request).len() as int,
                open_slots(request) as int,
                0,
            ) ==> !(#[trigger] plan_of(
                goal_aim(skins, request),
                owned_shares(skins, request),
                candidate_pool(skins, listings, request),
                other,
            )).distance.nan(),
    ensures
        best_plan(skins, listings, request) matches Some(best) && !preferred(
            plan_of(
                goal_aim(skins, request),
                owned_shares(skins, request),
                candidate_pool(skins, listings, request),
                places,
            ),
            best,
            request.priority,
        ),
{
    let pool = candidate_pool(skins, listings, request);
    let (n, k) = (pool.len() as int, open_slots(request) as int);
    let choices = combinations(n, k, 0);
    let plans = plans_of(goal_aim(skins, request), owned_shares(skins, request), pool, choices);
    law_combinations(n, k, places);
    let i = choose|i: int| 0 <= i < choices.len() && choices[i] == places;
    assert forall|j: int| 0 <= j < plans.len() implies !(#[trigger] plans[j]).distance.nan() by {
        law_combinations(n, k, choices[j]);
        assert(choices.contains(choices[j]));
    }
    law_best_is_unbeaten(plans, request.priority, i);
}

/// The skins that an accepted id leads to are skins of the catalog.
pub(crate) proof fn lemma_spans_finite(skins: Seq<Skin>, id: Seq<char>)
    requires
        forall|i: int| 0 <= i < skins.len() ==> cap_span(#[trigger] skins[i]).finite(),
        find_skin(skins, id) is Some,
    ensures
        cap_span(find_skin(skins, id)->0).finite(),
{
    lemma_found(skins, id);
    let i = choose|i: int| 0 <= i < skins.len() && skins[i] == find_skin(skins, id)->0;
    assert(cap_span(skins[i]).finite());
}

/// The shares of owned items are shares, where the widths of all caps are finite.
pub(crate) proof fn lemma_owned_in_unit(skins: Seq<Skin>, request: PlanRequest)
    requires
        slots_failure(skins, slots_of(request.owned_inputs@), request.stattrak) is None,
        forall|i: int| 0 <= i < skins.len() ==> cap_span(#[trigger] skins[i]).finite(),
    ensures
        forall|i: int|
            0 <= i < owned_shares(skins, request).len() ==> in_unit(
                #[trigger] owned_shares(skins, request)[i],
            ),
{
    let slots = slots_of(request.owned_inputs@);
    assert forall|i: int| 0 <= i < slots.len() implies cap_span(
        slot_skin(skins, #[trigger] slots[i]),
    ).finite() by {
        lemma_slot_accepted(skins, slots, request.stattrak, i);
        lemma_spans_finite(skins, slots[i].skin_id);
    }
    lemma_shares_accepted(skins, slots, request.stattrak);
}

/// Every slot of accepted ones is accepted.
pub(crate) proof fn lemma_slot_accepted(skins: Seq<Skin>, slots: Seq<Slot>, stattrak: bool, i: int)
    requires
        slots_failure(skins, slots, stattrak) is None,
        0 <= i < slots.len(),
    ensures
        slot_failure(skins, slots[i], stattrak) is None,
    decreases slots.len(),
{
    if i < slots.len() - 1 {
        assert(slots.drop_last()[i] == slots[i]);
        lemma_slot_accepted(skins, slots.drop_last(), stattrak, i);
    }
}

/// The distance of a number to a finite one is a number.
proof fn lemma_distance_is_a_number(a: Float32, b: Float32)
    requires
        !a.nan(),
        b.finite(),
    ensures
        !absolute(difference(a, b)).nan(),
{
    assert(opposite(b).finite());
    if a.finite() {
        law_sum_is_nearest(a, opposite(b));
    } else {
        reveal(sum);
    }
}

/// Where the caps of the target are sound and the widths of all caps are finite,
/// every selection that fills the open slots has a distance to the goal.
pub proof fn law_distances_are_numbers(
    skins: Seq<Skin>,
    listings: Seq<FixtureListing>,
    request: PlanRequest,
    places: Seq<int>,
)
    requires
        goal_failure(skins, request) is None,
        inputs_failure(skins, request) is None,
        sound_caps(goal_skin(skins, request)),
        forall|i: int| 0 <= i < skins.len() ==> cap_span(#[trigger] skins[i]).finite(),
        is_selection(
            places,
            candidate_pool(skins, listings, request).len() as int,
            open_slots(request) as int,
            0,
        ),
    ensures
        !plan_of(
            goal_aim(skins, request),
            owned_shares(skins, request),
            candidate_pool(skins, listings, request),
            places,
        ).distance.nan(),
{
    let pool = candidate_pool(skins, listings, request);
    let owned = owned_shares(skins, request);
    let chosen = chosen_shares(pool, places);
    let all = owned + chosen;
    let target = goal_skin(skins, request);
    let offers = stable_sorted(
        gathered(
            listings,
            skin_ids(input_pool(skins, target)),
            offer_limit(request.listing_limit),
        ),
    );
    lemma_owned_in_unit(skins, request);
    lemma_all_floats_known(skins, request.owned_inputs@);
    assert forall|i: int| 0 <= i < all.len() implies in_unit(#[trigger] all[i]) by {
        if i < owned.len() {
            assert(all[i] == owned[i]);
        } else {
            let place = places[i - owned.len()];
            assert(all[i] == pool[place].adjusted);
            lemma_candidate_known(skins, offers, request.stattrak, place);
            lemma_spans_finite(skins, pool[place].skin.id@);
            law_adjusted_in_unit(pool[place].listing.float_value, *pool[place].skin);
        }
    }
    law_average_in_unit(all);
    lemma_spans_finite(skins, request.target_skin_id@);
    law_output_in_range(average(all, all.len()), target);
    lemma_distance_is_a_number(
        predicted_output(average(all, all.len()), target),
        goal_aim(skins, request).center,
    );
}

/// In a small pool of a sound catalog no selection that could fill the open slots is
/// preferred to the plan that is proposed.
pub proof fn law_sound_plan_is_best(
    skins: Seq<Skin>,
    listings: Seq<FixtureListing>,
    request: PlanRequest,
    places: Seq<int>,
)
    requires
        goal_failure(skins, request) is None,
        inputs_failure(skins, request) is None,
        sound_caps(goal_skin(skins, request)),
        forall|i: int| 0 <= i < skins.len() ==> cap_span(#[trigger] skins[i]).finite(),
        candidate_pool(skins, listings, request).len() <= EXACT_POOL,
        is_selection(
            places,
            candidate_pool(skins, listings, request).len() as int,
            open_slots(request) as int,
            0,
        ),
    ensures
        best_plan(skins, listings, request) matches Some(best) && !preferred(
            plan_of(
                goal_aim(skins, request),
                owned_shares(skins, request),
                candidate_pool(skins, listings, request),
                places,
            ),
            best,
            request.priority,
        ),
{
    let pool = candidate_pool(skins, listings, request);
    assert forall|other: Seq<int>|
        is_selection(other, pool.len() as int, open_slots(request) as int, 0) implies !(
    #[trigger] plan_of(
        goal_aim(skins, request),
        owned_shares(skins, request),
        pool,
        other,
    )).distance.nan() by {
        law_distances_are_numbers(skins, listings, request, other);
    }
    law_exact_plan_is_best(skins, listings, request, places);
}

/// The share that an ideal contract asks of each open slot is a share.
pub proof fn law_ideal_share_in_unit(skins: Seq<Skin>, request: PlanRequest)
    requires
        !ideal_share(skins, request).nan(),
    ensures
        in_unit(ideal_share(skins, request)),
{
}

/// Without listings there is nothing to choose from.
pub proof fn lemma_no_listings_no_pool(skins: Seq<Skin>, request: PlanRequest)
    ensures
        candidate_pool(skins, Seq::empty(), request).len() == 0,
{
    let ids = skin_ids(input_pool(skins, goal_skin(skins, request)));
    lemma_nothing_gathered(ids, offer_limit(request.listing_limit));
    lemma_stable_sorted(Seq::<FixtureListing>::empty());
}

/// Nothing is gathered from nothing.
proof fn lemma_nothing_gathered(ids: Seq<Seq<char>>, limit: nat)
    ensures
        gathered(Seq::empty(), ids, limit) == Seq::<FixtureListing>::empty(),
    decreases ids.len(),
{
    if ids.len() > 0 {
        lemma_nothing_gathered(ids.drop_last(), limit);
        let own = Seq::<FixtureListing>::empty().filter(sells(ids.last()));
        Seq::<FixtureListing>::empty().lemma_filter_len(sells(ids.last()));
        assert(own.len() == 0);
        lemma_stable_sorted(own);
        assert(gathered(Seq::empty(), ids, limit) =~= Seq::empty());
    }
}

/// A plan fills the open slots with different candidates.
pub proof fn law_plan_selects(
    skins: Seq<Skin>,
    listings: Seq<FixtureListing>,
    request: PlanRequest,
)
    ensures
        best_plan(skins, listings, request) matches Some(plan) ==> is_selection(
            plan.places,
            candidate_pool(skins, listings, request).len() as int,
            open_slots(request) as int,
            0,
        ),
{
    let pool = candidate_pool(skins, listings, request);
    let n = pool.len() as int;
    let required = open_slots(request);
    let owned = owned_shares(skins, request);
    let aim = goal_aim(skins, request);
    if let Some(plan) = best_plan(skins, listings, request) {
        if pool.len() <= EXACT_POOL {
            let choices = combinations(n, required as int, 0);
            let plans = plans_of(aim, owned, pool, choices);
            lemma_best_is_listed(plans, request.priority);
            let i = choose|i: int| 0 <= i < plans.len() && plans[i] == plan;
            assert(plans[i].places == choices[i]);
            lemma_combination_selects(n, required as int, 0, i);
        } else {
            let desired = missing_sum(aimed_share(skins, request), owned);
            let choices = beam_level(pool, desired, required, n, required);
            let plans = plans_of(aim, owned, pool, choices);
            lemma_best_is_listed(plans, request.priority);
            let i = choose|i: int| 0 <= i < plans.len() && plans[i] == plan;
            assert(plans[i].places == choices[i]);
            law_beam_selects(pool, desired, required, n, required, i);
        }
    }
}

/// The inputs of the contract that takes the chosen candidates.
fn planned_inputs(
    owned: &Vec<InputRequest>,
    candidates: &Vec<Candidate<'_>>,
    places: &Vec<usize>,
) -> (r: Vec<InputRequest>)
    requires
        forall|i: int| 0 <= i < places@.len() ==> (#[trigger] places@[i]) < candidates@.len(),
    ensures
        slots_of(r@) == planned_slots(owned@, candidates@, as_places(places@)),
{
    let mut r: Vec<InputRequest> = copy_inputs(owned);
    let ghost all = planned_slots(owned@, candidates@, as_places(places@));
    let mut i: usize = 0;
    proof {
        assert(slots_of(r@) =~= all.take(owned@.len() as int));
    }
    while i < places.len()
        invariant
            i <= places@.len(),
            forall|i: int| 0 <= i < places@.len() ==> (#[trigger] places@[i]) < candidates@.len(),
            all == planned_slots(owned@, candidates@, as_places(places@)),
            slots_of(r@) == all.take(owned@.len() + i),
        decreases places.len() - i,
    {
        let candidate: &Candidate<'_> = &candidates[places[i]];
        let ghost before = r@;
        r.push(
            InputRequest {
                skin_id: candidate.skin.id.clone(),
                float_value: candidate.listing.float_value,
                inspect_link: None,
            },
        );
        proof {
            assert(slots_of(r@) =~= slots_of(before).push(all[owned@.len() + i]));
            assert(slots_of(r@) =~= all.take(owned@.len() + i + 1));
        }
        i = i + 1;
    }
    proof {
        assert(all.take(owned@.len() + i) =~= all);
    }
    r
}

/// Adds the rows of the chosen listings.
fn planned_rows(
    owned: Vec<PlannedListing>,
    candidates: &Vec<Candidate<'_>>,
    places: &Vec<usize>,
    Ghost(skins): Ghost<Seq<Skin>>,
    Ghost(inputs): Ghost<Seq<InputRequest>>,
) -> (rows: Vec<PlannedListing>)
    requires
        owned@.len() == inputs.len(),
        inputs.len() + places@.len() <= 10,
        keeps_owned(owned@, skins, inputs),
        forall|i: int| 0 <= i < places@.len() ==> (#[trigger] places@[i]) < candidates@.len(),
    ensures
        rows@.len() == inputs.len() + places@.len(),
        keeps_owned(rows@, skins, inputs),
        forall|i: int|
            0 <= i < places@.len() ==> describes_choice(
                #[trigger] rows@[inputs.len() + i],
                inputs.len() + i,
                candidates@[places@[i] as int],
            ),
{
    let mut rows: Vec<PlannedListing> = owned;
    let mut i: usize = 0;
    while i < places.len()
        invariant
            i <= places@.len(),
            inputs.len() + places@.len() <= 10,
            forall|i: int| 0 <= i < places@.len() ==> (#[trigger] places@[i]) < candidates@.len(),
            rows@.len() == inputs.len() + i,
            keeps_owned(rows@, skins, inputs),
            forall|j: int|
                0 <= j < i ==> describes_choice(
                    #[trigger] rows@[inputs.len() + j],
                    inputs.len() + j,
                    candidates@[places@[j] as int],
                ),
        decreases places.len() - i,
    {
        let candidate: &Candidate<'_> = &candidates[places[i]];
        let listing: &FixtureListing = candidate.listing;
        let ghost before = rows@;
        let slot: usize = rows.len() + 1;
        rows.push(
            PlannedListing {
                slot,
                listing_id: Some(listing.id.clone()),
                source: listing.source.clone(),
                skin_id: candidate.skin.id.clone(),
                skin_name: candidate.skin.name.clone(),
                float_value: Float32Value::new(listing.float_value),
                adjusted_float: Float32Value::new(candidate.adjusted),
                price_cents: Some(listing.price_cents),
                market_url: Some(listing.market_url.clone()),
                inspect_link: copy_optional(&listing.inspect_link),
                owned: false,
            },
        );
        proof {
            assert forall|j: int| 0 <= j < inputs.len() implies describes_owned(
                #[trigger] rows@[j],
                j,
                slot_skin(skins, slot_of(inputs[j])),
                inputs[j].float_value,
            ) by {
                assert(rows@[j] == before[j]);
            }
            assert forall|j: int| 0 <= j < i + 1 implies describes_choice(
                #[trigger] rows@[inputs.len() + j],
                inputs.len() + j,
                candidates@[places@[j] as int],
            ) by {
                if j < i {
                    assert(rows@[inputs.len() + j] == before[inputs.len() + j]);
                }
            }
        }
        i = i + 1;
    }
    rows
}

/// Whether all chosen listings come from the Steam Community Market.
fn all_from_market(candidates: &Vec<Candidate<'_>>, places: &Vec<usize>) -> (r: bool)
    requires
        forall|i: int| 0 <= i < places@.len() ==> (#[trigger] places@[i]) < candidates@.len(),
    ensures
        r == from_market(candidates@, as_places(places@)),
{
    let ghost chosen = as_places(places@);
    let mut i: usize = 0;
    while i < places.len()
        invariant
            i <= places@.len(),
            chosen == as_places(places@),
            forall|i: int| 0 <= i < places@.len() ==> (#[trigger] places@[i]) < candidates@.len(),
            forall|j: int|
                0 <= j < i ==> candidates@[#[trigger] chosen[j]].listing.source@
                    == "steam_community_market"@,
        decreases places.len() - i,
    {
        if !same_text(
            candidates[places[i]].listing.source.as_str(),
            "steam_community_market",
        ) {
            proof {
                assert(candidates@[chosen[i as int]].listing.source@
                    != "steam_community_market"@);
            }
            return false;
        }
        i = i + 1;
    }
    true
}

fn message_text(status: &str, market: bool) -> (r: &'static str)
    ensures
        r@ == plan_message(status@, market),
{
    if same_text(status, "exact") {
        "Найден bit-exact float32 результат для выбранной цели."
    } else if same_text(status, "within_tolerance") {
        if market {
            "Найден набор активных лотов Steam Community Market в допустимом диапазоне."
        } else {
            "Найден самый дешёвый набор доступных лотов в допустимом диапазоне."
        }
    } else {
        "Набора в допустимом диапазоне нет; показан ближайший из доступных лотов."
    }
}

/// The remarks under a plan.
fn plan_remarks(market: bool) -> (r: Vec<String>)
    ensures
        texts(r@) == plan_warnings(market),
{
    let mut r: Vec<String> = Vec::new();
    if market {
        r.push(
            "Steam Community Market listing содержит цену покупателя с комиссией, ссылку на Market, inspect link и exact raw float на момент чтения HTML; перед покупкой проверьте актуальный статус лота.".to_owned(),
        );
    } else {
        r.push(
            "fixture означает, что это детерминированный тестовый лот, а не проверяемое объявление Steam Market.".to_owned(),
        );
    }
    r.push(
        "delta применяется как допустимое отклонение результата от цели; формула и все промежуточные операции — float32.".to_owned(),
    );
    proof {
        assert(texts(r@) =~= plan_warnings(market));
    }
    r
}

fn optimizer_text(pool: usize) -> (r: String)
    ensures
        r@ == plan_optimizer(pool as nat),
{
    if pool <= EXACT_POOL {
        "exact combination enumeration over the available listing pool".to_owned()
    } else {
        join3(
            "bounded beam search over ",
            decimal_text(pool as u128).as_str(),
            " listings (beam width 4096)",
        )
    }
}

/// Proposes the listings that the search settled on.
fn propose(
    catalog: &Catalog,
    request: &PlanRequest,
    goal: &Goal<'_>,
    candidates: &Vec<Candidate<'_>>,
    best: ChosenPlan,
) -> (r: Result<PlanResponse, PlannerError>)
    requires
        goal_ready(*goal, catalog.skins(), *request),
        candidates@ == candidate_pool(catalog.skins(), catalog.listings(), *request),
        best_plan(catalog.skins(), catalog.listings(), *request) == Some(best@),
    ensures
        match r {
            Ok(response) => {
                &&& outcome_failure(
                    catalog.skins(),
                    planned_slots(request.owned_inputs@, candidates@, best@.places),
                    request.stattrak,
                    goal_skin(catalog.skins(), *request),
                ) is None
                &&& describes_plan(response, catalog.skins(), catalog.listings(), *request)
            },
            Err(error) => outcome_failure(
                catalog.skins(),
                planned_slots(request.owned_inputs@, candidates@, best@.places),
                request.stattrak,
                goal_skin(catalog.skins(), *request),
            ) == Some(error@),
        },
{
    let ghost skins = catalog.skins();
    let ghost slots = planned_slots(request.owned_inputs@, candidates@, best@.places);
    proof {
        law_plan_selects(skins, catalog.listings(), *request);
        assert forall|i: int| 0 <= i < best.places@.len() implies (#[trigger] best.places@[i])
            < candidates@.len() by {
            assert(best@.places[i] == best.places@[i]);
        }
    }
    let inputs: Vec<InputRequest> = planned_inputs(
        &request.owned_inputs,
        candidates,
        &best.places,
    );
    proof {
        assert(slots_of(inputs@).len() == inputs@.len());
    }
    let (analysis, place) = match analyze_planned(
        catalog,
        inputs,
        request.stattrak,
        goal.aim.target,
    ) {
        Ok(found) => found,
        Err(error) => {
            return Err(error);
        },
    };
    let market: bool = all_from_market(candidates, &best.places);
    let status: &str = status_text(&request.target, best.within_target, best.predicted);
    let rows: Vec<PlannedListing> = planned_rows(
        owned_rows(&goal.owned, Ghost(skins), Ghost(request.owned_inputs@)),
        candidates,
        &best.places,
        Ghost(skins),
        Ghost(request.owned_inputs@),
    );
    let proposal: Proposal = Proposal {
        status: status.to_owned(),
        message: message_text(status, market).to_owned(),
        rows,
        total_price_cents: best.total_price_cents,
        pricing_available: true,
        predicted: best.predicted,
        distance: best.distance,
        optimizer: optimizer_text(candidates.len()),
        warnings: plan_remarks(market),
    };
    Ok(respond(goal, analysis, place, proposal, Ghost(skins), Ghost(*request), Ghost(slots)))
}

/// `r` answers a plan request: with offers, or with ideal slots where there are none.
pub open spec fn answers_plan(
    r: PlanResponse,
    skins: Seq<Skin>,
    listings: Seq<FixtureListing>,
    request: PlanRequest,
) -> bool {
    if is_ideal(skins, listings, request) {
        describes_ideal_plan(r, skins, request)
    } else {
        describes_plan(r, skins, listings, request)
    }
}

/// Plans a contract for a wanted output.
pub fn plan_reverse(catalog: &Catalog, request: PlanRequest) -> (r: Result<
    PlanResponse,
    PlannerError,
>)
    requires
        plan_defined(catalog.skins(), request),
    ensures
        match r {
            Ok(response) => {
                &&& plan_failure(catalog.skins(), catalog.listings(), request) is None
                &&& answers_plan(response, catalog.skins(), catalog.listings(), request)
            },
            Err(error) => plan_failure(catalog.skins(), catalog.listings(), request) == Some(
                error@,
            ),
        },
{
    let goal: Goal<'_> = match prepare(catalog, &request) {
        Ok(goal) => goal,
        Err(error) => {
            return Err(error);
        },
    };
    let required: usize = 10 - goal.owned.len();
    let candidates: Vec<Candidate<'_>> = collect_candidates(catalog, &request, &goal);
    if candidates.len() == 0 && required > 0 {
        return ideal_reverse_plan(catalog, &request, &goal);
    }
    if required > candidates.len() {
        let mut text: String = join3(
            "only ",
            decimal_text(candidates.len() as u128).as_str(),
            " usable fixture listings are available for ",
        );
        text.append(decimal_text(required as u128).as_str());
        text.append(" missing slots");
        return Err(PlannerError::Validation(text));
    }
    match choose_plan(
        &goal,
        &candidates,
        request.priority,
        Ghost(catalog.skins()),
        Ghost(catalog.listings()),
        Ghost(request),
    ) {
        Some(best) => propose(catalog, &request, &goal, &candidates, best),
        None => Err(
            PlannerError::Validation("no candidate combination could be selected".to_owned()),
        ),
    }
}

} // verus!
