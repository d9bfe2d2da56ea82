//! What requests are planned, and what a plan says of them.
use crate::acceptance::{
    lemma_float_accepted, lemma_found_under, lemma_pool_holds, lemma_slot_accepted_iff,
    ordered_caps, orderly, slot_suits, trades_up,
};
use crate::accuracy::{
    gap, law_nearest_exact, law_nearest_monotone, law_order_is_numeric, law_quotient_is_nearest,
    law_sum_is_nearest, lemma_one, lemma_representable, lemma_zero_units, rank_of_units,
};
use crate::catalog::{belongs, distinct_ids, input_pool, lemma_found, pool};
use crate::contract::{slot_failure, slot_of, slot_skin, slots_of, InputRequest};
use crate::domain::{float_failure, zero, Skin};
use crate::errors::{lemma_large_unit, lemma_quotient_error, lemma_rank_value, lemma_sum_error};
use crate::float32::{clamped, grid_exponent, opposite, quotient, significand, sum, Float32};
use crate::ideal::{lemma_gap_scaled, lemma_sum_finite};
use crate::odds::lemma_pool_skin;
use crate::planner::{
    asked_bounds, default_delta, describes_goal, goal_aim, goal_failure, goal_skin,
    inputs_failure, owned_fit, skin_ids,
    PlanRequest, PlanResponse, TargetConstraint, TWO_BITS,
};
use crate::preview::lemma_each_slot_accepted;
use crate::wear::{decimal_place, law_fixed_numbers};
use crate::yields::{caps_in_unit, is_share, lemma_is_share};
use vstd::arithmetic::power2::{lemma2_to64, lemma_pow2_adds, lemma_pow2_pos, pow2};
use vstd::prelude::*;

verus! {

/// The larger of two places in the numeric order.
pub open spec fn upper_of(a: int, b: int) -> int {
    if a < b {
        b
    } else {
        a
    }
}

/// The smaller of two places in the numeric order.
pub open spec fn lower_of(a: int, b: int) -> int {
    if a < b {
        a
    } else {
        b
    }
}

/// The numbers that a request names.
pub open spec fn names_finite_numbers(request: PlanRequest) -> bool {
    &&& request.delta.finite()
    &&& request.delta.units() >= 0
    &&& match request.target {
        TargetConstraint::Exact { value } => value.finite(),
        TargetConstraint::Maximum { value } => value.finite(),
        TargetConstraint::Range { min, max } => min.finite() && max.finite() && min.units()
            <= max.units(),
    }
}

/// What was asked for, by value: a float that is accepted lies no more than the allowed
/// deviation below the least wanted float and above the greatest, within the caps of the
/// target. A maximum leaves everything down to the lower cap open. The center is the
/// float that was named, moved into the caps.
pub proof fn law_asked_range(skins: Seq<Skin>, request: PlanRequest)
    requires
        ordered_caps(goal_skin(skins, request)),
        names_finite_numbers(request),
        goal_failure(skins, request) is None,
    ensures
        ({
            let aim = goal_aim(skins, request);
            let skin = goal_skin(skins, request);
            let (low, high) = (skin.min_float, skin.max_float);
            let delta = request.delta.units();
            &&& aim.low.rank() == match request.target {
                TargetConstraint::Exact { value } => upper_of(
                    low.rank(),
                    rank_of_units(value.units() - delta),
                ),
                TargetConstraint::Maximum { value } => low.rank(),
                TargetConstraint::Range { min, max } => upper_of(
                    low.rank(),
                    rank_of_units(min.units() - delta),
                ),
            }
            &&& aim.high.rank() == match request.target {
                TargetConstraint::Exact { value } => lower_of(
                    high.rank(),
                    rank_of_units(value.units() + delta),
                ),
                TargetConstraint::Maximum { value } => lower_of(
                    high.rank(),
                    rank_of_units(value.units() + delta),
                ),
                TargetConstraint::Range { min, max } => lower_of(
                    high.rank(),
                    rank_of_units(max.units() + delta),
                ),
            }
            &&& low.rank() <= aim.center.rank() <= high.rank()
            &&& match request.target {
                TargetConstraint::Exact { value } => aim.center.rank() == upper_of(
                    low.rank(),
                    lower_of(high.rank(), value.rank()),
                ),
                TargetConstraint::Maximum { value } => aim.center.rank() == upper_of(
                    low.rank(),
                    lower_of(high.rank(), value.rank()),
                ),
                TargetConstraint::Range { min, max } => 0 <= min.units() && max.units() <= pow2(149)
                    && low.units() <= min.units() && max.units() <= high.units() ==> 1_000_000
                    * gap(2 * aim.center.units(), min.units() + max.units()) <= 4 * pow2(149),
            }
        }),
{
    let skin = goal_skin(skins, request);
    let (low, high) = (skin.min_float, skin.max_float);
    let delta = request.delta;
    law_order_is_numeric(low, high);
    assert(opposite(delta).units() == -delta.units());
    match request.target {
        TargetConstraint::Exact { value } => {
            law_sum_is_nearest(value, opposite(delta));
            law_sum_is_nearest(value, delta);
        },
        TargetConstraint::Maximum { value } => {
            law_sum_is_nearest(value, delta);
        },
        TargetConstraint::Range { min, max } => {
            law_sum_is_nearest(min, opposite(delta));
            law_sum_is_nearest(max, delta);
            if 0 <= min.units() && max.units() <= pow2(149) && low.units() <= min.units()
                && max.units() <= high.units() {
                lemma_middle(min, max);
                lemma_middle_moved(min, max, skin);
            }
        },
    }
}

/// The middle of two numbers up to one, by value.
proof fn lemma_middle(a: Float32, b: Float32)
    requires
        a.finite(),
        b.finite(),
        0 <= a.units() <= b.units() <= pow2(149),
        quotient(sum(a, b), Float32 { bits: TWO_BITS }).finite(),
    ensures
        sum(a, b).finite(),
        1_000_000 * gap(
            2 * quotient(sum(a, b), Float32 { bits: TWO_BITS }).units(),
            a.units() + b.units(),
        ) <= 2 * pow2(149),
{
    let (p, two) = (pow2(149) as int, Float32 { bits: TWO_BITS });
    let s = sum(a, b);
    lemma_large_unit();
    lemma_sum_finite(a, b);
    lemma_sum_error(a, b);
    lemma_two();
    law_sum_is_nearest(a, b);
    assert(s.rank() >= 0);
    lemma_rank_value(s);
    lemma_quotient_error(s, two);
    let (q, v, t) = (quotient(s, two).units(), s.units(), a.units() + b.units());
    assert(q * (2 * p) == (2 * q) * p) by (nonlinear_arith);
    lemma_gap_scaled(2 * q, v, p);
    let g = gap(2 * q, v) as int;
    assert(0x100_0000 * g <= v + 0x100_0000 * 2) by (nonlinear_arith)
        requires
            0x100_0000 * (g * p) <= v * p + 0x100_0000 * (2 * p),
            p > 0,
    ;
}

/// Two, in units.
proof fn lemma_two()
    ensures
        (Float32 { bits: TWO_BITS }).finite(),
        (Float32 { bits: TWO_BITS }).rank() > 0,
        (Float32 { bits: TWO_BITS }).units() == 2 * pow2(149),
{
    lemma2_to64();
    lemma_pow2_adds(23, 127);
    lemma_pow2_adds(1, 149);
    assert(grid_exponent(0x4000_0000) == 127);
    assert(significand(0x4000_0000) == 0x80_0000);
}

/// Moving the middle into caps that hold both ends takes it no farther than rounding did.
proof fn lemma_middle_moved(a: Float32, b: Float32, skin: Skin)
    requires
        a.finite(),
        b.finite(),
        ordered_caps(skin),
        0 <= a.units() <= b.units() <= pow2(149),
        skin.min_float.units() <= a.units(),
        b.units() <= skin.max_float.units(),
        quotient(sum(a, b), Float32 { bits: TWO_BITS }).finite(),
        1_000_000 * gap(
            2 * quotient(sum(a, b), Float32 { bits: TWO_BITS }).units(),
            a.units() + b.units(),
        ) <= 2 * pow2(149),
    ensures
        1_000_000 * gap(
            2 * clamped(
                quotient(sum(a, b), Float32 { bits: TWO_BITS }),
                skin.min_float,
                skin.max_float,
            ).units(),
            a.units() + b.units(),
        ) <= 4 * pow2(149),
{
    let m = quotient(sum(a, b), Float32 { bits: TWO_BITS });
    law_order_is_numeric(m, skin.min_float);
    law_order_is_numeric(skin.max_float, m);
}

/// The target of a request: a covert skin of the catalog, in the wanted variant.
pub open spec fn targets(skins: Seq<Skin>, request: PlanRequest, k: int) -> bool {
    &&& 0 <= k < skins.len()
    &&& skins[k].id@ == request.target_skin_id@
    &&& skins[k].rarity is Covert
    &&& request.stattrak ==> skins[k].stattrak_supported
}

/// A goal is only taken on where the target is a covert skin of the catalog, exists in the
/// wanted variant, the deviation is finite and not negative, and a range is in order.
pub proof fn law_goal_taken_on(skins: Seq<Skin>, request: PlanRequest) -> (k: int)
    requires
        goal_failure(skins, request) is None,
    ensures
        targets(skins, request, k),
        goal_skin(skins, request) == skins[k],
        request.delta.finite(),
        request.delta.units() >= 0,
        request.target matches TargetConstraint::Range { min, max } ==> min.finite()
            && max.finite() ==> min.units() <= max.units(),
{
    lemma_found(skins, request.target_skin_id@);
    lemma_zero_units(0);
    law_order_is_numeric(request.delta, zero());
    if let TargetConstraint::Range { min, max } = request.target {
        if min.finite() && max.finite() {
            law_order_is_numeric(max, min);
        }
    }
    choose|k: int| 0 <= k < skins.len() && skins[k] == goal_skin(skins, request)
}

/// The numbers of a request lie between zero and one.
pub open spec fn names_numbers_in_unit(request: PlanRequest) -> bool {
    let p = pow2(149);
    &&& names_finite_numbers(request)
    &&& request.delta.units() <= p
    &&& match request.target {
        TargetConstraint::Exact { value } => 0 <= value.units() <= p,
        TargetConstraint::Maximum { value } => 0 <= value.units() <= p,
        TargetConstraint::Range { min, max } => 0 <= min.units() && max.units() <= p,
    }
}

/// Where the numbers lie between zero and one, a covert skin of the catalog is taken on.
pub proof fn law_goal_is_taken_on(skins: Seq<Skin>, request: PlanRequest, k: int)
    requires
        distinct_ids(skins),
        targets(skins, request, k),
        caps_in_unit(skins[k]),
        names_numbers_in_unit(request),
    ensures
        goal_failure(skins, request) is None,
        goal_skin(skins, request) == skins[k],
{
    let delta = request.delta;
    lemma_found_under(skins, k);
    lemma_zero_units(0);
    law_order_is_numeric(delta, zero());
    assert(opposite(delta).units() == -delta.units());
    match request.target {
        TargetConstraint::Exact { value } => {
            lemma_sum_finite(value, opposite(delta));
            lemma_sum_finite(value, delta);
        },
        TargetConstraint::Maximum { value } => {
            lemma_sum_finite(value, delta);
        },
        TargetConstraint::Range { min, max } => {
            law_order_is_numeric(max, min);
            lemma_sum_finite(min, opposite(delta));
            lemma_sum_finite(max, delta);
            lemma_middle_finite(min, max);
        },
    }
}

/// The middle of two numbers up to one is finite.
proof fn lemma_middle_finite(a: Float32, b: Float32)
    requires
        a.finite(),
        b.finite(),
        0 <= a.units() <= b.units() <= pow2(149),
    ensures
        quotient(sum(a, b), Float32 { bits: TWO_BITS }).finite(),
{
    let (p, two) = (pow2(149), Float32 { bits: TWO_BITS });
    let s = sum(a, b);
    lemma_two();
    lemma_sum_finite(a, b);
    law_sum_is_nearest(a, b);
    lemma_rank_value(s);
    lemma_rank_value(two);
    lemma_pow2_pos(149);
    lemma_representable(2, 149);
    law_nearest_monotone((a.units() + b.units()) as nat, 1, 2 * p, 1);
    assert(s.units() <= 2 * p) by {
        law_order_is_numeric(s, two);
        law_nearest_exact(0x4000_0000);
    }
    let u = s.units() as nat;
    assert((u * p) * 1 <= p * (2 * p)) by (nonlinear_arith)
        requires
            u <= 2 * p,
    ;
    law_nearest_monotone(u * p, 2 * p, p, 1);
    lemma_one();
    law_quotient_is_nearest(s, two);
}

/// An owned item can be traded towards the target: it suits a skin of the target's
/// collection, one step below.
pub open spec fn leads_to(
    skins: Seq<Skin>,
    input: InputRequest,
    target: Skin,
    stattrak: bool,
) -> bool {
    exists|k: int|
        0 <= k < skins.len() && slot_suits(slot_of(input), #[trigger] skins[k], stattrak)
            && skins[k].collection_id@ == target.collection_id@ && trades_up(
            skins[k].rarity,
            target.rarity,
        )
}

/// The inputs of a request are taken exactly where there are no more than ten, each can be
/// traded towards the target, and the target's collection has something one step below it.
pub proof fn law_which_inputs_are_taken(skins: Seq<Skin>, request: PlanRequest)
    requires
        orderly(skins),
        goal_failure(skins, request) is None,
    ensures
        inputs_failure(skins, request) is None <==> {
            let target = goal_skin(skins, request);
            &&& request.owned_inputs@.len() <= 10
            &&& forall|i: int|
                0 <= i < request.owned_inputs@.len() ==> leads_to(
                    skins,
                    #[trigger] request.owned_inputs@[i],
                    target,
                    request.stattrak,
                )
            &&& exists|k: int|
                0 <= k < skins.len() && (#[trigger] skins[k]).collection_id@
                    == target.collection_id@ && trades_up(skins[k].rarity, target.rarity)
        },
{
    let target = goal_skin(skins, request);
    let owned = request.owned_inputs@;
    let slots = slots_of(owned);
    let inputs = input_pool(skins, target);
    let h = law_goal_taken_on(skins, request);
    assert(ordered_caps(skins[h]));
    lemma_center_accepted(skins, request);
    lemma_each_slot_accepted(skins, slots, request.stattrak);
    lemma_input_pool(skins, target);
    assert forall|i: int| 0 <= i < owned.len() implies leads_to(
        skins,
        #[trigger] owned[i],
        target,
        request.stattrak,
    ) == (slot_failure(skins, slots[i], request.stattrak) is None && skin_ids(inputs).contains(
        slot_skin(skins, slot_of(owned[i])).id@,
    )) by {
        assert(slots[i] == slot_of(owned[i]));
        lemma_leads_to(skins, owned[i], target, request.stattrak);
    }
    if inputs_failure(skins, request) is None {
        assert forall|i: int| 0 <= i < owned.len() implies leads_to(
            skins,
            #[trigger] owned[i],
            target,
            request.stattrak,
        ) by {
            assert(slot_failure(skins, slots[i], request.stattrak) is None);
        }
    }
    if forall|i: int|
        0 <= i < owned.len() ==> leads_to(
            skins,
            #[trigger] owned[i],
            target,
            request.stattrak,
        ) {
        assert forall|i: int| 0 <= i < slots.len() implies slot_failure(
            skins,
            #[trigger] slots[i],
            request.stattrak,
        ) is None by {
            assert(leads_to(skins, owned[i], target, request.stattrak));
        }
        assert(owned_fit(skins, owned, target));
    }
}

/// What the input pool of a covert target holds.
proof fn lemma_input_pool(skins: Seq<Skin>, target: Skin)
    requires
        target.rarity is Covert,
    ensures
        input_pool(skins, target).len() > 0 <==> exists|k: int|
            0 <= k < skins.len() && (#[trigger] skins[k]).collection_id@ == target.collection_id@
                && trades_up(skins[k].rarity, target.rarity),
{
    let found = input_pool(skins, target);
    lemma_pool_holds(skins, target.collection_id@, crate::domain::Rarity::Classified);
    if exists|k: int|
        0 <= k < skins.len() && (#[trigger] skins[k]).collection_id@ == target.collection_id@
            && trades_up(skins[k].rarity, target.rarity) {
        let k = choose|k: int|
            0 <= k < skins.len() && (#[trigger] skins[k]).collection_id@ == target.collection_id@
                && trades_up(skins[k].rarity, target.rarity);
        assert(skins[k].rarity is Classified);
    }
}

/// An owned item is accepted where it leads to the target.
proof fn lemma_leads_to(skins: Seq<Skin>, input: InputRequest, target: Skin, stattrak: bool)
    requires
        orderly(skins),
        target.rarity is Covert,
    ensures
        leads_to(skins, input, target, stattrak) == (slot_failure(
            skins,
            slot_of(input),
            stattrak,
        ) is None && skin_ids(input_pool(skins, target)).contains(
            slot_skin(skins, slot_of(input)).id@,
        )),
{
    let slot = slot_of(input);
    let inputs = input_pool(skins, target);
    let rarity = crate::domain::Rarity::Classified;
    assert(inputs == pool(skins, target.collection_id@, rarity));
    lemma_slot_accepted_iff(skins, slot, stattrak);
    if leads_to(skins, input, target, stattrak) {
        let k = choose|k: int|
            0 <= k < skins.len() && slot_suits(slot, #[trigger] skins[k], stattrak)
                && skins[k].collection_id@ == target.collection_id@ && trades_up(
                skins[k].rarity,
                target.rarity,
            );
        lemma_found_under(skins, k);
        skins.lemma_filter_contains(belongs(target.collection_id@, rarity), k);
        let j = choose|j: int| 0 <= j < inputs.len() && inputs[j] == skins[k];
        assert(skin_ids(inputs)[j] == skins[k].id@);
    }
    if slot_failure(skins, slot, stattrak) is None && skin_ids(inputs).contains(
        slot_skin(skins, slot).id@,
    ) {
        let k = choose|k: int|
            0 <= k < skins.len() && slot_suits(slot, #[trigger] skins[k], stattrak);
        lemma_found_under(skins, k);
        let j = choose|j: int|
            0 <= j < skin_ids(inputs).len() && skin_ids(inputs)[j] == skins[k].id@;
        lemma_pool_skin(skins, target.collection_id@, rarity, j);
        let l = choose|l: int| 0 <= l < skins.len() && skins[l] == inputs[j];
        lemma_found_under(skins, l);
        assert(inputs[j] == skins[k]);
        assert(slot_suits(slot, skins[k], stattrak));
    }
}

/// The center of a goal that is taken on is a float that the target can have.
pub(crate) proof fn lemma_center_accepted(skins: Seq<Skin>, request: PlanRequest)
    requires
        goal_failure(skins, request) is None,
        ordered_caps(goal_skin(skins, request)),
    ensures
        float_failure(goal_aim(skins, request).center, goal_skin(skins, request)) is None,
{
    let target = goal_skin(skins, request);
    let center = goal_aim(skins, request).center;
    let (low, high, asked) = asked_bounds(request.target, request.delta, target.min_float);
    law_order_is_numeric(target.min_float, target.max_float);
    law_order_is_numeric(asked, target.min_float);
    law_order_is_numeric(target.max_float, asked);
    lemma_float_accepted(center, target);
}

/// The share that a plan shows for its target is the place of the center between the caps.
pub proof fn law_target_share(r: PlanResponse, skins: Seq<Skin>, request: PlanRequest)
    requires
        goal_failure(skins, request) is None,
        caps_in_unit(goal_skin(skins, request)),
        describes_goal(r, skins, request),
    ensures
        r.target_skin == goal_skin(skins, request),
        is_share(r.target_adjusted.value, goal_aim(skins, request).center, r.target_skin),
{
    lemma_center_accepted(skins, request);
    lemma_is_share(goal_aim(skins, request).center, goal_skin(skins, request));
}

/// The deviation that a request starts from is 0.0001.
pub proof fn law_usual_deviation(delta: Float32)
    requires
        call_ensures(default_delta, (), delta),
    ensures
        delta.finite(),
        delta.rank() == decimal_place(1, 10_000),
{
    law_fixed_numbers();
}

} // verus!
