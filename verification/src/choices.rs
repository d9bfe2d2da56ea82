//! What the proposed plan is, measured against every other choice.
use crate::accuracy::{
    gap, in_unit, law_nearest_monotone, law_order_is_numeric, lemma_count_exact,
    lemma_representable, lemma_unit_value, lemma_zero_units,
};
use crate::beam::{
    beam_level, expected_sum, extended, law_beam_selects, lemma_pruned_keeps, list_relation,
    listing_ids, missing_sum, pruned, rating_of, ratings_of,
};
use crate::catalog::{find_skin, input_pool, sound_caps};
use crate::contract::{contract_average, slots_of};
use crate::domain::{
    adjusted, cap_span, predicted_output, running_sum, zero, FixtureListing, Skin,
};
use crate::errors::{exact_sum, lemma_fraction_error, lemma_large_unit, lemma_product_error, lemma_rank_value};
use crate::float32::{
    absolute, difference, magnitude_units, of_count, product, quotient, Float32,
};
use crate::ideal::{lemma_gap_scaled, lemma_missing};
use crate::planner::{
    aimed_share, best_plan, candidate_pool, describes_plan, goal_aim, goal_failure, goal_skin, inputs_failure,
    law_distances_are_numbers, law_exact_plan_is_best, law_plan_selects,
    lemma_all_floats_known, lemma_best_is_listed, lemma_candidate_known, lemma_shares_follow,
    offer_limit, open_slots, owned_shares, planned_slots, skin_ids, PlanRequest, PlanResponse,
    EXACT_POOL,
};
use crate::rounding::INFINITE_MAGNITUDE;
use crate::search::{
    best_over, chosen_shares, combinations, headed, is_selection, law_best_is_unbeaten,
    law_combinations, lemma_combination_selects, plan_of, plans_of, preferred, total_price,
    Candidate, Plan, PlanningPriority,
};
use crate::sorting::{lemma_stable_sorted, stable_sorted, Ranked};
use crate::text::text_before;
use vstd::arithmetic::power2::{lemma_pow2_pos, pow2};
use vstd::prelude::*;

verus! {

/// A choice of candidates for the open slots.
pub open spec fn fills_up(
    skins: Seq<Skin>,
    listings: Seq<FixtureListing>,
    request: PlanRequest,
    places: Seq<int>,
) -> bool {
    let n = candidate_pool(skins, listings, request).len();
    &&& places.len() + request.owned_inputs@.len() == 10
    &&& forall|i: int| 0 <= i < places.len() ==> 0 <= #[trigger] places[i] < n
    &&& forall|i: int, j: int|
        0 <= i < j < places.len() ==> #[trigger] places[i] < #[trigger] places[j]
}

/// The float that the target gets from the contract of the owned inputs and a choice.
pub open spec fn float_from(
    skins: Seq<Skin>,
    listings: Seq<FixtureListing>,
    request: PlanRequest,
    places: Seq<int>,
) -> Float32 {
    predicted_output(
        contract_average(
            skins,
            planned_slots(
                request.owned_inputs@,
                candidate_pool(skins, listings, request),
                places,
            ),
        ),
        goal_skin(skins, request),
    )
}

/// What a choice costs.
pub open spec fn cost(pool: Seq<Candidate<'_>>, places: Seq<int>) -> nat
    decreases places.len(),
{
    if places.len() == 0 {
        0
    } else {
        pool[places.last()].listing.price_cents as nat + cost(pool, places.drop_last())
    }
}

pub open spec fn cost_of(
    skins: Seq<Skin>,
    listings: Seq<FixtureListing>,
    request: PlanRequest,
    places: Seq<int>,
) -> nat {
    cost(candidate_pool(skins, listings, request), places)
}

/// How far a choice leads from the center of the request, as a place in the numeric order.
pub open spec fn miss(
    skins: Seq<Skin>,
    listings: Seq<FixtureListing>,
    request: PlanRequest,
    places: Seq<int>,
) -> int {
    absolute(
        difference(float_from(skins, listings, request, places), goal_aim(skins, request).center),
    ).rank()
}

/// A choice leads to what was asked for.
pub open spec fn hits(
    skins: Seq<Skin>,
    listings: Seq<FixtureListing>,
    request: PlanRequest,
    places: Seq<int>,
) -> bool {
    let x = float_from(skins, listings, request, places);
    let aim = goal_aim(skins, request);
    &&& !x.nan() && !aim.low.nan() && !aim.high.nan()
    &&& aim.low.rank() <= x.rank() <= aim.high.rank()
}

/// The plan of a choice is what the contract of it leads to.
proof fn lemma_plan_of_choice(
    skins: Seq<Skin>,
    listings: Seq<FixtureListing>,
    request: PlanRequest,
    places: Seq<int>,
)
    requires
        inputs_failure(skins, request) is None,
        fills_up(skins, listings, request, places),
    ensures
        is_selection(
            places,
            candidate_pool(skins, listings, request).len() as int,
            open_slots(request) as int,
            0,
        ),
        ({
            let plan = plan_of(
                goal_aim(skins, request),
                owned_shares(skins, request),
                candidate_pool(skins, listings, request),
                places,
            );
            &&& plan.places == places
            &&& plan.predicted == float_from(skins, listings, request, places)
            &&& plan.within <==> hits(skins, listings, request, places)
            &&& plan.distance.rank() == miss(skins, listings, request, places)
            &&& cost_of(skins, listings, request, places) <= u64::MAX ==> plan.price == cost_of(
                skins,
                listings,
                request,
                places,
            )
        }),
{
    let pool = candidate_pool(skins, listings, request);
    let owned = slots_of(request.owned_inputs@);
    let offers = stable_sorted(
        crate::catalog::gathered(
            listings,
            skin_ids(input_pool(skins, goal_skin(skins, request))),
            offer_limit(request.listing_limit),
        ),
    );
    assert forall|i: int| 0 <= i < places.len() implies {
        let candidate = pool[#[trigger] places[i]];
        &&& find_skin(skins, candidate.skin.id@) == Some(*candidate.skin)
        &&& candidate.adjusted == adjusted(candidate.listing.float_value, *candidate.skin)
    } by {
        lemma_candidate_known(skins, offers, request.stattrak, places[i]);
    }
    lemma_shares_follow(skins, owned, pool, places);
    lemma_all_floats_known(skins, request.owned_inputs@);
    lemma_cost(pool, places);
}

/// What a choice costs is the total of the prices.
pub(crate) proof fn lemma_cost(pool: Seq<Candidate<'_>>, places: Seq<int>)
    ensures
        cost(pool, places) == total_price(pool, places),
    decreases places.len(),
{
    if places.len() > 0 {
        lemma_cost(pool, places.drop_last());
    }
}

/// What is planned, as a choice.
pub open spec fn proposes(
    r: PlanResponse,
    skins: Seq<Skin>,
    listings: Seq<FixtureListing>,
    request: PlanRequest,
    places: Seq<int>,
) -> bool {
    let pool = candidate_pool(skins, listings, request);
    let owned = request.owned_inputs@.len();
    &&& fills_up(skins, listings, request, places)
    &&& r.selected_inputs@.len() == 10
    &&& forall|i: int|
        0 <= i < places.len() ==> {
            let row = #[trigger] r.selected_inputs@[owned + i];
            &&& row.listing_id == Some(pool[places[i]].listing.id)
            &&& row.price_cents == Some(pool[places[i]].listing.price_cents)
            &&& row.float_value.value == pool[places[i]].listing.float_value
            &&& row.skin_id@ == pool[places[i]].listing.skin_id@
            &&& row.market_url == Some(pool[places[i]].listing.market_url)
        }
    &&& r.predicted_target_float.value == float_from(skins, listings, request, places)
    &&& r.target_distance.value.rank() == miss(skins, listings, request, places)
    &&& r.total_price_cents == cost_of(skins, listings, request, places)
}

/// Nothing can be NaN in a catalog whose spans are finite.
pub open spec fn sound_request(skins: Seq<Skin>, request: PlanRequest) -> bool {
    &&& goal_failure(skins, request) is None
    &&& inputs_failure(skins, request) is None
    &&& sound_caps(goal_skin(skins, request))
    &&& forall|i: int| 0 <= i < skins.len() ==> cap_span(#[trigger] skins[i]).finite()
}

/// In a pool of at most 28 candidates the plan is the best of all choices. It leads to what
/// was asked for wherever some choice does; where none does, no choice leads nearer to the
/// center, whatever the priority. Among choices that lead to what was asked for, the
/// cheapest costs no more than any, and the closest lies no farther from the center than
/// any. What is left equal is decided by the other of the two.
#[verifier::rlimit(40)]
pub proof fn law_plan_against_every_choice(
    skins: Seq<Skin>,
    listings: Seq<FixtureListing>,
    request: PlanRequest,
    r: PlanResponse,
    other: Seq<int>,
) -> (places: Seq<int>)
    requires
        sound_request(skins, request),
        candidate_pool(skins, listings, request).len() <= 28,
        describes_plan(r, skins, listings, request),
        fills_up(skins, listings, request, other),
        forall|any: Seq<int>|
            fills_up(skins, listings, request, any) ==> #[trigger] cost_of(
                skins,
                listings,
                request,
                any,
            ) <= u64::MAX,
    ensures
        proposes(r, skins, listings, request, places),
        hits(skins, listings, request, other) ==> hits(skins, listings, request, places),
        ({
            let (d, e) = (
                miss(skins, listings, request, places),
                miss(skins, listings, request, other),
            );
            let (c, f) = (
                cost_of(skins, listings, request, places),
                cost_of(skins, listings, request, other),
            );
            if !hits(skins, listings, request, places) || (hits(skins, listings, request, other)
                && request.priority is Closest) {
                d < e || (d == e && c <= f)
            } else if hits(skins, listings, request, other) {
                c < f || (c == f && d <= e)
            } else {
                true
            }
        }),
{
    let pool = candidate_pool(skins, listings, request);
    let (aim, owned) = (goal_aim(skins, request), owned_shares(skins, request));
    assert forall|any: Seq<int>|
        is_selection(any, pool.len() as int, open_slots(request) as int, 0) implies !(
    #[trigger] plan_of(aim, owned, pool, any)).distance.nan() by {
        law_distances_are_numbers(skins, listings, request, any);
    }
    lemma_plan_of_choice(skins, listings, request, other);
    law_exact_plan_is_best(skins, listings, request, other);
    law_plan_selects(skins, listings, request);
    let plan = best_plan(skins, listings, request)->0;
    let places = plan.places;
    lemma_proposed(skins, listings, request, r);
    assert(!plan_of(aim, owned, pool, places).distance.nan());
    assert(!plan_of(aim, owned, pool, other).distance.nan());
    lemma_plan_of_choice(skins, listings, request, places);
    assert(cost_of(skins, listings, request, places) <= u64::MAX);
    assert(cost_of(skins, listings, request, other) <= u64::MAX);
    places
}

/// The response shows the choice of the best plan.
#[verifier::rlimit(40)]
pub(crate) proof fn lemma_proposed(
    skins: Seq<Skin>,
    listings: Seq<FixtureListing>,
    request: PlanRequest,
    r: PlanResponse,
)
    requires
        inputs_failure(skins, request) is None,
        best_plan(skins, listings, request) is Some,
        describes_plan(r, skins, listings, request),
        cost_of(skins, listings, request, best_plan(skins, listings, request)->0.places)
            <= u64::MAX,
    ensures
        proposes(
            r,
            skins,
            listings,
            request,
            best_plan(skins, listings, request)->0.places,
        ),
        best_plan(skins, listings, request)->0 == plan_of(
            goal_aim(skins, request),
            owned_shares(skins, request),
            candidate_pool(skins, listings, request),
            best_plan(skins, listings, request)->0.places,
        ),
{
    let plan = best_plan(skins, listings, request)->0;
    let pool = candidate_pool(skins, listings, request);
    let owned = owned_shares(skins, request);
    law_plan_selects(skins, listings, request);
    let choices = if pool.len() <= EXACT_POOL {
        combinations(pool.len() as int, open_slots(request) as int, 0)
    } else {
        beam_level(
            pool,
            missing_sum(aimed_share(skins, request), owned),
            open_slots(request),
            pool.len() as int,
            open_slots(request),
        )
    };
    let plans = plans_of(goal_aim(skins, request), owned, pool, choices);
    lemma_best_is_listed(plans, request.priority);
    let i = choose|i: int| 0 <= i < plans.len() && plans[i] == plan;
    assert(plans[i].places == choices[i]);
    lemma_plan_of_choice(skins, listings, request, plan.places);
    let offers = stable_sorted(
        crate::catalog::gathered(
            listings,
            skin_ids(input_pool(skins, goal_skin(skins, request))),
            offer_limit(request.listing_limit),
        ),
    );
    assert forall|i: int| 0 <= i < plan.places.len() implies {
        let row = #[trigger] r.selected_inputs@[request.owned_inputs@.len() + i];
        let listing = pool[plan.places[i]].listing;
        &&& row.listing_id == Some(listing.id)
        &&& row.price_cents == Some(listing.price_cents)
        &&& row.float_value.value == listing.float_value
        &&& row.skin_id@ == listing.skin_id@
        &&& row.market_url == Some(listing.market_url)
    } by {
        lemma_candidate_known(skins, offers, request.stattrak, plan.places[i]);
    }
}

/// How far the shares of a choice add up from what they should, as a place in the numeric
/// order.
pub open spec fn off(pool: Seq<Candidate<'_>>, places: Seq<int>, expected: Float32) -> int {
    absolute(
        difference(
            running_sum(Seq::new(places.len(), |i: int| pool[places[i]].adjusted)),
            expected,
        ),
    ).rank()
}

/// What such a distance is, is a number.
pub open spec fn measurable(pool: Seq<Candidate<'_>>, places: Seq<int>, expected: Float32) -> bool {
    !difference(
        running_sum(Seq::new(places.len(), |i: int| pool[places[i]].adjusted)),
        expected,
    ).nan()
}

/// A choice rated by its own measures.
proof fn lemma_rating(pool: Seq<Candidate<'_>>, places: Seq<int>, expected: Float32)
    ensures
        ({
            let rating = rating_of(pool, places, expected);
            &&& rating.places == places
            &&& rating.price == cost(pool, places)
            &&& rating.distance.total_rank() >= 0
            &&& measurable(pool, places, expected) ==> rating.distance.total_rank() == off(
                pool,
                places,
                expected,
            ) && rating.distance.total_rank() <= INFINITE_MAGNITUDE
            &&& !measurable(pool, places, expected) ==> rating.distance.total_rank()
                > INFINITE_MAGNITUDE
        }),
{
    lemma_cost(pool, places);
    assert(chosen_shares(pool, places) =~= Seq::new(
        places.len(),
        |i: int| pool[places[i]].adjusted,
    ));
}

/// Where more than 4096 choices compete, the 4096 that are kept add up no farther from the
/// expected sum than any that is dropped; of two that are as far, none that is dropped is
/// cheaper; and of two that cost as much, the kept one has the lower id where their ids first
/// differ. Fewer are all kept.
pub proof fn law_cut_keeps_the_nearest(
    pool: Seq<Candidate<'_>>,
    level: Seq<Seq<int>>,
    expected: Float32,
    kept: Seq<int>,
    dropped: Seq<int>,
)
    ensures
        level.len() <= 4096 ==> pruned(pool, level, expected) == level,
        level.len() > 4096 ==> pruned(pool, level, expected).len() == 4096,
        pruned(pool, level, expected).contains(kept) ==> level.contains(kept),
        pruned(pool, level, expected).contains(kept) && level.contains(dropped) && !pruned(
            pool,
            level,
            expected,
        ).contains(dropped) && measurable(pool, dropped, expected) ==> {
            &&& measurable(pool, kept, expected)
            &&& off(pool, kept, expected) <= off(pool, dropped, expected)
            &&& off(pool, kept, expected) == off(pool, dropped, expected) ==> cost(pool, kept)
                <= cost(pool, dropped)
            &&& off(pool, kept, expected) == off(pool, dropped, expected) && cost(pool, kept)
                == cost(pool, dropped) ==> forall|m: int| #[trigger]
                differ_first(pool, kept, dropped, m) ==> text_before(
                    pool[kept[m]].listing.id@,
                    pool[dropped[m]].listing.id@,
                )
        },
{
    let cut = pruned(pool, level, expected);
    if cut.contains(kept) {
        let i = choose|i: int| 0 <= i < cut.len() && cut[i] == kept;
        lemma_pruned_keeps(pool, level, expected, i);
        if level.len() > 4096 && level.contains(dropped) && !cut.contains(dropped) {
            broadcast use vstd::seq_lib::group_to_multiset_ensures;

            let ratings = ratings_of(pool, level, expected);
            let sorted = stable_sorted(ratings);
            lemma_stable_sorted(ratings);
            let h = choose|h: int| 0 <= h < level.len() && level[h] == dropped;
            assert(ratings[h] == rating_of(pool, dropped, expected));
            assert(ratings.contains(ratings[h]));
            assert(sorted.to_multiset().count(ratings[h]) > 0);
            assert(sorted.contains(ratings[h]));
            let j = choose|j: int| 0 <= j < sorted.len() && sorted[j] == ratings[h];
            if j < cut.len() {
                assert(cut[j] == dropped);
            }
            assert(sorted.contains(sorted[i]));
            assert(sorted.to_multiset().count(sorted[i]) > 0);
            assert(ratings.contains(sorted[i]));
            let l = choose|l: int| 0 <= l < ratings.len() && ratings[l] == sorted[i];
            assert(ratings[l] == rating_of(pool, level[l], expected));
            lemma_rating(pool, level[l], expected);
            lemma_rating(pool, dropped, expected);
            assert(sorted[i].not_after(sorted[j]));
            assert forall|m: int| #[trigger]
                differ_first(pool, kept, dropped, m) && sorted[i].distance.total_rank()
                    == sorted[j].distance.total_rank() && sorted[i].price
                    == sorted[j].price implies text_before(
                pool[kept[m]].listing.id@,
                pool[dropped[m]].listing.id@,
            ) by {
                let (x, y) = (listing_ids(pool, kept), listing_ids(pool, dropped));
                assert(x.take(m) =~= y.take(m));
                lemma_lists_differ(x, y, m);
                assert(x[m] == pool[kept[m]].listing.id@);
                assert(y[m] == pool[dropped[m]].listing.id@);
            }
        }
    }
}

/// The ids of two choices first differ at `m`.
pub open spec fn differ_first(
    pool: Seq<Candidate<'_>>,
    a: Seq<int>,
    b: Seq<int>,
    m: int,
) -> bool {
    &&& 0 <= m < a.len()
    &&& m < b.len()
    &&& 0 <= a[m] < pool.len()
    &&& 0 <= b[m] < pool.len()
    &&& pool[a[m]].listing.id@ != pool[b[m]].listing.id@
    &&& listing_ids(pool, a).take(m) == listing_ids(pool, b).take(m)
}

/// Lists stand in the order of the first texts in which they differ.
proof fn lemma_lists_differ(a: Seq<Seq<char>>, b: Seq<Seq<char>>, m: int)
    requires
        0 <= m < a.len(),
        m < b.len(),
        a.take(m) == b.take(m),
        a[m] != b[m],
    ensures
        !(list_relation(a, b) is After) ==> text_before(a[m], b[m]),
    decreases m,
{
    if m > 0 {
        let (x, y) = (a.drop_first(), b.drop_first());
        assert(a.take(m)[0] == b.take(m)[0]);
        assert(x.take(m - 1) =~= a.take(m).drop_first());
        assert(y.take(m - 1) =~= b.take(m).drop_first());
        lemma_lists_differ(x, y, m - 1);
    }
}

/// A choice of `count` among the first `n` candidates comes from one among the first
/// `n - 1`, as it is or with the last candidate added.
pub open spec fn grown_from(
    pool: Seq<Candidate<'_>>,
    desired: Float32,
    required: nat,
    n: int,
    count: nat,
    places: Seq<int>,
) -> bool {
    ||| beam_level(pool, desired, required, n - 1, count).contains(places)
    ||| places.len() > 0 && places.last() == n - 1 && beam_level(
        pool,
        desired,
        required,
        n - 1,
        (count - 1) as nat,
    ).contains(places.drop_last()) && cost(pool, places) <= u64::MAX
}

/// What a level is extended to.
proof fn lemma_extended(pool: Seq<Candidate<'_>>, level: Seq<Seq<int>>, place: int, places: Seq<int>)
    ensures
        extended(pool, level, place).contains(places) <==> places.len() > 0 && places.last()
            == place && level.contains(places.drop_last()) && cost(pool, places) <= u64::MAX,
    decreases level.len(),
{
    let all = extended(pool, level, place);
    if level.len() > 0 {
        let front = level.drop_last();
        let before = extended(pool, front, place);
        let longer = level.last().push(place);
        lemma_extended(pool, front, place, places);
        lemma_cost(pool, longer);
        lemma_cost(pool, level.last());
        assert(longer.drop_last() =~= level.last());
        assert(level[level.len() - 1] == level.last());
        if all.contains(places) {
            let i = choose|i: int| 0 <= i < all.len() && all[i] == places;
            if i < before.len() {
                assert(before[i] == places);
                let k = choose|k: int| 0 <= k < front.len() && front[k] == places.drop_last();
                assert(level[k] == places.drop_last());
            }
        }
        if places.len() > 0 && places.last() == place && level.contains(places.drop_last())
            && cost(pool, places) <= u64::MAX {
            let k = choose|k: int| 0 <= k < level.len() && level[k] == places.drop_last();
            if k < front.len() {
                assert(front[k] == places.drop_last());
                let i = choose|i: int| 0 <= i < before.len() && before[i] == places;
                assert(all[i] == places);
            } else {
                assert(places =~= longer);
                assert(all.last() == longer);
                assert(all[all.len() - 1] == longer);
            }
        }
    }
}

/// The bounded search goes on with the nearest choices: what it keeps grew from what it had
/// kept before, and what it could have kept and did not is no nearer to the part of the
/// missing sum that so many candidates should make up.
pub proof fn law_search_goes_on_with_the_nearest(
    pool: Seq<Candidate<'_>>,
    desired: Float32,
    required: nat,
    n: int,
    count: nat,
    kept: Seq<int>,
    dropped: Seq<int>,
)
    requires
        n > 0,
        count > 0,
        beam_level(pool, desired, required, n, count).contains(kept),
    ensures
        grown_from(pool, desired, required, n, count, kept),
        grown_from(pool, desired, required, n, count, dropped) && !beam_level(
            pool,
            desired,
            required,
            n,
            count,
        ).contains(dropped) ==> {
            let expected = expected_sum(desired, count, required);
            &&& beam_level(pool, desired, required, n, count).len() == 4096
            &&& measurable(pool, dropped, expected) ==> measurable(pool, kept, expected) && off(
                pool,
                kept,
                expected,
            ) <= off(pool, dropped, expected)
        },
{
    let same = beam_level(pool, desired, required, n - 1, count);
    let shorter = beam_level(pool, desired, required, n - 1, (count - 1) as nat);
    let longer = extended(pool, shorter, n - 1);
    let level = same + longer;
    let expected = expected_sum(desired, count, required);
    law_cut_keeps_the_nearest(pool, level, expected, kept, dropped);
    lemma_extended(pool, shorter, n - 1, kept);
    lemma_extended(pool, shorter, n - 1, dropped);
    let i = choose|i: int| 0 <= i < level.len() && level[i] == kept;
    if i < same.len() {
        assert(same[i] == kept);
    } else {
        assert(longer[i - same.len()] == kept);
    }
    if grown_from(pool, desired, required, n, count, dropped) {
        if same.contains(dropped) {
            let h = choose|h: int| 0 <= h < same.len() && same[h] == dropped;
            assert(level[h] == dropped);
        } else {
            let h = choose|h: int| 0 <= h < longer.len() && longer[h] == dropped;
            assert(level[same.len() + h] == dropped);
        }
    }
}

/// The part of a sum that `count` of `required` shares should make up, by value.
pub proof fn law_expected_sum(desired: Float32, count: nat, required: nat)
    requires
        desired.finite(),
        0 <= desired.units() <= 10 * pow2(149),
        0 < count <= required <= 10,
    ensures
        expected_sum(desired, count, required).finite(),
        50_000 * gap(
            required * expected_sum(desired, count, required).units(),
            count * desired.units(),
        ) <= pow2(149),
{
    let p = pow2(149) as int;
    let (c, k) = (count as int, required as int);
    lemma_large_unit();
    lemma_count_exact(count);
    lemma_count_exact(required);
    assert(0 <= c * p <= k * p <= 10 * p) by (nonlinear_arith)
        requires
            0 < c <= k <= 10,
            p >= 0,
    ;
    lemma_fraction_error(of_count(count), of_count(required), k);
    let part = quotient(of_count(count), of_count(required));
    lemma_unit_value(part);
    lemma_zero_units(0);
    law_order_is_numeric(zero(), desired);
    let e = expected_sum(desired, count, required);
    lemma_product_bounded(desired, part);
    lemma_product_error(desired, part);
    let (d, f, x, m) = (desired.units(), part.units(), e.units(), 0x100_0000int);
    let pp = p * p;
    assert(0 <= d * f <= 10 * pp) by (nonlinear_arith)
        requires
            0 <= d <= 10 * p,
            0 <= f <= p,
            pp == p * p,
    ;
    let g = gap(k * f, c * p) as int;
    lemma_gap_scaled(k * f, c * p, d);
    assert(m * (g * d) <= 10 * (20 * pp)) by (nonlinear_arith)
        requires
            m * g <= c * p + k * m,
            c * p <= 10 * p,
            k <= 10,
            10 * m <= p,
            m == 0x100_0000,
            0 <= d <= 10 * p,
            g >= 0,
            pp == p * p,
    ;
    lemma_gap_scaled(x * p, d * f, k);
    let h = gap(x * p, d * f) as int;
    assert(m * (h * k) <= 10 * (11 * pp)) by (nonlinear_arith)
        requires
            m * h <= d * f + m * p,
            d * f <= 10 * pp,
            m <= p,
            0 < k <= 10,
            h >= 0,
            pp == p * p,
            m == 0x100_0000,
            p >= 0,
    ;
    assert((x * p) * k == (k * x) * p && (d * f) * k == (k * f) * d && (c * p) * d == (c * d) * p)
        by (nonlinear_arith);
    lemma_gap_scaled(k * x, c * d, p);
    let total = gap(k * x, c * d) as int;
    assert(total * p <= h * k + g * d);
    assert(50_000 * total <= p) by (nonlinear_arith)
        requires
            m * (total * p) <= 310 * pp,
            pp == p * p,
            p > 0,
            m == 0x100_0000,
            total >= 0,
    ;
}

/// The product of a number up to ten and a share is finite.
proof fn lemma_product_bounded(a: Float32, b: Float32)
    requires
        a.finite(),
        a.rank() >= 0,
        0 <= a.units() <= 10 * pow2(149),
        in_unit(b),
    ensures
        product(a, b).finite(),
{
    let p = pow2(149);
    lemma_unit_value(b);
    lemma_rank_value(a);
    lemma_rank_value(b);
    lemma_pow2_pos(149);
    lemma_representable(10, 149);
    let (x, y) = (magnitude_units(a.magnitude()), magnitude_units(b.magnitude()));
    assert((x * y) * 1 <= (10 * p) * p) by (nonlinear_arith)
        requires
            0 <= x <= 10 * p,
            0 <= y <= p,
    ;
    law_nearest_monotone(x * y, p, 10 * p, 1);
    reveal(product);
}

/// `a` has the lower place where the two first differ.
pub open spec fn comes_first(a: Seq<int>, b: Seq<int>) -> bool {
    exists|m: int|
        0 <= m < a.len() && m < b.len() && #[trigger] a[m] < b[m] && a.take(m) == b.take(m)
}

proof fn lemma_first_is_strict(a: Seq<int>, b: Seq<int>)
    ensures
        !(comes_first(a, b) && comes_first(b, a)),
        !comes_first(a, a),
{
    if comes_first(a, b) && comes_first(b, a) {
        let m = choose|m: int|
            0 <= m < a.len() && m < b.len() && #[trigger] a[m] < b[m] && a.take(m) == b.take(m);
        let l = choose|l: int|
            0 <= l < b.len() && l < a.len() && #[trigger] b[l] < a[l] && b.take(l) == a.take(l);
        if m < l {
            assert(a.take(l)[m] == b.take(l)[m]);
        } else if l < m {
            assert(a.take(m)[l] == b.take(m)[l]);
        }
    }
}

/// Combinations are listed with the lower places first.
proof fn lemma_combinations_in_order(n: int, k: int, start: int, i: int, j: int)
    requires
        0 <= i < j < combinations(n, k, start).len(),
    ensures
        comes_first(combinations(n, k, start)[i], combinations(n, k, start)[j]),
    decreases n - start,
{
    if k > 0 && start < n {
        let inner = combinations(n, k - 1, start + 1);
        let first = headed(start, inner);
        let later = combinations(n, k, start + 1);
        let all = combinations(n, k, start);
        let (a, b) = (all[i], all[j]);
        if j < first.len() {
            lemma_combinations_in_order(n, k - 1, start + 1, i, j);
            let (x, y) = (inner[i], inner[j]);
            assert(a == first[i] && b == first[j]);
            let m = choose|m: int|
                0 <= m < x.len() && m < y.len() && #[trigger] x[m] < y[m] && x.take(m) == y.take(m);
            assert(a[m + 1] == x[m] && b[m + 1] == y[m]);
            assert(a.take(m + 1) =~= seq![start] + x.take(m));
            assert(b.take(m + 1) =~= seq![start] + y.take(m));
        } else if i >= first.len() {
            assert(a == later[i - first.len()] && b == later[j - first.len()]);
            lemma_combinations_in_order(n, k, start + 1, i - first.len(), j - first.len());
        } else {
            assert(a == first[i] && b == later[j - first.len()]);
            lemma_combination_selects(n, k, start + 1, j - first.len());
            assert(a[0] == start);
            assert(b[0] >= start + 1);
            assert(a.take(0) =~= b.take(0));
        }
    }
}

/// What stands before the best is worse.
proof fn lemma_best_is_first(plans: Seq<Plan>, priority: PlanningPriority) -> (i: int)
    requires
        plans.len() > 0,
        forall|j: int| 0 <= j < plans.len() ==> !(#[trigger] plans[j]).distance.nan(),
    ensures
        0 <= i < plans.len(),
        best_over(None, plans, priority) == Some(plans[i]),
        forall|j: int| 0 <= j < i ==> preferred(plans[i], #[trigger] plans[j], priority),
    decreases plans.len(),
{
    let n = plans.len() - 1;
    let front = plans.drop_last();
    assert(plans[n] == plans.last());
    if n == 0 {
        assert(best_over(None, front, priority) is None);
        0
    } else {
        assert forall|j: int| 0 <= j < front.len() implies !(
        #[trigger] front[j]).distance.nan() by {
            assert(front[j] == plans[j]);
        }
        let i = lemma_best_is_first(front, priority);
        assert(front[i] == plans[i]);
        if preferred(plans[n], plans[i], priority) {
            assert forall|j: int| 0 <= j < n implies preferred(
                plans[n],
                #[trigger] plans[j],
                priority,
            ) by {
                law_best_is_unbeaten(front, priority, j);
                assert(front[j] == plans[j]);
                assert(!preferred(plans[j], plans[i], priority));
            }
            n
        } else {
            assert forall|j: int| 0 <= j < i implies preferred(
                plans[i],
                #[trigger] plans[j],
                priority,
            ) by {
                assert(front[j] == plans[j]);
            }
            i
        }
    }
}

/// Of choices that are equally good the plan takes the first: no choice with the lower
/// candidate where the two first differ leads as near for as much.
#[verifier::rlimit(40)]
pub proof fn law_first_of_equal_choices(
    skins: Seq<Skin>,
    listings: Seq<FixtureListing>,
    request: PlanRequest,
    r: PlanResponse,
    other: Seq<int>,
) -> (places: Seq<int>)
    requires
        sound_request(skins, request),
        candidate_pool(skins, listings, request).len() <= 28,
        describes_plan(r, skins, listings, request),
        fills_up(skins, listings, request, other),
        forall|any: Seq<int>|
            fills_up(skins, listings, request, any) ==> #[trigger] cost_of(
                skins,
                listings,
                request,
                any,
            ) <= u64::MAX,
    ensures
        proposes(r, skins, listings, request, places),
        hits(skins, listings, request, other) == hits(skins, listings, request, places) && miss(
            skins,
            listings,
            request,
            other,
        ) == miss(skins, listings, request, places) && cost_of(skins, listings, request, other)
            == cost_of(skins, listings, request, places) ==> !comes_first(other, places),
{
    let pool = candidate_pool(skins, listings, request);
    let (aim, owned) = (goal_aim(skins, request), owned_shares(skins, request));
    let (n, k) = (pool.len() as int, open_slots(request) as int);
    let choices = combinations(n, k, 0);
    let plans = plans_of(aim, owned, pool, choices);
    lemma_plan_of_choice(skins, listings, request, other);
    law_combinations(n, k, other);
    let j = choose|j: int| 0 <= j < choices.len() && choices[j] == other;
    assert forall|h: int| 0 <= h < plans.len() implies !(#[trigger] plans[h]).distance.nan() by {
        law_combinations(n, k, choices[h]);
        assert(choices.contains(choices[h]));
        law_distances_are_numbers(skins, listings, request, choices[h]);
    }
    let i = lemma_best_is_first(plans, request.priority);
    let places = choices[i];
    law_combinations(n, k, places);
    assert(choices.contains(places));
    assert(fills_up(skins, listings, request, places));
    assert(cost_of(skins, listings, request, places) <= u64::MAX);
    assert(cost_of(skins, listings, request, other) <= u64::MAX);
    lemma_proposed(skins, listings, request, r);
    lemma_plan_of_choice(skins, listings, request, places);
    lemma_first_is_strict(other, places);
    if comes_first(other, places) {
        if i < j {
            lemma_combinations_in_order(n, k, 0, i, j);
        }
        if j < i {
            assert(preferred(plans[i], plans[j], request.priority));
        }
    }
    places
}

/// What is missing to the aim, by value: ten times the share of the aim, less the shares that
/// there are.
pub proof fn law_missing_sum(aim: Float32, owned: Seq<Float32>)
    requires
        in_unit(aim),
        owned.len() <= 9,
        forall|i: int| 0 <= i < owned.len() ==> in_unit(#[trigger] owned[i]),
    ensures
        missing_sum(aim, owned).finite(),
        100_000 * gap(
            missing_sum(aim, owned).units(),
            10 * aim.units() - exact_sum(owned),
        ) <= pow2(149),
{
    lemma_missing(aim, owned);
}

/// In a pool of more than 28 candidates the plan is the best of the choices that the bounded
/// search kept, in the same sense: it leads to what was asked for wherever one of them does,
/// and no other of them leads nearer, or costs less, as the priority has it.
#[verifier::rlimit(40)]
pub proof fn law_plan_against_kept_choices(
    skins: Seq<Skin>,
    listings: Seq<FixtureListing>,
    request: PlanRequest,
    r: PlanResponse,
    other: Seq<int>,
) -> (places: Seq<int>)
    requires
        sound_request(skins, request),
        candidate_pool(skins, listings, request).len() > 28,
        describes_plan(r, skins, listings, request),
        beam_level(
            candidate_pool(skins, listings, request),
            missing_sum(aimed_share(skins, request), owned_shares(skins, request)),
            (10 - request.owned_inputs@.len()) as nat,
            candidate_pool(skins, listings, request).len() as int,
            (10 - request.owned_inputs@.len()) as nat,
        ).contains(other),
    ensures
        proposes(r, skins, listings, request, places),
        fills_up(skins, listings, request, other),
        hits(skins, listings, request, other) ==> hits(skins, listings, request, places),
        ({
            let (d, e) = (
                miss(skins, listings, request, places),
                miss(skins, listings, request, other),
            );
            let (c, f) = (
                cost_of(skins, listings, request, places),
                cost_of(skins, listings, request, other),
            );
            if !hits(skins, listings, request, places) || (hits(skins, listings, request, other)
                && request.priority is Closest) {
                d < e || (d == e && c <= f)
            } else if hits(skins, listings, request, other) {
                c < f || (c == f && d <= e)
            } else {
                true
            }
        }),
{
    let pool = candidate_pool(skins, listings, request);
    let (aim, owned) = (goal_aim(skins, request), owned_shares(skins, request));
    let (n, k) = (pool.len() as int, open_slots(request));
    let desired = missing_sum(aimed_share(skins, request), owned);
    let choices = beam_level(pool, desired, k, n, k);
    let plans = plans_of(aim, owned, pool, choices);
    assert forall|h: int| 0 <= h < plans.len() implies !(#[trigger] plans[h]).distance.nan() by {
        law_beam_selects(pool, desired, k, n, k, h);
        law_distances_are_numbers(skins, listings, request, choices[h]);
    }
    let j = choose|j: int| 0 <= j < choices.len() && choices[j] == other;
    law_beam_selects(pool, desired, k, n, k, j);
    law_best_is_unbeaten(plans, request.priority, j);
    let plan = best_plan(skins, listings, request)->0;
    let i = choose|i: int| 0 <= i < plans.len() && plans[i] == plan;
    law_beam_selects(pool, desired, k, n, k, i);
    let places = choices[i];
    assert(plan.places == places);
    lemma_cost(pool, places);
    lemma_cost(pool, other);
    lemma_proposed(skins, listings, request, r);
    lemma_plan_of_choice(skins, listings, request, places);
    lemma_plan_of_choice(skins, listings, request, other);
    places
}

} // verus!
