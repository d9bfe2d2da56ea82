//! Which listings a plan can choose from.
use crate::acceptance::{lemma_float_accepted, lemma_found_under, ordered_caps, orderly, trades_up};
use crate::catalog::{
    belongs, cheapest_of, distinct_ids, gathered, input_pool, lemma_found, listings_of, pool, sells,
};
use crate::domain::{FixtureListing, Rarity, Skin};
use crate::goals::law_goal_taken_on;
use crate::odds::lemma_pool_skin;
use crate::planner::{
    candidate_pool, goal_failure, goal_skin, lemma_candidate_known, offer_limit, skin_ids, usable,
    usable_offers, PlanRequest,
};
use crate::search::Candidate;
use crate::sorting::{lemma_stable_sorted, stable_sorted, Ranked};
use crate::text::text_before;
use vstd::prelude::*;

verus! {

/// A listing can fill a slot of a contract for the target: it sells a skin of the target's
/// collection, one step below it, in the wanted variant and with a float within its caps.
pub open spec fn can_fill(x: FixtureListing, skin: Skin, target: Skin, stattrak: bool) -> bool {
    &&& x.skin_id@ == skin.id@
    &&& skin.collection_id@ == target.collection_id@
    &&& trades_up(skin.rarity, target.rarity)
    &&& stattrak ==> skin.stattrak_supported
    &&& x.float_value.finite()
    &&& skin.min_float.units() <= x.float_value.units() <= skin.max_float.units()
}

/// The catalog has the skin that a listing sells, and it can fill a slot.
pub open spec fn fits_in(skins: Seq<Skin>, x: FixtureListing, target: Skin, stattrak: bool) -> bool {
    exists|k: int| 0 <= k < skins.len() && can_fill(x, #[trigger] skins[k], target, stattrak)
}

/// A listing is among the candidates.
pub open spec fn is_offered(pool: Seq<Candidate<'_>>, x: FixtureListing) -> bool {
    exists|i: int| 0 <= i < pool.len() && *(#[trigger] pool[i]).listing == x
}

/// How many listings of a skin a plan looks at: as many as the request says, at least one
/// and at most two hundred; two hundred where it says nothing.
pub proof fn law_offer_limit(limit: Option<usize>)
    ensures
        1 <= offer_limit(limit) <= 200,
        limit is None ==> offer_limit(limit) == 200,
        limit matches Some(n) ==> 1 <= n <= 200 ==> offer_limit(limit) == n,
        limit matches Some(n) ==> n > 200 ==> offer_limit(limit) == 200,
{
}

/// The usable offers, by their places among all offers.
proof fn lemma_usable_places(skins: Seq<Skin>, offers: Seq<FixtureListing>, stattrak: bool) -> (at:
    Seq<int>)
    ensures
        at.len() == usable_offers(skins, offers, stattrak).len(),
        forall|i: int|
            0 <= i < at.len() ==> 0 <= #[trigger] at[i] < offers.len() && *usable_offers(
                skins,
                offers,
                stattrak,
            )[i].listing == offers[at[i]],
        forall|i: int, j: int| 0 <= i < j < at.len() ==> #[trigger] at[i] < #[trigger] at[j],
        forall|h: int|
            0 <= h < offers.len() && usable(skins, #[trigger] offers[h], stattrak) is Some
                ==> is_offered(usable_offers(skins, offers, stattrak), offers[h]),
    decreases offers.len(),
{
    if offers.len() == 0 {
        Seq::empty()
    } else {
        let front = offers.drop_last();
        let before = usable_offers(skins, front, stattrak);
        let all = usable_offers(skins, offers, stattrak);
        let n = offers.len() - 1;
        let at = lemma_usable_places(skins, front, stattrak);
        let r = if usable(skins, offers.last(), stattrak) is Some {
            at.push(n)
        } else {
            at
        };
        assert forall|i: int| 0 <= i < r.len() implies 0 <= #[trigger] r[i] < offers.len()
            && *all[i].listing == offers[r[i]] by {
            if i < at.len() {
                assert(r[i] == at[i]);
                assert(front[at[i]] == offers[at[i]]);
                assert(all[i] == before[i]);
            }
        }
        assert forall|i: int, j: int| 0 <= i < j < r.len() implies #[trigger] r[i]
            < #[trigger] r[j] by {
            assert(r[i] == at[i]);
            if j < at.len() {
                assert(r[j] == at[j]);
            }
        }
        assert forall|h: int|
            0 <= h < offers.len() && usable(skins, #[trigger] offers[h], stattrak) is Some
            implies is_offered(all, offers[h]) by {
            if h < n {
                assert(front[h] == offers[h]);
                let i = choose|i: int|
                    0 <= i < before.len() && *(#[trigger] before[i]).listing == offers[h];
                assert(all[i] == before[i]);
            } else {
                assert(*all[all.len() - 1].listing == offers[n]);
            }
        }
        r
    }
}

/// What is gathered is what is cheapest for one of the ids.
pub(crate) proof fn lemma_gathered(
    listings: Seq<FixtureListing>,
    ids: Seq<Seq<char>>,
    limit: nat,
    x: FixtureListing,
)
    ensures
        gathered(listings, ids, limit).contains(x) <==> exists|j: int|
            0 <= j < ids.len() && cheapest_of(listings, #[trigger] ids[j], limit).contains(x),
    decreases ids.len(),
{
    if ids.len() > 0 {
        let front = ids.drop_last();
        let (before, last) = (
            gathered(listings, front, limit),
            cheapest_of(listings, ids.last(), limit),
        );
        let n = ids.len() - 1;
        lemma_gathered(listings, front, limit, x);
        assert(ids[n] == ids.last());
        if gathered(listings, ids, limit).contains(x) {
            let i = choose|i: int|
                0 <= i < gathered(listings, ids, limit).len() && gathered(listings, ids, limit)[i]
                    == x;
            if i < before.len() {
                assert(before[i] == x);
                let j = choose|j: int|
                    0 <= j < front.len() && cheapest_of(listings, #[trigger] front[j], limit).contains(
                        x,
                    );
                assert(ids[j] == front[j]);
            } else {
                assert(last[i - before.len()] == x);
            }
        }
        if exists|j: int|
            0 <= j < ids.len() && cheapest_of(listings, #[trigger] ids[j], limit).contains(x) {
            let j = choose|j: int|
                0 <= j < ids.len() && cheapest_of(listings, #[trigger] ids[j], limit).contains(x);
            if j < n {
                assert(front[j] == ids[j]);
                let i = choose|i: int| 0 <= i < before.len() && before[i] == x;
                assert(gathered(listings, ids, limit)[i] == x);
            } else {
                let i = choose|i: int| 0 <= i < last.len() && last[i] == x;
                assert(gathered(listings, ids, limit)[before.len() + i] == x);
            }
        }
    }
}

/// Sorting listings keeps what there is.
pub(crate) proof fn lemma_sorted_contains(s: Seq<FixtureListing>, x: FixtureListing)
    ensures
        stable_sorted(s).contains(x) <==> s.contains(x),
{
    broadcast use vstd::seq_lib::group_to_multiset_ensures;

    lemma_stable_sorted(s);
    let sorted = stable_sorted(s);
    assert(sorted.contains(x) <==> sorted.to_multiset().count(x) > 0);
    assert(s.contains(x) <==> s.to_multiset().count(x) > 0);
}

/// What is cheapest of a skin: its own listings, all of them where there are few; none that
/// is left out is cheaper than one that is not.
pub(crate) proof fn lemma_cheapest_of(
    listings: Seq<FixtureListing>,
    id: Seq<char>,
    limit: nat,
    x: FixtureListing,
    y: FixtureListing,
)
    ensures
        cheapest_of(listings, id, limit).contains(x) ==> listings.contains(x) && x.skin_id@ == id,
        listings.contains(x) && x.skin_id@ == id && listings_of(listings, id).len() <= limit
            ==> cheapest_of(listings, id, limit).contains(x),
        listings.contains(x) && x.skin_id@ == id && !cheapest_of(listings, id, limit).contains(x)
            && cheapest_of(listings, id, limit).contains(y) ==> y.price_cents <= x.price_cents,
{
    let own = listings_of(listings, id);
    let sorted = stable_sorted(own);
    let cut = cheapest_of(listings, id, limit);
    lemma_stable_sorted(own);
    lemma_sorted_contains(own, x);
    if cut.contains(x) {
        let i = choose|i: int| 0 <= i < cut.len() && cut[i] == x;
        assert(sorted[i] == x);
        listings.lemma_filter_contains_rev(sells(id), x);
        let h = choose|h: int| 0 <= h < own.len() && own[h] == x;
        listings.lemma_filter_pred(sells(id), h);
    }
    if listings.contains(x) && x.skin_id@ == id {
        let h = choose|h: int| 0 <= h < listings.len() && listings[h] == x;
        listings.lemma_filter_contains(sells(id), h);
        assert(own.contains(x));
        let i = choose|i: int| 0 <= i < sorted.len() && sorted[i] == x;
        if i < cut.len() {
            assert(cut[i] == x);
        }
        if cut.contains(y) {
            let j = choose|j: int| 0 <= j < cut.len() && cut[j] == y;
            assert(sorted[j] == y);
            if i >= cut.len() {
                assert(sorted[j].not_after(sorted[i]));
            }
        }
    }
}

/// A listing is usable where it can fill a slot.
proof fn lemma_usable(skins: Seq<Skin>, x: FixtureListing, k: int, stattrak: bool)
    requires
        orderly(skins),
        0 <= k < skins.len(),
        x.skin_id@ == skins[k].id@,
    ensures
        usable(skins, x, stattrak) is Some <==> (stattrak ==> skins[k].stattrak_supported)
            && x.float_value.finite() && skins[k].min_float.units() <= x.float_value.units()
            <= skins[k].max_float.units(),
{
    lemma_found_under(skins, k);
    assert(ordered_caps(skins[k]));
    lemma_float_accepted(x.float_value, skins[k]);
}

/// The ids of the input pool are those of the skins that lead to the target.
proof fn lemma_input_ids(skins: Seq<Skin>, target: Skin, k: int)
    requires
        distinct_ids(skins),
        target.rarity is Covert,
        0 <= k < skins.len(),
    ensures
        skin_ids(input_pool(skins, target)).contains(skins[k].id@) <==> skins[k].collection_id@
            == target.collection_id@ && trades_up(skins[k].rarity, target.rarity),
{
    let inputs = input_pool(skins, target);
    let ids = skin_ids(inputs);
    let rarity = Rarity::Classified;
    assert(inputs == pool(skins, target.collection_id@, rarity));
    if ids.contains(skins[k].id@) {
        let j = choose|j: int| 0 <= j < ids.len() && ids[j] == skins[k].id@;
        lemma_pool_skin(skins, target.collection_id@, rarity, j);
        let l = choose|l: int| 0 <= l < skins.len() && skins[l] == inputs[j];
        lemma_found_under(skins, l);
        lemma_found_under(skins, k);
    }
    if skins[k].collection_id@ == target.collection_id@ && trades_up(
        skins[k].rarity,
        target.rarity,
    ) {
        skins.lemma_filter_contains(belongs(target.collection_id@, rarity), k);
        let j = choose|j: int| 0 <= j < inputs.len() && inputs[j] == skins[k];
        assert(ids[j] == skins[k].id@);
    }
}

/// What a plan chooses from is what can fill a slot: nothing else; all of it where a skin
/// has no more listings than the plan looks at; and none that is left out is cheaper than
/// a candidate of the same skin.
#[verifier::rlimit(40)]
pub proof fn law_which_listings_are_offered(
    skins: Seq<Skin>,
    listings: Seq<FixtureListing>,
    request: PlanRequest,
    x: FixtureListing,
    y: FixtureListing,
)
    requires
        orderly(skins),
        goal_failure(skins, request) is None,
    ensures
        ({
            let pool = candidate_pool(skins, listings, request);
            let fits = listings.contains(x) && fits_in(
                skins,
                x,
                goal_skin(skins, request),
                request.stattrak,
            );
            &&& is_offered(pool, x) ==> fits
            &&& fits && listings_of(listings, x.skin_id@).len() <= offer_limit(
                request.listing_limit,
            ) ==> is_offered(pool, x)
            &&& fits && !is_offered(pool, x) && is_offered(pool, y) && y.skin_id@ == x.skin_id@
                ==> y.price_cents <= x.price_cents
        }),
{
    let target = goal_skin(skins, request);
    let ids = skin_ids(input_pool(skins, target));
    let limit = offer_limit(request.listing_limit);
    let all = gathered(listings, ids, limit);
    let offers = stable_sorted(all);
    let pool = candidate_pool(skins, listings, request);
    let h = law_goal_taken_on(skins, request);
    let at = lemma_usable_places(skins, offers, request.stattrak);
    lemma_gathered(listings, ids, limit, x);
    lemma_sorted_contains(all, x);
    if is_offered(pool, x) {
        let i = choose|i: int| 0 <= i < pool.len() && *(#[trigger] pool[i]).listing == x;
        lemma_candidate_known(skins, offers, request.stattrak, i);
        let j = choose|j: int|
            0 <= j < ids.len() && cheapest_of(listings, #[trigger] ids[j], limit).contains(x);
        lemma_cheapest_of(listings, ids[j], limit, x, x);
        lemma_found(skins, x.skin_id@);
        let k = choose|k: int| 0 <= k < skins.len() && skins[k] == *pool[i].skin;
        lemma_input_ids(skins, target, k);
        assert(ids[j] == skins[k].id@);
        lemma_float_accepted(x.float_value, skins[k]);
        assert(can_fill(x, skins[k], target, request.stattrak));
    }
    if listings.contains(x) && fits_in(skins, x, target, request.stattrak) {
        let k = choose|k: int|
            0 <= k < skins.len() && can_fill(x, #[trigger] skins[k], target, request.stattrak);
        lemma_usable(skins, x, k, request.stattrak);
        lemma_input_ids(skins, target, k);
        let j = choose|j: int| 0 <= j < ids.len() && ids[j] == skins[k].id@;
        lemma_cheapest_of(listings, ids[j], limit, x, y);
        if cheapest_of(listings, ids[j], limit).contains(x) {
            assert(all.contains(x));
            let o = choose|o: int| 0 <= o < offers.len() && offers[o] == x;
            assert(usable(skins, offers[o], request.stattrak) is Some);
        }
        if is_offered(pool, y) && y.skin_id@ == x.skin_id@ {
            let i = choose|i: int| 0 <= i < pool.len() && *(#[trigger] pool[i]).listing == y;
            lemma_candidate_known(skins, offers, request.stattrak, i);
            lemma_gathered(listings, ids, limit, y);
            lemma_sorted_contains(all, y);
            let l = choose|l: int|
                0 <= l < ids.len() && cheapest_of(listings, #[trigger] ids[l], limit).contains(y);
            lemma_cheapest_of(listings, ids[l], limit, y, y);
            assert(ids[l] == ids[j]);
        }
    }
}

/// Candidates stand by their prices; those of one price by their ids.
pub proof fn law_candidates_are_in_order(
    skins: Seq<Skin>,
    listings: Seq<FixtureListing>,
    request: PlanRequest,
    i: int,
    j: int,
)
    requires
        0 <= i < j < candidate_pool(skins, listings, request).len(),
    ensures
        ({
            let (a, b) = (
                candidate_pool(skins, listings, request)[i].listing,
                candidate_pool(skins, listings, request)[j].listing,
            );
            a.price_cents < b.price_cents || (a.price_cents == b.price_cents && (text_before(
                a.id@,
                b.id@,
            ) || a.id@ == b.id@))
        }),
{
    let offers = stable_sorted(
        gathered(
            listings,
            skin_ids(input_pool(skins, goal_skin(skins, request))),
            offer_limit(request.listing_limit),
        ),
    );
    lemma_stable_sorted(
        gathered(
            listings,
            skin_ids(input_pool(skins, goal_skin(skins, request))),
            offer_limit(request.listing_limit),
        ),
    );
    let at = lemma_usable_places(skins, offers, request.stattrak);
    assert(at[i] < at[j]);
    assert(offers[at[i]].not_after(offers[at[j]]));
}

} // verus!
