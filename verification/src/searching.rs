//! What a search of the market looks at, and what it finds.
use crate::acceptance::{lemma_found_under, ordered_caps, trades_up};
use crate::accuracy::{law_order_is_numeric, lemma_one, lemma_zero_units};
use crate::catalog::{distinct_ids, input_pool, lemma_found};
use crate::domain::{describes_wear, zero, FixtureListing, Rarity, Skin, WearInfo};
use crate::float32::Float32;
use crate::float64::narrowed;
use crate::json::{json_member, json_text, member, parsed_json, Json};
use crate::market::{
    buyer_price, first_page, fitting_wears, found_after, has_offer, has_read, hash_name, holds_text,
    law_pages_per_skin, lemma_budget_is_split, lemma_encode_concat, listed_float,
    listed_inspect_link, offers_skin, page_url, pages_from_wear, pages_of_wear, plan_search_runs,
    preview_link, property_of, purchase_url, query_page, replaced, search_failure, search_goes,
    str_texts, unwrapped, wear_fits, wear_variants, without_repeats, MarketSearch, Offer,
    PlanSearch, SteamAssetProperty, SteamListing, SteamMarketAction, SteamMarketPage,
};
use crate::slices::{lemma_first_match, stands_at};
use crate::sorting::{lemma_stable_sorted, stable_sorted, Ranked};
use crate::text::{decimal, text_before};
use crate::urls::url_with_query;
use crate::wear::{decimal_place, law_exterior_names, law_fixed_numbers, lemma_names_differ};
use crate::yields::{lemma_pool_size, skins_in};
use vstd::arithmetic::power2::pow2;
use vstd::prelude::*;
use vstd::utf8::encode_utf8;

verus! {

/// The places of a skin's caps, in the numeric order.
pub open spec fn overlaps(skin: Skin, from: int, to: int) -> bool {
    skin.min_float.rank() < to && from < skin.max_float.rank()
}

/// The exteriors that fit, one after the other.
proof fn lemma_fitting(skin: Skin, n: nat, i: int)
    requires
        0 <= i < n <= 5,
    ensures
        fitting_wears(skin, n).contains(wear_variants()[i].0) <==> wear_fits(
            skin,
            wear_variants()[i].1,
            wear_variants()[i].2,
        ),
    decreases n,
{
    lemma_names_differ();
    let front = fitting_wears(skin, (n - 1) as nat);
    let all = fitting_wears(skin, n);
    let (name, lower, upper) = wear_variants()[n - 1];
    let wanted = wear_variants()[i].0;
    if i < n - 1 {
        lemma_fitting(skin, (n - 1) as nat, i);
        assert(wanted != name);
        if all.contains(wanted) {
            let h = choose|h: int| 0 <= h < all.len() && all[h] == wanted;
            assert(front[h] == wanted);
        }
        if front.contains(wanted) {
            let h = choose|h: int| 0 <= h < front.len() && front[h] == wanted;
            assert(all[h] == wanted);
        }
    } else {
        lemma_fitting_below(skin, (n - 1) as nat, i);
        if wear_fits(skin, lower, upper) {
            assert(all[all.len() - 1] == wanted);
        }
    }
}

/// Exteriors that were not looked at yet are not there.
proof fn lemma_fitting_below(skin: Skin, n: nat, i: int)
    requires
        n <= i < 5,
    ensures
        !fitting_wears(skin, n).contains(wear_variants()[i].0),
    decreases n,
{
    lemma_names_differ();
    if n > 0 {
        let front = fitting_wears(skin, (n - 1) as nat);
        let all = fitting_wears(skin, n);
        let wanted = wear_variants()[i].0;
        lemma_fitting_below(skin, (n - 1) as nat, i);
        assert(wear_variants()[n - 1].0 != wanted);
        if all.contains(wanted) {
            let h = choose|h: int| 0 <= h < all.len() && all[h] == wanted;
            if h < front.len() {
                assert(front[h] == wanted);
            }
        }
    }
}

/// An exterior is searched exactly where the caps of the skin overlap it: below 0.07, from
/// there to 0.15, to 0.38, to 0.45, and to one.
pub proof fn law_exteriors_searched(skin: Skin)
    requires
        ordered_caps(skin),
    ensures
        ({
            let wears = fitting_wears(skin, 5);
            let (a, b, c, d) = (
                decimal_place(7, 100),
                decimal_place(15, 100),
                decimal_place(38, 100),
                decimal_place(45, 100),
            );
            &&& wears.contains("Factory New"@) <==> overlaps(skin, 0, a)
            &&& wears.contains("Minimal Wear"@) <==> overlaps(skin, a, b)
            &&& wears.contains("Field-Tested"@) <==> overlaps(skin, b, c)
            &&& wears.contains("Well-Worn"@) <==> overlaps(skin, c, d)
            &&& wears.contains("Battle-Scarred"@) <==> overlaps(skin, d, decimal_place(1, 1))
        }),
{
    law_fixed_numbers();
    lemma_one();
    assert(1 * pow2(149) == pow2(149));
    lemma_fitting(skin, 5, 0);
    lemma_fitting(skin, 5, 1);
    lemma_fitting(skin, 5, 2);
    lemma_fitting(skin, 5, 3);
    lemma_fitting(skin, 5, 4);
}

/// Whatever float between its caps an item of a skin has, the exterior of that float is
/// among those that are searched.
pub proof fn law_every_float_is_searched(skin: Skin, x: Float32, info: WearInfo)
    requires
        ordered_caps(skin),
        x.finite(),
        0 <= x.units() <= pow2(149),
        skin.min_float.units() < x.units() < skin.max_float.units(),
        describes_wear(info, x),
    ensures
        fitting_wears(skin, 5).contains(info.name@),
{
    law_exteriors_searched(skin);
    law_exterior_names(info, x);
    lemma_zero_units(0);
    lemma_one();
    assert(1 * pow2(149) == pow2(149));
    law_order_is_numeric(skin.min_float, x);
    law_order_is_numeric(x, skin.max_float);
    law_order_is_numeric(zero(), x);
    law_order_is_numeric(x, Float32 { bits: 0x3f80_0000 });
}

/// The name of a StatTrak item is that of the ordinary one behind a prefix; a name begins
/// with the skin's, and different exteriors have different names.
pub proof fn law_item_names(skin: Skin, wear: Seq<char>, other: Seq<char>)
    ensures
        hash_name(skin, wear, true) == "StatTrak™ "@ + hash_name(skin, wear, false),
        hash_name(skin, wear, false) == skin.name@ + " ("@ + wear + ")"@,
        wear != other ==> hash_name(skin, wear, false) != hash_name(skin, other, false),
{
    reveal_strlit("");
    reveal_strlit(")");
    reveal_strlit(" (");
    let (a, b) = (hash_name(skin, wear, false), hash_name(skin, other, false));
    assert(""@ =~= Seq::empty());
    assert(hash_name(skin, wear, true) =~= "StatTrak™ "@ + a);
    assert(a =~= skin.name@ + " ("@ + wear + ")"@);
    assert(b =~= skin.name@ + " ("@ + other + ")"@);
    if a == b {
        let n = skin.name@.len() + 2;
        assert(wear =~= a.subrange(n as int, a.len() - 1));
        assert(other =~= b.subrange(n as int, b.len() - 1));
    }
}

/// The buyer pays the price and the fee, as far as the machine can hold it.
pub proof fn law_buyer_pays_price_and_fee(listing: SteamListing)
    ensures
        buyer_price(listing) >= listing.price_cents,
        buyer_price(listing) >= listing.fee_cents,
        listing.price_cents + listing.fee_cents <= u64::MAX ==> buyer_price(listing)
            - listing.price_cents == listing.fee_cents,
{
}

/// A property is looked up by its id; the first one counts.
proof fn lemma_property(properties: Seq<SteamAssetProperty>, id: u32, k: int)
    requires
        0 <= k < properties.len(),
        properties[k].property_id == id,
        forall|j: int| 0 <= j < k ==> (#[trigger] properties[j]).property_id != id,
    ensures
        property_of(properties, id) == Some(properties[k]),
    decreases properties.len(),
{
    if k > 0 {
        assert(properties[0].property_id != id);
        let rest = properties.drop_first();
        assert(rest[k - 1] == properties[k]);
        assert forall|j: int| 0 <= j < k - 1 implies (#[trigger] rest[j]).property_id != id by {
            assert(rest[j] == properties[j + 1]);
        }
        lemma_property(rest, id, k - 1);
    }
}

/// The float of a listing is its second property, the first one of that number; it is the
/// nearest number of the smaller format.
pub proof fn law_float_of_a_listing(listing: SteamListing, k: int)
    requires
        0 <= k < listing.asset.asset_properties@.len(),
        listing.asset.asset_properties@[k].property_id == 2,
        forall|j: int|
            0 <= j < k ==> (#[trigger] listing.asset.asset_properties@[j]).property_id != 2,
    ensures
        listed_float(listing) is Some <==> listing.asset.asset_properties@[k].float_value is Some,
        listing.asset.asset_properties@[k].float_value matches Some(x) ==> listed_float(listing)
            == Some(narrowed(x)),
{
    lemma_property(listing.asset.asset_properties@, 2, k);
}

/// A listing without a float has none, and is not offered.
pub proof fn law_no_float_no_offer(listing: SteamListing, skin: Skin, name: Seq<char>)
    requires
        forall|j: int|
            0 <= j < listing.asset.asset_properties@.len() ==> (
            #[trigger] listing.asset.asset_properties@[j]).property_id != 2,
    ensures
        listed_float(listing) is None,
        !offers_skin(listing, skin, name),
{
    lemma_no_property(listing.asset.asset_properties@, 2);
}

proof fn lemma_no_property(properties: Seq<SteamAssetProperty>, id: u32)
    requires
        forall|j: int| 0 <= j < properties.len() ==> (#[trigger] properties[j]).property_id != id,
    ensures
        property_of(properties, id) is None,
    decreases properties.len(),
{
    if properties.len() > 0 {
        assert(properties[0].property_id != id);
        let rest = properties.drop_first();
        assert forall|j: int| 0 <= j < rest.len() implies (
        #[trigger] rest[j]).property_id != id by {
            assert(rest[j] == properties[j + 1]);
        }
        lemma_no_property(rest, id);
    }
}

/// What is offered: an item of the name that was searched, with a float within the caps of
/// the skin and a link to inspect it.
pub open spec fn worth_taking(listing: SteamListing, skin: Skin, name: Seq<char>) -> bool {
    &&& listing.description.market_hash_name@ == name
    &&& listed_float(listing) is Some
    &&& listed_float(listing)->0.finite()
    &&& skin.min_float.units() <= listed_float(listing)->0.units() <= skin.max_float.units()
    &&& listed_inspect_link(listing) is Some
}

/// An offer is a listing of the market.
pub open spec fn stands_for(
    offer: Offer,
    listing: SteamListing,
    skin: Skin,
    name: Seq<char>,
) -> bool {
    &&& worth_taking(listing, skin, name)
    &&& offer.id == listing.listing_id@
    &&& offer.skin_id == skin.id@
    &&& offer.float == listed_float(listing)->0
    &&& offer.inspect == listed_inspect_link(listing)
    &&& listing.price_cents + listing.fee_cents <= u64::MAX ==> offer.price == listing.price_cents
        + listing.fee_cents
    &&& offer.source == "steam_community_market"@
}

/// A new offer stands for one of the listings that were read.
pub open spec fn was_read(
    offer: Offer,
    listings: Seq<SteamListing>,
    skin: Skin,
    name: Seq<char>,
) -> bool {
    exists|h: int|
        0 <= h < listings.len() && stands_for(offer, #[trigger] listings[h], skin, name)
}

proof fn lemma_worth(listing: SteamListing, skin: Skin, name: Seq<char>)
    requires
        ordered_caps(skin),
    ensures
        offers_skin(listing, skin, name) <==> worth_taking(listing, skin, name),
{
    if let Some(x) = listed_float(listing) {
        if x.finite() {
            law_order_is_numeric(x, skin.min_float);
            law_order_is_numeric(skin.max_float, x);
        }
    }
}

/// Reading a page keeps the offers that there were, and adds one for each listing that is
/// worth taking and not there yet, up to two hundred; every offer that is added stands for
/// a listing of the page.
pub proof fn law_page_is_taken_over(
    found: Seq<Offer>,
    listings: Seq<SteamListing>,
    skin: Skin,
    name: Seq<char>,
    base: Seq<char>,
)
    requires
        ordered_caps(skin),
        found.len() <= 200,
    ensures
        found_after(found, listings, skin, name, base) matches Ok(after) ==> {
            &&& found.len() <= after.len() <= 200
            &&& after.take(found.len() as int) == found
            &&& forall|i: int|
                found.len() <= i < after.len() ==> was_read(
                    #[trigger] after[i],
                    listings,
                    skin,
                    name,
                )
            &&& after.len() < 200 ==> forall|h: int|
                0 <= h < listings.len() && worth_taking(#[trigger] listings[h], skin, name)
                    ==> has_offer(after, listings[h].listing_id@)
        },
    decreases listings.len(),
{
    if listings.len() == 0 {
        assert(found.take(found.len() as int) =~= found);
    } else {
        let shorter = listings.drop_last();
        let last = listings.last();
        let n = listings.len() - 1;
        law_page_is_taken_over(found, shorter, skin, name, base);
        lemma_worth(last, skin, name);
        assert(listings[n] == last);
        if let Ok(front) = found_after(found, shorter, skin, name, base) {
            if let Ok(after) = found_after(found, listings, skin, name, base) {
                assert(front.len() <= after.len());
                assert(after.take(found.len() as int) =~= front.take(found.len() as int));
                assert forall|i: int| found.len() <= i < after.len() implies was_read(
                    #[trigger] after[i],
                    listings,
                    skin,
                    name,
                ) by {
                    if i < front.len() {
                        assert(after[i] == front[i]);
                        let h = choose|h: int|
                            0 <= h < shorter.len() && stands_for(
                                front[i],
                                #[trigger] shorter[h],
                                skin,
                                name,
                            );
                        assert(listings[h] == shorter[h]);
                    } else {
                        assert(stands_for(after[i], listings[n], skin, name));
                    }
                }
                if after.len() < 200 {
                    assert forall|h: int|
                        0 <= h < listings.len() && worth_taking(#[trigger] listings[h], skin, name)
                        implies has_offer(after, listings[h].listing_id@) by {
                        if h < n {
                            assert(shorter[h] == listings[h]);
                            let i = choose|i: int|
                                0 <= i < front.len() && (#[trigger] front[i]).id
                                    == listings[h].listing_id@;
                            assert(after[i] == front[i]);
                        } else if has_offer(front, last.listing_id@) {
                        } else {
                            assert(after[after.len() - 1].id == last.listing_id@);
                        }
                    }
                }
            }
        }
    }
}

/// Ten pages are read for a skin, shared by its exteriors: each gets as many as another, or
/// one more where it stands before it.
pub proof fn law_pages_are_shared(wears: nat, a: nat, b: nat)
    requires
        1 <= wears <= 5,
        a <= b < wears,
    ensures
        pages_from_wear(wears, 0) == 10,
        pages_of_wear(wears, b) <= pages_of_wear(wears, a) <= pages_of_wear(wears, b) + 1,
{
    lemma_budget_is_split(wears);
}

/// A search of one skin reads at most ten pages.
pub proof fn law_ten_pages_at_most(states: Seq<MarketSearch>, pages: Seq<SteamMarketPage>)
    requires
        search_goes(states, pages),
    ensures
        pages.len() <= 10,
{
    law_pages_per_skin(states, pages);
}

/// The number of listings on the pages from `from` up to `to`.
pub open spec fn listings_on(pages: Seq<SteamMarketPage>, from: int, to: int) -> nat
    decreases to - from,
{
    if from < to {
        listings_on(pages, from, to - 1) + pages[to - 1].listings@.len()
    } else {
        0
    }
}

/// The pages of one exterior follow on: the next one starts behind all listings that were
/// read for it so far.
pub proof fn law_pages_follow_on(
    states: Seq<MarketSearch>,
    pages: Seq<SteamMarketPage>,
    from: int,
    to: int,
)
    requires
        search_goes(states, pages),
        0 <= from <= to < states.len(),
        states[from].page == 0,
        states[from].start == 0,
        forall|i: int| from <= i <= to ==> (#[trigger] states[i]).wear == states[from].wear,
        listings_on(pages, from, to) <= usize::MAX,
    ensures
        states[to].start == listings_on(pages, from, to),
        states[to].page == to - from,
    decreases to - from,
{
    if from < to {
        law_pages_follow_on(states, pages, from, to - 1);
        assert(has_read(states[to], states[to - 1], pages[to - 1]));
        assert(states[to].wear == states[to - 1].wear);
    }
}

/// Without the repeats every listing is still there under its id, for no more.
proof fn lemma_repeats(listings: Seq<FixtureListing>)
    ensures
        ({
            let r = without_repeats(listings);
            &&& listings.len() > 0 ==> r.len() > 0 && r.last().id@ == listings.last().id@
            &&& forall|i: int| 0 <= i < r.len() ==> listings.contains(#[trigger] r[i])
            &&& forall|i: int|
                0 <= i < r.len() - 1 ==> (#[trigger] r[i]).id@ != r[i + 1].id@
        }),
    decreases listings.len(),
{
    if listings.len() > 0 {
        let shorter = listings.drop_last();
        let front = without_repeats(shorter);
        let r = without_repeats(listings);
        lemma_repeats(shorter);
        assert(listings[listings.len() - 1] == listings.last());
        assert forall|i: int| 0 <= i < r.len() implies listings.contains(#[trigger] r[i]) by {
            if i < front.len() {
                assert(r[i] == front[i]);
                let h = choose|h: int| 0 <= h < shorter.len() && shorter[h] == front[i];
                assert(listings[h] == front[i]);
            }
        }
        assert forall|i: int| 0 <= i < r.len() - 1 implies (#[trigger] r[i]).id@ != r[i + 1].id@ by {
            assert(r[i] == front[i]);
            if i + 1 < front.len() {
                assert(r[i + 1] == front[i + 1]);
            }
        }
    }
}

/// A listing with the same id, for no more, is there.
pub open spec fn kept_for_no_more(kept: Seq<FixtureListing>, x: FixtureListing) -> bool {
    exists|i: int|
        0 <= i < kept.len() && (#[trigger] kept[i]).id@ == x.id@ && kept[i].price_cents
            <= x.price_cents
}

proof fn lemma_kept(listings: Seq<FixtureListing>, h: int)
    requires
        crate::sorting::ascending(listings),
        0 <= h < listings.len(),
    ensures
        kept_for_no_more(without_repeats(listings), listings[h]),
        crate::sorting::ascending(without_repeats(listings)),
    decreases listings.len(),
{
    let shorter = listings.drop_last();
    let front = without_repeats(shorter);
    let r = without_repeats(listings);
    let n = listings.len() - 1;
    assert(listings[n] == listings.last());
    lemma_repeats(shorter);
    lemma_repeats(listings);
    assert(crate::sorting::ascending(shorter)) by {
        assert forall|i: int, j: int| 0 <= i <= j < shorter.len() implies #[trigger] shorter[i].not_after(
            #[trigger] shorter[j],
        ) by {
            assert(listings[i].not_after(listings[j]));
        }
    }
    if n > 0 {
        lemma_kept(shorter, if h < n { h } else { 0 });
    }
    assert forall|i: int, j: int| 0 <= i <= j < r.len() implies #[trigger] r[i].not_after(
        #[trigger] r[j],
    ) by {
        if j < front.len() {
            assert(front[i].not_after(front[j]));
        } else {
            assert(listings.contains(r[i]));
            let k = choose|k: int| 0 <= k < listings.len() && listings[k] == r[i];
            assert(listings[k].not_after(listings[n]));
        }
    }
    if h < n {
        let i = choose|i: int|
            0 <= i < front.len() && (#[trigger] front[i]).id@ == shorter[h].id@
                && front[i].price_cents <= shorter[h].price_cents;
        assert(r[i] == front[i]);
    } else if r.len() == front.len() {
        let i = front.len() - 1;
        assert(shorter.contains(front[i]));
        let k = choose|k: int| 0 <= k < shorter.len() && shorter[k] == front[i];
        assert(listings[k].not_after(listings[n]));
        assert(r[i].id@ == listings[n].id@);
    } else {
        assert(r[r.len() - 1] == listings[n]);
    }
}

/// Listings that are put together stand by their prices, those of one price by their ids,
/// and no listing stands twice in a row. Each is one of those that were put in, and each of
/// those is still there under its id, for no more.
pub proof fn law_listings_put_together(
    listings: Seq<FixtureListing>,
    merged: Seq<FixtureListing>,
)
    requires
        merged == without_repeats(stable_sorted(listings)),
    ensures
        forall|i: int, j: int|
            0 <= i < j < merged.len() ==> (#[trigger] merged[i]).price_cents < (
            #[trigger] merged[j]).price_cents || (merged[i].price_cents == merged[j].price_cents
                && (merged[i].id@ == merged[j].id@ || text_before(merged[i].id@, merged[j].id@))),
        forall|i: int| 0 <= i < merged.len() - 1 ==> (#[trigger] merged[i]).id@ != merged[i + 1].id@,
        forall|i: int| 0 <= i < merged.len() ==> listings.contains(#[trigger] merged[i]),
        forall|h: int|
            0 <= h < listings.len() ==> kept_for_no_more(merged, #[trigger] listings[h]),
{
    let sorted = stable_sorted(listings);
    lemma_stable_sorted(listings);
    lemma_repeats(sorted);
    assert forall|i: int| 0 <= i < merged.len() implies listings.contains(#[trigger] merged[i]) by {
        assert(sorted.contains(merged[i]));
        lemma_same_listings(listings, merged[i]);
    }
    assert forall|h: int| 0 <= h < listings.len() implies kept_for_no_more(
        merged,
        #[trigger] listings[h],
    ) by {
        assert(listings.contains(listings[h]));
        lemma_same_listings(listings, listings[h]);
        let k = choose|k: int| 0 <= k < sorted.len() && sorted[k] == listings[h];
        lemma_kept(sorted, k);
    }
    if sorted.len() > 0 {
        lemma_kept(sorted, 0);
    }
    assert forall|i: int, j: int| 0 <= i < j < merged.len() implies (
    #[trigger] merged[i]).price_cents < (#[trigger] merged[j]).price_cents || (
    merged[i].price_cents == merged[j].price_cents && (merged[i].id@ == merged[j].id@
        || text_before(merged[i].id@, merged[j].id@))) by {
        assert(merged[i].not_after(merged[j]));
    }
}

proof fn lemma_same_listings(s: Seq<FixtureListing>, x: FixtureListing)
    ensures
        stable_sorted(s).contains(x) <==> s.contains(x),
{
    broadcast use vstd::seq_lib::group_to_multiset_ensures;

    lemma_stable_sorted(s);
    let sorted = stable_sorted(s);
    assert(sorted.contains(x) <==> sorted.to_multiset().count(x) > 0);
    assert(s.contains(x) <==> s.to_multiset().count(x) > 0);
}

/// The market is searched for a target of the catalog that at most five skins lead to.
pub proof fn law_what_is_searched_for(skins: Seq<Skin>, id: Seq<char>)
    requires
        distinct_ids(skins),
    ensures
        search_failure(skins, id) is None <==> exists|k: int|
            0 <= k < skins.len() && (#[trigger] skins[k]).id@ == id && forall|rarity: Rarity|
                trades_up(rarity, skins[k].rarity) ==> #[trigger] skins_in(
                    skins,
                    skins[k].collection_id@,
                    rarity,
                ) <= 5,
{
    lemma_found(skins, id);
    if exists|k: int| 0 <= k < skins.len() && (#[trigger] skins[k]).id@ == id {
        let k = choose|k: int| 0 <= k < skins.len() && (#[trigger] skins[k]).id@ == id;
        lemma_found_under(skins, k);
        let target = skins[k];
        assert forall|rarity: Rarity| trades_up(rarity, target.rarity) implies #[trigger] skins_in(
            skins,
            target.collection_id@,
            rarity,
        ) == input_pool(skins, target).len() by {
            lemma_pool_size(skins, target.collection_id@, rarity);
        }
        if search_failure(skins, id) is None {
            assert(skins[k].id@ == id);
        }
        if exists|h: int|
            0 <= h < skins.len() && (#[trigger] skins[h]).id@ == id && forall|rarity: Rarity|
                trades_up(rarity, skins[h].rarity) ==> #[trigger] skins_in(
                    skins,
                    skins[h].collection_id@,
                    rarity,
                ) <= 5 {
            let h = choose|h: int|
                0 <= h < skins.len() && (#[trigger] skins[h]).id@ == id && forall|rarity: Rarity|
                    trades_up(rarity, skins[h].rarity) ==> #[trigger] skins_in(
                        skins,
                        skins[h].collection_id@,
                        rarity,
                    ) <= 5;
            lemma_found_under(skins, h);
            if let Some(rarity) = crate::domain::tier_below(target.rarity) {
                assert(trades_up(rarity, target.rarity));
                assert(skins_in(skins, target.collection_id@, rarity) <= 5);
            }
        }
    }
}

/// A search begins with the exteriors that the skin comes in, and with none where the wanted
/// variant does not exist; it asks for no page once two hundred listings were found or
/// nothing is left to search.
pub proof fn law_search_begins(
    skin: &Skin,
    stattrak: bool,
    base: &str,
    search: MarketSearch,
    page: Option<(String, usize)>,
)
    requires
        call_ensures(MarketSearch::begin, (skin, stattrak, base), search),
        call_ensures(MarketSearch::next_page, (&search,), page),
    ensures
        search.skin == *skin,
        search.listings@.len() == 0,
        stattrak && !skin.stattrak_supported ==> search.wears@.len() == 0 && page is None,
        !(stattrak && !skin.stattrak_supported) ==> str_texts(search.wears@) == fitting_wears(
            *skin,
            5,
        ),
        page is Some <==> search.wears@.len() > 0,
        page matches Some((name, start)) ==> start == 0 && name@ == hash_name(
            *skin,
            search.wears@[0]@,
            stattrak,
        ),
{
    assert(str_texts(search.wears@).len() == search.wears@.len());
}

/// No page is asked for once there are two hundred listings.
pub proof fn law_enough_listings(search: MarketSearch, page: Option<(String, usize)>)
    requires
        call_ensures(MarketSearch::next_page, (&search,), page),
        page is Some,
    ensures
        search.listings@.len() < 200,
        search.wear < search.wears@.len(),
{
}

/// A plan asks for no more than twenty pages.
pub proof fn law_twenty_requests(plan: PlanSearch, page: Option<(String, usize)>)
    requires
        plan_search_runs(plan),
        call_ensures(PlanSearch::next_page, (&plan,), page),
    ensures
        plan.requests <= 20,
        page is Some ==> plan.requests < 20 && plan.search is Some,
        page is Some ==> plan.search->0.skin == plan.skins@[plan.at as int],
{
}

/// What a plan found in the end is in order, and each listing is one that was found.
pub proof fn law_search_ends(plan: PlanSearch, listings: Vec<FixtureListing>)
    requires
        call_ensures(PlanSearch::finish, (plan,), listings),
    ensures
        forall|i: int, j: int|
            0 <= i < j < listings@.len() ==> (#[trigger] listings@[i]).price_cents <= (
            #[trigger] listings@[j]).price_cents,
        forall|i: int| 0 <= i < listings@.len() ==> plan.found@.contains(#[trigger] listings@[i]),
        forall|h: int|
            0 <= h < plan.found@.len() ==> kept_for_no_more(
                listings@,
                #[trigger] plan.found@[h],
            ),
{
    law_listings_put_together(plan.found@, listings@);
}

/// A member of an object is found under its name; the first counts.
pub proof fn law_member_is_found(members: Seq<(String, Json)>, name: Seq<char>, k: int)
    requires
        0 <= k < members.len(),
        members[k].0@ == name,
        forall|j: int| 0 <= j < k ==> (#[trigger] members[j]).0@ != name,
    ensures
        member(members, name) == Some(members[k].1),
    decreases members.len(),
{
    let front = members.drop_last();
    assert(members[members.len() - 1] == members.last());
    if k < members.len() - 1 {
        assert(front[k] == members[k]);
        assert forall|j: int| 0 <= j < k implies (#[trigger] front[j]).0@ != name by {
            assert(front[j] == members[j]);
        }
        law_member_is_found(front, name, k);
    } else {
        assert forall|j: int| 0 <= j < front.len() implies (#[trigger] front[j]).0@ != name by {
            assert(front[j] == members[j]);
        }
        law_no_member(front, name);
    }
}

/// An object has no member under a name that it does not have.
pub proof fn law_no_member(members: Seq<(String, Json)>, name: Seq<char>)
    requires
        forall|j: int| 0 <= j < members.len() ==> (#[trigger] members[j]).0@ != name,
    ensures
        member(members, name) is None,
    decreases members.len(),
{
    if members.len() > 0 {
        let front = members.drop_last();
        assert(members[members.len() - 1] == members.last());
        assert forall|j: int| 0 <= j < front.len() implies (#[trigger] front[j]).0@ != name by {
            assert(front[j] == members[j]);
        }
        law_no_member(front, name);
    }
}

/// The page of listings is that of the first query that has one.
pub proof fn law_first_page_counts(queries: Seq<Json>, k: int)
    requires
        0 <= k < queries.len(),
        query_page(queries[k]) is Some,
        forall|j: int| 0 <= j < k ==> query_page(#[trigger] queries[j]) is None,
    ensures
        first_page(queries) == query_page(queries[k]),
        json_member(query_page(queries[k])->0, "listings"@) is Some,
    decreases queries.len(),
{
    if k > 0 {
        let rest = queries.drop_first();
        assert(query_page(queries[0]) is None);
        assert(rest[k - 1] == queries[k]);
        assert forall|j: int| 0 <= j < k - 1 implies query_page(#[trigger] rest[j]) is None by {
            assert(rest[j] == queries[j + 1]);
        }
        law_first_page_counts(rest, k - 1);
    }
}

/// A context that is no text is taken as it is; one that is a text is read from it, and once
/// more where that gives a text again.
pub proof fn law_context_is_unwrapped(context: Json, inner: Json, text: Seq<char>)
    ensures
        json_text(context) is None ==> unwrapped(context, 2) == Ok::<Json, Seq<char>>(context),
        json_text(context) == Some(text) && parsed_json(text) == Ok::<Json, Seq<char>>(inner)
            && json_text(inner) is None ==> unwrapped(context, 2) == Ok::<Json, Seq<char>>(inner),
        json_text(context) == Some(text) && parsed_json(text) is Err ==> unwrapped(
            context,
            2,
        ) is Err,
{
    reveal_with_fuel(unwrapped, 3);
}

/// A search stays with an exterior while the pages say that there is more, have listings, and
/// are not used up; else it moves on to the beginning of the next one.
pub proof fn law_search_moves_on(
    before: MarketSearch,
    after: MarketSearch,
    page: SteamMarketPage,
)
    requires
        has_read(after, before, page),
    ensures
        after.skin == before.skin && after.stattrak == before.stattrak && after.wears
            == before.wears,
        !page.more || page.listings@.len() == 0 || before.page + 1 >= pages_of_wear(
            before.wears@.len(),
            before.wear as nat,
        ) ==> after.wear == before.wear + 1 && after.start == 0 && after.page == 0,
        page.more && page.listings@.len() > 0 && before.page + 1 < pages_of_wear(
            before.wears@.len(),
            before.wear as nat,
        ) ==> after.wear == before.wear && after.page == before.page + 1 && after.start
            >= before.start,
{
}

/// The address to buy a listing at names the listing, and the address of a page says where it
/// starts.
pub proof fn law_addresses(base: Seq<char>, name: Seq<char>, id: Seq<char>, start: nat)
    ensures
        purchase_url(base, name, id) matches Some(url) ==> Some(url) == url_with_query(
            base,
            name,
            seq![("buy"@, "1"@), ("listing"@, id)],
        ),
        page_url(base, name, start) matches Some(url) ==> Some(url) == url_with_query(
            base,
            name,
            seq![("start"@, decimal(start)), ("currency"@, "1"@), ("language"@, "english"@)],
        ),
{
}

/// The link to inspect an item is the first one that can show it, with the text of its sixth
/// property filled in.
pub proof fn law_link_to_inspect(listing: SteamListing, i: int, k: int)
    requires
        0 <= i < listing.description.market_actions@.len(),
        holds_text(
            listing.description.market_actions@[i].link@,
            "csgo_econ_action_preview"@,
        ),
        forall|j: int|
            0 <= j < i ==> !holds_text(
                (#[trigger] listing.description.market_actions@[j]).link@,
                "csgo_econ_action_preview"@,
            ),
        0 <= k < listing.asset.asset_properties@.len(),
        listing.asset.asset_properties@[k].property_id == 6,
        forall|j: int|
            0 <= j < k ==> (#[trigger] listing.asset.asset_properties@[j]).property_id != 6,
    ensures
        listing.asset.asset_properties@[k].string_value matches Some(value) ==> listed_inspect_link(
            listing,
        ) == Some(
            replaced(
                listing.description.market_actions@[i].link@,
                "%propid:6%"@,
                value@,
            ),
        ),
        listing.asset.asset_properties@[k].string_value is None ==> listed_inspect_link(
            listing,
        ) is None,
{
    lemma_property(listing.asset.asset_properties@, 6, k);
    lemma_first_link(listing.description.market_actions@, i);
}

proof fn lemma_first_link(actions: Seq<SteamMarketAction>, i: int)
    requires
        0 <= i < actions.len(),
        holds_text(actions[i].link@, "csgo_econ_action_preview"@),
        forall|j: int|
            0 <= j < i ==> !holds_text(
                (#[trigger] actions[j]).link@,
                "csgo_econ_action_preview"@,
            ),
    ensures
        preview_link(actions) == Some(actions[i].link@),
    decreases actions.len(),
{
    if i > 0 {
        let rest = actions.drop_first();
        assert(!holds_text(actions[0].link@, "csgo_econ_action_preview"@));
        assert(rest[i - 1] == actions[i]);
        assert forall|j: int| 0 <= j < i - 1 implies !holds_text(
            (#[trigger] rest[j]).link@,
            "csgo_econ_action_preview"@,
        ) by {
            assert(rest[j] == actions[j + 1]);
        }
        lemma_first_link(rest, i - 1);
    }
}

/// A text holds each of its parts.
pub proof fn law_text_holds_its_parts(before: Seq<char>, part: Seq<char>, after: Seq<char>)
    ensures
        holds_text(before + part + after, part),
{
    let (b, p, a) = (encode_utf8(before), encode_utf8(part), encode_utf8(after));
    let bytes = encode_utf8(before + part + after);
    lemma_encode_concat(before, part);
    lemma_encode_concat(before + part, after);
    let n = b.len() as int;
    assert(bytes =~= b + p + a);
    assert(bytes.subrange(n, n + p.len()) =~= p);
    assert(stands_at(bytes, p, n));
    lemma_first_match(bytes, p, 0);
}

} // verus!
