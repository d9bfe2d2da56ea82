//! What a catalog holds and gives out.
use crate::acceptance::{law_tiers, ordered_caps, orderly, trades_up};
use crate::accuracy::law_order_is_numeric;
use crate::catalog::{
    belongs, cheapest_of, gathered, law_accepted_catalog, lemma_filter_none, listings_of, plain,
    pool, rarity_from_upstream, texts, Catalog, CatalogResponse, PersistedCatalog,
};
use crate::domain::{tier_below, FixtureListing, Rarity, Skin};
use crate::odds::lemma_pool_skin;
use crate::offers::{lemma_cheapest_of, lemma_gathered, lemma_sorted_contains};
use crate::provenance::{law_rarity_names, names_rarity};
use crate::sorting::{
    insertion_point, lemma_insertion_point, lemma_stable_sorted, stable_sorted, Ranked,
};
use crate::yields::{lemma_pool_size, skins_in};
use vstd::prelude::*;

verus! {

/// A step up the ladder of rarities undoes a step down.
pub proof fn law_steps(lower: Rarity, upper: Rarity, up: Option<Rarity>, down: Option<Rarity>)
    requires
        call_ensures(Rarity::next, (lower,), up),
        call_ensures(Rarity::previous, (upper,), down),
    ensures
        up == Some(upper) <==> trades_up(lower, upper),
        down == Some(lower) <==> trades_up(lower, upper),
        up == Some(upper) <==> down == Some(lower),
        lower is Covert || lower is Extraordinary ==> up is None,
        upper is Consumer || upper is Extraordinary ==> down is None,
{
    law_tiers(lower, upper);
}

/// A rarity is read from its upstream name, and from no other.
pub proof fn law_rarity_is_read(id: &str, r: Option<Rarity>, rarity: Rarity)
    requires
        call_ensures(rarity_from_upstream, (id,), r),
    ensures
        r == Some(rarity) <==> names_rarity(id@, rarity),
{
    law_rarity_names(id@, rarity);
}

/// The skins of a collection and a rarity are all that there are, and as many.
pub proof fn law_outcomes_of_a_collection(
    catalog: Catalog,
    collection: &str,
    rarity: Rarity,
    found: Vec<&Skin>,
    skin: Skin,
)
    requires
        call_ensures(Catalog::outcomes_for_collection, (&catalog, collection, rarity), found),
    ensures
        plain(found@).contains(skin) <==> catalog.skins().contains(skin) && skin.collection_id@
            == collection@ && skin.rarity == rarity,
        found@.len() == skins_in(catalog.skins(), collection@, rarity),
{
    let skins = catalog.skins();
    lemma_pool_size(skins, collection@, rarity);
    lemma_pool_contains(skins, collection@, rarity, skin);
    assert(plain(found@).len() == found@.len());
}

/// A pool contains what belongs to it.
proof fn lemma_pool_contains(skins: Seq<Skin>, collection: Seq<char>, rarity: Rarity, skin: Skin)
    ensures
        pool(skins, collection, rarity).contains(skin) <==> skins.contains(skin)
            && skin.collection_id@ == collection && skin.rarity == rarity,
{
    let found = pool(skins, collection, rarity);
    if found.contains(skin) {
        let i = choose|i: int| 0 <= i < found.len() && found[i] == skin;
        lemma_pool_skin(skins, collection, rarity, i);
    }
    if skins.contains(skin) && skin.collection_id@ == collection && skin.rarity == rarity {
        let k = choose|k: int| 0 <= k < skins.len() && skins[k] == skin;
        skins.lemma_filter_contains(belongs(collection, rarity), k);
    }
}

/// The inputs for a target are all skins of its collection that lead to it; a target that
/// nothing leads to has none.
pub proof fn law_inputs_for_a_target(
    catalog: Catalog,
    target: Skin,
    found: Vec<&Skin>,
    skin: Skin,
)
    requires
        call_ensures(Catalog::input_skins_for_target, (&catalog, &target), found),
    ensures
        plain(found@).contains(skin) <==> catalog.skins().contains(skin) && skin.collection_id@
            == target.collection_id@ && trades_up(skin.rarity, target.rarity),
{
    law_tiers(skin.rarity, target.rarity);
    if let Some(rarity) = tier_below(target.rarity) {
        lemma_pool_contains(catalog.skins(), target.collection_id@, rarity, skin);
    }
}

/// The listings for some skins are listings of the catalog that sell one of them, the
/// cheapest first; all of them where there are few enough, and else none that is left out is
/// cheaper than one of its skin that is not.
pub proof fn law_listings_for_skins(
    catalog: Catalog,
    ids: Vec<String>,
    limit: usize,
    found: Vec<&FixtureListing>,
    x: FixtureListing,
    y: FixtureListing,
)
    requires
        call_ensures(Catalog::fixture_listings_for_skins, (&catalog, &ids, limit), found),
    ensures
        plain(found@).contains(x) ==> catalog.listings().contains(x) && texts(ids@).contains(
            x.skin_id@,
        ),
        catalog.listings().contains(x) && texts(ids@).contains(x.skin_id@) && listings_of(
            catalog.listings(),
            x.skin_id@,
        ).len() <= limit ==> plain(found@).contains(x),
        catalog.listings().contains(x) && texts(ids@).contains(x.skin_id@) && !plain(
            found@,
        ).contains(x) && plain(found@).contains(y) && y.skin_id@ == x.skin_id@ ==> y.price_cents
            <= x.price_cents,
        forall|i: int, j: int|
            0 <= i < j < found@.len() ==> (#[trigger] plain(found@)[i]).price_cents <= (
            #[trigger] plain(found@)[j]).price_cents,
{
    let (listings, names) = (catalog.listings(), texts(ids@));
    let all = gathered(listings, names, limit as nat);
    lemma_stable_sorted(all);
    lemma_gathered(listings, names, limit as nat, x);
    lemma_sorted_contains(all, x);
    if all.contains(x) {
        let j = choose|j: int|
            0 <= j < names.len() && cheapest_of(listings, #[trigger] names[j], limit as nat).contains(
                x,
            );
        lemma_cheapest_of(listings, names[j], limit as nat, x, x);
        assert(names.contains(names[j]));
    }
    if listings.contains(x) && names.contains(x.skin_id@) {
        let j = choose|j: int| 0 <= j < names.len() && names[j] == x.skin_id@;
        lemma_cheapest_of(listings, names[j], limit as nat, x, y);
        if all.contains(y) && y.skin_id@ == x.skin_id@ {
            lemma_gathered(listings, names, limit as nat, y);
            let l = choose|l: int|
                0 <= l < names.len() && cheapest_of(
                    listings,
                    #[trigger] names[l],
                    limit as nat,
                ).contains(y);
            lemma_cheapest_of(listings, names[l], limit as nat, y, y);
            assert(names[l] == names[j]);
        }
        lemma_gathered(listings, names, limit as nat, y);
        lemma_sorted_contains(all, y);
    }
    assert forall|i: int, j: int| 0 <= i < j < found@.len() implies (
    #[trigger] plain(found@)[i]).price_cents <= (#[trigger] plain(found@)[j]).price_cents by {
        assert(stable_sorted(all)[i].not_after(stable_sorted(all)[j]));
    }
}

/// What a catalog shows of itself is all its skins and the number of its listings; it says
/// that these are test data exactly where there are some and all of them are.
pub proof fn law_catalog_shows_itself(catalog: Catalog, shown: CatalogResponse)
    requires
        call_ensures(Catalog::public_response, (&catalog,), shown),
    ensures
        shown.schema_version == catalog.schema_version,
        shown.skins@ == catalog.skins(),
        shown.listing_count == catalog.listings().len(),
        shown.limitations@.len() == 3 <==> catalog.listings().len() > 0 && forall|i: int|
            0 <= i < catalog.listings().len() ==> (#[trigger] catalog.listings()[i]).source@
                == "fixture"@,
        shown.limitations@.len() == 3 || shown.limitations@.len() == 2,
{
    assert(texts(shown.limitations@).len() == shown.limitations@.len());
}

/// A kept catalog is taken up exactly where it has skins, no two of one id, with caps that
/// are finite and in order; then it is as it was kept.
pub proof fn law_which_catalogs_are_taken_up(kept: PersistedCatalog, r: Result<Catalog, String>)
    requires
        call_ensures(Catalog::from_persisted, (kept,), r),
    ensures
        r is Ok <==> kept.skins@.len() > 0 && orderly(kept.skins@),
        r is Ok ==> r->Ok_0.skins() == kept.skins@ && r->Ok_0.listings() == kept.listings@
            && r->Ok_0.schema_version == kept.schema_version && r->Ok_0.source == kept.source,
{
    law_accepted_catalog(kept.skins@);
    assert forall|i: int| 0 <= i < kept.skins@.len() implies ordered_caps(
        #[trigger] kept.skins@[i],
    ) == crate::catalog::sound_caps(kept.skins@[i]) by {
        let skin = kept.skins@[i];
        if skin.min_float.finite() && skin.max_float.finite() {
            law_order_is_numeric(skin.min_float, skin.max_float);
        }
    }
    if orderly(kept.skins@) {
        assert forall|i: int| 0 <= i < kept.skins@.len() implies crate::catalog::sound_caps(
            #[trigger] kept.skins@[i],
        ) by {
            assert(ordered_caps(kept.skins@[i]));
        }
    }
}

/// Other listings change nothing else of a catalog.
pub proof fn law_other_listings(catalog: Catalog, listings: Vec<FixtureListing>, r: Catalog)
    requires
        call_ensures(Catalog::with_listings, (&catalog, listings), r),
    ensures
        r.listings() == listings@,
        r.skins() == catalog.skins(),
        r.schema_version == catalog.schema_version,
        r.source == catalog.source,
{
}

/// Elements that are neither before nor after `x`.
pub open spec fn ties_with<T: Ranked>(x: T) -> spec_fn(T) -> bool {
    |y: T| y.not_after(x) && x.not_after(y)
}

/// Sorting keeps those that tie in the order in which they came.
pub proof fn law_sort_keeps_ties<T: Ranked>(s: Seq<T>, x: T)
    ensures
        stable_sorted(s).filter(ties_with(x)) == s.filter(ties_with(x)),
    decreases s.len(),
{
    let wanted = ties_with(x);
    if s.len() > 0 {
        let (front, last) = (s.drop_last(), s.last());
        let t = stable_sorted(front);
        let p = insertion_point(t, last);
        law_sort_keeps_ties(front, x);
        lemma_stable_sorted(front);
        lemma_insertion_point(t, last);
        let (a, b) = (t.take(p), t.skip(p));
        assert(t =~= a + b);
        assert(stable_sorted(s) =~= a + (seq![last] + b));
        Seq::filter_distributes_over_add(a, b, wanted);
        Seq::filter_distributes_over_add(a, seq![last] + b, wanted);
        Seq::filter_distributes_over_add(seq![last], b, wanted);
        Seq::filter_distributes_over_add(front, seq![last], wanted);
        assert(s =~= front + seq![last]);
        if wanted(last) {
            assert forall|i: int| 0 <= i < b.len() implies !wanted(#[trigger] b[i]) by {
                assert(b[i] == t[p + i]);
                if wanted(b[i]) {
                    T::lemma_transitive(b[i], x, last);
                }
            }
            lemma_filter_none(b, wanted);
            assert(b.filter(wanted) =~= Seq::empty());
        } else {
            lemma_filter_none(seq![last], wanted);
            assert(seq![last].filter(wanted) =~= Seq::empty());
        }
        assert(stable_sorted(s).filter(wanted) =~= s.filter(wanted));
    }
}

} // verus!
