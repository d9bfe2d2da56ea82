//! Which contracts and previews are accepted, and what they yield.
use crate::accuracy::{law_nearest_positive, law_order_is_numeric};
use crate::catalog::{belongs, distinct_ids, find_skin, lemma_found, pool};
use crate::contract::{
    collection_ids, contract_failure, preview_failure, same_rarity, slot_failure, slot_skin,
    slot_skins, slots_failure, tier_failure, Slot,
};
use crate::domain::{cap_span, float_failure, tier_above, tier_below, Rarity, Skin};
use crate::float32::{lemma_nearest_bound, opposite, sum, Float32};
use crate::odds::{lemma_none_barren, lemma_one_skin, lemma_pool_skin};
use crate::preview::lemma_each_slot_accepted;
use crate::tally::{has_key, law_tally, tallied};
use vstd::prelude::*;

verus! {

/// Ten items of `lower` are traded for one of `upper`.
pub open spec fn trades_up(lower: Rarity, upper: Rarity) -> bool {
    ||| lower is Consumer && upper is Industrial
    ||| lower is Industrial && upper is MilSpec
    ||| lower is MilSpec && upper is Restricted
    ||| lower is Restricted && upper is Classified
    ||| lower is Classified && upper is Covert
}

/// The ladder of rarities has five steps, from consumer grade up to covert; nothing leads
/// to or from rare special items.
pub proof fn law_tiers(lower: Rarity, upper: Rarity)
    ensures
        tier_above(lower) == Some(upper) <==> trades_up(lower, upper),
        tier_below(upper) == Some(lower) <==> trades_up(lower, upper),
{
}

/// A skin whose caps are finite and in order.
pub open spec fn ordered_caps(skin: Skin) -> bool {
    skin.min_float.finite() && skin.max_float.finite() && skin.min_float.units()
        < skin.max_float.units()
}

/// A catalog in which an id belongs to one skin, and all caps are in order.
pub open spec fn orderly(skins: Seq<Skin>) -> bool {
    &&& distinct_ids(skins)
    &&& forall|i: int| 0 <= i < skins.len() ==> ordered_caps(#[trigger] skins[i])
}

/// A slot names `skin`, which exists in the wanted variant and can have the float.
pub open spec fn slot_suits(slot: Slot, skin: Skin, stattrak: bool) -> bool {
    &&& skin.id@ == slot.skin_id
    &&& stattrak ==> skin.stattrak_supported
    &&& slot.float matches Some(x) ==> x.finite() && skin.min_float.units() <= x.units()
        <= skin.max_float.units()
}

/// The catalog holds a skin that the slot suits.
pub open spec fn slot_suited(skins: Seq<Skin>, slot: Slot, stattrak: bool) -> bool {
    exists|k: int| 0 <= k < skins.len() && slot_suits(slot, #[trigger] skins[k], stattrak)
}

/// The collection of `skin` holds something that skins of its rarity are traded for.
pub open spec fn leads_on(skins: Seq<Skin>, skin: Skin) -> bool {
    exists|k: int|
        0 <= k < skins.len() && (#[trigger] skins[k]).collection_id@ == skin.collection_id@
            && trades_up(skin.rarity, skins[k].rarity)
}

/// Slots that make a contract, or the beginning of one: each suits a skin of the catalog
/// that leads on, and all of these skins have one rarity.
pub open spec fn makes_contract(skins: Seq<Skin>, slots: Seq<Slot>, stattrak: bool) -> bool {
    &&& forall|i: int| 0 <= i < slots.len() ==> slot_suited(skins, #[trigger] slots[i], stattrak)
    &&& forall|i: int, k: int|
        0 <= i < slots.len() && 0 <= k < skins.len() && (#[trigger] slots[i]).skin_id == (
        #[trigger] skins[k]).id@ ==> leads_on(skins, skins[k])
    &&& forall|i: int, j: int, k: int, l: int|
        0 <= i < slots.len() && 0 <= j < slots.len() && 0 <= k < skins.len() && 0 <= l
            < skins.len() && (#[trigger] slots[i]).skin_id == (#[trigger] skins[k]).id@ && (
        #[trigger] slots[j]).skin_id == (#[trigger] skins[l]).id@ ==> skins[k].rarity
            == skins[l].rarity
}

/// In a catalog with distinct ids a skin is found under its id.
pub(crate) proof fn lemma_found_under(skins: Seq<Skin>, k: int)
    requires
        distinct_ids(skins),
        0 <= k < skins.len(),
    ensures
        find_skin(skins, skins[k].id@) == Some(skins[k]),
{
    lemma_found(skins, skins[k].id@);
    assert(skins.contains(skins[k]));
    lemma_one_skin(skins, find_skin(skins, skins[k].id@)->0, skins[k]);
}

/// A float is accepted exactly where it lies within caps that are in order.
pub(crate) proof fn lemma_float_accepted(x: Float32, skin: Skin)
    requires
        ordered_caps(skin),
    ensures
        float_failure(x, skin) is None <==> x.finite() && skin.min_float.units() <= x.units()
            <= skin.max_float.units(),
{
    let (low, high) = (skin.min_float, skin.max_float);
    let s = (high.units() - low.units()) as nat;
    law_order_is_numeric(low, high);
    assert(opposite(low).units() == -low.units());
    law_nearest_positive(s);
    lemma_nearest_bound(s, 1);
    assert(cap_span(skin).rank() > 0) by {
        reveal(sum);
    }
    if x.finite() {
        law_order_is_numeric(x, low);
        law_order_is_numeric(high, x);
    }
}

/// A slot is accepted exactly where it suits the skin that it names.
pub(crate) proof fn lemma_slot_accepted_iff(skins: Seq<Skin>, slot: Slot, stattrak: bool)
    requires
        orderly(skins),
    ensures
        slot_failure(skins, slot, stattrak) is None <==> slot_suited(skins, slot, stattrak),
{
    lemma_found(skins, slot.skin_id);
    if exists|k: int| 0 <= k < skins.len() && (#[trigger] skins[k]).id@ == slot.skin_id {
        let k = choose|k: int| 0 <= k < skins.len() && (#[trigger] skins[k]).id@ == slot.skin_id;
        lemma_found_under(skins, k);
        if let Some(x) = slot.float {
            lemma_float_accepted(x, skins[k]);
        }
        assert(slot_failure(skins, slot, stattrak) is None ==> slot_suits(
            slot,
            skins[k],
            stattrak,
        ));
        if exists|h: int| 0 <= h < skins.len() && slot_suits(slot, #[trigger] skins[h], stattrak) {
            let h = choose|h: int|
                0 <= h < skins.len() && slot_suits(slot, #[trigger] skins[h], stattrak);
            lemma_found_under(skins, h);
        }
    }
}

/// A collection has skins of a rarity exactly where one is there.
pub(crate) proof fn lemma_pool_holds(skins: Seq<Skin>, collection: Seq<char>, rarity: Rarity)
    ensures
        pool(skins, collection, rarity).len() > 0 <==> exists|k: int|
            0 <= k < skins.len() && (#[trigger] skins[k]).collection_id@ == collection
                && skins[k].rarity == rarity,
{
    let found = pool(skins, collection, rarity);
    if found.len() > 0 {
        lemma_pool_skin(skins, collection, rarity, 0);
        let k = choose|k: int| 0 <= k < skins.len() && skins[k] == found[0];
        assert(skins[k].rarity == rarity);
    }
    if exists|k: int|
        0 <= k < skins.len() && (#[trigger] skins[k]).collection_id@ == collection
            && skins[k].rarity == rarity {
        let k = choose|k: int|
            0 <= k < skins.len() && (#[trigger] skins[k]).collection_id@ == collection
                && skins[k].rarity == rarity;
        skins.lemma_filter_contains(belongs(collection, rarity), k);
    }
}

/// Resolved inputs make a contract exactly where they have one rarity and all lead on.
proof fn lemma_tier_accepted_iff(skins: Seq<Skin>, chosen: Seq<Skin>, mixed: Seq<char>)
    requires
        0 < chosen.len() <= 10,
    ensures
        tier_failure(skins, chosen, mixed) is None <==> {
            &&& forall|i: int, j: int|
                0 <= i < chosen.len() && 0 <= j < chosen.len() ==> (#[trigger] chosen[i]).rarity
                    == (#[trigger] chosen[j]).rarity
            &&& forall|i: int| 0 <= i < chosen.len() ==> leads_on(skins, #[trigger] chosen[i])
        },
{
    let ids = collection_ids(chosen);
    let collections = tallied(ids);
    law_tally(ids);
    if same_rarity(chosen) {
        assert forall|i: int, j: int|
            0 <= i < chosen.len() && 0 <= j < chosen.len() implies (#[trigger] chosen[i]).rarity
            == (#[trigger] chosen[j]).rarity by {}
        if let Some(rarity) = tier_above(chosen[0].rarity) {
            law_tiers(chosen[0].rarity, rarity);
            lemma_none_barren(skins, collections, rarity);
            assert forall|i: int| 0 <= i < chosen.len() implies leads_on(
                skins,
                #[trigger] chosen[i],
            ) == (pool(skins, ids[i], rarity).len() > 0) by {
                lemma_pool_holds(skins, ids[i], rarity);
                assert(chosen[i].rarity == chosen[0].rarity);
                if leads_on(skins, chosen[i]) {
                    let k = choose|k: int|
                        0 <= k < skins.len() && (#[trigger] skins[k]).collection_id@
                            == chosen[i].collection_id@ && trades_up(
                            chosen[i].rarity,
                            skins[k].rarity,
                        );
                    assert(skins[k].rarity == rarity);
                }
            }
            if tier_failure(skins, chosen, mixed) is None {
                assert forall|i: int| 0 <= i < chosen.len() implies leads_on(
                    skins,
                    #[trigger] chosen[i],
                ) by {
                    assert(has_key(collections, ids[i]));
                    let h = choose|h: int|
                        0 <= h < collections.len() && (#[trigger] collections[h]).key == ids[i];
                    assert(pool(skins, collections[h].key, rarity).len() > 0);
                }
            }
            if forall|i: int| 0 <= i < chosen.len() ==> leads_on(skins, #[trigger] chosen[i]) {
                assert forall|h: int| 0 <= h < collections.len() implies pool(
                    skins,
                    (#[trigger] collections[h]).key,
                    rarity,
                ).len() > 0 by {
                    let i = choose|i: int| 0 <= i < ids.len() && ids[i] == collections[h].key;
                    assert(leads_on(skins, chosen[i]));
                }
            }
        } else {
            assert(!leads_on(skins, chosen[0])) by {
                if leads_on(skins, chosen[0]) {
                    let k = choose|k: int|
                        0 <= k < skins.len() && (#[trigger] skins[k]).collection_id@
                            == chosen[0].collection_id@ && trades_up(
                            chosen[0].rarity,
                            skins[k].rarity,
                        );
                    law_tiers(chosen[0].rarity, skins[k].rarity);
                }
            }
        }
    } else {
        let i = choose|i: int|
            0 <= i < chosen.len() && (#[trigger] chosen[i]).rarity != chosen[0].rarity;
        assert(chosen[i].rarity != chosen[0].rarity);
    }
}

/// What an accepted slot is resolved to.
proof fn lemma_resolved(skins: Seq<Skin>, slots: Seq<Slot>, stattrak: bool)
    requires
        orderly(skins),
        forall|i: int| 0 <= i < slots.len() ==> slot_suited(skins, #[trigger] slots[i], stattrak),
    ensures
        forall|i: int, k: int|
            0 <= i < slots.len() && 0 <= k < skins.len() && (#[trigger] slots[i]).skin_id == (
            #[trigger] skins[k]).id@ ==> slot_skins(skins, slots)[i] == skins[k],
        forall|i: int|
            0 <= i < slots.len() ==> exists|k: int|
                0 <= k < skins.len() && #[trigger] skins[k] == (#[trigger] slot_skins(
                    skins,
                    slots,
                )[i]) && skins[k].id@ == slots[i].skin_id,
{
    let chosen = slot_skins(skins, slots);
    assert forall|i: int, k: int|
        0 <= i < slots.len() && 0 <= k < skins.len() && (#[trigger] slots[i]).skin_id == (
        #[trigger] skins[k]).id@ implies chosen[i] == skins[k] by {
        lemma_found_under(skins, k);
    }
    assert forall|i: int| 0 <= i < slots.len() implies exists|k: int|
        0 <= k < skins.len() && #[trigger] skins[k] == (#[trigger] chosen[i]) && skins[k].id@
            == slots[i].skin_id by {
        assert(slot_suited(skins, slots[i], stattrak));
        let k = choose|k: int|
            0 <= k < skins.len() && slot_suits(slots[i], #[trigger] skins[k], stattrak);
        assert(chosen[i] == skins[k]);
    }
}

/// Up to ten slots are accepted, but for their number, exactly where they make a contract.
#[verifier::rlimit(40)]
proof fn lemma_slots_accepted_iff(
    skins: Seq<Skin>,
    slots: Seq<Slot>,
    stattrak: bool,
    mixed: Seq<char>,
)
    requires
        orderly(skins),
        0 < slots.len() <= 10,
    ensures
        (slots_failure(skins, slots, stattrak) is None && tier_failure(
            skins,
            slot_skins(skins, slots),
            mixed,
        ) is None) <==> makes_contract(skins, slots, stattrak),
{
    let chosen = slot_skins(skins, slots);
    lemma_each_slot_accepted(skins, slots, stattrak);
    assert forall|i: int| 0 <= i < slots.len() implies slot_failure(
        skins,
        #[trigger] slots[i],
        stattrak,
    ) is None == slot_suited(skins, slots[i], stattrak) by {
        lemma_slot_accepted_iff(skins, slots[i], stattrak);
    }
    if forall|i: int| 0 <= i < slots.len() ==> slot_suited(skins, #[trigger] slots[i], stattrak) {
        assert(slots_failure(skins, slots, stattrak) is None);
        lemma_resolved(skins, slots, stattrak);
        lemma_tier_accepted_iff(skins, chosen, mixed);
        lemma_of_resolved(skins, slots, chosen);
    }
}

/// What holds of the skins that the slots name holds of the skins that they resolve to.
proof fn lemma_of_resolved(skins: Seq<Skin>, slots: Seq<Slot>, chosen: Seq<Skin>)
    requires
        chosen.len() == slots.len(),
        forall|i: int, k: int|
            0 <= i < slots.len() && 0 <= k < skins.len() && (#[trigger] slots[i]).skin_id == (
            #[trigger] skins[k]).id@ ==> chosen[i] == skins[k],
        forall|i: int|
            0 <= i < slots.len() ==> exists|k: int|
                0 <= k < skins.len() && #[trigger] skins[k] == (#[trigger] chosen[i])
                    && skins[k].id@ == slots[i].skin_id,
    ensures
        (forall|i: int, k: int|
            0 <= i < slots.len() && 0 <= k < skins.len() && (#[trigger] slots[i]).skin_id == (
            #[trigger] skins[k]).id@ ==> leads_on(skins, skins[k])) <==> (forall|i: int|
            0 <= i < chosen.len() ==> leads_on(skins, #[trigger] chosen[i])),
        (forall|i: int, j: int, k: int, l: int|
            0 <= i < slots.len() && 0 <= j < slots.len() && 0 <= k < skins.len() && 0 <= l
                < skins.len() && (#[trigger] slots[i]).skin_id == (#[trigger] skins[k]).id@ && (
            #[trigger] slots[j]).skin_id == (#[trigger] skins[l]).id@ ==> skins[k].rarity
                == skins[l].rarity) <==> (forall|i: int, j: int|
            0 <= i < chosen.len() && 0 <= j < chosen.len() ==> (#[trigger] chosen[i]).rarity == (
            #[trigger] chosen[j]).rarity),
{
    if forall|i: int, k: int|
        0 <= i < slots.len() && 0 <= k < skins.len() && (#[trigger] slots[i]).skin_id == (
        #[trigger] skins[k]).id@ ==> leads_on(skins, skins[k]) {
        assert forall|i: int| 0 <= i < chosen.len() implies leads_on(skins, #[trigger] chosen[i]) by {
            let k = choose|k: int|
                0 <= k < skins.len() && #[trigger] skins[k] == chosen[i] && skins[k].id@
                    == slots[i].skin_id;
            assert(slots[i].skin_id == skins[k].id@);
        }
    }
    if forall|i: int| 0 <= i < chosen.len() ==> leads_on(skins, #[trigger] chosen[i]) {
        assert forall|i: int, k: int|
            0 <= i < slots.len() && 0 <= k < skins.len() && (#[trigger] slots[i]).skin_id == (
            #[trigger] skins[k]).id@ implies leads_on(skins, skins[k]) by {
            assert(leads_on(skins, chosen[i]));
        }
    }
    if forall|i: int, j: int, k: int, l: int|
        0 <= i < slots.len() && 0 <= j < slots.len() && 0 <= k < skins.len() && 0 <= l
            < skins.len() && (#[trigger] slots[i]).skin_id == (#[trigger] skins[k]).id@ && (
        #[trigger] slots[j]).skin_id == (#[trigger] skins[l]).id@ ==> skins[k].rarity
            == skins[l].rarity {
        assert forall|i: int, j: int|
            0 <= i < chosen.len() && 0 <= j < chosen.len() implies (#[trigger] chosen[i]).rarity
            == (#[trigger] chosen[j]).rarity by {
            let k = choose|k: int|
                0 <= k < skins.len() && #[trigger] skins[k] == chosen[i] && skins[k].id@
                    == slots[i].skin_id;
            let l = choose|l: int|
                0 <= l < skins.len() && #[trigger] skins[l] == chosen[j] && skins[l].id@
                    == slots[j].skin_id;
            assert(slots[i].skin_id == skins[k].id@ && slots[j].skin_id == skins[l].id@);
        }
    }
    if forall|i: int, j: int|
        0 <= i < chosen.len() && 0 <= j < chosen.len() ==> (#[trigger] chosen[i]).rarity == (
        #[trigger] chosen[j]).rarity {
        assert forall|i: int, j: int, k: int, l: int|
            0 <= i < slots.len() && 0 <= j < slots.len() && 0 <= k < skins.len() && 0 <= l
                < skins.len() && (#[trigger] slots[i]).skin_id == (#[trigger] skins[k]).id@ && (
            #[trigger] slots[j]).skin_id == (#[trigger] skins[l]).id@ implies skins[k].rarity
            == skins[l].rarity by {
            assert(chosen[i].rarity == chosen[j].rarity);
        }
    }
}

/// A contract is analysed exactly where it is one of ten items, each of which names a
/// skin of the catalog in the wanted variant with a float within its caps, where all of
/// them have one rarity and each comes from a collection with something of the next one.
pub proof fn law_which_contracts_are_analyzed(
    skins: Seq<Skin>,
    size: nat,
    slots: Seq<Slot>,
    stattrak: bool,
)
    requires
        orderly(skins),
    ensures
        contract_failure(skins, size, slots, stattrak) is None <==> size == 10 && slots.len() == 10
            && makes_contract(skins, slots, stattrak),
{
    if size == 10 && slots.len() == 10 {
        lemma_slots_accepted_iff(
            skins,
            slots,
            stattrak,
            "all contract inputs must have the same rarity"@,
        );
    }
}

/// A preview is given exactly where up to ten slots make the beginning of a contract.
pub proof fn law_which_slots_are_previewed(skins: Seq<Skin>, slots: Seq<Slot>, stattrak: bool)
    requires
        orderly(skins),
    ensures
        preview_failure(skins, slots, stattrak) is None <==> 1 <= slots.len() <= 10
            && makes_contract(skins, slots, stattrak),
{
    if 1 <= slots.len() <= 10 {
        lemma_slots_accepted_iff(
            skins,
            slots,
            stattrak,
            "all selected contract inputs must have the same rarity"@,
        );
    }
}

/// Whatever the catalog holds, the slots of an accepted contract or preview name skins of
/// one rarity.
pub proof fn law_one_rarity(
    skins: Seq<Skin>,
    size: nat,
    slots: Seq<Slot>,
    stattrak: bool,
    i: int,
    j: int,
)
    requires
        contract_failure(skins, size, slots, stattrak) is None || preview_failure(
            skins,
            slots,
            stattrak,
        ) is None,
        0 <= i < slots.len(),
        0 <= j < slots.len(),
    ensures
        slot_skin(skins, slots[i]).rarity == slot_skin(skins, slots[j]).rarity,
        slot_skin(skins, slots[i]).id@ == slots[i].skin_id,
        skins.contains(slot_skin(skins, slots[i])),
{
    let chosen = slot_skins(skins, slots);
    lemma_each_slot_accepted(skins, slots, stattrak);
    assert(slot_failure(skins, slots[i], stattrak) is None);
    lemma_found(skins, slots[i].skin_id);
    assert(chosen[i].rarity == chosen[0].rarity && chosen[j].rarity == chosen[0].rarity);
}

/// What is refused is refused for its first fault: slots in front that are accepted, and
/// whatever stands behind, make no difference.
pub proof fn law_first_fault_counts(
    skins: Seq<Skin>,
    slots: Seq<Slot>,
    stattrak: bool,
    i: int,
)
    requires
        0 <= i < slots.len(),
        slot_failure(skins, slots[i], stattrak) is Some,
        forall|j: int|
            0 <= j < i ==> slot_failure(skins, #[trigger] slots[j], stattrak) is None,
    ensures
        slots_failure(skins, slots, stattrak) == slot_failure(skins, slots[i], stattrak),
    decreases slots.len(),
{
    let front = slots.drop_last();
    assert(slots[slots.len() - 1] == slots.last());
    if i < slots.len() - 1 {
        assert(front[i] == slots[i]);
        assert forall|j: int| 0 <= j < i implies slot_failure(
            skins,
            #[trigger] front[j],
            stattrak,
        ) is None by {
            assert(front[j] == slots[j]);
        }
        law_first_fault_counts(skins, front, stattrak, i);
    } else {
        assert forall|j: int| 0 <= j < front.len() implies slot_failure(
            skins,
            #[trigger] front[j],
            stattrak,
        ) is None by {
            assert(front[j] == slots[j]);
        }
        lemma_each_slot_accepted(skins, front, stattrak);
    }
}

/// A skin is found under its id, and nothing under an id that no skin has.
pub proof fn law_skin_is_found(skins: Seq<Skin>, id: Seq<char>, k: int)
    requires
        distinct_ids(skins),
    ensures
        0 <= k < skins.len() && skins[k].id@ == id ==> find_skin(skins, id) == Some(skins[k]),
        find_skin(skins, id) is None <==> forall|j: int|
            0 <= j < skins.len() ==> (#[trigger] skins[j]).id@ != id,
{
    lemma_found(skins, id);
    if 0 <= k < skins.len() && skins[k].id@ == id {
        lemma_found_under(skins, k);
    }
}

} // verus!
