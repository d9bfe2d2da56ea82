//! What the outcomes of a contract are, and how many inputs lead to each.
use crate::accuracy::{
    gap, in_unit, law_order_is_numeric, lemma_count_exact, lemma_quotient_in_unit, lemma_unit_value,
    lemma_zero_units,
};
use crate::catalog::{belongs, distinct_ids, pool};
use crate::contract::{
    barren_collection, collection_ids, contract_failure, contract_outcomes, describes_contract,
    entered_pool, outcome_probability, possible_outcomes, slot_skins, slots_of, yielded_rarity,
    AnalyzeResponse, InputRequest, OutcomeAnalysis, Slot,
};
use crate::domain::{zero, Rarity, Skin};
use crate::errors::{
    exact_sum, lemma_fraction_error, lemma_large_count, lemma_large_unit, lemma_nearest_error,
    lemma_quotient_error,
};
use crate::float32::{lemma_nearest_bound, magnitude_units, of_count, quotient, Float32};
use crate::rounding::nearest;
use crate::tally::{
    entered, has_key, key_place, keys_ascend, law_tally, lemma_entered_ascends, lemma_key_place,
    occurrences, tallied, total_count, Entry,
};
use crate::text::lemma_text_relations;
use vstd::arithmetic::div_mod::lemma_fundamental_div_mod;
use vstd::arithmetic::power2::{lemma2_to64, lemma_pow2_adds, pow2};
use vstd::prelude::*;

verus! {

/// `entry` stands for a skin of the given rarity, under its id, and counts the
/// inputs of its collection.
pub open spec fn counts_collection(
    entry: Entry<Skin>,
    skins: Seq<Skin>,
    collections: Seq<Entry<()>>,
    rarity: Rarity,
) -> bool {
    &&& entry.key == entry.item.id@
    &&& skins.contains(entry.item)
    &&& entry.item.rarity == rarity
    &&& exists|j: int|
        0 <= j < collections.len() && (#[trigger] collections[j]).key
            == entry.item.collection_id@ && collections[j].count == entry.count
}

/// A new key is entered as it is, and nothing else changes.
proof fn lemma_new_key<T>(entries: Seq<Entry<T>>, key: Seq<char>, count: nat, item: T)
    requires
        !has_key(entries, key),
    ensures
        ({
            let p = key_place(entries, key);
            &&& 0 <= p <= entries.len()
            &&& entered(entries, key, count, item) == entries.insert(
                p,
                Entry { key, count, item },
            )
        }),
{
    lemma_key_place(entries, key);
    let p = key_place(entries, key);
    if p < entries.len() && entries[p].key == key {
        assert(has_key(entries, key));
    }
}

/// The skins of a pool are skins of the catalog, of the collection and the rarity.
pub(crate) proof fn lemma_pool_skin(skins: Seq<Skin>, collection: Seq<char>, rarity: Rarity, i: int)
    requires
        0 <= i < pool(skins, collection, rarity).len(),
    ensures
        skins.contains(pool(skins, collection, rarity)[i]),
        pool(skins, collection, rarity)[i].collection_id@ == collection,
        pool(skins, collection, rarity)[i].rarity == rarity,
{
    let wanted = belongs(collection, rarity);
    let found = pool(skins, collection, rarity);
    skins.lemma_filter_pred(wanted, i);
    assert(found.contains(found[i]));
    skins.lemma_filter_contains_rev(wanted, found[i]);
}

/// The skins of a pool have distinct ids where those of the catalog do.
proof fn lemma_pool_distinct(skins: Seq<Skin>, wanted: spec_fn(Skin) -> bool)
    requires
        distinct_ids(skins),
    ensures
        distinct_ids(skins.filter(wanted)),
    decreases skins.len(),
{
    reveal(Seq::filter);
    if skins.len() > 0 {
        let front = skins.drop_last();
        let last = skins.last();
        assert forall|i: int, j: int| 0 <= i < j < front.len() implies (#[trigger] front[i]).id@
            != (#[trigger] front[j]).id@ by {
            assert(skins[i].id@ != skins[j].id@);
        }
        lemma_pool_distinct(front, wanted);
        let found = front.filter(wanted);
        let r = skins.filter(wanted);
        assert forall|i: int, j: int| 0 <= i < j < r.len() implies (#[trigger] r[i]).id@ != (
        #[trigger] r[j]).id@ by {
            assert(r[i] == found[i]);
            if j < found.len() {
                assert(r[j] == found[j]);
            } else {
                assert(found.contains(found[i]));
                front.lemma_filter_contains_rev(wanted, found[i]);
                let h = choose|h: int| 0 <= h < front.len() && front[h] == found[i];
                assert(skins[h].id@ != skins[skins.len() - 1].id@);
            }
        }
    }
}

/// In a catalog with distinct ids an id belongs to one skin.
pub(crate) proof fn lemma_one_skin(skins: Seq<Skin>, a: Skin, b: Skin)
    requires
        distinct_ids(skins),
        skins.contains(a),
        skins.contains(b),
        a.id@ == b.id@,
    ensures
        a == b,
{
    let i = choose|i: int| 0 <= i < skins.len() && skins[i] == a;
    let j = choose|j: int| 0 <= j < skins.len() && skins[j] == b;
    if i < j {
        assert(skins[i].id@ != skins[j].id@);
    } else if j < i {
        assert(skins[j].id@ != skins[i].id@);
    }
}

/// No two collections are the same.
pub open spec fn distinct_keys(collections: Seq<Entry<()>>) -> bool {
    forall|i: int, j: int|
        0 <= i < j < collections.len() ==> (#[trigger] collections[i]).key != (
        #[trigger] collections[j]).key
}

/// All entries count the inputs of their collections.
pub open spec fn all_count(
    entries: Seq<Entry<Skin>>,
    skins: Seq<Skin>,
    collections: Seq<Entry<()>>,
    rarity: Rarity,
) -> bool {
    forall|i: int|
        0 <= i < entries.len() ==> counts_collection(
            #[trigger] entries[i],
            skins,
            collections,
            rarity,
        )
}

/// All entries were there before, or stand for skins of `part`.
pub open spec fn all_from(
    entries: Seq<Entry<Skin>>,
    before: Seq<Entry<Skin>>,
    part: Seq<Skin>,
) -> bool {
    forall|i: int|
        0 <= i < entries.len() ==> before.contains(#[trigger] entries[i]) || part.contains(
            entries[i].item,
        )
}

/// All skins of `part` are entered.
pub open spec fn all_entered(entries: Seq<Entry<Skin>>, part: Seq<Skin>) -> bool {
    forall|i: int| 0 <= i < part.len() ==> has_key(entries, (#[trigger] part[i]).id@)
}

/// More collections keep the counts right.
proof fn lemma_more_collections(
    entries: Seq<Entry<Skin>>,
    skins: Seq<Skin>,
    collections: Seq<Entry<()>>,
    rarity: Rarity,
)
    requires
        collections.len() > 0,
        all_count(entries, skins, collections.drop_last(), rarity),
    ensures
        all_count(entries, skins, collections, rarity),
{
    let front = collections.drop_last();
    assert forall|i: int| 0 <= i < entries.len() implies counts_collection(
        #[trigger] entries[i],
        skins,
        collections,
        rarity,
    ) by {
        assert(counts_collection(entries[i], skins, front, rarity));
        let j = choose|j: int|
            0 <= j < front.len() && (#[trigger] front[j]).key == entries[i].item.collection_id@
                && front[j].count == entries[i].count;
        assert(collections[j] == front[j]);
    }
}

/// The next skin of a pool is not entered yet.
proof fn lemma_next_is_new(
    skins: Seq<Skin>,
    before: Seq<Entry<Skin>>,
    entries: Seq<Entry<Skin>>,
    collections: Seq<Entry<()>>,
    rarity: Rarity,
    n: int,
)
    requires
        distinct_ids(skins),
        collections.len() > 0,
        distinct_keys(collections),
        all_count(before, skins, collections.drop_last(), rarity),
        all_count(entries, skins, collections, rarity),
        0 <= n < pool(skins, collections.last().key, rarity).len(),
        all_from(entries, before, pool(skins, collections.last().key, rarity).take(n)),
    ensures
        !has_key(entries, pool(skins, collections.last().key, rarity)[n].id@),
{
    let last = collections.last();
    let front = collections.drop_last();
    let found = pool(skins, last.key, rarity);
    let part = found.take(n);
    let skin = found[n];
    lemma_pool_skin(skins, last.key, rarity, n);
    if has_key(entries, skin.id@) {
        let i = choose|i: int| 0 <= i < entries.len() && (#[trigger] entries[i]).key == skin.id@;
        let item = entries[i].item;
        assert(counts_collection(entries[i], skins, collections, rarity));
        lemma_one_skin(skins, item, skin);
        if before.contains(entries[i]) {
            let h = choose|h: int| 0 <= h < before.len() && before[h] == entries[i];
            assert(counts_collection(before[h], skins, front, rarity));
            let j = choose|j: int|
                0 <= j < front.len() && (#[trigger] front[j]).key == item.collection_id@
                    && front[j].count == before[h].count;
            assert(collections[j] == front[j]);
            assert(collections[j].key != collections[collections.len() - 1].key);
        } else {
            let j = choose|j: int| 0 <= j < part.len() && part[j] == item;
            lemma_pool_distinct(skins, belongs(last.key, rarity));
            assert(found[j] == part[j]);
            assert(found[j].id@ != found[n].id@);
        }
        assert(false);
    }
}

/// Inserting an entry adds its key to those that are there.
proof fn lemma_inserted_keys(entries: Seq<Entry<Skin>>, p: int, new: Entry<Skin>)
    requires
        0 <= p <= entries.len(),
    ensures
        has_key(entries.insert(p, new), new.key),
        forall|key: Seq<char>|
            has_key(entries, key) ==> #[trigger] has_key(entries.insert(p, new), key),
{
    let r = entries.insert(p, new);
    assert(r[p] == new);
    assert forall|key: Seq<char>| has_key(entries, key) implies #[trigger] has_key(r, key) by {
        let i = choose|i: int| 0 <= i < entries.len() && (#[trigger] entries[i]).key == key;
        let h = if i < p {
            i
        } else {
            i + 1
        };
        assert(r[h] == entries[i]);
    }
}

/// An inserted entry that counts right leaves all counting right.
proof fn lemma_inserted_counts(
    entries: Seq<Entry<Skin>>,
    p: int,
    new: Entry<Skin>,
    skins: Seq<Skin>,
    collections: Seq<Entry<()>>,
    rarity: Rarity,
)
    requires
        0 <= p <= entries.len(),
        all_count(entries, skins, collections, rarity),
        counts_collection(new, skins, collections, rarity),
    ensures
        all_count(entries.insert(p, new), skins, collections, rarity),
{
    let r = entries.insert(p, new);
    assert forall|i: int| 0 <= i < r.len() implies counts_collection(
        #[trigger] r[i],
        skins,
        collections,
        rarity,
    ) by {
        if i < p {
            assert(r[i] == entries[i]);
        } else if i > p {
            assert(r[i] == entries[i - 1]);
        }
    }
}

/// An inserted entry adds its skin to those that entries stand for.
proof fn lemma_inserted_from(
    entries: Seq<Entry<Skin>>,
    p: int,
    new: Entry<Skin>,
    before: Seq<Entry<Skin>>,
    part: Seq<Skin>,
)
    requires
        0 <= p <= entries.len(),
        all_from(entries, before, part),
    ensures
        all_from(entries.insert(p, new), before, part.push(new.item)),
{
    let r = entries.insert(p, new);
    let longer = part.push(new.item);
    assert forall|i: int| 0 <= i < r.len() implies before.contains(#[trigger] r[i])
        || longer.contains(r[i].item) by {
        if i == p {
            assert(longer[part.len() as int] == new.item);
        } else {
            let h = if i < p {
                i
            } else {
                i - 1
            };
            assert(r[i] == entries[h]);
            if !before.contains(entries[h]) {
                let j = choose|j: int| 0 <= j < part.len() && part[j] == entries[h].item;
                assert(longer[j] == part[j]);
            }
        }
    }
}

/// An inserted entry enters its skin.
proof fn lemma_inserted_entered(
    entries: Seq<Entry<Skin>>,
    p: int,
    new: Entry<Skin>,
    part: Seq<Skin>,
)
    requires
        0 <= p <= entries.len(),
        all_entered(entries, part),
        new.key == new.item.id@,
    ensures
        all_entered(entries.insert(p, new), part.push(new.item)),
{
    let r = entries.insert(p, new);
    let longer = part.push(new.item);
    lemma_inserted_keys(entries, p, new);
    assert forall|i: int| 0 <= i < longer.len() implies has_key(r, (#[trigger] longer[i]).id@) by {
        if i < part.len() {
            assert(longer[i] == part[i]);
            assert(has_key(entries, part[i].id@));
        }
    }
}

/// Entering the first skins of a collection's pool: each is new, and counts the
/// inputs of the collection.
proof fn lemma_pool_entered(
    skins: Seq<Skin>,
    before: Seq<Entry<Skin>>,
    collections: Seq<Entry<()>>,
    rarity: Rarity,
    n: int,
)
    requires
        distinct_ids(skins),
        collections.len() > 0,
        distinct_keys(collections),
        all_count(before, skins, collections.drop_last(), rarity),
        keys_ascend(before),
        0 <= n <= pool(skins, collections.last().key, rarity).len(),
    ensures
        ({
            let part = pool(skins, collections.last().key, rarity).take(n);
            let r = entered_pool(before, part, collections.last().count);
            &&& keys_ascend(r)
            &&& all_count(r, skins, collections, rarity)
            &&& all_from(r, before, part)
            &&& all_entered(r, part)
            &&& forall|key: Seq<char>| has_key(before, key) ==> #[trigger] has_key(r, key)
        }),
    decreases n,
{
    let last = collections.last();
    let found = pool(skins, last.key, rarity);
    let part = found.take(n);
    if n == 0 {
        lemma_more_collections(before, skins, collections, rarity);
        assert forall|i: int| 0 <= i < before.len() implies before.contains(
            #[trigger] before[i],
        ) by {}
    } else {
        let shorter = found.take(n - 1);
        let entries = entered_pool(before, shorter, last.count);
        let skin = found[n - 1];
        lemma_pool_entered(skins, before, collections, rarity, n - 1);
        lemma_next_is_new(skins, before, entries, collections, rarity, n - 1);
        lemma_pool_skin(skins, last.key, rarity, n - 1);
        lemma_new_key(entries, skin.id@, last.count, skin);
        lemma_entered_ascends(entries, skin.id@, last.count, skin);
        let p = key_place(entries, skin.id@);
        let new = Entry { key: skin.id@, count: last.count, item: skin };
        let r = entries.insert(p, new);
        assert(collections[collections.len() - 1] == last);
        lemma_inserted_keys(entries, p, new);
        lemma_inserted_counts(entries, p, new, skins, collections, rarity);
        lemma_inserted_from(entries, p, new, before, shorter);
        lemma_inserted_entered(entries, p, new, shorter);
        assert(part.drop_last() =~= shorter);
        assert(part =~= shorter.push(skin));
        assert forall|key: Seq<char>| has_key(before, key) implies #[trigger] has_key(r, key) by {
            assert(has_key(entries, key));
        }
    }
}

/// Every skin of the wanted rarity in the given collections is an outcome, once,
/// and counts the inputs of its collection; nothing else is an outcome.
proof fn lemma_outcomes(skins: Seq<Skin>, collections: Seq<Entry<()>>, rarity: Rarity)
    requires
        distinct_ids(skins),
        distinct_keys(collections),
    ensures
        ({
            let r = possible_outcomes(skins, collections, rarity);
            &&& keys_ascend(r)
            &&& all_count(r, skins, collections, rarity)
            &&& forall|j: int, i: int|
                0 <= j < collections.len() && 0 <= i < pool(
                    skins,
                    collections[j].key,
                    rarity,
                ).len() ==> has_key(
                    r,
                    (#[trigger] pool(skins, collections[j].key, rarity)[i]).id@,
                )
        }),
    decreases collections.len(),
{
    if collections.len() > 0 {
        let front = collections.drop_last();
        assert forall|i: int, j: int| 0 <= i < j < front.len() implies (#[trigger] front[i]).key
            != (#[trigger] front[j]).key by {
            assert(collections[i].key != collections[j].key);
        }
        lemma_outcomes(skins, front, rarity);
        let before = possible_outcomes(skins, front, rarity);
        let found = pool(skins, collections.last().key, rarity);
        lemma_pool_entered(skins, before, collections, rarity, found.len() as int);
        assert(found.take(found.len() as int) =~= found);
        let r = possible_outcomes(skins, collections, rarity);
        assert forall|j: int, i: int|
            0 <= j < collections.len() && 0 <= i < pool(
                skins,
                collections[j].key,
                rarity,
            ).len() implies has_key(
            r,
            (#[trigger] pool(skins, collections[j].key, rarity)[i]).id@,
        ) by {
            if j < front.len() {
                assert(front[j] == collections[j]);
                assert(has_key(before, pool(skins, front[j].key, rarity)[i].id@));
            }
        }
    }
}

/// The outcomes of a contract, in a catalog with distinct ids: each is a skin of
/// the next rarity, from the collection of an input, and is listed once; its count is
/// the number of inputs from its collection; and every such skin of a collection that an
/// input comes from is listed.
pub proof fn law_outcomes_of_contract(skins: Seq<Skin>, slots: Seq<Slot>)
    requires
        distinct_ids(skins),
        slots.len() <= usize::MAX,
    ensures
        ({
            let r = contract_outcomes(skins, slots);
            let inputs = collection_ids(slot_skins(skins, slots));
            &&& keys_ascend(r)
            &&& forall|i: int|
                0 <= i < r.len() ==> {
                    &&& (#[trigger] r[i]).key == r[i].item.id@
                    &&& skins.contains(r[i].item)
                    &&& r[i].item.rarity == yielded_rarity(skins, slots)
                    &&& inputs.contains(r[i].item.collection_id@)
                    &&& r[i].count == occurrences(inputs, r[i].item.collection_id@)
                }
            &&& forall|j: int, i: int|
                0 <= j < inputs.len() && 0 <= i < pool(
                    skins,
                    inputs[j],
                    yielded_rarity(skins, slots),
                ).len() ==> has_key(
                    r,
                    (#[trigger] pool(skins, inputs[j], yielded_rarity(skins, slots))[i]).id@,
                )
        }),
{
    let inputs = collection_ids(slot_skins(skins, slots));
    let rarity = yielded_rarity(skins, slots);
    let collections = tallied(inputs);
    law_tally(inputs);
    assert forall|i: int, j: int| 0 <= i < j < collections.len() implies (
    #[trigger] collections[i]).key != (#[trigger] collections[j]).key by {
        lemma_text_relations(collections[i].key, collections[j].key, collections[j].key);
    }
    lemma_outcomes(skins, collections, rarity);
    let r = contract_outcomes(skins, slots);
    assert forall|i: int| 0 <= i < r.len() implies {
        &&& inputs.contains((#[trigger] r[i]).item.collection_id@)
        &&& r[i].count == occurrences(inputs, r[i].item.collection_id@)
    } by {
        assert(counts_collection(r[i], skins, collections, rarity));
        let j = choose|j: int|
            0 <= j < collections.len() && (#[trigger] collections[j]).key
                == r[i].item.collection_id@ && collections[j].count == r[i].count;
        assert(has_key(collections, r[i].item.collection_id@));
    }
    assert forall|j: int, i: int|
        0 <= j < inputs.len() && 0 <= i < pool(skins, inputs[j], rarity).len() implies has_key(
        r,
        (#[trigger] pool(skins, inputs[j], rarity)[i]).id@,
    ) by {
        assert(has_key(collections, inputs[j]));
        let h = choose|h: int| 0 <= h < collections.len() && (#[trigger] collections[h]).key
            == inputs[j];
        assert(has_key(r, pool(skins, collections[h].key, rarity)[i].id@));
    }
}

/// The odds of an entry, as parts of `parts` for each input: those of its
/// collection share equally in what its inputs bring.
pub open spec fn odds(entry: Entry<Skin>, skins: Seq<Skin>, rarity: Rarity, parts: nat) -> nat {
    entry.count * (parts / pool(skins, entry.item.collection_id@, rarity).len())
}

pub open spec fn total_odds(
    entries: Seq<Entry<Skin>>,
    skins: Seq<Skin>,
    rarity: Rarity,
    parts: nat,
) -> nat
    decreases entries.len(),
{
    if entries.len() == 0 {
        0
    } else {
        total_odds(entries.drop_last(), skins, rarity, parts) + odds(
            entries.last(),
            skins,
            rarity,
            parts,
        )
    }
}

proof fn lemma_odds_insert(
    entries: Seq<Entry<Skin>>,
    p: int,
    new: Entry<Skin>,
    skins: Seq<Skin>,
    rarity: Rarity,
    parts: nat,
)
    requires
        0 <= p <= entries.len(),
    ensures
        total_odds(entries.insert(p, new), skins, rarity, parts) == total_odds(
            entries,
            skins,
            rarity,
            parts,
        ) + odds(new, skins, rarity, parts),
    decreases entries.len(),
{
    let r = entries.insert(p, new);
    if p == entries.len() {
        assert(r.drop_last() =~= entries);
    } else {
        lemma_odds_insert(entries.drop_last(), p, new, skins, rarity, parts);
        assert(r.drop_last() =~= entries.drop_last().insert(p, new));
    }
}

/// Each skin of a pool adds the same odds.
proof fn lemma_pool_odds(
    skins: Seq<Skin>,
    before: Seq<Entry<Skin>>,
    collections: Seq<Entry<()>>,
    rarity: Rarity,
    n: int,
    parts: nat,
)
    requires
        distinct_ids(skins),
        collections.len() > 0,
        distinct_keys(collections),
        all_count(before, skins, collections.drop_last(), rarity),
        keys_ascend(before),
        0 <= n <= pool(skins, collections.last().key, rarity).len(),
    ensures
        ({
            let found = pool(skins, collections.last().key, rarity);
            let r = entered_pool(before, found.take(n), collections.last().count);
            total_odds(r, skins, rarity, parts) == total_odds(before, skins, rarity, parts) + n * (
            collections.last().count * (parts / found.len()))
        }),
    decreases n,
{
    let last = collections.last();
    let found = pool(skins, last.key, rarity);
    let each = (last.count * (parts / found.len())) as int;
    if n == 0 {
        assert(0 * each == 0);
    } else {
        let shorter = found.take(n - 1);
        let entries = entered_pool(before, shorter, last.count);
        let skin = found[n - 1];
        lemma_pool_odds(skins, before, collections, rarity, n - 1, parts);
        lemma_pool_entered(skins, before, collections, rarity, n - 1);
        lemma_next_is_new(skins, before, entries, collections, rarity, n - 1);
        lemma_pool_skin(skins, last.key, rarity, n - 1);
        lemma_new_key(entries, skin.id@, last.count, skin);
        let p = key_place(entries, skin.id@);
        let new = Entry { key: skin.id@, count: last.count, item: skin };
        lemma_odds_insert(entries, p, new, skins, rarity, parts);
        assert(found.take(n).drop_last() =~= shorter);
        assert(found.take(n).last() == skin);
        assert((n - 1) * each + each == n * each) by (nonlinear_arith);
    }
}

/// Every collection has outcomes, and `parts` can be dealt out equally among them.
pub open spec fn divides_evenly(
    skins: Seq<Skin>,
    collections: Seq<Entry<()>>,
    rarity: Rarity,
    parts: nat,
) -> bool {
    forall|i: int|
        0 <= i < collections.len() ==> {
            let size = pool(skins, (#[trigger] collections[i]).key, rarity).len();
            size > 0 && parts % size == 0
        }
}

/// The odds of all outcomes make up what the inputs bring.
proof fn lemma_total_odds(
    skins: Seq<Skin>,
    collections: Seq<Entry<()>>,
    rarity: Rarity,
    parts: nat,
)
    requires
        distinct_ids(skins),
        distinct_keys(collections),
        divides_evenly(skins, collections, rarity, parts),
    ensures
        total_odds(possible_outcomes(skins, collections, rarity), skins, rarity, parts)
            == total_count(collections) * parts,
    decreases collections.len(),
{
    if collections.len() == 0 {
        assert(0 * parts == 0);
    } else {
        let front = collections.drop_last();
        let last = collections.last();
        let found = pool(skins, last.key, rarity);
        assert forall|i: int| 0 <= i < front.len() implies #[trigger] front[i]
            == collections[i] by {}
        assert(distinct_keys(front)) by {
            assert forall|i: int, j: int| 0 <= i < j < front.len() implies (
            #[trigger] front[i]).key != (#[trigger] front[j]).key by {
                assert(collections[i].key != collections[j].key);
            }
        }
        assert(divides_evenly(skins, front, rarity, parts)) by {
            assert forall|i: int| 0 <= i < front.len() implies {
                let size = pool(skins, (#[trigger] front[i]).key, rarity).len();
                size > 0 && parts % size == 0
            } by {
                assert(pool(skins, collections[i].key, rarity).len() > 0);
            }
        }
        lemma_total_odds(skins, front, rarity, parts);
        lemma_outcomes(skins, front, rarity);
        let before = possible_outcomes(skins, front, rarity);
        let size = found.len();
        lemma_pool_odds(skins, before, collections, rarity, size as int, parts);
        assert(found.take(size as int) =~= found);
        assert(collections[collections.len() - 1] == last);
        lemma_fundamental_div_mod(parts as int, size as int);
        let (share, count, whole) = (parts / size, last.count, total_count(front));
        assert(size * (count * share) == count * parts) by (nonlinear_arith)
            requires
                parts == size * share,
        ;
        assert(whole * parts + count * parts == (whole + count) * parts) by (nonlinear_arith);
    }
}

/// The odds of a contract add up to one: where a number of parts can be dealt out
/// equally among the outcomes of every collection, the outcomes together have as
/// many as that number for each input.
pub proof fn law_odds_add_up(skins: Seq<Skin>, slots: Seq<Slot>, parts: nat)
    requires
        distinct_ids(skins),
        slots.len() <= usize::MAX,
        divides_evenly(
            skins,
            tallied(collection_ids(slot_skins(skins, slots))),
            yielded_rarity(skins, slots),
            parts,
        ),
    ensures
        total_odds(
            contract_outcomes(skins, slots),
            skins,
            yielded_rarity(skins, slots),
            parts,
        ) == slots.len() * parts,
{
    let inputs = collection_ids(slot_skins(skins, slots));
    let collections = tallied(inputs);
    law_tally(inputs);
    assert forall|i: int, j: int| 0 <= i < j < collections.len() implies (
    #[trigger] collections[i]).key != (#[trigger] collections[j]).key by {
        lemma_text_relations(collections[i].key, collections[j].key, collections[j].key);
    }
    lemma_total_odds(skins, collections, yielded_rarity(skins, slots), parts);
}

/// No collection is barren where each one has skins of the rarity.
pub(crate) proof fn lemma_none_barren(skins: Seq<Skin>, collections: Seq<Entry<()>>, rarity: Rarity)
    ensures
        barren_collection(skins, collections, rarity) is None <==> forall|i: int|
            0 <= i < collections.len() ==> pool(
                skins,
                (#[trigger] collections[i]).key,
                rarity,
            ).len() > 0,
    decreases collections.len(),
{
    if collections.len() > 0 {
        let front = collections.drop_last();
        lemma_none_barren(skins, front, rarity);
        assert forall|i: int| 0 <= i < front.len() implies #[trigger] front[i]
            == collections[i] by {}
        assert(collections[collections.len() - 1] == collections.last());
        if barren_collection(skins, collections, rarity) is None {
            assert forall|i: int| 0 <= i < collections.len() implies pool(
                skins,
                (#[trigger] collections[i]).key,
                rarity,
            ).len() > 0 by {
                if i < front.len() {
                    assert(pool(skins, front[i].key, rarity).len() > 0);
                }
            }
        }
    }
}

/// The exact sum of the probabilities of entries, in units of `2^-149`.
pub open spec fn total_probability(
    entries: Seq<Entry<Skin>>,
    skins: Seq<Skin>,
    rarity: Rarity,
) -> int
    decreases entries.len(),
{
    if entries.len() == 0 {
        0
    } else {
        total_probability(entries.drop_last(), skins, rarity) + outcome_probability(
            skins,
            entries.last(),
            rarity,
            10,
        ).units()
    }
}

proof fn lemma_probability_insert(
    entries: Seq<Entry<Skin>>,
    p: int,
    new: Entry<Skin>,
    skins: Seq<Skin>,
    rarity: Rarity,
)
    requires
        0 <= p <= entries.len(),
    ensures
        total_probability(entries.insert(p, new), skins, rarity) == total_probability(
            entries,
            skins,
            rarity,
        ) + outcome_probability(skins, new, rarity, 10).units(),
    decreases entries.len(),
{
    let r = entries.insert(p, new);
    if p == entries.len() {
        assert(r.drop_last() =~= entries);
    } else {
        lemma_probability_insert(entries.drop_last(), p, new, skins, rarity);
        assert(r.drop_last() =~= entries.drop_last().insert(p, new));
    }
}

/// The probability of each of `size` outcomes that `count` inputs of ten lead to.
pub open spec fn shared_probability(count: nat, size: nat) -> Float32 {
    quotient(quotient(of_count(count), of_count(10)), of_count(size))
}

/// Each skin of a pool adds the same probability.
proof fn lemma_pool_probability(
    skins: Seq<Skin>,
    before: Seq<Entry<Skin>>,
    collections: Seq<Entry<()>>,
    rarity: Rarity,
    n: int,
)
    requires
        distinct_ids(skins),
        collections.len() > 0,
        distinct_keys(collections),
        all_count(before, skins, collections.drop_last(), rarity),
        keys_ascend(before),
        0 <= n <= pool(skins, collections.last().key, rarity).len(),
    ensures
        ({
            let found = pool(skins, collections.last().key, rarity);
            let r = entered_pool(before, found.take(n), collections.last().count);
            total_probability(r, skins, rarity) == total_probability(before, skins, rarity) + n
                * shared_probability(collections.last().count, found.len()).units()
        }),
    decreases n,
{
    let last = collections.last();
    let found = pool(skins, last.key, rarity);
    let each = shared_probability(last.count, found.len()).units();
    if n == 0 {
        assert(0 * each == 0);
    } else {
        let shorter = found.take(n - 1);
        let entries = entered_pool(before, shorter, last.count);
        let skin = found[n - 1];
        lemma_pool_probability(skins, before, collections, rarity, n - 1);
        lemma_pool_entered(skins, before, collections, rarity, n - 1);
        lemma_next_is_new(skins, before, entries, collections, rarity, n - 1);
        lemma_pool_skin(skins, last.key, rarity, n - 1);
        lemma_new_key(entries, skin.id@, last.count, skin);
        let p = key_place(entries, skin.id@);
        let new = Entry { key: skin.id@, count: last.count, item: skin };
        lemma_probability_insert(entries, p, new, skins, rarity);
        assert(found.take(n).drop_last() =~= shorter);
        assert(found.take(n).last() == skin);
        assert((n - 1) * each + each == n * each) by (nonlinear_arith);
    }
}

/// A count, however large, is off by no more than one part in `2^24` and one unit.
proof fn lemma_count_error(size: nat)
    requires
        0 < size <= 0x1_0000_0000_0000_0000,
    ensures
        of_count(size).finite(),
        of_count(size).rank() > 0,
        of_count(size).units() >= pow2(149),
        0x100_0000 * gap(of_count(size).units(), (size * pow2(149)) as int) <= size * pow2(149)
            + 0x100_0000,
{
    let p = pow2(149);
    lemma_large_unit();
    if size <= 0x100_0000 {
        lemma_count_exact(size);
        assert(size * p >= p) by (nonlinear_arith)
            requires
                size >= 1,
        ;
    } else {
        lemma_large_count(size);
        reveal(of_count);
        lemma_nearest_bound(size * p, 1);
        lemma_nearest_error(size * p, 1);
        let m = magnitude_units(nearest(size * p, 1));
        assert(m * 1 == m);
    }
    lemma_zero_units(0);
    law_order_is_numeric(zero(), of_count(size));
}

/// What rounding a divisor and a quotient does to a share: `u` times `z`, where `u` is
/// nearly `t` by `d`, and `d` nearly `z` units of `p`.
proof fn lemma_shared_error(t: int, u: int, d: int, z: int, p: int)
    requires
        0 <= t,
        0 <= u,
        z >= 1,
        p >= 0x1_0000_0000_0000_0000,
        0x100_0000 * gap(d, z * p) <= z * p + 0x100_0000,
        0x100_0000 * gap(u * d, t * p) <= t * p + 0x100_0000 * d,
    ensures
        0x100_0000 * gap(u * z, t) <= 9 * t + 4 * 0x100_0000 * z,
{
    let m = 0x100_0000int;
    let (q, v) = (z * p, t * p);
    assert(q >= p && v >= 0) by (nonlinear_arith)
        requires
            q == z * p,
            v == t * p,
            z >= 1,
            t >= 0,
            p >= 0,
    ;
    let e = d - q;
    assert(m * e <= 2 * q && -(m * e) <= 2 * q);
    assert(m * (u * e) <= 2 * (u * q) && -(m * (u * e)) <= 2 * (u * q)) by (nonlinear_arith)
        requires
            m * e <= 2 * q,
            -(m * e) <= 2 * q,
            u >= 0,
    ;
    assert(u * d == u * q + u * e) by (nonlinear_arith)
        requires
            d == q + e,
    ;
    let (w, x) = (u * q, u * e);
    // The exact share is at most about twice the product with the rounded divisor.
    assert(m * w <= 2 * w + m * (u * d));
    assert(w >= 0) by (nonlinear_arith)
        requires
            w == u * q,
            u >= 0,
            q >= 0,
    ;
    assert(m * (w - v) <= 9 * v + 4 * (m * q) && m * (v - w) <= 9 * v + 4 * (m * q));
    let y = u * z - t;
    assert(w - v == y * p) by (nonlinear_arith)
        requires
            w == u * q,
            q == z * p,
            v == t * p,
            y == u * z - t,
    ;
    assert(m * y <= 9 * t + 4 * m * z && m * (-y) <= 9 * t + 4 * m * z) by (nonlinear_arith)
        requires
            m * (y * p) <= 9 * (t * p) + 4 * (m * (z * p)),
            m * (-(y * p)) <= 9 * (t * p) + 4 * (m * (z * p)),
            p > 0,
    ;
}

/// The outcomes of a collection together get the part that its inputs are of ten, up to
/// rounding.
pub(crate) proof fn lemma_collection_probability(count: nat, size: nat)
    requires
        count <= 10,
        0 < size <= 0x1_0000_0000_0000_0000,
    ensures
        in_unit(shared_probability(count, size)),
        0x100_0000 * gap(
            10 * (size * shared_probability(count, size).units()),
            (count * pow2(149)) as int,
        ) <= 19 * (count * pow2(149)) + 51 * (0x100_0000 * size),
{
    let p = pow2(149) as int;
    let (c, z) = (count as int, size as int);
    let tenth = quotient(of_count(count), of_count(10));
    let part = shared_probability(count, size);
    lemma_large_unit();
    lemma_count_exact(count);
    lemma_count_exact(10);
    lemma_count_error(size);
    assert(0 <= c * p <= 10 * p) by (nonlinear_arith)
        requires
            0 <= c <= 10,
            p >= 0,
    ;
    lemma_fraction_error(of_count(count), of_count(10), 10);
    lemma_unit_value(tenth);
    lemma_zero_units(0);
    law_order_is_numeric(zero(), tenth);
    law_order_is_numeric(tenth, of_count(size));
    lemma_quotient_in_unit(tenth, of_count(size));
    lemma_unit_value(part);
    lemma_quotient_error(tenth, of_count(size));
    let (t, u) = (tenth.units(), part.units());
    lemma_shared_error(t, u, of_count(size).units(), z, p);
    let (x, w, m) = (u * z, c * p, 0x100_0000int);
    assert(size * u == x && count * pow2(149) == w) by (nonlinear_arith)
        requires
            x == u * z,
            w == c * p,
            z == size,
            c == count,
            p == pow2(149),
    ;
    assert(m * (10 * t - w) <= w + 10 * m && m * (w - 10 * t) <= w + 10 * m);
    assert(m * (x - t) <= 9 * t + 4 * m * z && m * (t - x) <= 9 * t + 4 * m * z);
    assert(10 * t <= 2 * w + 10);
}

/// All probabilities together are one, up to rounding.
proof fn lemma_total_probability(skins: Seq<Skin>, collections: Seq<Entry<()>>, rarity: Rarity)
    requires
        distinct_ids(skins),
        distinct_keys(collections),
        skins.len() <= 0x1_0000_0000_0000_0000,
        total_count(collections) <= 10,
        forall|i: int|
            0 <= i < collections.len() ==> pool(
                skins,
                (#[trigger] collections[i]).key,
                rarity,
            ).len() > 0,
    ensures
        0x100_0000 * gap(
            10 * total_probability(possible_outcomes(skins, collections, rarity), skins, rarity),
            (total_count(collections) * pow2(149)) as int,
        ) <= 19 * (total_count(collections) * pow2(149)) + collections.len()
            * 0x100_0000_0000_0000_0000_0000_0000,
    decreases collections.len(),
{
    let p = pow2(149) as int;
    if collections.len() == 0 {
        assert(0 * p == 0);
        assert(0 * 0x100_0000_0000_0000_0000_0000_0000 == 0);
    } else {
        let front = collections.drop_last();
        let last = collections.last();
        let found = pool(skins, last.key, rarity);
        assert(collections[collections.len() - 1] == last);
        assert forall|i: int| 0 <= i < front.len() implies pool(
            skins,
            (#[trigger] front[i]).key,
            rarity,
        ).len() > 0 by {
            assert(front[i] == collections[i]);
        }
        assert(distinct_keys(front)) by {
            assert forall|i: int, j: int| 0 <= i < j < front.len() implies (
            #[trigger] front[i]).key != (#[trigger] front[j]).key by {
                assert(collections[i].key != collections[j].key);
            }
        }
        lemma_total_probability(skins, front, rarity);
        lemma_outcomes(skins, front, rarity);
        let before = possible_outcomes(skins, front, rarity);
        let size = found.len();
        lemma_pool_probability(skins, before, collections, rarity, size as int);
        assert(found.take(size as int) =~= found);
        skins.lemma_filter_len(belongs(last.key, rarity));
        lemma_collection_probability(last.count, size);
        let (whole, count, n) = (total_count(front) as int, last.count as int, front.len() as int);
        assert(whole * p + count * p == (whole + count) * p) by (nonlinear_arith);
        let k = 0x100_0000_0000_0000_0000_0000_0000int;
        assert(n * k + k == (n + 1) * k) by (nonlinear_arith);
    }
}

/// The exact sum of reported probabilities is that of the entries they describe.
proof fn lemma_reported_probability(
    shown: Seq<OutcomeAnalysis>,
    entries: Seq<Entry<Skin>>,
    skins: Seq<Skin>,
    rarity: Rarity,
)
    requires
        shown.len() == entries.len(),
        forall|i: int|
            0 <= i < shown.len() ==> (#[trigger] shown[i]).probability == outcome_probability(
                skins,
                entries[i],
                rarity,
                10,
            ),
    ensures
        exact_sum(probabilities(shown)) == total_probability(entries, skins, rarity),
    decreases shown.len(),
{
    if shown.len() > 0 {
        let front = shown.drop_last();
        assert forall|i: int| 0 <= i < front.len() implies (#[trigger] front[i]).probability
            == outcome_probability(skins, entries.drop_last()[i], rarity, 10) by {
            assert(front[i] == shown[i]);
        }
        lemma_reported_probability(front, entries.drop_last(), skins, rarity);
        assert(probabilities(shown).drop_last() =~= probabilities(front));
        assert(shown[shown.len() - 1] == shown.last());
    }
}

pub open spec fn probabilities(shown: Seq<OutcomeAnalysis>) -> Seq<Float32> {
    Seq::new(shown.len(), |i: int| shown[i].probability)
}

/// The probabilities that an analysis reports add up to one, within 0.00001.
pub proof fn law_reported_odds_add_up(
    skins: Seq<Skin>,
    inputs: Seq<InputRequest>,
    stattrak: bool,
    analysis: AnalyzeResponse,
)
    requires
        distinct_ids(skins),
        skins.len() <= usize::MAX,
        contract_failure(skins, inputs.len(), slots_of(inputs), stattrak) is None,
        describes_contract(analysis, skins, inputs),
    ensures
        100_000 * gap(exact_sum(probabilities(analysis.outcomes@)), pow2(149) as int) < pow2(149),
{
    let slots = slots_of(inputs);
    let rarity = yielded_rarity(skins, slots);
    let ids = collection_ids(slot_skins(skins, slots));
    let collections = tallied(ids);
    law_tally(ids);
    assert forall|i: int, j: int| 0 <= i < j < collections.len() implies (
    #[trigger] collections[i]).key != (#[trigger] collections[j]).key by {
        lemma_text_relations(collections[i].key, collections[j].key, collections[j].key);
    }
    lemma_none_barren(skins, collections, rarity);
    assert forall|i: int| 0 <= i < collections.len() implies (
    #[trigger] collections[i]).count > 0 by {
        lemma_occurs(ids, collections[i].key);
    }
    lemma_few_entries(collections);
    lemma_total_probability(skins, collections, rarity);
    lemma_reported_probability(
        analysis.outcomes@,
        contract_outcomes(skins, slots),
        skins,
        rarity,
    );
    lemma_huge_unit();
}

/// A key that is there occurs.
proof fn lemma_occurs(keys: Seq<Seq<char>>, key: Seq<char>)
    requires
        keys.contains(key),
    ensures
        occurrences(keys, key) > 0,
    decreases keys.len(),
{
    let j = choose|j: int| 0 <= j < keys.len() && keys[j] == key;
    if j < keys.len() - 1 {
        assert(keys.drop_last()[j] == key);
        lemma_occurs(keys.drop_last(), key);
    }
}

/// Where every entry counts something, there are no more entries than they count.
proof fn lemma_few_entries(entries: Seq<Entry<()>>)
    requires
        forall|i: int| 0 <= i < entries.len() ==> (#[trigger] entries[i]).count > 0,
    ensures
        entries.len() <= total_count(entries),
    decreases entries.len(),
{
    if entries.len() > 0 {
        let front = entries.drop_last();
        assert forall|i: int| 0 <= i < front.len() implies (#[trigger] front[i]).count > 0 by {
            assert(front[i] == entries[i]);
        }
        lemma_few_entries(front);
        assert(entries[entries.len() - 1] == entries.last());
    }
}

proof fn lemma_huge_unit()
    ensures
        pow2(149) >= 0x1_0000_0000_0000_0000_0000_0000_0000_0000,
{
    lemma2_to64();
    lemma_pow2_adds(64, 64);
    lemma_pow2_adds(128, 21);
    let (p, q) = (pow2(149), pow2(128));
    assert(p >= q) by (nonlinear_arith)
        requires
            p == q * 0x20_0000,
    ;
}

} // verus!
