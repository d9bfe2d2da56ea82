//! What an import keeps of its sources.
use crate::acceptance::lemma_found_under;
use crate::accuracy::{gap, law_order_is_numeric};
use crate::catalog::{
    is_path, law_accepted_catalog, lists_paths, path_count, persisted_failure, tradable,
    upstream_rarity, UpstreamCollection, UpstreamSkin,
};
use crate::contract::{slot_failure, Slot};
use crate::domain::{Rarity, Skin};
use crate::float32::{difference, sum, Float32};
use crate::text::spelled_u32;
use crate::rounding::nearest;
use crate::sorting::{lemma_stable_sorted, stable_sorted, Ranked};
use crate::sync::{
    caps_agree, caps_of, caps_report, checks_caps, file_kits, imports, law_verdicts_add_up,
    mismatch_of, mismatch_values, mismatches_of, shown_first, verdict_count, verdict_on, CapsCheck,
    CapsVerification, ShownCaps, SyncResult, UpstreamCaps,
};
use crate::text::text_before;
use crate::wear::{decimal_place, law_fixed_numbers, lemma_distance};
use vstd::prelude::*;

verus! {

/// The rarity under its upstream name, one step after the other.
pub open spec fn names_rarity(id: Seq<char>, rarity: Rarity) -> bool {
    match rarity {
        Rarity::Consumer => id == "rarity_common_weapon"@,
        Rarity::Industrial => id == "rarity_uncommon_weapon"@,
        Rarity::MilSpec => id == "rarity_rare_weapon"@,
        Rarity::Restricted => id == "rarity_mythical_weapon"@,
        Rarity::Classified => id == "rarity_legendary_weapon"@,
        Rarity::Covert => id == "rarity_ancient_weapon"@,
        Rarity::Extraordinary => id == "rarity_ancient"@ || id == "rarity_contraband_weapon"@,
    }
}

/// The upstream names of rarities differ.
proof fn lemma_rarity_texts()
    ensures
        "rarity_common_weapon"@.len() == 20,
        "rarity_uncommon_weapon"@.len() == 22,
        "rarity_rare_weapon"@.len() == 18,
        "rarity_mythical_weapon"@.len() == 22,
        "rarity_legendary_weapon"@.len() == 23,
        "rarity_ancient_weapon"@.len() == 21,
        "rarity_ancient"@.len() == 14,
        "rarity_contraband_weapon"@.len() == 24,
        "rarity_uncommon_weapon"@ != "rarity_mythical_weapon"@,
{
    reveal_strlit("rarity_common_weapon");
    reveal_strlit("rarity_uncommon_weapon");
    reveal_strlit("rarity_rare_weapon");
    reveal_strlit("rarity_mythical_weapon");
    reveal_strlit("rarity_legendary_weapon");
    reveal_strlit("rarity_ancient_weapon");
    reveal_strlit("rarity_ancient");
    reveal_strlit("rarity_contraband_weapon");
    assert("rarity_mythical_weapon"@[7] == 'm');
    assert("rarity_uncommon_weapon"@[7] == 'u');
}

/// Each rarity has its own upstream name; rare special items have two.
pub proof fn law_rarity_names(id: Seq<char>, rarity: Rarity)
    ensures
        upstream_rarity(id) == Some(rarity) <==> names_rarity(id, rarity),
{
    lemma_rarity_texts();
}

/// An upstream skin that can be traded: its rarity has a known name, and its caps are
/// finite and in order.
pub open spec fn can_be_traded(skin: UpstreamSkin) -> bool {
    &&& exists|rarity: Rarity| #[trigger] names_rarity(skin.rarity.id@, rarity)
    &&& skin.min_float is Some
    &&& skin.max_float is Some
    &&& skin.min_float->0.finite()
    &&& skin.max_float->0.finite()
    &&& skin.min_float->0.units() < skin.max_float->0.units()
}

/// A skin of the catalog has all that its upstream skin has, in one of its collections.
pub open spec fn taken_from(path: Skin, skin: UpstreamSkin, collection: UpstreamCollection) -> bool {
    &&& path.id@ == collection.id@ + "/"@ + skin.id@
    &&& path.name@ == skin.name@
    &&& path.collection_id@ == collection.id@
    &&& path.collection_name@ == collection.name@
    &&& names_rarity(skin.rarity.id@, path.rarity)
    &&& skin.min_float == Some(path.min_float)
    &&& skin.max_float == Some(path.max_float)
    &&& path.stattrak_supported <==> skin.stattrak
    &&& match skin.weapon {
        Some(weapon) => path.def_index == weapon.weapon_id,
        None => path.def_index is None,
    }
    &&& match skin.paint_index {
        Some(text) => path.paint_index == spelled_u32(text@),
        None => path.paint_index is None,
    }
}

/// The catalog has the paths of the upstream skins, and is accepted.
pub open spec fn imported(skins: Seq<Skin>, upstream: Seq<UpstreamSkin>) -> bool {
    exists|paths: Seq<Skin>| #[trigger]
        lists_paths(paths, upstream) && skins == stable_sorted(paths) && persisted_failure(
            stable_sorted(paths),
        ) is None
}

proof fn lemma_traded(skin: UpstreamSkin)
    ensures
        tradable(skin) <==> can_be_traded(skin),
{
    if upstream_rarity(skin.rarity.id@) is Some {
        law_rarity_names(skin.rarity.id@, upstream_rarity(skin.rarity.id@)->0);
    }
    if exists|rarity: Rarity| #[trigger] names_rarity(skin.rarity.id@, rarity) {
        let rarity = choose|rarity: Rarity| #[trigger] names_rarity(skin.rarity.id@, rarity);
        law_rarity_names(skin.rarity.id@, rarity);
    }
    if skin.min_float is Some && skin.max_float is Some && skin.min_float->0.finite()
        && skin.max_float->0.finite() {
        law_order_is_numeric(skin.min_float->0, skin.max_float->0);
    }
}

proof fn lemma_taken(path: Skin, skin: UpstreamSkin, collection: UpstreamCollection)
    ensures
        is_path(path, skin, collection) <==> taken_from(path, skin, collection),
{
    law_rarity_names(skin.rarity.id@, path.rarity);
}

/// The place of each path has an upstream skin and a collection.
proof fn lemma_path_origin(upstream: Seq<UpstreamSkin>, h: int) -> (at: (int, int))
    requires
        0 <= h < path_count(upstream),
    ensures
        0 <= at.0 < upstream.len(),
        tradable(upstream[at.0]),
        0 <= at.1 < upstream[at.0].collections@.len(),
        h == path_count(upstream.take(at.0)) + at.1,
    decreases upstream.len(),
{
    let front = upstream.drop_last();
    let n = upstream.len() - 1;
    assert(upstream[n] == upstream.last());
    assert(upstream.take(n) =~= front);
    if h < path_count(front) {
        let at = lemma_path_origin(front, h);
        assert(front.take(at.0) =~= upstream.take(at.0));
        at
    } else {
        (n, h - path_count(front))
    }
}

/// An earlier skin's paths lie before those of a later one.
proof fn lemma_path_places(upstream: Seq<UpstreamSkin>, i: int)
    requires
        0 <= i < upstream.len(),
        tradable(upstream[i]),
    ensures
        path_count(upstream.take(i)) + upstream[i].collections@.len() <= path_count(upstream),
    decreases upstream.len(),
{
    let front = upstream.drop_last();
    let n = upstream.len() - 1;
    assert(upstream[n] == upstream.last());
    if i < n {
        lemma_path_places(front, i);
        assert(front.take(i) =~= upstream.take(i));
    } else {
        assert(upstream.take(i) =~= front);
    }
}

/// A skin of the catalog was taken from an upstream skin that can be traded.
pub open spec fn has_origin(skin: Skin, upstream: Seq<UpstreamSkin>) -> bool {
    exists|i: int, c: int|
        0 <= i < upstream.len() && can_be_traded(upstream[i]) && 0 <= c
            < upstream[i].collections@.len() && taken_from(
            skin,
            upstream[i],
            #[trigger] upstream[i].collections@[c],
        )
}

/// An upstream skin stands in the catalog, in one of its collections.
pub open spec fn stands_in(
    skins: Seq<Skin>,
    skin: UpstreamSkin,
    collection: UpstreamCollection,
) -> bool {
    exists|k: int| 0 <= k < skins.len() && taken_from(#[trigger] skins[k], skin, collection)
}

/// `a` stands before `b` by the names of their collections, then by their own, then by
/// their ids.
pub open spec fn stands_before(a: Skin, b: Skin) -> bool {
    ||| text_before(a.collection_name@, b.collection_name@)
    ||| a.collection_name@ == b.collection_name@ && text_before(a.name@, b.name@)
    ||| a.collection_name@ == b.collection_name@ && a.name@ == b.name@ && text_before(a.id@, b.id@)
}

/// Sorting keeps what a sequence contains.
proof fn lemma_same_contents(paths: Seq<Skin>, skin: Skin)
    ensures
        stable_sorted(paths).contains(skin) <==> paths.contains(skin),
{
    broadcast use vstd::seq_lib::group_to_multiset_ensures;

    lemma_stable_sorted(paths);
    let sorted = stable_sorted(paths);
    assert(sorted.contains(skin) <==> sorted.to_multiset().count(skin) > 0);
    assert(paths.contains(skin) <==> paths.to_multiset().count(skin) > 0);
}

/// What is listed has an origin.
proof fn lemma_listed_has_origin(paths: Seq<Skin>, upstream: Seq<UpstreamSkin>, h: int)
    requires
        lists_paths(paths, upstream),
        0 <= h < paths.len(),
    ensures
        has_origin(paths[h], upstream),
{
    let (i, c) = lemma_path_origin(upstream, h);
    lemma_traded(upstream[i]);
    assert(is_path(
        paths[path_count(upstream.take(i)) + c],
        upstream[i],
        upstream[i].collections@[c],
    ));
    lemma_taken(paths[h], upstream[i], upstream[i].collections@[c]);
}

/// What can be traded is listed.
proof fn lemma_traded_is_listed(paths: Seq<Skin>, upstream: Seq<UpstreamSkin>, i: int, c: int) -> (h:
    int)
    requires
        lists_paths(paths, upstream),
        0 <= i < upstream.len(),
        can_be_traded(upstream[i]),
        0 <= c < upstream[i].collections@.len(),
    ensures
        0 <= h < paths.len(),
        taken_from(paths[h], upstream[i], upstream[i].collections@[c]),
{
    let h = path_count(upstream.take(i)) + c;
    lemma_traded(upstream[i]);
    lemma_path_places(upstream, i);
    assert(is_path(
        paths[path_count(upstream.take(i)) + c],
        upstream[i],
        upstream[i].collections@[c],
    ));
    lemma_taken(paths[h], upstream[i], upstream[i].collections@[c]);
    h
}

/// An import has one skin for each collection of each upstream skin that can be traded,
/// and no others; each has the upstream skin's name, rarity, caps, variants and indices.
/// The skins stand by their collections' names, then by their own, then by their ids.
pub proof fn law_import_is_faithful(skins: Seq<Skin>, upstream: Seq<UpstreamSkin>)
    requires
        imported(skins, upstream),
    ensures
        skins.len() > 0,
        forall|k: int| 0 <= k < skins.len() ==> #[trigger] has_origin(skins[k], upstream),
        forall|i: int, c: int|
            0 <= i < upstream.len() && can_be_traded(upstream[i]) && 0 <= c
                < upstream[i].collections@.len() ==> #[trigger] stands_in(
                skins,
                upstream[i],
                upstream[i].collections@[c],
            ),
        forall|k: int, l: int|
            0 <= k < l < skins.len() ==> #[trigger] stands_before(skins[k], skins[l]),
{
    let paths = choose|paths: Seq<Skin>| #[trigger]
        lists_paths(paths, upstream) && skins == stable_sorted(paths) && persisted_failure(
            stable_sorted(paths),
        ) is None;
    lemma_stable_sorted(paths);
    law_accepted_catalog(skins);
    assert forall|k: int| 0 <= k < skins.len() implies #[trigger] has_origin(skins[k], upstream) by {
        assert(skins.contains(skins[k]));
        lemma_same_contents(paths, skins[k]);
        let h = choose|h: int| 0 <= h < paths.len() && paths[h] == skins[k];
        lemma_listed_has_origin(paths, upstream, h);
    }
    assert forall|i: int, c: int|
        0 <= i < upstream.len() && can_be_traded(upstream[i]) && 0 <= c
            < upstream[i].collections@.len() implies #[trigger] stands_in(
        skins,
        upstream[i],
        upstream[i].collections@[c],
    ) by {
        let h = lemma_traded_is_listed(paths, upstream, i, c);
        assert(paths.contains(paths[h]));
        lemma_same_contents(paths, paths[h]);
        let k = choose|k: int| 0 <= k < skins.len() && skins[k] == paths[h];
        assert(taken_from(skins[k], upstream[i], upstream[i].collections@[c]));
    }
    assert forall|k: int, l: int| 0 <= k < l < skins.len() implies #[trigger] stands_before(
        skins[k],
        skins[l],
    ) by {
        assert(skins[k].not_after(skins[l]));
        assert(skins[k].id@ != skins[l].id@);
    }
}

/// In an imported catalog a StatTrak item is refused wherever the upstream skin has no such
/// variant, for each collection that the skin is in; where it has one, the variant makes no
/// difference.
pub proof fn law_import_keeps_variants(
    skins: Seq<Skin>,
    upstream: Seq<UpstreamSkin>,
    i: int,
    c: int,
    slot: Slot,
)
    requires
        imported(skins, upstream),
        0 <= i < upstream.len(),
        can_be_traded(upstream[i]),
        0 <= c < upstream[i].collections@.len(),
        slot.skin_id == upstream[i].collections@[c].id@ + "/"@ + upstream[i].id@,
    ensures
        !upstream[i].stattrak ==> slot_failure(skins, slot, true) is Some,
        upstream[i].stattrak ==> slot_failure(skins, slot, true) == slot_failure(
            skins,
            slot,
            false,
        ),
{
    law_import_is_faithful(skins, upstream);
    law_accepted_catalog(skins);
    let collection = upstream[i].collections@[c];
    assert(stands_in(skins, upstream[i], collection));
    let k = choose|k: int|
        0 <= k < skins.len() && taken_from(#[trigger] skins[k], upstream[i], collection);
    lemma_found_under(skins, k);
}

/// Two caps are the same, within 0.000001.
pub open spec fn same_cap(a: Float32, b: Float32) -> bool {
    a.finite() && b.finite() && nearest(gap(a.units(), b.units()), 1) <= decimal_place(1, 1_000_000)
}

proof fn lemma_same_cap(a: Float32, b: Float32)
    ensures
        caps_agree(a, b) <==> same_cap(a, b),
{
    law_fixed_numbers();
    if a.finite() && b.finite() {
        lemma_distance(a, b);
    } else {
        reveal(sum);
    }
}

/// The caps that count for an id are the last that the file lists for it.
pub proof fn law_last_kit_counts(
    kits: Seq<(Seq<char>, Float32, Float32)>,
    id: Seq<char>,
    k: int,
)
    requires
        0 <= k < kits.len(),
        kits[k].0 == id,
        forall|j: int| k < j < kits.len() ==> (#[trigger] kits[j]).0 != id,
    ensures
        caps_of(kits, id) == Some((kits[k].1, kits[k].2)),
    decreases kits.len(),
{
    if k < kits.len() - 1 {
        assert(kits[kits.len() - 1].0 != id);
        assert forall|j: int| k < j < kits.len() - 1 implies (
        #[trigger] kits.drop_last()[j]).0 != id by {
            assert(kits[j].0 != id);
        }
        law_last_kit_counts(kits.drop_last(), id, k);
    }
}

/// Where no kit has an id, nothing is known of its caps.
pub proof fn law_unlisted_kit(kits: Seq<(Seq<char>, Float32, Float32)>, id: Seq<char>)
    requires
        forall|j: int| 0 <= j < kits.len() ==> (#[trigger] kits[j]).0 != id,
    ensures
        caps_of(kits, id) is None,
    decreases kits.len(),
{
    if kits.len() > 0 {
        assert(kits[kits.len() - 1].0 != id);
        assert forall|j: int| 0 <= j < kits.len() - 1 implies (
        #[trigger] kits.drop_last()[j]).0 != id by {
            assert(kits[j].0 != id);
        }
        law_unlisted_kit(kits.drop_last(), id);
    }
}

/// A skin gives both caps and a paint index.
pub open spec fn gives_caps(skin: UpstreamCaps) -> bool {
    skin.paint_index is Some && skin.min_float is Some && skin.max_float is Some
}

/// The file lists the paint index of a skin, and each of its caps is that of the file.
pub open spec fn agrees_with(skin: UpstreamCaps, low: Float32, high: Float32) -> bool {
    same_cap(skin.min_float->0, low) && same_cap(skin.max_float->0, high)
}

/// What a skin counts as.
proof fn lemma_verdict(skin: UpstreamCaps, kits: Seq<(Seq<char>, Float32, Float32)>)
    ensures
        verdict_on(skin, kits) is Skipped <==> !gives_caps(skin),
        gives_caps(skin) ==> match caps_of(kits, skin.paint_index->0@) {
            Some((low, high)) => if agrees_with(skin, low, high) {
                verdict_on(skin, kits) is Match
            } else {
                verdict_on(skin, kits) is Mismatch
            },
            None => verdict_on(skin, kits) is Unverifiable,
        },
{
    if gives_caps(skin) {
        if let Some((low, high)) = caps_of(kits, skin.paint_index->0@) {
            lemma_same_cap(skin.min_float->0, low);
            lemma_same_cap(skin.max_float->0, high);
        }
    }
}

/// A verdict that some skin gets is counted.
proof fn lemma_counted(
    skins: Seq<UpstreamCaps>,
    kits: Seq<(Seq<char>, Float32, Float32)>,
    i: int,
)
    requires
        0 <= i < skins.len(),
    ensures
        verdict_count(skins, kits, verdict_on(skins[i], kits)) > 0,
    decreases skins.len(),
{
    if i < skins.len() - 1 {
        assert(skins.drop_last()[i] == skins[i]);
        lemma_counted(skins.drop_last(), kits, i);
    } else {
        assert(skins.last() == skins[i]);
    }
}

/// A skin is counted as mismatching where the lower or the upper of its caps is not the
/// file's; where none is counted, both caps of every skin that the file lists are.
pub proof fn law_mismatches_are_counted(
    check: CapsCheck,
    skins: Seq<UpstreamCaps>,
    kits: Seq<(Seq<char>, Float32, Float32)>,
    i: int,
)
    requires
        checks_caps(check, skins, kits),
        0 <= i < skins.len(),
        gives_caps(skins[i]),
        caps_of(kits, skins[i].paint_index->0@) is Some,
    ensures
        ({
            let (low, high) = caps_of(kits, skins[i].paint_index->0@)->0;
            &&& !same_cap(skins[i].min_float->0, low) ==> check.mismatching > 0
            &&& !same_cap(skins[i].max_float->0, high) ==> check.mismatching > 0
            &&& check.mismatching == 0 ==> same_cap(skins[i].min_float->0, low) && same_cap(
                skins[i].max_float->0,
                high,
            )
            &&& check.matching == 0 ==> !same_cap(skins[i].min_float->0, low) || !same_cap(
                skins[i].max_float->0,
                high,
            )
        }),
{
    lemma_verdict(skins[i], kits);
    lemma_counted(skins, kits, i);
}

/// One more skin adds one to one count, and to none where it does not give what can be
/// compared: to the matching ones where both caps are the file's, to the mismatching ones
/// where one is not, and to those that cannot be verified where the file does not list it.
/// A mismatch is shown while fewer than twenty are.
pub proof fn law_one_more_skin(
    check: CapsCheck,
    more: CapsCheck,
    skins: Seq<UpstreamCaps>,
    kits: Seq<(Seq<char>, Float32, Float32)>,
    skin: UpstreamCaps,
)
    requires
        checks_caps(check, skins, kits),
        checks_caps(more, skins.push(skin), kits),
    ensures
        check.compared == check.matching + check.mismatching,
        ({
            let caps = caps_of(kits, skin.paint_index->0@);
            let (low, high) = caps->0;
            let same = same_cap(skin.min_float->0, low) && same_cap(skin.max_float->0, high);
            let added = more.mismatches@.len() - check.mismatches@.len();
            if !gives_caps(skin) {
                &&& more.matching == check.matching
                &&& more.mismatching == check.mismatching
                &&& more.not_directly_verifiable == check.not_directly_verifiable
                &&& added == 0
            } else if caps is None {
                &&& more.matching == check.matching
                &&& more.mismatching == check.mismatching
                &&& more.not_directly_verifiable == check.not_directly_verifiable + 1
                &&& added == 0
            } else if same {
                &&& more.matching == check.matching + 1
                &&& more.mismatching == check.mismatching
                &&& more.not_directly_verifiable == check.not_directly_verifiable
                &&& added == 0
            } else {
                &&& more.matching == check.matching
                &&& more.mismatching == check.mismatching + 1
                &&& more.not_directly_verifiable == check.not_directly_verifiable
                &&& added == if check.mismatches@.len() < 20 {
                    1int
                } else {
                    0
                }
                &&& check.mismatches@.len() < 20 ==> {
                    let shown = more.mismatches@.last();
                    &&& shown.paint_index@ == skin.paint_index->0@
                    &&& Some(shown.min) == skin.min_float
                    &&& Some(shown.max) == skin.max_float
                    &&& shown.valve_min == low
                    &&& shown.valve_max == high
                }
            }
        }),
{
    let all = skins.push(skin);
    assert(all.drop_last() =~= skins);
    assert(all.last() == skin);
    lemma_verdict(skin, kits);
    let (before, after) = (mismatches_of(skins, kits), mismatches_of(all, kits));
    assert(check.mismatches@.len() == shown_first(before).len());
    assert(more.mismatches@.len() == shown_first(after).len());
    if verdict_on(skin, kits) is Mismatch && before.len() < 20 {
        let n = more.mismatches@.len() - 1;
        assert(shown_first(after) == after);
        assert(mismatch_values(more.mismatches@)[n] == after[n]);
        assert(after[n] == mismatch_of(skin, kits));
    }
}

/// What an import reports is of its sources: the skins of its catalog are those of the
/// snapshot, and the caps were compared with the item file.
pub proof fn law_import_reports_its_sources(
    result: SyncResult,
    bymykel_commit: Seq<char>,
    steamtracking_commit: Seq<char>,
    caps: Seq<UpstreamCaps>,
    skins: Seq<UpstreamSkin>,
    collections: nat,
    items_game: Seq<u8>,
    retrieved_at: Seq<char>,
)
    requires
        imports(
            Ok(result),
            bymykel_commit,
            steamtracking_commit,
            caps,
            skins,
            collections,
            items_game,
            retrieved_at,
        ),
    ensures
        imported(result.catalog.skins(), skins),
        result.catalog.listings().len() == 0,
        result.bymykel_commit@ == bymykel_commit,
        result.steamtracking_commit@ == steamtracking_commit,
        result.imported_skins == caps.len(),
        result.imported_collections == collections,
        result.check.matching + result.check.mismatching + result.check.not_directly_verifiable
            <= caps.len(),
        result.check.compared == result.check.matching + result.check.mismatching,
{
    let paths = choose|paths: Seq<Skin>| #[trigger]
        lists_paths(paths, skins) && result.catalog.skins() == stable_sorted(paths)
            && persisted_failure(stable_sorted(paths)) is None && checks_caps(
            result.check,
            caps,
            file_kits(items_game),
        );
    law_verdicts_add_up(caps, file_kits(items_game));
}

/// A report has the counts of the comparison, and shows every mismatch up to twenty.
pub proof fn law_report_of_caps(
    check: CapsCheck,
    skins: Seq<UpstreamCaps>,
    kits: Seq<(Seq<char>, Float32, Float32)>,
    shown: Vec<ShownCaps>,
    report: CapsVerification,
)
    requires
        checks_caps(check, skins, kits),
        shown@.len() == check.mismatches@.len(),
        call_ensures(caps_report, (&check, &shown), report),
    ensures
        report.compared == report.matching + report.mismatching,
        report.compared + report.not_directly_verifiable <= skins.len(),
        report.matching == check.matching,
        report.mismatching == check.mismatching,
        report.not_directly_verifiable == check.not_directly_verifiable,
        report.examples@.len() == if report.mismatching < 20 {
            report.mismatching as nat
        } else {
            20
        },
{
    law_verdicts_add_up(skins, kits);
    assert(check.mismatches@.len() == shown_first(mismatches_of(skins, kits)).len()) by {
        assert(mismatch_values(check.mismatches@).len() == check.mismatches@.len());
    }
}

} // verus!
