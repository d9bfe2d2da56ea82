//! The catalog of skins and the listings that go with it.
use crate::domain::{tier_below, FixtureListing, Float32, Rarity, Skin};
use crate::float32::below;
use crate::sorting::{
    at_most_len, keys, lemma_stable_sorted, picked, stable_order, stable_sorted,
};
use crate::text::{join2, join3, parse_u32, same_text, spelled_u32};
use vstd::prelude::*;

verus! {

#[derive(Debug)]
pub struct SourceMetadata {
    pub name: String,
    pub url: String,
    pub license: String,
    pub retrieved_at: String,
    pub note: String,
}

impl Clone for SourceMetadata {
    fn clone(&self) -> (r: Self)
        ensures
            r == *self,
    {
        SourceMetadata {
            name: self.name.clone(),
            url: self.url.clone(),
            license: self.license.clone(),
            retrieved_at: self.retrieved_at.clone(),
            note: self.note.clone(),
        }
    }
}

/// A catalog as it is kept between runs.
#[derive(Debug)]
pub struct PersistedCatalog {
    pub schema_version: String,
    pub source: SourceMetadata,
    pub skins: Vec<Skin>,
    pub listings: Vec<FixtureListing>,
}

#[derive(Debug)]
pub struct Catalog {
    pub schema_version: String,
    pub source: SourceMetadata,
    pub skins: Vec<Skin>,
    pub listings: Vec<FixtureListing>,
}

#[derive(Debug)]
pub struct CatalogResponse {
    pub schema_version: String,
    pub source: SourceMetadata,
    pub skins: Vec<Skin>,
    pub listing_count: usize,
    pub limitations: Vec<String>,
}

/// A skin as the upstream snapshot describes it.
#[derive(Debug)]
pub struct UpstreamSkin {
    pub id: String,
    pub name: String,
    pub min_float: Option<Float32>,
    pub max_float: Option<Float32>,
    pub rarity: UpstreamRarity,
    pub stattrak: bool,
    pub paint_index: Option<String>,
    pub weapon: Option<UpstreamWeapon>,
    pub collections: Vec<UpstreamCollection>,
}

#[derive(Debug)]
pub struct UpstreamWeapon {
    pub weapon_id: Option<u32>,
}

#[derive(Debug)]
pub struct UpstreamRarity {
    pub id: String,
}

#[derive(Debug)]
pub struct UpstreamCollection {
    pub id: String,
    pub name: String,
}

/// The values behind a sequence of references.
pub open spec fn plain<T>(s: Seq<&T>) -> Seq<T> {
    Seq::new(s.len(), |i: int| *s[i])
}

/// The first skin with the given id.
pub open spec fn find_skin(skins: Seq<Skin>, id: Seq<char>) -> Option<Skin>
    decreases skins.len(),
{
    if skins.len() == 0 {
        None
    } else {
        match find_skin(skins.drop_last(), id) {
            Some(skin) => Some(skin),
            None => if skins.last().id@ == id {
                Some(skins.last())
            } else {
                None
            },
        }
    }
}

/// The skins of one collection and rarity, in catalog order.
pub open spec fn pool(skins: Seq<Skin>, collection_id: Seq<char>, rarity: Rarity) -> Seq<Skin> {
    skins.filter(belongs(collection_id, rarity))
}

/// Whether a skin comes from the collection and has the rarity.
pub open spec fn belongs(collection_id: Seq<char>, rarity: Rarity) -> spec_fn(Skin) -> bool {
    |skin: Skin| skin.collection_id@ == collection_id && skin.rarity == rarity
}

/// The skins that are traded up to `target`.
pub open spec fn input_pool(skins: Seq<Skin>, target: Skin) -> Seq<Skin> {
    match tier_below(target.rarity) {
        Some(rarity) => pool(skins, target.collection_id@, rarity),
        None => Seq::empty(),
    }
}

/// Whether a listing offers the skin.
pub open spec fn sells(skin_id: Seq<char>) -> spec_fn(FixtureListing) -> bool {
    |listing: FixtureListing| listing.skin_id@ == skin_id
}

/// The listings of one skin.
pub open spec fn listings_of(listings: Seq<FixtureListing>, skin_id: Seq<char>) -> Seq<
    FixtureListing,
> {
    listings.filter(sells(skin_id))
}

/// The `limit` cheapest listings of one skin.
pub open spec fn cheapest_of(
    listings: Seq<FixtureListing>,
    skin_id: Seq<char>,
    limit: nat,
) -> Seq<FixtureListing> {
    let own = listings_of(listings, skin_id);
    stable_sorted(own).take(at_most_len(limit, own.len()) as int)
}

/// The cheapest listings of each skin, one skin after another.
pub open spec fn gathered(
    listings: Seq<FixtureListing>,
    skin_ids: Seq<Seq<char>>,
    limit: nat,
) -> Seq<FixtureListing>
    decreases skin_ids.len(),
{
    if skin_ids.len() == 0 {
        Seq::empty()
    } else {
        gathered(listings, skin_ids.drop_last(), limit) + cheapest_of(
            listings,
            skin_ids.last(),
            limit,
        )
    }
}

/// The texts of a sequence of strings.
pub open spec fn texts(s: Seq<String>) -> Seq<Seq<char>> {
    Seq::new(s.len(), |i: int| s[i]@)
}

/// Both caps are finite and the lower one is the smaller.
pub open spec fn sound_caps(skin: Skin) -> bool {
    skin.min_float.finite() && skin.max_float.finite() && below(skin.min_float, skin.max_float)
}

/// What is wrong with the skins of a kept catalog, from the first to the last.
pub open spec fn skins_failure(skins: Seq<Skin>) -> Option<Seq<char>>
    decreases skins.len(),
{
    if skins.len() == 0 {
        None
    } else {
        match skins_failure(skins.drop_last()) {
            Some(text) => Some(text),
            None => if !sound_caps(skins.last()) {
                Some(skins.last().id@ + " has invalid float caps"@)
            } else if find_skin(skins.drop_last(), skins.last().id@) is Some {
                Some("catalog has duplicate skin id "@ + skins.last().id@)
            } else {
                None
            },
        }
    }
}

/// Why a kept catalog is refused, if it is.
pub open spec fn persisted_failure(skins: Seq<Skin>) -> Option<Seq<char>> {
    if skins.len() == 0 {
        Some("catalog has no skins"@)
    } else {
        skins_failure(skins)
    }
}

/// The rarity that an upstream rarity id stands for.
pub open spec fn upstream_rarity(id: Seq<char>) -> Option<Rarity> {
    if id == "rarity_common_weapon"@ {
        Some(Rarity::Consumer)
    } else if id == "rarity_uncommon_weapon"@ {
        Some(Rarity::Industrial)
    } else if id == "rarity_rare_weapon"@ {
        Some(Rarity::MilSpec)
    } else if id == "rarity_mythical_weapon"@ {
        Some(Rarity::Restricted)
    } else if id == "rarity_legendary_weapon"@ {
        Some(Rarity::Classified)
    } else if id == "rarity_ancient_weapon"@ {
        Some(Rarity::Covert)
    } else if id == "rarity_ancient"@ || id == "rarity_contraband_weapon"@ {
        Some(Rarity::Extraordinary)
    } else {
        None
    }
}

/// Whether an upstream skin can be part of a contract.
pub open spec fn tradable(skin: UpstreamSkin) -> bool {
    &&& upstream_rarity(skin.rarity.id@) is Some
    &&& skin.min_float matches Some(low)
    &&& skin.max_float matches Some(high)
    &&& low.finite()
    &&& high.finite()
    &&& below(low, high)
}

/// `path` is the skin `skin` as a member of `collection`.
pub open spec fn is_path(path: Skin, skin: UpstreamSkin, collection: UpstreamCollection) -> bool {
    &&& path.id@ == collection.id@ + "/"@ + skin.id@
    &&& path.name@ == skin.name@
    &&& path.collection_id@ == collection.id@
    &&& path.collection_name@ == collection.name@
    &&& Some(path.rarity) == upstream_rarity(skin.rarity.id@)
    &&& Some(path.min_float) == skin.min_float
    &&& Some(path.max_float) == skin.max_float
    &&& path.stattrak_supported == skin.stattrak
    &&& path.def_index == match skin.weapon {
        Some(weapon) => weapon.weapon_id,
        None => None,
    }
    &&& path.paint_index == match skin.paint_index {
        Some(text) => spelled_u32(text@),
        None => None,
    }
}

/// The number of contract paths of the first skins of a snapshot.
pub open spec fn path_count(upstream: Seq<UpstreamSkin>) -> nat
    decreases upstream.len(),
{
    if upstream.len() == 0 {
        0
    } else {
        path_count(upstream.drop_last()) + if tradable(upstream.last()) {
            upstream.last().collections@.len()
        } else {
            0
        }
    }
}

/// `paths` holds one skin for each membership of each tradable skin, in snapshot order.
pub open spec fn lists_paths(paths: Seq<Skin>, upstream: Seq<UpstreamSkin>) -> bool {
    &&& paths.len() == path_count(upstream)
    &&& forall|i: int, c: int|
        0 <= i < upstream.len() && tradable(upstream[i]) && 0 <= c < upstream[i].collections@.len()
            ==> is_path(
            #[trigger] paths[path_count(upstream.take(i)) + c],
            upstream[i],
            #[trigger] upstream[i].collections@[c],
        )
}

/// The provenance note of an imported snapshot.
pub open spec fn import_note() -> Seq<char> {
    "Full versioned runtime catalog imported from the pinned ByMykel snapshot. A skin is materialized once for every collection trade-up path it belongs to."@
}

/// `source` tells where an imported snapshot comes from.
pub open spec fn import_source(
    source: SourceMetadata,
    commit: Seq<char>,
    retrieved_at: Seq<char>,
) -> bool {
    &&& source.name@ == "ByMykel/CSGO-API"@
    &&& source.url@ == "https://github.com/ByMykel/CSGO-API/tree/"@ + commit
    &&& source.license@ == "MIT"@
    &&& source.retrieved_at@ == retrieved_at
    &&& source.note@ == import_note()
}

/// Whether every listing is a fixed test listing, and there is one.
pub open spec fn only_fixtures(listings: Seq<FixtureListing>) -> bool {
    listings.len() > 0 && forall|i: int|
        0 <= i < listings.len() ==> (#[trigger] listings[i]).source@ == "fixture"@
}

/// What the published catalog cannot do.
pub open spec fn limitation_texts(listings: Seq<FixtureListing>) -> Seq<Seq<char>> {
    let general = seq![
        "Лоты отображаются только когда подключён проверяемый provider с exact float; Steam Community Market provider читает публичную SSR-разметку и может быть временно ограничен Steam."@,
        "Пул 5 Covert → knife/gloves требует отдельного versioned unusual/loot mapping и пока не материализован."@,
    ];
    if only_fixtures(listings) {
        seq![
            "Лоты помечены fixture: это детерминированные тестовые данные, не активные объявления Steam Market."@,
        ] + general
    } else {
        general
    }
}

pub fn rarity_from_upstream(id: &str) -> (r: Option<Rarity>)
    ensures
        r == upstream_rarity(id@),
{
    if same_text(id, "rarity_common_weapon") {
        Some(Rarity::Consumer)
    } else if same_text(id, "rarity_uncommon_weapon") {
        Some(Rarity::Industrial)
    } else if same_text(id, "rarity_rare_weapon") {
        Some(Rarity::MilSpec)
    } else if same_text(id, "rarity_mythical_weapon") {
        Some(Rarity::Restricted)
    } else if same_text(id, "rarity_legendary_weapon") {
        Some(Rarity::Classified)
    } else if same_text(id, "rarity_ancient_weapon") {
        Some(Rarity::Covert)
    } else if same_text(id, "rarity_ancient") || same_text(id, "rarity_contraband_weapon") {
        Some(Rarity::Extraordinary)
    } else {
        None
    }
}

pub(crate) fn clone_skins(skins: &Vec<Skin>) -> (r: Vec<Skin>)
    ensures
        r@ == skins@,
{
    let mut r: Vec<Skin> = Vec::new();
    let mut i: usize = 0;
    while i < skins.len()
        invariant
            i <= skins@.len(),
            r@ == skins@.take(i as int),
        decreases skins.len() - i,
    {
        r.push(skins[i].clone());
        proof {
            assert(r@ =~= skins@.take(i + 1));
        }
        i = i + 1;
    }
    proof {
        assert(skins@.take(i as int) =~= skins@);
    }
    r
}

pub(crate) fn clone_listings(listings: &Vec<FixtureListing>) -> (r: Vec<FixtureListing>)
    ensures
        r@ == listings@,
{
    let mut r: Vec<FixtureListing> = Vec::new();
    let mut i: usize = 0;
    while i < listings.len()
        invariant
            i <= listings@.len(),
            r@ == listings@.take(i as int),
        decreases listings.len() - i,
    {
        r.push(listings[i].clone());
        proof {
            assert(r@ =~= listings@.take(i + 1));
        }
        i = i + 1;
    }
    proof {
        assert(listings@.take(i as int) =~= listings@);
    }
    r
}

/// The first `width` listings in the offer order.
fn offer_order<'a>(listings: &Vec<&'a FixtureListing>, width: usize) -> (r: Vec<
    &'a FixtureListing,
>)
    ensures
        plain(r@) == stable_sorted(plain(listings@)).take(
            at_most_len(width as nat, listings@.len()) as int,
        ),
{
    let order: Vec<usize> = stable_order(listings, width);
    let mut r: Vec<&'a FixtureListing> = Vec::new();
    let mut i: usize = 0;
    proof {
        assert(keys(listings@) =~= plain(listings@));
        assert(plain(r@) =~= picked(plain(listings@), order@).take(0));
    }
    while i < order.len()
        invariant
            i <= order@.len(),
            forall|j: int| 0 <= j < order@.len() ==> (#[trigger] order@[j]) < listings@.len(),
            plain(r@) == picked(plain(listings@), order@).take(i as int),
        decreases order.len() - i,
    {
        let ghost before = r@;
        r.push(listings[order[i]]);
        proof {
            assert(plain(r@) =~= plain(before).push(*listings@[order@[i as int] as int]));
            assert(plain(r@) =~= picked(plain(listings@), order@).take(i + 1));
        }
        i = i + 1;
    }
    proof {
        assert(plain(r@) =~= picked(plain(listings@), order@));
    }
    r
}

/// Whether a kept form holds the catalog.
pub open spec fn keeps(kept: PersistedCatalog, catalog: Catalog) -> bool {
    &&& kept.schema_version == catalog.schema_version
    &&& kept.source == catalog.source
    &&& kept.skins@ == catalog.skins()
    &&& kept.listings@ == catalog.listings()
}

impl Catalog {
    pub open spec fn skins(&self) -> Seq<Skin> {
        self.skins@
    }

    pub open spec fn listings(&self) -> Seq<FixtureListing> {
        self.listings@
    }

    /// The catalog that ships with the program, taken as it is.
    pub fn from_fixture(
        schema_version: String,
        source: SourceMetadata,
        skins: Vec<Skin>,
        fixture_listings: Vec<FixtureListing>,
    ) -> (r: Self)
        ensures
            r.schema_version == schema_version,
            r.source == source,
            r.skins() == skins@,
            r.listings() == fixture_listings@,
    {
        Catalog { schema_version, source, skins, listings: fixture_listings }
    }

    /// Takes up a kept catalog after checking its skins.
    pub fn from_persisted(raw: PersistedCatalog) -> (r: Result<Self, String>)
        ensures
            match r {
                Ok(catalog) => persisted_failure(raw.skins@) is None && keeps(raw, catalog),
                Err(text) => persisted_failure(raw.skins@) == Some(text@),
            },
    {
        let PersistedCatalog { schema_version, source, skins, listings } = raw;
        if skins.len() == 0 {
            return Err("catalog has no skins".to_owned());
        }
        let mut i: usize = 0;
        proof {
            assert(skins@.take(0) =~= Seq::empty());
        }
        while i < skins.len()
            invariant
                i <= skins@.len(),
                skins@.len() > 0,
                skins@ == raw.skins@,
                skins_failure(skins@.take(i as int)) is None,
            decreases skins.len() - i,
        {
            let skin: &Skin = &skins[i];
            proof {
                assert(skins@.take(i + 1).drop_last() =~= skins@.take(i as int));
                lemma_failure_persists(skins@, i + 1);
            }
            if !skin.min_float.is_finite() || !skin.max_float.is_finite()
                || !skin.min_float.less(skin.max_float) {
                return Err(join2(skin.id.as_str(), " has invalid float caps"));
            }
            if find_among(&skins, i, skin.id.as_str()) < i {
                return Err(join2("catalog has duplicate skin id ", skin.id.as_str()));
            }
            i = i + 1;
        }
        proof {
            assert(skins@.take(i as int) =~= skins@);
        }
        Ok(Catalog { schema_version, source, skins, listings })
    }

    /// The form in which the catalog is kept.
    pub fn to_persisted(&self) -> (r: PersistedCatalog)
        ensures
            keeps(r, *self),
    {
        PersistedCatalog {
            schema_version: self.schema_version.clone(),
            source: self.source.clone(),
            skins: clone_skins(&self.skins),
            listings: clone_listings(&self.listings),
        }
    }

    /// Builds the catalog of an upstream snapshot.
    pub fn from_upstream_snapshot(
        upstream: &Vec<UpstreamSkin>,
        commit: &str,
        retrieved_at: String,
    ) -> (r: Result<Self, String>)
        ensures
            exists|paths: Seq<Skin>| #[trigger]
                lists_paths(paths, upstream@) && match r {
                    Ok(catalog) => {
                        &&& paths.len() > 0
                        &&& persisted_failure(stable_sorted(paths)) is None
                        &&& catalog.schema_version@ == "bymykel-"@ + commit@
                        &&& import_source(catalog.source, commit@, retrieved_at@)
                        &&& catalog.skins() == stable_sorted(paths)
                        &&& catalog.listings().len() == 0
                    },
                    Err(text) => if paths.len() == 0 {
                        text@ == "upstream snapshot produced no tradable collection skins"@
                    } else {
                        persisted_failure(stable_sorted(paths)) == Some(text@)
                    },
                },
    {
        let paths: Vec<Skin> = collect_paths(upstream);
        let order: Vec<usize> = stable_order(&paths, paths.len());
        proof {
            assert(keys(paths@) =~= paths@);
        }
        let mut skins: Vec<Skin> = Vec::new();
        let mut i: usize = 0;
        while i < order.len()
            invariant
                i <= order@.len(),
                forall|j: int| 0 <= j < order@.len() ==> (#[trigger] order@[j]) < paths@.len(),
                skins@ == picked(paths@, order@).take(i as int),
            decreases order.len() - i,
        {
            skins.push(paths[order[i]].clone());
            proof {
                assert(skins@ =~= picked(paths@, order@).take(i + 1));
            }
            i = i + 1;
        }
        proof {
            lemma_stable_sorted(paths@);
            assert(skins@ =~= picked(paths@, order@));
            assert(stable_sorted(paths@).take(paths@.len() as int) =~= stable_sorted(paths@));
        }
        if skins.len() == 0 {
            return Err("upstream snapshot produced no tradable collection skins".to_owned());
        }
        Catalog::from_persisted(
            PersistedCatalog {
                schema_version: join2("bymykel-", commit),
                source: SourceMetadata {
                    name: "ByMykel/CSGO-API".to_owned(),
                    url: join2("https://github.com/ByMykel/CSGO-API/tree/", commit),
                    license: "MIT".to_owned(),
                    retrieved_at,
                    note: "Full versioned runtime catalog imported from the pinned ByMykel snapshot. A skin is materialized once for every collection trade-up path it belongs to.".to_owned(),
                },
                skins,
                listings: Vec::new(),
            },
        )
    }

    /// What the catalog shows of itself.
    pub fn public_response(&self) -> (r: CatalogResponse)
        ensures
            r.schema_version == self.schema_version,
            r.source == self.source,
            r.skins@ == self.skins(),
            r.listing_count == self.listings().len(),
            texts(r.limitations@) == limitation_texts(self.listings()),
    {
        let mut limitations: Vec<String> = Vec::new();
        if self.listings.len() > 0 && self.has_only_fixtures() {
            limitations.push(
                "Лоты помечены fixture: это детерминированные тестовые данные, не активные объявления Steam Market.".to_owned(),
            );
        }
        limitations.push(
            "Лоты отображаются только когда подключён проверяемый provider с exact float; Steam Community Market provider читает публичную SSR-разметку и может быть временно ограничен Steam.".to_owned(),
        );
        limitations.push(
            "Пул 5 Covert → knife/gloves требует отдельного versioned unusual/loot mapping и пока не материализован.".to_owned(),
        );
        proof {
            assert(texts(limitations@) =~= limitation_texts(self.listings()));
        }
        CatalogResponse {
            schema_version: self.schema_version.clone(),
            source: self.source.clone(),
            skins: clone_skins(&self.skins),
            listing_count: self.listings.len(),
            limitations,
        }
    }

    fn has_only_fixtures(&self) -> (r: bool)
        ensures
            self.listings().len() > 0 ==> r == only_fixtures(self.listings()),
    {
        let mut i: usize = 0;
        while i < self.listings.len()
            invariant
                i <= self.listings@.len(),
                forall|j: int|
                    0 <= j < i ==> (#[trigger] self.listings@[j]).source@ == "fixture"@,
            decreases self.listings.len() - i,
        {
            if !same_text(self.listings[i].source.as_str(), "fixture") {
                return false;
            }
            i = i + 1;
        }
        true
    }

    /// Looks a skin up by its id.
    pub fn skin(&self, id: &str) -> (r: Option<&Skin>)
        ensures
            match r {
                Some(skin) => find_skin(self.skins(), id@) == Some(*skin),
                None => find_skin(self.skins(), id@) is None,
            },
    {
        let i: usize = find_among(&self.skins, self.skins.len(), id);
        proof {
            assert(self.skins@.take(self.skins@.len() as int) =~= self.skins@);
        }
        if i < self.skins.len() {
            Some(&self.skins[i])
        } else {
            None
        }
    }

    /// The skins that a contract with inputs from a collection can yield.
    pub fn outcomes_for_collection(&self, collection_id: &str, rarity: Rarity) -> (r: Vec<&Skin>)
        ensures
            plain(r@) == pool(self.skins(), collection_id@, rarity),
    {
        let mut r: Vec<&Skin> = Vec::new();
        let mut i: usize = 0;
        let ghost wanted = belongs(collection_id@, rarity);
        proof {
            assert(self.skins@.take(0).filter(wanted) =~= Seq::empty());
            assert(plain(r@) =~= Seq::empty());
        }
        while i < self.skins.len()
            invariant
                i <= self.skins@.len(),
                wanted == belongs(collection_id@, rarity),
                plain(r@) == self.skins@.take(i as int).filter(wanted),
            decreases self.skins.len() - i,
        {
            let skin: &Skin = &self.skins[i];
            let ghost before = r@;
            if same_text(skin.collection_id.as_str(), collection_id) && skin.rarity == rarity {
                r.push(skin);
            }
            proof {
                lemma_filter_step(self.skins@, wanted, i as int);
                assert(plain(before.push(skin)) =~= plain(before).push(*skin));
            }
            i = i + 1;
        }
        proof {
            assert(self.skins@.take(i as int) =~= self.skins@);
        }
        r
    }

    /// The skins that can be inputs of a contract for `target`.
    pub fn input_skins_for_target(&self, target: &Skin) -> (r: Vec<&Skin>)
        ensures
            plain(r@) == input_pool(self.skins(), *target),
    {
        match target.rarity.previous() {
            Some(rarity) => self.outcomes_for_collection(target.collection_id.as_str(), rarity),
            None => {
                let r: Vec<&Skin> = Vec::new();
                proof {
                    assert(plain(r@) =~= Seq::empty());
                }
                r
            },
        }
    }

    fn listings_of_skin(&self, skin_id: &str) -> (r: Vec<&FixtureListing>)
        ensures
            plain(r@) == listings_of(self.listings(), skin_id@),
    {
        let mut r: Vec<&FixtureListing> = Vec::new();
        let mut i: usize = 0;
        let ghost wanted = sells(skin_id@);
        proof {
            assert(self.listings@.take(0).filter(wanted) =~= Seq::empty());
            assert(plain(r@) =~= Seq::empty());
        }
        while i < self.listings.len()
            invariant
                i <= self.listings@.len(),
                wanted == sells(skin_id@),
                plain(r@) == self.listings@.take(i as int).filter(wanted),
            decreases self.listings.len() - i,
        {
            let listing: &FixtureListing = &self.listings[i];
            let ghost before = r@;
            if same_text(listing.skin_id.as_str(), skin_id) {
                r.push(listing);
            }
            proof {
                lemma_filter_step(self.listings@, wanted, i as int);
                assert(plain(before.push(listing)) =~= plain(before).push(*listing));
            }
            i = i + 1;
        }
        proof {
            assert(self.listings@.take(i as int) =~= self.listings@);
        }
        r
    }

    /// The cheapest listings of each of the given skins, the cheapest first.
    pub fn fixture_listings_for_skins(
        &self,
        skin_ids: &Vec<String>,
        limit_per_skin: usize,
    ) -> (r: Vec<&FixtureListing>)
        ensures
            plain(r@) == stable_sorted(
                gathered(self.listings(), texts(skin_ids@), limit_per_skin as nat),
            ),
    {
        let mut all: Vec<&FixtureListing> = Vec::new();
        let mut i: usize = 0;
        proof {
            assert(texts(skin_ids@).take(0) =~= Seq::empty());
            assert(plain(all@) =~= Seq::empty());
        }
        while i < skin_ids.len()
            invariant
                i <= skin_ids@.len(),
                plain(all@) == gathered(
                    self.listings(),
                    texts(skin_ids@).take(i as int),
                    limit_per_skin as nat,
                ),
            decreases skin_ids.len() - i,
        {
            let own: Vec<&FixtureListing> = self.listings_of_skin(skin_ids[i].as_str());
            let mut chosen: Vec<&FixtureListing> = offer_order(&own, limit_per_skin);
            let ghost (before, added) = (all@, chosen@);
            all.append(&mut chosen);
            proof {
                assert(plain(before + added) =~= plain(before) + plain(added));
                assert(texts(skin_ids@).take(i + 1).drop_last() =~= texts(skin_ids@).take(
                    i as int,
                ));
            }
            i = i + 1;
        }
        proof {
            assert(texts(skin_ids@).take(i as int) =~= texts(skin_ids@));
        }
        let r: Vec<&FixtureListing> = offer_order(&all, all.len());
        proof {
            lemma_stable_sorted(plain(all@));
            assert(stable_sorted(plain(all@)).take(all@.len() as int) =~= stable_sorted(
                plain(all@),
            ));
        }
        r
    }

    /// The same catalog with other listings.
    pub fn with_listings(&self, listings: Vec<FixtureListing>) -> (r: Self)
        ensures
            r.schema_version == self.schema_version,
            r.source == self.source,
            r.skins() == self.skins(),
            r.listings() == listings@,
    {
        Catalog {
            schema_version: self.schema_version.clone(),
            source: self.source.clone(),
            skins: clone_skins(&self.skins),
            listings,
        }
    }
}

impl Clone for Catalog {
    fn clone(&self) -> (r: Self)
        ensures
            r.schema_version == self.schema_version,
            r.source == self.source,
            r.skins() == self.skins(),
            r.listings() == self.listings(),
    {
        self.with_listings(clone_listings(&self.listings))
    }
}

pub proof fn lemma_filter_step<T>(s: Seq<T>, wanted: spec_fn(T) -> bool, i: int)
    requires
        0 <= i < s.len(),
    ensures
        s.take(i + 1).filter(wanted) == if wanted(s[i]) {
            s.take(i).filter(wanted).push(s[i])
        } else {
            s.take(i).filter(wanted)
        },
{
    reveal(Seq::filter);
    assert(s.take(i + 1).drop_last() =~= s.take(i));
}

/// A failure among the first skins is the failure of them all.
proof fn lemma_failure_persists(skins: Seq<Skin>, n: int)
    requires
        0 <= n <= skins.len(),
    ensures
        skins_failure(skins.take(n)) is Some ==> skins_failure(skins) == skins_failure(
            skins.take(n),
        ),
    decreases skins.len(),
{
    if n < skins.len() {
        lemma_failure_persists(skins.drop_last(), n);
        assert(skins.drop_last().take(n) =~= skins.take(n));
    } else {
        assert(skins.take(n) =~= skins);
    }
}

/// The place of the first skin with the given id among the first `n`, or `n`.
fn find_among(skins: &Vec<Skin>, n: usize, id: &str) -> (r: usize)
    requires
        n <= skins@.len(),
    ensures
        r <= n,
        r < n ==> find_skin(skins@.take(n as int), id@) == Some(skins@[r as int]),
        r == n ==> find_skin(skins@.take(n as int), id@) is None,
{
    let mut i: usize = 0;
    proof {
        assert(skins@.take(0) =~= Seq::empty());
    }
    while i < n
        invariant
            i <= n <= skins@.len(),
            find_skin(skins@.take(i as int), id@) is None,
        decreases n - i,
    {
        proof {
            assert(skins@.take(i + 1).drop_last() =~= skins@.take(i as int));
        }
        if same_text(skins[i].id.as_str(), id) {
            proof {
                lemma_found_persists(skins@.take(n as int), id@, i + 1);
                assert(skins@.take(n as int).take(i + 1) =~= skins@.take(i + 1));
            }
            return i;
        }
        i = i + 1;
    }
    n
}

proof fn lemma_found_persists(skins: Seq<Skin>, id: Seq<char>, n: int)
    requires
        0 <= n <= skins.len(),
    ensures
        find_skin(skins.take(n), id) is Some ==> find_skin(skins, id) == find_skin(
            skins.take(n),
            id,
        ),
    decreases skins.len(),
{
    if n < skins.len() {
        lemma_found_persists(skins.drop_last(), id, n);
        assert(skins.drop_last().take(n) =~= skins.take(n));
    } else {
        assert(skins.take(n) =~= skins);
    }
}

/// One skin for each membership of each tradable skin.
fn collect_paths(upstream: &Vec<UpstreamSkin>) -> (paths: Vec<Skin>)
    ensures
        lists_paths(paths@, upstream@),
{
    let mut paths: Vec<Skin> = Vec::new();
    let mut i: usize = 0;
    proof {
        assert(upstream@.take(0) =~= Seq::empty());
    }
    while i < upstream.len()
        invariant
            i <= upstream@.len(),
            lists_paths(paths@, upstream@.take(i as int)),
        decreases upstream.len() - i,
    {
        let skin: &UpstreamSkin = &upstream[i];
        let ghost before = paths@;
        proof {
            assert(upstream@.take(i + 1).drop_last() =~= upstream@.take(i as int));
        }
        if let (Some(rarity), Some(low), Some(high)) = (
            rarity_from_upstream(skin.rarity.id.as_str()),
            skin.min_float,
            skin.max_float,
        ) {
            if low.is_finite() && high.is_finite() && low.less(high) {
                let mut c: usize = 0;
                while c < skin.collections.len()
                    invariant
                        c <= skin.collections@.len(),
                        *skin == upstream@[i as int],
                        tradable(*skin),
                        Some(rarity) == upstream_rarity(skin.rarity.id@),
                        Some(low) == skin.min_float,
                        Some(high) == skin.max_float,
                        paths@.len() == before.len() + c,
                        paths@.take(before.len() as int) == before,
                        forall|j: int|
                            0 <= j < c ==> is_path(
                                #[trigger] paths@[before.len() + j],
                                *skin,
                                skin.collections@[j],
                            ),
                    decreases skin.collections.len() - c,
                {
                    let path: Skin = path_of(skin, &skin.collections[c], rarity, low, high);
                    let ghost grown = paths@;
                    paths.push(path);
                    proof {
                        assert(paths@.take(before.len() as int) =~= grown.take(
                            before.len() as int,
                        ));
                    }
                    c = c + 1;
                }
            }
        }
        proof {
            lemma_paths_step(before, paths@, upstream@, i as int);
        }
        i = i + 1;
    }
    proof {
        assert(upstream@.take(i as int) =~= upstream@);
    }
    paths
}

proof fn lemma_path_count_monotone(upstream: Seq<UpstreamSkin>, i: int, j: int)
    requires
        0 <= i <= j <= upstream.len(),
    ensures
        path_count(upstream.take(i)) <= path_count(upstream.take(j)),
    decreases j - i,
{
    if i < j {
        lemma_path_count_monotone(upstream, i, j - 1);
        assert(upstream.take(j).drop_last() =~= upstream.take(j - 1));
    }
}

proof fn lemma_paths_step(
    before: Seq<Skin>,
    after: Seq<Skin>,
    upstream: Seq<UpstreamSkin>,
    i: int,
)
    requires
        0 <= i < upstream.len(),
        lists_paths(before, upstream.take(i)),
        !tradable(upstream[i]) ==> after == before,
        tradable(upstream[i]) ==> {
            &&& after.len() == before.len() + upstream[i].collections@.len()
            &&& after.take(before.len() as int) == before
            &&& forall|j: int|
                0 <= j < upstream[i].collections@.len() ==> is_path(
                    #[trigger] after[before.len() + j],
                    upstream[i],
                    upstream[i].collections@[j],
                )
        },
    ensures
        lists_paths(after, upstream.take(i + 1)),
{
    let (u, w) = (upstream.take(i), upstream.take(i + 1));
    assert(w.drop_last() =~= u);
    assert forall|a: int, c: int|
        0 <= a < w.len() && tradable(w[a]) && 0 <= c < w[a].collections@.len() implies is_path(
        #[trigger] after[path_count(w.take(a)) + c],
        w[a],
        #[trigger] w[a].collections@[c],
    ) by {
        if a < i {
            assert(w.take(a) =~= u.take(a));
            assert(u[a].collections@[c] == w[a].collections@[c]);
            assert(is_path(before[path_count(u.take(a)) + c], u[a], u[a].collections@[c]));
            lemma_path_count_monotone(u, a + 1, i);
            assert(u.take(a + 1).drop_last() =~= u.take(a));
            assert(u.take(i) =~= u);
            let place = path_count(u.take(a)) + c;
            assert(place < before.len());
            assert(tradable(upstream[i]) ==> after.take(before.len() as int)[place]
                == after[place]);
        } else {
            assert(w.take(a) =~= u);
            assert(is_path(after[before.len() + c], upstream[i], upstream[i].collections@[c]));
        }
    }
}

fn path_of(
    skin: &UpstreamSkin,
    collection: &UpstreamCollection,
    rarity: Rarity,
    low: Float32,
    high: Float32,
) -> (r: Skin)
    requires
        Some(rarity) == upstream_rarity(skin.rarity.id@),
        Some(low) == skin.min_float,
        Some(high) == skin.max_float,
    ensures
        is_path(r, *skin, *collection),
{
    Skin {
        id: join3(collection.id.as_str(), "/", skin.id.as_str()),
        name: skin.name.clone(),
        collection_id: collection.id.clone(),
        collection_name: collection.name.clone(),
        rarity,
        min_float: low,
        max_float: high,
        stattrak_supported: skin.stattrak,
        def_index: match &skin.weapon {
            Some(weapon) => weapon.weapon_id,
            None => None,
        },
        paint_index: match &skin.paint_index {
            Some(text) => parse_u32(text.as_str()),
            None => None,
        },
    }
}

/// A catalog that was kept reads back as it was, wherever its skins are sound.
pub proof fn law_kept_catalog_reads_back(
    catalog: Catalog,
    kept: PersistedCatalog,
    read: Result<Catalog, String>,
)
    requires
        keeps(kept, catalog),
        persisted_failure(catalog.skins()) is None,
        match read {
            Ok(found) => persisted_failure(kept.skins@) is None && keeps(kept, found),
            Err(text) => persisted_failure(kept.skins@) == Some(text@),
        },
    ensures
        read matches Ok(found) && {
            &&& found.schema_version == catalog.schema_version
            &&& found.source == catalog.source
            &&& found.skins() == catalog.skins()
            &&& found.listings() == catalog.listings()
        },
{
}

/// No two skins have one id.
pub open spec fn distinct_ids(skins: Seq<Skin>) -> bool {
    forall|i: int, j: int|
        0 <= i < j < skins.len() ==> #[trigger] skins[i].id@ != #[trigger] skins[j].id@
}

/// A catalog that is accepted holds skins, and every one of them has sound caps
/// and an id of its own.
pub proof fn law_accepted_catalog(skins: Seq<Skin>)
    ensures
        persisted_failure(skins) is None <==> {
            &&& skins.len() > 0
            &&& distinct_ids(skins)
            &&& forall|i: int| 0 <= i < skins.len() ==> sound_caps(#[trigger] skins[i])
        },
{
    lemma_sound_skins(skins);
}

proof fn lemma_sound_skins(skins: Seq<Skin>)
    ensures
        skins_failure(skins) is None <==> {
            &&& distinct_ids(skins)
            &&& forall|i: int| 0 <= i < skins.len() ==> sound_caps(#[trigger] skins[i])
        },
    decreases skins.len(),
{
    if skins.len() > 0 {
        let front = skins.drop_last();
        let n = skins.len() - 1;
        lemma_sound_skins(front);
        lemma_found(front, skins.last().id@);
        assert(skins[n] == skins.last());
        assert forall|i: int| 0 <= i < n implies #[trigger] front[i] == skins[i] by {}
        if skins_failure(skins) is None {
            assert forall|i: int, j: int| 0 <= i < j < skins.len() implies (
            #[trigger] skins[i]).id@ != (#[trigger] skins[j]).id@ by {
                assert(front[i] == skins[i]);
                if j < n {
                    assert(front[j] == skins[j]);
                }
            }
            assert forall|i: int| 0 <= i < skins.len() implies sound_caps(#[trigger] skins[i]) by {
                if i < n {
                    assert(front[i] == skins[i]);
                }
            }
        }
        if distinct_ids(skins) && forall|i: int|
            0 <= i < skins.len() ==> sound_caps(#[trigger] skins[i]) {
            assert forall|i: int, j: int| 0 <= i < j < front.len() implies (
            #[trigger] front[i]).id@ != (#[trigger] front[j]).id@ by {
                assert(skins[i].id@ != skins[j].id@);
            }
            assert forall|i: int| 0 <= i < front.len() implies sound_caps(#[trigger] front[i]) by {
                assert(sound_caps(skins[i]));
            }
            assert forall|i: int| 0 <= i < front.len() implies (#[trigger] front[i]).id@
                != skins.last().id@ by {
                assert(skins[i].id@ != skins[n].id@);
            }
        }
    }
}

/// A skin is found exactly where one with the id is there.
pub proof fn lemma_found(skins: Seq<Skin>, id: Seq<char>)
    ensures
        find_skin(skins, id) is None <==> forall|i: int|
            0 <= i < skins.len() ==> (#[trigger] skins[i]).id@ != id,
        find_skin(skins, id) matches Some(skin) ==> skin.id@ == id && skins.contains(skin),
    decreases skins.len(),
{
    if skins.len() > 0 {
        let front = skins.drop_last();
        lemma_found(front, id);
        assert(skins[skins.len() - 1] == skins.last());
        assert forall|i: int| 0 <= i < front.len() implies #[trigger] front[i] == skins[i] by {}
        if let Some(skin) = find_skin(front, id) {
            let i = choose|i: int| 0 <= i < front.len() && front[i] == skin;
            assert(skins[i] == skin);
        }
        if forall|i: int| 0 <= i < skins.len() ==> (#[trigger] skins[i]).id@ != id {
            assert forall|i: int| 0 <= i < front.len() implies (#[trigger] front[i]).id@ != id by {
                assert(skins[i].id@ != id);
            }
        }
        if find_skin(skins, id) is None {
            assert forall|i: int| 0 <= i < skins.len() implies (#[trigger] skins[i]).id@ != id by {
                if i < front.len() {
                    assert(front[i].id@ != id);
                }
            }
        }
    }
}

/// The listing limit applies to each skin: of those that were gathered for
/// different skins, at most `limit` belong to any one of them.
pub proof fn law_listing_limit(
    listings: Seq<FixtureListing>,
    skin_ids: Seq<Seq<char>>,
    limit: nat,
    id: Seq<char>,
)
    requires
        skin_ids.no_duplicates(),
    ensures
        listings_of(gathered(listings, skin_ids, limit), id).len() <= limit,
        !skin_ids.contains(id) ==> listings_of(gathered(listings, skin_ids, limit), id).len()
            == 0,
    decreases skin_ids.len(),
{
    let wanted = sells(id);
    reveal(Seq::filter);
    if skin_ids.len() > 0 {
        let front = skin_ids.drop_last();
        let last = skin_ids.last();
        law_listing_limit(listings, front, limit, id);
        let before = gathered(listings, front, limit);
        let own = cheapest_of(listings, last, limit);
        Seq::filter_distributes_over_add(before, own, wanted);
        lemma_cheapest(listings, last, limit);
        own.lemma_filter_len(wanted);
        if last == id {
            assert(!front.contains(id)) by {
                if front.contains(id) {
                    let i = choose|i: int| 0 <= i < front.len() && front[i] == id;
                    assert(skin_ids[i] == skin_ids[skin_ids.len() - 1]);
                }
            }
            assert(skin_ids[skin_ids.len() - 1] == id);
            assert(skin_ids.contains(id));
        } else {
            lemma_filter_none(own, wanted);
            if front.contains(id) {
                let i = choose|i: int| 0 <= i < front.len() && front[i] == id;
                assert(skin_ids[i] == id);
            }
        }
    }
}

/// The cheapest listings of a skin are listings of that skin, and not too many.
proof fn lemma_cheapest(listings: Seq<FixtureListing>, skin_id: Seq<char>, limit: nat)
    ensures
        cheapest_of(listings, skin_id, limit).len() <= limit,
        forall|i: int|
            0 <= i < cheapest_of(listings, skin_id, limit).len() ==> (#[trigger] cheapest_of(
                listings,
                skin_id,
                limit,
            )[i]).skin_id@ == skin_id,
{
    broadcast use vstd::seq_lib::group_to_multiset_ensures;

    let wanted = sells(skin_id);
    let own = listings_of(listings, skin_id);
    let sorted = stable_sorted(own);
    lemma_stable_sorted(own);
    assert forall|i: int| 0 <= i < cheapest_of(listings, skin_id, limit).len() implies (
    #[trigger] cheapest_of(listings, skin_id, limit)[i]).skin_id@ == skin_id by {
        let x = sorted[i];
        assert(sorted.contains(x));
        assert(sorted.to_multiset().count(x) > 0);
        assert(own.contains(x));
        let j = choose|j: int| 0 <= j < own.len() && own[j] == x;
        listings.lemma_filter_pred(wanted, j);
    }
}

pub(crate) proof fn lemma_filter_none<T>(s: Seq<T>, wanted: spec_fn(T) -> bool)
    requires
        forall|i: int| 0 <= i < s.len() ==> !wanted(#[trigger] s[i]),
    ensures
        s.filter(wanted).len() == 0,
    decreases s.len(),
{
    reveal(Seq::filter);
    if s.len() > 0 {
        assert forall|i: int| 0 <= i < s.drop_last().len() implies !wanted(
            #[trigger] s.drop_last()[i],
        ) by {
            assert(s.drop_last()[i] == s[i]);
        }
        lemma_filter_none(s.drop_last(), wanted);
        assert(!wanted(s[s.len() - 1]));
    }
}

} // verus!
