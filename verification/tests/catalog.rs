use cs_float_planner::catalog::{
    rarity_from_upstream, Catalog, PersistedCatalog, SourceMetadata, UpstreamCollection,
    UpstreamRarity, UpstreamSkin, UpstreamWeapon,
};
use cs_float_planner::domain::{FixtureListing, Float32, Rarity, Skin};
use serde_json::Value;

fn float(x: f32) -> Float32 {
    Float32::from_bits(x.to_bits())
}

fn text(value: &Value) -> String {
    value.as_str().unwrap().to_owned()
}

fn number(value: &Value) -> Option<Float32> {
    value.as_f64().map(|x| float(x as f32))
}

/// Reads a snapshot the way the importer receives it.
fn snapshot(json: &str) -> Vec<UpstreamSkin> {
    let parsed: Value = serde_json::from_str(json).unwrap();
    parsed
        .as_array()
        .unwrap()
        .iter()
        .map(|skin| UpstreamSkin {
            id: text(&skin["id"]),
            name: text(&skin["name"]),
            min_float: number(&skin["min_float"]),
            max_float: number(&skin["max_float"]),
            rarity: UpstreamRarity { id: text(&skin["rarity"]["id"]) },
            stattrak: skin["stattrak"].as_bool().unwrap_or_default(),
            paint_index: skin["paint_index"].as_str().map(str::to_owned),
            weapon: skin["weapon"].as_object().map(|weapon| UpstreamWeapon {
                weapon_id: weapon["weapon_id"].as_u64().map(|id| id as u32),
            }),
            collections: skin["collections"]
                .as_array()
                .unwrap()
                .iter()
                .map(|collection| UpstreamCollection {
                    id: text(&collection["id"]),
                    name: text(&collection["name"]),
                })
                .collect(),
        })
        .collect()
}

fn listing(id: &str, skin_id: &str, price: u64) -> FixtureListing {
    FixtureListing {
        id: id.to_owned(),
        skin_id: skin_id.to_owned(),
        float_value: float(0.1),
        price_cents: price,
        market_url: "https://steamcommunity.com/market/".to_owned(),
        source: "steam_community_market".to_owned(),
        inspect_link: None,
    }
}

fn kept(skins: Vec<Skin>) -> PersistedCatalog {
    PersistedCatalog {
        schema_version: "kept".to_owned(),
        source: SourceMetadata {
            name: "source".to_owned(),
            url: "https://example.test".to_owned(),
            license: "MIT".to_owned(),
            retrieved_at: "today".to_owned(),
            note: "note".to_owned(),
        },
        skins,
        listings: vec![listing("a", "one/a", 5)],
    }
}

fn skin(id: &str, min: f32, max: f32) -> Skin {
    Skin {
        id: id.to_owned(),
        name: "A".to_owned(),
        collection_id: "one".to_owned(),
        collection_name: "One".to_owned(),
        rarity: Rarity::MilSpec,
        min_float: float(min),
        max_float: float(max),
        stattrak_supported: false,
        def_index: Some(7),
        paint_index: Some(44),
    }
}

#[test]
fn importer_preserves_each_collection_path() {
    let json = r#"[
      {"id":"skin-a","name":"A","min_float":0.0,"max_float":1.0,"rarity":{"id":"rarity_legendary_weapon"},"stattrak":true,"collections":[{"id":"collection-one","name":"One"},{"id":"collection-two","name":"Two"}]},
      {"id":"skin-b","name":"B","min_float":0.1,"max_float":0.7,"rarity":{"id":"rarity_ancient_weapon"},"collections":[{"id":"collection-one","name":"One"}]}
    ]"#;
    let catalog =
        Catalog::from_upstream_snapshot(&snapshot(json), "abc", "2026-07-20".to_owned()).unwrap();
    assert_eq!(catalog.public_response().skins.len(), 3);
    assert!(catalog.skin("collection-one/skin-a").is_some());
    assert_eq!(
        catalog
            .input_skins_for_target(catalog.skin("collection-one/skin-b").unwrap())
            .len(),
        1
    );
}

#[test]
fn listing_limit_is_applied_to_each_input_skin() {
    let json = r#"[
      {"id":"input-a","name":"A","min_float":0.0,"max_float":1.0,"rarity":{"id":"rarity_legendary_weapon"},"collections":[{"id":"collection-one","name":"One"}]},
      {"id":"input-b","name":"B","min_float":0.0,"max_float":1.0,"rarity":{"id":"rarity_legendary_weapon"},"collections":[{"id":"collection-two","name":"Two"}]}
    ]"#;
    let catalog =
        Catalog::from_upstream_snapshot(&snapshot(json), "abc", "2026-07-20".to_owned()).unwrap();
    let listings = ["collection-one/input-a", "collection-two/input-b"]
        .into_iter()
        .flat_map(|skin_id| {
            (0..3).map(move |index| listing(&format!("{skin_id}-{index}"), skin_id, index))
        })
        .collect();
    let catalog = catalog.with_listings(listings);

    let ids = vec!["collection-one/input-a".to_owned(), "collection-two/input-b".to_owned()];
    let selected = catalog.fixture_listings_for_skins(&ids, 2);

    assert_eq!(selected.len(), 4);
    assert_eq!(
        selected
            .iter()
            .filter(|listing| listing.skin_id == "collection-one/input-a")
            .count(),
        2
    );
    assert_eq!(
        selected
            .iter()
            .filter(|listing| listing.skin_id == "collection-two/input-b")
            .count(),
        2
    );
}

#[test]
fn the_cheapest_listings_come_first() {
    let catalog = Catalog::from_persisted(kept(vec![skin("one/a", 0.0, 1.0)])).unwrap();
    let catalog = catalog.with_listings(vec![
        listing("c", "one/a", 30),
        listing("b", "one/a", 10),
        listing("a", "one/a", 10),
        listing("x", "other", 1),
    ]);
    let selected = catalog.fixture_listings_for_skins(&vec!["one/a".to_owned()], 2);
    let ids: Vec<&str> = selected.iter().map(|listing| listing.id.as_str()).collect();
    assert_eq!(ids, ["a", "b"]);
}

#[test]
fn the_importer_reads_every_field() {
    let json = r#"[
      {"id":"skin-a","name":"A","min_float":0.06,"max_float":0.8,"rarity":{"id":"rarity_mythical_weapon"},"stattrak":true,"paint_index":"282","weapon":{"weapon_id":9},"collections":[{"id":"one","name":"One"}]},
      {"id":"skin-b","name":"B","rarity":{"id":"rarity_rare_weapon"},"paint_index":"x","collections":[{"id":"one","name":"One"}]},
      {"id":"agent","name":"Agent","min_float":0.0,"max_float":1.0,"rarity":{"id":"rarity_common_character"},"collections":[{"id":"one","name":"One"}]}
    ]"#;
    let catalog =
        Catalog::from_upstream_snapshot(&snapshot(json), "abc", "2026-07-20".to_owned()).unwrap();
    assert_eq!(catalog.schema_version, "bymykel-abc");
    assert_eq!(catalog.source.retrieved_at, "2026-07-20");
    let a = catalog.skin("one/skin-a").unwrap();
    assert_eq!(a.rarity, Rarity::Restricted);
    assert_eq!(a.min_float.to_bits(), 0.06_f32.to_bits());
    assert_eq!(a.max_float.to_bits(), 0.8_f32.to_bits());
    assert_eq!((a.def_index, a.paint_index), (Some(9), Some(282)));
    assert!(a.stattrak_supported);
    assert_eq!(a.collection_name, "One");
    // Without caps, or with a rarity outside the ladder, there is nothing to plan with.
    assert!(catalog.skin("one/skin-b").is_none());
    assert!(catalog.skin("one/agent").is_none());
    assert_eq!(catalog.public_response().listing_count, 0);
}

#[test]
fn an_empty_snapshot_is_refused() {
    assert!(Catalog::from_upstream_snapshot(&Vec::new(), "abc", "now".to_owned()).is_err());
}

#[test]
fn upstream_rarities_have_names() {
    for (id, rarity) in [
        ("rarity_common_weapon", Some(Rarity::Consumer)),
        ("rarity_uncommon_weapon", Some(Rarity::Industrial)),
        ("rarity_rare_weapon", Some(Rarity::MilSpec)),
        ("rarity_mythical_weapon", Some(Rarity::Restricted)),
        ("rarity_legendary_weapon", Some(Rarity::Classified)),
        ("rarity_ancient_weapon", Some(Rarity::Covert)),
        ("rarity_ancient", Some(Rarity::Extraordinary)),
        ("rarity_contraband_weapon", Some(Rarity::Extraordinary)),
        ("rarity_common", None),
    ] {
        assert_eq!(rarity_from_upstream(id), rarity);
    }
}

#[test]
fn a_kept_catalog_reads_back() {
    let catalog =
        Catalog::from_persisted(kept(vec![skin("one/a", 0.0, 1.0), skin("one/b", 0.1, 0.2)]))
            .unwrap();
    let again = Catalog::from_persisted(catalog.to_persisted()).unwrap();
    assert_eq!(again.schema_version, "kept");
    assert_eq!(again.source.license, "MIT");
    assert_eq!(again.skins.len(), 2);
    assert_eq!(again.skin("one/b").unwrap().paint_index, Some(44));
    assert_eq!(again.listings.len(), 1);
    assert_eq!(again.listings[0].price_cents, 5);
}

#[test]
fn unsound_catalogs_are_refused() {
    assert_eq!(Catalog::from_persisted(kept(Vec::new())).unwrap_err(), "catalog has no skins");
    for bad in [skin("one/a", 0.5, 0.5), skin("one/a", 0.6, 0.5), skin("one/a", f32::NAN, 0.5)] {
        assert_eq!(
            Catalog::from_persisted(kept(vec![bad])).unwrap_err(),
            "one/a has invalid float caps"
        );
    }
    assert_eq!(
        Catalog::from_persisted(kept(vec![skin("one/a", 0.0, 1.0), skin("one/a", 0.0, 0.5)]))
            .unwrap_err(),
        "catalog has duplicate skin id one/a"
    );
}

#[test]
fn the_public_response_names_its_limits() {
    let catalog = Catalog::from_persisted(kept(vec![skin("one/a", 0.0, 1.0)])).unwrap();
    let response = catalog.public_response();
    assert_eq!(response.schema_version, "kept");
    assert_eq!(response.listing_count, 1);
    assert!(!response.limitations.is_empty());
    let empty = catalog.with_listings(Vec::new()).public_response();
    assert_eq!(empty.listing_count, 0);
}
