use std::collections::HashMap;

use cs_float_planner::catalog::{
    Catalog, SourceMetadata, UpstreamCollection, UpstreamRarity, UpstreamSkin,
};
use cs_float_planner::domain::{FixtureListing, Float32, PlannerError, Rarity, Skin};
use cs_float_planner::float64::Float64;
use cs_float_planner::json::{Json, JsonNumber};
use cs_float_planner::market::{
    accept_base, choose_provider, disabled_status, eligible_wears, extract_json_string_literal,
    find_query_data, is_fresh, listing_page_url, listings_url, market_base, market_hash_name,
    market_url, merge_listings, parse_steam_market_page, pause_before_request,
    provider_from_setting, skins_to_search, steam_status, take_listings_page, MarketSearch,
    PlanSearch, ProviderKind, SteamAsset, SteamAssetProperty, SteamDescription, SteamListing,
    SteamMarketAction, SteamMarketPage, MAX_CANDIDATES_PER_SKIN, MAX_PAGES_PER_SKIN,
};

const BASE: &str = "https://fixture.test/market/listings/730/";
const PAGE_SIZE: usize = 20;

fn float(x: f32) -> Float32 {
    Float32::from_bits(x.to_bits())
}

fn test_skin(min_float: f32, max_float: f32) -> Skin {
    Skin {
        id: "collection-test/input".to_owned(),
        name: "Input".to_owned(),
        collection_id: "collection-test".to_owned(),
        collection_name: "Test".to_owned(),
        rarity: Rarity::Classified,
        min_float: float(min_float),
        max_float: float(max_float),
        stattrak_supported: true,
        def_index: None,
        paint_index: None,
    }
}

fn quoted(text: &str) -> String {
    serde_json::to_string(text).unwrap()
}

fn listing(id: &str, name: &str, value: f64, price: u64, fee: u64, payload: &str) -> String {
    let (id, name, payload) = (quoted(id), quoted(name), quoted(payload));
    format!(
        r#"{{"listingid":{id},"unPrice":{price},"unFee":{fee},
            "description":{{"market_hash_name":{name},
              "market_actions":[{{"link":"steam://run/730//+csgo_econ_action_preview%20%propid:6%"}}]}},
            "asset":{{"asset_properties":[
              {{"propertyid":2,"float_value":{value}}},
              {{"propertyid":6,"string_value":{payload}}}]}}}}"#
    )
}

fn page(more: bool, listings: &[String]) -> String {
    format!(r#"{{"more":{more},"listings":[{}]}}"#, listings.join(","))
}

fn steam_html(page: &str) -> String {
    let query_data = format!(r#"{{"queries":[{{"state":{{"data":{{"pages":[{page}]}}}}}}]}}"#);
    let context = format!(r#"{{"queryData":{}}}"#, quoted(&query_data));
    let nested = quoted(&context);
    format!("<script>window.SSR.renderContext=JSON.parse({nested});</script>")
}

fn text(value: &Json) -> String {
    value.as_str().unwrap().to_owned()
}

fn whole(value: &Json) -> u64 {
    match value {
        Json::Number(JsonNumber::Unsigned(n)) => *n,
        other => panic!("not a count: {other:?}"),
    }
}

fn items(value: &Json) -> &Vec<Json> {
    match value {
        Json::List(items) => items,
        other => panic!("not a list: {other:?}"),
    }
}

/// Reads a page as the provider does once the value is at hand.
fn typed_page(value: &Json) -> SteamMarketPage {
    SteamMarketPage {
        more: matches!(value.get("more"), Some(Json::Bool(true))),
        listings: items(value.get("listings").unwrap())
            .iter()
            .map(|entry| {
                let description = entry.get("description").unwrap();
                let asset = entry.get("asset").unwrap();
                SteamListing {
                    listing_id: text(entry.get("listingid").unwrap()),
                    price_cents: whole(entry.get("unPrice").unwrap()),
                    fee_cents: whole(entry.get("unFee").unwrap()),
                    description: SteamDescription {
                        market_hash_name: text(description.get("market_hash_name").unwrap()),
                        market_actions: items(description.get("market_actions").unwrap())
                            .iter()
                            .map(|action| SteamMarketAction {
                                link: text(action.get("link").unwrap()),
                            })
                            .collect(),
                    },
                    asset: SteamAsset {
                        asset_properties: items(asset.get("asset_properties").unwrap())
                            .iter()
                            .map(|property| SteamAssetProperty {
                                property_id: whole(property.get("propertyid").unwrap()) as u32,
                                float_value: match property.get("float_value") {
                                    Some(Json::Number(JsonNumber::Double(bits))) => {
                                        Some(Float64::from_bits(*bits))
                                    }
                                    _ => None,
                                },
                                string_value: property.get("string_value").map(text),
                            })
                            .collect(),
                    },
                }
            })
            .collect(),
    }
}

/// A market of fixed pages, and how often they were asked for.
struct FixtureMarket {
    pages: HashMap<usize, String>,
    calls: usize,
    cache: HashMap<String, Vec<FixtureListing>>,
}

impl FixtureMarket {
    fn new(pages: HashMap<usize, String>) -> Self {
        FixtureMarket { pages, calls: 0, cache: HashMap::new() }
    }

    fn page(&mut self, name: &str, start: usize) -> Result<SteamMarketPage, PlannerError> {
        let url = listings_url(BASE, name, start)?;
        assert!(url.contains(&format!("start={start}")));
        self.calls += 1;
        let html = self.pages.get(&start).ok_or_else(|| {
            PlannerError::Catalog(format!("fixture has no Market page at start={start}"))
        })?;
        let value = parse_steam_market_page(html).map_err(PlannerError::Catalog)?;
        Ok(typed_page(&value))
    }

    fn fetch_for_skin(
        &mut self,
        skin: &Skin,
        stattrak: bool,
    ) -> Result<Vec<FixtureListing>, PlannerError> {
        let key = format!("{}:{stattrak}", skin.id);
        if let Some(found) = self.cache.get(&key) {
            if is_fresh(0, 1) {
                return Ok(found.clone());
            }
        }
        let mut search = MarketSearch::begin(skin, stattrak, BASE);
        while let Some((name, start)) = search.next_page() {
            let page = self.page(&name, start)?;
            search.receive(&page)?;
        }
        let found = search.finish();
        self.cache.insert(key, found.clone());
        Ok(found)
    }

    fn fetch_for_plan(
        &mut self,
        catalog: &Catalog,
        target: &str,
    ) -> Result<Vec<FixtureListing>, PlannerError> {
        let mut plan = PlanSearch::begin(catalog, target, false, BASE)?;
        while let Some(skin) = plan.next_skin() {
            let key = format!("{}:false", skin.id);
            if let Some(known) = self.cache.get(&key) {
                plan.use_known(known.clone());
                continue;
            }
            plan.search_skin();
            while let Some((name, start)) = plan.next_page() {
                let page = self.page(&name, start)?;
                plan.receive(&page)?;
            }
            let (listings, kept) = plan.finish_skin();
            if kept {
                self.cache.insert(key, listings);
            }
        }
        Ok(plan.finish())
    }
}

fn offer(id: &str, price: u64) -> FixtureListing {
    FixtureListing {
        id: id.to_owned(),
        skin_id: "skin".to_owned(),
        float_value: float(0.1),
        price_cents: price,
        market_url: String::new(),
        source: "steam_community_market".to_owned(),
        inspect_link: None,
    }
}

fn steam_listing(properties: Vec<SteamAssetProperty>, links: &[&str]) -> SteamListing {
    SteamListing {
        listing_id: "one".to_owned(),
        price_cents: u64::MAX,
        fee_cents: 5,
        description: SteamDescription {
            market_hash_name: "Input (Battle-Scarred)".to_owned(),
            market_actions: links
                .iter()
                .map(|link| SteamMarketAction { link: (*link).to_owned() })
                .collect(),
        },
        asset: SteamAsset { asset_properties: properties },
    }
}

#[test]
fn steam_provider_parses_html_price_float_and_inspect_link_and_uses_cache() {
    let skin = test_skin(0.45, 1.0);
    let item = market_hash_name(&skin, "Battle-Scarred", false);
    let mut market = FixtureMarket::new(HashMap::from([(
        0,
        steam_html(&page(
            false,
            &[
                listing("good", &item, 0.55, 100, 15, "ABCDEF"),
                listing("wrong-float", &item, 0.1, 1, 0, "NOPE"),
                listing("wrong-name", "Other (Battle-Scarred)", 0.55, 1, 0, "OTHER"),
            ],
        )),
    )]));

    let first = market.fetch_for_skin(&skin, false).unwrap();
    let second = market.fetch_for_skin(&skin, false).unwrap();

    assert_eq!(market.calls, 1);
    assert_eq!(first.len(), 1);
    assert_eq!(first[0].id, "good");
    assert_eq!(first[0].float_value.to_bits(), 0.55_f32.to_bits());
    assert_eq!(first[0].price_cents, 115);
    assert_eq!(
        first[0].inspect_link.as_deref(),
        Some("steam://run/730//+csgo_econ_action_preview%20ABCDEF")
    );
    assert!(first[0].market_url.contains("buy=1"));
    assert_eq!(second[0].id, "good");
}

#[test]
fn parser_rejects_an_ssr_page_without_listing_context() {
    let error = parse_steam_market_page("<html><body>no SSR data</body></html>").unwrap_err();
    assert_eq!(error, "SSR render context is absent");
}

#[test]
fn steam_provider_collects_up_to_two_hundred_exact_candidates() {
    let item = market_hash_name(&test_skin(0.45, 1.0), "Battle-Scarred", false);
    let pages = (0..MAX_CANDIDATES_PER_SKIN)
        .step_by(PAGE_SIZE)
        .map(|start| {
            let entries = (start..start + PAGE_SIZE)
                .map(|index| {
                    listing(
                        &format!("listing-{index}"),
                        &item,
                        0.5 + (index as f64 / 10_000.0),
                        index as u64,
                        0,
                        "PAYLOAD",
                    )
                })
                .collect::<Vec<_>>();
            (start, steam_html(&page(start + PAGE_SIZE < MAX_CANDIDATES_PER_SKIN, &entries)))
        })
        .collect();
    let mut market = FixtureMarket::new(pages);

    let listings = market.fetch_for_skin(&test_skin(0.45, 1.0), false).unwrap();

    assert_eq!(market.calls, MAX_PAGES_PER_SKIN);
    assert_eq!(listings.len(), MAX_CANDIDATES_PER_SKIN);
    assert_eq!(listings.first().unwrap().id, "listing-0");
    assert_eq!(listings.last().unwrap().id, "listing-199");
}

#[test]
fn plan_fetches_only_eligible_input_skins_from_steam() {
    let upstream = |id: &str, name: &str, min: f32, rarity: &str| UpstreamSkin {
        id: id.to_owned(),
        name: name.to_owned(),
        min_float: Some(float(min)),
        max_float: Some(float(1.0)),
        rarity: UpstreamRarity { id: rarity.to_owned() },
        stattrak: true,
        paint_index: None,
        weapon: None,
        collections: vec![UpstreamCollection {
            id: "collection-test".to_owned(),
            name: "Test".to_owned(),
        }],
    };
    let catalog = Catalog::from_upstream_snapshot(
        &vec![
            upstream("input", "Input", 0.45, "rarity_legendary_weapon"),
            upstream("target", "Target", 0.0, "rarity_ancient_weapon"),
        ],
        "test",
        "now".to_owned(),
    )
    .unwrap();
    let input = catalog.skin("collection-test/input").unwrap();
    let item = market_hash_name(input, "Battle-Scarred", false);
    let mut market = FixtureMarket::new(HashMap::from([(
        0,
        steam_html(&page(false, &[listing("good", &item, 0.55, 100, 15, "ABCDEF")])),
    )]));

    let listings = market.fetch_for_plan(&catalog, "collection-test/target").unwrap();
    assert_eq!(listings.len(), 1);
    assert_eq!(listings[0].skin_id, "collection-test/input");
}

#[test]
fn the_parser_says_what_is_missing() {
    let html = |rest: &str| format!("<script>window.SSR.renderContext=JSON.parse({rest}");
    assert!(parse_steam_market_page(&html("x)")).is_err());
    assert_eq!(
        parse_steam_market_page(&html("\"unfinished")).unwrap_err(),
        "SSR JSON string literal is not terminated"
    );
    // The literal is a string, but what it holds is no JSON.
    assert!(parse_steam_market_page(&html("\"{\")")).is_err());
    // JSON without the data of the queries, and with data but without listings.
    assert!(parse_steam_market_page(&html("\"{}\")")).is_err());
    assert!(parse_steam_market_page(&html(&format!("{})", quoted("{\"queryData\":\"{}\"}"))))
        .is_err());
}

#[test]
fn a_page_is_found_among_other_queries() {
    let wanted = page(true, &[]);
    let query_data = format!(
        r#"{{"queries":[{{"state":{{"data":{{"pages":[{{"other":1}}]}}}}}},7,{{"state":{{"data":{{"pages":[{wanted}]}}}}}}]}}"#
    );
    let context = format!(r#"{{"x":[null,-3,0.5,true],"queryData":{}}}"#, quoted(&query_data));
    let html = format!("..window.SSR.renderContext=JSON.parse({});..", quoted(&context));
    let value = parse_steam_market_page(&html).unwrap();
    assert!(matches!(value.get("more"), Some(Json::Bool(true))));
    assert!(items(value.get("listings").unwrap()).is_empty());
}

#[test]
fn the_query_data_is_a_text_member() {
    let context = Json::Object(vec![
        ("a".to_owned(), Json::Null),
        ("queryData".to_owned(), Json::Text("data".to_owned())),
    ]);
    assert_eq!(find_query_data(&context), Some("data"));
    assert_eq!(find_query_data(&Json::List(Vec::new())), None);
    let wrong = Json::Object(vec![("queryData".to_owned(), Json::Bool(true))]);
    assert_eq!(find_query_data(&wrong), None);
    assert!(take_listings_page(wrong).is_none());
}

#[test]
fn a_literal_ends_at_its_closing_quote() {
    assert_eq!(extract_json_string_literal("\"a\\\"b\" rest").unwrap(), "\"a\\\"b\"");
    assert_eq!(extract_json_string_literal("\"\\\\\"x\"").unwrap(), "\"\\\\\"");
    assert_eq!(extract_json_string_literal("\"é\"").unwrap(), "\"é\"");
    assert!(extract_json_string_literal("a\"").is_err());
    assert!(extract_json_string_literal("").is_err());
}

#[test]
fn names_and_exteriors_follow_the_caps() {
    let skin = test_skin(0.06, 0.4);
    assert_eq!(
        eligible_wears(&skin),
        ["Factory New", "Minimal Wear", "Field-Tested", "Well-Worn"]
    );
    assert_eq!(eligible_wears(&test_skin(0.45, 1.0)), ["Battle-Scarred"]);
    assert_eq!(market_hash_name(&skin, "Well-Worn", false), "Input (Well-Worn)");
    assert_eq!(market_hash_name(&skin, "Well-Worn", true), "StatTrak™ Input (Well-Worn)");
}

#[test]
fn addresses_escape_names() {
    assert_eq!(
        listing_page_url(BASE, "Input (Battle-Scarred)").unwrap(),
        "https://fixture.test/market/listings/730/Input%20(Battle-Scarred)"
    );
    assert_eq!(
        listing_page_url(BASE, "a/b?c").unwrap(),
        "https://fixture.test/market/listings/730/a%2Fb%3Fc"
    );
    let long = "a".repeat(0x90_0000);
    assert_eq!(listing_page_url(BASE, &long).unwrap(), format!("{BASE}{long}"));
    for (base, name, page) in [
        ("https://a.test", "x", "https://a.test/x"),
        ("https://a.test//", "x", "https://a.test/x"),
        ("https://a.test/b", "x", "https://a.test/b/x"),
        ("https://a.test/b/?q#f", "x y", "https://a.test/b/x%20y?q#f"),
        ("https://a.test/b/", "..", "https://a.test/b"),
        ("custom://a.test", "x\\y", "custom://a.test/x\\y"),
    ] {
        assert_eq!(listing_page_url(base, name).unwrap(), page);
    }
    assert_eq!(
        market_url("https://a.test/b/?q#f", "x", "*-._ é&").unwrap(),
        "https://a.test/b/x?q&buy=1&listing=*-._+%C3%A9%26#f"
    );
    assert_eq!(
        market_url("https://a.test/b/", "x", "1").unwrap(),
        "https://a.test/b/x?buy=1&listing=1"
    );
    let page = listings_url(BASE, "Input (Battle-Scarred)", 40).unwrap();
    assert!(page.starts_with("https://fixture.test/market/listings/730/Input%20(Battle-Scarred)?"));
    assert!(page.contains("start=40"));
    let url = market_url(BASE, "Input", "id 1").unwrap();
    assert!(url.contains("buy=1"));
    assert!(url.contains("id+1"));
    for base in ["mailto:a@b.test", "no address"] {
        match listing_page_url(base, "Input") {
            Err(PlannerError::Catalog(text)) => {
                assert_eq!(text, "Steam Market base URL cannot accept path segments")
            }
            other => panic!("unexpected: {other:?}"),
        }
    }
}

#[test]
fn a_listing_tells_its_price_float_and_link() {
    let property = |id: u32, value: Option<f64>, text: Option<&str>| SteamAssetProperty {
        property_id: id,
        float_value: value.map(|x| Float64::from_bits(x.to_bits())),
        string_value: text.map(str::to_owned),
    };
    let preview = "steam://run/730//+csgo_econ_action_preview%20%propid:6%";
    let full = steam_listing(
        vec![
            property(1, Some(0.9), None),
            property(2, Some(0.1), None),
            property(6, None, Some("X")),
        ],
        &["https://example.test", preview],
    );
    assert_eq!(full.buyer_price_cents(), u64::MAX);
    assert_eq!(full.raw_float().unwrap().to_bits(), 0.1_f32.to_bits());
    assert_eq!(
        full.inspect_link().as_deref(),
        Some("steam://run/730//+csgo_econ_action_preview%20X")
    );
    let bare = steam_listing(vec![property(2, None, None)], &[preview]);
    assert!(bare.raw_float().is_none());
    assert_eq!(bare.inspect_link(), None);
    assert_eq!(steam_listing(Vec::new(), &[]).inspect_link(), None);
}

#[test]
fn doubles_narrow_as_the_processor_does() {
    let mut seed: u64 = 0x9e37_79b9_7f4a_7c15;
    for _ in 0..200_000 {
        seed ^= seed << 13;
        seed ^= seed >> 7;
        seed ^= seed << 17;
        // Also patterns within the range of single precision.
        for bits in [seed, (seed >> 12) | (0x36f0 + (seed & 0x3ff) * 7) << 48] {
            let native = f64::from_bits(bits) as f32;
            let ours = Float64::from_bits(bits).narrow();
            if native.is_nan() {
                assert!(ours.is_nan());
            } else {
                assert_eq!(ours.to_bits(), native.to_bits(), "{bits:#x}");
            }
        }
    }
}

#[test]
fn a_search_without_exteriors_asks_for_nothing() {
    let mut skin = test_skin(0.45, 1.0);
    skin.stattrak_supported = false;
    let search = MarketSearch::begin(&skin, true, BASE);
    assert!(search.next_page().is_none());
    assert!(search.finish().is_empty());
}

#[test]
fn a_search_goes_on_to_the_next_exterior() {
    let skin = test_skin(0.38, 1.0);
    let mut search = MarketSearch::begin(&skin, false, BASE);
    let empty = SteamMarketPage { more: false, listings: Vec::new() };
    assert_eq!(search.next_page(), Some(("Input (Well-Worn)".to_owned(), 0)));
    search.receive(&empty).unwrap();
    assert_eq!(search.next_page(), Some(("Input (Battle-Scarred)".to_owned(), 0)));
    search.receive(&empty).unwrap();
    assert_eq!(search.next_page(), None);
}

#[test]
fn the_page_budget_of_a_skin_is_split_among_its_exteriors() {
    for (min, max, pages) in [
        (0.5, 1.0, vec![10]),
        (0.4, 1.0, vec![5, 5]),
        (0.2, 1.0, vec![4, 3, 3]),
        (0.1, 1.0, vec![3, 3, 2, 2]),
        (0.0, 1.0, vec![2, 2, 2, 2, 2]),
    ] {
        let skin = test_skin(min, max);
        assert_eq!(eligible_wears(&skin).len(), pages.len());
        let mut search = MarketSearch::begin(&skin, false, BASE);
        let mut asked: Vec<(String, usize)> = Vec::new();
        while let Some((name, start)) = search.next_page() {
            asked.push((name, start));
            // A full page of other items: there is more, and nothing of use.
            let listings = (0..PAGE_SIZE).map(|_| steam_listing(Vec::new(), &[])).collect();
            search.receive(&SteamMarketPage { more: true, listings }).unwrap();
        }
        let mut expected: Vec<(String, usize)> = Vec::new();
        for (wear, count) in eligible_wears(&skin).iter().zip(&pages) {
            let name = market_hash_name(&skin, wear, false);
            expected.extend((0..*count).map(|page| (name.clone(), page * PAGE_SIZE)));
        }
        assert_eq!(asked, expected);
        assert_eq!(asked.len(), MAX_PAGES_PER_SKIN);
    }
}

#[test]
fn merged_listings_are_sorted_and_unique() {
    let merged = merge_listings(&vec![offer("b", 3), offer("c", 1), offer("a", 3), offer("b", 3)]);
    let ids: Vec<&str> = merged.iter().map(|listing| listing.id.as_str()).collect();
    assert_eq!(ids, ["c", "a", "b"]);
}

fn wide_catalog(inputs: usize) -> Catalog {
    let mut skins: Vec<Skin> = (0..inputs)
        .map(|index| {
            let mut skin = test_skin(0.45, 1.0);
            skin.id = format!("input-{index}");
            skin
        })
        .collect();
    let mut target = test_skin(0.0, 1.0);
    target.id = "target".to_owned();
    target.rarity = Rarity::Covert;
    skins.push(target);
    Catalog::from_fixture(
        "v".to_owned(),
        SourceMetadata {
            name: String::new(),
            url: String::new(),
            license: String::new(),
            retrieved_at: String::new(),
            note: String::new(),
        },
        skins,
        Vec::new(),
    )
}

#[test]
fn unknown_targets_and_wide_pools_are_not_searched() {
    assert!(skins_to_search(&wide_catalog(1), "nothing").is_err());
    assert_eq!(skins_to_search(&wide_catalog(5), "target").unwrap().len(), 5);
    match skins_to_search(&wide_catalog(6), "target") {
        Err(PlannerError::Catalog(text)) => {
            assert!(text.starts_with("Steam Market request budget exceeded: this plan needs 6 "))
        }
        other => panic!("unexpected: {other:?}"),
    }
}

#[test]
fn a_plan_asks_for_twenty_pages_at_most() {
    let item = market_hash_name(&test_skin(0.45, 1.0), "Battle-Scarred", false);
    let pages = (0..10)
        .map(|start| {
            let entry = listing(&format!("listing-{start}"), &item, 0.5, 1, 0, "PAYLOAD");
            (start, steam_html(&page(true, &[entry])))
        })
        .collect();
    let mut market = FixtureMarket::new(pages);
    let listings = market.fetch_for_plan(&wide_catalog(5), "target").unwrap();
    assert_eq!(market.calls, 20);
    // The ten listings of every skin have the same ids.
    assert_eq!(listings.len(), 10);
    // Two skins were searched to the end; the others were not, and are not kept.
    assert_eq!(market.cache.len(), 2);
    market.fetch_for_plan(&wide_catalog(5), "target").unwrap();
    assert_eq!(market.calls, 40);
    assert_eq!(market.cache.len(), 4);
}

#[test]
fn requests_keep_their_distance() {
    assert_eq!(pause_before_request(None, 100), 0);
    assert_eq!(pause_before_request(Some(30), 100), 70);
    assert_eq!(pause_before_request(Some(100), 100), 0);
    assert!(is_fresh(9, 10));
    assert!(!is_fresh(10, 10));
}

#[test]
fn providers_have_names() {
    assert_eq!(choose_provider("none").unwrap(), ProviderKind::Disabled);
    assert_eq!(choose_provider("steam_market").unwrap(), ProviderKind::SteamCommunityMarket);
    assert!(choose_provider("Steam").is_err());
    assert_eq!(provider_from_setting(None).unwrap(), ProviderKind::SteamCommunityMarket);
    assert_eq!(provider_from_setting(Some("DISABLED")).unwrap(), ProviderKind::Disabled);
    assert_eq!(provider_from_setting(Some("Steam")).unwrap(), ProviderKind::SteamCommunityMarket);
    assert!(provider_from_setting(Some("BITSKINS")).unwrap_err().contains("bitskins"));
    assert_eq!(disabled_status().provider, "disabled");
    let status = steam_status(60, 1500, 3);
    assert!(status.enabled);
    assert_eq!(
        (status.cache_ttl_seconds, status.minimum_request_interval_ms, status.cached_searches),
        (60, 1500, 3)
    );
    assert_eq!(status.max_candidates_per_skin, 200);
}

#[test]
fn a_market_base_ends_with_a_slash() {
    assert_eq!(
        market_base(None).unwrap(),
        "https://steamcommunity.com/market/listings/730/"
    );
    assert_eq!(market_base(Some("HTTP://Localhost:80/x/")).unwrap(), "http://localhost/x/");
    assert_eq!(
        market_base(Some("https://example.test/x")).unwrap_err(),
        "STEAM_MARKET_BASE_URL must end with /"
    );
    assert!(market_base(Some("x"))
        .unwrap_err()
        .starts_with("STEAM_MARKET_BASE_URL must be a valid URL: "));
    assert_eq!(
        accept_base(Err("why".to_owned())).unwrap_err(),
        "STEAM_MARKET_BASE_URL must be a valid URL: why"
    );
}
