use cs_float_planner::api::{error_status, health};
use cs_float_planner::catalog::{Catalog, SourceMetadata};
use cs_float_planner::desktop::{
    is_corrupt, import_files, migration_steps, plan_with_market, read_switch, save_failure,
    switch_text, DesktopSettings, JsonFiles, KeptRows, MarketAnswer,
};
use cs_float_planner::domain::{
    FixtureListing, Float32, Float32Value, PlanRequest, PlannerError, PlanningPriority, Rarity,
    Skin, TargetConstraint,
};
use cs_float_planner::market::{page_error, steam_status, PageFault};
use cs_float_planner::regression::RegressionRecord;
use cs_float_planner::sync::SyncStatus;
use cs_float_planner::text::{compare_text, decimal_text, parse_u32, parse_u64, trim_text, Relation};

fn float(x: f32) -> Float32 {
    Float32::from_bits(x.to_bits())
}

fn skin(id: &str, rarity: Rarity) -> Skin {
    Skin {
        id: id.to_owned(),
        name: id.to_owned(),
        collection_id: "one".to_owned(),
        collection_name: "One".to_owned(),
        rarity,
        min_float: float(0.0),
        max_float: float(1.0),
        stattrak_supported: false,
        def_index: None,
        paint_index: None,
    }
}

fn offer(index: u64, price: u64) -> FixtureListing {
    FixtureListing {
        id: format!("offer-{index}"),
        skin_id: "input".to_owned(),
        float_value: float(0.5),
        price_cents: price,
        market_url: "https://example.test".to_owned(),
        source: "fixture".to_owned(),
        inspect_link: None,
    }
}

fn catalog() -> Catalog {
    Catalog::from_fixture(
        "fixture-v1".to_owned(),
        SourceMetadata {
            name: "fixture".to_owned(),
            url: "https://example.test/catalog".to_owned(),
            license: "CC0".to_owned(),
            retrieved_at: "today".to_owned(),
            note: String::new(),
        },
        vec![skin("input", Rarity::Classified), skin("output", Rarity::Covert)],
        (0..10).map(|index| offer(index, 7)).collect(),
    )
}

fn request() -> PlanRequest {
    PlanRequest {
        target_skin_id: "output".to_owned(),
        target: TargetConstraint::Exact { value: float(0.5) },
        delta: float(0.0001),
        stattrak: false,
        owned_inputs: Vec::new(),
        priority: PlanningPriority::Cheapest,
        listing_limit: None,
    }
}

#[test]
fn errors_have_status_codes() {
    assert_eq!(error_status(&PlannerError::Validation("x".to_owned())), 422);
    assert_eq!(error_status(&PlannerError::Catalog("broken".to_owned())), 500);
    assert_eq!(
        error_status(&PlannerError::Catalog("Steam Market listing request failed".to_owned())),
        502
    );
    assert_eq!(health().status, "ok");
    assert_eq!(health().service, "cs-float-planner-api");
}

#[test]
fn live_data_needs_consent() {
    for (enabled, acknowledged) in [(false, false), (false, true), (true, false), (true, true)] {
        let settings = DesktopSettings {
            market_enabled: enabled,
            live_market_notice_acknowledged: acknowledged,
        };
        assert_eq!(settings.allow_market(), enabled && acknowledged);
        let shown = settings.shown_status(steam_status(1, 2, 3));
        assert_eq!(shown.enabled, enabled && acknowledged);
    }
}

#[test]
fn answers_become_warnings() {
    assert_eq!(MarketAnswer::NotAsked.warning(), None);
    assert_eq!(MarketAnswer::Listings(Some(Vec::new())).warning(), None);
    assert_eq!(
        MarketAnswer::Failed(PlannerError::Catalog("down".to_owned())).warning().unwrap(),
        "Steam Market temporarily unavailable (internal catalog error: down). The plan below is ideal_math and contains no price or listing claim."
    );
    assert!(MarketAnswer::TimedOut.warning().unwrap().contains("30-second"));
}

#[test]
fn a_plan_says_where_its_listings_come_from() {
    let plan = |answer: MarketAnswer| plan_with_market(&catalog(), request(), answer).unwrap();

    let local = plan(MarketAnswer::NotAsked);
    assert!(local.pricing_available);
    assert_eq!(local.total_price_cents, 70);
    assert_eq!(plan(MarketAnswer::Listings(None)).total_price_cents, 70);

    let live = plan(MarketAnswer::Listings(Some((0..10).map(|i| offer(i, 3)).collect())));
    assert_eq!(live.total_price_cents, 30);

    for answer in [
        MarketAnswer::TimedOut,
        MarketAnswer::Failed(PlannerError::Catalog("down".to_owned())),
    ] {
        let warning = answer.warning().unwrap();
        let ideal = plan(answer);
        assert_eq!(
            ideal.message,
            "Live Steam data is unavailable; a local ideal_math plan is shown."
        );
        assert_eq!(ideal.warnings[0], warning);
        assert!(!ideal.pricing_available);
        assert_eq!(ideal.total_price_cents, 0);
        for row in &ideal.selected_inputs {
            assert_eq!(row.source, "ideal_math");
            assert_eq!(row.price_cents, None);
            assert_eq!(row.market_url, None);
        }
    }

    let mut unknown = request();
    unknown.target_skin_id = "nothing".to_owned();
    assert!(plan_with_market(&catalog(), unknown, MarketAnswer::TimedOut).is_err());
}

fn record(id: &str, submitted_at: u64) -> RegressionRecord {
    RegressionRecord {
        id: id.to_owned(),
        submitted_at,
        inputs: Vec::new(),
        actual_output_skin_id: "output".to_owned(),
        actual_output_float: Float32Value::new(float(0.5)),
        evidence_url: None,
        note: None,
        catalog_schema_version: "fixture-v1".to_owned(),
        catalog_source_url: "https://example.test".to_owned(),
        predicted_float: Float32Value::new(float(0.5)),
        exact_float32_match: true,
        absolute_difference: Float32Value::new(float(0.0)),
    }
}

#[test]
fn json_files_are_taken_over_once() {
    let files = || JsonFiles {
        catalog: Some(catalog().to_persisted()),
        status: Some(SyncStatus::initial(true, 60, "data")),
        records: Some(vec![record("a", 1), record("b", 2), record("a", 3), record("c", 4)]),
    };
    let mut kept = KeptRows {
        active: false,
        state: false,
        versions: Vec::new(),
        record_ids: vec!["c".to_owned()],
    };
    let first = import_files(&kept, files());
    assert_eq!(first.catalog.as_ref().unwrap().schema_version, "fixture-v1");
    assert!(first.new_version);
    assert_eq!(first.status.unwrap().interval_seconds, 60);
    let taken: Vec<(&str, u64)> =
        first.records.iter().map(|record| (record.id.as_str(), record.submitted_at)).collect();
    assert_eq!(taken, [("a", 1), ("b", 2)]);

    kept.active = true;
    kept.state = true;
    kept.versions.push("fixture-v1".to_owned());
    kept.record_ids.extend(first.records.iter().map(|record| record.id.clone()));
    let second = import_files(&kept, files());
    assert!(second.catalog.is_none() && !second.new_version && second.status.is_none());
    assert!(second.records.is_empty());

    // A version that is kept but not active is made active as it is.
    kept.active = false;
    let known = import_files(&kept, files());
    assert!(known.catalog.is_some() && !known.new_version);

    let mut unsound = files();
    unsound.catalog.as_mut().unwrap().skins.clear();
    unsound.records = None;
    let none = import_files(&kept, unsound);
    assert!(none.catalog.is_none() && none.records.is_empty());
}

#[test]
fn migrations_go_step_by_step() {
    let fresh = migration_steps(0, false);
    assert!(!fresh.back_up && fresh.create_base_tables && fresh.create_catalog_tables);
    let old = migration_steps(1, true);
    assert!(old.back_up && !old.create_base_tables && old.create_catalog_tables);
    let current = migration_steps(2, true);
    assert!(!current.back_up && !current.create_base_tables && !current.create_catalog_tables);
    assert!(is_corrupt("malformed"));
    assert!(!is_corrupt("ok"));
}

#[test]
fn switches_read_back() {
    for value in [true, false] {
        assert_eq!(read_switch("key", Some(switch_text(value))), Ok(value));
    }
    assert_eq!(read_switch("key", None), Err("missing local setting: key".to_owned()));
    assert_eq!(save_failure(false, "disk full".to_owned()), "disk full");
    assert!(save_failure(true, "x".to_owned()).contains("already been recorded"));
}

#[test]
fn texts_compare_as_strings_do() {
    for (a, b) in [("a", "b"), ("a", "a"), ("ab", "a"), ("é", "z"), ("", "x"), ("Z", "a")] {
        let expected = match a.cmp(b) {
            std::cmp::Ordering::Less => Relation::Before,
            std::cmp::Ordering::Equal => Relation::Same,
            std::cmp::Ordering::Greater => Relation::After,
        };
        assert_eq!(compare_text(a, b), expected);
    }
}

#[test]
fn whole_numbers_read_as_the_standard_library_reads_them() {
    for text in ["", "0", "007", "+5", "-5", "4294967295", "4294967296", "18446744073709551615",
        "18446744073709551616", " 1", "1a", "+", "1_0"]
    {
        assert_eq!(parse_u32(text), text.parse::<u32>().ok(), "{text}");
        assert_eq!(parse_u64(text), text.parse::<u64>().ok(), "{text}");
    }
    for n in [0u128, 9, 10, 12_345_678_901_234_567_890_123] {
        assert_eq!(decimal_text(n), n.to_string());
    }
}

#[test]
fn trimming_drops_white_space_alone() {
    for code in 0..0x1_1000u32 {
        if let Some(c) = char::from_u32(code) {
            let text = format!("{c}x{c}");
            assert_eq!(trim_text(&text), text.trim(), "{code:#x}");
        }
    }
    assert_eq!(trim_text(" \t\n "), "");
    assert_eq!(trim_text("a  b"), "a  b");
}

#[test]
fn page_faults_are_bad_gateways() {
    for (fault, text) in [
        (PageFault::Request("x".to_owned()), "Steam Market listing request failed: x"),
        (PageFault::Status("429".to_owned()), "Steam Market listing request returned HTTP 429"),
        (
            PageFault::Unreadable("x".to_owned()),
            "Steam Market listing response could not be read: x",
        ),
        (PageFault::Invalid("x".to_owned()), "Steam Market listing HTML is invalid: x"),
    ] {
        let error = page_error(fault);
        assert_eq!(error_status(&error), 502);
        assert_eq!(error.to_text(), format!("internal catalog error: {text}"));
    }
}
