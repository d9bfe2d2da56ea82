use cs_float_planner::catalog::{
    Catalog, SourceMetadata, UpstreamCollection, UpstreamRarity, UpstreamSkin,
};
use cs_float_planner::domain::{
    adjusted_float, analyze_contract, average_adjusted, output_float, plan_is_defined,
    plan_reverse, preview_partial_contract, wear_info, AnalyzeRequest, FixtureListing, Float32,
    Float32Value, InputRequest, PartialAnalyzeRequest, PartialInputRequest, PlanRequest,
    PlannerError, PlanningPriority, Rarity, Skin, TargetConstraint,
};
use cs_float_planner::beam::search_combinations_beam;
use cs_float_planner::planner::default_delta;
use cs_float_planner::search::{search_combinations, Aim, Candidate};

fn float(x: f32) -> Float32 {
    Float32::from_bits(x.to_bits())
}

fn native(x: Float32) -> f32 {
    f32::from_bits(x.to_bits())
}

fn skin(id: &str, name: &str, rarity: Rarity, min: f32, max: f32) -> Skin {
    Skin {
        id: id.to_owned(),
        name: name.to_owned(),
        collection_id: "cobblestone".to_owned(),
        collection_name: "The Cobblestone Collection".to_owned(),
        rarity,
        min_float: float(min),
        max_float: float(max),
        stattrak_supported: false,
        def_index: None,
        paint_index: None,
    }
}

fn offer(id: &str, skin_id: &str, value: f32, price: u64) -> FixtureListing {
    FixtureListing {
        id: id.to_owned(),
        skin_id: skin_id.to_owned(),
        float_value: float(value),
        price_cents: price,
        market_url: format!("https://example.test/{id}"),
        source: "fixture".to_owned(),
        inspect_link: None,
    }
}

fn source() -> SourceMetadata {
    SourceMetadata {
        name: "fixture".to_owned(),
        url: "https://example.test/catalog".to_owned(),
        license: "CC0".to_owned(),
        retrieved_at: "2026-07-20".to_owned(),
        note: "fixture".to_owned(),
    }
}

/// A small catalog: one covert skin, and the classified skin that leads to it.
fn embedded() -> Catalog {
    Catalog::from_fixture(
        "fixture-v1".to_owned(),
        source(),
        vec![
            skin("m4a1s-knight", "M4A1-S | Knight", Rarity::Classified, 0.0, 0.1),
            skin("awp-dragon-lore", "AWP | Dragon Lore", Rarity::Covert, 0.0, 0.7),
        ],
        (0..8)
            .map(|index| {
                offer(
                    &format!("fixture-{index}"),
                    "m4a1s-knight",
                    0.0210 + index as f32 * 0.0001,
                    1_000 + index,
                )
            })
            .collect(),
    )
}

fn input(skin_id: &str, value: f32) -> InputRequest {
    InputRequest { skin_id: skin_id.to_owned(), float_value: float(value), inspect_link: None }
}

fn upstream(
    id: &str,
    name: &str,
    min: f32,
    max: f32,
    rarity: &str,
    stattrak: bool,
) -> UpstreamSkin {
    UpstreamSkin {
        id: id.to_owned(),
        name: name.to_owned(),
        min_float: Some(float(min)),
        max_float: Some(float(max)),
        rarity: UpstreamRarity { id: rarity.to_owned() },
        stattrak,
        paint_index: None,
        weapon: None,
        collections: vec![UpstreamCollection {
            id: "collection-test".to_owned(),
            name: "Test".to_owned(),
        }],
    }
}

fn plan_request(target: &str, constraint: TargetConstraint) -> PlanRequest {
    PlanRequest {
        target_skin_id: target.to_owned(),
        target: constraint,
        delta: float(0.0001),
        stattrak: false,
        owned_inputs: Vec::new(),
        priority: PlanningPriority::Cheapest,
        listing_limit: None,
    }
}

fn exact(value: f32) -> TargetConstraint {
    TargetConstraint::Exact { value: float(value) }
}

fn ten_knights(value: f32) -> AnalyzeRequest {
    AnalyzeRequest {
        contract_size: 10,
        stattrak: false,
        inputs: (0..10).map(|_| input("m4a1s-knight", value)).collect(),
    }
}

fn validation(error: PlannerError) -> String {
    match error {
        PlannerError::Validation(text) => text,
        PlannerError::Catalog(text) => panic!("unexpected catalog error: {text}"),
    }
}

#[test]
fn normalizes_knight_and_calculates_dragon_lore_with_float32() {
    let catalog = embedded();
    let knight = catalog.skin("m4a1s-knight").unwrap();
    let dragon_lore = catalog.skin("awp-dragon-lore").unwrap();
    let adjusted = adjusted_float(float(0.01_f32), knight).unwrap();
    let average = average_adjusted(&vec![adjusted; 10], 10);
    let output = output_float(average, dragon_lore);

    // 0.01f32 / 0.1f32 is one ULP below the decimal-looking 0.1f32.
    assert_eq!(adjusted.to_bits(), 0x3dcc_cccc);
    assert_eq!(output.to_bits(), 0.07_f32.to_bits());
    assert_eq!(wear_info(output).name, "Minimal Wear");
    assert!(wear_info(output).near_boundary);
}

#[test]
fn partial_preview_exposes_possible_outcomes_and_an_honest_float_range() {
    let catalog = embedded();
    let preview = preview_partial_contract(
        &catalog,
        PartialAnalyzeRequest {
            stattrak: false,
            inputs: vec![PartialInputRequest {
                skin_id: "m4a1s-knight".to_owned(),
                float_value: None,
            }],
        },
    )
    .unwrap();

    assert_eq!(preview.selected_slots, 1);
    assert_eq!(preview.floats_specified, 0);
    assert_eq!(preview.remaining_float_slots, 10);
    let dragon_lore = preview
        .outcomes
        .iter()
        .find(|outcome| outcome.skin_id == "awp-dragon-lore")
        .unwrap();
    assert_eq!(native(dragon_lore.predicted_float_min.value), 0.0);
    assert_eq!(native(dragon_lore.predicted_float_max.value), 0.7);
    assert_eq!(native(dragon_lore.probability_min), 0.1);
    assert_eq!(native(dragon_lore.probability_max), 1.0);
}

#[test]
fn floatjitsu_regression_uses_sequential_f32_sum() {
    let cap_skin = Skin {
        id: "fixture".into(),
        name: "fixture".into(),
        collection_id: "fixture".into(),
        collection_name: "fixture".into(),
        rarity: Rarity::Classified,
        min_float: float(0.0),
        max_float: float(0.8),
        stattrak_supported: false,
        def_index: None,
        paint_index: None,
    };
    let out_skin = Skin { max_float: float(0.8), min_float: float(0.06), ..cap_skin.clone() };
    let raw = Float32::from_bits(0x3d62_d947);
    let adjusted = adjusted_float(raw, &cap_skin).unwrap();
    let average = average_adjusted(&vec![adjusted; 10], 10);
    let output = output_float(average, &out_skin);

    assert_eq!(adjusted.to_bits(), 0x3d8d_c7cc);
    assert_eq!(average.to_bits(), 0x3d8d_c7cd);
    assert_eq!(output.to_bits(), 0x3de3_cc2c);
}

#[test]
fn calculates_one_hundred_percent_dragon_lore_path() {
    let catalog = embedded();
    let response = analyze_contract(&catalog, ten_knights(0.01)).unwrap();

    assert_eq!(response.outcomes.len(), 1);
    assert_eq!(response.outcomes[0].skin_id, "awp-dragon-lore");
    assert_eq!(native(response.outcomes[0].probability), 1.0);
}

#[test]
fn rejects_mixed_rarity() {
    let catalog = embedded();
    let error = analyze_contract(
        &catalog,
        AnalyzeRequest {
            contract_size: 10,
            stattrak: false,
            inputs: (0..10)
                .map(|slot| {
                    input(if slot == 0 { "awp-dragon-lore" } else { "m4a1s-knight" }, 0.01)
                })
                .collect(),
        },
    )
    .unwrap_err();

    assert!(error.to_text().contains("outside") || error.to_text().contains("same rarity"));
}

#[test]
fn reverse_plan_keeps_owned_slots_and_fills_the_rest() {
    let catalog = embedded();
    let mut request = plan_request("awp-dragon-lore", exact(0.15));
    request.owned_inputs = (0..5).map(|_| input("m4a1s-knight", 0.021_428_57)).collect();
    assert!(plan_is_defined(&catalog, &request));
    let plan = plan_reverse(&catalog, request).unwrap();

    assert_eq!(plan.selected_inputs.len(), 10);
    assert_eq!(plan.selected_inputs.iter().filter(|input| input.owned).count(), 5);
    assert_eq!(plan.status, "within_tolerance");
    assert_eq!(plan.target_probability, "100.00%");
}

#[test]
fn full_catalog_without_listings_returns_an_ideal_math_contract() {
    let catalog = Catalog::from_upstream_snapshot(
        &vec![
            upstream("classified", "Input", 0.0, 1.0, "rarity_legendary_weapon", true),
            upstream("covert", "Target", 0.06, 0.8, "rarity_ancient_weapon", true),
        ],
        "test",
        "now".to_owned(),
    )
    .unwrap();
    let request = plan_request("collection-test/covert", exact(0.15));
    assert!(plan_is_defined(&catalog, &request));
    let plan = plan_reverse(&catalog, request).unwrap();

    assert!(plan.selected_inputs.iter().all(|input| input.source == "ideal_math"));
    assert!(!plan.pricing_available);
    assert_eq!(plan.status, "exact");
}

#[test]
fn large_listing_pool_uses_combination_search_without_reusing_listings() {
    let catalog = embedded();
    let listings = (0..200)
        .map(|index| FixtureListing {
            id: format!("live-{index}"),
            skin_id: "m4a1s-knight".to_owned(),
            float_value: float(0.021_25 + index as f32 * 0.000_01),
            price_cents: 10_000 + index,
            market_url: format!("https://example.test/item/{index}"),
            source: "steam_community_market".to_owned(),
            inspect_link: Some(format!("steam://inspect/{index}")),
        })
        .collect();
    let catalog = catalog.with_listings(listings);
    let mut request = plan_request("awp-dragon-lore", exact(0.15));
    request.listing_limit = Some(200);
    assert!(plan_is_defined(&catalog, &request));
    let plan = plan_reverse(&catalog, request).unwrap();
    let listing_ids = plan
        .selected_inputs
        .iter()
        .filter_map(|input| input.listing_id.as_ref())
        .collect::<std::collections::HashSet<_>>();

    assert!(plan.optimizer.starts_with("bounded beam search"));
    assert_eq!(plan.selected_inputs.len(), 10);
    assert_eq!(listing_ids.len(), 10);
    assert!(plan.pricing_available);
}

#[test]
fn a_contract_is_reported_slot_by_slot() {
    let catalog = embedded();
    let response = analyze_contract(&catalog, ten_knights(0.01)).unwrap();

    assert!(response.valid);
    assert_eq!(response.contract_size, 10);
    assert_eq!(response.input_rarity, Rarity::Classified);
    assert_eq!(response.inputs.len(), 10);
    assert_eq!(response.inputs[3].slot, 4);
    assert_eq!(response.inputs[3].skin_name, "M4A1-S | Knight");
    assert_eq!(response.inputs[3].raw_float.display, "0.010000000");
    assert_eq!(response.inputs[3].raw_float.bits, 0.01_f32.to_bits());
    assert_eq!(response.outcomes[0].probability_percent, "100.00%");
    assert_eq!(response.outcomes[0].predicted_float.bits, 0.07_f32.to_bits());
    assert_eq!(response.warnings.len(), 2);
}

#[test]
fn outcomes_of_several_collections_share_the_odds() {
    let mut other_input = skin("other-input", "Other Input", Rarity::Classified, 0.0, 1.0);
    other_input.collection_id = "other".to_owned();
    let mut other_a = skin("other-a", "Other A", Rarity::Covert, 0.0, 1.0);
    other_a.collection_id = "other".to_owned();
    let mut other_b = skin("other-b", "Other B", Rarity::Covert, 0.1, 0.9);
    other_b.collection_id = "other".to_owned();
    let catalog = Catalog::from_fixture(
        "fixture-v1".to_owned(),
        source(),
        vec![
            skin("m4a1s-knight", "M4A1-S | Knight", Rarity::Classified, 0.0, 0.1),
            skin("awp-dragon-lore", "AWP | Dragon Lore", Rarity::Covert, 0.0, 0.7),
            other_input,
            other_a,
            other_b,
        ],
        Vec::new(),
    );
    let mut inputs: Vec<InputRequest> = (0..6).map(|_| input("m4a1s-knight", 0.05)).collect();
    inputs.extend((0..4).map(|_| input("other-input", 0.5)));
    let response = analyze_contract(
        &catalog,
        AnalyzeRequest { contract_size: 10, stattrak: false, inputs },
    )
    .unwrap();

    // Six inputs of ten lead to the one outcome, four to either of the other two.
    let odds: Vec<(&str, f32, &str)> = response
        .outcomes
        .iter()
        .map(|o| (o.skin_id.as_str(), native(o.probability), o.probability_percent.as_str()))
        .collect();
    assert_eq!(odds.len(), 3);
    assert!(odds.contains(&("awp-dragon-lore", 0.6, "60.00%")));
    assert!(odds.contains(&("other-a", 0.2, "20.00%")));
    assert!(odds.contains(&("other-b", 0.2, "20.00%")));
    assert_eq!(native(response.average_adjusted.value), 0.5);
}

#[test]
fn contracts_are_turned_down_with_a_reason() {
    let catalog = embedded();

    let mut wrong_size = ten_knights(0.01);
    wrong_size.contract_size = 7;
    assert_eq!(
        validation(analyze_contract(&catalog, wrong_size).unwrap_err()),
        "contract_size must be either 5 or 10"
    );

    let mut short = ten_knights(0.01);
    short.inputs.pop();
    assert_eq!(
        validation(analyze_contract(&catalog, short).unwrap_err()),
        "contract requires exactly 10 inputs, received 9"
    );

    let mut five = ten_knights(0.01);
    five.contract_size = 5;
    five.inputs.truncate(5);
    assert!(validation(analyze_contract(&catalog, five).unwrap_err()).starts_with("5 Covert"));

    let mut unknown = ten_knights(0.01);
    unknown.inputs[2].skin_id = "nothing".to_owned();
    assert_eq!(
        validation(analyze_contract(&catalog, unknown).unwrap_err()),
        "unknown skin_id: nothing"
    );

    let mut stattrak = ten_knights(0.01);
    stattrak.stattrak = true;
    assert_eq!(
        validation(analyze_contract(&catalog, stattrak).unwrap_err()),
        "M4A1-S | Knight has no StatTrak variant in the catalog"
    );

    let mut outside = ten_knights(0.01);
    outside.inputs[9].float_value = float(0.2);
    assert_eq!(
        validation(analyze_contract(&catalog, outside).unwrap_err()),
        "float 0.200000003 is outside M4A1-S | Knight cap [0.000000000, 0.100000001]"
    );

    let mut infinite = ten_knights(0.01);
    infinite.inputs[0].float_value = float(f32::INFINITY);
    assert_eq!(
        validation(analyze_contract(&catalog, infinite).unwrap_err()),
        "float for M4A1-S | Knight must be finite"
    );

    let top = AnalyzeRequest {
        contract_size: 10,
        stattrak: false,
        inputs: (0..10).map(|_| input("awp-dragon-lore", 0.5)).collect(),
    };
    assert!(analyze_contract(&catalog, top).is_err());
}

#[test]
fn caps_without_width_are_a_catalog_error() {
    let flat = skin("flat", "Flat", Rarity::Classified, 0.3, 0.3);
    match adjusted_float(float(0.3), &flat) {
        Err(PlannerError::Catalog(text)) => assert_eq!(text, "Flat has an invalid float cap"),
        other => panic!("unexpected: {other:?}"),
    }
    assert_eq!(
        PlannerError::Catalog("Flat has an invalid float cap".to_owned()).to_text(),
        "internal catalog error: Flat has an invalid float cap"
    );
}

#[test]
fn a_preview_with_known_floats_narrows_the_range() {
    let catalog = embedded();
    let preview = preview_partial_contract(
        &catalog,
        PartialAnalyzeRequest {
            stattrak: false,
            inputs: (0..4)
                .map(|slot| PartialInputRequest {
                    skin_id: "m4a1s-knight".to_owned(),
                    float_value: if slot < 2 { Some(float(0.05)) } else { None },
                })
                .collect(),
        },
    )
    .unwrap();

    assert_eq!(preview.selected_slots, 4);
    assert_eq!(preview.floats_specified, 2);
    assert_eq!(preview.remaining_float_slots, 8);
    // Two halves of ten, and two halves with eight whole shares.
    assert_eq!(native(preview.outcomes[0].predicted_float_min.value), 0.1_f32 * 0.7_f32);
    assert_eq!(native(preview.outcomes[0].predicted_float_max.value), 0.9_f32 * 0.7_f32);
    assert_eq!(native(preview.outcomes[0].probability_min), 0.4);
    assert_eq!(native(preview.outcomes[0].probability_max), 1.0);

    for inputs in [0, 11] {
        let error = preview_partial_contract(
            &catalog,
            PartialAnalyzeRequest {
                stattrak: false,
                inputs: (0..inputs)
                    .map(|_| PartialInputRequest {
                        skin_id: "m4a1s-knight".to_owned(),
                        float_value: None,
                    })
                    .collect(),
            },
        )
        .unwrap_err();
        assert_eq!(
            validation(error),
            "choose between 1 and 10 contract inputs for a preview"
        );
    }
}

#[test]
fn wear_is_named_by_its_boundaries() {
    for (value, name) in [
        (0.0, "Factory New"),
        (0.069_999, "Factory New"),
        (0.07, "Minimal Wear"),
        (0.15, "Field-Tested"),
        (0.38, "Well-Worn"),
        (0.45, "Battle-Scarred"),
        (1.0, "Battle-Scarred"),
    ] {
        assert_eq!(wear_info(float(value)).name, name);
    }
    let info = wear_info(float(0.2));
    assert_eq!(native(info.nearest_boundary.value), 0.15);
    assert_eq!(native(info.distance_to_nearest_boundary.value), 0.2_f32 - 0.15_f32);
    assert!(!info.near_boundary);
}

#[test]
fn a_reported_number_shows_its_bits() {
    let shown = Float32Value::new(float(0.1));
    assert_eq!(shown.bits, 0x3dcc_cccd);
    assert_eq!(shown.display, "0.100000001");
}

#[test]
fn rarities_step_up_and_down() {
    assert_eq!(Rarity::Consumer.previous(), None);
    assert_eq!(Rarity::Consumer.next(), Some(Rarity::Industrial));
    assert_eq!(Rarity::Covert.previous(), Some(Rarity::Classified));
    assert_eq!(Rarity::Extraordinary.next(), None);
    assert_eq!(Rarity::Classified.name(), "Classified");
    for lower in [
        Rarity::Consumer,
        Rarity::Industrial,
        Rarity::MilSpec,
        Rarity::Restricted,
        Rarity::Classified,
        Rarity::Covert,
    ] {
        if let Some(upper) = lower.next() {
            if let Some(back) = upper.previous() {
                assert_eq!(back, lower);
            }
        }
    }
}

#[test]
fn bounds_follow_the_kind_of_target() {
    let (low, high) = (float(0.06), float(0.8));
    let delta = default_delta();
    assert_eq!(native(delta), 0.0001);

    let (min, max, center) = exact(0.15).requested_bounds(delta, low, high).unwrap();
    assert_eq!(native(min), 0.15_f32 - 0.0001_f32);
    assert_eq!(native(max), 0.15_f32 + 0.0001_f32);
    assert_eq!(native(center), 0.15);

    let maximum = TargetConstraint::Maximum { value: float(0.2) };
    let (min, max, center) = maximum.requested_bounds(delta, low, high).unwrap();
    assert_eq!((native(min), native(max)), (0.06, 0.2_f32 + 0.0001_f32));
    assert_eq!(native(center), 0.2);

    let range = TargetConstraint::Range { min: float(0.1), max: float(0.3) };
    let (min, max, center) = range.requested_bounds(delta, low, high).unwrap();
    assert_eq!((native(min), native(max)), (0.1_f32 - 0.0001_f32, 0.3_f32 + 0.0001_f32));
    assert_eq!(native(center), (0.1_f32 + 0.3_f32) / 2.0);

    // What lies outside the caps is drawn in.
    let (min, max, center) = exact(0.01).requested_bounds(delta, low, high).unwrap();
    assert_eq!((native(min), native(max)), (0.06, 0.01_f32 + 0.0001_f32));
    assert_eq!(native(center), 0.06);

    let upside_down = TargetConstraint::Range { min: float(0.3), max: float(0.1) };
    assert_eq!(
        validation(upside_down.requested_bounds(delta, low, high).unwrap_err()),
        "target range min must not exceed max"
    );
    assert_eq!(
        validation(exact(0.1).requested_bounds(float(-0.1), low, high).unwrap_err()),
        "delta must be a finite non-negative float"
    );
    assert_eq!(
        validation(exact(f32::INFINITY).requested_bounds(delta, low, high).unwrap_err()),
        "target constraint must contain finite floats"
    );
}

#[test]
fn plans_are_turned_down_with_a_reason() {
    let catalog = embedded();
    let fails = |request: PlanRequest| {
        assert!(plan_is_defined(&catalog, &request));
        validation(plan_reverse(&catalog, request).unwrap_err())
    };

    assert!(fails(plan_request("nothing", exact(0.15))).contains("nothing"));

    let mut stattrak = plan_request("awp-dragon-lore", exact(0.15));
    stattrak.stattrak = true;
    assert!(fails(stattrak).contains("StatTrak"));

    let mut crowded = plan_request("awp-dragon-lore", exact(0.15));
    crowded.owned_inputs = (0..11).map(|_| input("m4a1s-knight", 0.02)).collect();
    fails(crowded);

    let mut foreign = plan_request("awp-dragon-lore", exact(0.15));
    foreign.owned_inputs = vec![input("awp-dragon-lore", 0.02)];
    fails(foreign);

    let mut negative = plan_request("awp-dragon-lore", exact(0.15));
    negative.delta = float(-0.1);
    fails(negative);

    fails(plan_request("m4a1s-knight", exact(0.05)));
}

#[test]
fn upside_down_caps_leave_a_plan_undefined() {
    let catalog = Catalog::from_fixture(
        "fixture-v1".to_owned(),
        source(),
        vec![skin("odd", "Odd", Rarity::Covert, 0.7, 0.1)],
        Vec::new(),
    );
    assert!(!plan_is_defined(&catalog, &plan_request("odd", exact(0.15))));
    assert!(plan_is_defined(&catalog, &plan_request("missing", exact(0.15))));
}

#[test]
fn a_full_set_of_owned_inputs_needs_no_listing() {
    let catalog = embedded();
    let mut request = plan_request("awp-dragon-lore", exact(0.15));
    request.owned_inputs = (0..10).map(|_| input("m4a1s-knight", 0.021_428_57)).collect();
    let plan = plan_reverse(&catalog, request).unwrap();
    assert_eq!(plan.selected_inputs.len(), 10);
    assert!(plan.selected_inputs.iter().all(|input| input.owned));
    assert_eq!(plan.total_price_cents, 0);
}

#[test]
fn the_priority_decides_between_cheap_and_close() {
    let listings = vec![
        offer("far", "m4a1s-knight", 0.0214, 10),
        offer("close", "m4a1s-knight", 0.021_428_57, 20),
    ];
    let catalog = embedded().with_listings(listings);
    let owned = || (0..9).map(|_| input("m4a1s-knight", 0.021_428_57)).collect::<Vec<_>>();

    let mut cheapest = plan_request("awp-dragon-lore", exact(0.15));
    cheapest.owned_inputs = owned();
    let plan = plan_reverse(&catalog, cheapest).unwrap();
    assert_eq!(plan.selected_inputs[9].listing_id.as_deref(), Some("far"));
    assert_eq!(plan.total_price_cents, 10);

    let mut closest = plan_request("awp-dragon-lore", exact(0.15));
    closest.owned_inputs = owned();
    closest.priority = PlanningPriority::Closest;
    let plan = plan_reverse(&catalog, closest).unwrap();
    assert_eq!(plan.selected_inputs[9].listing_id.as_deref(), Some("close"));
    assert_eq!(plan.total_price_cents, 20);
    assert_eq!(plan.selected_inputs[9].price_cents, Some(20));
    assert!(!plan.selected_inputs[9].owned);
}

#[test]
fn the_exhaustive_search_misses_no_better_choice() {
    let listings: Vec<FixtureListing> = (0..7)
        .map(|index| {
            offer(
                &format!("offer-{index}"),
                "m4a1s-knight",
                0.019 + (index * index % 11) as f32 * 0.0005,
                500 - (index * 37 % 100) as u64,
            )
        })
        .collect();
    let catalog = embedded().with_listings(listings);
    let knight = catalog.skin("m4a1s-knight").unwrap();
    let target = catalog.skin("awp-dragon-lore").unwrap();
    let mut request = plan_request("awp-dragon-lore", exact(0.15));
    request.owned_inputs = (0..7).map(|_| input("m4a1s-knight", 0.02)).collect();
    request.priority = PlanningPriority::Closest;
    let plan = plan_reverse(&catalog, request).unwrap();

    let share = |value: Float32| adjusted_float(value, knight).unwrap();
    let pool = catalog.fixture_listings_for_skins(&vec!["m4a1s-knight".to_owned()], 200);
    let mut best = f32::INFINITY;
    for a in 0..pool.len() {
        for b in a + 1..pool.len() {
            for c in b + 1..pool.len() {
                let mut shares = vec![share(float(0.02)); 7];
                for i in [a, b, c] {
                    shares.push(share(pool[i].float_value));
                }
                let output = output_float(average_adjusted(&shares, 10), target);
                best = best.min((native(output) - 0.15).abs());
            }
        }
    }
    assert_eq!(native(plan.target_distance.value), best);
}

#[test]
fn an_unreachable_target_gets_the_best_effort() {
    let listings = (0..10).map(|i| offer(&format!("o{i}"), "m4a1s-knight", 0.09, 5)).collect();
    let catalog = embedded().with_listings(listings);
    let plan = plan_reverse(&catalog, plan_request("awp-dragon-lore", exact(0.01))).unwrap();
    assert_eq!(plan.total_price_cents, 50);
    assert_ne!(plan.status, "within_tolerance");
    assert_ne!(plan.status, "exact");
}

#[test]
fn an_ideal_contract_asks_for_exact_floats() {
    let catalog = embedded().with_listings(Vec::new());
    let mut request = plan_request("awp-dragon-lore", exact(0.35));
    request.owned_inputs = vec![input("m4a1s-knight", 0.05)];
    let plan = plan_reverse(&catalog, request).unwrap();
    assert_eq!(plan.selected_inputs.len(), 10);
    assert!(plan.selected_inputs[0].owned);
    for row in &plan.selected_inputs[1..] {
        assert_eq!(row.source, "ideal_math");
        assert!((native(row.float_value.value) - 0.05).abs() < 0.000_01);
        assert_eq!(row.price_cents, None);
    }
    assert_eq!(plan.total_price_cents, 0);
}

#[test]
fn a_plan_agrees_with_the_analysis_of_its_contract() {
    let catalog = embedded();
    let mut request = plan_request("awp-dragon-lore", exact(0.15));
    request.owned_inputs = (0..4).map(|_| input("m4a1s-knight", 0.03)).collect();
    let plan = plan_reverse(&catalog, request).unwrap();
    let inputs = plan
        .selected_inputs
        .iter()
        .map(|row| InputRequest {
            skin_id: row.skin_id.clone(),
            float_value: row.float_value.value,
            inspect_link: None,
        })
        .collect();
    let analysis = analyze_contract(
        &catalog,
        AnalyzeRequest { contract_size: 10, stattrak: false, inputs },
    )
    .unwrap();
    assert_eq!(analysis.outcomes[0].predicted_float.bits, plan.predicted_target_float.bits);
}

#[test]
fn a_greater_share_gives_no_smaller_output() {
    let target = skin("out", "Out", Rarity::Covert, 0.06, 0.8);
    let mut last = f32::NEG_INFINITY;
    for step in 0..=1_000 {
        let output = native(output_float(float(step as f32 / 1_000.0), &target));
        assert!(output >= last);
        assert!(output >= 0.06);
        last = output;
    }
}

#[test]
fn shares_and_averages_stay_between_zero_and_one() {
    let cap = skin("in", "In", Rarity::Classified, 0.06, 0.8);
    for raw in [0.06, 0.060_000_002, 0.43, 0.799_999_95, 0.8] {
        let share = adjusted_float(float(raw), &cap).unwrap();
        assert!((0.0..=1.0).contains(&native(share)));
        let average = average_adjusted(&vec![share; 10], 10);
        assert!((0.0..=1.0).contains(&native(average)));
    }
}

/// Two collections: one with the outcomes "A/p" and "A/q", one with "B/r" alone.
fn two_collections() -> Catalog {
    let one = |id: &str, rarity: &str, collection: &str| UpstreamSkin {
        id: id.to_owned(),
        name: id.to_owned(),
        min_float: Some(float(0.0)),
        max_float: Some(float(1.0)),
        rarity: UpstreamRarity { id: rarity.to_owned() },
        stattrak: false,
        paint_index: None,
        weapon: None,
        collections: vec![UpstreamCollection {
            id: collection.to_owned(),
            name: collection.to_owned(),
        }],
    };
    Catalog::from_upstream_snapshot(
        &vec![
            one("i", "rarity_legendary_weapon", "A"),
            one("p", "rarity_ancient_weapon", "A"),
            one("q", "rarity_ancient_weapon", "A"),
            one("k", "rarity_legendary_weapon", "B"),
            one("r", "rarity_ancient_weapon", "B"),
        ],
        "test",
        "now".to_owned(),
    )
    .unwrap()
}

/// What a preview says of the odds of each outcome.
fn previewed_odds(first: usize, second: usize) -> Vec<(String, usize, f32, f32)> {
    let slot = |id: &str| PartialInputRequest { skin_id: id.to_owned(), float_value: None };
    let mut inputs: Vec<PartialInputRequest> = (0..first).map(|_| slot("A/i")).collect();
    inputs.extend((0..second).map(|_| slot("B/k")));
    preview_partial_contract(&two_collections(), PartialAnalyzeRequest { stattrak: false, inputs })
        .unwrap()
        .outcomes
        .iter()
        .map(|o| {
            (
                o.skin_id.clone(),
                o.known_inputs_from_collection,
                native(o.probability_min),
                native(o.probability_max),
            )
        })
        .collect()
}

#[test]
fn the_odds_of_a_preview_depend_on_all_chosen_slots() {
    let odds = |id: &str, known: usize, min: f32, max: f32| (id.to_owned(), known, min, max);
    assert_eq!(
        previewed_odds(5, 5),
        [odds("A/p", 5, 0.25, 0.25), odds("A/q", 5, 0.25, 0.25), odds("B/r", 5, 0.5, 0.5)]
    );
    assert_eq!(
        previewed_odds(2, 4),
        [odds("A/p", 2, 0.1, 0.3), odds("A/q", 2, 0.1, 0.3), odds("B/r", 4, 0.4, 0.8)]
    );
    assert_eq!(previewed_odds(1, 0), [odds("A/p", 1, 0.05, 0.5), odds("A/q", 1, 0.05, 0.5)]);
}

#[test]
fn a_preview_of_ten_known_floats_is_the_analysis() {
    let catalog = two_collections();
    let values = [0.013, 0.9, 0.333, 0.71, 0.0, 1.0, 0.25, 0.123_456, 0.77, 0.5];
    let id = |slot: usize| if slot % 3 == 0 { "A/i" } else { "B/k" };
    let preview = preview_partial_contract(
        &catalog,
        PartialAnalyzeRequest {
            stattrak: false,
            inputs: (0..10)
                .map(|slot| PartialInputRequest {
                    skin_id: id(slot).to_owned(),
                    float_value: Some(float(values[slot])),
                })
                .collect(),
        },
    )
    .unwrap();
    let analysis = analyze_contract(
        &catalog,
        AnalyzeRequest {
            contract_size: 10,
            stattrak: false,
            inputs: (0..10).map(|slot| input(id(slot), values[slot])).collect(),
        },
    )
    .unwrap();
    assert_eq!(preview.remaining_float_slots, 0);
    assert_eq!(preview.outcomes.len(), analysis.outcomes.len());
    for (o, x) in preview.outcomes.iter().zip(&analysis.outcomes) {
        assert_eq!(o.skin_id, x.skin_id);
        assert_eq!(o.predicted_float_min.bits, x.predicted_float.bits);
        assert_eq!(o.predicted_float_max.bits, x.predicted_float.bits);
        assert_eq!(o.probability_min, o.probability_max);
    }
}

#[test]
fn a_preview_with_gaps_bounds_the_contract_it_grows_into() {
    let catalog = two_collections();
    let known = [Some(0.31), None, Some(0.077), None, None, Some(0.999)];
    let id = |slot: usize| if slot % 2 == 0 { "A/i" } else { "B/k" };
    let preview = preview_partial_contract(
        &catalog,
        PartialAnalyzeRequest {
            stattrak: false,
            inputs: known
                .iter()
                .enumerate()
                .map(|(slot, value)| PartialInputRequest {
                    skin_id: id(slot).to_owned(),
                    float_value: value.map(float),
                })
                .collect(),
        },
    )
    .unwrap();
    for rest in [0.0, 0.123_456_7, 0.5, 1.0] {
        for filler in ["A/i", "B/k"] {
            let inputs = (0..10)
                .map(|slot| match known.get(slot) {
                    Some(value) => input(id(slot), value.unwrap_or(rest)),
                    None => input(filler, rest),
                })
                .collect();
            let analysis = analyze_contract(
                &catalog,
                AnalyzeRequest { contract_size: 10, stattrak: false, inputs },
            )
            .unwrap();
            for o in &preview.outcomes {
                let x = analysis.outcomes.iter().find(|x| x.skin_id == o.skin_id).unwrap();
                let float = native(x.predicted_float.value);
                assert!(native(o.predicted_float_min.value) < float + 0.000_01);
                assert!(float < native(o.predicted_float_max.value) + 0.000_01);
                assert!(native(o.probability_min) < native(x.probability) + 0.000_01);
                assert!(native(x.probability) < native(o.probability_max) + 0.000_01);
            }
        }
    }
}

#[test]
fn the_bounded_search_agrees_with_the_exhaustive_one_in_small_pools() {
    let catalog = embedded();
    let knight = catalog.skin("m4a1s-knight").unwrap();
    let target = catalog.skin("awp-dragon-lore").unwrap();
    let listings: Vec<FixtureListing> = (0..14)
        .map(|index| {
            offer(
                &format!("offer-{index}"),
                "m4a1s-knight",
                (index * index % 23) as f32 * 0.004,
                100 + (index * 37 % 50) as u64,
            )
        })
        .collect();
    let pool: Vec<Candidate<'_>> = listings
        .iter()
        .map(|listing| Candidate {
            listing,
            skin: knight,
            adjusted: adjusted_float(listing.float_value, knight).unwrap(),
        })
        .collect();
    let owned = vec![float(0.2); 6];
    for center in [0.05_f32, 0.17, 0.26, 0.6] {
        for priority in [PlanningPriority::Cheapest, PlanningPriority::Closest] {
            let aim = Aim {
                target,
                low: float(center - 0.01),
                high: float(center + 0.01),
                center: float(center),
            };
            let wanted = adjusted_float(float(center), target).unwrap();
            let all = search_combinations(aim, &owned, &pool, 4, priority).unwrap();
            let some =
                search_combinations_beam(aim, &owned, &pool, 4, wanted, priority).unwrap();
            assert_eq!(some.within_target, all.within_target);
            assert_eq!(some.total_price_cents, all.total_price_cents);
            assert_eq!(some.distance, all.distance);
            assert!(some.places.windows(2).all(|pair| pair[0] < pair[1]));
        }
    }
}

#[test]
fn a_preview_of_ten_slots_is_refused_with_the_contract() {
    let catalog = two_collections();
    let values = [0.5, 0.5, 0.5, 0.5, 0.5, 0.5, 0.5, 0.5, 0.5];
    for (id, value) in [("A/i", 0.5), ("A/i", 1.5), ("A/p", 0.5), ("nothing", 0.5)] {
        let mut inputs: Vec<InputRequest> =
            values.iter().map(|value| input("B/k", *value)).collect();
        inputs.push(input(id, value));
        let slots = |count: usize| PartialAnalyzeRequest {
            stattrak: false,
            inputs: inputs
                .iter()
                .take(count)
                .map(|input| PartialInputRequest {
                    skin_id: input.skin_id.clone(),
                    float_value: Some(input.float_value),
                })
                .collect(),
        };
        let full = preview_partial_contract(&catalog, slots(10)).is_ok();
        // What comes before the last slot can be previewed in any case.
        for count in 1..10 {
            assert!(preview_partial_contract(&catalog, slots(count)).is_ok());
        }
        let contract = analyze_contract(
            &catalog,
            AnalyzeRequest { contract_size: 10, stattrak: false, inputs },
        );
        assert_eq!(full, contract.is_ok());
        assert_eq!(full, id == "A/i" && value == 0.5);
    }
}

#[test]
fn reported_odds_add_up_to_one() {
    let catalog = two_collections();
    for first in 0..=10 {
        let inputs =
            (0..10).map(|slot| input(if slot < first { "A/i" } else { "B/k" }, 0.3)).collect();
        let analysis = analyze_contract(
            &catalog,
            AnalyzeRequest { contract_size: 10, stattrak: false, inputs },
        )
        .unwrap();
        let total: f64 =
            analysis.outcomes.iter().map(|outcome| f64::from(native(outcome.probability))).sum();
        assert!((total - 1.0).abs() < 0.000_01);
    }
}

#[test]
fn no_other_shares_come_nearer_than_an_ideal_contract() {
    let catalog = embedded().with_listings(Vec::new());
    let knight = catalog.skin("m4a1s-knight").unwrap();
    let target = catalog.skin("awp-dragon-lore").unwrap();
    for center in [0.0_f32, 0.05, 0.151, 0.4, 0.7] {
        for owned in [0, 3, 9] {
            let mut request = plan_request("awp-dragon-lore", exact(center));
            request.owned_inputs = (0..owned).map(|_| input("m4a1s-knight", 0.031)).collect();
            let plan = plan_reverse(&catalog, request).unwrap();
            assert!(!plan.pricing_available);
            let share = adjusted_float(float(0.031), knight).unwrap();
            for step in 0..=40 {
                let mut shares = vec![share; owned];
                shares.resize(10, float(step as f32 / 40.0));
                let output = output_float(average_adjusted(&shares, 10), target);
                let other = (native(output) - center).abs();
                assert!(native(plan.target_distance.value) < other + 0.000_01);
            }
        }
    }
}

#[test]
fn a_preview_bounds_the_contract_it_grows_into() {
    let catalog = embedded();
    let known = [0.013, 0.077, 0.1];
    let preview = preview_partial_contract(
        &catalog,
        PartialAnalyzeRequest {
            stattrak: false,
            inputs: known
                .iter()
                .map(|value| PartialInputRequest {
                    skin_id: "m4a1s-knight".to_owned(),
                    float_value: Some(float(*value)),
                })
                .collect(),
        },
    )
    .unwrap();
    let least = native(preview.outcomes[0].predicted_float_min.value);
    let greatest = native(preview.outcomes[0].predicted_float_max.value);
    assert!(least <= greatest);
    for rest in [0.0, 0.031, 0.1] {
        let mut request = ten_knights(rest);
        for (slot, value) in known.iter().enumerate() {
            request.inputs[slot].float_value = float(*value);
        }
        let predicted = native(
            analyze_contract(&catalog, request).unwrap().outcomes[0].predicted_float.value,
        );
        assert!(least <= predicted);
    }
}
