use cs_float_planner::catalog::{Catalog, SourceMetadata};
use cs_float_planner::domain::{
    Float32, Float32Value, InputRequest, PlannerError, Rarity, Skin,
};
use cs_float_planner::regression::{
    append_record, fnv1a, prepare_regression_record, regression_id, regression_status,
    validate_evidence_url, ActualContractSubmission, RegressionRecord, HASH_START,
};

fn float(x: f32) -> Float32 {
    Float32::from_bits(x.to_bits())
}

fn skin(id: &str, rarity: Rarity, min: f32, max: f32) -> Skin {
    Skin {
        id: id.to_owned(),
        name: id.to_owned(),
        collection_id: "cobblestone".to_owned(),
        collection_name: "The Cobblestone Collection".to_owned(),
        rarity,
        min_float: float(min),
        max_float: float(max),
        stattrak_supported: false,
        def_index: None,
        paint_index: None,
    }
}

fn embedded() -> Catalog {
    Catalog::from_fixture(
        "fixture-v1".to_owned(),
        SourceMetadata {
            name: "fixture".to_owned(),
            url: "https://example.test/catalog".to_owned(),
            license: "CC0".to_owned(),
            retrieved_at: "2026-07-20".to_owned(),
            note: "fixture".to_owned(),
        },
        vec![
            skin("m4a1s-knight", Rarity::Classified, 0.0, 0.1),
            skin("awp-dragon-lore", Rarity::Covert, 0.0, 0.7),
        ],
        Vec::new(),
    )
}

fn dragon_lore_submission() -> ActualContractSubmission {
    ActualContractSubmission {
        inputs: (0..10)
            .map(|_| InputRequest {
                skin_id: "m4a1s-knight".to_owned(),
                float_value: float(0.01),
                inspect_link: None,
            })
            .collect(),
        actual_output_skin_id: "awp-dragon-lore".to_owned(),
        actual_output_float: float(0.07),
        evidence_url: Some("https://example.test/evidence/dragon-lore".to_owned()),
        note: None,
    }
}

fn base() -> RegressionRecord {
    RegressionRecord {
        id: "fixture".to_owned(),
        submitted_at: 0,
        inputs: Vec::new(),
        actual_output_skin_id: "output".to_owned(),
        actual_output_float: Float32Value::new(float(0.1)),
        evidence_url: Some("https://example.test/evidence".to_owned()),
        note: None,
        catalog_schema_version: "fixture".to_owned(),
        catalog_source_url: "https://example.test/catalog".to_owned(),
        predicted_float: Float32Value::new(float(0.1)),
        exact_float32_match: true,
        absolute_difference: Float32Value::new(float(0.0)),
    }
}

#[test]
fn evidence_url_must_be_a_public_http_url() {
    assert!(validate_evidence_url(Some("https://example.com/proof/123")).is_ok());
    assert!(validate_evidence_url(None).is_err());
    assert!(validate_evidence_url(Some("steam://inspect/123")).is_err());
    assert!(validate_evidence_url(Some("not a URL")).is_err());
}

#[test]
fn record_uses_a_stable_content_id_and_rejects_duplicate_evidence() {
    let catalog = embedded();
    let submission = dragon_lore_submission();
    let mut records = Vec::new();

    let record =
        prepare_regression_record(&catalog, submission.clone(), 1_700_000_000).unwrap();
    append_record(&mut records, record.clone()).unwrap();
    assert_eq!(
        record.id,
        regression_id(&submission, "https://example.test/evidence/dragon-lore")
    );
    assert_eq!(record.submitted_at, 1_700_000_000);
    assert!(record.exact_float32_match);

    let again = prepare_regression_record(&catalog, submission, 1_700_000_000).unwrap();
    let error = append_record(&mut records, again).unwrap_err();
    assert!(error.to_text().contains("already been recorded"));
    assert_eq!(records.len(), 1);
}

#[test]
fn notes_and_inspect_links_make_no_new_contract() {
    let catalog = embedded();
    let mut records = Vec::new();
    let first = prepare_regression_record(&catalog, dragon_lore_submission(), 1).unwrap();
    append_record(&mut records, first.clone()).unwrap();

    let mut retold = dragon_lore_submission();
    retold.note = Some("told again".to_owned());
    retold.inputs[3].inspect_link = Some("steam://inspect/3".to_owned());
    let again = prepare_regression_record(&catalog, retold, 2).unwrap();
    assert_eq!(again.id, first.id);
    assert!(append_record(&mut records, again).is_err());

    let mut other = dragon_lore_submission();
    other.inputs[3].float_value = float(0.011);
    let other = prepare_regression_record(&catalog, other, 3).unwrap();
    assert_ne!(other.id, first.id);
    append_record(&mut records, other).unwrap();
    assert_eq!(records.len(), 2);
}

#[test]
fn readiness_requires_twenty_evidence_backed_exact_records() {
    let base = base();
    let nineteen = vec![base.clone(); 19];
    assert!(!regression_status(&nineteen).ready_for_target);
    let twenty = vec![base; 20];
    assert!(regression_status(&twenty).ready_for_target);
}

#[test]
fn an_address_is_normalized() {
    assert_eq!(
        validate_evidence_url(Some("  HTTPS://Example.COM/a b  ")).unwrap(),
        "https://example.com/a%20b"
    );
    assert_eq!(
        validate_evidence_url(Some("http://example.com")).unwrap(),
        "http://example.com/"
    );
    assert!(validate_evidence_url(Some("")).is_err());
    assert!(validate_evidence_url(Some("data:text/plain,hello")).is_err());
}

#[test]
fn the_status_counts_what_was_recorded() {
    let mut unproven = base();
    unproven.evidence_url = None;
    let mut inexact = base();
    inexact.exact_float32_match = false;
    let status = regression_status(&vec![base(), unproven, inexact, base()]);
    assert_eq!(status.count, 4);
    assert_eq!(status.evidence_backed_records, 3);
    assert_eq!(status.evidence_backed_exact_matches, 2);
    assert_eq!(status.records_missing_evidence, 1);
    assert_eq!(status.exact_matches, 3);
    assert_eq!(status.mismatches, 1);
    assert_eq!(status.target_count, 20);
    assert!(!status.ready_for_target);
}

#[test]
fn more_records_keep_readiness() {
    let mut records = vec![base(); 20];
    let mut inexact = base();
    inexact.exact_float32_match = false;
    inexact.id = "other".to_owned();
    append_record(&mut records, inexact).unwrap();
    assert!(regression_status(&records).ready_for_target);
}

#[test]
fn hashing_goes_on_where_it_stopped() {
    let mut whole = HASH_START;
    fnv1a(&mut whole, b"foobar");
    assert_eq!(whole, 0x85944171f73967e8);
    let mut parts = HASH_START;
    fnv1a(&mut parts, b"foo");
    fnv1a(&mut parts, b"bar");
    assert_eq!(parts, whole);
}

#[test]
fn the_content_decides_the_id() {
    let submission = dragon_lore_submission();
    let url = "https://example.test/evidence/dragon-lore";
    let id = regression_id(&submission, url);
    assert_eq!(id, regression_id(&submission.clone(), url));
    assert_ne!(id, regression_id(&submission, "https://example.test/other"));
    let mut moved = dragon_lore_submission();
    moved.inputs[0].float_value = float(0.010_000_001);
    assert_ne!(id, regression_id(&moved, url));
    let mut noted = dragon_lore_submission();
    noted.note = Some("a note".to_owned());
    assert_eq!(id, regression_id(&noted, url));
}

#[test]
fn a_record_tells_how_far_off_the_prediction_was() {
    let mut submission = dragon_lore_submission();
    submission.actual_output_float = float(0.08);
    submission.note = Some("  observed  ".to_owned());
    let record = prepare_regression_record(&embedded(), submission, 7).unwrap();
    assert!(!record.exact_float32_match);
    assert_eq!(record.predicted_float.bits, 0.07_f32.to_bits());
    assert_eq!(record.absolute_difference.bits, (0.08_f32 - 0.07_f32).to_bits());
    assert_eq!(record.catalog_schema_version, "fixture-v1");
    assert_eq!(record.catalog_source_url, "https://example.test/catalog");
}

#[test]
fn impossible_submissions_are_refused() {
    let catalog = embedded();
    let mut short = dragon_lore_submission();
    short.inputs.pop();
    assert!(matches!(
        prepare_regression_record(&catalog, short, 1),
        Err(PlannerError::Validation(_))
    ));
    let mut other = dragon_lore_submission();
    other.actual_output_skin_id = "m4a1s-knight".to_owned();
    assert!(matches!(
        prepare_regression_record(&catalog, other, 1),
        Err(PlannerError::Validation(_))
    ));
    let mut unproven = dragon_lore_submission();
    unproven.evidence_url = None;
    assert!(matches!(
        prepare_regression_record(&catalog, unproven, 1),
        Err(PlannerError::Validation(_))
    ));
}
