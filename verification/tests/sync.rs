use cs_float_planner::catalog::{UpstreamCollection, UpstreamRarity, UpstreamSkin};
use cs_float_planner::domain::Float32;
use cs_float_planner::json::count_list;
use cs_float_planner::numerals::parse_float;
use cs_float_planner::sync::{
    caps_report, commit_url, field_float, import_snapshot, items_game_url,
    materialize_sync_result, parse_valve_paint_caps, read_regression_count, read_setting,
    resolve_commit, snapshot_url, sync_enabled, sync_interval, verify_caps, CapsVerification,
    Commit, CommitAnswer, ShownCaps, SyncOutcome, SyncRecheck, SyncStatus, SyncSummary,
    UpstreamCaps,
};
use cs_float_planner::vdf::{field_text, named_block, named_blocks};
use serde_json::Value;

fn float(x: f32) -> Float32 {
    Float32::from_bits(x.to_bits())
}

fn number(value: &Value) -> Option<Float32> {
    value.as_f64().map(|x| float(x as f32))
}

fn text(value: &Value) -> String {
    value.as_str().unwrap().to_owned()
}

fn caps(json: &str) -> Vec<UpstreamCaps> {
    let parsed: Value = serde_json::from_str(json).unwrap();
    parsed
        .as_array()
        .unwrap()
        .iter()
        .map(|skin| UpstreamCaps {
            paint_index: skin["paint_index"].as_str().map(str::to_owned),
            min_float: number(&skin["min_float"]),
            max_float: number(&skin["max_float"]),
        })
        .collect()
}

fn snapshot(json: &str) -> Vec<UpstreamSkin> {
    let parsed: Value = serde_json::from_str(json).unwrap();
    parsed
        .as_array()
        .unwrap()
        .iter()
        .map(|skin| UpstreamSkin {
            id: text(&skin["id"]),
            name: text(&skin["name"]),
            min_float: number(&skin["min_float"]),
            max_float: number(&skin["max_float"]),
            rarity: UpstreamRarity { id: text(&skin["rarity"]["id"]) },
            stattrak: skin["stattrak"].as_bool().unwrap_or_default(),
            paint_index: skin["paint_index"].as_str().map(str::to_owned),
            weapon: None,
            collections: skin["collections"]
                .as_array()
                .unwrap()
                .iter()
                .map(|collection| UpstreamCollection {
                    id: text(&collection["id"]),
                    name: text(&collection["name"]),
                })
                .collect(),
        })
        .collect()
}

fn commit(sha: &str, etag: &str) -> Commit {
    Commit { sha: sha.to_owned(), etag: Some(etag.to_owned()) }
}

fn cap(paint: Option<&str>, min: Option<f32>, max: Option<f32>) -> UpstreamCaps {
    UpstreamCaps {
        paint_index: paint.map(str::to_owned),
        min_float: min.map(float),
        max_float: max.map(float),
    }
}

#[test]
fn parses_valve_paint_cap_block() {
    let vdf = r#""paint_kits" { "282" { "wear_remap_min" "0.10" "wear_remap_max" "0.70" } }"#;
    assert_eq!(parse_valve_paint_caps(vdf).get("282"), Some((float(0.1), float(0.7))));
}

#[test]
fn materializes_a_versioned_catalog_from_fixed_source_bytes() {
    let skins = r#"[
      {"id":"input","name":"Input","min_float":0.1,"max_float":0.7,"rarity":{"id":"rarity_legendary_weapon"},"stattrak":true,"paint_index":"282","collections":[{"id":"collection-test","name":"Test"}]},
      {"id":"output","name":"Output","min_float":0.0,"max_float":1.0,"rarity":{"id":"rarity_ancient_weapon"},"stattrak":true,"paint_index":"283","collections":[{"id":"collection-test","name":"Test"}]}
    ]"#;
    let collections = br#"[{"id":"collection-test"}]"#;
    let items_game = br#""paint_kits" {
      "282" { "wear_remap_min" "0.10" "wear_remap_max" "0.70" }
      "283" { "wear_remap_min" "0.00" "wear_remap_max" "1.00" }
    }"#;

    let result = materialize_sync_result(
        "bymykel-fixture",
        "steamtracking-fixture",
        &caps(skins),
        Ok(snapshot(skins)),
        collections,
        items_game,
        "1700000000".to_owned(),
    )
    .unwrap();

    assert_eq!(result.bymykel_commit, "bymykel-fixture");
    assert_eq!(result.steamtracking_commit, "steamtracking-fixture");
    assert_eq!(result.imported_skins, 2);
    assert_eq!(result.imported_collections, 1);
    assert_eq!(result.check.matching, 2);
    assert_eq!(result.catalog.schema_version, "bymykel-bymykel-fixture");
    assert_eq!(result.catalog.source.retrieved_at, "1700000000");
    assert!(result.catalog.skin("collection-test/output").is_some());
}

#[test]
fn an_import_without_skins_fails() {
    assert_eq!(
        import_snapshot("a", "b", &Vec::new(), &Vec::new(), 0, "", "now".to_owned()).unwrap_err(),
        "upstream snapshot produced no tradable collection skins"
    );
}

#[test]
fn an_import_says_which_file_it_cannot_read() {
    let import = |skins: Result<Vec<UpstreamSkin>, String>, collections: &[u8], items: &[u8]| {
        materialize_sync_result("a", "b", &Vec::new(), skins, collections, items, "now".to_owned())
            .unwrap_err()
    };
    let refused = serde_json::from_slice::<Vec<Value>>(b"{}").unwrap_err().to_string();
    let invalid = std::str::from_utf8(&[0x22, 0xff]).unwrap_err().to_string();
    let bad_skins = || Err("no skins".to_owned());
    assert_eq!(
        import(bad_skins(), b"{}", &[0x22, 0xff]),
        format!("cannot parse ByMykel collections.json: {refused}")
    );
    assert_eq!(import(bad_skins(), b"[]", &[0x22, 0xff]), invalid);
    assert_eq!(import(bad_skins(), b"[]", b""), "no skins");
    assert_eq!(
        import(Ok(Vec::new()), b"[]", b""),
        "upstream snapshot produced no tradable collection skins"
    );
}

#[test]
fn lists_are_counted() {
    assert_eq!(count_list(br#"[1, {"a": [2, 3]}, null]"#), Ok(3));
    assert_eq!(
        count_list(b"[1").unwrap_err(),
        serde_json::from_slice::<Vec<Value>>(b"[1").unwrap_err().to_string()
    );
    assert_eq!(read_regression_count(Some(&b"[{}, {}]".to_vec())), 2);
    assert_eq!(read_regression_count(Some(&b"{}".to_vec())), 0);
    assert_eq!(read_regression_count(None), 0);
}

#[test]
fn caps_are_compared_with_a_tolerance() {
    let valve = parse_valve_paint_caps(
        r#""paint_kits"{"1"{"wear_remap_min" "0.10" "wear_remap_max" "0.70"}"x"{"wear_remap_min" "0" "wear_remap_max" "1"}"3"{"name" "no caps"}}"#,
    );
    let skins = vec![
        cap(Some("1"), Some(0.1), Some(0.7)),
        cap(Some("1"), Some(0.100_000_5), Some(0.7)),
        cap(Some("1"), Some(0.2), Some(0.7)),
        cap(Some("2"), Some(0.0), Some(1.0)),
        cap(Some("3"), Some(0.0), Some(1.0)),
        cap(None, Some(0.0), Some(1.0)),
        cap(Some("1"), None, Some(1.0)),
    ];
    let check = verify_caps(&skins, &valve);
    assert_eq!(check.matching, 2);
    assert_eq!(check.mismatching, 1);
    assert_eq!(check.compared, 3);
    assert_eq!(check.mismatches.len(), 1);
    assert_eq!(check.matching + check.mismatching, check.compared);

    let report = caps_report(
        &check,
        &vec![ShownCaps {
            min: "0.2".to_owned(),
            max: "0.7".to_owned(),
            valve_min: "0.1".to_owned(),
            valve_max: "0.7".to_owned(),
        }],
    );
    assert_eq!(report.examples, ["paint 1: ByMykel [0.2, 0.7] vs Valve [0.1, 0.7]"]);
    assert_eq!(report.compared, 3);
}

#[test]
fn only_twenty_disagreements_are_shown() {
    let valve =
        parse_valve_paint_caps(r#""paint_kits"{"1"{"wear_remap_min" "0" "wear_remap_max" "1"}}"#);
    let skins: Vec<UpstreamCaps> =
        (0..30).map(|_| cap(Some("1"), Some(0.5), Some(0.6))).collect();
    let check = verify_caps(&skins, &valve);
    assert_eq!(check.mismatching, 30);
    assert_eq!(check.mismatches.len(), 20);
}

#[test]
fn blocks_and_fields_are_found() {
    let text = r#""a" "paint_kits" { "1" { "k" "v" "deep" { "x" "}" } } "2" { } } "z" {}"#;
    let section = named_block(text, "paint_kits").unwrap();
    let blocks = named_blocks(section);
    let names: Vec<&str> = blocks.iter().map(|(name, _)| *name).collect();
    assert!(names.contains(&"1"));
    assert_eq!(field_text(r#" "k" "v" "#, "k"), Some("v"));
    assert_eq!(field_text(r#" "k" "v" "#, "q"), None);
    assert_eq!(named_block(text, "missing"), None);
    assert_eq!(named_block(r#""paint_kits" { "1" {"#, "paint_kits"), None);
    assert_eq!(field_float(r#""wear" "0.25""#, "wear"), Some(float(0.25)));
    assert_eq!(field_float(r#""wear" "much""#, "wear"), None);
}

#[test]
fn later_kits_replace_earlier_ones() {
    let kits = parse_valve_paint_caps(
        r#""paint_kits"{"7"{"wear_remap_min" "0.1" "wear_remap_max" "0.2"}"7"{"wear_remap_min" "0.3" "wear_remap_max" "0.4"}}"#,
    );
    assert_eq!(kits.get("7"), Some((float(0.3), float(0.4))));
    assert_eq!(kits.get("8"), None);
}

#[test]
fn numerals_read_as_the_standard_library_reads_them() {
    let mut texts: Vec<String> = [
        "", "0", "-0", "+1", "1.", ".5", ".", "-", "+", "1e5", "1E-5", "1e", "e5", "1e+", "inf",
        "-inf", "Infinity", "INFINITY", "infin", "nan", "NaN", "-nan", "1_0", " 1", "1 ", "0x1",
        "0.1", "0.70", "3.4028235e38", "3.4028236e38", "1e39", "1e-45", "7e-46", "7.1e-46",
        "1.17549435e-38", "16777217", "16777219", "0.000000059604645", "1e400", "1e-400",
        "00000000000000000000000000001", "1e99999999999999999999", "1e-99999999999999999999",
        "0e99999999999999999999", "123456789012345678901234567890",
        "8388608.5", "8388609.5", "1.1.1", "--1", "1e5.5", "١",
    ]
    .iter()
    .map(|text| (*text).to_owned())
    .collect();
    let mut seed: u64 = 88_172_645_463_325_252;
    for _ in 0..4_000 {
        seed ^= seed << 13;
        seed ^= seed >> 7;
        seed ^= seed << 17;
        let exponent = (seed >> 40) % 110;
        texts.push(format!("{}.{}e{}", seed % 1000, seed % 99_999_999, exponent as i64 - 60));
        texts.push(format!("{:?}", f32::from_bits(seed as u32)));
        texts.push(format!("{}", f32::from_bits((seed >> 32) as u32)));
    }
    for text in texts {
        match (parse_float(&text), text.parse::<f32>()) {
            (Some(ours), Ok(native)) => {
                if native.is_nan() {
                    assert!(ours.is_nan(), "{text}");
                } else {
                    assert_eq!(ours.to_bits(), native.to_bits(), "{text}");
                }
            }
            (None, Err(_)) => {}
            (ours, native) => panic!("{text}: {ours:?} but {native:?}"),
        }
    }
}

#[test]
fn runs_do_not_overlap() {
    let mut status = SyncStatus::initial(true, 3600, "data");
    assert!(status.begin(10));
    assert!(!status.begin(11));
    assert_eq!(status.last_started_at, Some(10));
    status.finish(SyncOutcome::Failed("no network".to_owned()), 12);
    assert_eq!(status.last_error.as_deref(), Some("no network"));
    assert_eq!(status.last_success_at, None);
    assert!(status.begin(20));
    assert!(!status.is_current(&commit("a", "x"), &commit("b", "y")));
    status.finish(
        SyncOutcome::Imported(SyncSummary {
            bymykel_commit: commit("a", "x"),
            steamtracking_commit: commit("b", "y"),
            imported_skins: 3,
            imported_collections: 2,
            verification: CapsVerification {
                compared: 1,
                matching: 1,
                mismatching: 0,
                not_directly_verifiable: 0,
                examples: Vec::new(),
            },
            stored_contract_regressions: 4,
        }),
        21,
    );
    assert!(!status.running);
    assert_eq!(status.last_success_at, Some(21));
    assert_eq!(status.bymykel_commit.as_deref(), Some("a"));
    assert_eq!(status.bymykel_commit_etag.as_deref(), Some("x"));
    assert_eq!(status.imported_skins, 3);

    assert!(status.begin(30));
    assert!(status.is_current(&commit("a", "z"), &commit("b", "y")));
    assert!(!status.is_current(&commit("a", "z"), &commit("c", "y")));
    status.finish(
        SyncOutcome::Unchanged(SyncRecheck {
            bymykel_commit_etag: Some("z".to_owned()),
            steamtracking_commit_etag: None,
            stored_contract_regressions: 9,
        }),
        31,
    );
    assert_eq!(status.last_success_at, Some(31));
    assert_eq!(status.stored_contract_regressions, 9);
    assert_eq!(status.imported_skins, 3);
    assert_eq!(status.bymykel_commit_etag.as_deref(), Some("z"));
}

#[test]
fn an_unmodified_branch_stands_at_the_known_commit() {
    let found = resolve_commit("a/b", None, CommitAnswer::Found(commit("s", "t"))).unwrap();
    assert_eq!(found.sha, "s");
    let known =
        resolve_commit("a/b", Some(commit("k", "t")), CommitAnswer::NotModified).unwrap();
    assert_eq!((known.sha.as_str(), known.etag.as_deref()), ("k", Some("t")));
    assert_eq!(
        resolve_commit("a/b", None, CommitAnswer::NotModified).unwrap_err(),
        "GitHub commit lookup failed for a/b: 304 Not Modified"
    );
    assert_eq!(
        resolve_commit("a/b", None, CommitAnswer::Refused("403 Forbidden".to_owned()))
            .unwrap_err(),
        "GitHub commit lookup failed for a/b: 403 Forbidden"
    );
}

#[test]
fn settings_are_read_within_limits() {
    assert_eq!(read_setting(None, 5, 1, 10), 5);
    assert_eq!(read_setting(Some("7"), 5, 1, 10), 7);
    assert_eq!(read_setting(Some("70"), 5, 1, 10), 10);
    assert_eq!(read_setting(Some("0"), 5, 1, 10), 1);
    assert_eq!(read_setting(Some("many"), 5, 1, 10), 5);
    assert_eq!(sync_interval(None), 86_400);
    assert_eq!(sync_interval(Some("1")), 60);
    assert!(sync_enabled(None));
    assert!(sync_enabled(Some("yes")));
    assert!(!sync_enabled(Some("false")));
    assert!(!sync_enabled(Some("0")));
}

#[test]
fn sources_have_addresses() {
    assert_eq!(commit_url("a/b", "main"), "https://api.github.com/repos/a/b/commits/main");
    assert_eq!(
        snapshot_url("c", "skins.json"),
        "https://raw.githubusercontent.com/ByMykel/CSGO-API/c/public/api/en/skins.json"
    );
    assert_eq!(
        items_game_url("c"),
        "https://raw.githubusercontent.com/SteamTracking/GameTracking-CS2/c/game/csgo/pak01_dir/scripts/items/items_game.txt"
    );
}
