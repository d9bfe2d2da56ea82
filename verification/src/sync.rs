//! Importing upstream data: what is fetched, how it is checked, how a run is tracked.
use crate::catalog::{
    import_source, lists_paths, persisted_failure, Catalog, UpstreamSkin,
};
use crate::domain::{Float32, Skin};
use crate::float32::{absolute, difference, f32_abs, f32_sub, not_above};
use crate::json::{count_list, parsed_list};
use crate::numerals::{parse_float, spelled_float};
use crate::slices::lemma_text_bytes;
use crate::sorting::stable_sorted;
use crate::text::{join2, join3, parse_u32, parse_u64, same_text, spelled_u32, spelled_u64};
use crate::vdf::{
    bodies_from, field_bytes, field_text, named_block, named_blocks, named_body, pair_bytes,
};
use vstd::prelude::*;
use vstd::string::{StringExecFns, StringSliceAdditionalSpecFns};
use vstd::utf8::{decode_utf8, decode_utf8_encode_utf8, encode_utf8_decode_utf8, valid_utf8};

verus! {

/// The largest difference between caps that agree: single-precision 0.000001.
pub const CAP_TOLERANCE_BITS: u32 = 0x3586_37bd;

/// How many disagreements are shown.
pub const EXAMPLE_LIMIT: usize = 20;

#[derive(Debug, Clone)]
pub struct CapsVerification {
    pub compared: usize,
    pub matching: usize,
    pub mismatching: usize,
    pub not_directly_verifiable: usize,
    pub examples: Vec<String>,
}

#[derive(Debug, Clone)]
pub struct SyncStatus {
    pub enabled: bool,
    pub interval_seconds: u64,
    pub data_dir: String,
    pub running: bool,
    pub last_started_at: Option<u64>,
    pub last_success_at: Option<u64>,
    pub last_error: Option<String>,
    pub bymykel_commit: Option<String>,
    pub steamtracking_commit: Option<String>,
    /// The tags under which the commits were last looked up.
    pub bymykel_commit_etag: Option<String>,
    pub steamtracking_commit_etag: Option<String>,
    pub imported_skins: usize,
    pub imported_collections: usize,
    pub caps_verification: Option<CapsVerification>,
    pub stored_contract_regressions: usize,
}

/// The caps of an upstream skin.
#[derive(Debug)]
pub struct UpstreamCaps {
    pub paint_index: Option<String>,
    pub min_float: Option<Float32>,
    pub max_float: Option<Float32>,
}

/// The caps of one paint kit.
#[derive(Debug)]
pub struct PaintKit {
    pub id: String,
    pub min: Float32,
    pub max: Float32,
}

/// The caps that the game itself defines, in file order.
#[derive(Debug)]
pub struct PaintCaps {
    pub kits: Vec<PaintKit>,
}

/// Caps on which two sources disagree.
#[derive(Debug)]
pub struct CapsMismatch {
    pub paint_index: String,
    pub min: Float32,
    pub max: Float32,
    pub valve_min: Float32,
    pub valve_max: Float32,
}

/// The result of comparing caps.
#[derive(Debug)]
pub struct CapsCheck {
    pub compared: usize,
    pub matching: usize,
    pub mismatching: usize,
    pub not_directly_verifiable: usize,
    pub mismatches: Vec<CapsMismatch>,
}

/// The numbers of a mismatch as text.
#[derive(Debug)]
pub struct ShownCaps {
    pub min: String,
    pub max: String,
    pub valve_min: String,
    pub valve_max: String,
}

/// What a paint kit block says of its caps.
pub open spec fn kit_of(name: Seq<u8>, body: Seq<u8>) -> Option<(Seq<char>, Float32, Float32)> {
    match (
        spelled_u32(decode_utf8(name)),
        field_bytes(body, "wear_remap_min"@),
        field_bytes(body, "wear_remap_max"@),
    ) {
        (Some(_), Some(min), Some(max)) => match (
            spelled_float(decode_utf8(min)),
            spelled_float(decode_utf8(max)),
        ) {
            (Some(low), Some(high)) => Some((decode_utf8(name), low, high)),
            _ => None,
        },
        _ => None,
    }
}

/// The paint kits among some blocks.
pub open spec fn kits_of(blocks: Seq<(Seq<u8>, Seq<u8>)>) -> Seq<(Seq<char>, Float32, Float32)>
    decreases blocks.len(),
{
    if blocks.len() == 0 {
        Seq::empty()
    } else {
        let front = kits_of(blocks.drop_last());
        match kit_of(blocks.last().0, blocks.last().1) {
            Some(kit) => front.push(kit),
            None => front,
        }
    }
}

/// The paint kits of an item definition file.
pub open spec fn file_kits(bytes: Seq<u8>) -> Seq<(Seq<char>, Float32, Float32)> {
    match named_body(bytes, "paint_kits"@) {
        Some(section) => kits_of(bodies_from(section, 0)),
        None => Seq::empty(),
    }
}

pub open spec fn kit_values(kits: Seq<PaintKit>) -> Seq<(Seq<char>, Float32, Float32)> {
    Seq::new(kits.len(), |i: int| (kits[i].id@, kits[i].min, kits[i].max))
}

/// The caps of a paint kit; of several with one id, those of the last.
pub open spec fn caps_of(kits: Seq<(Seq<char>, Float32, Float32)>, id: Seq<char>) -> Option<
    (Float32, Float32),
>
    decreases kits.len(),
{
    if kits.len() == 0 {
        None
    } else if kits.last().0 == id {
        Some((kits.last().1, kits.last().2))
    } else {
        caps_of(kits.drop_last(), id)
    }
}

/// The text of bytes that a string holds.
proof fn lemma_decoded(text: &str)
    ensures
        decode_utf8(text.spec_bytes()) == text@,
{
    lemma_text_bytes(text);
    encode_utf8_decode_utf8(text@);
}

/// Reads a number from a field.
pub fn field_float(text: &str, field: &str) -> (r: Option<Float32>)
    ensures
        r == match field_bytes(text.spec_bytes(), field@) {
            Some(value) => spelled_float(decode_utf8(value)),
            None => None,
        },
{
    match field_text(text, field) {
        Some(value) => {
            proof {
                lemma_decoded(value);
            }
            parse_float(value)
        },
        None => None,
    }
}

/// Reads the caps of all paint kits.
pub fn parse_valve_paint_caps(text: &str) -> (r: PaintCaps)
    ensures
        kit_values(r.kits@) == file_kits(text.spec_bytes()),
{
    let mut kits: Vec<PaintKit> = Vec::new();
    proof {
        assert(kit_values(kits@) =~= Seq::empty());
    }
    let section: &str = match named_block(text, "paint_kits") {
        Some(section) => section,
        None => {
            return PaintCaps { kits };
        },
    };
    let blocks: Vec<(&str, &str)> = named_blocks(section);
    let ghost all = pair_bytes(blocks@);
    let mut i: usize = 0;
    proof {
        assert(all.take(0) =~= Seq::empty());
    }
    while i < blocks.len()
        invariant
            i <= blocks@.len(),
            all == pair_bytes(blocks@),
            kit_values(kits@) == kits_of(all.take(i as int)),
        decreases blocks.len() - i,
    {
        let (name, body) = blocks[i];
        proof {
            assert(all.take(i + 1).drop_last() =~= all.take(i as int));
            assert(all.take(i + 1).last() == (name.spec_bytes(), body.spec_bytes()));
            lemma_decoded(name);
        }
        if parse_u32(name).is_some() {
            if let (Some(min), Some(max)) = (
                field_float(body, "wear_remap_min"),
                field_float(body, "wear_remap_max"),
            ) {
                let ghost before = kits@;
                kits.push(PaintKit { id: name.to_owned(), min, max });
                proof {
                    assert(kit_values(kits@) =~= kit_values(before).push((name@, min, max)));
                }
            }
        }
        i = i + 1;
    }
    proof {
        assert(all.take(i as int) =~= all);
    }
    PaintCaps { kits }
}

impl PaintCaps {
    /// Looks up the caps of a paint kit.
    pub fn get(&self, id: &str) -> (r: Option<(Float32, Float32)>)
        ensures
            r == caps_of(kit_values(self.kits@), id@),
    {
        let ghost all = kit_values(self.kits@);
        let mut i: usize = self.kits.len();
        proof {
            assert(all.take(i as int) =~= all);
        }
        while i > 0
            invariant
                i <= self.kits@.len(),
                all == kit_values(self.kits@),
                caps_of(all, id@) == caps_of(all.take(i as int), id@),
            decreases i,
        {
            proof {
                assert(all.take(i as int).drop_last() =~= all.take(i - 1));
                assert(all.take(i as int).last() == all[i - 1]);
            }
            i = i - 1;
            let kit: &PaintKit = &self.kits[i];
            if same_text(kit.id.as_str(), id) {
                return Some((kit.min, kit.max));
            }
        }
        None
    }
}

/// What comparing the caps of one skin shows.
pub enum Verdict {
    Skipped,
    Unverifiable,
    Match,
    Mismatch,
}

/// Whether two caps agree.
pub open spec fn caps_agree(a: Float32, b: Float32) -> bool {
    not_above(absolute(difference(a, b)), Float32 { bits: CAP_TOLERANCE_BITS })
}

pub open spec fn verdict_on(
    skin: UpstreamCaps,
    kits: Seq<(Seq<char>, Float32, Float32)>,
) -> Verdict {
    match (skin.paint_index, skin.min_float, skin.max_float) {
        (Some(id), Some(min), Some(max)) => match caps_of(kits, id@) {
            Some((valve_min, valve_max)) => if caps_agree(min, valve_min) && caps_agree(
                max,
                valve_max,
            ) {
                Verdict::Match
            } else {
                Verdict::Mismatch
            },
            None => Verdict::Unverifiable,
        },
        _ => Verdict::Skipped,
    }
}

/// How many skins get a verdict.
pub open spec fn verdict_count(
    skins: Seq<UpstreamCaps>,
    kits: Seq<(Seq<char>, Float32, Float32)>,
    verdict: Verdict,
) -> nat
    decreases skins.len(),
{
    if skins.len() == 0 {
        0
    } else {
        verdict_count(skins.drop_last(), kits, verdict) + if verdict_on(skins.last(), kits)
            == verdict {
            1nat
        } else {
            0
        }
    }
}

/// A mismatch: the paint index, the caps of the skin, the caps of the paint kit.
pub open spec fn mismatch_of(
    skin: UpstreamCaps,
    kits: Seq<(Seq<char>, Float32, Float32)>,
) -> (Seq<char>, Float32, Float32, Float32, Float32) {
    let id = skin.paint_index->0@;
    let caps = caps_of(kits, id)->0;
    (id, skin.min_float->0, skin.max_float->0, caps.0, caps.1)
}

/// All mismatches, in skin order.
pub open spec fn mismatches_of(
    skins: Seq<UpstreamCaps>,
    kits: Seq<(Seq<char>, Float32, Float32)>,
) -> Seq<(Seq<char>, Float32, Float32, Float32, Float32)>
    decreases skins.len(),
{
    if skins.len() == 0 {
        Seq::empty()
    } else {
        let front = mismatches_of(skins.drop_last(), kits);
        if verdict_on(skins.last(), kits) is Mismatch {
            front.push(mismatch_of(skins.last(), kits))
        } else {
            front
        }
    }
}

pub open spec fn mismatch_values(list: Seq<CapsMismatch>) -> Seq<
    (Seq<char>, Float32, Float32, Float32, Float32),
> {
    Seq::new(
        list.len(),
        |i: int|
            (
                list[i].paint_index@,
                list[i].min,
                list[i].max,
                list[i].valve_min,
                list[i].valve_max,
            ),
    )
}

/// The first ones, as many as are shown.
pub open spec fn shown_first<T>(list: Seq<T>) -> Seq<T> {
    if list.len() <= EXAMPLE_LIMIT {
        list
    } else {
        list.take(EXAMPLE_LIMIT as int)
    }
}

/// `check` is the comparison of skins with paint kits.
pub open spec fn checks_caps(
    check: CapsCheck,
    skins: Seq<UpstreamCaps>,
    kits: Seq<(Seq<char>, Float32, Float32)>,
) -> bool {
    &&& check.matching == verdict_count(skins, kits, Verdict::Match)
    &&& check.mismatching == verdict_count(skins, kits, Verdict::Mismatch)
    &&& check.compared == check.matching + check.mismatching
    &&& check.not_directly_verifiable == verdict_count(skins, kits, Verdict::Unverifiable)
    &&& mismatch_values(check.mismatches@) == shown_first(mismatches_of(skins, kits))
}

fn agree(a: Float32, b: Float32) -> (r: bool)
    ensures
        r == caps_agree(a, b),
{
    f32_abs(f32_sub(a, b)).at_most(Float32::from_bits(CAP_TOLERANCE_BITS))
}

/// Compares the caps of skins with those of the game.
pub fn verify_caps(skins: &Vec<UpstreamCaps>, valve_caps: &PaintCaps) -> (r: CapsCheck)
    ensures
        checks_caps(r, skins@, kit_values(valve_caps.kits@)),
{
    let ghost kits = kit_values(valve_caps.kits@);
    let mut matching: usize = 0;
    let mut mismatching: usize = 0;
    let mut unverifiable: usize = 0;
    let mut mismatches: Vec<CapsMismatch> = Vec::new();
    let mut i: usize = 0;
    proof {
        assert(skins@.take(0) =~= Seq::empty());
        assert(mismatch_values(mismatches@) =~= Seq::empty());
    }
    while i < skins.len()
        invariant
            i <= skins@.len(),
            kits == kit_values(valve_caps.kits@),
            matching == verdict_count(skins@.take(i as int), kits, Verdict::Match),
            mismatching == verdict_count(skins@.take(i as int), kits, Verdict::Mismatch),
            unverifiable == verdict_count(skins@.take(i as int), kits, Verdict::Unverifiable),
            matching + mismatching + unverifiable <= i,
            mismatch_values(mismatches@) == shown_first(
                mismatches_of(skins@.take(i as int), kits),
            ),
        decreases skins.len() - i,
    {
        let skin: &UpstreamCaps = &skins[i];
        let ghost list = mismatches_of(skins@.take(i as int), kits);
        proof {
            assert(skins@.take(i + 1).drop_last() =~= skins@.take(i as int));
            assert(skins@.take(i + 1).last() == *skin);
        }
        if let (Some(paint_index), Some(min), Some(max)) = (
            &skin.paint_index,
            skin.min_float,
            skin.max_float,
        ) {
            match valve_caps.get(paint_index.as_str()) {
                Some((valve_min, valve_max)) => {
                    if agree(min, valve_min) && agree(max, valve_max) {
                        matching = matching + 1;
                    } else {
                        mismatching = mismatching + 1;
                        let ghost before = mismatches@;
                        let ghost one = mismatch_of(*skin, kits);
                        if mismatches.len() < EXAMPLE_LIMIT {
                            mismatches.push(
                                CapsMismatch {
                                    paint_index: paint_index.clone(),
                                    min,
                                    max,
                                    valve_min,
                                    valve_max,
                                },
                            );
                            proof {
                                assert(mismatch_values(mismatches@) =~= mismatch_values(
                                    before,
                                ).push(one));
                                assert(list.len() < EXAMPLE_LIMIT);
                            }
                        }
                        proof {
                            assert(shown_first(list.push(one)) =~= mismatch_values(mismatches@));
                        }
                    }
                },
                None => {
                    unverifiable = unverifiable + 1;
                },
            }
        }
        i = i + 1;
    }
    proof {
        assert(skins@.take(i as int) =~= skins@);
    }
    CapsCheck {
        compared: matching + mismatching,
        matching,
        mismatching,
        not_directly_verifiable: unverifiable,
        mismatches,
    }
}

/// The line that shows a mismatch.
pub open spec fn example_text(paint_index: Seq<char>, shown: ShownCaps) -> Seq<char> {
    "paint "@ + paint_index + ": ByMykel ["@ + shown.min@ + ", "@ + shown.max@ + "] vs Valve ["@
        + shown.valve_min@ + ", "@ + shown.valve_max@ + "]"@
}

/// Puts the report of a comparison together.
pub fn caps_report(check: &CapsCheck, shown: &Vec<ShownCaps>) -> (r: CapsVerification)
    requires
        shown@.len() == check.mismatches@.len(),
    ensures
        r.compared == check.compared,
        r.matching == check.matching,
        r.mismatching == check.mismatching,
        r.not_directly_verifiable == check.not_directly_verifiable,
        r.examples@.len() == check.mismatches@.len(),
        forall|i: int|
            0 <= i < r.examples@.len() ==> (#[trigger] r.examples@[i])@ == example_text(
                check.mismatches@[i].paint_index@,
                shown@[i],
            ),
{
    let mut examples: Vec<String> = Vec::new();
    let mut i: usize = 0;
    while i < shown.len()
        invariant
            i <= shown@.len(),
            shown@.len() == check.mismatches@.len(),
            examples@.len() == i,
            forall|j: int|
                0 <= j < i ==> (#[trigger] examples@[j])@ == example_text(
                    check.mismatches@[j].paint_index@,
                    shown@[j],
                ),
        decreases shown.len() - i,
    {
        let numbers: &ShownCaps = &shown[i];
        let mut line: String = join3(
            "paint ",
            check.mismatches[i].paint_index.as_str(),
            ": ByMykel [",
        );
        line.append(numbers.min.as_str());
        line.append(", ");
        line.append(numbers.max.as_str());
        line.append("] vs Valve [");
        line.append(numbers.valve_min.as_str());
        line.append(", ");
        line.append(numbers.valve_max.as_str());
        line.append("]");
        examples.push(line);
        i = i + 1;
    }
    CapsVerification {
        compared: check.compared,
        matching: check.matching,
        mismatching: check.mismatching,
        not_directly_verifiable: check.not_directly_verifiable,
        examples,
    }
}

/// Every skin gets one verdict, so the counts of a comparison stay within the
/// number of skins, and as many mismatches are listed as are counted.
pub proof fn law_verdicts_add_up(
    skins: Seq<UpstreamCaps>,
    kits: Seq<(Seq<char>, Float32, Float32)>,
)
    ensures
        verdict_count(skins, kits, Verdict::Match) + verdict_count(skins, kits, Verdict::Mismatch)
            + verdict_count(skins, kits, Verdict::Unverifiable) + verdict_count(
            skins,
            kits,
            Verdict::Skipped,
        ) == skins.len(),
        mismatches_of(skins, kits).len() == verdict_count(skins, kits, Verdict::Mismatch),
    decreases skins.len(),
{
    if skins.len() > 0 {
        law_verdicts_add_up(skins.drop_last(), kits);
    }
}

/// A finished import.
#[derive(Debug)]
pub struct SyncResult {
    pub bymykel_commit: String,
    pub steamtracking_commit: String,
    pub imported_skins: usize,
    pub imported_collections: usize,
    pub check: CapsCheck,
    pub catalog: Catalog,
}

/// `r` is what an import of skins makes of them, with `collections` collections beside them.
pub open spec fn imports(
    r: Result<SyncResult, String>,
    bymykel_commit: Seq<char>,
    steamtracking_commit: Seq<char>,
    caps: Seq<UpstreamCaps>,
    skins: Seq<UpstreamSkin>,
    collections: nat,
    items_game: Seq<u8>,
    retrieved_at: Seq<char>,
) -> bool {
    exists|paths: Seq<Skin>| #[trigger]
        lists_paths(paths, skins) && match r {
            Ok(result) => {
                &&& paths.len() > 0
                &&& persisted_failure(stable_sorted(paths)) is None
                &&& result.bymykel_commit@ == bymykel_commit
                &&& result.steamtracking_commit@ == steamtracking_commit
                &&& result.imported_skins == caps.len()
                &&& result.imported_collections == collections
                &&& checks_caps(result.check, caps, file_kits(items_game))
                &&& result.catalog.schema_version@ == "bymykel-"@ + bymykel_commit
                &&& import_source(result.catalog.source, bymykel_commit, retrieved_at)
                &&& result.catalog.skins() == stable_sorted(paths)
                &&& result.catalog.listings().len() == 0
            },
            Err(text) => if paths.len() == 0 {
                text@ == "upstream snapshot produced no tradable collection skins"@
            } else {
                persisted_failure(stable_sorted(paths)) == Some(text@)
            },
        }
}

/// Imports what has been read of the upstream files.
pub fn import_snapshot(
    bymykel_commit: &str,
    steamtracking_commit: &str,
    caps: &Vec<UpstreamCaps>,
    skins: &Vec<UpstreamSkin>,
    imported_collections: usize,
    items_game: &str,
    retrieved_at: String,
) -> (r: Result<SyncResult, String>)
    ensures
        imports(
            r,
            bymykel_commit@,
            steamtracking_commit@,
            caps@,
            skins@,
            imported_collections as nat,
            items_game.spec_bytes(),
            retrieved_at@,
        ),
{
    let valve_caps: PaintCaps = parse_valve_paint_caps(items_game);
    let check: CapsCheck = verify_caps(caps, &valve_caps);
    match Catalog::from_upstream_snapshot(skins, bymykel_commit, retrieved_at) {
        Ok(catalog) => Ok(
            SyncResult {
                bymykel_commit: bymykel_commit.to_owned(),
                steamtracking_commit: steamtracking_commit.to_owned(),
                imported_skins: caps.len(),
                imported_collections,
                check,
                catalog,
            },
        ),
        Err(error) => Err(error),
    }
}

/// What `Utf8Error` says of bytes that are not UTF-8.
pub uninterp spec fn utf8_error(bytes: Seq<u8>) -> Seq<char>;

/// `std::str::from_utf8`. Claimed: it takes exactly the bytes that are UTF-8 and gives
/// the text that they encode; the message of its error is a function of the bytes alone.
#[verifier::external_body]
fn utf8_text(bytes: &[u8]) -> (r: Result<&str, String>)
    ensures
        match r {
            Ok(text) => valid_utf8(bytes@) && text@ == decode_utf8(bytes@),
            Err(message) => !valid_utf8(bytes@) && message@ == utf8_error(bytes@),
        },
{
    match std::str::from_utf8(bytes) {
        Ok(text) => Ok(text),
        Err(error) => Err(error.to_string()),
    }
}

/// Converts upstream data into the exact catalog artifact used by the planner.
/// Network and filesystem work remain outside this function, so the importer is
/// reproducible from fixed bytes. The skins come as the comparison of caps reads
/// them, and as the planner does or why it cannot.
pub fn materialize_sync_result(
    bymykel_commit: &str,
    steamtracking_commit: &str,
    caps: &Vec<UpstreamCaps>,
    skins: Result<Vec<UpstreamSkin>, String>,
    collections: &[u8],
    items_game: &[u8],
    retrieved_at: String,
) -> (r: Result<SyncResult, String>)
    ensures
        match parsed_list(collections@) {
            Err(message) => r matches Err(text) && text@
                == "cannot parse ByMykel collections.json: "@ + message,
            Ok(items) => if !valid_utf8(items_game@) {
                r matches Err(text) && text@ == utf8_error(items_game@)
            } else {
                match skins {
                    Err(message) => r matches Err(text) && text@ == message@,
                    Ok(skins) => imports(
                        r,
                        bymykel_commit@,
                        steamtracking_commit@,
                        caps@,
                        skins@,
                        items.len(),
                        items_game@,
                        retrieved_at@,
                    ),
                }
            },
        },
{
    let imported_collections: usize = match count_list(collections) {
        Ok(count) => count,
        Err(message) => {
            return Err(join2("cannot parse ByMykel collections.json: ", message.as_str()));
        },
    };
    let text: &str = match utf8_text(items_game) {
        Ok(text) => text,
        Err(message) => {
            return Err(message);
        },
    };
    let skins: Vec<UpstreamSkin> = match skins {
        Ok(skins) => skins,
        Err(message) => {
            return Err(message);
        },
    };
    proof {
        decode_utf8_encode_utf8(items_game@);
    }
    import_snapshot(
        bymykel_commit,
        steamtracking_commit,
        caps,
        &skins,
        imported_collections,
        text,
        retrieved_at,
    )
}

/// How many records a file holds: none where it is missing or holds no list.
pub open spec fn record_count(file: Option<Seq<u8>>) -> nat {
    match file {
        Some(bytes) => match parsed_list(bytes) {
            Ok(items) => items.len(),
            Err(_) => 0,
        },
        None => 0,
    }
}

/// Counts the records in the file of contract regressions, if there is one.
pub fn read_regression_count(file: Option<&Vec<u8>>) -> (r: usize)
    ensures
        r == record_count(
            match file {
                Some(bytes) => Some(bytes@),
                None => None,
            },
        ),
{
    match file {
        Some(bytes) => match count_list(bytes.as_slice()) {
            Ok(count) => count,
            Err(_) => 0,
        },
        None => 0,
    }
}

/// What was answered to the question where a branch stands.
#[derive(Debug)]
pub enum CommitAnswer {
    /// Where it stood under the tag that was sent along.
    NotModified,
    Found(Commit),
    Refused(String),
}

/// A commit, and the tag to ask for news with.
#[derive(Debug)]
pub struct Commit {
    pub sha: String,
    pub etag: Option<String>,
}

/// The commit that an answer leads to: the known one where nothing has changed.
pub fn resolve_commit(repository: &str, known: Option<Commit>, answer: CommitAnswer) -> (r: Result<
    Commit,
    String,
>)
    ensures
        match answer {
            CommitAnswer::Found(commit) => r == Ok::<Commit, String>(commit),
            CommitAnswer::NotModified => match known {
                Some(commit) => r == Ok::<Commit, String>(commit),
                None => r matches Err(text) && text@ == lookup_failure(
                    repository@,
                    "304 Not Modified"@,
                ),
            },
            CommitAnswer::Refused(status) => r matches Err(text) && text@ == lookup_failure(
                repository@,
                status@,
            ),
        },
{
    match answer {
        CommitAnswer::Found(commit) => Ok(commit),
        CommitAnswer::NotModified => match known {
            Some(commit) => Ok(commit),
            None => Err(lookup_error(repository, "304 Not Modified")),
        },
        CommitAnswer::Refused(status) => Err(lookup_error(repository, status.as_str())),
    }
}

pub open spec fn lookup_failure(repository: Seq<char>, status: Seq<char>) -> Seq<char> {
    "GitHub commit lookup failed for "@ + repository + ": "@ + status
}

fn lookup_error(repository: &str, status: &str) -> (r: String)
    ensures
        r@ == lookup_failure(repository@, status@),
{
    let mut r: String = join3("GitHub commit lookup failed for ", repository, ": ");
    r.append(status);
    r
}

/// What a finished run adds to the status.
#[derive(Debug)]
pub struct SyncSummary {
    pub bymykel_commit: Commit,
    pub steamtracking_commit: Commit,
    pub imported_skins: usize,
    pub imported_collections: usize,
    pub verification: CapsVerification,
    pub stored_contract_regressions: usize,
}

/// What a run without news adds to the status.
#[derive(Debug)]
pub struct SyncRecheck {
    pub bymykel_commit_etag: Option<String>,
    pub steamtracking_commit_etag: Option<String>,
    pub stored_contract_regressions: usize,
}

/// How a run came out.
#[derive(Debug)]
pub enum SyncOutcome {
    Imported(SyncSummary),
    /// Both sources stand where they stood, so that nothing was downloaded.
    Unchanged(SyncRecheck),
    Failed(String),
}

/// The status before the first run.
pub open spec fn is_initial(
    status: SyncStatus,
    enabled: bool,
    interval_seconds: u64,
    data_dir: Seq<char>,
) -> bool {
    &&& status.enabled == enabled
    &&& status.interval_seconds == interval_seconds
    &&& status.data_dir@ == data_dir
    &&& !status.running
    &&& status.last_started_at is None
    &&& status.last_success_at is None
    &&& status.last_error is None
    &&& status.bymykel_commit is None
    &&& status.steamtracking_commit is None
    &&& status.bymykel_commit_etag is None
    &&& status.steamtracking_commit_etag is None
    &&& status.imported_skins == 0
    &&& status.imported_collections == 0
    &&& status.caps_verification is None
    &&& status.stored_contract_regressions == 0
}

/// The status once a run has begun.
pub open spec fn begun(status: SyncStatus, now: u64) -> SyncStatus {
    SyncStatus { running: true, last_started_at: Some(now), last_error: None, ..status }
}

/// The status once a run has ended.
pub open spec fn ended(status: SyncStatus, outcome: SyncOutcome, now: u64) -> SyncStatus {
    match outcome {
        SyncOutcome::Imported(summary) => SyncStatus {
            running: false,
            last_success_at: Some(now),
            bymykel_commit: Some(summary.bymykel_commit.sha),
            steamtracking_commit: Some(summary.steamtracking_commit.sha),
            bymykel_commit_etag: summary.bymykel_commit.etag,
            steamtracking_commit_etag: summary.steamtracking_commit.etag,
            imported_skins: summary.imported_skins,
            imported_collections: summary.imported_collections,
            caps_verification: Some(summary.verification),
            stored_contract_regressions: summary.stored_contract_regressions,
            ..status
        },
        SyncOutcome::Unchanged(recheck) => SyncStatus {
            running: false,
            last_success_at: Some(now),
            bymykel_commit_etag: recheck.bymykel_commit_etag,
            steamtracking_commit_etag: recheck.steamtracking_commit_etag,
            stored_contract_regressions: recheck.stored_contract_regressions,
            ..status
        },
        SyncOutcome::Failed(error) => SyncStatus {
            running: false,
            last_error: Some(error),
            ..status
        },
    }
}

/// Whether both commits are the ones that were imported last.
pub open spec fn imported_already(
    status: SyncStatus,
    bymykel: Seq<char>,
    steamtracking: Seq<char>,
) -> bool {
    &&& status.bymykel_commit matches Some(commit) && commit@ == bymykel
    &&& status.steamtracking_commit matches Some(commit) && commit@ == steamtracking
}

impl SyncStatus {
    /// The status before the first run.
    pub fn initial(enabled: bool, interval_seconds: u64, data_dir: &str) -> (r: Self)
        ensures
            is_initial(r, enabled, interval_seconds, data_dir@),
    {
        SyncStatus {
            enabled,
            interval_seconds,
            data_dir: data_dir.to_owned(),
            running: false,
            last_started_at: None,
            last_success_at: None,
            last_error: None,
            bymykel_commit: None,
            steamtracking_commit: None,
            bymykel_commit_etag: None,
            steamtracking_commit_etag: None,
            imported_skins: 0,
            imported_collections: 0,
            caps_verification: None,
            stored_contract_regressions: 0,
        }
    }

    /// Begins a run, unless one is under way.
    pub fn begin(&mut self, now: u64) -> (r: bool)
        ensures
            r == !old(self).running,
            *final(self) == if old(self).running {
                *old(self)
            } else {
                begun(*old(self), now)
            },
    {
        if self.running {
            return false;
        }
        self.running = true;
        self.last_started_at = Some(now);
        self.last_error = None;
        true
    }

    /// Whether there is nothing to download.
    pub fn is_current(&self, bymykel: &Commit, steamtracking: &Commit) -> (r: bool)
        ensures
            r == imported_already(*self, bymykel.sha@, steamtracking.sha@),
    {
        match (&self.bymykel_commit, &self.steamtracking_commit) {
            (Some(first), Some(second)) => same_text(first.as_str(), bymykel.sha.as_str())
                && same_text(second.as_str(), steamtracking.sha.as_str()),
            _ => false,
        }
    }

    /// Ends a run.
    pub fn finish(&mut self, outcome: SyncOutcome, now: u64)
        ensures
            *final(self) == ended(*old(self), outcome, now),
    {
        self.running = false;
        match outcome {
            SyncOutcome::Imported(summary) => {
                self.last_success_at = Some(now);
                self.bymykel_commit = Some(summary.bymykel_commit.sha);
                self.steamtracking_commit = Some(summary.steamtracking_commit.sha);
                self.bymykel_commit_etag = summary.bymykel_commit.etag;
                self.steamtracking_commit_etag = summary.steamtracking_commit.etag;
                self.imported_skins = summary.imported_skins;
                self.imported_collections = summary.imported_collections;
                self.caps_verification = Some(summary.verification);
                self.stored_contract_regressions = summary.stored_contract_regressions;
            },
            SyncOutcome::Unchanged(recheck) => {
                self.last_success_at = Some(now);
                self.bymykel_commit_etag = recheck.bymykel_commit_etag;
                self.steamtracking_commit_etag = recheck.steamtracking_commit_etag;
                self.stored_contract_regressions = recheck.stored_contract_regressions;
            },
            SyncOutcome::Failed(error) => {
                self.last_error = Some(error);
            },
        }
    }
}

/// What a run imported last, and what was found in it.
pub open spec fn same_import(a: SyncStatus, b: SyncStatus) -> bool {
    &&& a.bymykel_commit == b.bymykel_commit
    &&& a.steamtracking_commit == b.steamtracking_commit
    &&& a.imported_skins == b.imported_skins
    &&& a.imported_collections == b.imported_collections
    &&& a.caps_verification == b.caps_verification
}

/// A run that has begun keeps others from beginning until it ends; one that
/// fails, or finds nothing new, leaves what the last successful run imported.
pub proof fn law_one_run_at_a_time(
    status: SyncStatus,
    start: u64,
    end: u64,
    outcome: SyncOutcome,
)
    ensures
        begun(status, start).running,
        !ended(begun(status, start), outcome, end).running,
        !(outcome is Imported) ==> same_import(
            ended(begun(status, start), outcome, end),
            status,
        ),
        outcome is Failed ==> {
            let after = ended(begun(status, start), outcome, end);
            &&& after.last_success_at == status.last_success_at
            &&& after.stored_contract_regressions == status.stored_contract_regressions
        },
        !(outcome is Failed) ==> ended(begun(status, start), outcome, end).last_error is None,
{
}

/// What was imported is not downloaded again while its sources stand still.
pub proof fn law_import_stays_current(status: SyncStatus, summary: SyncSummary, now: u64)
    ensures
        imported_already(
            ended(status, SyncOutcome::Imported(summary), now),
            summary.bymykel_commit.sha@,
            summary.steamtracking_commit.sha@,
        ),
{
}

/// The optional text of a setting.
pub open spec fn setting_text(value: Option<&str>) -> Option<Seq<char>> {
    match value {
        Some(value) => Some(value@),
        None => None,
    }
}

/// A number from the settings: a default where none is readable, kept within bounds.
pub open spec fn setting_number(
    value: Option<Seq<char>>,
    default: u64,
    minimum: u64,
    maximum: u64,
) -> u64 {
    let number = match value {
        Some(text) => match spelled_u64(text) {
            Some(number) => number,
            None => default,
        },
        None => default,
    };
    if number < minimum {
        minimum
    } else if number > maximum {
        maximum
    } else {
        number
    }
}

/// Reads a number from the settings.
pub fn read_setting(value: Option<&str>, default: u64, minimum: u64, maximum: u64) -> (r: u64)
    requires
        minimum <= maximum,
    ensures
        r == setting_number(setting_text(value), default, minimum, maximum),
        minimum <= r <= maximum,
{
    let number: u64 = match value {
        Some(text) => match parse_u64(text) {
            Some(number) => number,
            None => default,
        },
        None => default,
    };
    if number < minimum {
        minimum
    } else if number > maximum {
        maximum
    } else {
        number
    }
}

/// How long to wait between runs: a day by default, a minute at least.
pub fn sync_interval(value: Option<&str>) -> (r: u64)
    ensures
        r == setting_number(setting_text(value), 86_400, 60, u64::MAX),
{
    read_setting(value, 86_400, 60, u64::MAX)
}

/// Whether runs are wanted: unless switched off.
pub fn sync_enabled(value: Option<&str>) -> (r: bool)
    ensures
        r == match value {
            Some(value) => value@ != "false"@ && value@ != "0"@,
            None => true,
        },
{
    match value {
        Some(value) => !same_text(value, "false") && !same_text(value, "0"),
        None => true,
    }
}

/// Where the latest commit of a branch is looked up.
pub fn commit_url(repository: &str, branch: &str) -> (r: String)
    ensures
        r@ == "https://api.github.com/repos/"@ + repository@ + "/commits/"@ + branch@,
{
    let mut r: String = join3("https://api.github.com/repos/", repository, "/commits/");
    r.append(branch);
    r
}

/// Where a file of a skin snapshot lies.
pub fn snapshot_url(commit: &str, file: &str) -> (r: String)
    ensures
        r@ == "https://raw.githubusercontent.com/ByMykel/CSGO-API/"@ + commit@
            + "/public/api/en/"@ + file@,
{
    let mut r: String = join3(
        "https://raw.githubusercontent.com/ByMykel/CSGO-API/",
        commit,
        "/public/api/en/",
    );
    r.append(file);
    r
}

/// Where the item definitions of the game lie.
pub fn items_game_url(commit: &str) -> (r: String)
    ensures
        r@ == "https://raw.githubusercontent.com/SteamTracking/GameTracking-CS2/"@ + commit@
            + "/game/csgo/pak01_dir/scripts/items/items_game.txt"@,
{
    join3(
        "https://raw.githubusercontent.com/SteamTracking/GameTracking-CS2/",
        commit,
        "/game/csgo/pak01_dir/scripts/items/items_game.txt",
    )
}

} // verus!
