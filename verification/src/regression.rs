//! Records of contracts that were really made, and how well they were predicted.
use crate::catalog::Catalog;
use crate::contract::{
    analyze_contract, contract_average, contract_failure, contract_outcomes, slot_of, slots_of,
    AnalyzeRequest, AnalyzeResponse, InputRequest,
};
use crate::domain::{
    predicted_output, reports, Failure, Float32, Float32Value, PlannerError, Skin,
};
use crate::float32::{absolute, difference, f32_abs, f32_sub};
use crate::planner::{find_outcome, outcome_place};
use crate::text::{join2, padded, padded_text, same_text, trim_text, trimmed};
use crate::urls::{optional_text, parse_url, parsed_url, UrlParts};
use vstd::prelude::*;
use vstd::string::StrSliceExecFns;
use vstd::utf8::encode_utf8;

verus! {

/// How many exact records with evidence are wanted.
pub const TARGET_COUNT: usize = 20;

/// The start value of the content hash.
pub const HASH_START: u64 = 0xcbf2_9ce4_8422_2325;

/// The multiplier of the content hash.
pub const HASH_PRIME: u64 = 0x0000_0100_0000_01b3;

#[derive(Debug, Clone)]
pub struct ActualContractSubmission {
    pub inputs: Vec<InputRequest>,
    pub actual_output_skin_id: String,
    pub actual_output_float: Float32,
    pub evidence_url: Option<String>,
    pub note: Option<String>,
}

#[derive(Debug, Clone)]
pub struct RegressionRecord {
    pub id: String,
    pub submitted_at: u64,
    pub inputs: Vec<InputRequest>,
    pub actual_output_skin_id: String,
    pub actual_output_float: Float32Value,
    /// A public capture, video, Steam profile, or other durable record that
    /// shows the submitted contract and its output.
    pub evidence_url: Option<String>,
    pub note: Option<String>,
    /// The exact catalog revision used for the prediction. Float caps and
    /// collection paths can change upstream, so a record without this
    /// provenance is not reproducible after a catalog sync.
    pub catalog_schema_version: String,
    pub catalog_source_url: String,
    pub predicted_float: Float32Value,
    pub exact_float32_match: bool,
    pub absolute_difference: Float32Value,
}

#[derive(Debug)]
pub struct RegressionStatus {
    pub count: usize,
    pub evidence_backed_records: usize,
    pub evidence_backed_exact_matches: usize,
    pub records_missing_evidence: usize,
    pub exact_matches: usize,
    pub mismatches: usize,
    pub ready_for_target: bool,
    pub target_count: usize,
}

pub open spec fn has_evidence(record: RegressionRecord) -> bool {
    record.evidence_url is Some
}

pub open spec fn is_exact(record: RegressionRecord) -> bool {
    record.exact_float32_match
}

/// How many records satisfy a condition.
pub open spec fn count_where(
    records: Seq<RegressionRecord>,
    wanted: spec_fn(RegressionRecord) -> bool,
) -> nat
    decreases records.len(),
{
    if records.len() == 0 {
        0
    } else {
        count_where(records.drop_last(), wanted) + if wanted(records.last()) {
            1nat
        } else {
            0
        }
    }
}

pub open spec fn evidence_count(records: Seq<RegressionRecord>) -> nat {
    count_where(records, |record: RegressionRecord| has_evidence(record))
}

pub open spec fn exact_count(records: Seq<RegressionRecord>) -> nat {
    count_where(records, |record: RegressionRecord| is_exact(record))
}

pub open spec fn proven_count(records: Seq<RegressionRecord>) -> nat {
    count_where(records, |record: RegressionRecord| has_evidence(record) && is_exact(record))
}

/// Sums up the records.
pub fn regression_status(records: &Vec<RegressionRecord>) -> (r: RegressionStatus)
    ensures
        r.count == records@.len(),
        r.evidence_backed_records == evidence_count(records@),
        r.evidence_backed_exact_matches == proven_count(records@),
        r.records_missing_evidence == records@.len() - evidence_count(records@),
        r.exact_matches == exact_count(records@),
        r.mismatches == records@.len() - exact_count(records@),
        r.ready_for_target <==> proven_count(records@) >= 20,
        r.target_count == 20,
{
    let mut backed: usize = 0;
    let mut exact: usize = 0;
    let mut proven: usize = 0;
    let mut i: usize = 0;
    proof {
        assert(records@.take(0) =~= Seq::empty());
    }
    while i < records.len()
        invariant
            i <= records@.len(),
            backed == evidence_count(records@.take(i as int)),
            exact == exact_count(records@.take(i as int)),
            proven == proven_count(records@.take(i as int)),
            backed <= i,
            exact <= i,
            proven <= i,
        decreases records.len() - i,
    {
        let record: &RegressionRecord = &records[i];
        proof {
            assert(records@.take(i + 1).drop_last() =~= records@.take(i as int));
        }
        if record.evidence_url.is_some() {
            backed = backed + 1;
            if record.exact_float32_match {
                proven = proven + 1;
            }
        }
        if record.exact_float32_match {
            exact = exact + 1;
        }
        i = i + 1;
    }
    proof {
        assert(records@.take(i as int) =~= records@);
    }
    RegressionStatus {
        count: records.len(),
        evidence_backed_records: backed,
        evidence_backed_exact_matches: proven,
        records_missing_evidence: records.len() - backed,
        exact_matches: exact,
        mismatches: records.len() - exact,
        ready_for_target: proven >= TARGET_COUNT,
        target_count: TARGET_COUNT,
    }
}

/// No record is counted as proven that lacks evidence or misses the float, and
/// enough proven records make the collection ready whatever else it holds.
pub proof fn law_readiness_is_kept(records: Seq<RegressionRecord>, record: RegressionRecord)
    ensures
        proven_count(records) <= evidence_count(records),
        proven_count(records) <= exact_count(records),
        proven_count(records) <= proven_count(records.push(record)),
    decreases records.len(),
{
    assert(records.push(record).drop_last() =~= records);
    if records.len() > 0 {
        law_readiness_is_kept(records.drop_last(), record);
    }
}

/// One step of the FNV-1a hash.
pub open spec fn hash_step(hash: u64, byte: u8) -> u64 {
    (hash ^ (byte as u64)).wrapping_mul(HASH_PRIME)
}

/// The FNV-1a hash of bytes, from a given state on.
pub open spec fn hashed(hash: u64, bytes: Seq<u8>) -> u64
    decreases bytes.len(),
{
    if bytes.len() == 0 {
        hash
    } else {
        hash_step(hashed(hash, bytes.drop_last()), bytes.last())
    }
}

/// Takes bytes into a hash.
pub fn fnv1a(hash: &mut u64, bytes: &[u8])
    ensures
        *final(hash) == hashed(*old(hash), bytes@),
{
    let ghost start = *hash;
    let mut i: usize = 0;
    proof {
        assert(bytes@.take(0) =~= Seq::empty());
    }
    while i < bytes.len()
        invariant
            i <= bytes@.len(),
            *hash == hashed(start, bytes@.take(i as int)),
        decreases bytes.len() - i,
    {
        proof {
            assert(bytes@.take(i + 1).drop_last() =~= bytes@.take(i as int));
        }
        *hash = (*hash ^ (bytes[i] as u64)).wrapping_mul(HASH_PRIME);
        i = i + 1;
    }
    proof {
        assert(bytes@.take(i as int) =~= bytes@);
    }
}

/// Hashing in pieces is hashing the whole.
pub proof fn law_hash_concat(hash: u64, a: Seq<u8>, b: Seq<u8>)
    ensures
        hashed(hash, a + b) == hashed(hashed(hash, a), b),
    decreases b.len(),
{
    if b.len() == 0 {
        assert(a + b =~= a);
    } else {
        law_hash_concat(hash, a, b.drop_last());
        assert((a + b).drop_last() =~= a + b.drop_last());
    }
}

/// The bytes of a number, the lowest first.
pub open spec fn little_endian(bits: u32) -> Seq<u8> {
    seq![
        (bits % 256) as u8,
        (bits / 256 % 256) as u8,
        (bits / 0x1_0000 % 256) as u8,
        (bits / 0x100_0000) as u8,
    ]
}

fn little_endian_bytes(bits: u32) -> (r: [u8; 4])
    ensures
        r@ == little_endian(bits),
{
    let r: [u8; 4] = [
        (bits % 256) as u8,
        (bits / 256 % 256) as u8,
        (bits / 0x1_0000 % 256) as u8,
        (bits / 0x100_0000) as u8,
    ];
    assert(r@ =~= little_endian(bits));
    r
}

/// What of the inputs goes into the content key.
pub open spec fn input_bytes(inputs: Seq<InputRequest>) -> Seq<u8>
    decreases inputs.len(),
{
    if inputs.len() == 0 {
        Seq::empty()
    } else {
        input_bytes(inputs.drop_last()) + (encode_utf8(inputs.last().skin_id@) + seq![0u8]
            + little_endian(inputs.last().float_value.bits))
    }
}

/// Everything that goes into the content key of a submission.
pub open spec fn content_bytes(
    submission: ActualContractSubmission,
    evidence_url: Seq<char>,
) -> Seq<u8> {
    input_bytes(submission.inputs@) + encode_utf8(submission.actual_output_skin_id@)
        + little_endian(submission.actual_output_float.bits) + encode_utf8(evidence_url)
}

/// The content key of a submission.
pub open spec fn content_id(
    submission: ActualContractSubmission,
    evidence_url: Seq<char>,
) -> Seq<char> {
    "contract-"@ + padded(
        hashed(HASH_START, content_bytes(submission, evidence_url)) as nat,
        16,
        16,
    )
}

/// The content key: the evidence and every bit of the inputs are part of it, so
/// retries get the same key and cannot silently duplicate data.
pub fn regression_id(submission: &ActualContractSubmission, evidence_url: &str) -> (r: String)
    ensures
        r@ == content_id(*submission, evidence_url@),
{
    let mut hash: u64 = HASH_START;
    let ghost inputs = submission.inputs@;
    let mut i: usize = 0;
    proof {
        assert(inputs.take(0) =~= Seq::empty());
    }
    while i < submission.inputs.len()
        invariant
            i <= submission.inputs@.len(),
            inputs == submission.inputs@,
            hash == hashed(HASH_START, input_bytes(inputs.take(i as int))),
        decreases submission.inputs.len() - i,
    {
        let input: &InputRequest = &submission.inputs[i];
        let ghost id = encode_utf8(input.skin_id@);
        let ghost bits = little_endian(input.float_value.bits);
        let ghost before = input_bytes(inputs.take(i as int));
        proof {
            assert(inputs.take(i + 1).drop_last() =~= inputs.take(i as int));
            law_hash_concat(HASH_START, before, id + seq![0u8] + bits);
            law_hash_concat(hash, id + seq![0u8], bits);
            law_hash_concat(hash, id, seq![0u8]);
        }
        fnv1a(&mut hash, input.skin_id.as_str().as_bytes());
        let separator: [u8; 1] = [0];
        proof {
            assert(separator@ =~= seq![0u8]);
        }
        fnv1a(&mut hash, &separator);
        fnv1a(&mut hash, &little_endian_bytes(input.float_value.to_bits()));
        i = i + 1;
    }
    proof {
        assert(inputs.take(i as int) =~= inputs);
        let (a, b, c, d) = (
            input_bytes(inputs),
            encode_utf8(submission.actual_output_skin_id@),
            little_endian(submission.actual_output_float.bits),
            encode_utf8(evidence_url@),
        );
        law_hash_concat(HASH_START, a + b + c, d);
        law_hash_concat(HASH_START, a + b, c);
        law_hash_concat(HASH_START, a, b);
    }
    fnv1a(&mut hash, submission.actual_output_skin_id.as_str().as_bytes());
    fnv1a(&mut hash, &little_endian_bytes(submission.actual_output_float.to_bits()));
    fnv1a(&mut hash, evidence_url.as_bytes());
    join2("contract-", padded_text(hash as u128, 16, 16).as_str())
}

/// What is said of evidence that is missing.
pub open spec fn missing_evidence() -> Failure {
    Failure::Validation("evidence_url is required for an actual contract regression"@)
}

/// What is said of evidence that is no public web address.
pub open spec fn unusable_evidence() -> Failure {
    Failure::Validation("evidence_url must be an absolute http(s) URL"@)
}

/// Whether a parsed address is one of the public web.
pub open spec fn public_address(
    parts: Result<(Seq<char>, Option<Seq<char>>, Seq<char>, Seq<char>), Seq<char>>,
) -> bool {
    parts matches Ok(given) && (given.0 == "http"@ || given.0 == "https"@) && given.1 is Some
}

/// Why evidence is refused, if it is.
pub open spec fn evidence_failure(value: Option<Seq<char>>) -> Option<Failure> {
    match value {
        None => Some(missing_evidence()),
        Some(text) => if trimmed(text).len() == 0 {
            Some(missing_evidence())
        } else if !public_address(parsed_url(trimmed(text))) {
            Some(unusable_evidence())
        } else {
            None
        },
    }
}

/// The address that accepted evidence is kept under.
pub open spec fn evidence_text(value: Option<Seq<char>>) -> Seq<char> {
    (parsed_url(trimmed(value->0))->Ok_0).3
}

/// Decides on a parsed address.
pub fn accept_address(parsed: Result<UrlParts, String>) -> (r: Result<String, PlannerError>)
    ensures
        match parsed {
            Ok(parts) => if (parts.scheme@ == "http"@ || parts.scheme@ == "https"@)
                && parts.host is Some {
                r == Ok::<String, PlannerError>(parts.text)
            } else {
                r matches Err(error) && error@ == unusable_evidence()
            },
            Err(_) => r matches Err(error) && error@ == unusable_evidence(),
        },
{
    if let Ok(parts) = parsed {
        if (same_text(parts.scheme.as_str(), "http") || same_text(
            parts.scheme.as_str(),
            "https",
        )) && parts.host.is_some() {
            return Ok(parts.text);
        }
    }
    Err(PlannerError::Validation("evidence_url must be an absolute http(s) URL".to_owned()))
}

/// Checks the address of the evidence.
pub fn validate_evidence_url(value: Option<&str>) -> (r: Result<String, PlannerError>)
    ensures
        ({
            let text = match value {
                Some(value) => Some(value@),
                None => None,
            };
            match r {
                Ok(url) => evidence_failure(text) is None && url@ == evidence_text(text),
                Err(error) => evidence_failure(text) == Some(error@),
            }
        }),
{
    let value: &str = match value {
        Some(value) => trim_text(value),
        None => {
            return Err(
                PlannerError::Validation(
                    "evidence_url is required for an actual contract regression".to_owned(),
                ),
            );
        },
    };
    if value.unicode_len() == 0 {
        return Err(
            PlannerError::Validation(
                "evidence_url is required for an actual contract regression".to_owned(),
            ),
        );
    }
    accept_address(parse_url(value))
}

/// Why a submission is refused, if it is.
pub open spec fn submission_failure(
    skins: Seq<Skin>,
    submission: ActualContractSubmission,
) -> Option<Failure> {
    let slots = slots_of(submission.inputs@);
    match evidence_failure(optional_text(submission.evidence_url)) {
        Some(failure) => Some(failure),
        None => match contract_failure(skins, 10, slots, false) {
            Some(failure) => Some(failure),
            None => if outcome_place(
                contract_outcomes(skins, slots),
                submission.actual_output_skin_id@,
            ) is None {
                Some(
                    Failure::Validation(
                        "actual output is not a possible outcome of the submitted contract"@,
                    ),
                )
            } else {
                None
            },
        },
    }
}

/// The float that was predicted for the actual output.
pub open spec fn submission_prediction(
    skins: Seq<Skin>,
    submission: ActualContractSubmission,
) -> Float32 {
    let slots = slots_of(submission.inputs@);
    let outcomes = contract_outcomes(skins, slots);
    predicted_output(
        contract_average(skins, slots),
        outcomes[outcome_place(outcomes, submission.actual_output_skin_id@)->0].item,
    )
}

/// `record` is what is kept of an accepted submission.
pub open spec fn records_submission(
    record: RegressionRecord,
    catalog: Catalog,
    submission: ActualContractSubmission,
    now: u64,
) -> bool {
    let evidence = evidence_text(optional_text(submission.evidence_url));
    let predicted = submission_prediction(catalog.skins(), submission);
    let actual = submission.actual_output_float;
    &&& record.id@ == content_id(submission, evidence)
    &&& record.submitted_at == now
    &&& record.inputs == submission.inputs
    &&& record.actual_output_skin_id == submission.actual_output_skin_id
    &&& reports(record.actual_output_float, actual)
    &&& optional_text(record.evidence_url) == Some(evidence)
    &&& record.note == submission.note
    &&& record.catalog_schema_version == catalog.schema_version
    &&& record.catalog_source_url == catalog.source.url
    &&& reports(record.predicted_float, predicted)
    &&& record.exact_float32_match == (predicted == actual)
    &&& reports(record.absolute_difference, absolute(difference(predicted, actual)))
}

/// Makes the record of a submission.
pub fn prepare_regression_record(
    catalog: &Catalog,
    submission: ActualContractSubmission,
    now: u64,
) -> (r: Result<RegressionRecord, PlannerError>)
    ensures
        match r {
            Ok(record) => {
                &&& submission_failure(catalog.skins(), submission) is None
                &&& records_submission(record, *catalog, submission, now)
            },
            Err(error) => submission_failure(catalog.skins(), submission) == Some(error@),
        },
{
    let ghost given = submission;
    let ghost slots = slots_of(submission.inputs@);
    let evidence: String = match validate_evidence_url(
        match &submission.evidence_url {
            Some(url) => Some(url.as_str()),
            None => None,
        },
    ) {
        Ok(url) => url,
        Err(error) => {
            return Err(error);
        },
    };
    let analysis: AnalyzeResponse = match analyze_contract(
        catalog,
        AnalyzeRequest {
            contract_size: 10,
            stattrak: false,
            inputs: crate::planner::copy_inputs(&submission.inputs),
        },
    ) {
        Ok(analysis) => analysis,
        Err(error) => {
            return Err(error);
        },
    };
    let place: usize = match find_outcome(
        &analysis.outcomes,
        submission.actual_output_skin_id.as_str(),
        Ghost(catalog.skins()),
        Ghost(slots),
    ) {
        Some(place) => place,
        None => {
            return Err(
                PlannerError::Validation(
                    "actual output is not a possible outcome of the submitted contract".to_owned(),
                ),
            );
        },
    };
    let predicted: Float32 = analysis.outcomes[place].predicted_float.value;
    let actual: Float32 = submission.actual_output_float;
    let id: String = regression_id(&submission, evidence.as_str());
    Ok(
        RegressionRecord {
            id,
            submitted_at: now,
            inputs: submission.inputs,
            actual_output_skin_id: submission.actual_output_skin_id,
            actual_output_float: Float32Value::new(actual),
            evidence_url: Some(evidence),
            note: submission.note,
            catalog_schema_version: catalog.schema_version.clone(),
            catalog_source_url: catalog.source.url.clone(),
            predicted_float: Float32Value::new(predicted),
            exact_float32_match: predicted.to_bits() == actual.to_bits(),
            absolute_difference: Float32Value::new(f32_abs(f32_sub(predicted, actual))),
        },
    )
}

/// Whether a record with the given id is kept.
pub open spec fn has_record(records: Seq<RegressionRecord>, id: Seq<char>) -> bool {
    exists|i: int| 0 <= i < records.len() && (#[trigger] records[i]).id@ == id
}

/// Keeps a record, unless one with its id is kept already.
pub fn append_record(records: &mut Vec<RegressionRecord>, record: RegressionRecord) -> (r: Result<
    (),
    PlannerError,
>)
    ensures
        match r {
            Ok(_) => !has_record(old(records)@, record.id@) && final(records)@ == old(
                records,
            )@.push(record),
            Err(error) => {
                &&& has_record(old(records)@, record.id@)
                &&& final(records)@ == old(records)@
                &&& error@ == Failure::Validation(
                    "this exact evidence-backed contract has already been recorded"@,
                )
            },
        },
{
    let mut i: usize = 0;
    while i < records.len()
        invariant
            i <= records@.len(),
            records@ == old(records)@,
            forall|j: int| 0 <= j < i ==> (#[trigger] records@[j]).id@ != record.id@,
        decreases records.len() - i,
    {
        if same_text(records[i].id.as_str(), record.id.as_str()) {
            return Err(
                PlannerError::Validation(
                    "this exact evidence-backed contract has already been recorded".to_owned(),
                ),
            );
        }
        i = i + 1;
    }
    records.push(record);
    Ok(())
}

/// A submission that was recorded once is refused from then on, whenever it
/// comes again and whatever was recorded since.
pub proof fn law_recorded_once(
    catalog: Catalog,
    submission: ActualContractSubmission,
    first: RegressionRecord,
    again: RegressionRecord,
    earlier: u64,
    later: u64,
    before: Seq<RegressionRecord>,
    since: Seq<RegressionRecord>,
)
    requires
        records_submission(first, catalog, submission, earlier),
        records_submission(again, catalog, submission, later),
    ensures
        has_record(before.push(first) + since, again.id@),
{
    let all = before.push(first) + since;
    assert(all[before.len() as int] == first);
}

/// Two submissions tell of the same contract: the same inputs, with the same floats bit
/// for bit, the same output and the same evidence. Notes and inspect links do not count.
pub open spec fn same_contract(
    a: ActualContractSubmission,
    b: ActualContractSubmission,
) -> bool {
    &&& slots_of(a.inputs@) == slots_of(b.inputs@)
    &&& a.actual_output_skin_id@ == b.actual_output_skin_id@
    &&& a.actual_output_float == b.actual_output_float
    &&& evidence_text(optional_text(a.evidence_url)) == evidence_text(
        optional_text(b.evidence_url),
    )
}

/// Only what the slots say of inputs goes into the content key.
proof fn lemma_input_bytes(a: Seq<InputRequest>, b: Seq<InputRequest>)
    requires
        slots_of(a) == slots_of(b),
    ensures
        input_bytes(a) == input_bytes(b),
    decreases a.len(),
{
    assert(slots_of(a).len() == slots_of(b).len());
    if a.len() > 0 {
        assert(slots_of(a.drop_last()) =~= slots_of(a).drop_last());
        assert(slots_of(b.drop_last()) =~= slots_of(b).drop_last());
        lemma_input_bytes(a.drop_last(), b.drop_last());
        assert(slots_of(a).last() == slot_of(a.last()));
        assert(slots_of(b).last() == slot_of(b.last()));
    }
}

/// A contract that was recorded once is refused from then on, with whatever note and
/// inspect links it is submitted again, whatever the catalog has become, and whatever
/// was recorded since.
pub proof fn law_same_contract_recorded_once(
    catalog: Catalog,
    other_catalog: Catalog,
    submission: ActualContractSubmission,
    other: ActualContractSubmission,
    first: RegressionRecord,
    again: RegressionRecord,
    earlier: u64,
    later: u64,
    before: Seq<RegressionRecord>,
    since: Seq<RegressionRecord>,
)
    requires
        same_contract(submission, other),
        records_submission(first, catalog, submission, earlier),
        records_submission(again, other_catalog, other, later),
    ensures
        first.id@ == again.id@,
        has_record(before.push(first) + since, again.id@),
{
    let all = before.push(first) + since;
    lemma_input_bytes(submission.inputs@, other.inputs@);
    assert(all[before.len() as int] == first);
}

} // verus!
