//! What is recorded of contracts that were carried out.
use crate::acceptance::{law_which_contracts_are_analyzed, makes_contract, orderly};
use crate::accuracy::gap;
use crate::catalog::Catalog;
use crate::contract::{
    contract_average, contract_failure, contract_outcomes, describes_contract, describes_outcome,
    slots_of, yielded_rarity, AnalyzeResponse, InputRequest, Slot,
};
use crate::domain::Skin;
use crate::ideal::lemma_place_has_id;
use crate::planner::outcome_place;
use crate::regression::{
    content_bytes, evidence_failure, hash_step, hashed, input_bytes, little_endian,
    records_submission, regression_id, regression_status, submission_failure, ActualContractSubmission,
    RegressionRecord, RegressionStatus, HASH_START,
};
use crate::rounding::nearest;
use crate::text::padded;
use crate::urls::optional_text;
use crate::wear::lemma_distance;
use crate::yields::{can_come_out, items_of, lemma_outcome_skins, outcome_skins};
use vstd::prelude::*;

verus! {

/// One more record is counted once, among those with evidence where it has some, among the
/// exact ones where the predicted float came out, and towards readiness where both hold.
/// Twenty of those make the collection ready.
pub proof fn law_one_more_record(
    records: Vec<RegressionRecord>,
    more: Vec<RegressionRecord>,
    record: RegressionRecord,
    before: RegressionStatus,
    after: RegressionStatus,
)
    requires
        more@ == records@.push(record),
        call_ensures(regression_status, (&records,), before),
        call_ensures(regression_status, (&more,), after),
    ensures
        after.count == before.count + 1,
        after.evidence_backed_records == before.evidence_backed_records + if record.evidence_url is Some {
            1int
        } else {
            0
        },
        after.records_missing_evidence == before.records_missing_evidence
            + if record.evidence_url is Some {
            0int
        } else {
            1
        },
        after.exact_matches == before.exact_matches + if record.exact_float32_match {
            1int
        } else {
            0
        },
        after.mismatches == before.mismatches + if record.exact_float32_match {
            0int
        } else {
            1
        },
        after.evidence_backed_exact_matches == before.evidence_backed_exact_matches
            + if record.evidence_url is Some && record.exact_float32_match {
            1int
        } else {
            0
        },
        after.ready_for_target <==> after.evidence_backed_exact_matches >= 20,
        after.target_count == 20,
        records@.len() == 0 ==> before.count == 0 && before.exact_matches == 0
            && before.evidence_backed_records == 0 && before.mismatches == 0,
{
    assert(more@.drop_last() =~= records@);
}

/// A record compares what came out with what the analysis of the contract predicts for the
/// skin that came out: it is exact where the two floats have the same bits, and the
/// difference is how far they lie apart.
#[verifier::rlimit(40)]
pub proof fn law_record_compares(
    record: RegressionRecord,
    catalog: Catalog,
    submission: ActualContractSubmission,
    now: u64,
    analysis: AnalyzeResponse,
) -> (j: int)
    requires
        submission_failure(catalog.skins(), submission) is None,
        records_submission(record, catalog, submission, now),
        describes_contract(analysis, catalog.skins(), submission.inputs@),
    ensures
        0 <= j < analysis.outcomes@.len(),
        analysis.outcomes@[j].skin_id@ == submission.actual_output_skin_id@,
        record.actual_output_skin_id@ == submission.actual_output_skin_id@,
        record.predicted_float.value == analysis.outcomes@[j].predicted_float.value,
        record.actual_output_float.bits == submission.actual_output_float.bits,
        record.exact_float32_match <==> record.predicted_float.bits
            == submission.actual_output_float.bits,
        record.predicted_float.value.finite() && submission.actual_output_float.finite()
            ==> record.absolute_difference.value.rank() == nearest(
            gap(record.predicted_float.value.units(), submission.actual_output_float.units()),
            1,
        ),
        record.submitted_at == now,
        record.inputs@ == submission.inputs@,
        record.catalog_schema_version@ == catalog.schema_version@,
        record.evidence_url is Some,
{
    let slots = slots_of(submission.inputs@);
    let entries = contract_outcomes(catalog.skins(), slots);
    lemma_place_has_id(entries, submission.actual_output_skin_id@);
    let j = outcome_place(entries, submission.actual_output_skin_id@)->0;
    assert(describes_outcome(
        analysis.outcomes@[j],
        catalog.skins(),
        entries[j],
        yielded_rarity(catalog.skins(), slots),
        slots.len(),
        contract_average(catalog.skins(), slots),
    ));
    if record.predicted_float.value.finite() && submission.actual_output_float.finite() {
        lemma_distance(record.predicted_float.value, submission.actual_output_float);
    }
    j
}

/// Where an outcome has an id, a place for it is found.
proof fn lemma_place_found(outcomes: Seq<crate::tally::Entry<Skin>>, id: Seq<char>, i: int)
    requires
        0 <= i < outcomes.len(),
        outcomes[i].item.id@ == id,
    ensures
        outcome_place(outcomes, id) is Some,
    decreases outcomes.len(),
{
    if i < outcomes.len() - 1 {
        assert(outcomes.drop_last()[i] == outcomes[i]);
        lemma_place_found(outcomes.drop_last(), id, i);
    } else {
        assert(outcomes.last() == outcomes[i]);
    }
}

/// A skin with this id can come out of the slots.
pub open spec fn can_have_come_out(skins: Seq<Skin>, slots: Seq<Slot>, id: Seq<char>) -> bool {
    exists|k: int|
        0 <= k < skins.len() && (#[trigger] skins[k]).id@ == id && can_come_out(
            skins,
            slots,
            skins[k],
        )
}

/// What is listed among the outcomes is what can come out.
pub(crate) proof fn lemma_output_possible(skins: Seq<Skin>, slots: Seq<Slot>, listed: Seq<Skin>, id: Seq<char>)
    requires
        outcome_skins(skins, slots, listed),
    ensures
        can_have_come_out(skins, slots, id) <==> exists|j: int|
            0 <= j < listed.len() && (#[trigger] listed[j]).id@ == id,
{
    if exists|j: int| 0 <= j < listed.len() && (#[trigger] listed[j]).id@ == id {
        let j = choose|j: int| 0 <= j < listed.len() && (#[trigger] listed[j]).id@ == id;
        assert(skins.contains(listed[j]) && can_come_out(skins, slots, listed[j]));
        let k = choose|k: int| 0 <= k < skins.len() && skins[k] == listed[j];
        assert(skins[k].id@ == id);
    }
    if can_have_come_out(skins, slots, id) {
        let k = choose|k: int|
            0 <= k < skins.len() && (#[trigger] skins[k]).id@ == id && can_come_out(
                skins,
                slots,
                skins[k],
            );
        assert(listed.contains(skins[k]));
        let j = choose|j: int| 0 <= j < listed.len() && listed[j] == skins[k];
        assert(listed[j].id@ == id);
    }
}

/// The place of an outcome is found where one has its id.
pub(crate) proof fn lemma_place_is_there(outcomes: Seq<crate::tally::Entry<Skin>>, id: Seq<char>)
    ensures
        outcome_place(outcomes, id) is Some <==> exists|j: int|
            0 <= j < items_of(outcomes).len() && (#[trigger] items_of(outcomes)[j]).id@ == id,
{
    let listed = items_of(outcomes);
    lemma_place_has_id(outcomes, id);
    if let Some(j) = outcome_place(outcomes, id) {
        assert(listed[j].id@ == id);
    }
    if exists|j: int| 0 <= j < listed.len() && (#[trigger] listed[j]).id@ == id {
        let j = choose|j: int| 0 <= j < listed.len() && (#[trigger] listed[j]).id@ == id;
        lemma_place_found(outcomes, id, j);
    }
}

/// A submission is recorded exactly where it gives usable evidence, its ten inputs make a
/// contract of ordinary items, and what came out can come out of it.
pub proof fn law_which_submissions_are_recorded(
    skins: Seq<Skin>,
    submission: ActualContractSubmission,
)
    requires
        orderly(skins),
        skins.len() <= usize::MAX,
    ensures
        submission_failure(skins, submission) is None <==> {
            &&& evidence_failure(optional_text(submission.evidence_url)) is None
            &&& submission.inputs@.len() == 10
            &&& makes_contract(skins, slots_of(submission.inputs@), false)
            &&& can_have_come_out(
                skins,
                slots_of(submission.inputs@),
                submission.actual_output_skin_id@,
            )
        },
{
    let slots = slots_of(submission.inputs@);
    let id = submission.actual_output_skin_id@;
    let entries = contract_outcomes(skins, slots);
    assert((contract_failure(skins, 10, slots, false) is None) == (slots.len() == 10
        && makes_contract(skins, slots, false))) by {
        law_which_contracts_are_analyzed(skins, 10, slots, false);
    }
    if contract_failure(skins, 10, slots, false) is None {
        assert((outcome_place(entries, id) is Some) == can_have_come_out(skins, slots, id)) by {
            lemma_outcome_skins(skins, slots, false);
            lemma_output_possible(skins, slots, items_of(entries), id);
            lemma_place_is_there(entries, id);
        }
    }
}

/// Without evidence, or with nothing but blanks, nothing is recorded.
pub proof fn law_no_evidence_no_record(
    skins: Seq<Skin>,
    submission: ActualContractSubmission,
)
    requires
        submission.evidence_url is None,
    ensures
        submission_failure(skins, submission) is Some,
{
}

/// The bytes of a number give it back.
pub proof fn law_bytes_of_a_number(bits: u32)
    ensures
        little_endian(bits).len() == 4,
        bits == little_endian(bits)[0] + 0x100 * little_endian(bits)[1] + 0x1_0000 * little_endian(
            bits,
        )[2] + 0x100_0000 * little_endian(bits)[3],
{
}

/// The hash is FNV-1a: a byte is added to a state by an exclusive or and a product.
pub proof fn law_hash_is_fnv1a(hash: u64, byte: u8)
    ensures
        HASH_START == 14695981039346656037,
        hashed(hash, seq![byte]) == ((hash ^ (byte as u64)) * 1099511628211)
            % 0x1_0000_0000_0000_0000,
        hashed(hash, Seq::empty()) == hash,
{
    assert(seq![byte].drop_last() =~= Seq::empty());
    assert(hashed(hash, Seq::empty()) == hash);
    assert(seq![byte].last() == byte);
    assert(hashed(hash, seq![byte]) == hash_step(hash, byte));
}

/// Inputs with the same skins but another float leave other bytes.
proof fn lemma_floats_in_bytes(a: Seq<InputRequest>, b: Seq<InputRequest>)
    requires
        a.len() == b.len(),
        forall|i: int| 0 <= i < a.len() ==> (#[trigger] a[i]).skin_id@ == b[i].skin_id@,
    ensures
        input_bytes(a).len() == input_bytes(b).len(),
        input_bytes(a) == input_bytes(b) ==> forall|i: int|
            0 <= i < a.len() ==> (#[trigger] a[i]).float_value == b[i].float_value,
    decreases a.len(),
{
    if a.len() > 0 {
        let (x, y) = (a.drop_last(), b.drop_last());
        let n = a.len() - 1;
        assert forall|i: int| 0 <= i < x.len() implies (#[trigger] x[i]).skin_id@
            == y[i].skin_id@ by {
            assert(x[i] == a[i] && y[i] == b[i]);
        }
        lemma_floats_in_bytes(x, y);
        assert(a[n] == a.last() && b[n] == b.last());
        let id = vstd::utf8::encode_utf8(a[n].skin_id@);
        let (s, t) = (little_endian(a[n].float_value.bits), little_endian(b[n].float_value.bits));
        let (l, m) = (input_bytes(x).len() as int, id.len() as int);
        if input_bytes(a) == input_bytes(b) {
            assert(input_bytes(x) =~= input_bytes(a).take(l));
            assert(input_bytes(y) =~= input_bytes(b).take(l));
            assert(s =~= input_bytes(a).subrange(l + m + 1, l + m + 5));
            assert(t =~= input_bytes(b).subrange(l + m + 1, l + m + 5));
            law_bytes_of_a_number(a[n].float_value.bits);
            law_bytes_of_a_number(b[n].float_value.bits);
            assert forall|i: int| 0 <= i < a.len() implies (#[trigger] a[i]).float_value
                == b[i].float_value by {
                if i < n {
                    assert(x[i] == a[i] && y[i] == b[i]);
                }
            }
        }
    }
}

/// Every float counts for the identity of a record: contracts with the same skins and the
/// same evidence are hashed from the same bytes only where all their floats are the same.
pub proof fn law_every_float_counts(
    a: ActualContractSubmission,
    b: ActualContractSubmission,
    evidence: Seq<char>,
)
    requires
        a.inputs@.len() == b.inputs@.len(),
        forall|i: int|
            0 <= i < a.inputs@.len() ==> (#[trigger] a.inputs@[i]).skin_id@
                == b.inputs@[i].skin_id@,
        a.actual_output_skin_id@ == b.actual_output_skin_id@,
        content_bytes(a, evidence) == content_bytes(b, evidence),
    ensures
        forall|i: int|
            0 <= i < a.inputs@.len() ==> (#[trigger] a.inputs@[i]).float_value
                == b.inputs@[i].float_value,
        a.actual_output_float == b.actual_output_float,
{
    lemma_floats_in_bytes(a.inputs@, b.inputs@);
    let (x, y) = (content_bytes(a, evidence), content_bytes(b, evidence));
    let id = vstd::utf8::encode_utf8(a.actual_output_skin_id@);
    let (l, m) = (input_bytes(a.inputs@).len() as int, id.len() as int);
    let (s, t) = (
        little_endian(a.actual_output_float.bits),
        little_endian(b.actual_output_float.bits),
    );
    assert(input_bytes(a.inputs@) =~= x.take(l));
    assert(input_bytes(b.inputs@) =~= y.take(l));
    assert(s =~= x.subrange(l + m, l + m + 4));
    assert(t =~= y.subrange(l + m, l + m + 4));
    law_bytes_of_a_number(a.actual_output_float.bits);
    law_bytes_of_a_number(b.actual_output_float.bits);
}

/// The id of a record has a fixed form, and depends on nothing but the bytes that are hashed.
pub proof fn law_ids_of_records(
    a: ActualContractSubmission,
    b: ActualContractSubmission,
    evidence: &str,
    r: String,
    s: String,
)
    requires
        call_ensures(regression_id, (&a, evidence), r),
        call_ensures(regression_id, (&b, evidence), s),
    ensures
        r@.len() == 25,
        r@.take(9) == "contract-"@,
        content_bytes(a, evidence@) == content_bytes(b, evidence@) ==> r@ == s@,
{
    reveal_strlit("contract-");
    assert("contract-"@.len() == 9);
    let hash = hashed(HASH_START, content_bytes(a, evidence@)) as nat;
    lemma_padded_length(hash, 16, 16);
    assert(r@.take(9) =~= "contract-"@);
}

proof fn lemma_padded_length(n: nat, base: nat, width: nat)
    requires
        base > 0,
    ensures
        padded(n, base, width).len() == width,
    decreases width,
{
    if width > 0 {
        lemma_padded_length(n / base, base, (width - 1) as nat);
    }
}

} // verus!
