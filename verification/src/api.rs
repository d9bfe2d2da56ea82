//! What the HTTP interface answers.
use crate::domain::{Failure, PlannerError};
use crate::market::{lemma_encode_concat, page_failure, PageFault};
use crate::slices::{matches_at, stands_at};
use vstd::prelude::*;
use vstd::utf8::encode_utf8;

verus! {

/// A request that was understood and turned down.
pub const UNPROCESSABLE: u16 = 422;

/// A market that could not be read.
pub const BAD_GATEWAY: u16 = 502;

/// A fault of the service itself.
pub const INTERNAL_ERROR: u16 = 500;

/// The status code for a failure.
pub open spec fn failure_code(failure: Failure) -> u16 {
    match failure {
        Failure::Validation(_) => UNPROCESSABLE,
        Failure::Catalog(text) => if stands_at(
            encode_utf8(text),
            encode_utf8("Steam Market listing"@),
            0,
        ) {
            BAD_GATEWAY
        } else {
            INTERNAL_ERROR
        },
    }
}

/// The status code for an error.
pub fn error_status(error: &PlannerError) -> (r: u16)
    ensures
        r == failure_code(error@),
{
    match error {
        PlannerError::Validation(_) => UNPROCESSABLE,
        PlannerError::Catalog(text) => if matches_at(
            text.as_str().as_bytes(),
            "Steam Market listing".as_bytes(),
            0,
        ) {
            BAD_GATEWAY
        } else {
            INTERNAL_ERROR
        },
    }
}

/// What the service says of itself.
#[derive(Debug)]
pub struct HealthResponse {
    pub status: &'static str,
    pub service: &'static str,
    pub math: &'static str,
}

pub fn health() -> (r: HealthResponse)
    ensures
        r.status@ == "ok"@,
        r.service@ == "cs-float-planner-api"@,
        r.math@ == "sequential IEEE-754 float32"@,
{
    HealthResponse {
        status: "ok",
        service: "cs-float-planner-api",
        math: "sequential IEEE-754 float32",
    }
}

/// A market page that could not be read, for whatever reason, is answered as a
/// fault of the market.
pub proof fn law_page_faults_are_bad_gateways(fault: PageFault)
    ensures
        failure_code(page_failure(fault)) == BAD_GATEWAY,
{
    let prefix = "Steam Market listing"@;
    reveal_strlit("Steam Market listing");
    reveal_strlit("Steam Market listing request failed: ");
    reveal_strlit("Steam Market listing request returned HTTP ");
    reveal_strlit("Steam Market listing response could not be read: ");
    reveal_strlit("Steam Market listing HTML is invalid: ");
    let text = page_failure(fault)->Catalog_0;
    let rest = text.subrange(prefix.len() as int, text.len() as int);
    assert(text =~= prefix + rest);
    lemma_encode_concat(prefix, rest);
    assert(encode_utf8(text).subrange(0, encode_utf8(prefix).len() as int) =~= encode_utf8(
        prefix,
    ));
}

} // verus!
