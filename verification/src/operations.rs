//! What runs, settings and answers amount to.
use crate::api::failure_code;
use crate::desktop::{
    allows_market, answer_listings, answer_warning, is_corrupt, migration_steps, new_records,
    read_switch, shows_status, takes_over, DesktopSettings, FileImport, JsonFiles,
    KeptRows, MarketAnswer, MigrationSteps,
};
use crate::domain::{Failure, FixtureListing};
use crate::market::{
    accept_base, choose_provider, disabled_status, is_fresh, pause_before_request, steam_status,
    MarketStatus, ProviderKind,
};
use crate::regression::{evidence_failure, has_record, RegressionRecord};
use crate::slices::stands_at;
use crate::spelling::law_trimmed;
use crate::sync::{
    begun, ended, imported_already, resolve_commit, setting_number, sync_enabled,
    sync_interval, Commit, CommitAnswer, SyncOutcome, SyncStatus, SyncSummary,
};
use crate::text::{spelled_u64, trimmed, white_space};
use crate::urls::{parsed_url, UrlParts};
use vstd::prelude::*;
use vstd::utf8::encode_utf8;

verus! {

/// Listings stay fresh up to their time, not longer: what is fresh was fresh before, and at
/// its time it no longer is.
pub proof fn law_freshness(age: u128, younger: u128, ttl: u128, a: bool, b: bool, c: bool)
    requires
        younger <= age,
        call_ensures(is_fresh, (age, ttl), a),
        call_ensures(is_fresh, (younger, ttl), b),
        call_ensures(is_fresh, (ttl, ttl), c),
    ensures
        a ==> b,
        !c,
        age + 1 == ttl ==> a,
{
}

/// Requests keep their distance, and no more: with the pause the least distance is reached,
/// and a pause beyond it is never made. The first request needs none.
pub proof fn law_pause_keeps_distance(since: u128, minimum: u128, pause: u128, first: u128)
    requires
        call_ensures(pause_before_request, (Some(since), minimum), pause),
        call_ensures(pause_before_request, (None::<u128>, minimum), first),
    ensures
        since + pause >= minimum,
        pause > 0 ==> since + pause == minimum,
        first == 0,
{
}

/// A provider that is switched off shows nothing of the other; both name the number of
/// candidates that a skin can have.
pub proof fn law_provider_statuses(
    ttl: u64,
    interval: u64,
    cached: usize,
    off: MarketStatus,
    on: MarketStatus,
)
    requires
        call_ensures(disabled_status, (), off),
        call_ensures(steam_status, (ttl, interval, cached), on),
    ensures
        !off.enabled && on.enabled,
        off.provider@ != on.provider@,
        on.cache_ttl_seconds == ttl && off.cache_ttl_seconds == 0,
        on.minimum_request_interval_ms == interval && off.minimum_request_interval_ms == 0,
        on.cached_searches == cached && off.cached_searches == 0,
        on.max_candidates_per_skin == 200 && off.max_candidates_per_skin == 200,
{
    reveal_strlit("disabled");
    reveal_strlit("steam_community_market");
    assert("disabled"@.len() == 8 && "steam_community_market"@.len() == 22);
}

/// The market is only asked where the user has both switched it on and taken note of what
/// that means; what is shown says which of the two is missing.
pub proof fn law_market_needs_consent(
    settings: DesktopSettings,
    before: MarketStatus,
    after: MarketStatus,
)
    requires
        shows_status(after, before, settings),
    ensures
        allows_market(settings) ==> settings.market_enabled
            && settings.live_market_notice_acknowledged,
        !settings.market_enabled ==> !after.enabled && after.provider@ == "disabled_by_user"@,
        settings.market_enabled && !settings.live_market_notice_acknowledged ==> !after.enabled
            && after.provider@ == "waiting_for_notice_acknowledgement"@,
        settings.market_enabled && settings.live_market_notice_acknowledged ==> allows_market(
            settings,
        ) && after.enabled && after.provider@ == before.provider@,
        after.cached_searches == before.cached_searches,
{
}

/// Where the market was not asked, or had nothing to say, the catalog's own listings stand;
/// what it answered takes their place; and where it failed there are none, with a warning
/// that says so.
pub proof fn law_answers_of_the_market(answer: MarketAnswer, own: Seq<FixtureListing>)
    ensures
        answer is NotAsked ==> answer_listings(answer, own) == own && answer_warning(
            answer,
        ) is None,
        answer matches MarketAnswer::Listings(given) ==> answer_warning(answer) is None
            && answer_listings(answer, own) == match given {
            Some(listings) => listings@,
            None => own,
        },
        (answer is Failed || answer is TimedOut) ==> answer_listings(answer, own).len() == 0
            && answer_warning(answer) is Some,
{
}

/// A run that imports has what it imported, and no error; it is over, and the switches are
/// as they were.
pub proof fn law_run_that_imports(
    status: SyncStatus,
    start: u64,
    end: u64,
    summary: SyncSummary,
)
    ensures
        ({
            let after = ended(begun(status, start), SyncOutcome::Imported(summary), end);
            &&& !after.running
            &&& after.last_started_at == Some(start)
            &&& after.last_success_at == Some(end)
            &&& after.last_error is None
            &&& after.bymykel_commit == Some(summary.bymykel_commit.sha)
            &&& after.steamtracking_commit == Some(summary.steamtracking_commit.sha)
            &&& after.bymykel_commit_etag == summary.bymykel_commit.etag
            &&& after.steamtracking_commit_etag == summary.steamtracking_commit.etag
            &&& after.imported_skins == summary.imported_skins
            &&& after.imported_collections == summary.imported_collections
            &&& after.caps_verification == Some(summary.verification)
            &&& after.stored_contract_regressions == summary.stored_contract_regressions
            &&& after.enabled == status.enabled
            &&& after.interval_seconds == status.interval_seconds
            &&& after.data_dir == status.data_dir
        }),
{
}

/// A run that fails keeps what there was, and says why; one that finds nothing new keeps it
/// as well, and counts as a success.
pub proof fn law_run_that_imports_nothing(
    status: SyncStatus,
    start: u64,
    end: u64,
    outcome: SyncOutcome,
)
    requires
        !(outcome is Imported),
    ensures
        ({
            let after = ended(begun(status, start), outcome, end);
            &&& !after.running
            &&& after.last_started_at == Some(start)
            &&& after.bymykel_commit == status.bymykel_commit
            &&& after.steamtracking_commit == status.steamtracking_commit
            &&& after.imported_skins == status.imported_skins
            &&& after.imported_collections == status.imported_collections
            &&& after.caps_verification == status.caps_verification
            &&& outcome matches SyncOutcome::Failed(error) ==> after.last_error == Some(error)
                && after.last_success_at == status.last_success_at && after.bymykel_commit_etag
                == status.bymykel_commit_etag
            &&& outcome matches SyncOutcome::Unchanged(recheck) ==> after.last_error is None
                && after.last_success_at == Some(end) && after.bymykel_commit_etag
                == recheck.bymykel_commit_etag && after.steamtracking_commit_etag
                == recheck.steamtracking_commit_etag && after.stored_contract_regressions
                == recheck.stored_contract_regressions
        }),
{
}

/// Something is imported again as soon as one of its two sources has moved.
pub proof fn law_moved_source_is_imported(
    status: SyncStatus,
    bymykel: Seq<char>,
    steamtracking: Seq<char>,
)
    requires
        imported_already(status, bymykel, steamtracking),
    ensures
        status.bymykel_commit is Some && status.bymykel_commit->0@ == bymykel,
        status.steamtracking_commit is Some && status.steamtracking_commit->0@ == steamtracking,
        forall|other: Seq<char>|
            other != bymykel ==> !(#[trigger] imported_already(status, other, steamtracking)),
        forall|other: Seq<char>|
            other != steamtracking ==> !(#[trigger] imported_already(status, bymykel, other)),
{
}

/// A branch that has not moved stands where it stood; one that has stands where the answer
/// says; without either there is no commit.
pub proof fn law_where_a_branch_stands(
    repository: &str,
    known: Option<Commit>,
    answer: CommitAnswer,
    r: Result<Commit, String>,
)
    requires
        call_ensures(resolve_commit, (repository, known, answer), r),
    ensures
        answer matches CommitAnswer::Found(commit) ==> r is Ok && r->Ok_0 == commit,
        answer is NotModified && known is Some ==> r is Ok && r->Ok_0 == known->0,
        answer is NotModified && known is None ==> r is Err,
        answer is Refused ==> r is Err,
{
}

/// A number from the settings lies within its bounds, and is the one that was given where
/// that lies within them.
pub proof fn law_setting_in_bounds(
    value: Option<Seq<char>>,
    default: u64,
    minimum: u64,
    maximum: u64,
)
    requires
        minimum <= default <= maximum,
    ensures
        minimum <= setting_number(value, default, minimum, maximum) <= maximum,
        value is None ==> setting_number(value, default, minimum, maximum) == default,
        value matches Some(text) ==> spelled_u64(text) matches Some(n) ==> minimum <= n <= maximum
            ==> setting_number(value, default, minimum, maximum) == n,
        value matches Some(text) ==> spelled_u64(text) is None ==> setting_number(
            value,
            default,
            minimum,
            maximum,
        ) == default,
{
}

/// Who asked for something wrong gets 422, what the market's pages did wrong is 502, and
/// everything else is 500.
pub proof fn law_answer_codes(text: Seq<char>)
    ensures
        failure_code(Failure::Validation(text)) == 422,
        failure_code(Failure::Catalog(text)) == 502 <==> stands_at(
            encode_utf8(text),
            encode_utf8("Steam Market listing"@),
            0,
        ),
        failure_code(Failure::Catalog(text)) == 502 || failure_code(Failure::Catalog(text)) == 500,
{
}

/// A database is set up step by step, and backed up before any step where there is one: from
/// nothing both steps are made, from the first version only the second, and then none.
pub proof fn law_migration(version: u32, file_exists: bool, steps: MigrationSteps)
    requires
        call_ensures(migration_steps, (version, file_exists), steps),
    ensures
        steps.create_base_tables ==> steps.create_catalog_tables,
        steps.back_up <==> file_exists && steps.create_catalog_tables,
        version == 0 ==> steps.create_base_tables,
        version == 1 ==> !steps.create_base_tables && steps.create_catalog_tables,
        version >= 2 ==> !steps.create_catalog_tables,
{
}

/// Records that are taken over are new, and stand once: each is one of the file's, none is
/// kept already, no two have one id, and each of the file's is there or kept.
pub proof fn law_new_records(kept: Seq<Seq<char>>, records: Seq<RegressionRecord>)
    ensures
        ({
            let r = new_records(kept, records);
            &&& forall|i: int|
                0 <= i < r.len() ==> records.contains(#[trigger] r[i]) && !kept.contains(r[i].id@)
            &&& forall|i: int, j: int|
                0 <= i < j < r.len() ==> (#[trigger] r[i]).id@ != (#[trigger] r[j]).id@
            &&& forall|h: int|
                0 <= h < records.len() ==> kept.contains((#[trigger] records[h]).id@)
                    || has_record(r, records[h].id@)
        }),
    decreases records.len(),
{
    if records.len() > 0 {
        let shorter = records.drop_last();
        let front = new_records(kept, shorter);
        let r = new_records(kept, records);
        let n = records.len() - 1;
        law_new_records(kept, shorter);
        assert(records[n] == records.last());
        assert forall|i: int| 0 <= i < r.len() implies records.contains(#[trigger] r[i])
            && !kept.contains(r[i].id@) by {
            if i < front.len() {
                assert(r[i] == front[i]);
                let h = choose|h: int| 0 <= h < shorter.len() && shorter[h] == front[i];
                assert(records[h] == front[i]);
            }
        }
        assert forall|i: int, j: int| 0 <= i < j < r.len() implies (#[trigger] r[i]).id@ != (
        #[trigger] r[j]).id@ by {
            assert(r[i] == front[i]);
            if j < front.len() {
                assert(r[j] == front[j]);
            }
        }
        assert forall|h: int| 0 <= h < records.len() implies kept.contains(
            (#[trigger] records[h]).id@,
        ) || has_record(r, records[h].id@) by {
            if h < n {
                assert(records[h] == shorter[h]);
                if !kept.contains(records[h].id@) {
                    let i = choose|i: int|
                        0 <= i < front.len() && (#[trigger] front[i]).id@ == shorter[h].id@;
                    assert(r[i] == front[i]);
                }
            } else if r.len() > front.len() {
                assert(r[r.len() - 1] == records[n]);
            }
        }
    }
}

/// The files are only taken over where nothing stands in their place: a catalog where none
/// is active, a status where there is none.
pub proof fn law_files_replace_nothing(r: FileImport, kept: KeptRows, files: JsonFiles)
    requires
        takes_over(r, kept, files),
    ensures
        kept.active ==> r.catalog is None && !r.new_version,
        files.catalog is None ==> r.catalog is None,
        kept.state ==> r.status is None,
        !kept.state ==> r.status == files.status,
        files.records is None ==> r.records@.len() == 0,
{
}

/// A database is only kept where its check says that it is in order.
pub proof fn law_integrity(integrity: &str, corrupt: bool)
    requires
        call_ensures(is_corrupt, (integrity,), corrupt),
    ensures
        !corrupt <==> integrity@ == "ok"@,
{
}

/// Runs come once a day where nothing else is said, and never more often than once a minute;
/// they are wanted unless they are switched off.
pub proof fn law_sync_settings(
    value: Option<&str>,
    interval: u64,
    enabled: bool,
    usual: u64,
    wanted: bool,
)
    requires
        call_ensures(sync_interval, (value,), interval),
        call_ensures(sync_enabled, (value,), enabled),
        call_ensures(sync_interval, (None::<&str>,), usual),
        call_ensures(sync_enabled, (None::<&str>,), wanted),
    ensures
        interval >= 60,
        usual == 24 * 60 * 60,
        value matches Some(text) ==> spelled_u64(text@) matches Some(n) ==> n >= 60 ==> interval
            == n,
        wanted,
        enabled <==> value is None || (value->0@ != "false"@ && value->0@ != "0"@),
{
}

/// A switch is on exactly where its text is "true"; without a text it cannot be read.
pub proof fn law_switch_is_read(key: &str, value: Option<&str>, r: Result<bool, String>)
    requires
        call_ensures(read_switch, (key, value), r),
    ensures
        value is None <==> r is Err,
        value matches Some(text) ==> (r->Ok_0 <==> text@ == "true"@),
{
}

/// The market is off under three words, on under three others, and everything else is
/// refused.
pub proof fn law_provider_words(word: &str, r: Result<ProviderKind, String>)
    requires
        call_ensures(choose_provider, (word,), r),
    ensures
        (r matches Ok(kind) && kind is Disabled) <==> word@ == ""@ || word@ == "disabled"@
            || word@ == "none"@,
        (r matches Ok(kind) && kind is SteamCommunityMarket) <==> word@ == "steam"@ || word@
            == "steam_market"@ || word@ == "steam_community_market"@,
{
    reveal_strlit("");
    reveal_strlit("disabled");
    reveal_strlit("none");
    reveal_strlit("steam");
    reveal_strlit("steam_market");
    reveal_strlit("steam_community_market");
    assert(""@.len() == 0 && "disabled"@.len() == 8 && "none"@.len() == 4 && "steam"@.len() == 5
        && "steam_market"@.len() == 12 && "steam_community_market"@.len() == 22);
}

/// Evidence is an address of the web with a host; blanks around it do not matter.
pub proof fn law_usable_evidence(before: Seq<char>, text: Seq<char>, after: Seq<char>)
    requires
        forall|i: int| 0 <= i < before.len() ==> white_space(#[trigger] before[i]),
        forall|i: int| 0 <= i < after.len() ==> white_space(#[trigger] after[i]),
        text.len() > 0,
        !white_space(text[0]),
        !white_space(text.last()),
    ensures
        evidence_failure(Some(before + text + after)) is None <==> {
            &&& parsed_url(text) is Ok
            &&& parsed_url(text)->Ok_0.0 == "http"@ || parsed_url(text)->Ok_0.0 == "https"@
            &&& parsed_url(text)->Ok_0.1 is Some
        },
        evidence_failure(Some(before)) is Some,
        evidence_failure(None) is Some,
{
    law_trimmed(before, text, after);
    lemma_all_blank(before);
}

/// Nothing is left of blanks.
proof fn lemma_all_blank(text: Seq<char>)
    requires
        forall|i: int| 0 <= i < text.len() ==> white_space(#[trigger] text[i]),
    ensures
        trimmed(text).len() == 0,
    decreases text.len(),
{
    if text.len() > 0 {
        assert(white_space(text[0]));
        let rest = text.drop_first();
        assert forall|i: int| 0 <= i < rest.len() implies white_space(#[trigger] rest[i]) by {
            assert(rest[i] == text[i + 1]);
        }
        lemma_all_blank(rest);
    }
}

/// A base address is only taken where its path ends with a slash.
pub proof fn law_base_address(parsed: Result<UrlParts, String>, r: Result<String, String>)
    requires
        call_ensures(accept_base, (parsed,), r),
    ensures
        r is Ok <==> (parsed matches Ok(parts) && parts.path@.len() > 0 && parts.path@.last()
            == '/'),
        r is Ok ==> r->Ok_0 == parsed->Ok_0.text,
{
}

} // verus!
