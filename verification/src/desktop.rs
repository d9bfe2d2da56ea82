//! Decisions of the desktop program: what the settings allow and what is kept.
use crate::catalog::{keeps, persisted_failure, texts, Catalog, PersistedCatalog};
use crate::domain::{Failure, FixtureListing, PlanRequest, PlanResponse, PlannerError, Skin};
use crate::market::MarketStatus;
use crate::planner::{
    answers_plan, contains_text, lemma_no_listings_no_pool, open_slots, plan_defined, plan_failure,
    plan_reverse,
};
use crate::regression::{has_record, RegressionRecord};
use crate::sync::SyncStatus;
use crate::text::{join2, join3, same_text};
use crate::urls::optional_text;
use vstd::prelude::*;

verus! {

#[derive(Debug, Clone, Copy)]
pub struct DesktopSettings {
    pub market_enabled: bool,
    pub live_market_notice_acknowledged: bool,
}

/// Live data is read only where the user wants it and has acknowledged the notice.
pub open spec fn allows_market(settings: DesktopSettings) -> bool {
    settings.market_enabled && settings.live_market_notice_acknowledged
}

/// `after` is the status `before` as the settings let it be shown.
pub open spec fn shows_status(
    after: MarketStatus,
    before: MarketStatus,
    settings: DesktopSettings,
) -> bool {
    &&& after.enabled == allows_market(settings)
    &&& after.provider@ == if allows_market(settings) {
        before.provider@
    } else if settings.market_enabled {
        "waiting_for_notice_acknowledgement"@
    } else {
        "disabled_by_user"@
    }
    &&& after.cache_ttl_seconds == before.cache_ttl_seconds
    &&& after.minimum_request_interval_ms == before.minimum_request_interval_ms
    &&& after.cached_searches == before.cached_searches
    &&& after.max_candidates_per_skin == before.max_candidates_per_skin
}

impl DesktopSettings {
    /// Whether live data may be read.
    pub fn allow_market(&self) -> (r: bool)
        ensures
            r == allows_market(*self),
    {
        self.market_enabled && self.live_market_notice_acknowledged
    }

    /// The market status as the settings let it be shown.
    pub fn shown_status(&self, status: MarketStatus) -> (r: MarketStatus)
        ensures
            shows_status(r, status, *self),
    {
        let mut shown: MarketStatus = status;
        shown.enabled = self.allow_market();
        if !shown.enabled {
            shown.provider =
            if self.market_enabled {
                "waiting_for_notice_acknowledgement".to_owned()
            } else {
                "disabled_by_user".to_owned()
            };
        }
        shown
    }
}

/// What came of asking the market for listings.
#[derive(Debug)]
pub enum MarketAnswer {
    NotAsked,
    Listings(Option<Vec<FixtureListing>>),
    Failed(PlannerError),
    TimedOut,
}

/// The message of an error, as it is shown.
pub open spec fn shown_failure(failure: Failure) -> Seq<char> {
    match failure {
        Failure::Validation(text) => text,
        Failure::Catalog(text) => "internal catalog error: "@ + text,
    }
}

/// What a plan has to warn of.
pub open spec fn answer_warning(answer: MarketAnswer) -> Option<Seq<char>> {
    match answer {
        MarketAnswer::Failed(error) => Some(
            "Steam Market temporarily unavailable ("@ + shown_failure(error@)
                + "). The plan below is ideal_math and contains no price or listing claim."@,
        ),
        MarketAnswer::TimedOut => Some(
            "Steam Market did not answer within the 30-second safety limit. The plan below is ideal_math and contains no price or listing claim."@,
        ),
        _ => None,
    }
}

/// The listings to plan with: those of the market, none where it was asked in
/// vain, and else those of the catalog.
pub open spec fn answer_listings(
    answer: MarketAnswer,
    own: Seq<FixtureListing>,
) -> Seq<FixtureListing> {
    match answer {
        MarketAnswer::NotAsked => own,
        MarketAnswer::Listings(Some(listings)) => listings@,
        MarketAnswer::Listings(None) => own,
        MarketAnswer::Failed(_) => Seq::empty(),
        MarketAnswer::TimedOut => Seq::empty(),
    }
}

impl MarketAnswer {
    /// What a plan has to warn of.
    pub fn warning(&self) -> (r: Option<String>)
        ensures
            optional_text(r) == answer_warning(*self),
    {
        match self {
            MarketAnswer::NotAsked => None,
            MarketAnswer::Listings(_) => None,
            MarketAnswer::Failed(error) => Some(
                join3(
                    "Steam Market temporarily unavailable (",
                    error.to_text().as_str(),
                    "). The plan below is ideal_math and contains no price or listing claim.",
                ),
            ),
            MarketAnswer::TimedOut => Some(
                "Steam Market did not answer within the 30-second safety limit. The plan below is ideal_math and contains no price or listing claim.".to_owned(),
            ),
        }
    }
}

/// `r` shows a plan, behind a warning where there is one.
pub open spec fn shows_plan(
    r: PlanResponse,
    plan: PlanResponse,
    warning: Option<Seq<char>>,
) -> bool {
    match warning {
        None => r == plan,
        Some(text) => {
            &&& r.message@ == "Live Steam data is unavailable; a local ideal_math plan is shown."@
            &&& texts(r.warnings@) == texts(plan.warnings@).insert(0, text)
            &&& r == PlanResponse { message: r.message, warnings: r.warnings, ..plan }
        },
    }
}

/// Plans with what came of asking the market.
pub fn plan_with_market(catalog: &Catalog, request: PlanRequest, answer: MarketAnswer) -> (r:
    Result<PlanResponse, PlannerError>)
    requires
        plan_defined(catalog.skins(), request),
    ensures
        ({
            let listings = answer_listings(answer, catalog.listings());
            match r {
                Ok(response) => {
                    &&& plan_failure(catalog.skins(), listings, request) is None
                    &&& exists|plan: PlanResponse| #[trigger]
                        answers_plan(plan, catalog.skins(), listings, request) && shows_plan(
                            response,
                            plan,
                            answer_warning(answer),
                        )
                },
                Err(error) => plan_failure(catalog.skins(), listings, request) == Some(error@),
            }
        }),
{
    let warning: Option<String> = answer.warning();
    let planned: Result<PlanResponse, PlannerError> = match answer {
        MarketAnswer::NotAsked => plan_reverse(catalog, request),
        MarketAnswer::Listings(None) => plan_reverse(catalog, request),
        MarketAnswer::Listings(Some(listings)) => plan_reverse(
            &catalog.with_listings(listings),
            request,
        ),
        MarketAnswer::Failed(_) => plan_reverse(&catalog.with_listings(Vec::new()), request),
        MarketAnswer::TimedOut => plan_reverse(&catalog.with_listings(Vec::new()), request),
    };
    match planned {
        Ok(plan) => {
            let mut plan: PlanResponse = plan;
            let ghost made = plan;
            if let Some(warning) = warning {
                warn_of_missing_market(&mut plan, warning);
                proof {
                    assert(texts(plan.warnings@) =~= texts(made.warnings@).insert(0, warning@));
                }
            }
            Ok(plan)
        },
        Err(error) => Err(error),
    }
}

/// A market that was asked in vain leads to no claims: whatever the catalog holds,
/// the open slots carry no listing, no price and no address.
pub proof fn law_missing_market_makes_no_claims(
    skins: Seq<Skin>,
    own: Seq<FixtureListing>,
    request: PlanRequest,
    answer: MarketAnswer,
    plan: PlanResponse,
    response: PlanResponse,
)
    requires
        answer_warning(answer) is Some,
        open_slots(request) > 0,
        answers_plan(plan, skins, answer_listings(answer, own), request),
        shows_plan(response, plan, answer_warning(answer)),
    ensures
        !response.pricing_available,
        response.total_price_cents == 0,
        response.selected_inputs@.len() == 10,
        forall|i: int|
            0 <= i < 10 ==> {
                &&& (#[trigger] response.selected_inputs@[i]).listing_id is None
                &&& response.selected_inputs@[i].price_cents is None
                &&& response.selected_inputs@[i].market_url is None
                &&& response.selected_inputs@[i].source@ == if response.selected_inputs@[i].owned {
                    "owned"@
                } else {
                    "ideal_math"@
                }
            },
{
    lemma_no_listings_no_pool(skins, request);
}

/// Puts a warning in front of a plan that was made without live data.
pub fn warn_of_missing_market(plan: &mut PlanResponse, warning: String)
    ensures
        final(plan).message@
            == "Live Steam data is unavailable; a local ideal_math plan is shown."@,
        final(plan).warnings@ == old(plan).warnings@.insert(0, warning),
        *final(plan) == (PlanResponse {
            message: final(plan).message,
            warnings: final(plan).warnings,
            ..*old(plan)
        }),
{
    plan.message = "Live Steam data is unavailable; a local ideal_math plan is shown.".to_owned();
    plan.warnings.insert(0, warning);
}

/// What the JSON files of the service hold, as far as it could be read.
#[derive(Debug)]
pub struct JsonFiles {
    pub catalog: Option<PersistedCatalog>,
    pub status: Option<SyncStatus>,
    pub records: Option<Vec<RegressionRecord>>,
}

/// Which rows a database has: whether a catalog is active and a status is kept, the
/// kept catalog versions, and the ids of the kept records.
#[derive(Debug)]
pub struct KeptRows {
    pub active: bool,
    pub state: bool,
    pub versions: Vec<String>,
    pub record_ids: Vec<String>,
}

/// The rows that the database takes over from the files: a catalog to make active,
/// whether its version is new, a status, and records.
#[derive(Debug)]
pub struct FileImport {
    pub catalog: Option<Catalog>,
    pub new_version: bool,
    pub status: Option<SyncStatus>,
    pub records: Vec<RegressionRecord>,
}

/// Whether the catalog of the files is taken over: where none is active yet and its
/// skins are sound.
pub open spec fn takes_catalog(active_exists: bool, catalog: Option<PersistedCatalog>) -> bool {
    !active_exists && (catalog matches Some(kept) && persisted_failure(kept.skins@) is None)
}

/// The records whose ids are not kept yet, the first one under each id.
pub open spec fn new_records(kept: Seq<Seq<char>>, records: Seq<RegressionRecord>) -> Seq<
    RegressionRecord,
>
    decreases records.len(),
{
    if records.len() == 0 {
        records
    } else {
        let front = new_records(kept, records.drop_last());
        let id = records.last().id@;
        if kept.contains(id) || has_record(front, id) {
            front
        } else {
            front.push(records.last())
        }
    }
}

/// `r` takes over what the files hold and the database does not.
pub open spec fn takes_over(r: FileImport, kept: KeptRows, files: JsonFiles) -> bool {
    &&& match r.catalog {
        Some(catalog) => {
            &&& takes_catalog(kept.active, files.catalog)
            &&& keeps(files.catalog->0, catalog)
            &&& r.new_version == !texts(kept.versions@).contains(catalog.schema_version@)
        },
        None => !takes_catalog(kept.active, files.catalog) && !r.new_version,
    }
    &&& r.status == if kept.state {
        None
    } else {
        files.status
    }
    &&& r.records@ == match files.records {
        Some(records) => new_records(texts(kept.record_ids@), records@),
        None => Seq::empty(),
    }
}

fn lists_record(records: &Vec<RegressionRecord>, id: &str) -> (r: bool)
    ensures
        r == has_record(records@, id@),
{
    let mut i: usize = 0;
    while i < records.len()
        invariant
            i <= records@.len(),
            forall|j: int| 0 <= j < i ==> (#[trigger] records@[j]).id@ != id@,
        decreases records.len() - i,
    {
        if same_text(records[i].id.as_str(), id) {
            return true;
        }
        i = i + 1;
    }
    false
}

/// Picks the records that are new.
fn pick_new_records(kept: &Vec<String>, records: Vec<RegressionRecord>) -> (r: Vec<
    RegressionRecord,
>)
    ensures
        r@ == new_records(texts(kept@), records@),
{
    let ghost all = records@;
    let mut rest: Vec<RegressionRecord> = records;
    let mut r: Vec<RegressionRecord> = Vec::new();
    let ghost mut n: int = 0;
    proof {
        assert(all.skip(0) =~= all);
        assert(all.take(0) =~= Seq::empty());
    }
    while rest.len() > 0
        invariant
            0 <= n <= all.len(),
            rest@ == all.skip(n),
            r@ == new_records(texts(kept@), all.take(n)),
        decreases rest.len(),
    {
        proof {
            assert(all.take(n + 1).drop_last() =~= all.take(n));
            assert(all.take(n + 1).last() == rest@[0]);
            assert(rest@.remove(0) =~= all.skip(n + 1));
            n = n + 1;
        }
        let record: RegressionRecord = rest.remove(0);
        if !contains_text(kept, record.id.as_str()) && !lists_record(&r, record.id.as_str()) {
            r.push(record);
        }
    }
    proof {
        assert(n == all.len());
        assert(all.take(n) =~= all);
    }
    r
}

/// Decides what to take over: only what the database does not have.
pub fn import_files(kept: &KeptRows, files: JsonFiles) -> (r: FileImport)
    ensures
        takes_over(r, *kept, files),
{
    let JsonFiles { catalog, status, records } = files;
    let catalog: Option<Catalog> = match catalog {
        Some(found) => if kept.active {
            None
        } else {
            match Catalog::from_persisted(found) {
                Ok(catalog) => Some(catalog),
                Err(_) => None,
            }
        },
        None => None,
    };
    let new_version: bool = match &catalog {
        Some(catalog) => !contains_text(&kept.versions, catalog.schema_version.as_str()),
        None => false,
    };
    FileImport {
        catalog,
        new_version,
        status: if kept.state {
            None
        } else {
            status
        },
        records: match records {
            Some(records) => pick_new_records(&kept.record_ids, records),
            None => Vec::new(),
        },
    }
}

/// The rows of a database, by their keys.
pub struct Tables {
    pub active: Option<Seq<char>>,
    pub versions: Map<Seq<char>, Catalog>,
    pub state: Option<SyncStatus>,
    pub records: Map<Seq<char>, RegressionRecord>,
}

/// `kept` says which rows `tables` have.
pub open spec fn lists_rows(kept: KeptRows, tables: Tables) -> bool {
    &&& kept.active == (tables.active is Some)
    &&& kept.state == (tables.state is Some)
    &&& forall|key: Seq<char>| #[trigger]
        texts(kept.versions@).contains(key) <==> tables.versions.contains_key(key)
    &&& forall|key: Seq<char>| #[trigger]
        texts(kept.record_ids@).contains(key) <==> tables.records.contains_key(key)
}

pub open spec fn with_records(
    rows: Map<Seq<char>, RegressionRecord>,
    records: Seq<RegressionRecord>,
) -> Map<Seq<char>, RegressionRecord>
    decreases records.len(),
{
    if records.len() == 0 {
        rows
    } else {
        with_records(rows, records.drop_last()).insert(records.last().id@, records.last())
    }
}

/// The tables once an import has been written to them.
pub open spec fn written(tables: Tables, import: FileImport) -> Tables {
    Tables {
        active: match import.catalog {
            Some(catalog) => Some(catalog.schema_version@),
            None => tables.active,
        },
        versions: match import.catalog {
            Some(catalog) => if import.new_version {
                tables.versions.insert(catalog.schema_version@, catalog)
            } else {
                tables.versions
            },
            None => tables.versions,
        },
        state: match import.status {
            Some(status) => Some(status),
            None => tables.state,
        },
        records: with_records(tables.records, import.records@),
    }
}

/// Every record of a file is kept already, or among the new ones.
proof fn lemma_new_records(kept: Seq<Seq<char>>, records: Seq<RegressionRecord>)
    ensures
        forall|i: int|
            0 <= i < records.len() ==> kept.contains((#[trigger] records[i]).id@) || has_record(
                new_records(kept, records),
                records[i].id@,
            ),
        forall|i: int|
            0 <= i < new_records(kept, records).len() ==> !kept.contains(
                (#[trigger] new_records(kept, records)[i]).id@,
            ),
    decreases records.len(),
{
    if records.len() > 0 {
        let front = new_records(kept, records.drop_last());
        let all = new_records(kept, records);
        lemma_new_records(kept, records.drop_last());
        assert forall|i: int| 0 <= i < records.len() implies kept.contains(
            (#[trigger] records[i]).id@,
        ) || has_record(all, records[i].id@) by {
            let id = records[i].id@;
            if i < records.len() - 1 {
                assert(records.drop_last()[i] == records[i]);
            }
            if has_record(front, id) {
                let j = choose|j: int| 0 <= j < front.len() && (#[trigger] front[j]).id@ == id;
                assert(all[j] == front[j]);
            } else if !kept.contains(id) {
                assert(all[all.len() - 1] == records[i]);
            }
        }
    }
}

/// Writing records adds their ids and leaves the rows under other ids.
proof fn lemma_with_records(
    rows: Map<Seq<char>, RegressionRecord>,
    records: Seq<RegressionRecord>,
    id: Seq<char>,
)
    ensures
        with_records(rows, records).contains_key(id) <==> rows.contains_key(id) || has_record(
            records,
            id,
        ),
        !has_record(records, id) && rows.contains_key(id) ==> with_records(rows, records)[id]
            == rows[id],
    decreases records.len(),
{
    if records.len() > 0 {
        let front = records.drop_last();
        lemma_with_records(rows, front, id);
        if has_record(front, id) {
            let j = choose|j: int| 0 <= j < front.len() && (#[trigger] front[j]).id@ == id;
            assert(records[j] == front[j]);
        }
        if has_record(records, id) && records.last().id@ != id {
            let j = choose|j: int| 0 <= j < records.len() && (#[trigger] records[j]).id@ == id;
            assert(front[j] == records[j]);
        }
        if records.last().id@ == id {
            assert(records[records.len() - 1].id@ == id);
        }
    }
}

/// Where all records are kept already, none is new.
proof fn lemma_nothing_new(kept: Seq<Seq<char>>, records: Seq<RegressionRecord>)
    requires
        forall|i: int| 0 <= i < records.len() ==> kept.contains((#[trigger] records[i]).id@),
    ensures
        new_records(kept, records).len() == 0,
    decreases records.len(),
{
    if records.len() > 0 {
        assert forall|i: int| 0 <= i < records.len() - 1 implies kept.contains(
            (#[trigger] records.drop_last()[i]).id@,
        ) by {
            assert(records.drop_last()[i] == records[i]);
        }
        lemma_nothing_new(kept, records.drop_last());
        assert(kept.contains(records[records.len() - 1].id@));
    }
}

/// Files are taken over exactly once: an import leaves every row that was there as
/// it was, and a second import of the same files changes nothing.
pub proof fn law_files_are_imported_once(
    tables: Tables,
    files: JsonFiles,
    kept: KeptRows,
    first: FileImport,
    kept_then: KeptRows,
    second: FileImport,
)
    requires
        lists_rows(kept, tables),
        takes_over(first, kept, files),
        lists_rows(kept_then, written(tables, first)),
        takes_over(second, kept_then, files),
    ensures
        tables.active is Some ==> written(tables, first).active == tables.active,
        tables.state is Some ==> written(tables, first).state == tables.state,
        forall|key: Seq<char>| #[trigger]
            tables.versions.contains_key(key) ==> written(tables, first).versions.contains_key(key)
                && written(tables, first).versions[key] == tables.versions[key],
        forall|key: Seq<char>| #[trigger]
            tables.records.contains_key(key) ==> written(tables, first).records.contains_key(key)
                && written(tables, first).records[key] == tables.records[key],
        written(written(tables, first), second) == written(tables, first),
{
    let then = written(tables, first);
    let (ids, ids_then) = (texts(kept.record_ids@), texts(kept_then.record_ids@));
    if let Some(records) = files.records {
        lemma_new_records(ids, records@);
        assert forall|i: int| 0 <= i < records@.len() implies ids_then.contains(
            (#[trigger] records@[i]).id@,
        ) by {
            lemma_with_records(tables.records, first.records@, records@[i].id@);
        }
        lemma_nothing_new(ids_then, records@);
    }
    assert(second.records@ =~= Seq::empty());
    assert forall|key: Seq<char>| #[trigger] tables.records.contains_key(key) implies {
        &&& then.records.contains_key(key)
        &&& then.records[key] == tables.records[key]
    } by {
        lemma_with_records(tables.records, first.records@, key);
        assert(ids.contains(key));
        if has_record(first.records@, key) {
            let j = choose|j: int|
                0 <= j < first.records@.len() && (#[trigger] first.records@[j]).id@ == key;
            assert(!ids.contains(first.records@[j].id@));
        }
    }
    assert forall|key: Seq<char>| #[trigger] tables.versions.contains_key(key) implies {
        &&& then.versions.contains_key(key)
        &&& then.versions[key] == tables.versions[key]
    } by {
        assert(texts(kept.versions@).contains(key));
    }
}

/// What has to be done to a database of some version.
#[derive(Debug, Clone, Copy, PartialEq, Eq, Structural)]
pub struct MigrationSteps {
    pub back_up: bool,
    pub create_base_tables: bool,
    pub create_catalog_tables: bool,
}

/// The steps from a version to the current one; only a file that exists is backed up.
pub fn migration_steps(version: u32, file_exists: bool) -> (r: MigrationSteps)
    ensures
        r.back_up <==> version < 2 && file_exists,
        r.create_base_tables <==> version < 1,
        r.create_catalog_tables <==> version < 2,
{
    MigrationSteps {
        back_up: version < 2 && file_exists,
        create_base_tables: version < 1,
        create_catalog_tables: version < 2,
    }
}

/// Whether a database has to be set aside, given what its integrity check said.
pub fn is_corrupt(integrity: &str) -> (r: bool)
    ensures
        r <==> integrity@ != "ok"@,
{
    !same_text(integrity, "ok")
}

/// The text under which a switch is kept.
pub open spec fn switch_word(value: bool) -> Seq<char> {
    if value {
        "true"@
    } else {
        "false"@
    }
}

/// Writes a switch.
pub fn switch_text(value: bool) -> (r: &'static str)
    ensures
        r@ == switch_word(value),
{
    if value {
        "true"
    } else {
        "false"
    }
}

/// Reads a switch.
pub fn read_switch(key: &str, value: Option<&str>) -> (r: Result<bool, String>)
    ensures
        match value {
            Some(text) => r == Ok::<bool, String>(text@ == "true"@),
            None => r matches Err(message) && message@ == "missing local setting: "@ + key@,
        },
{
    match value {
        Some(text) => Ok(same_text(text, "true")),
        None => Err(join2("missing local setting: ", key)),
    }
}

/// A switch reads as it was written.
pub proof fn law_switch_round_trip(value: bool)
    ensures
        (switch_word(value) == "true"@) == value,
{
    reveal_strlit("true");
    reveal_strlit("false");
    assert("true"@.len() != "false"@.len());
}

/// What is said where a record could not be kept.
pub fn save_failure(already_kept: bool, detail: String) -> (r: String)
    ensures
        r@ == if already_kept {
            "this exact evidence-backed contract has already been recorded"@
        } else {
            detail@
        },
{
    if already_kept {
        "this exact evidence-backed contract has already been recorded".to_owned()
    } else {
        detail
    }
}

} // verus!
