//! Analysis of complete and partly filled contracts.
use crate::catalog::{find_skin, plain, pool, texts, Catalog};
use crate::decimal::{fixed, two_places};
use crate::domain::{
    adjusted, adjusted_float, average, average_adjusted, describes_wear, float_failure,
    output_float, predicted_output, rarity_name, reports, running_sum, sum_in_order, tier_above,
    wear_info, Failure, Float32, Float32Value, PlannerError, Rarity, Skin, WearInfo,
};
use crate::float32::{f32_add, f32_div, f32_mul, of_count, product, quotient, sum};
use crate::tally::{capped_sum, enter, entered, entries_of, entry_of, tallied, Entry, Tallied};
use crate::text::{copy_optional, decimal, decimal_text, join2, join3};
use vstd::prelude::*;
use vstd::string::StringExecFns;

verus! {

/// Single-precision ten.
pub const TEN_BITS: u32 = 0x4120_0000;

/// Single-precision one.
pub const ONE_BITS: u32 = 0x3f80_0000;

/// Single-precision one hundred.
pub const HUNDRED_BITS: u32 = 0x42c8_0000;

#[derive(Debug)]
pub struct InputRequest {
    pub skin_id: String,
    pub float_value: Float32,
    pub inspect_link: Option<String>,
}

impl Clone for InputRequest {
    fn clone(&self) -> (r: Self)
        ensures
            r == *self,
    {
        InputRequest {
            skin_id: self.skin_id.clone(),
            float_value: self.float_value,
            inspect_link: copy_optional(&self.inspect_link),
        }
    }
}

#[derive(Debug)]
pub struct AnalyzeRequest {
    pub contract_size: usize,
    pub stattrak: bool,
    pub inputs: Vec<InputRequest>,
}

#[derive(Debug)]
pub struct PartialInputRequest {
    pub skin_id: String,
    pub float_value: Option<Float32>,
}

#[derive(Debug)]
pub struct PartialAnalyzeRequest {
    pub stattrak: bool,
    pub inputs: Vec<PartialInputRequest>,
}

#[derive(Debug)]
pub struct InputAnalysis {
    pub slot: usize,
    pub skin_id: String,
    pub skin_name: String,
    pub collection_name: String,
    pub rarity: Rarity,
    pub raw_float: Float32Value,
    pub adjusted_float: Float32Value,
    pub inspect_link_supplied: bool,
}

#[derive(Debug)]
pub struct OutcomeAnalysis {
    pub skin_id: String,
    pub skin_name: String,
    pub collection_name: String,
    pub probability: Float32,
    pub probability_percent: String,
    pub predicted_float: Float32Value,
    pub wear: WearInfo,
}

#[derive(Debug)]
pub struct AnalyzeResponse {
    pub valid: bool,
    pub contract_size: usize,
    pub input_rarity: Rarity,
    pub average_adjusted: Float32Value,
    pub inputs: Vec<InputAnalysis>,
    pub outcomes: Vec<OutcomeAnalysis>,
    pub warnings: Vec<String>,
}

#[derive(Debug)]
pub struct PartialOutcomeAnalysis {
    pub skin_id: String,
    pub skin_name: String,
    pub collection_name: String,
    pub known_inputs_from_collection: usize,
    /// Until all ten slots are chosen, the exact odds are unknown. These are
    /// the lower and upper bounds permitted by the already selected inputs.
    pub probability_min: Float32,
    pub probability_max: Float32,
    pub predicted_float_min: Float32Value,
    pub predicted_float_max: Float32Value,
}

#[derive(Debug)]
pub struct PartialAnalyzeResponse {
    pub input_rarity: Rarity,
    pub selected_slots: usize,
    pub floats_specified: usize,
    pub remaining_float_slots: usize,
    pub outcomes: Vec<PartialOutcomeAnalysis>,
}

/// A request for one slot, whose float may still be open.
pub struct Slot {
    pub skin_id: Seq<char>,
    pub float: Option<Float32>,
}

pub open spec fn slot_of(input: InputRequest) -> Slot {
    Slot { skin_id: input.skin_id@, float: Some(input.float_value) }
}

pub open spec fn slots_of(inputs: Seq<InputRequest>) -> Seq<Slot> {
    Seq::new(inputs.len(), |i: int| slot_of(inputs[i]))
}

pub open spec fn partial_slots(inputs: Seq<PartialInputRequest>) -> Seq<Slot> {
    Seq::new(
        inputs.len(),
        |i: int| Slot { skin_id: inputs[i].skin_id@, float: inputs[i].float_value },
    )
}

/// Why a slot is refused, if it is.
pub open spec fn slot_failure(skins: Seq<Skin>, slot: Slot, stattrak: bool) -> Option<Failure> {
    match find_skin(skins, slot.skin_id) {
        None => Some(Failure::Validation("unknown skin_id: "@ + slot.skin_id)),
        Some(skin) => if stattrak && !skin.stattrak_supported {
            Some(Failure::Validation(skin.name@ + " has no StatTrak variant in the catalog"@))
        } else {
            match slot.float {
                Some(value) => float_failure(value, skin),
                None => None,
            }
        },
    }
}

/// What the first refused slot is refused for.
pub open spec fn slots_failure(skins: Seq<Skin>, slots: Seq<Slot>, stattrak: bool) -> Option<
    Failure,
>
    decreases slots.len(),
{
    if slots.len() == 0 {
        None
    } else {
        match slots_failure(skins, slots.drop_last(), stattrak) {
            Some(failure) => Some(failure),
            None => slot_failure(skins, slots.last(), stattrak),
        }
    }
}

/// The skin that a slot names.
pub open spec fn slot_skin(skins: Seq<Skin>, slot: Slot) -> Skin {
    find_skin(skins, slot.skin_id)->0
}

pub open spec fn slot_skins(skins: Seq<Skin>, slots: Seq<Slot>) -> Seq<Skin> {
    Seq::new(slots.len(), |i: int| slot_skin(skins, slots[i]))
}

/// The adjusted floats of the slots whose float is given, in slot order.
pub open spec fn known_shares(skins: Seq<Skin>, slots: Seq<Slot>) -> Seq<Float32>
    decreases slots.len(),
{
    if slots.len() == 0 {
        Seq::empty()
    } else {
        let front = known_shares(skins, slots.drop_last());
        match slots.last().float {
            Some(value) => front.push(adjusted(value, slot_skin(skins, slots.last()))),
            None => front,
        }
    }
}

pub open spec fn same_rarity(chosen: Seq<Skin>) -> bool {
    forall|i: int| 0 <= i < chosen.len() ==> (#[trigger] chosen[i]).rarity == chosen[0].rarity
}

/// The collections that skins come from.
pub open spec fn collection_ids(chosen: Seq<Skin>) -> Seq<Seq<char>> {
    Seq::new(chosen.len(), |i: int| chosen[i].collection_id@)
}

/// Every skin of a pool, counted as often as inputs lead to it.
pub open spec fn entered_pool(entries: Seq<Entry<Skin>>, pool: Seq<Skin>, count: nat) -> Seq<
    Entry<Skin>,
>
    decreases pool.len(),
{
    if pool.len() == 0 {
        entries
    } else {
        entered(
            entered_pool(entries, pool.drop_last(), count),
            pool.last().id@,
            count,
            pool.last(),
        )
    }
}

/// The skins that a contract can yield, with the number of inputs that lead to each.
pub open spec fn possible_outcomes(
    skins: Seq<Skin>,
    collections: Seq<Entry<()>>,
    rarity: Rarity,
) -> Seq<Entry<Skin>>
    decreases collections.len(),
{
    if collections.len() == 0 {
        Seq::empty()
    } else {
        entered_pool(
            possible_outcomes(skins, collections.drop_last(), rarity),
            pool(skins, collections.last().key, rarity),
            collections.last().count,
        )
    }
}

/// The first collection without a skin of the given rarity.
pub open spec fn barren_collection(
    skins: Seq<Skin>,
    collections: Seq<Entry<()>>,
    rarity: Rarity,
) -> Option<Seq<char>>
    decreases collections.len(),
{
    if collections.len() == 0 {
        None
    } else {
        match barren_collection(skins, collections.drop_last(), rarity) {
            Some(key) => Some(key),
            None => if pool(skins, collections.last().key, rarity).len() == 0 {
                Some(collections.last().key)
            } else {
                None
            },
        }
    }
}

/// Why resolved inputs make no contract, if they do not.
pub open spec fn tier_failure(
    skins: Seq<Skin>,
    chosen: Seq<Skin>,
    mixed: Seq<char>,
) -> Option<Failure> {
    if !same_rarity(chosen) {
        Some(Failure::Validation(mixed))
    } else {
        match tier_above(chosen[0].rarity) {
            None => Some(
                Failure::Validation("this input rarity has no standard 10-item trade-up tier"@),
            ),
            Some(rarity) => match barren_collection(
                skins,
                tallied(collection_ids(chosen)),
                rarity,
            ) {
                Some(key) => Some(
                    Failure::Validation(
                        "collection "@ + key + " has no "@ + rarity_name(rarity)
                            + " outcome for this trade-up"@,
                    ),
                ),
                None => None,
            },
        }
    }
}

/// Why a contract is refused, if it is.
pub open spec fn contract_failure(
    skins: Seq<Skin>,
    size: nat,
    slots: Seq<Slot>,
    stattrak: bool,
) -> Option<Failure> {
    if size != 5 && size != 10 {
        Some(Failure::Validation("contract_size must be either 5 or 10"@))
    } else if slots.len() != size {
        Some(
            Failure::Validation(
                "contract requires exactly "@ + decimal(size) + " inputs, received "@ + decimal(
                    slots.len(),
                ),
            ),
        )
    } else if size == 5 {
        Some(
            Failure::Validation(
                "5 Covert → knife/gloves is recognized, but this MVP catalog intentionally has no fabricated unusual/loot outcome pool yet"@,
            ),
        )
    } else {
        match slots_failure(skins, slots, stattrak) {
            Some(failure) => Some(failure),
            None => tier_failure(
                skins,
                slot_skins(skins, slots),
                "all contract inputs must have the same rarity"@,
            ),
        }
    }
}

/// Why a preview is refused, if it is.
pub open spec fn preview_failure(
    skins: Seq<Skin>,
    slots: Seq<Slot>,
    stattrak: bool,
) -> Option<Failure> {
    if slots.len() == 0 || slots.len() > 10 {
        Some(Failure::Validation("choose between 1 and 10 contract inputs for a preview"@))
    } else {
        match slots_failure(skins, slots, stattrak) {
            Some(failure) => Some(failure),
            None => tier_failure(
                skins,
                slot_skins(skins, slots),
                "all selected contract inputs must have the same rarity"@,
            ),
        }
    }
}

/// The rarity that a contract yields.
pub open spec fn yielded_rarity(skins: Seq<Skin>, slots: Seq<Slot>) -> Rarity {
    tier_above(slot_skin(skins, slots[0]).rarity)->0
}

/// The outcomes of a contract.
pub open spec fn contract_outcomes(skins: Seq<Skin>, slots: Seq<Slot>) -> Seq<Entry<Skin>> {
    possible_outcomes(
        skins,
        tallied(collection_ids(slot_skins(skins, slots))),
        yielded_rarity(skins, slots),
    )
}

/// The average adjusted float of a complete contract.
pub open spec fn contract_average(skins: Seq<Skin>, slots: Seq<Slot>) -> Float32 {
    average(known_shares(skins, slots), slots.len())
}

/// The probability of an outcome that `entry` counts.
pub open spec fn outcome_probability(
    skins: Seq<Skin>,
    entry: Entry<Skin>,
    rarity: Rarity,
    size: nat,
) -> Float32 {
    quotient(
        quotient(of_count(entry.count), of_count(size)),
        of_count(pool(skins, entry.item.collection_id@, rarity).len()),
    )
}

pub open spec fn percent(probability: Float32) -> Seq<char> {
    fixed(product(probability, Float32 { bits: HUNDRED_BITS }), 2) + "%"@
}

pub open spec fn describes_outcome(
    shown: OutcomeAnalysis,
    skins: Seq<Skin>,
    entry: Entry<Skin>,
    rarity: Rarity,
    size: nat,
    average: Float32,
) -> bool {
    &&& shown.skin_id@ == entry.item.id@
    &&& shown.skin_name@ == entry.item.name@
    &&& shown.collection_name@ == entry.item.collection_name@
    &&& shown.probability == outcome_probability(skins, entry, rarity, size)
    &&& shown.probability_percent@ == percent(shown.probability)
    &&& reports(shown.predicted_float, predicted_output(average, entry.item))
    &&& describes_wear(shown.wear, predicted_output(average, entry.item))
}

pub open spec fn describes_input(
    shown: InputAnalysis,
    place: int,
    skin: Skin,
    input: InputRequest,
) -> bool {
    &&& shown.slot == place + 1
    &&& shown.skin_id@ == skin.id@
    &&& shown.skin_name@ == skin.name@
    &&& shown.collection_name@ == skin.collection_name@
    &&& shown.rarity == skin.rarity
    &&& reports(shown.raw_float, input.float_value)
    &&& reports(shown.adjusted_float, adjusted(input.float_value, skin))
    &&& shown.inspect_link_supplied == (input.inspect_link is Some)
}

/// The remarks under every analysis.
pub open spec fn analysis_warnings() -> Seq<Seq<char>> {
    seq![
        "Вычисления выполняются нативным Rust-ядром как последовательные IEEE-754 float32; bits сохранены в ответе."@,
        "Порядок слотов сохранён. Его влияние на граничные реальные крафты пока считается непроверенной гипотезой."@,
    ]
}

pub open spec fn describes_outcomes(
    shown: Seq<OutcomeAnalysis>,
    skins: Seq<Skin>,
    slots: Seq<Slot>,
) -> bool {
    &&& shown.len() == contract_outcomes(skins, slots).len()
    &&& forall|i: int|
        0 <= i < shown.len() ==> describes_outcome(
            #[trigger] shown[i],
            skins,
            contract_outcomes(skins, slots)[i],
            yielded_rarity(skins, slots),
            slots.len(),
            contract_average(skins, slots),
        )
}

/// `r` is the analysis of a contract that is not refused.
pub open spec fn describes_contract(
    r: AnalyzeResponse,
    skins: Seq<Skin>,
    inputs: Seq<InputRequest>,
) -> bool {
    &&& r.valid
    &&& r.contract_size == inputs.len()
    &&& r.input_rarity == slot_skin(skins, slots_of(inputs)[0]).rarity
    &&& reports(r.average_adjusted, contract_average(skins, slots_of(inputs)))
    &&& r.inputs@.len() == inputs.len()
    &&& forall|i: int|
        0 <= i < inputs.len() ==> describes_input(
            #[trigger] r.inputs@[i],
            i,
            slot_skin(skins, slots_of(inputs)[i]),
            inputs[i],
        )
    &&& describes_outcomes(r.outcomes@, skins, slots_of(inputs))
    &&& texts(r.warnings@) == analysis_warnings()
}

/// The average that the given floats and zeros in the other slots lead to.
pub open spec fn least_average(shares: Seq<Float32>) -> Float32 {
    quotient(running_sum(shares), Float32 { bits: TEN_BITS })
}

/// The average that the given floats and ones in the other slots lead to.
pub open spec fn greatest_average(shares: Seq<Float32>) -> Float32 {
    quotient(
        sum(running_sum(shares), of_count((10 - shares.len()) as nat)),
        Float32 { bits: TEN_BITS },
    )
}

/// `shown` is what `chosen` slots and the given shares imply of an outcome: its odds
/// are least where no open slot goes to its collection, and greatest where all do.
pub open spec fn describes_partial_outcome(
    shown: PartialOutcomeAnalysis,
    skins: Seq<Skin>,
    entry: Entry<Skin>,
    rarity: Rarity,
    chosen: nat,
    shares: Seq<Float32>,
) -> bool {
    let divisor = of_count(pool(skins, entry.item.collection_id@, rarity).len());
    &&& shown.skin_id@ == entry.item.id@
    &&& shown.skin_name@ == entry.item.name@
    &&& shown.collection_name@ == entry.item.collection_name@
    &&& shown.known_inputs_from_collection == entry.count
    &&& shown.probability_min == quotient(
        of_count(entry.count),
        product(Float32 { bits: TEN_BITS }, divisor),
    )
    &&& shown.probability_max == quotient(
        of_count(capped_sum(entry.count, (10 - chosen) as nat)),
        product(Float32 { bits: TEN_BITS }, divisor),
    )
    &&& reports(
        shown.predicted_float_min,
        predicted_output(least_average(shares), entry.item),
    )
    &&& reports(
        shown.predicted_float_max,
        predicted_output(greatest_average(shares), entry.item),
    )
}

/// `r` is the preview of slots that are not refused.
pub open spec fn describes_preview(
    r: PartialAnalyzeResponse,
    skins: Seq<Skin>,
    slots: Seq<Slot>,
) -> bool {
    let shares = known_shares(skins, slots);
    &&& r.input_rarity == slot_skin(skins, slots[0]).rarity
    &&& r.selected_slots == slots.len()
    &&& r.floats_specified == shares.len()
    &&& r.remaining_float_slots == 10 - shares.len()
    &&& r.outcomes@.len() == contract_outcomes(skins, slots).len()
    &&& forall|i: int|
        0 <= i < r.outcomes@.len() ==> describes_partial_outcome(
            #[trigger] r.outcomes@[i],
            skins,
            contract_outcomes(skins, slots)[i],
            yielded_rarity(skins, slots),
            slots.len(),
            shares,
        )
}

/// A requested input together with its skin.
#[derive(Debug, Clone, Copy)]
pub struct ResolvedInput<'a> {
    pub skin: &'a Skin,
    pub float_value: Float32,
    pub inspect_link_supplied: bool,
}

/// `resolved` holds the skins that `inputs` name, and their floats are theirs to have.
pub open spec fn resolves(
    resolved: Seq<ResolvedInput<'_>>,
    skins: Seq<Skin>,
    inputs: Seq<InputRequest>,
) -> bool {
    &&& resolved.len() == inputs.len()
    &&& forall|i: int|
        0 <= i < inputs.len() ==> {
            &&& find_skin(skins, inputs[i].skin_id@) == Some(*(#[trigger] resolved[i]).skin)
            &&& resolved[i].float_value == inputs[i].float_value
            &&& resolved[i].inspect_link_supplied == (inputs[i].inspect_link is Some)
            &&& float_failure(inputs[i].float_value, *resolved[i].skin) is None
        }
}

/// The first failure among some slots is that of all of them.
proof fn lemma_slots_failure_persists(
    skins: Seq<Skin>,
    slots: Seq<Slot>,
    stattrak: bool,
    n: int,
)
    requires
        0 <= n <= slots.len(),
    ensures
        slots_failure(skins, slots.take(n), stattrak) is Some ==> slots_failure(
            skins,
            slots,
            stattrak,
        ) == slots_failure(skins, slots.take(n), stattrak),
    decreases slots.len(),
{
    if n < slots.len() {
        lemma_slots_failure_persists(skins, slots.drop_last(), stattrak, n);
        assert(slots.drop_last().take(n) =~= slots.take(n));
    } else {
        assert(slots.take(n) =~= slots);
    }
}

/// Finds the skin of one slot.
fn resolve_slot<'a>(
    catalog: &'a Catalog,
    skin_id: &str,
    float: Option<Float32>,
    stattrak: bool,
) -> (r: Result<&'a Skin, PlannerError>)
    ensures
        match r {
            Ok(skin) => {
                &&& slot_failure(
                    catalog.skins(),
                    (Slot { skin_id: skin_id@, float }),
                    stattrak,
                ) is None
                &&& find_skin(catalog.skins(), skin_id@) == Some(*skin)
            },
            Err(error) => slot_failure(
                catalog.skins(),
                (Slot { skin_id: skin_id@, float }),
                stattrak,
            ) == Some(error@),
        },
{
    let skin: &Skin = match catalog.skin(skin_id) {
        Some(skin) => skin,
        None => {
            return Err(PlannerError::Validation(join2("unknown skin_id: ", skin_id)));
        },
    };
    if stattrak && !skin.stattrak_supported {
        return Err(
            PlannerError::Validation(
                join2(skin.name.as_str(), " has no StatTrak variant in the catalog"),
            ),
        );
    }
    match float {
        Some(value) => match adjusted_float(value, skin) {
            Ok(_) => Ok(skin),
            Err(error) => Err(error),
        },
        None => Ok(skin),
    }
}

/// Finds the skins of all inputs.
pub fn resolve_inputs<'a>(
    catalog: &'a Catalog,
    request: &Vec<InputRequest>,
    stattrak: bool,
) -> (r: Result<Vec<ResolvedInput<'a>>, PlannerError>)
    ensures
        match r {
            Ok(resolved) => {
                &&& slots_failure(catalog.skins(), slots_of(request@), stattrak) is None
                &&& resolves(resolved@, catalog.skins(), request@)
            },
            Err(error) => slots_failure(catalog.skins(), slots_of(request@), stattrak) == Some(
                error@,
            ),
        },
{
    let ghost slots = slots_of(request@);
    let mut resolved: Vec<ResolvedInput<'a>> = Vec::new();
    let mut i: usize = 0;
    proof {
        assert(slots.take(0) =~= Seq::empty());
    }
    while i < request.len()
        invariant
            i <= request@.len(),
            slots == slots_of(request@),
            slots_failure(catalog.skins(), slots.take(i as int), stattrak) is None,
            resolves(resolved@, catalog.skins(), request@.take(i as int)),
        decreases request.len() - i,
    {
        let input: &InputRequest = &request[i];
        proof {
            assert(slots.take(i + 1).drop_last() =~= slots.take(i as int));
            lemma_slots_failure_persists(catalog.skins(), slots, stattrak, i + 1);
        }
        match resolve_slot(catalog, input.skin_id.as_str(), Some(input.float_value), stattrak) {
            Ok(skin) => {
                resolved.push(
                    ResolvedInput {
                        skin,
                        float_value: input.float_value,
                        inspect_link_supplied: input.inspect_link.is_some(),
                    },
                );
            },
            Err(error) => {
                return Err(error);
            },
        }
        i = i + 1;
    }
    proof {
        assert(slots.take(i as int) =~= slots);
        assert(request@.take(i as int) =~= request@);
    }
    Ok(resolved)
}

/// The adjusted float of a float that its skin can have.
pub(crate) fn adjusted_share(raw: Float32, skin: &Skin) -> (r: Float32)
    requires
        float_failure(raw, *skin) is None,
    ensures
        r == adjusted(raw, *skin),
{
    f32_div(
        crate::float32::f32_sub(raw, skin.min_float),
        crate::float32::f32_sub(skin.max_float, skin.min_float),
    )
}

/// The adjusted floats of resolved inputs.
pub open spec fn shares_of(resolved: Seq<ResolvedInput<'_>>) -> Seq<Float32> {
    Seq::new(resolved.len(), |i: int| adjusted(resolved[i].float_value, *resolved[i].skin))
}

pub(crate) fn resolved_shares(resolved: &Vec<ResolvedInput<'_>>) -> (r: Vec<Float32>)
    requires
        forall|i: int|
            0 <= i < resolved@.len() ==> float_failure(
                (#[trigger] resolved@[i]).float_value,
                *resolved@[i].skin,
            ) is None,
    ensures
        r@ == shares_of(resolved@),
{
    let mut r: Vec<Float32> = Vec::new();
    let mut i: usize = 0;
    while i < resolved.len()
        invariant
            i <= resolved@.len(),
            forall|i: int|
                0 <= i < resolved@.len() ==> float_failure(
                    (#[trigger] resolved@[i]).float_value,
                    *resolved@[i].skin,
                ) is None,
            r@ == shares_of(resolved@).take(i as int),
        decreases resolved.len() - i,
    {
        r.push(adjusted_share(resolved[i].float_value, resolved[i].skin));
        proof {
            assert(r@ =~= shares_of(resolved@).take(i + 1));
        }
        i = i + 1;
    }
    proof {
        assert(shares_of(resolved@).take(i as int) =~= shares_of(resolved@));
    }
    r
}

/// Where every float is given, the known shares are those of all slots.
pub proof fn lemma_all_known(
    resolved: Seq<ResolvedInput<'_>>,
    skins: Seq<Skin>,
    inputs: Seq<InputRequest>,
)
    requires
        resolves(resolved, skins, inputs),
    ensures
        known_shares(skins, slots_of(inputs)) == shares_of(resolved),
    decreases inputs.len(),
{
    let slots = slots_of(inputs);
    if inputs.len() == 0 {
        assert(known_shares(skins, slots) =~= shares_of(resolved));
    } else {
        let n = inputs.len() - 1;
        assert(resolves(resolved.drop_last(), skins, inputs.drop_last())) by {
            assert forall|i: int| 0 <= i < n implies {
                &&& find_skin(skins, inputs.drop_last()[i].skin_id@) == Some(
                    *(#[trigger] resolved.drop_last()[i]).skin,
                )
                &&& resolved.drop_last()[i].float_value == inputs.drop_last()[i].float_value
                &&& resolved.drop_last()[i].inspect_link_supplied == (
                inputs.drop_last()[i].inspect_link is Some)
                &&& float_failure(
                    inputs.drop_last()[i].float_value,
                    *resolved.drop_last()[i].skin,
                ) is None
            } by {
                assert(resolved.drop_last()[i] == resolved[i]);
            }
        }
        lemma_all_known(resolved.drop_last(), skins, inputs.drop_last());
        assert(slots.drop_last() =~= slots_of(inputs.drop_last()));
        assert(resolved[n].float_value == inputs[n].float_value);
        assert(shares_of(resolved) =~= shares_of(resolved.drop_last()).push(
            adjusted(resolved[n].float_value, *resolved[n].skin),
        ));
    }
}

/// Counts the collections of the chosen skins.
fn count_collections(chosen: &Vec<&Skin>) -> (r: Vec<Tallied<()>>)
    ensures
        entries_of(r@) == tallied(collection_ids(plain(chosen@))),
{
    let mut r: Vec<Tallied<()>> = Vec::new();
    let ghost ids = collection_ids(plain(chosen@));
    let mut i: usize = 0;
    proof {
        assert(entries_of(r@) =~= Seq::empty());
        assert(ids.take(0) =~= Seq::empty());
    }
    while i < chosen.len()
        invariant
            i <= chosen@.len(),
            ids == collection_ids(plain(chosen@)),
            entries_of(r@) == tallied(ids.take(i as int)),
        decreases chosen.len() - i,
    {
        proof {
            assert(ids.take(i + 1).drop_last() =~= ids.take(i as int));
            assert(ids[i as int] == chosen@[i as int].collection_id@);
        }
        enter(&mut r, chosen[i].collection_id.as_str(), 1, ());
        i = i + 1;
    }
    proof {
        assert(ids.take(i as int) =~= ids);
    }
    r
}

/// Counts every skin of a pool.
fn enter_pool(entries: &mut Vec<Tallied<Skin>>, skins: &Vec<&Skin>, count: usize)
    ensures
        entries_of(final(entries)@) == entered_pool(
            entries_of(old(entries)@),
            plain(skins@),
            count as nat,
        ),
{
    let ghost before = entries_of(entries@);
    let mut i: usize = 0;
    proof {
        assert(plain(skins@).take(0) =~= Seq::empty());
    }
    while i < skins.len()
        invariant
            i <= skins@.len(),
            entries_of(entries@) == entered_pool(
                before,
                plain(skins@).take(i as int),
                count as nat,
            ),
        decreases skins.len() - i,
    {
        proof {
            assert(plain(skins@).take(i + 1).drop_last() =~= plain(skins@).take(i as int));
        }
        enter(entries, skins[i].id.as_str(), count, skins[i].clone());
        i = i + 1;
    }
    proof {
        assert(plain(skins@).take(i as int) =~= plain(skins@));
    }
}

/// An early barren collection is the first of all.
proof fn lemma_barren_persists(
    skins: Seq<Skin>,
    collections: Seq<Entry<()>>,
    rarity: Rarity,
    n: int,
)
    requires
        0 <= n <= collections.len(),
    ensures
        barren_collection(skins, collections.take(n), rarity) is Some ==> barren_collection(
            skins,
            collections,
            rarity,
        ) == barren_collection(skins, collections.take(n), rarity),
    decreases collections.len(),
{
    if n < collections.len() {
        lemma_barren_persists(skins, collections.drop_last(), rarity, n);
        assert(collections.drop_last().take(n) =~= collections.take(n));
    } else {
        assert(collections.take(n) =~= collections);
    }
}

/// Collects what the given collections yield.
fn gather_outcomes(catalog: &Catalog, collections: &Vec<Tallied<()>>, rarity: Rarity) -> (r: Result<
    Vec<Tallied<Skin>>,
    PlannerError,
>)
    ensures
        match r {
            Ok(outcomes) => {
                &&& barren_collection(
                    catalog.skins(),
                    entries_of(collections@),
                    rarity,
                ) is None
                &&& entries_of(outcomes@) == possible_outcomes(
                    catalog.skins(),
                    entries_of(collections@),
                    rarity,
                )
            },
            Err(error) => barren_collection(
                catalog.skins(),
                entries_of(collections@),
                rarity,
            ) matches Some(key) && error@ == Failure::Validation(
                "collection "@ + key + " has no "@ + rarity_name(rarity)
                    + " outcome for this trade-up"@,
            ),
        },
{
    let ghost entries = entries_of(collections@);
    let mut outcomes: Vec<Tallied<Skin>> = Vec::new();
    let mut i: usize = 0;
    proof {
        assert(entries.take(0) =~= Seq::empty());
        assert(entries_of(outcomes@) =~= Seq::empty());
    }
    while i < collections.len()
        invariant
            i <= collections@.len(),
            entries == entries_of(collections@),
            barren_collection(catalog.skins(), entries.take(i as int), rarity) is None,
            entries_of(outcomes@) == possible_outcomes(
                catalog.skins(),
                entries.take(i as int),
                rarity,
            ),
        decreases collections.len() - i,
    {
        let collection: &Tallied<()> = &collections[i];
        proof {
            assert(entries.take(i + 1).drop_last() =~= entries.take(i as int));
            assert(entries.take(i + 1).last() == entry_of(*collection));
            lemma_barren_persists(catalog.skins(), entries, rarity, i + 1);
        }
        let possible: Vec<&Skin> = catalog.outcomes_for_collection(
            collection.key.as_str(),
            rarity,
        );
        if possible.len() == 0 {
            let mut text: String = join3("collection ", collection.key.as_str(), " has no ");
            text.append(rarity.name());
            text.append(" outcome for this trade-up");
            return Err(PlannerError::Validation(text));
        }
        enter_pool(&mut outcomes, &possible, collection.count);
        i = i + 1;
    }
    proof {
        assert(entries.take(i as int) =~= entries);
    }
    Ok(outcomes)
}

/// Finds the tier that chosen inputs lead to, and what they can yield.
fn find_tier(catalog: &Catalog, chosen: &Vec<&Skin>, mixed: &str) -> (r: Result<
    (Rarity, Vec<Tallied<Skin>>),
    PlannerError,
>)
    requires
        chosen@.len() > 0,
    ensures
        match r {
            Ok((rarity, outcomes)) => {
                &&& tier_failure(catalog.skins(), plain(chosen@), mixed@) is None
                &&& tier_above(chosen@[0].rarity) == Some(rarity)
                &&& entries_of(outcomes@) == possible_outcomes(
                    catalog.skins(),
                    tallied(collection_ids(plain(chosen@))),
                    rarity,
                )
            },
            Err(error) => tier_failure(catalog.skins(), plain(chosen@), mixed@) == Some(error@),
        },
{
    let mut i: usize = 0;
    while i < chosen.len()
        invariant
            i <= chosen@.len(),
            chosen@.len() > 0,
            forall|j: int|
                0 <= j < i ==> (#[trigger] plain(chosen@)[j]).rarity == plain(chosen@)[0].rarity,
        decreases chosen.len() - i,
    {
        if chosen[i].rarity != chosen[0].rarity {
            proof {
                assert(plain(chosen@)[i as int].rarity != plain(chosen@)[0].rarity);
            }
            return Err(PlannerError::Validation(mixed.to_owned()));
        }
        i = i + 1;
    }
    let rarity: Rarity = match chosen[0].rarity.next() {
        Some(rarity) => rarity,
        None => {
            return Err(
                PlannerError::Validation(
                    "this input rarity has no standard 10-item trade-up tier".to_owned(),
                ),
            );
        },
    };
    let collections: Vec<Tallied<()>> = count_collections(chosen);
    match gather_outcomes(catalog, &collections, rarity) {
        Ok(outcomes) => Ok((rarity, outcomes)),
        Err(error) => Err(error),
    }
}

/// Describes one outcome.
fn analyze_outcome(
    catalog: &Catalog,
    outcome: &Tallied<Skin>,
    rarity: Rarity,
    size: usize,
    average: Float32,
) -> (r: OutcomeAnalysis)
    ensures
        describes_outcome(
            r,
            catalog.skins(),
            entry_of(*outcome),
            rarity,
            size as nat,
            average,
        ),
{
    let skin: &Skin = &outcome.item;
    let alike: usize = catalog.outcomes_for_collection(skin.collection_id.as_str(), rarity).len();
    let probability: Float32 = f32_div(
        f32_div(Float32::from_count(outcome.count), Float32::from_count(size)),
        Float32::from_count(alike),
    );
    let predicted: Float32 = output_float(average, skin);
    OutcomeAnalysis {
        skin_id: skin.id.clone(),
        skin_name: skin.name.clone(),
        collection_name: skin.collection_name.clone(),
        probability,
        probability_percent: join2(
            two_places(f32_mul(probability, Float32::from_bits(HUNDRED_BITS))).as_str(),
            "%",
        ),
        predicted_float: Float32Value::new(predicted),
        wear: wear_info(predicted),
    }
}

/// The skins of resolved inputs.
fn skins_of_inputs<'a>(resolved: &Vec<ResolvedInput<'a>>) -> (r: Vec<&'a Skin>)
    ensures
        r@.len() == resolved@.len(),
        forall|i: int| 0 <= i < r@.len() ==> #[trigger] r@[i] == resolved@[i].skin,
{
    let mut r: Vec<&'a Skin> = Vec::new();
    let mut i: usize = 0;
    while i < resolved.len()
        invariant
            i <= resolved@.len(),
            r@.len() == i,
            forall|j: int| 0 <= j < i ==> #[trigger] r@[j] == resolved@[j].skin,
        decreases resolved.len() - i,
    {
        r.push(resolved[i].skin);
        i = i + 1;
    }
    r
}

/// Computes what a complete contract yields.
pub fn analyze_contract(catalog: &Catalog, request: AnalyzeRequest) -> (r: Result<
    AnalyzeResponse,
    PlannerError,
>)
    ensures
        match r {
            Ok(response) => {
                &&& contract_failure(
                    catalog.skins(),
                    request.contract_size as nat,
                    slots_of(request.inputs@),
                    request.stattrak,
                ) is None
                &&& describes_contract(response, catalog.skins(), request.inputs@)
            },
            Err(error) => contract_failure(
                catalog.skins(),
                request.contract_size as nat,
                slots_of(request.inputs@),
                request.stattrak,
            ) == Some(error@),
        },
{
    if request.contract_size != 5 && request.contract_size != 10 {
        return Err(PlannerError::Validation("contract_size must be either 5 or 10".to_owned()));
    }
    if request.inputs.len() != request.contract_size {
        let mut text: String = join3(
            "contract requires exactly ",
            decimal_text(request.contract_size as u128).as_str(),
            " inputs, received ",
        );
        text.append(decimal_text(request.inputs.len() as u128).as_str());
        return Err(PlannerError::Validation(text));
    }
    if request.contract_size == 5 {
        return Err(
            PlannerError::Validation(
                "5 Covert → knife/gloves is recognized, but this MVP catalog intentionally has no fabricated unusual/loot outcome pool yet".to_owned(),
            ),
        );
    }
    let ghost skins = catalog.skins();
    let ghost slots = slots_of(request.inputs@);
    let inputs: Vec<ResolvedInput<'_>> = match resolve_inputs(
        catalog,
        &request.inputs,
        request.stattrak,
    ) {
        Ok(inputs) => inputs,
        Err(error) => {
            return Err(error);
        },
    };
    let chosen: Vec<&Skin> = skins_of_inputs(&inputs);
    proof {
        assert(plain(chosen@) =~= slot_skins(skins, slots)) by {
            assert forall|i: int| 0 <= i < slots.len() implies plain(chosen@)[i] == slot_skins(
                skins,
                slots,
            )[i] by {
                assert(chosen@[i] == inputs@[i].skin);
            }
        }
        assert(*chosen@[0] == plain(chosen@)[0]);
    }
    let (rarity, outcomes) = match find_tier(
        catalog,
        &chosen,
        "all contract inputs must have the same rarity",
    ) {
        Ok(tier) => tier,
        Err(error) => {
            return Err(error);
        },
    };
    let shares: Vec<Float32> = resolved_shares(&inputs);
    proof {
        lemma_all_known(inputs@, skins, request.inputs@);
    }
    let average: Float32 = average_adjusted(shares.as_slice(), inputs.len());
    let analyzed: Vec<OutcomeAnalysis> = analyze_outcomes(
        catalog,
        &outcomes,
        rarity,
        inputs.len(),
        average,
    );
    let mut shown: Vec<InputAnalysis> = Vec::new();
    let mut i: usize = 0;
    while i < inputs.len()
        invariant
            i <= inputs@.len(),
            inputs@.len() == 10,
            skins == catalog.skins(),
            resolves(inputs@, skins, request.inputs@),
            shares@ == shares_of(inputs@),
            shown@.len() == i,
            forall|j: int|
                0 <= j < i ==> describes_input(
                    #[trigger] shown@[j],
                    j,
                    slot_skin(skins, slots_of(request.inputs@)[j]),
                    request.inputs@[j],
                ),
        decreases inputs.len() - i,
    {
        let input: &ResolvedInput<'_> = &inputs[i];
        proof {
            assert(inputs@[i as int].float_value == request.inputs@[i as int].float_value);
        }
        shown.push(
            InputAnalysis {
                slot: i + 1,
                skin_id: input.skin.id.clone(),
                skin_name: input.skin.name.clone(),
                collection_name: input.skin.collection_name.clone(),
                rarity: input.skin.rarity,
                raw_float: Float32Value::new(input.float_value),
                adjusted_float: Float32Value::new(shares[i]),
                inspect_link_supplied: input.inspect_link_supplied,
            },
        );
        i = i + 1;
    }
    let mut warnings: Vec<String> = Vec::new();
    warnings.push(
        "Вычисления выполняются нативным Rust-ядром как последовательные IEEE-754 float32; bits сохранены в ответе.".to_owned(),
    );
    warnings.push(
        "Порядок слотов сохранён. Его влияние на граничные реальные крафты пока считается непроверенной гипотезой.".to_owned(),
    );
    proof {
        assert(texts(warnings@) =~= analysis_warnings());
        assert(slots[0] == slot_of(request.inputs@[0]));
    }
    Ok(
        AnalyzeResponse {
            valid: true,
            contract_size: request.contract_size,
            input_rarity: chosen[0].rarity,
            average_adjusted: Float32Value::new(average),
            inputs: shown,
            outcomes: analyzed,
            warnings,
        },
    )
}

/// Describes every outcome.
fn analyze_outcomes(
    catalog: &Catalog,
    outcomes: &Vec<Tallied<Skin>>,
    rarity: Rarity,
    size: usize,
    average: Float32,
) -> (r: Vec<OutcomeAnalysis>)
    ensures
        r@.len() == outcomes@.len(),
        forall|i: int|
            0 <= i < r@.len() ==> describes_outcome(
                #[trigger] r@[i],
                catalog.skins(),
                entries_of(outcomes@)[i],
                rarity,
                size as nat,
                average,
            ),
{
    let mut r: Vec<OutcomeAnalysis> = Vec::new();
    let mut i: usize = 0;
    while i < outcomes.len()
        invariant
            i <= outcomes@.len(),
            r@.len() == i,
            forall|j: int|
                0 <= j < i ==> describes_outcome(
                    #[trigger] r@[j],
                    catalog.skins(),
                    entries_of(outcomes@)[j],
                    rarity,
                    size as nat,
                    average,
                ),
        decreases outcomes.len() - i,
    {
        r.push(analyze_outcome(catalog, &outcomes[i], rarity, size, average));
        i = i + 1;
    }
    r
}

/// Previews only the information that is already implied by a partially filled
/// contract of ten normal items. Unknown slots stand for the full adjusted-float
/// interval from zero to one, so the displayed float range is possible, not a
/// fabricated exact prediction.
pub fn preview_partial_contract(catalog: &Catalog, request: PartialAnalyzeRequest) -> (r: Result<
    PartialAnalyzeResponse,
    PlannerError,
>)
    ensures
        match r {
            Ok(response) => {
                &&& preview_failure(
                    catalog.skins(),
                    partial_slots(request.inputs@),
                    request.stattrak,
                ) is None
                &&& describes_preview(
                    response,
                    catalog.skins(),
                    partial_slots(request.inputs@),
                )
            },
            Err(error) => preview_failure(
                catalog.skins(),
                partial_slots(request.inputs@),
                request.stattrak,
            ) == Some(error@),
        },
{
    if request.inputs.len() == 0 || request.inputs.len() > 10 {
        return Err(
            PlannerError::Validation(
                "choose between 1 and 10 contract inputs for a preview".to_owned(),
            ),
        );
    }
    let ghost skins = catalog.skins();
    let ghost slots = partial_slots(request.inputs@);
    let mut chosen: Vec<&Skin> = Vec::new();
    let mut shares: Vec<Float32> = Vec::new();
    let mut i: usize = 0;
    proof {
        assert(slots.take(0) =~= Seq::empty());
        assert(plain(chosen@) =~= slot_skins(skins, slots.take(0)));
    }
    while i < request.inputs.len()
        invariant
            i <= request.inputs@.len(),
            skins == catalog.skins(),
            slots == partial_slots(request.inputs@),
            0 < slots.len() <= 10,
            slots_failure(skins, slots.take(i as int), request.stattrak) is None,
            plain(chosen@) == slot_skins(skins, slots.take(i as int)),
            chosen@.len() == i,
            shares@ == known_shares(skins, slots.take(i as int)),
            shares@.len() <= i,
        decreases request.inputs.len() - i,
    {
        let input: &PartialInputRequest = &request.inputs[i];
        proof {
            assert(slots.take(i + 1).drop_last() =~= slots.take(i as int));
            lemma_slots_failure_persists(skins, slots, request.stattrak, i + 1);
        }
        let skin: &Skin = match resolve_slot(
            catalog,
            input.skin_id.as_str(),
            input.float_value,
            request.stattrak,
        ) {
            Ok(skin) => skin,
            Err(error) => {
                return Err(error);
            },
        };
        if let Some(value) = input.float_value {
            shares.push(adjusted_share(value, skin));
        }
        let ghost before = chosen@;
        chosen.push(skin);
        proof {
            assert(slot_skins(skins, slots.take(i + 1)) =~= slot_skins(
                skins,
                slots.take(i as int),
            ).push(*skin));
            assert(plain(before.push(skin)) =~= plain(before).push(*skin));
        }
        i = i + 1;
    }
    proof {
        assert(slots.take(i as int) =~= slots);
        assert(*chosen@[0] == plain(chosen@)[0]);
    }
    let (rarity, outcomes) = match find_tier(
        catalog,
        &chosen,
        "all selected contract inputs must have the same rarity",
    ) {
        Ok(tier) => tier,
        Err(error) => {
            return Err(error);
        },
    };
    let floats_specified: usize = shares.len();
    let remaining: usize = 10 - floats_specified;
    let known_sum: Float32 = sum_in_order(shares.as_slice());
    let ten: Float32 = Float32::from_bits(TEN_BITS);
    let least: Float32 = f32_div(known_sum, ten);
    let greatest: Float32 = f32_div(f32_add(known_sum, Float32::from_count(remaining)), ten);
    let mut shown: Vec<PartialOutcomeAnalysis> = Vec::new();
    let mut k: usize = 0;
    while k < outcomes.len()
        invariant
            k <= outcomes@.len(),
            skins == catalog.skins(),
            chosen@.len() <= 10,
            shown@.len() == k,
            least == least_average(shares@),
            greatest == greatest_average(shares@),
            ten.bits == TEN_BITS,
            forall|j: int|
                0 <= j < k ==> describes_partial_outcome(
                    #[trigger] shown@[j],
                    skins,
                    entries_of(outcomes@)[j],
                    rarity,
                    chosen@.len(),
                    shares@,
                ),
        decreases outcomes.len() - k,
    {
        let skin: &Skin = &outcomes[k].item;
        let alike: usize = catalog.outcomes_for_collection(
            skin.collection_id.as_str(),
            rarity,
        ).len();
        let whole: Float32 = f32_mul(ten, Float32::from_count(alike));
        let most: usize = outcomes[k].count.saturating_add(10 - chosen.len());
        shown.push(
            PartialOutcomeAnalysis {
                skin_id: skin.id.clone(),
                skin_name: skin.name.clone(),
                collection_name: skin.collection_name.clone(),
                known_inputs_from_collection: outcomes[k].count,
                probability_min: f32_div(Float32::from_count(outcomes[k].count), whole),
                probability_max: f32_div(Float32::from_count(most), whole),
                predicted_float_min: Float32Value::new(output_float(least, skin)),
                predicted_float_max: Float32Value::new(output_float(greatest, skin)),
            },
        );
        k = k + 1;
    }
    Ok(
        PartialAnalyzeResponse {
            input_rarity: chosen[0].rarity,
            selected_slots: chosen.len(),
            floats_specified,
            remaining_float_slots: remaining,
            outcomes: shown,
        },
    )
}

} // verus!
