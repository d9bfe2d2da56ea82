//! Skins, listings and the arithmetic of one contract.
use crate::decimal::{fixed, nine_places};
use crate::float32::{
    absolute, below, difference, not_above, of_count, product, quotient, sum,
};
use crate::sorting::{Ranked, Sortable};
use crate::text::{
    compare_text, copy_optional, join2, join3, lemma_text_relations, text_relation, Relation,
};
use vstd::prelude::*;
use vstd::string::StringExecFns;

pub use crate::contract::{
    analyze_contract, preview_partial_contract, AnalyzeRequest, AnalyzeResponse, InputAnalysis,
    InputRequest, OutcomeAnalysis, PartialAnalyzeRequest, PartialAnalyzeResponse,
    PartialInputRequest, PartialOutcomeAnalysis,
};
pub use crate::float32::{f32_abs, f32_add, f32_div, f32_mul, f32_sub, Float32};
pub use crate::planner::{
    plan_is_defined, plan_reverse, PlanRequest, PlanResponse, PlannedListing, TargetConstraint,
};
pub use crate::search::PlanningPriority;

verus! {

/// Why a request was turned down.
#[derive(Debug)]
pub enum PlannerError {
    Validation(String),
    Catalog(String),
}

/// What a `PlannerError` says.
pub enum Failure {
    Validation(Seq<char>),
    Catalog(Seq<char>),
}

impl View for PlannerError {
    type V = Failure;

    open spec fn view(&self) -> Failure {
        match self {
            PlannerError::Validation(text) => Failure::Validation(text@),
            PlannerError::Catalog(text) => Failure::Catalog(text@),
        }
    }
}

impl PlannerError {
    /// The message shown to the user.
    pub fn to_text(&self) -> (r: String)
        ensures
            r@ == match self@ {
                Failure::Validation(text) => text,
                Failure::Catalog(text) => "internal catalog error: "@ + text,
            },
    {
        match self {
            PlannerError::Validation(text) => text.clone(),
            PlannerError::Catalog(text) => join2("internal catalog error: ", text.as_str()),
        }
    }
}

#[derive(Debug, Clone, Copy, PartialEq, Eq, Structural)]
pub enum Rarity {
    Consumer,
    Industrial,
    MilSpec,
    Restricted,
    Classified,
    Covert,
    Extraordinary,
}

/// The tiers of the standard contract, lowest first.
pub open spec fn standard_tiers() -> Seq<Rarity> {
    seq![
        Rarity::Consumer,
        Rarity::Industrial,
        Rarity::MilSpec,
        Rarity::Restricted,
        Rarity::Classified,
        Rarity::Covert,
    ]
}

/// The place of a tier on the ladder; rare special items stand on none.
pub open spec fn tier_place(rarity: Rarity) -> Option<int> {
    match rarity {
        Rarity::Consumer => Some(0),
        Rarity::Industrial => Some(1),
        Rarity::MilSpec => Some(2),
        Rarity::Restricted => Some(3),
        Rarity::Classified => Some(4),
        Rarity::Covert => Some(5),
        Rarity::Extraordinary => None,
    }
}

/// The tier so many steps up the ladder.
pub open spec fn tier_at_distance(rarity: Rarity, steps: int) -> Option<Rarity> {
    match tier_place(rarity) {
        Some(place) => if 0 <= place + steps < standard_tiers().len() {
            Some(standard_tiers()[place + steps])
        } else {
            None
        },
        None => None,
    }
}

/// The tier directly above.
pub open spec fn tier_above(rarity: Rarity) -> Option<Rarity> {
    tier_at_distance(rarity, 1)
}

/// The tier directly below.
pub open spec fn tier_below(rarity: Rarity) -> Option<Rarity> {
    tier_at_distance(rarity, -1)
}

/// Going up one tier and coming down again leads back, and the other way round.
pub proof fn law_tiers_invert(lower: Rarity, upper: Rarity)
    ensures
        tier_above(lower) == Some(upper) <==> tier_below(upper) == Some(lower),
{
}

/// The name of a rarity.
pub open spec fn rarity_name(rarity: Rarity) -> Seq<char> {
    match rarity {
        Rarity::Consumer => "Consumer"@,
        Rarity::Industrial => "Industrial"@,
        Rarity::MilSpec => "MilSpec"@,
        Rarity::Restricted => "Restricted"@,
        Rarity::Classified => "Classified"@,
        Rarity::Covert => "Covert"@,
        Rarity::Extraordinary => "Extraordinary"@,
    }
}

impl Rarity {
    /// The tier that ten items of this one are traded up to.
    pub fn next(self) -> (r: Option<Self>)
        ensures
            r == tier_above(self),
    {
        match self {
            Rarity::Consumer => Some(Rarity::Industrial),
            Rarity::Industrial => Some(Rarity::MilSpec),
            Rarity::MilSpec => Some(Rarity::Restricted),
            Rarity::Restricted => Some(Rarity::Classified),
            Rarity::Classified => Some(Rarity::Covert),
            Rarity::Covert | Rarity::Extraordinary => None,
        }
    }

    /// The tier whose items are traded up to this one.
    pub fn previous(self) -> (r: Option<Self>)
        ensures
            r == tier_below(self),
    {
        match self {
            Rarity::Industrial => Some(Rarity::Consumer),
            Rarity::MilSpec => Some(Rarity::Industrial),
            Rarity::Restricted => Some(Rarity::MilSpec),
            Rarity::Classified => Some(Rarity::Restricted),
            Rarity::Covert => Some(Rarity::Classified),
            Rarity::Consumer | Rarity::Extraordinary => None,
        }
    }

    pub fn name(self) -> (r: &'static str)
        ensures
            r@ == rarity_name(self),
    {
        match self {
            Rarity::Consumer => "Consumer",
            Rarity::Industrial => "Industrial",
            Rarity::MilSpec => "MilSpec",
            Rarity::Restricted => "Restricted",
            Rarity::Classified => "Classified",
            Rarity::Covert => "Covert",
            Rarity::Extraordinary => "Extraordinary",
        }
    }
}

#[derive(Debug)]
pub struct Skin {
    pub id: String,
    pub name: String,
    pub collection_id: String,
    pub collection_name: String,
    pub rarity: Rarity,
    pub min_float: Float32,
    pub max_float: Float32,
    pub stattrak_supported: bool,
    pub def_index: Option<u32>,
    pub paint_index: Option<u32>,
}

impl Clone for Skin {
    fn clone(&self) -> (r: Self)
        ensures
            r == *self,
    {
        Skin {
            id: self.id.clone(),
            name: self.name.clone(),
            collection_id: self.collection_id.clone(),
            collection_name: self.collection_name.clone(),
            rarity: self.rarity,
            min_float: self.min_float,
            max_float: self.max_float,
            stattrak_supported: self.stattrak_supported,
            def_index: self.def_index,
            paint_index: self.paint_index,
        }
    }
}

/// The catalog order: by collection name, then name, then id.
impl Ranked for Skin {
    open spec fn not_after(self, other: Self) -> bool {
        match text_relation(self.collection_name@, other.collection_name@) {
            Relation::Before => true,
            Relation::After => false,
            Relation::Same => match text_relation(self.name@, other.name@) {
                Relation::Before => true,
                Relation::After => false,
                Relation::Same => !(text_relation(self.id@, other.id@) is After),
            },
        }
    }

    proof fn lemma_total(a: Self, b: Self) {
        lemma_text_relations(a.collection_name@, b.collection_name@, b.collection_name@);
        lemma_text_relations(a.name@, b.name@, b.name@);
        lemma_text_relations(a.id@, b.id@, b.id@);
    }

    proof fn lemma_transitive(a: Self, b: Self, c: Self) {
        lemma_text_relations(a.collection_name@, b.collection_name@, c.collection_name@);
        lemma_text_relations(b.collection_name@, c.collection_name@, c.collection_name@);
        lemma_text_relations(a.name@, b.name@, c.name@);
        lemma_text_relations(b.name@, c.name@, c.name@);
        lemma_text_relations(a.id@, b.id@, c.id@);
        lemma_text_relations(b.id@, c.id@, c.id@);
    }
}

impl Sortable for Skin {
    type Key = Skin;

    open spec fn key(self) -> Skin {
        self
    }

    fn stays_before(&self, other: &Self) -> (r: bool) {
        match compare_text(self.collection_name.as_str(), other.collection_name.as_str()) {
            Relation::Before => true,
            Relation::After => false,
            Relation::Same => match compare_text(self.name.as_str(), other.name.as_str()) {
                Relation::Before => true,
                Relation::After => false,
                Relation::Same => match compare_text(self.id.as_str(), other.id.as_str()) {
                    Relation::After => false,
                    _ => true,
                },
            },
        }
    }
}

#[derive(Debug)]
pub struct FixtureListing {
    pub id: String,
    pub skin_id: String,
    pub float_value: Float32,
    pub price_cents: u64,
    pub market_url: String,
    pub source: String,
    pub inspect_link: Option<String>,
}

impl Clone for FixtureListing {
    fn clone(&self) -> (r: Self)
        ensures
            r == *self,
    {
        FixtureListing {
            id: self.id.clone(),
            skin_id: self.skin_id.clone(),
            float_value: self.float_value,
            price_cents: self.price_cents,
            market_url: self.market_url.clone(),
            source: self.source.clone(),
            inspect_link: copy_optional(&self.inspect_link),
        }
    }
}

/// The offer order: the cheapest first, equal prices by id.
impl Ranked for FixtureListing {
    open spec fn not_after(self, other: Self) -> bool {
        self.price_cents < other.price_cents || (self.price_cents == other.price_cents && !(
        text_relation(self.id@, other.id@) is After))
    }

    proof fn lemma_total(a: Self, b: Self) {
        lemma_text_relations(a.id@, b.id@, b.id@);
    }

    proof fn lemma_transitive(a: Self, b: Self, c: Self) {
        lemma_text_relations(a.id@, b.id@, c.id@);
        lemma_text_relations(b.id@, c.id@, c.id@);
    }
}

impl<'a> Sortable for &'a FixtureListing {
    type Key = FixtureListing;

    open spec fn key(self) -> FixtureListing {
        *self
    }

    fn stays_before(&self, other: &Self) -> (r: bool) {
        if self.price_cents != other.price_cents {
            return self.price_cents < other.price_cents;
        }
        match compare_text(self.id.as_str(), other.id.as_str()) {
            Relation::After => false,
            _ => true,
        }
    }
}

/// A number as it is reported: its value, its bits and nine decimal places.
#[derive(Debug)]
pub struct Float32Value {
    pub value: Float32,
    pub bits: u32,
    pub display: String,
}

/// `shown` reports the number `x`.
pub open spec fn reports(shown: Float32Value, x: Float32) -> bool {
    &&& shown.value == x
    &&& shown.bits == x.bits
    &&& shown.display@ == fixed(x, 9)
}

impl Float32Value {
    pub fn new(value: Float32) -> (r: Self)
        ensures
            reports(r, value),
    {
        Float32Value { value, bits: value.to_bits(), display: nine_places(value) }
    }
}

impl Clone for Float32Value {
    fn clone(&self) -> (r: Self)
        ensures
            r == *self,
    {
        Float32Value { value: self.value, bits: self.bits, display: self.display.clone() }
    }
}

/// The lower ends of the four worn exteriors: 0.07, 0.15, 0.38 and 0.45.
pub const WEAR_BOUNDARY_BITS: [u32; 4] = [0x3d8f_5c29, 0x3e19_999a, 0x3ec2_8f5c, 0x3ee6_6666];

/// 0.00001.
pub const NEAR_BOUNDARY_BITS: u32 = 0x3727_c5ac;

pub open spec fn wear_boundary(i: int) -> Float32 {
    Float32 { bits: WEAR_BOUNDARY_BITS@[i] }
}

#[derive(Debug)]
pub struct WearInfo {
    pub name: &'static str,
    pub distance_to_nearest_boundary: Float32Value,
    pub nearest_boundary: Float32Value,
    pub near_boundary: bool,
}

impl Clone for WearInfo {
    fn clone(&self) -> (r: Self)
        ensures
            r == *self,
    {
        WearInfo {
            name: self.name,
            distance_to_nearest_boundary: self.distance_to_nearest_boundary.clone(),
            nearest_boundary: self.nearest_boundary.clone(),
            near_boundary: self.near_boundary,
        }
    }
}

/// The exterior that a float belongs to.
pub open spec fn wear_name(x: Float32) -> Seq<char> {
    if below(x, wear_boundary(0)) {
        "Factory New"@
    } else if below(x, wear_boundary(1)) {
        "Minimal Wear"@
    } else if below(x, wear_boundary(2)) {
        "Field-Tested"@
    } else if below(x, wear_boundary(3)) {
        "Well-Worn"@
    } else {
        "Battle-Scarred"@
    }
}

pub open spec fn boundary_distance(x: Float32, i: int) -> Float32 {
    absolute(difference(x, wear_boundary(i)))
}

/// The boundary nearest to `x` among the first `n`; the lowest of equally near ones.
pub open spec fn nearest_boundary(x: Float32, n: nat) -> int
    decreases n,
{
    if n <= 1 {
        0
    } else {
        let best = nearest_boundary(x, (n - 1) as nat);
        if boundary_distance(x, n - 1).total_rank() < boundary_distance(x, best).total_rank() {
            n - 1
        } else {
            best
        }
    }
}

/// `info` describes the float `x`.
pub open spec fn describes_wear(info: WearInfo, x: Float32) -> bool {
    let i = nearest_boundary(x, 4);
    &&& info.name@ == wear_name(x)
    &&& reports(info.distance_to_nearest_boundary, boundary_distance(x, i))
    &&& reports(info.nearest_boundary, wear_boundary(i))
    &&& info.near_boundary == not_above(
        boundary_distance(x, i),
        Float32 { bits: NEAR_BOUNDARY_BITS },
    )
}

/// No boundary is nearer than the nearest one.
pub proof fn law_nearest_boundary(x: Float32, n: nat, i: int)
    requires
        1 <= n <= 4,
        0 <= i < n,
    ensures
        0 <= nearest_boundary(x, n) < n,
        boundary_distance(x, nearest_boundary(x, n)).total_rank() <= boundary_distance(
            x,
            i,
        ).total_rank(),
    decreases n,
{
    if n > 1 {
        law_nearest_boundary(x, (n - 1) as nat, if i < n - 1 { i } else { 0 });
    }
}

pub fn wear_info(value: Float32) -> (r: WearInfo)
    ensures
        describes_wear(r, value),
{
    let name: &'static str = if value.less(Float32::from_bits(WEAR_BOUNDARY_BITS[0])) {
        "Factory New"
    } else if value.less(Float32::from_bits(WEAR_BOUNDARY_BITS[1])) {
        "Minimal Wear"
    } else if value.less(Float32::from_bits(WEAR_BOUNDARY_BITS[2])) {
        "Field-Tested"
    } else if value.less(Float32::from_bits(WEAR_BOUNDARY_BITS[3])) {
        "Well-Worn"
    } else {
        "Battle-Scarred"
    };
    let mut boundary: Float32 = Float32::from_bits(WEAR_BOUNDARY_BITS[0]);
    let mut distance: Float32 = f32_abs(f32_sub(value, boundary));
    let mut i: usize = 1;
    while i < 4
        invariant
            1 <= i <= 4,
            boundary == wear_boundary(nearest_boundary(value, i as nat)),
            distance == boundary_distance(value, nearest_boundary(value, i as nat)),
        decreases 4 - i,
    {
        let next: Float32 = Float32::from_bits(WEAR_BOUNDARY_BITS[i]);
        let gap: Float32 = f32_abs(f32_sub(value, next));
        if gap.total_rank_value() < distance.total_rank_value() {
            boundary = next;
            distance = gap;
        }
        i = i + 1;
    }
    WearInfo {
        name,
        distance_to_nearest_boundary: Float32Value::new(distance),
        nearest_boundary: Float32Value::new(boundary),
        near_boundary: distance.at_most(Float32::from_bits(NEAR_BOUNDARY_BITS)),
    }
}

/// The share of its cap range that a float takes up.
pub open spec fn adjusted(raw: Float32, skin: Skin) -> Float32 {
    quotient(difference(raw, skin.min_float), cap_span(skin))
}

pub open spec fn cap_span(skin: Skin) -> Float32 {
    difference(skin.max_float, skin.min_float)
}

pub open spec fn zero() -> Float32 {
    Float32 { bits: 0 }
}

/// Why a float is refused for a skin, if it is.
pub open spec fn float_failure(raw: Float32, skin: Skin) -> Option<Failure> {
    if !raw.finite() {
        Some(Failure::Validation("float for "@ + skin.name@ + " must be finite"@))
    } else if below(raw, skin.min_float) || below(skin.max_float, raw) {
        Some(
            Failure::Validation(
                "float "@ + fixed(raw, 9) + " is outside "@ + skin.name@ + " cap ["@ + fixed(
                    skin.min_float,
                    9,
                ) + ", "@ + fixed(skin.max_float, 9) + "]"@,
            ),
        )
    } else if not_above(cap_span(skin), zero()) {
        Some(Failure::Catalog(skin.name@ + " has an invalid float cap"@))
    } else {
        None
    }
}

pub fn adjusted_float(raw: Float32, skin: &Skin) -> (r: Result<Float32, PlannerError>)
    ensures
        match r {
            Ok(value) => float_failure(raw, *skin) is None && value == adjusted(raw, *skin),
            Err(error) => float_failure(raw, *skin) == Some(error@),
        },
{
    if !raw.is_finite() {
        return Err(
            PlannerError::Validation(join3("float for ", skin.name.as_str(), " must be finite")),
        );
    }
    if raw.less(skin.min_float) || skin.max_float.less(raw) {
        let mut text: String = join3("float ", nine_places(raw).as_str(), " is outside ");
        text.append(skin.name.as_str());
        text.append(" cap [");
        text.append(nine_places(skin.min_float).as_str());
        text.append(", ");
        text.append(nine_places(skin.max_float).as_str());
        text.append("]");
        return Err(PlannerError::Validation(text));
    }
    let numerator: Float32 = f32_sub(raw, skin.min_float);
    let denominator: Float32 = f32_sub(skin.max_float, skin.min_float);
    if denominator.at_most(Float32::from_bits(0)) {
        return Err(
            PlannerError::Catalog(join2(skin.name.as_str(), " has an invalid float cap")),
        );
    }
    Ok(f32_div(numerator, denominator))
}

/// The float that an average share gives within the caps of a skin.
pub open spec fn predicted_output(average: Float32, skin: Skin) -> Float32 {
    sum(skin.min_float, product(average, cap_span(skin)))
}

pub fn output_float(average_adjusted: Float32, skin: &Skin) -> (r: Float32)
    ensures
        r == predicted_output(average_adjusted, *skin),
{
    let span: Float32 = f32_sub(skin.max_float, skin.min_float);
    let scaled: Float32 = f32_mul(average_adjusted, span);
    f32_add(skin.min_float, scaled)
}

/// The running single-precision sum, taken from the first value on.
pub open spec fn running_sum(values: Seq<Float32>) -> Float32
    decreases values.len(),
{
    if values.len() == 0 {
        zero()
    } else {
        sum(running_sum(values.drop_last()), values.last())
    }
}

pub open spec fn average(values: Seq<Float32>, count: nat) -> Float32 {
    quotient(running_sum(values), of_count(count))
}

pub fn sum_in_order(values: &[Float32]) -> (r: Float32)
    ensures
        r == running_sum(values@),
{
    let mut total: Float32 = Float32::from_bits(0);
    let mut i: usize = 0;
    proof {
        assert(values@.take(0) =~= Seq::empty());
    }
    while i < values.len()
        invariant
            i <= values@.len(),
            total == running_sum(values@.take(i as int)),
        decreases values.len() - i,
    {
        proof {
            assert(values@.take(i + 1).drop_last() =~= values@.take(i as int));
        }
        total = f32_add(total, values[i]);
        i = i + 1;
    }
    proof {
        assert(values@.take(i as int) =~= values@);
    }
    total
}

/// The average of adjusted floats; the values are added up in their order.
pub fn average_adjusted(values: &[Float32], count: usize) -> (r: Float32)
    ensures
        r == average(values@, count as nat),
{
    f32_div(sum_in_order(values), Float32::from_count(count))
}

} // verus!
