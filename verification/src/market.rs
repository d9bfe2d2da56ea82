//! Listings of the Steam Community Market: what is asked for and what is made of the answers.
use crate::catalog::{clone_listings, find_skin, input_pool, plain, Catalog};
use crate::domain::{Failure, FixtureListing, Float32, PlannerError, Skin};
use crate::float32::below;
use crate::float64::{narrowed, Float64};
use crate::json::{
    json_first, json_member, json_text, parse_json, parsed_json, Json,
};
use crate::slices::{
    find_bytes, first_match, lemma_ascii_boundaries, lemma_first_match, lemma_text_bytes,
    slice_text,
};
use crate::sorting::{keys, lemma_stable_sorted, picked, stable_order, stable_sorted};
use crate::sync::setting_text;
use crate::text::{byte_len, decimal, decimal_text, join2, join3, same_text};
use crate::urls::{
    append_query, append_segment, has_room_for_query, has_room_for_segment, optional_text,
    parse_url, parsed_url, query_pairs, room_for_query, room_for_segment, url_with_query,
    url_with_segment, UrlParts,
};
use vstd::prelude::*;
use vstd::string::{StrSliceExecFns, StringExecFns, StringSliceAdditionalSpecFns};
use vstd::utf8::{
    decode_utf8, encode_scalar, encode_utf8, encode_utf8_decode_utf8, is_ascii_chars,
    is_ascii_chars_encode_utf8, is_char_boundary, is_char_boundary_start_end_of_seq,
};

verus! {

/// The most listings that are kept for one skin.
pub const MAX_CANDIDATES_PER_SKIN: usize = 200;

/// The most pages that are read for one skin.
pub const MAX_PAGES_PER_SKIN: usize = 10;

/// The most pages that are asked for while one plan is made.
pub const MAX_REQUESTS_PER_PLAN: usize = 20;

/// The most skins that are searched for one plan.
pub const MAX_SKINS_PER_LIVE_PLAN: usize = 5;

#[derive(Debug, Clone)]
pub struct MarketStatus {
    pub provider: String,
    pub enabled: bool,
    pub cache_ttl_seconds: u64,
    pub minimum_request_interval_ms: u64,
    pub cached_searches: usize,
    pub max_candidates_per_skin: usize,
}

/// One page of listings.
#[derive(Debug)]
pub struct SteamMarketPage {
    pub more: bool,
    pub listings: Vec<SteamListing>,
}

#[derive(Debug)]
pub struct SteamListing {
    pub listing_id: String,
    pub price_cents: u64,
    pub fee_cents: u64,
    pub description: SteamDescription,
    pub asset: SteamAsset,
}

#[derive(Debug)]
pub struct SteamDescription {
    pub market_hash_name: String,
    pub market_actions: Vec<SteamMarketAction>,
}

#[derive(Debug)]
pub struct SteamMarketAction {
    pub link: String,
}

#[derive(Debug)]
pub struct SteamAsset {
    pub asset_properties: Vec<SteamAssetProperty>,
}

#[derive(Debug)]
pub struct SteamAssetProperty {
    pub property_id: u32,
    pub float_value: Option<Float64>,
    pub string_value: Option<String>,
}

/// The exteriors, each with the bits of its bounds.
pub open spec fn wear_variants() -> Seq<(Seq<char>, u32, u32)> {
    seq![
        ("Factory New"@, 0u32, 0x3d8f_5c29u32),
        ("Minimal Wear"@, 0x3d8f_5c29u32, 0x3e19_999au32),
        ("Field-Tested"@, 0x3e19_999au32, 0x3ec2_8f5cu32),
        ("Well-Worn"@, 0x3ec2_8f5cu32, 0x3ee6_6666u32),
        ("Battle-Scarred"@, 0x3ee6_6666u32, 0x3f80_0000u32),
    ]
}

/// Whether a skin comes in an exterior.
pub open spec fn wear_fits(skin: Skin, lower: u32, upper: u32) -> bool {
    below(skin.min_float, Float32 { bits: upper }) && below(
        Float32 { bits: lower },
        skin.max_float,
    )
}

/// The exteriors, among the first `n`, that a skin comes in.
pub open spec fn fitting_wears(skin: Skin, n: nat) -> Seq<Seq<char>>
    decreases n,
{
    if n == 0 {
        Seq::empty()
    } else {
        let (name, lower, upper) = wear_variants()[n - 1];
        let front = fitting_wears(skin, (n - 1) as nat);
        if wear_fits(skin, lower, upper) {
            front.push(name)
        } else {
            front
        }
    }
}

pub open spec fn str_texts(list: Seq<&str>) -> Seq<Seq<char>> {
    Seq::new(list.len(), |i: int| list[i]@)
}

fn push_wear(
    wears: &mut Vec<&'static str>,
    skin: &Skin,
    name: &'static str,
    lower: u32,
    upper: u32,
    Ghost(n): Ghost<nat>,
)
    requires
        n < 5,
        wear_variants()[n as int] == (name@, lower, upper),
        str_texts(old(wears)@) == fitting_wears(*skin, n),
    ensures
        str_texts(final(wears)@) == fitting_wears(*skin, n + 1),
{
    if skin.min_float.less(Float32::from_bits(upper)) && Float32::from_bits(lower).less(
        skin.max_float,
    ) {
        let ghost before = wears@;
        wears.push(name);
        proof {
            assert(str_texts(wears@) =~= str_texts(before).push(name@));
        }
    }
}

/// The exteriors that a skin comes in.
pub fn eligible_wears(skin: &Skin) -> (r: Vec<&'static str>)
    ensures
        str_texts(r@) == fitting_wears(*skin, 5),
{
    let mut wears: Vec<&'static str> = Vec::new();
    proof {
        assert(str_texts(wears@) =~= Seq::empty());
    }
    push_wear(&mut wears, skin, "Factory New", 0, 0x3d8f_5c29, Ghost(0));
    push_wear(&mut wears, skin, "Minimal Wear", 0x3d8f_5c29, 0x3e19_999a, Ghost(1));
    push_wear(&mut wears, skin, "Field-Tested", 0x3e19_999a, 0x3ec2_8f5c, Ghost(2));
    push_wear(&mut wears, skin, "Well-Worn", 0x3ec2_8f5c, 0x3ee6_6666, Ghost(3));
    push_wear(&mut wears, skin, "Battle-Scarred", 0x3ee6_6666, 0x3f80_0000, Ghost(4));
    wears
}

/// The name under which the market lists a skin.
pub open spec fn hash_name(skin: Skin, wear: Seq<char>, stattrak: bool) -> Seq<char> {
    (if stattrak {
        "StatTrak™ "@
    } else {
        ""@
    }) + skin.name@ + " ("@ + wear + ")"@
}

pub fn market_hash_name(skin: &Skin, wear: &str, stattrak: bool) -> (r: String)
    ensures
        r@ == hash_name(*skin, wear@, stattrak),
{
    let mut r: String = join3(
        if stattrak {
            "StatTrak™ "
        } else {
            ""
        },
        skin.name.as_str(),
        " (",
    );
    r.append(wear);
    r.append(")");
    r
}

/// The first property with an id.
pub open spec fn property_of(properties: Seq<SteamAssetProperty>, id: u32) -> Option<
    SteamAssetProperty,
>
    decreases properties.len(),
{
    if properties.len() == 0 {
        None
    } else if properties[0].property_id == id {
        Some(properties[0])
    } else {
        property_of(properties.drop_first(), id)
    }
}

fn find_property(properties: &Vec<SteamAssetProperty>, id: u32) -> (r: Option<&SteamAssetProperty>)
    ensures
        match r {
            Some(property) => property_of(properties@, id) == Some(*property),
            None => property_of(properties@, id) is None,
        },
{
    let mut i: usize = 0;
    proof {
        assert(properties@.skip(0) =~= properties@);
    }
    while i < properties.len()
        invariant
            i <= properties@.len(),
            property_of(properties@, id) == property_of(properties@.skip(i as int), id),
        decreases properties.len() - i,
    {
        if properties[i].property_id == id {
            return Some(&properties[i]);
        }
        proof {
            assert(properties@.skip(i as int).drop_first() =~= properties@.skip(i + 1));
        }
        i = i + 1;
    }
    None
}

/// Whether a text contains another.
pub open spec fn holds_text(text: Seq<char>, part: Seq<char>) -> bool {
    first_match(encode_utf8(text), encode_utf8(part), 0) is Some
}

/// The link of the first action that inspects the item in the game.
pub open spec fn preview_link(actions: Seq<SteamMarketAction>) -> Option<Seq<char>>
    decreases actions.len(),
{
    if actions.len() == 0 {
        None
    } else if holds_text(actions[0].link@, "csgo_econ_action_preview"@) {
        Some(actions[0].link@)
    } else {
        preview_link(actions.drop_first())
    }
}

fn find_preview(actions: &Vec<SteamMarketAction>) -> (r: Option<&str>)
    ensures
        match r {
            Some(link) => preview_link(actions@) == Some(link@),
            None => preview_link(actions@) is None,
        },
{
    let wanted: &str = "csgo_econ_action_preview";
    let mut i: usize = 0;
    proof {
        assert(actions@.skip(0) =~= actions@);
    }
    while i < actions.len()
        invariant
            i <= actions@.len(),
            wanted@ == "csgo_econ_action_preview"@,
            preview_link(actions@) == preview_link(actions@.skip(i as int)),
        decreases actions.len() - i,
    {
        let link: &str = actions[i].link.as_str();
        if find_bytes(link.as_bytes(), wanted.as_bytes(), 0).is_some() {
            return Some(link);
        }
        proof {
            assert(actions@.skip(i as int).drop_first() =~= actions@.skip(i + 1));
        }
        i = i + 1;
    }
    None
}

/// Bytes from `from` on with every occurrence of `part` replaced.
pub open spec fn replaced_from(
    bytes: Seq<u8>,
    part: Seq<u8>,
    by: Seq<u8>,
    from: int,
) -> Seq<u8>
    decreases bytes.len() - from,
{
    match first_match(bytes, part, from) {
        Some(i) if from <= i && part.len() > 0 && i + part.len() <= bytes.len() => bytes.subrange(
            from,
            i,
        ) + by + replaced_from(bytes, part, by, i + part.len()),
        _ => bytes.subrange(from, bytes.len() as int),
    }
}

/// A text with every occurrence of `part` replaced.
pub open spec fn replaced(text: Seq<char>, part: Seq<char>, by: Seq<char>) -> Seq<char> {
    decode_utf8(replaced_from(encode_utf8(text), encode_utf8(part), encode_utf8(by), 0))
}

/// Texts are encoded one after another.
pub proof fn lemma_encode_concat(a: Seq<char>, b: Seq<char>)
    ensures
        encode_utf8(a + b) == encode_utf8(a) + encode_utf8(b),
    decreases a.len(),
{
    if a.len() == 0 {
        assert(a + b =~= b);
        assert(encode_utf8(a) =~= Seq::empty());
        assert(Seq::<u8>::empty() + encode_utf8(b) =~= encode_utf8(b));
    } else {
        lemma_encode_concat(a.drop_first(), b);
        assert((a + b).drop_first() =~= a.drop_first() + b);
        let head = encode_scalar(a[0] as u32);
        assert(encode_utf8(a + b) =~= head + encode_utf8(a.drop_first() + b));
        assert(encode_utf8(a) =~= head + encode_utf8(a.drop_first()));
        assert(head + (encode_utf8(a.drop_first()) + encode_utf8(b)) =~= (head + encode_utf8(
            a.drop_first(),
        )) + encode_utf8(b));
    }
}

/// Replaces every occurrence of the inspect placeholder.
fn replace_placeholder(text: &str, by: &str) -> (r: String)
    ensures
        r@ == replaced(text@, "%propid:6%"@, by@),
{
    let part: &str = "%propid:6%";
    let bytes: &[u8] = text.as_bytes();
    let mut r: String = String::new();
    let mut from: usize = 0;
    let ghost (b, p, w) = (encode_utf8(text@), encode_utf8(part@), encode_utf8(by@));
    proof {
        reveal_strlit("%propid:6%");
        is_ascii_chars_encode_utf8(part@);
        lemma_text_bytes(text);
        is_char_boundary_start_end_of_seq(b);
        assert(encode_utf8(r@) =~= Seq::empty());
        assert(Seq::<u8>::empty() + replaced_from(b, p, w, 0) =~= replaced_from(b, p, w, 0));
    }
    loop
        invariant
            bytes@ == b,
            b == encode_utf8(text@),
            b == text.spec_bytes(),
            p == encode_utf8(part@),
            w == encode_utf8(by@),
            part@ == "%propid:6%"@,
            p.len() == 10,
            p[9] == 37,
            from <= b.len(),
            is_char_boundary(b, from as int),
            is_char_boundary(b, b.len() as int),
            encode_utf8(r@) + replaced_from(b, p, w, from as int) == replaced_from(b, p, w, 0),
        decreases b.len() - from,
    {
        proof {
            lemma_first_match(b, p, from as int);
        }
        match find_bytes(bytes, part.as_bytes(), from) {
            Some(i) => {
                let ghost done = encode_utf8(r@);
                proof {
                    lemma_text_bytes(text);
                    assert(b.subrange(i as int, i + 10) == p);
                    assert(b[i + 9] == b.subrange(i as int, i + 10)[9]);
                    lemma_ascii_boundaries(b, i + 9);
                    assert(b[i as int] == b.subrange(i as int, i + 10)[0]);
                    lemma_placeholder_start(p, part@);
                    lemma_ascii_boundaries(b, i as int);
                }
                let piece: &str = slice_text(text, from, i);
                proof {
                    lemma_encode_concat(r@, piece@);
                    lemma_encode_concat(r@ + piece@, by@);
                    lemma_text_bytes(piece);
                }
                r.append(piece);
                r.append(by);
                proof {
                    let rest = replaced_from(b, p, w, i + 10);
                    assert(encode_utf8(r@) == done + b.subrange(from as int, i as int) + w);
                    assert((done + b.subrange(from as int, i as int) + w) + rest =~= done + (
                    b.subrange(from as int, i as int) + w + rest));
                }
                from = i + 10;
            },
            None => {
                let piece: &str = slice_text(text, from, bytes.len());
                proof {
                    lemma_encode_concat(r@, piece@);
                    lemma_text_bytes(piece);
                }
                r.append(piece);
                proof {
                    encode_utf8_decode_utf8(r@);
                }
                return r;
            },
        }
    }
}

/// The placeholder starts with an ASCII byte.
proof fn lemma_placeholder_start(p: Seq<u8>, part: Seq<char>)
    requires
        p == encode_utf8(part),
        part == "%propid:6%"@,
    ensures
        p.len() == 10,
        p[0] == 37,
        p[9] == 37,
{
    reveal_strlit("%propid:6%");
    is_ascii_chars_encode_utf8(part);
}

/// The float of a listed item.
pub open spec fn listed_float(listing: SteamListing) -> Option<Float32> {
    match property_of(listing.asset.asset_properties@, 2) {
        Some(property) => match property.float_value {
            Some(value) => Some(narrowed(value)),
            None => None,
        },
        None => None,
    }
}

/// The link that inspects a listed item in the game.
pub open spec fn listed_inspect_link(listing: SteamListing) -> Option<Seq<char>> {
    match preview_link(listing.description.market_actions@) {
        Some(link) => match property_of(listing.asset.asset_properties@, 6) {
            Some(property) => match property.string_value {
                Some(value) => Some(replaced(link, "%propid:6%"@, value@)),
                None => None,
            },
            None => None,
        },
        None => None,
    }
}

/// What the buyer pays: the price and the fee, within the machine range.
pub open spec fn buyer_price(listing: SteamListing) -> u64 {
    if listing.price_cents + listing.fee_cents > u64::MAX {
        u64::MAX
    } else {
        (listing.price_cents + listing.fee_cents) as u64
    }
}

impl SteamListing {
    pub fn buyer_price_cents(&self) -> (r: u64)
        ensures
            r == buyer_price(*self),
    {
        self.price_cents.saturating_add(self.fee_cents)
    }

    pub fn raw_float(&self) -> (r: Option<Float32>)
        ensures
            r == listed_float(*self),
    {
        match find_property(&self.asset.asset_properties, 2) {
            Some(property) => match property.float_value {
                Some(value) => Some(value.narrow()),
                None => None,
            },
            None => None,
        }
    }

    pub fn inspect_link(&self) -> (r: Option<String>)
        ensures
            optional_text(r) == listed_inspect_link(*self),
    {
        let link: &str = match find_preview(&self.description.market_actions) {
            Some(link) => link,
            None => {
                return None;
            },
        };
        match find_property(&self.asset.asset_properties, 6) {
            Some(property) => match &property.string_value {
                Some(value) => Some(replace_placeholder(link, value.as_str())),
                None => None,
            },
            None => None,
        }
    }
}

/// The position of the quote that ends a string literal.
pub open spec fn literal_end(bytes: Seq<u8>, i: int, escaped: bool) -> Option<int>
    decreases bytes.len() - i,
{
    if i >= bytes.len() {
        None
    } else if escaped {
        literal_end(bytes, i + 1, false)
    } else if bytes[i] == 92 {
        literal_end(bytes, i + 1, true)
    } else if bytes[i] == 34 {
        Some(i)
    } else {
        literal_end(bytes, i + 1, false)
    }
}

/// The string literal at the start of a text, with its quotes.
pub open spec fn leading_literal(bytes: Seq<u8>) -> Result<Seq<u8>, Seq<char>> {
    if bytes.len() == 0 || bytes[0] != 34 {
        Err("SSR JSON.parse does not start with a string literal"@)
    } else {
        match literal_end(bytes, 1, false) {
            Some(end) => Ok(bytes.take(end + 1)),
            None => Err("SSR JSON string literal is not terminated"@),
        }
    }
}

/// Takes the string literal at the start of a text.
pub fn extract_json_string_literal(input: &str) -> (r: Result<&str, String>)
    ensures
        match r {
            Ok(literal) => leading_literal(input.spec_bytes()) == Ok::<Seq<u8>, Seq<char>>(
                literal.spec_bytes(),
            ),
            Err(message) => leading_literal(input.spec_bytes()) == Err::<Seq<u8>, Seq<char>>(
                message@,
            ),
        },
{
    let bytes: &[u8] = input.as_bytes();
    if bytes.len() == 0 || bytes[0] != 34 {
        return Err("SSR JSON.parse does not start with a string literal".to_owned());
    }
    let mut escaped: bool = false;
    let mut i: usize = 1;
    while i < bytes.len()
        invariant
            1 <= i <= bytes@.len(),
            bytes@ == input.spec_bytes(),
            bytes@[0] == 34,
            literal_end(bytes@, 1, false) == literal_end(bytes@, i as int, escaped),
        decreases bytes.len() - i,
    {
        let byte: u8 = bytes[i];
        if escaped {
            escaped = false;
        } else if byte == 92 {
            escaped = true;
        } else if byte == 34 {
            proof {
                lemma_text_bytes(input);
                lemma_ascii_boundaries(bytes@, i as int);
                is_char_boundary_start_end_of_seq(bytes@);
            }
            let literal: &str = slice_text(input, 0, i + 1);
            proof {
                assert(literal.spec_bytes() =~= bytes@.take(i + 1));
            }
            return Ok(literal);
        }
        i = i + 1;
    }
    Err("SSR JSON string literal is not terminated".to_owned())
}

/// What a context stands for that may itself be serialized, up to `depth` times.
pub open spec fn unwrapped(context: Json, depth: nat) -> Result<Json, Seq<char>>
    decreases depth,
{
    if depth == 0 {
        Ok(context)
    } else {
        match json_text(context) {
            None => Ok(context),
            Some(text) => match parsed_json(text) {
                Ok(inner) => unwrapped(inner, (depth - 1) as nat),
                Err(message) => Err("cannot decode nested SSR context: "@ + message),
            },
        }
    }
}

/// The serialized queries of a context.
pub open spec fn query_data(context: Json) -> Option<Seq<char>> {
    match json_member(context, "queryData"@) {
        Some(value) => json_text(value),
        None => None,
    }
}

/// The first page of a query, if it holds listings.
pub open spec fn query_page(query: Json) -> Option<Json> {
    match json_member(query, "state"@) {
        Some(state) => match json_member(state, "data"@) {
            Some(data) => match json_member(data, "pages"@) {
                Some(pages) => match json_first(pages) {
                    Some(page) => if json_member(page, "listings"@) is Some {
                        Some(page)
                    } else {
                        None
                    },
                    None => None,
                },
                None => None,
            },
            None => None,
        },
        None => None,
    }
}

/// The page of the first query that has one.
pub open spec fn first_page(queries: Seq<Json>) -> Option<Json>
    decreases queries.len(),
{
    if queries.len() == 0 {
        None
    } else {
        match query_page(queries[0]) {
            Some(page) => Some(page),
            None => first_page(queries.drop_first()),
        }
    }
}

/// The listings page among decoded queries.
pub open spec fn listings_page(decoded: Json) -> Option<Json> {
    match json_member(decoded, "queries"@) {
        Some(Json::List(queries)) => first_page(queries@),
        _ => None,
    }
}

/// The listings page of a context.
pub open spec fn context_page(context: Json) -> Result<Json, Seq<char>> {
    match query_data(context) {
        None => Err("SSR context has no queryData"@),
        Some(text) => match parsed_json(text) {
            Err(message) => Err("cannot decode Market queryData: "@ + message),
            Ok(decoded) => match listings_page(decoded) {
                Some(page) => Ok(page),
                None => Err("Market listings page is absent from SSR queryData"@),
            },
        },
    }
}

/// The words behind which a page holds its data.
pub open spec fn data_marker() -> Seq<u8> {
    encode_utf8("window.SSR.renderContext=JSON.parse("@)
}

/// The listings page of a market page.
pub open spec fn market_page(html: Seq<u8>) -> Result<Json, Seq<char>> {
    match first_match(html, data_marker(), 0) {
        None => Err("SSR render context is absent"@),
        Some(i) => match leading_literal(html.skip((i + data_marker().len()) as int)) {
            Err(message) => Err(message),
            Ok(literal) => match parsed_json(decode_utf8(literal)) {
                Err(message) => Err("cannot decode SSR string literal: "@ + message),
                Ok(context) => match unwrapped(context, 2) {
                    Err(message) => Err(message),
                    Ok(inner) => context_page(inner),
                },
            },
        },
    }
}

/// Takes the first page out of a query, if it holds listings.
fn take_query_page(query: Json) -> (r: Option<Json>)
    ensures
        r == query_page(query),
{
    let pages: Json = match query.into_member("state") {
        Some(state) => match state.into_member("data") {
            Some(data) => match data.into_member("pages") {
                Some(pages) => pages,
                None => {
                    return None;
                },
            },
            None => {
                return None;
            },
        },
        None => {
            return None;
        },
    };
    match pages.into_first() {
        Some(page) => if page.get("listings").is_some() {
            Some(page)
        } else {
            None
        },
        None => None,
    }
}

/// Takes the listings page out of decoded queries.
pub fn take_listings_page(decoded: Json) -> (r: Option<Json>)
    ensures
        r == listings_page(decoded),
{
    let queries: Vec<Json> = match decoded.into_member("queries") {
        Some(Json::List(queries)) => queries,
        _ => {
            return None;
        },
    };
    let ghost all = queries@;
    let mut rest: Vec<Json> = queries;
    while rest.len() > 0
        invariant
            listings_page(decoded) == first_page(all),
            first_page(all) == first_page(rest@),
        decreases rest@.len(),
    {
        let ghost before = rest@;
        let query: Json = rest.remove(0);
        proof {
            assert(rest@ =~= before.drop_first());
        }
        if let Some(page) = take_query_page(query) {
            return Some(page);
        }
    }
    None
}

/// Takes the serialized queries out of a context.
pub fn find_query_data(context: &Json) -> (r: Option<&str>)
    ensures
        match r {
            Some(text) => query_data(*context) == Some(text@),
            None => query_data(*context) is None,
        },
{
    match context.get("queryData") {
        Some(value) => value.as_str(),
        None => None,
    }
}

/// Decodes a context that may itself be serialized. The depth is bounded, so
/// malformed pages cannot consume unbounded work.
fn unwrap_context(context: Json) -> (r: Result<Json, String>)
    ensures
        match r {
            Ok(inner) => unwrapped(context, 2) == Ok::<Json, Seq<char>>(inner),
            Err(message) => unwrapped(context, 2) == Err::<Json, Seq<char>>(message@),
        },
{
    let mut current: Json = context;
    let mut depth: usize = 2;
    while depth > 0
        invariant_except_break
            unwrapped(context, 2) == unwrapped(current, depth as nat),
        ensures
            unwrapped(context, 2) == Ok::<Json, Seq<char>>(current),
        decreases depth,
    {
        let decoded: Result<Json, String> = match current.as_str() {
            Some(text) => parse_json(text),
            None => {
                break;
            },
        };
        match decoded {
            Ok(inner) => {
                current = inner;
            },
            Err(message) => {
                return Err(join2("cannot decode nested SSR context: ", message.as_str()));
            },
        }
        depth = depth - 1;
    }
    Ok(current)
}

/// The text behind the marker.
fn text_behind_marker(html: &str) -> (r: Option<&str>)
    ensures
        match r {
            Some(rest) => first_match(html.spec_bytes(), data_marker(), 0) matches Some(i)
                && rest.spec_bytes() == html.spec_bytes().skip(
                (i + data_marker().len()) as int,
            ),
            None => first_match(html.spec_bytes(), data_marker(), 0) is None,
        },
{
    let marker: &str = "window.SSR.renderContext=JSON.parse(";
    let start: usize = match find_bytes(html.as_bytes(), marker.as_bytes(), 0) {
        Some(i) => i + marker.len(),
        None => {
            return None;
        },
    };
    proof {
        let b = html.spec_bytes();
        let p = data_marker();
        lemma_text_bytes(html);
        reveal_strlit("window.SSR.renderContext=JSON.parse(");
        is_ascii_chars_encode_utf8(marker@);
        lemma_first_match(b, p, 0);
        let i = start - p.len();
        assert(p.len() == 36);
        assert(b.subrange(i as int, i + 36)[35] == p[35]);
        assert(b[start - 1] == p[35]);
        lemma_ascii_boundaries(b, start - 1);
    }
    let (_, rest) = html.split_at(start);
    proof {
        assert(rest.spec_bytes() =~= html.spec_bytes().skip(start as int));
    }
    Some(rest)
}

/// Finds the listings page in a market page: the page embeds its data as a
/// string literal that is decoded once or twice.
pub fn parse_steam_market_page(html: &str) -> (r: Result<Json, String>)
    ensures
        match r {
            Ok(page) => market_page(html.spec_bytes()) == Ok::<Json, Seq<char>>(page),
            Err(message) => market_page(html.spec_bytes()) == Err::<Json, Seq<char>>(message@),
        },
{
    let rest: &str = match text_behind_marker(html) {
        Some(rest) => rest,
        None => {
            return Err("SSR render context is absent".to_owned());
        },
    };
    let literal: &str = match extract_json_string_literal(rest) {
        Ok(literal) => literal,
        Err(message) => {
            return Err(message);
        },
    };
    proof {
        lemma_text_bytes(literal);
        encode_utf8_decode_utf8(literal@);
    }
    let context: Json = match parse_json(literal) {
        Ok(context) => context,
        Err(message) => {
            return Err(join2("cannot decode SSR string literal: ", message.as_str()));
        },
    };
    let context: Json = match unwrap_context(context) {
        Ok(context) => context,
        Err(message) => {
            return Err(message);
        },
    };
    let queries: Json = match find_query_data(&context) {
        Some(text) => match parse_json(text) {
            Ok(queries) => queries,
            Err(message) => {
                return Err(join2("cannot decode Market queryData: ", message.as_str()));
            },
        },
        None => {
            return Err("SSR context has no queryData".to_owned());
        },
    };
    match take_listings_page(queries) {
        Some(page) => Ok(page),
        None => Err("Market listings page is absent from SSR queryData".to_owned()),
    }
}

/// A listing by its values.
pub struct Offer {
    pub id: Seq<char>,
    pub skin_id: Seq<char>,
    pub float: Float32,
    pub price: u64,
    pub url: Seq<char>,
    pub source: Seq<char>,
    pub inspect: Option<Seq<char>>,
}

pub open spec fn offer_of(listing: FixtureListing) -> Offer {
    Offer {
        id: listing.id@,
        skin_id: listing.skin_id@,
        float: listing.float_value,
        price: listing.price_cents,
        url: listing.market_url@,
        source: listing.source@,
        inspect: optional_text(listing.inspect_link),
    }
}

pub open spec fn offers_of(listings: Seq<FixtureListing>) -> Seq<Offer> {
    Seq::new(listings.len(), |i: int| offer_of(listings[i]))
}

/// What is said where no address can be made.
pub open spec fn base_failure() -> Failure {
    Failure::Catalog("Steam Market base URL cannot accept path segments"@)
}

/// The address of the page of an item.
pub open spec fn item_url(base: Seq<char>, name: Seq<char>) -> Option<Seq<char>> {
    match parsed_url(base) {
        Ok(parts) => if room_for_segment(parts, name) {
            url_with_segment(base, name)
        } else {
            None
        },
        Err(_) => None,
    }
}

/// The address of the page of an item with a query.
pub open spec fn queried_url(
    base: Seq<char>,
    name: Seq<char>,
    pairs: Seq<(Seq<char>, Seq<char>)>,
) -> Option<Seq<char>> {
    match item_url(base, name) {
        Some(url) => if room_for_query(url, pairs) {
            url_with_query(base, name, pairs)
        } else {
            None
        },
        None => None,
    }
}

/// The address at which a listing can be bought.
pub open spec fn purchase_url(base: Seq<char>, name: Seq<char>, id: Seq<char>) -> Option<
    Seq<char>,
> {
    queried_url(base, name, seq![("buy"@, "1"@), ("listing"@, id)])
}

/// The address of one page of listings.
pub open spec fn page_url(base: Seq<char>, name: Seq<char>, start: nat) -> Option<Seq<char>> {
    queried_url(
        base,
        name,
        seq![("start"@, decimal(start)), ("currency"@, "1"@), ("language"@, "english"@)],
    )
}

/// The address of the page of an item.
pub fn listing_page_url(base: &str, market_hash_name: &str) -> (r: Result<String, PlannerError>)
    ensures
        match r {
            Ok(url) => item_url(base@, market_hash_name@) == Some(url@),
            Err(error) => item_url(base@, market_hash_name@) is None && error@ == base_failure(),
        },
{
    if let Ok(parts) = parse_url(base) {
        if has_room_for_segment(&parts, market_hash_name) {
            if let Some(url) = append_segment(base, market_hash_name) {
                return Ok(url);
            }
        }
    }
    Err(PlannerError::Catalog("Steam Market base URL cannot accept path segments".to_owned()))
}

/// Extends the address of an item by a query.
fn extend_url(base: &str, market_hash_name: &str, pairs: &Vec<(String, String)>) -> (r: Result<
    String,
    PlannerError,
>)
    requires
        0 < pairs@.len() <= 8,
    ensures
        match r {
            Ok(url) => queried_url(base@, market_hash_name@, query_pairs(pairs@)) == Some(url@),
            Err(error) => queried_url(
                base@,
                market_hash_name@,
                query_pairs(pairs@),
            ) is None && error@ == base_failure(),
        },
{
    let url: String = match listing_page_url(base, market_hash_name) {
        Ok(url) => url,
        Err(error) => {
            return Err(error);
        },
    };
    if has_room_for_query(url.as_str(), pairs) {
        if let Some(queried) = append_query(base, market_hash_name, pairs) {
            return Ok(queried);
        }
    }
    Err(PlannerError::Catalog("Steam Market base URL cannot accept path segments".to_owned()))
}

/// The address at which a listing can be bought. The market page is the purchase
/// surface; it still works where the selected listing is ignored.
pub fn market_url(base: &str, market_hash_name: &str, listing_id: &str) -> (r: Result<
    String,
    PlannerError,
>)
    ensures
        match r {
            Ok(url) => purchase_url(base@, market_hash_name@, listing_id@) == Some(url@),
            Err(error) => purchase_url(base@, market_hash_name@, listing_id@) is None && error@
                == base_failure(),
        },
{
    let mut pairs: Vec<(String, String)> = Vec::new();
    pairs.push(("buy".to_owned(), "1".to_owned()));
    pairs.push(("listing".to_owned(), listing_id.to_owned()));
    proof {
        assert(query_pairs(pairs@) =~= seq![("buy"@, "1"@), ("listing"@, listing_id@)]);
    }
    extend_url(base, market_hash_name, &pairs)
}

/// The address of one page of listings, priced in dollars.
pub fn listings_url(base: &str, market_hash_name: &str, start: usize) -> (r: Result<
    String,
    PlannerError,
>)
    ensures
        match r {
            Ok(url) => page_url(base@, market_hash_name@, start as nat) == Some(url@),
            Err(error) => page_url(base@, market_hash_name@, start as nat) is None && error@
                == base_failure(),
        },
{
    let mut pairs: Vec<(String, String)> = Vec::new();
    pairs.push(("start".to_owned(), decimal_text(start as u128)));
    pairs.push(("currency".to_owned(), "1".to_owned()));
    pairs.push(("language".to_owned(), "english".to_owned()));
    proof {
        assert(query_pairs(pairs@) =~= seq![
            ("start"@, decimal(start as nat)),
            ("currency"@, "1"@),
            ("language"@, "english"@),
        ]);
    }
    extend_url(base, market_hash_name, &pairs)
}

/// Whether a listing offers the skin under the given name with a float that it can have.
pub open spec fn offers_skin(listing: SteamListing, skin: Skin, name: Seq<char>) -> bool {
    &&& listing.description.market_hash_name@ == name
    &&& listed_float(listing) matches Some(float)
    &&& float.finite()
    &&& !below(float, skin.min_float)
    &&& !below(skin.max_float, float)
    &&& listed_inspect_link(listing) is Some
}

pub open spec fn has_offer(found: Seq<Offer>, id: Seq<char>) -> bool {
    exists|i: int| 0 <= i < found.len() && (#[trigger] found[i]).id == id
}

/// What is found after one more listing.
pub open spec fn found_with(
    found: Seq<Offer>,
    listing: SteamListing,
    skin: Skin,
    name: Seq<char>,
    base: Seq<char>,
) -> Result<Seq<Offer>, Failure> {
    if !offers_skin(listing, skin, name) || has_offer(found, listing.listing_id@) {
        Ok(found)
    } else {
        match purchase_url(base, name, listing.listing_id@) {
            Some(url) => Ok(
                found.push(
                    Offer {
                        id: listing.listing_id@,
                        skin_id: skin.id@,
                        float: listed_float(listing)->0,
                        price: buyer_price(listing),
                        url,
                        source: "steam_community_market"@,
                        inspect: listed_inspect_link(listing),
                    },
                ),
            ),
            None => Err(base_failure()),
        }
    }
}

/// What is found after some more listings; nothing is added once enough are found.
pub open spec fn found_after(
    found: Seq<Offer>,
    listings: Seq<SteamListing>,
    skin: Skin,
    name: Seq<char>,
    base: Seq<char>,
) -> Result<Seq<Offer>, Failure>
    decreases listings.len(),
{
    if listings.len() == 0 {
        Ok(found)
    } else {
        match found_after(found, listings.drop_last(), skin, name, base) {
            Ok(front) => if front.len() >= MAX_CANDIDATES_PER_SKIN {
                Ok(front)
            } else {
                found_with(front, listings.last(), skin, name, base)
            },
            Err(failure) => Err(failure),
        }
    }
}

fn has_listing(found: &Vec<FixtureListing>, id: &str) -> (r: bool)
    ensures
        r == has_offer(offers_of(found@), id@),
{
    let mut i: usize = 0;
    while i < found.len()
        invariant
            i <= found@.len(),
            forall|j: int| 0 <= j < i ==> (#[trigger] offers_of(found@)[j]).id != id@,
        decreases found.len() - i,
    {
        if same_text(found[i].id.as_str(), id) {
            proof {
                assert(offers_of(found@)[i as int].id == id@);
            }
            return true;
        }
        i = i + 1;
    }
    false
}

/// Takes one more listing.
fn take_listing(
    found: &mut Vec<FixtureListing>,
    listing: &SteamListing,
    skin: &Skin,
    name: &str,
    base: &str,
) -> (r: Result<(), PlannerError>)
    ensures
        match r {
            Ok(_) => found_with(offers_of(old(found)@), *listing, *skin, name@, base@) == Ok::<
                Seq<Offer>,
                Failure,
            >(offers_of(final(found)@)),
            Err(error) => found_with(
                offers_of(old(found)@),
                *listing,
                *skin,
                name@,
                base@,
            ) == Err::<Seq<Offer>, Failure>(error@),
        },
{
    if !same_text(listing.description.market_hash_name.as_str(), name) {
        return Ok(());
    }
    let float: Float32 = match listing.raw_float() {
        Some(float) => float,
        None => {
            return Ok(());
        },
    };
    if !float.is_finite() || float.less(skin.min_float) || skin.max_float.less(float) {
        return Ok(());
    }
    let inspect_link: String = match listing.inspect_link() {
        Some(link) => link,
        None => {
            return Ok(());
        },
    };
    if has_listing(found, listing.listing_id.as_str()) {
        return Ok(());
    }
    match market_url(base, name, listing.listing_id.as_str()) {
        Ok(url) => {
            let ghost before = found@;
            let added: FixtureListing = FixtureListing {
                id: listing.listing_id.clone(),
                skin_id: skin.id.clone(),
                float_value: float,
                price_cents: listing.buyer_price_cents(),
                market_url: url,
                source: "steam_community_market".to_owned(),
                inspect_link: Some(inspect_link),
            };
            found.push(added);
            proof {
                assert(offers_of(found@) =~= offers_of(before).push(offer_of(added)));
            }
            Ok(())
        },
        Err(error) => Err(error),
    }
}

/// Takes the listings of one page, until enough are found.
fn take_listings(
    found: &mut Vec<FixtureListing>,
    listings: &Vec<SteamListing>,
    skin: &Skin,
    name: &str,
    base: &str,
) -> (r: Result<(), PlannerError>)
    ensures
        match r {
            Ok(_) => found_after(
                offers_of(old(found)@),
                listings@,
                *skin,
                name@,
                base@,
            ) == Ok::<Seq<Offer>, Failure>(offers_of(final(found)@)),
            Err(error) => found_after(
                offers_of(old(found)@),
                listings@,
                *skin,
                name@,
                base@,
            ) == Err::<Seq<Offer>, Failure>(error@),
        },
{
    let ghost start = offers_of(found@);
    let mut i: usize = 0;
    proof {
        assert(listings@.take(0) =~= Seq::empty());
    }
    while i < listings.len()
        invariant
            i <= listings@.len(),
            start == offers_of(old(found)@),
            found_after(start, listings@.take(i as int), *skin, name@, base@) == Ok::<
                Seq<Offer>,
                Failure,
            >(offers_of(found@)),
        decreases listings.len() - i,
    {
        proof {
            assert(listings@.take(i + 1).drop_last() =~= listings@.take(i as int));
            lemma_failure_stays(start, listings@, *skin, name@, base@, i + 1);
        }
        if found.len() < MAX_CANDIDATES_PER_SKIN {
            if let Err(error) = take_listing(found, &listings[i], skin, name, base) {
                return Err(error);
            }
        }
        i = i + 1;
    }
    proof {
        assert(listings@.take(i as int) =~= listings@);
    }
    Ok(())
}

/// A failure among the first listings is the failure of them all.
proof fn lemma_failure_stays(
    found: Seq<Offer>,
    listings: Seq<SteamListing>,
    skin: Skin,
    name: Seq<char>,
    base: Seq<char>,
    n: int,
)
    requires
        0 <= n <= listings.len(),
    ensures
        found_after(found, listings.take(n), skin, name, base) is Err ==> found_after(
            found,
            listings,
            skin,
            name,
            base,
        ) == found_after(found, listings.take(n), skin, name, base),
    decreases listings.len(),
{
    if n < listings.len() {
        lemma_failure_stays(found, listings.drop_last(), skin, name, base, n);
        assert(listings.drop_last().take(n) =~= listings.take(n));
    } else {
        assert(listings.take(n) =~= listings);
    }
}

/// A search for the listings of one skin, page by page.
#[derive(Debug)]
pub struct MarketSearch {
    pub skin: Skin,
    pub stattrak: bool,
    pub base: String,
    pub wears: Vec<&'static str>,
    /// The exterior that is searched.
    pub wear: usize,
    /// How many of its pages have been read.
    pub page: usize,
    /// The first listing of the next page.
    pub start: usize,
    pub listings: Vec<FixtureListing>,
}

/// The exteriors that are searched for a skin.
pub open spec fn searched_wears(skin: Skin, stattrak: bool) -> Seq<Seq<char>> {
    if stattrak && !skin.stattrak_supported {
        Seq::empty()
    } else {
        fitting_wears(skin, 5)
    }
}

/// How many pages are read at most of one of `wears` exteriors: the fixed budget is
/// split among them, so that skins with wide caps retain coverage, and what is left
/// over goes to the first ones.
pub open spec fn pages_of_wear(wears: nat, wear: nat) -> nat {
    (MAX_PAGES_PER_SKIN as nat / wears) + if wear < MAX_PAGES_PER_SKIN as nat % wears {
        1nat
    } else {
        0
    }
}

/// How many pages are read at most of the exteriors from `wear` on.
pub open spec fn pages_from_wear(wears: nat, wear: nat) -> nat
    decreases wears - wear,
{
    if wear < wears {
        pages_of_wear(wears, wear) + pages_from_wear(wears, wear + 1)
    } else {
        0
    }
}

/// The state of a search is one that searches get into.
pub open spec fn search_runs(search: MarketSearch) -> bool {
    &&& str_texts(search.wears@) == searched_wears(search.skin, search.stattrak)
    &&& search.wear <= search.wears@.len()
    &&& search.wear < search.wears@.len() ==> search.page < pages_of_wear(
        search.wears@.len(),
        search.wear as nat,
    )
    &&& search.listings@.len() <= MAX_CANDIDATES_PER_SKIN
    &&& distinct_offers(offers_of(search.listings@))
    &&& forall|i: int|
        0 <= i < search.listings@.len() ==> suits(
            #[trigger] offers_of(search.listings@)[i],
            search.skin,
        )
}

/// No two listings have one id.
pub open spec fn distinct_offers(offers: Seq<Offer>) -> bool {
    forall|i: int, j: int|
        0 <= i < j < offers.len() ==> #[trigger] offers[i].id != #[trigger] offers[j].id
}

/// A listing with a float that the skin can have, and all that it takes to inspect it.
pub open spec fn suits(offer: Offer, skin: Skin) -> bool {
    &&& offer.skin_id == skin.id@
    &&& offer.float.finite()
    &&& !below(offer.float, skin.min_float)
    &&& !below(skin.max_float, offer.float)
    &&& offer.source == "steam_community_market"@
    &&& offer.inspect is Some
}

/// Whether another page is wanted.
pub open spec fn wants_page(search: MarketSearch) -> bool {
    search.wear < search.wears@.len() && search.listings@.len() < MAX_CANDIDATES_PER_SKIN
}

/// How many pages can still be read.
pub open spec fn pages_left(search: MarketSearch) -> int {
    pages_from_wear(search.wears@.len(), search.wear as nat) - search.page
}

/// The name that is searched.
pub open spec fn searched_name(search: MarketSearch) -> Seq<char> {
    hash_name(search.skin, search.wears@[search.wear as int]@, search.stattrak)
}

/// Whether the exterior that is searched may have a further page.
pub open spec fn goes_on(search: MarketSearch, page: SteamMarketPage) -> bool {
    page.more && page.listings@.len() > 0 && search.page + 1 < pages_of_wear(
        search.wears@.len(),
        search.wear as nat,
    )
}

/// `after` is the search `before` once `page` has been read.
pub open spec fn has_read(
    after: MarketSearch,
    before: MarketSearch,
    page: SteamMarketPage,
) -> bool {
    &&& after.skin == before.skin
    &&& after.stattrak == before.stattrak
    &&& after.base == before.base
    &&& after.wears == before.wears
    &&& found_after(
        offers_of(before.listings@),
        page.listings@,
        before.skin,
        searched_name(before),
        before.base@,
    ) == Ok::<Seq<Offer>, Failure>(offers_of(after.listings@))
    &&& if goes_on(before, page) {
        &&& after.wear == before.wear
        &&& after.page == before.page + 1
        &&& after.start == if before.start + page.listings@.len() > usize::MAX {
            usize::MAX as int
        } else {
            before.start + page.listings@.len()
        }
    } else {
        &&& after.wear == before.wear + 1
        &&& after.page == 0
        &&& after.start == 0
    }
}

/// Reading listings keeps what was found distinct, suitable and bounded.
pub proof fn law_found_offers(
    found: Seq<Offer>,
    listings: Seq<SteamListing>,
    skin: Skin,
    name: Seq<char>,
    base: Seq<char>,
)
    requires
        found.len() <= MAX_CANDIDATES_PER_SKIN,
        distinct_offers(found),
        forall|i: int| 0 <= i < found.len() ==> suits(#[trigger] found[i], skin),
    ensures
        found_after(found, listings, skin, name, base) matches Ok(after) ==> {
            &&& after.len() <= MAX_CANDIDATES_PER_SKIN
            &&& distinct_offers(after)
            &&& forall|i: int| 0 <= i < after.len() ==> suits(#[trigger] after[i], skin)
        },
    decreases listings.len(),
{
    if listings.len() > 0 {
        law_found_offers(found, listings.drop_last(), skin, name, base);
        if let Ok(front) = found_after(found, listings.drop_last(), skin, name, base) {
            if front.len() < MAX_CANDIDATES_PER_SKIN {
                if let Ok(after) = found_with(front, listings.last(), skin, name, base) {
                    assert forall|i: int, j: int| 0 <= i < j < after.len() implies (
                    #[trigger] after[i]).id != (#[trigger] after[j]).id by {
                        if j < front.len() {
                            assert(front[i].id != front[j].id);
                        } else {
                            assert(front[i] == after[i]);
                        }
                    }
                }
            }
        }
    }
}

impl MarketSearch {
    /// Begins the search for a skin.
    pub fn begin(skin: &Skin, stattrak: bool, base: &str) -> (r: Self)
        ensures
            search_runs(r),
            r.skin == *skin,
            r.stattrak == stattrak,
            r.base@ == base@,
            r.wear == 0,
            r.page == 0,
            r.start == 0,
            r.listings@.len() == 0,
            pages_left(r) == if r.wears@.len() == 0 {
                0
            } else {
                MAX_PAGES_PER_SKIN as int
            },
    {
        let wears: Vec<&'static str> = if stattrak && !skin.stattrak_supported {
            let none: Vec<&'static str> = Vec::new();
            proof {
                assert(str_texts(none@) =~= Seq::empty());
            }
            none
        } else {
            eligible_wears(skin)
        };
        proof {
            lemma_fitting_wears(*skin, 5);
            assert(str_texts(wears@).len() == wears@.len());
            if wears@.len() > 0 {
                lemma_pages_of_wear(wears@.len(), 0);
                lemma_budget_is_split(wears@.len());
            }
        }
        MarketSearch {
            skin: skin.clone(),
            stattrak,
            base: base.to_owned(),
            wears,
            wear: 0,
            page: 0,
            start: 0,
            listings: Vec::new(),
        }
    }

    /// The name and the first listing of the next page, if another is wanted.
    pub fn next_page(&self) -> (r: Option<(String, usize)>)
        ensures
            match r {
                Some((name, start)) => wants_page(*self) && name@ == searched_name(*self) && start
                    == self.start,
                None => !wants_page(*self),
            },
    {
        if self.wear < self.wears.len() && self.listings.len() < MAX_CANDIDATES_PER_SKIN {
            Some((market_hash_name(&self.skin, self.wears[self.wear], self.stattrak), self.start))
        } else {
            None
        }
    }

    /// Takes in a page.
    pub fn receive(&mut self, page: &SteamMarketPage) -> (r: Result<(), PlannerError>)
        requires
            search_runs(*old(self)),
            wants_page(*old(self)),
        ensures
            match r {
                Ok(_) => {
                    &&& has_read(*final(self), *old(self), *page)
                    &&& search_runs(*final(self))
                    &&& 0 <= pages_left(*final(self)) < pages_left(*old(self))
                },
                Err(error) => found_after(
                    offers_of(old(self).listings@),
                    page.listings@,
                    old(self).skin,
                    searched_name(*old(self)),
                    old(self).base@,
                ) == Err::<Seq<Offer>, Failure>(error@),
            },
    {
        proof {
            lemma_fitting_wears(self.skin, 5);
            assert(str_texts(self.wears@).len() == self.wears@.len());
        }
        let name: String = market_hash_name(&self.skin, self.wears[self.wear], self.stattrak);
        let extra: usize = if self.wear < MAX_PAGES_PER_SKIN % self.wears.len() {
            1
        } else {
            0
        };
        let budget: usize = MAX_PAGES_PER_SKIN / self.wears.len() + extra;
        let mut listings: Vec<FixtureListing> = Vec::new();
        let ghost before = *self;
        proof {
            law_found_offers(
                offers_of(self.listings@),
                page.listings@,
                self.skin,
                name@,
                self.base@,
            );
            lemma_pages_of_wear(self.wears@.len(), (self.wear + 1) as nat);
        }
        std::mem::swap(&mut listings, &mut self.listings);
        if let Err(error) = take_listings(
            &mut listings,
            &page.listings,
            &self.skin,
            name.as_str(),
            self.base.as_str(),
        ) {
            return Err(error);
        }
        self.listings = listings;
        let received: usize = page.listings.len();
        if page.more && received > 0 && self.page + 1 < budget {
            self.page = self.page + 1;
            self.start = self.start.saturating_add(received);
        } else {
            self.wear = self.wear + 1;
            self.page = 0;
            self.start = 0;
        }
        Ok(())
    }

    /// The listings that were found, the cheapest first.
    pub fn finish(self) -> (r: Vec<FixtureListing>)
        ensures
            r@ == stable_sorted(self.listings@),
    {
        sort_listings(&self.listings)
    }
}

/// No skin comes in more exteriors than there are.
pub(crate) proof fn lemma_fitting_wears(skin: Skin, n: nat)
    ensures
        fitting_wears(skin, n).len() <= n,
    decreases n,
{
    if n > 0 {
        lemma_fitting_wears(skin, (n - 1) as nat);
    }
}

/// Reading a page keeps a search running, and spends from its budget.
proof fn lemma_page_is_spent(before: MarketSearch, after: MarketSearch, page: SteamMarketPage)
    requires
        search_runs(before),
        wants_page(before),
        has_read(after, before, page),
    ensures
        search_runs(after),
        0 <= pages_left(after) < pages_left(before),
{
    lemma_fitting_wears(before.skin, 5);
    assert(str_texts(before.wears@).len() == before.wears@.len());
    lemma_pages_of_wear(before.wears@.len(), before.wear as nat);
    lemma_pages_of_wear(before.wears@.len(), (before.wear + 1) as nat);
    law_found_offers(
        offers_of(before.listings@),
        page.listings@,
        before.skin,
        searched_name(before),
        before.base@,
    );
}

/// `states` are those that a search goes through as it reads `pages`.
pub open spec fn search_goes(states: Seq<MarketSearch>, pages: Seq<SteamMarketPage>) -> bool {
    &&& states.len() == pages.len() + 1
    &&& search_runs(states[0]) && states[0].wear == 0 && states[0].page == 0
    &&& forall|i: int|
        0 <= i < pages.len() ==> wants_page(states[i]) && has_read(
            states[i + 1],
            states[i],
            #[trigger] pages[i],
        )
}

/// Whatever the pages hold, no more than the budget are read for one skin.
pub proof fn law_pages_per_skin(states: Seq<MarketSearch>, pages: Seq<SteamMarketPage>)
    requires
        search_goes(states, pages),
    ensures
        pages.len() <= MAX_PAGES_PER_SKIN,
        search_runs(states.last()),
{
    lemma_fitting_wears(states[0].skin, 5);
    assert(str_texts(states[0].wears@).len() == states[0].wears@.len());
    if states[0].wears@.len() > 0 {
        lemma_budget_is_split(states[0].wears@.len());
    }
    lemma_pages_spent(states, pages, pages.len() as int);
}

proof fn lemma_pages_spent(states: Seq<MarketSearch>, pages: Seq<SteamMarketPage>, n: int)
    requires
        search_goes(states, pages),
        0 <= n <= pages.len(),
        pages_left(states[0]) <= MAX_PAGES_PER_SKIN,
    ensures
        search_runs(states[n]),
        n > 0 ==> 0 <= pages_left(states[n]),
        pages_left(states[n]) + n <= MAX_PAGES_PER_SKIN,
    decreases n,
{
    if n > 0 {
        lemma_pages_spent(states, pages, n - 1);
        let page = pages[n - 1];
        assert(wants_page(states[n - 1]) && has_read(states[n], states[n - 1], page));
        lemma_page_is_spent(states[n - 1], states[n], page);
    }
}

/// Every exterior gets at least two pages.
pub(crate) proof fn lemma_pages_of_wear(wears: nat, wear: nat)
    requires
        1 <= wears <= 5,
    ensures
        pages_of_wear(wears, wear) >= 2,
{
    let n = MAX_PAGES_PER_SKIN as nat;
    assert(n / wears >= 2) by (nonlinear_arith)
        requires
            1 <= wears <= 5,
            n == 10,
    ;
}

/// The pages of all exteriors make up the budget.
pub(crate) proof fn lemma_budget_is_split(wears: nat)
    requires
        1 <= wears <= 5,
    ensures
        pages_from_wear(wears, 0) == MAX_PAGES_PER_SKIN,
{
    let n = MAX_PAGES_PER_SKIN as nat;
    reveal_with_fuel(pages_from_wear, 6);
    assert(wears == 1 ==> n / wears == 10 && n % wears == 0);
    assert(wears == 2 ==> n / wears == 5 && n % wears == 0);
    assert(wears == 3 ==> n / wears == 3 && n % wears == 1);
    assert(wears == 4 ==> n / wears == 2 && n % wears == 2);
    assert(wears == 5 ==> n / wears == 2 && n % wears == 0);
}

/// Puts listings in the offer order.
fn sort_listings(listings: &Vec<FixtureListing>) -> (r: Vec<FixtureListing>)
    ensures
        r@ == stable_sorted(listings@),
{
    let mut refs: Vec<&FixtureListing> = Vec::new();
    let mut i: usize = 0;
    while i < listings.len()
        invariant
            i <= listings@.len(),
            refs@.len() == i,
            forall|j: int| 0 <= j < i ==> *(#[trigger] refs@[j]) == listings@[j],
        decreases listings.len() - i,
    {
        refs.push(&listings[i]);
        i = i + 1;
    }
    let order: Vec<usize> = stable_order(&refs, refs.len());
    let mut r: Vec<FixtureListing> = Vec::new();
    let mut k: usize = 0;
    proof {
        assert(keys(refs@) =~= listings@);
        lemma_stable_sorted(listings@);
        assert(stable_sorted(listings@).take(listings@.len() as int) =~= stable_sorted(
            listings@,
        ));
    }
    while k < order.len()
        invariant
            k <= order@.len(),
            forall|j: int| 0 <= j < order@.len() ==> (#[trigger] order@[j]) < listings@.len(),
            r@ == picked(listings@, order@).take(k as int),
        decreases order.len() - k,
    {
        r.push(listings[order[k]].clone());
        proof {
            assert(r@ =~= picked(listings@, order@).take(k + 1));
        }
        k = k + 1;
    }
    proof {
        assert(r@ =~= picked(listings@, order@));
    }
    r
}

/// Listings without those that directly follow one with the same id.
pub open spec fn without_repeats(listings: Seq<FixtureListing>) -> Seq<FixtureListing>
    decreases listings.len(),
{
    if listings.len() == 0 {
        listings
    } else {
        let front = without_repeats(listings.drop_last());
        if front.len() > 0 && front.last().id@ == listings.last().id@ {
            front
        } else {
            front.push(listings.last())
        }
    }
}

/// Puts the listings of several skins together.
pub fn merge_listings(listings: &Vec<FixtureListing>) -> (r: Vec<FixtureListing>)
    ensures
        r@ == without_repeats(stable_sorted(listings@)),
{
    let sorted: Vec<FixtureListing> = sort_listings(listings);
    let mut r: Vec<FixtureListing> = Vec::new();
    let mut i: usize = 0;
    proof {
        assert(sorted@.take(0) =~= Seq::empty());
    }
    while i < sorted.len()
        invariant
            i <= sorted@.len(),
            r@ == without_repeats(sorted@.take(i as int)),
        decreases sorted.len() - i,
    {
        proof {
            assert(sorted@.take(i + 1).drop_last() =~= sorted@.take(i as int));
        }
        if r.len() == 0 || !same_text(r[r.len() - 1].id.as_str(), sorted[i].id.as_str()) {
            r.push(sorted[i].clone());
        }
        i = i + 1;
    }
    proof {
        assert(sorted@.take(i as int) =~= sorted@);
    }
    r
}

/// Why a plan cannot be searched on the market, if so.
pub open spec fn search_failure(skins: Seq<Skin>, target_id: Seq<char>) -> Option<Failure> {
    match find_skin(skins, target_id) {
        None => Some(Failure::Validation("unknown target_skin_id: "@ + target_id)),
        Some(target) => if input_pool(skins, target).len() > MAX_SKINS_PER_LIVE_PLAN {
            Some(
                Failure::Catalog(
                    "Steam Market request budget exceeded: this plan needs "@ + decimal(
                        input_pool(skins, target).len(),
                    )
                        + " input-skin searches, while the desktop safety limit is 5. Disable live Market to calculate ideal_math, or narrow the target/owned inputs."@,
                ),
            )
        } else {
            None
        },
    }
}

/// The skins that are searched for a plan.
pub fn skins_to_search<'a>(catalog: &'a Catalog, target_skin_id: &str) -> (r: Result<
    Vec<&'a Skin>,
    PlannerError,
>)
    ensures
        match r {
            Ok(skins) => {
                &&& search_failure(catalog.skins(), target_skin_id@) is None
                &&& plain(skins@) == input_pool(
                    catalog.skins(),
                    find_skin(catalog.skins(), target_skin_id@)->0,
                )
            },
            Err(error) => search_failure(catalog.skins(), target_skin_id@) == Some(error@),
        },
{
    let target: &Skin = match catalog.skin(target_skin_id) {
        Some(target) => target,
        None => {
            return Err(
                PlannerError::Validation(join2("unknown target_skin_id: ", target_skin_id)),
            );
        },
    };
    let skins: Vec<&Skin> = catalog.input_skins_for_target(target);
    proof {
        assert(plain(skins@).len() == skins@.len());
    }
    if skins.len() > MAX_SKINS_PER_LIVE_PLAN {
        return Err(
            PlannerError::Catalog(
                join3(
                    "Steam Market request budget exceeded: this plan needs ",
                    decimal_text(skins.len() as u128).as_str(),
                    " input-skin searches, while the desktop safety limit is 5. Disable live Market to calculate ideal_math, or narrow the target/owned inputs.",
                ),
            ),
        );
    }
    Ok(skins)
}

/// The search for all listings of a plan, skin by skin.
#[derive(Debug)]
pub struct PlanSearch {
    pub skins: Vec<Skin>,
    /// The skin that is searched.
    pub at: usize,
    pub stattrak: bool,
    pub base: String,
    /// How many pages have been asked for.
    pub requests: usize,
    /// The search for the current skin, once it has begun.
    pub search: Option<MarketSearch>,
    pub found: Vec<FixtureListing>,
}

/// The state is one that searches get into; the requests stay within their limit.
pub open spec fn plan_search_runs(plan: PlanSearch) -> bool {
    &&& plan.at <= plan.skins@.len()
    &&& plan.requests <= MAX_REQUESTS_PER_PLAN
    &&& plan.search matches Some(search) ==> {
        &&& plan.at < plan.skins@.len()
        &&& search_runs(search)
        &&& search.skin == plan.skins@[plan.at as int]
        &&& search.stattrak == plan.stattrak
        &&& search.base@ == plan.base@
    }
}

/// Whether the next skin waits for its search.
pub open spec fn awaits_skin(plan: PlanSearch) -> bool {
    plan.search is None && plan.at < plan.skins@.len()
}

/// Whether another page may be asked for.
pub open spec fn wants_request(plan: PlanSearch) -> bool {
    plan.requests < MAX_REQUESTS_PER_PLAN && (plan.search matches Some(search) && wants_page(
        search,
    ))
}

impl PlanSearch {
    /// Begins the search for a plan.
    pub fn begin(catalog: &Catalog, target_skin_id: &str, stattrak: bool, base: &str) -> (r: Result<
        Self,
        PlannerError,
    >)
        ensures
            match r {
                Ok(plan) => {
                    &&& search_failure(catalog.skins(), target_skin_id@) is None
                    &&& plan.skins@ == input_pool(
                        catalog.skins(),
                        find_skin(catalog.skins(), target_skin_id@)->0,
                    )
                    &&& plan.at == 0
                    &&& plan.stattrak == stattrak
                    &&& plan.base@ == base@
                    &&& plan.requests == 0
                    &&& plan.search is None
                    &&& plan.found@.len() == 0
                    &&& plan_search_runs(plan)
                },
                Err(error) => search_failure(catalog.skins(), target_skin_id@) == Some(error@),
            },
    {
        let wanted: Vec<&Skin> = match skins_to_search(catalog, target_skin_id) {
            Ok(wanted) => wanted,
            Err(error) => {
                return Err(error);
            },
        };
        let mut skins: Vec<Skin> = Vec::new();
        let mut i: usize = 0;
        while i < wanted.len()
            invariant
                i <= wanted@.len(),
                skins@ == plain(wanted@).take(i as int),
            decreases wanted.len() - i,
        {
            skins.push(wanted[i].clone());
            proof {
                assert(skins@ =~= plain(wanted@).take(i + 1));
            }
            i = i + 1;
        }
        proof {
            assert(plain(wanted@).take(i as int) =~= plain(wanted@));
        }
        Ok(
            PlanSearch {
                skins,
                at: 0,
                stattrak,
                base: base.to_owned(),
                requests: 0,
                search: None,
                found: Vec::new(),
            },
        )
    }

    /// The skin that waits for its search, if any.
    pub fn next_skin(&self) -> (r: Option<&Skin>)
        ensures
            match r {
                Some(skin) => awaits_skin(*self) && *skin == self.skins@[self.at as int],
                None => !awaits_skin(*self),
            },
    {
        if self.search.is_none() && self.at < self.skins.len() {
            Some(&self.skins[self.at])
        } else {
            None
        }
    }

    /// Takes listings that an earlier search found in place of a new one.
    pub fn use_known(&mut self, listings: Vec<FixtureListing>)
        requires
            plan_search_runs(*old(self)),
            awaits_skin(*old(self)),
        ensures
            plan_search_runs(*final(self)),
            final(self).found@ == old(self).found@ + listings@,
            *final(self) == (PlanSearch {
                at: (old(self).at + 1) as usize,
                found: final(self).found,
                ..*old(self)
            }),
    {
        let mut listings: Vec<FixtureListing> = listings;
        self.found.append(&mut listings);
        assert(self.skins.len() == self.skins@.len());
        self.at = self.at + 1;
    }

    /// Begins the search for the skin that waits for it.
    pub fn search_skin(&mut self)
        requires
            plan_search_runs(*old(self)),
            awaits_skin(*old(self)),
        ensures
            plan_search_runs(*final(self)),
            final(self).search matches Some(search) && search.wear == 0 && search.page == 0
                && search.start == 0 && search.listings@.len() == 0,
            *final(self) == (PlanSearch { search: final(self).search, ..*old(self) }),
    {
        self.search = Some(
            MarketSearch::begin(&self.skins[self.at], self.stattrak, self.base.as_str()),
        );
    }

    /// The name and the first listing of the page to ask for, if any.
    pub fn next_page(&self) -> (r: Option<(String, usize)>)
        ensures
            match r {
                Some((name, start)) => {
                    &&& wants_request(*self)
                    &&& name@ == searched_name(self.search->0)
                    &&& start == (self.search->0).start
                },
                None => !wants_request(*self),
            },
    {
        if self.requests >= MAX_REQUESTS_PER_PLAN {
            return None;
        }
        match &self.search {
            Some(search) => search.next_page(),
            None => None,
        }
    }

    /// Takes in a page that was asked for.
    pub fn receive(&mut self, page: &SteamMarketPage) -> (r: Result<(), PlannerError>)
        requires
            plan_search_runs(*old(self)),
            wants_request(*old(self)),
        ensures
            final(self).requests == old(self).requests + 1,
            match r {
                Ok(_) => {
                    &&& plan_search_runs(*final(self))
                    &&& final(self).search matches Some(search) && has_read(
                        search,
                        old(self).search->0,
                        *page,
                    )
                    &&& *final(self) == (PlanSearch {
                        requests: final(self).requests,
                        search: final(self).search,
                        ..*old(self)
                    })
                },
                Err(error) => found_after(
                    offers_of((old(self).search->0).listings@),
                    page.listings@,
                    (old(self).search->0).skin,
                    searched_name(old(self).search->0),
                    (old(self).search->0).base@,
                ) == Err::<Seq<Offer>, Failure>(error@),
            },
    {
        self.requests = self.requests + 1;
        match self.search.take() {
            Some(search) => {
                let mut search: MarketSearch = search;
                if let Err(error) = search.receive(page) {
                    return Err(error);
                }
                self.search = Some(search);
                Ok(())
            },
            None => Ok(()),
        }
    }

    /// Ends the search for the current skin: its listings, the cheapest first, and
    /// whether they may be kept for later plans. Those of a search that was cut
    /// short, or that had nothing to search, may not.
    pub fn finish_skin(&mut self) -> (r: (Vec<FixtureListing>, bool))
        requires
            plan_search_runs(*old(self)),
            old(self).search is Some,
        ensures
            plan_search_runs(*final(self)),
            r.0@ == stable_sorted((old(self).search->0).listings@),
            r.1 <==> (old(self).search->0).wears@.len() > 0 && !wants_page(old(self).search->0),
            final(self).found@ == old(self).found@ + r.0@,
            *final(self) == (PlanSearch {
                at: (old(self).at + 1) as usize,
                search: None,
                found: final(self).found,
                ..*old(self)
            }),
    {
        match self.search.take() {
            Some(search) => {
                let kept: bool = search.wears.len() > 0 && search.next_page().is_none();
                let listings: Vec<FixtureListing> = search.finish();
                let mut copies: Vec<FixtureListing> = clone_listings(&listings);
                self.found.append(&mut copies);
                assert(self.skins.len() == self.skins@.len());
                self.at = self.at + 1;
                (listings, kept)
            },
            None => (Vec::new(), false),
        }
    }

    /// All listings that were found, the cheapest first, each once.
    pub fn finish(self) -> (r: Vec<FixtureListing>)
        ensures
            r@ == without_repeats(stable_sorted(self.found@)),
    {
        merge_listings(&self.found)
    }
}

/// Whether listings that were fetched some time ago may still be used.
pub fn is_fresh(age_nanos: u128, ttl_nanos: u128) -> (r: bool)
    ensures
        r <==> age_nanos < ttl_nanos,
{
    age_nanos < ttl_nanos
}

/// Why a page could not be read: the request did not get through, the answer was
/// no success, it broke off, or it is no page of listings.
#[derive(Debug)]
pub enum PageFault {
    Request(String),
    Status(String),
    Unreadable(String),
    Invalid(String),
}

pub open spec fn page_failure(fault: PageFault) -> Failure {
    Failure::Catalog(
        match fault {
            PageFault::Request(detail) => "Steam Market listing request failed: "@ + detail@,
            PageFault::Status(status) => "Steam Market listing request returned HTTP "@ + status@,
            PageFault::Unreadable(detail) => "Steam Market listing response could not be read: "@
                + detail@,
            PageFault::Invalid(detail) => "Steam Market listing HTML is invalid: "@ + detail@,
        },
    )
}

/// The error for a page that could not be read.
pub fn page_error(fault: PageFault) -> (r: PlannerError)
    ensures
        r@ == page_failure(fault),
{
    PlannerError::Catalog(
        match fault {
            PageFault::Request(detail) => join2(
                "Steam Market listing request failed: ",
                detail.as_str(),
            ),
            PageFault::Status(status) => join2(
                "Steam Market listing request returned HTTP ",
                status.as_str(),
            ),
            PageFault::Unreadable(detail) => join2(
                "Steam Market listing response could not be read: ",
                detail.as_str(),
            ),
            PageFault::Invalid(detail) => join2(
                "Steam Market listing HTML is invalid: ",
                detail.as_str(),
            ),
        },
    )
}

/// How long to wait before the next request, given the time since the last one.
pub fn pause_before_request(since_last_nanos: Option<u128>, minimum_nanos: u128) -> (r: u128)
    ensures
        match since_last_nanos {
            None => r == 0,
            Some(since) => r == if since < minimum_nanos {
                minimum_nanos - since
            } else {
                0
            },
        },
{
    match since_last_nanos {
        Some(since) => if since < minimum_nanos {
            minimum_nanos - since
        } else {
            0
        },
        None => 0,
    }
}

/// What `str::to_lowercase` makes of a text.
pub uninterp spec fn lower_cased(text: Seq<char>) -> Seq<char>;

/// The small letter to an ASCII letter; other characters stay.
pub open spec fn small_letter(c: char) -> char {
    if 'A' <= c <= 'Z' {
        (c as u32 + 32) as char
    } else {
        c
    }
}

/// `str::to_lowercase`. Claimed: the result is a function of the text alone, and
/// in a text of ASCII characters the capital letters give way to the small ones.
#[verifier::external_body]
fn lower_case(text: &str) -> (r: String)
    ensures
        r@ == lower_cased(text@),
        is_ascii_chars(text@) ==> r@ == text@.map_values(|c: char| small_letter(c)),
{
    text.to_lowercase()
}

#[derive(Debug, Clone, Copy, PartialEq, Eq, Structural)]
pub enum ProviderKind {
    Disabled,
    SteamCommunityMarket,
}

/// The provider that a word stands for.
pub open spec fn named_provider(word: Seq<char>) -> Option<ProviderKind> {
    if word == ""@ || word == "disabled"@ || word == "none"@ {
        Some(ProviderKind::Disabled)
    } else if word == "steam"@ || word == "steam_market"@ || word == "steam_community_market"@ {
        Some(ProviderKind::SteamCommunityMarket)
    } else {
        None
    }
}

/// What is said of a word that stands for no provider.
pub open spec fn unknown_provider(word: Seq<char>) -> Seq<char> {
    "unsupported MARKET_PROVIDER="@ + word + "; supported values: disabled, steam"@
}

/// Chooses the provider that a word of small letters stands for.
pub fn choose_provider(word: &str) -> (r: Result<ProviderKind, String>)
    ensures
        match r {
            Ok(kind) => named_provider(word@) == Some(kind),
            Err(message) => named_provider(word@) is None && message@ == unknown_provider(word@),
        },
{
    if same_text(word, "") || same_text(word, "disabled") || same_text(word, "none") {
        Ok(ProviderKind::Disabled)
    } else if same_text(word, "steam") || same_text(word, "steam_market") || same_text(
        word,
        "steam_community_market",
    ) {
        Ok(ProviderKind::SteamCommunityMarket)
    } else {
        Err(join3("unsupported MARKET_PROVIDER=", word, "; supported values: disabled, steam"))
    }
}

/// Chooses the provider from the settings; the Steam Community Market by default.
pub fn provider_from_setting(value: Option<&str>) -> (r: Result<ProviderKind, String>)
    ensures
        ({
            let word = lower_cased(match setting_text(value) {
                Some(text) => text,
                None => "steam"@,
            });
            match r {
                Ok(kind) => named_provider(word) == Some(kind),
                Err(message) => named_provider(word) is None && message@ == unknown_provider(word),
            }
        }),
        value is None ==> r == Ok::<ProviderKind, String>(ProviderKind::SteamCommunityMarket),
{
    let word: String = lower_case(
        match value {
            Some(value) => value,
            None => "steam",
        },
    );
    proof {
        reveal_strlit("steam");
        reveal_strlit("");
        reveal_strlit("disabled");
        reveal_strlit("none");
        if value is None {
            assert(is_ascii_chars("steam"@));
            assert(word@ =~= "steam"@);
        }
    }
    choose_provider(word.as_str())
}

/// Decides on the parsed base address.
pub fn accept_base(parsed: Result<UrlParts, String>) -> (r: Result<String, String>)
    ensures
        match parsed {
            Ok(parts) => if parts.path@.len() > 0 && parts.path@.last() == '/' {
                r == Ok::<String, String>(parts.text)
            } else {
                r matches Err(message) && message@ == "STEAM_MARKET_BASE_URL must end with /"@
            },
            Err(error) => r matches Err(message) && message@
                == "STEAM_MARKET_BASE_URL must be a valid URL: "@ + error@,
        },
{
    match parsed {
        Ok(parts) => {
            let path: &str = parts.path.as_str();
            let n: usize = path.unicode_len();
            if n > 0 && path.get_char(n - 1) == '/' {
                Ok(parts.text)
            } else {
                Err("STEAM_MARKET_BASE_URL must end with /".to_owned())
            }
        },
        Err(error) => Err(join2("STEAM_MARKET_BASE_URL must be a valid URL: ", error.as_str())),
    }
}

/// The text of the base address in the settings.
pub open spec fn base_text(value: Option<Seq<char>>) -> Seq<char> {
    match value {
        Some(text) => text,
        None => "https://steamcommunity.com/market/listings/730/"@,
    }
}

/// Reads the base address from the settings.
pub fn market_base(value: Option<&str>) -> (r: Result<String, String>)
    ensures
        match parsed_url(base_text(setting_text(value))) {
            Ok(parts) => if parts.2.len() > 0 && parts.2.last() == '/' {
                r matches Ok(url) && url@ == parts.3
            } else {
                r matches Err(message) && message@ == "STEAM_MARKET_BASE_URL must end with /"@
            },
            Err(error) => r matches Err(message) && message@
                == "STEAM_MARKET_BASE_URL must be a valid URL: "@ + error,
        },
{
    accept_base(
        parse_url(
            match value {
                Some(value) => value,
                None => "https://steamcommunity.com/market/listings/730/",
            },
        ),
    )
}

/// What is shown of a provider that is switched off.
pub fn disabled_status() -> (r: MarketStatus)
    ensures
        r.provider@ == "disabled"@,
        !r.enabled,
        r.cache_ttl_seconds == 0,
        r.minimum_request_interval_ms == 0,
        r.cached_searches == 0,
        r.max_candidates_per_skin == MAX_CANDIDATES_PER_SKIN,
{
    MarketStatus {
        provider: "disabled".to_owned(),
        enabled: false,
        cache_ttl_seconds: 0,
        minimum_request_interval_ms: 0,
        cached_searches: 0,
        max_candidates_per_skin: MAX_CANDIDATES_PER_SKIN,
    }
}

/// What is shown of the Steam Community Market.
pub fn steam_status(cache_ttl_seconds: u64, interval_ms: u64, cached: usize) -> (r: MarketStatus)
    ensures
        r.provider@ == "steam_community_market"@,
        r.enabled,
        r.cache_ttl_seconds == cache_ttl_seconds,
        r.minimum_request_interval_ms == interval_ms,
        r.cached_searches == cached,
        r.max_candidates_per_skin == MAX_CANDIDATES_PER_SKIN,
{
    MarketStatus {
        provider: "steam_community_market".to_owned(),
        enabled: true,
        cache_ttl_seconds,
        minimum_request_interval_ms: interval_ms,
        cached_searches: cached,
        max_candidates_per_skin: MAX_CANDIDATES_PER_SKIN,
    }
}

} // verus!
