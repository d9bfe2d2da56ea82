//! Web addresses, taken apart and put together by the `url` crate.
use crate::slices::{find_byte, first_byte};
use crate::text::{byte_len, same_text};
use reqwest::Url;
use vstd::prelude::*;
use vstd::string::StrSliceExecFns;
use vstd::utf8::encode_utf8;

verus! {

/// The parts of an address that are looked at.
#[derive(Debug)]
pub struct UrlParts {
    pub scheme: String,
    pub host: Option<String>,
    pub path: String,
    pub text: String,
}

/// What `Url::parse` makes of a text: the scheme, the host, the path and the
/// serialization of the address, or the message of the error.
pub uninterp spec fn parsed_url(text: Seq<char>) -> Result<
    (Seq<char>, Option<Seq<char>>, Seq<char>, Seq<char>),
    Seq<char>,
>;

/// The serialization of `base` with its trailing slash dropped and `segment`
/// appended to its path; nothing where `base` is no address or has no path segments.
pub uninterp spec fn url_with_segment(base: Seq<char>, segment: Seq<char>) -> Option<Seq<char>>;

/// The serialization of `base`, extended by `segment` in this way, with name-value
/// pairs appended to its query; nothing where there is nothing to extend.
pub uninterp spec fn url_with_query(
    base: Seq<char>,
    segment: Seq<char>,
    pairs: Seq<(Seq<char>, Seq<char>)>,
) -> Option<Seq<char>>;

pub open spec fn optional_text(text: Option<String>) -> Option<Seq<char>> {
    match text {
        Some(text) => Some(text@),
        None => None,
    }
}

/// `parts` are the given parts.
pub open spec fn are_parts(
    parts: UrlParts,
    given: (Seq<char>, Option<Seq<char>>, Seq<char>, Seq<char>),
) -> bool {
    &&& parts.scheme@ == given.0
    &&& optional_text(parts.host) == given.1
    &&& parts.path@ == given.2
    &&& parts.text@ == given.3
}

pub open spec fn query_pairs(pairs: Seq<(String, String)>) -> Seq<(Seq<char>, Seq<char>)> {
    Seq::new(pairs.len(), |i: int| (pairs[i].0@, pairs[i].1@))
}

/// The `url` crate keeps the positions of the parts of an address in 32 bits.
pub const URL_LIMIT: u32 = u32::MAX;

/// Whether backslashes stand for slashes in addresses of a scheme.
pub open spec fn special_scheme(scheme: Seq<char>) -> bool {
    ||| scheme == "http"@
    ||| scheme == "https"@
    ||| scheme == "ws"@
    ||| scheme == "wss"@
    ||| scheme == "ftp"@
    ||| scheme == "file"@
}

/// How many bytes a byte of a path segment takes: tabs and line ends are dropped,
/// what would not stay within a segment is escaped.
pub open spec fn segment_byte_size(byte: u8, special: bool) -> nat {
    if byte == 0x9 || byte == 0xa || byte == 0xd {
        0
    } else if byte <= 0x20 || byte >= 0x7f || byte == 0x22 || byte == 0x23 || byte == 0x25 || byte
        == 0x2f || byte == 0x3c || byte == 0x3e || byte == 0x3f || byte == 0x60 || byte == 0x7b
        || byte == 0x7d || (special && byte == 0x5c) {
        3
    } else {
        1
    }
}

/// How many bytes a byte takes in a query: letters, digits, `*`, `-`, `.` and `_`
/// stay as they are, a space becomes a plus sign, everything else is escaped.
pub open spec fn query_byte_size(byte: u8) -> nat {
    if 0x30 <= byte <= 0x39 || 0x41 <= byte <= 0x5a || 0x61 <= byte <= 0x7a || byte == 0x2a
        || byte == 0x2d || byte == 0x2e || byte == 0x5f || byte == 0x20 {
        1
    } else {
        3
    }
}

pub open spec fn segment_size(bytes: Seq<u8>, special: bool) -> nat
    decreases bytes.len(),
{
    if bytes.len() == 0 {
        0
    } else {
        segment_size(bytes.drop_last(), special) + segment_byte_size(bytes.last(), special)
    }
}

pub open spec fn query_text_size(bytes: Seq<u8>) -> nat
    decreases bytes.len(),
{
    if bytes.len() == 0 {
        0
    } else {
        query_text_size(bytes.drop_last()) + query_byte_size(bytes.last())
    }
}

/// The bytes of name-value pairs in a query, each behind its separator.
pub open spec fn query_size(pairs: Seq<(Seq<char>, Seq<char>)>) -> nat
    decreases pairs.len(),
{
    if pairs.len() == 0 {
        0
    } else {
        query_size(pairs.drop_last()) + 2 + query_text_size(encode_utf8(pairs.last().0))
            + query_text_size(encode_utf8(pairs.last().1))
    }
}

/// The first position of a byte, or the end.
pub open spec fn byte_place(bytes: Seq<u8>, byte: u8) -> int {
    match first_byte(bytes, byte, 0) {
        Some(i) => i,
        None => bytes.len() as int,
    }
}

/// Where the fragment of an address begins, or the address ends.
pub open spec fn fragment_place(url: Seq<char>) -> int {
    byte_place(encode_utf8(url), 0x23)
}

/// Where the query of an address begins, or its path ends.
pub open spec fn query_place(url: Seq<char>) -> int {
    let place = byte_place(encode_utf8(url), 0x3f);
    if place < fragment_place(url) {
        place
    } else {
        fragment_place(url)
    }
}

/// The last position that is kept of an address: the beginning of its fragment, or
/// of its query where it has no fragment, or else the end of its path.
pub open spec fn last_place(url: Seq<char>) -> int {
    if fragment_place(url) < encode_utf8(url).len() {
        fragment_place(url)
    } else {
        query_place(url)
    }
}

/// What dropping the trailing slash of a path and adding one in front of a new
/// segment amount to.
pub open spec fn joint_size(path: Seq<char>) -> int {
    if path.len() == 2 && path.last() == '/' {
        -1
    } else if path.len() > 0 && path.last() == '/' {
        0
    } else if path.len() == 1 {
        0
    } else {
        1
    }
}

/// By how many bytes a path grows at most by a segment: one more than it seems in
/// addresses of files, where a drive letter may get a slash of its own.
pub open spec fn segment_growth(scheme: Seq<char>, path: Seq<char>, segment: Seq<char>) -> int {
    if segment == "."@ || segment == ".."@ {
        0
    } else {
        joint_size(path) + segment_size(encode_utf8(segment), special_scheme(scheme)) + if scheme
            == "file"@ {
            1int
        } else {
            0
        }
    }
}

/// Whether an address, by its parts, has room for a further path segment.
pub open spec fn room_for_segment(
    parts: (Seq<char>, Option<Seq<char>>, Seq<char>, Seq<char>),
    segment: Seq<char>,
) -> bool {
    &&& last_place(parts.3) <= URL_LIMIT
    &&& last_place(parts.3) + segment_growth(parts.0, parts.2, segment) <= URL_LIMIT
}

/// Whether an address has room for name-value pairs in its query: what comes behind
/// the last position that is kept may be of any length.
pub open spec fn room_for_query(url: Seq<char>, pairs: Seq<(Seq<char>, Seq<char>)>) -> bool {
    let (query, fragment) = (query_place(url), fragment_place(url));
    if fragment < encode_utf8(url).len() {
        fragment + query_size(pairs) - (if query + 1 == fragment {
            1int
        } else {
            0
        }) <= URL_LIMIT
    } else {
        query < fragment || fragment <= URL_LIMIT
    }
}

/// The first position of a byte, or the end.
fn find_place(bytes: &[u8], byte: u8) -> (r: usize)
    ensures
        r == byte_place(bytes@, byte),
        r <= bytes@.len(),
{
    match find_byte(bytes, byte, 0) {
        Some(i) => i,
        None => bytes.len(),
    }
}

/// The places of the query and the fragment of an address.
fn find_places(url: &str) -> (r: (usize, usize))
    ensures
        r.0 == query_place(url@),
        r.1 == fragment_place(url@),
        r.0 <= r.1 <= encode_utf8(url@).len(),
{
    let bytes: &[u8] = url.as_bytes();
    let fragment: usize = find_place(bytes, 0x23);
    let query: usize = find_place(bytes, 0x3f);
    if query < fragment {
        (query, fragment)
    } else {
        (fragment, fragment)
    }
}

/// Counts the bytes of an escaped segment.
fn count_segment(segment: &str, special: bool) -> (r: u128)
    ensures
        r == segment_size(encode_utf8(segment@), special),
        r <= 3 * usize::MAX,
{
    let bytes: &[u8] = segment.as_bytes();
    let mut size: u128 = 0;
    let mut i: usize = 0;
    proof {
        assert(bytes@.take(0) =~= Seq::empty());
    }
    while i < bytes.len()
        invariant
            i <= bytes@.len(),
            size == segment_size(bytes@.take(i as int), special),
            size <= 3 * i,
        decreases bytes.len() - i,
    {
        let b: u8 = bytes[i];
        proof {
            assert(bytes@.take(i + 1).drop_last() =~= bytes@.take(i as int));
        }
        size = size + if b == 0x9 || b == 0xa || b == 0xd {
            0
        } else if b <= 0x20 || b >= 0x7f || b == 0x22 || b == 0x23 || b == 0x25 || b == 0x2f || b
            == 0x3c || b == 0x3e || b == 0x3f || b == 0x60 || b == 0x7b || b == 0x7d || (special
            && b == 0x5c) {
            3
        } else {
            1
        };
        i = i + 1;
    }
    proof {
        assert(bytes@.take(i as int) =~= bytes@);
    }
    size
}

/// Counts the bytes of an escaped name or value.
fn count_query_text(text: &str) -> (r: u128)
    ensures
        r == query_text_size(encode_utf8(text@)),
        r <= 3 * usize::MAX,
{
    let bytes: &[u8] = text.as_bytes();
    let mut size: u128 = 0;
    let mut i: usize = 0;
    proof {
        assert(bytes@.take(0) =~= Seq::empty());
    }
    while i < bytes.len()
        invariant
            i <= bytes@.len(),
            size == query_text_size(bytes@.take(i as int)),
            size <= 3 * i,
        decreases bytes.len() - i,
    {
        let b: u8 = bytes[i];
        proof {
            assert(bytes@.take(i + 1).drop_last() =~= bytes@.take(i as int));
        }
        size = size + if (0x30 <= b && b <= 0x39) || (0x41 <= b && b <= 0x5a) || (0x61 <= b && b
            <= 0x7a) || b == 0x2a || b == 0x2d || b == 0x2e || b == 0x5f || b == 0x20 {
            1
        } else {
            3
        };
        i = i + 1;
    }
    proof {
        assert(bytes@.take(i as int) =~= bytes@);
    }
    size
}

/// Counts the bytes of name-value pairs.
fn count_query(pairs: &Vec<(String, String)>) -> (r: u128)
    requires
        pairs@.len() <= 8,
    ensures
        r == query_size(query_pairs(pairs@)),
        r <= 0x1_0000_0000_0000_0000_0000,
{
    let ghost all = query_pairs(pairs@);
    let mut size: u128 = 0;
    let mut i: usize = 0;
    proof {
        assert(all.take(0) =~= Seq::empty());
    }
    while i < pairs.len()
        invariant
            i <= pairs@.len() <= 8,
            all == query_pairs(pairs@),
            size == query_size(all.take(i as int)),
            size <= i * 0x10_0000_0000_0000_0000,
        decreases pairs.len() - i,
    {
        proof {
            assert(all.take(i + 1).drop_last() =~= all.take(i as int));
            assert(all.take(i + 1).last() == (pairs@[i as int].0@, pairs@[i as int].1@));
        }
        let name: u128 = count_query_text(pairs[i].0.as_str());
        let value: u128 = count_query_text(pairs[i].1.as_str());
        size = size + 2 + name + value;
        i = i + 1;
    }
    proof {
        assert(all.take(i as int) =~= all);
    }
    size
}

fn is_special_scheme(scheme: &str) -> (r: bool)
    ensures
        r == special_scheme(scheme@),
{
    same_text(scheme, "http") || same_text(scheme, "https") || same_text(scheme, "ws")
        || same_text(scheme, "wss") || same_text(scheme, "ftp") || same_text(scheme, "file")
}

/// Whether an address has room for a further path segment.
pub(crate) fn has_room_for_segment(parts: &UrlParts, segment: &str) -> (r: bool)
    ensures
        forall|given: (Seq<char>, Option<Seq<char>>, Seq<char>, Seq<char>)|
            are_parts(*parts, given) ==> r == #[trigger] room_for_segment(given, segment@),
{
    let (query, fragment) = find_places(parts.text.as_str());
    let place: usize = if fragment < byte_len(parts.text.as_str()) {
        fragment
    } else {
        query
    };
    if place > URL_LIMIT as usize {
        return false;
    }
    if same_text(segment, ".") || same_text(segment, "..") {
        return true;
    }
    let path: &str = parts.path.as_str();
    let n: usize = path.unicode_len();
    let slash: bool = n > 0 && path.get_char(n - 1) == '/';
    let grown: u128 = place as u128 + count_segment(
        segment,
        is_special_scheme(parts.scheme.as_str()),
    ) + if same_text(parts.scheme.as_str(), "file") {
        1
    } else {
        0
    };
    if n == 2 && slash {
        grown <= URL_LIMIT as u128 + 1
    } else if slash || n == 1 {
        grown <= URL_LIMIT as u128
    } else {
        grown + 1 <= URL_LIMIT as u128
    }
}

/// Whether an address has room for name-value pairs in its query.
pub(crate) fn has_room_for_query(url: &str, pairs: &Vec<(String, String)>) -> (r: bool)
    requires
        pairs@.len() <= 8,
    ensures
        r == room_for_query(url@, query_pairs(pairs@)),
{
    let (query, fragment) = find_places(url);
    if fragment < byte_len(url) {
        let size: u128 = fragment as u128 + count_query(pairs);
        if fragment - query == 1 {
            size <= URL_LIMIT as u128 + 1
        } else {
            size <= URL_LIMIT as u128
        }
    } else {
        query < fragment || fragment <= URL_LIMIT as usize
    }
}

/// `Url::parse`, with `scheme`, `host_str`, `path` and the serialization read
/// off its result. Claimed: all of these are functions of the text alone.
#[verifier::external_body]
pub(crate) fn parse_url(text: &str) -> (r: Result<UrlParts, String>)
    ensures
        match r {
            Ok(parts) => parsed_url(text@) matches Ok(given) && are_parts(parts, given),
            Err(message) => parsed_url(text@) == Err::<
                (Seq<char>, Option<Seq<char>>, Seq<char>, Seq<char>),
                Seq<char>,
            >(message@),
        },
{
    match Url::parse(text) {
        Ok(url) => Ok(
            UrlParts {
                scheme: url.scheme().to_owned(),
                host: url.host_str().map(str::to_owned),
                path: url.path().to_owned(),
                text: url.into(),
            },
        ),
        Err(error) => Err(error.to_string()),
    }
}

/// `Url::path_segments_mut`, with `pop_if_empty` and `push`, on the parsed
/// `base`. Claimed: the result is a function of the two texts alone. The room
/// that is required keeps the positions within the 32 bits that `url` keeps them in.
#[verifier::external_body]
pub(crate) fn append_segment(base: &str, segment: &str) -> (r: Option<String>)
    requires
        parsed_url(base@) matches Ok(parts) ==> room_for_segment(parts, segment@),
    ensures
        optional_text(r) == url_with_segment(base@, segment@),
{
    let mut url = Url::parse(base).ok()?;
    url.path_segments_mut().ok()?.pop_if_empty().push(segment);
    Some(url.into())
}

/// `Url::query_pairs_mut`, with `extend_pairs`, on the parsed `base` with `segment`
/// appended to its path. Claimed: the result is a function of the two texts and the
/// pairs alone. The room that is required keeps the positions within the 32 bits that
/// `url` keeps them in.
#[verifier::external_body]
pub(crate) fn append_query(base: &str, segment: &str, pairs: &Vec<(String, String)>) -> (r: Option<
    String,
>)
    requires
        pairs@.len() > 0,
        parsed_url(base@) matches Ok(parts) ==> room_for_segment(parts, segment@),
        url_with_segment(base@, segment@) matches Some(url) ==> room_for_query(
            url,
            query_pairs(pairs@),
        ),
    ensures
        optional_text(r) == url_with_query(base@, segment@, query_pairs(pairs@)),
{
    let mut url = Url::parse(base).ok()?;
    url.path_segments_mut().ok()?.pop_if_empty().push(segment);
    url.query_pairs_mut().extend_pairs(pairs);
    Some(url.into())
}

} // verus!
