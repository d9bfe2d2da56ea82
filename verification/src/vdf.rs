//! Blocks and fields of Valve's text format for key-value data.
use crate::slices::{
    find_byte, find_bytes, first_byte, first_match, lemma_ascii_boundaries, lemma_first_byte,
    lemma_text_bytes, slice_text,
};
use vstd::prelude::*;
use vstd::string::StringSliceAdditionalSpecFns;
use vstd::utf8::{encode_utf8, is_char_boundary};

verus! {

pub const QUOTE: u8 = 34;

pub const BACKSLASH: u8 = 92;

pub const OPENING_BRACE: u8 = 123;

pub const CLOSING_BRACE: u8 = 125;

/// The position from `i` on of the brace that closes a block, in a text that
/// has been read up to `i` with `depth` blocks open.
pub open spec fn closing_from(
    bytes: Seq<u8>,
    i: int,
    depth: int,
    quoted: bool,
    escaped: bool,
) -> Option<int>
    decreases bytes.len() - i,
{
    if i >= bytes.len() {
        None
    } else if quoted {
        if escaped {
            closing_from(bytes, i + 1, depth, true, false)
        } else {
            closing_from(bytes, i + 1, depth, bytes[i] != QUOTE, bytes[i] == BACKSLASH)
        }
    } else if bytes[i] == QUOTE {
        closing_from(bytes, i + 1, depth, true, false)
    } else if bytes[i] == OPENING_BRACE {
        closing_from(bytes, i + 1, depth + 1, false, false)
    } else if bytes[i] == CLOSING_BRACE {
        if depth == 1 {
            Some(i)
        } else {
            closing_from(bytes, i + 1, depth - 1, false, false)
        }
    } else {
        closing_from(bytes, i + 1, depth, false, false)
    }
}

/// The position of the brace that closes the block at the start of a text.
pub open spec fn block_end(bytes: Seq<u8>) -> Option<int> {
    closing_from(bytes, 0, 0, false, false)
}

/// What stands inside the block at the start of a text.
pub open spec fn block_body(bytes: Seq<u8>) -> Option<Seq<u8>> {
    match block_end(bytes) {
        Some(end) => Some(bytes.subrange(1, end)),
        None => None,
    }
}

/// A name in quotes.
pub open spec fn quoted_name(name: Seq<char>) -> Seq<u8> {
    seq![QUOTE] + encode_utf8(name) + seq![QUOTE]
}

/// What stands inside the first block behind a name.
pub open spec fn named_body(bytes: Seq<u8>, name: Seq<char>) -> Option<Seq<u8>> {
    match first_match(bytes, quoted_name(name), 0) {
        Some(i) => match first_byte(bytes, OPENING_BRACE, i + quoted_name(name).len()) {
            Some(open) => block_body(bytes.skip(open)),
            None => None,
        },
        None => None,
    }
}

/// The names and bodies of the blocks from `cursor` on.
pub open spec fn bodies_from(bytes: Seq<u8>, cursor: int) -> Seq<(Seq<u8>, Seq<u8>)>
    decreases bytes.len() - cursor,
{
    match first_byte(bytes, QUOTE, cursor) {
        Some(before) if cursor <= before < bytes.len() => match first_byte(
            bytes,
            QUOTE,
            before + 1,
        ) {
            Some(after) if before < after => match first_byte(
                bytes,
                OPENING_BRACE,
                after + 1,
            ) {
                Some(open) if after < open => match block_body(bytes.skip(open)) {
                    Some(body) if open + body.len() + 2 <= bytes.len() => seq![
                        (bytes.subrange(before + 1, after), body),
                    ] + bodies_from(bytes, open + body.len() + 2),
                    _ => Seq::empty(),
                },
                _ => Seq::empty(),
            },
            _ => Seq::empty(),
        },
        _ => Seq::empty(),
    }
}

/// The text of a field: what stands in the first quotes behind its name.
pub open spec fn field_bytes(bytes: Seq<u8>, field: Seq<char>) -> Option<Seq<u8>> {
    match first_match(bytes, quoted_name(field), 0) {
        Some(i) => match first_byte(bytes, QUOTE, i + quoted_name(field).len()) {
            Some(before) => match first_byte(bytes, QUOTE, before + 1) {
                Some(after) => Some(bytes.subrange(before + 1, after)),
                None => None,
            },
            None => None,
        },
        None => None,
    }
}

/// The closing brace lies within the text and behind its start.
pub proof fn lemma_closing(bytes: Seq<u8>, i: int, depth: int, quoted: bool, escaped: bool)
    requires
        0 <= i,
    ensures
        closing_from(bytes, i, depth, quoted, escaped) matches Some(end) ==> i <= end < bytes.len()
            && bytes[end] == CLOSING_BRACE && (depth <= 0 ==> i < end),
    decreases bytes.len() - i,
{
    if i < bytes.len() {
        if quoted {
            if escaped {
                lemma_closing(bytes, i + 1, depth, true, false);
            } else {
                lemma_closing(bytes, i + 1, depth, bytes[i] != QUOTE, bytes[i] == BACKSLASH);
            }
        } else if bytes[i] == QUOTE {
            lemma_closing(bytes, i + 1, depth, true, false);
        } else if bytes[i] == OPENING_BRACE {
            lemma_closing(bytes, i + 1, depth + 1, false, false);
        } else if bytes[i] == CLOSING_BRACE {
            lemma_closing(bytes, i + 1, depth - 1, false, false);
        } else {
            lemma_closing(bytes, i + 1, depth, false, false);
        }
    }
}

/// Looks for the brace that closes the block at the start of a text.
fn find_block_end(bytes: &[u8]) -> (r: Option<usize>)
    ensures
        match r {
            Some(end) => block_end(bytes@) == Some(end as int),
            None => block_end(bytes@) is None,
        },
{
    let mut depth: i128 = 0;
    let mut quoted: bool = false;
    let mut escaped: bool = false;
    let mut i: usize = 0;
    while i < bytes.len()
        invariant
            i <= bytes@.len(),
            -(i as int) <= depth <= i,
            block_end(bytes@) == closing_from(bytes@, i as int, depth as int, quoted, escaped),
        decreases bytes.len() - i,
    {
        let byte: u8 = bytes[i];
        if quoted {
            if escaped {
                escaped = false;
            } else if byte == BACKSLASH {
                escaped = true;
            } else if byte == QUOTE {
                quoted = false;
            }
        } else if byte == QUOTE {
            quoted = true;
            escaped = false;
        } else {
            escaped = false;
            if byte == OPENING_BRACE {
                depth = depth + 1;
            } else if byte == CLOSING_BRACE {
                depth = depth - 1;
                if depth == 0 {
                    return Some(i);
                }
            }
        }
        i = i + 1;
    }
    None
}

/// The inside of the block at the start of a text.
pub fn block_contents(text: &str) -> (r: Option<&str>)
    requires
        block_end(text.spec_bytes()) is Some ==> is_char_boundary(text.spec_bytes(), 1),
    ensures
        match r {
            Some(body) => block_body(text.spec_bytes()) == Some(body.spec_bytes()),
            None => block_body(text.spec_bytes()) is None,
        },
{
    match find_block_end(text.as_bytes()) {
        Some(end) => {
            proof {
                lemma_text_bytes(text);
                lemma_closing(text.spec_bytes(), 0, 0, false, false);
                lemma_ascii_boundaries(text.spec_bytes(), end as int);
            }
            Some(slice_text(text, 1, end))
        },
        None => None,
    }
}

/// The rest of a text from an ASCII byte on.
fn rest_from(text: &str, from: usize) -> (r: &str)
    requires
        from < text.spec_bytes().len(),
        text.spec_bytes()[from as int] < 128,
    ensures
        r.spec_bytes() == text.spec_bytes().skip(from as int),
        is_char_boundary(r.spec_bytes(), 1),
{
    proof {
        lemma_text_bytes(text);
        lemma_ascii_boundaries(text.spec_bytes(), from as int);
    }
    let (_, rest) = text.split_at(from);
    proof {
        assert(rest.spec_bytes() =~= text.spec_bytes().skip(from as int));
        lemma_text_bytes(rest);
        lemma_ascii_boundaries(rest.spec_bytes(), 0);
    }
    rest
}

/// The text between two ASCII bytes.
fn text_between(text: &str, before: usize, after: usize) -> (r: &str)
    requires
        before < after < text.spec_bytes().len(),
        text.spec_bytes()[before as int] < 128,
        text.spec_bytes()[after as int] < 128,
    ensures
        r.spec_bytes() == text.spec_bytes().subrange(before + 1, after as int),
{
    proof {
        lemma_text_bytes(text);
        lemma_ascii_boundaries(text.spec_bytes(), before as int);
        lemma_ascii_boundaries(text.spec_bytes(), after as int);
    }
    slice_text(text, before + 1, after)
}

/// A name in quotes.
fn quote_name(name: &str) -> (r: Vec<u8>)
    ensures
        r@ == quoted_name(name@),
{
    let bytes: &[u8] = name.as_bytes();
    let mut r: Vec<u8> = Vec::new();
    r.push(QUOTE);
    let mut i: usize = 0;
    while i < bytes.len()
        invariant
            i <= bytes@.len(),
            r@ == seq![QUOTE] + bytes@.take(i as int),
        decreases bytes.len() - i,
    {
        r.push(bytes[i]);
        proof {
            assert(r@ =~= seq![QUOTE] + bytes@.take(i + 1));
        }
        i = i + 1;
    }
    r.push(QUOTE);
    proof {
        assert(bytes@.take(i as int) =~= bytes@);
        assert(r@ =~= quoted_name(name@));
    }
    r
}

/// The inside of the first block behind a name.
pub fn named_block<'a>(text: &'a str, name: &str) -> (r: Option<&'a str>)
    ensures
        match r {
            Some(body) => named_body(text.spec_bytes(), name@) == Some(body.spec_bytes()),
            None => named_body(text.spec_bytes(), name@) is None,
        },
{
    let bytes: &[u8] = text.as_bytes();
    let key: Vec<u8> = quote_name(name);
    match find_bytes(bytes, key.as_slice(), 0) {
        Some(i) => match find_byte(bytes, OPENING_BRACE, i + key.len()) {
            Some(open) => {
                proof {
                    lemma_first_byte(bytes@, OPENING_BRACE, i + key@.len());
                }
                block_contents(rest_from(text, open))
            },
            None => None,
        },
        None => None,
    }
}

/// The bytes of names and bodies.
pub open spec fn pair_bytes(pairs: Seq<(&str, &str)>) -> Seq<(Seq<u8>, Seq<u8>)> {
    Seq::new(pairs.len(), |i: int| (pairs[i].0.spec_bytes(), pairs[i].1.spec_bytes()))
}

/// The names and insides of all blocks.
pub fn named_blocks<'a>(text: &'a str) -> (r: Vec<(&'a str, &'a str)>)
    ensures
        pair_bytes(r@) == bodies_from(text.spec_bytes(), 0),
{
    let bytes: &[u8] = text.as_bytes();
    let mut r: Vec<(&'a str, &'a str)> = Vec::new();
    let mut cursor: usize = 0;
    assert(bytes.len() <= usize::MAX);
    proof {
        assert(pair_bytes(r@) + bodies_from(bytes@, 0) =~= bodies_from(bytes@, 0));
    }
    loop
        invariant
            bytes@ == text.spec_bytes(),
            cursor <= bytes@.len() <= usize::MAX,
            pair_bytes(r@) + bodies_from(bytes@, cursor as int) == bodies_from(bytes@, 0),
        decreases bytes@.len() - cursor,
    {
        proof {
            lemma_first_byte(bytes@, QUOTE, cursor as int);
            assert(pair_bytes(r@) + Seq::<(Seq<u8>, Seq<u8>)>::empty() =~= pair_bytes(r@));
        }
        let before: usize = match find_byte(bytes, QUOTE, cursor) {
            Some(before) => before,
            None => {
                return r;
            },
        };
        proof {
            lemma_first_byte(bytes@, QUOTE, before + 1);
        }
        let after: usize = match find_byte(bytes, QUOTE, before + 1) {
            Some(after) => after,
            None => {
                return r;
            },
        };
        proof {
            lemma_first_byte(bytes@, OPENING_BRACE, after + 1);
        }
        let open: usize = match find_byte(bytes, OPENING_BRACE, after + 1) {
            Some(open) => open,
            None => {
                return r;
            },
        };
        let name: &'a str = text_between(text, before, after);
        let body: &'a str = match block_contents(rest_from(text, open)) {
            Some(body) => body,
            None => {
                return r;
            },
        };
        let ghost found = r@;
        r.push((name, body));
        proof {
            let rest = bytes@.skip(open as int);
            lemma_closing(rest, 0, 0, false, false);
            assert(body.spec_bytes().len() == block_end(rest)->0 - 1);
            let one = (name.spec_bytes(), body.spec_bytes());
            let next = bodies_from(bytes@, open + body.spec_bytes().len() + 2);
            assert(bodies_from(bytes@, cursor as int) == seq![one] + next);
            assert(pair_bytes(r@) =~= pair_bytes(found).push(one));
            assert(pair_bytes(r@) + next =~= pair_bytes(found) + (seq![one] + next));
        }
        cursor = open + body.len() + 2;
    }
}

/// The text of a field.
pub fn field_text<'a>(text: &'a str, field: &str) -> (r: Option<&'a str>)
    ensures
        match r {
            Some(value) => field_bytes(text.spec_bytes(), field@) == Some(value.spec_bytes()),
            None => field_bytes(text.spec_bytes(), field@) is None,
        },
{
    let bytes: &[u8] = text.as_bytes();
    let key: Vec<u8> = quote_name(field);
    let i: usize = match find_bytes(bytes, key.as_slice(), 0) {
        Some(i) => i,
        None => {
            return None;
        },
    };
    let before: usize = match find_byte(bytes, QUOTE, i + key.len()) {
        Some(before) => before,
        None => {
            return None;
        },
    };
    proof {
        lemma_first_byte(bytes@, QUOTE, i + key@.len());
        lemma_first_byte(bytes@, QUOTE, before + 1);
    }
    match find_byte(bytes, QUOTE, before + 1) {
        Some(after) => Some(text_between(text, before, after)),
        None => None,
    }
}

} // verus!
