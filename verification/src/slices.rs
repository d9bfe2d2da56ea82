//! Positions and slices of text, in bytes.
use vstd::prelude::*;
use vstd::string::StringSliceAdditionalSpecFns;
use vstd::utf8::{
    encode_utf8, encode_utf8_valid_utf8, is_char_boundary,
    is_char_boundary_iff_not_is_continuation_byte, is_char_boundary_start_end_of_seq,
    length_of_first_scalar, pop_first_scalar, utf8_byte_ranges_bitwise, valid_utf8,
};

verus! {

/// `needle` stands in `bytes` at position `i`.
pub open spec fn stands_at(bytes: Seq<u8>, needle: Seq<u8>, i: int) -> bool {
    0 <= i && i + needle.len() <= bytes.len() && bytes.subrange(i, i + needle.len()) == needle
}

/// The first position from `from` on at which `needle` stands.
pub open spec fn first_match(bytes: Seq<u8>, needle: Seq<u8>, from: int) -> Option<int>
    decreases bytes.len() - from + 1,
{
    if from > bytes.len() {
        None
    } else if stands_at(bytes, needle, from) {
        Some(from)
    } else {
        first_match(bytes, needle, from + 1)
    }
}

/// The first position from `from` on of a byte.
pub open spec fn first_byte(bytes: Seq<u8>, byte: u8, from: int) -> Option<int>
    decreases bytes.len() - from,
{
    if from >= bytes.len() {
        None
    } else if bytes[from] == byte {
        Some(from)
    } else {
        first_byte(bytes, byte, from + 1)
    }
}

/// A position found by `first_match` lies where it was looked for.
pub proof fn lemma_first_match(bytes: Seq<u8>, needle: Seq<u8>, from: int)
    requires
        0 <= from,
    ensures
        first_match(bytes, needle, from) matches Some(i) ==> from <= i && stands_at(
            bytes,
            needle,
            i,
        ) && forall|j: int| from <= j < i ==> !stands_at(bytes, needle, j),
        first_match(bytes, needle, from) is None ==> forall|j: int|
            from <= j ==> !stands_at(bytes, needle, j),
    decreases bytes.len() - from + 1,
{
    if from <= bytes.len() && !stands_at(bytes, needle, from) {
        lemma_first_match(bytes, needle, from + 1);
    }
}

pub proof fn lemma_first_byte(bytes: Seq<u8>, byte: u8, from: int)
    requires
        0 <= from,
    ensures
        first_byte(bytes, byte, from) matches Some(i) ==> from <= i < bytes.len() && bytes[i]
            == byte && forall|j: int| from <= j < i ==> bytes[j] != byte,
        first_byte(bytes, byte, from) is None ==> forall|j: int|
            from <= j < bytes.len() ==> bytes[j] != byte,
    decreases bytes.len() - from,
{
    if from < bytes.len() && bytes[from] != byte {
        lemma_first_byte(bytes, byte, from + 1);
    }
}

/// The bytes of a text are UTF-8.
pub proof fn lemma_text_bytes(text: &str)
    ensures
        valid_utf8(text.spec_bytes()),
        text.spec_bytes() == encode_utf8(text@),
{
    encode_utf8_valid_utf8(text@);
}

/// An ASCII byte has character boundaries on both sides.
pub proof fn lemma_ascii_boundaries(bytes: Seq<u8>, i: int)
    requires
        valid_utf8(bytes),
        0 <= i < bytes.len(),
        bytes[i] < 128,
    ensures
        is_char_boundary(bytes, i),
        is_char_boundary(bytes, i + 1),
    decreases bytes.len(),
{
    utf8_byte_ranges_bitwise(bytes[i]);
    is_char_boundary_iff_not_is_continuation_byte(bytes, i);
    reveal_with_fuel(is_char_boundary, 2);
    if i > 0 {
        let rest = pop_first_scalar(bytes);
        let n = length_of_first_scalar(bytes);
        lemma_first_scalar_fits(bytes, i);
        lemma_ascii_boundaries(rest, i - n);
    } else {
        is_char_boundary_start_end_of_seq(pop_first_scalar(bytes));
    }
}

/// A boundary behind the start lies behind the first character.
proof fn lemma_first_scalar_fits(bytes: Seq<u8>, i: int)
    requires
        valid_utf8(bytes),
        0 < i < bytes.len(),
        is_char_boundary(bytes, i),
    ensures
        length_of_first_scalar(bytes) <= i,
        0 < length_of_first_scalar(bytes),
        pop_first_scalar(bytes).len() == bytes.len() - length_of_first_scalar(bytes),
        valid_utf8(pop_first_scalar(bytes)),
        forall|j: int|
            0 <= j < pop_first_scalar(bytes).len() ==> #[trigger] pop_first_scalar(bytes)[j]
                == bytes[length_of_first_scalar(bytes) + j],
{
    reveal_with_fuel(valid_utf8, 2);
    reveal_with_fuel(is_char_boundary, 2);
}

/// The text between two character boundaries.
pub(crate) fn slice_text(text: &str, from: usize, to: usize) -> (r: &str)
    requires
        from <= to,
        is_char_boundary(text.spec_bytes(), from as int),
        is_char_boundary(text.spec_bytes(), to as int),
    ensures
        to <= text.spec_bytes().len(),
        r.spec_bytes() == text.spec_bytes().subrange(from as int, to as int),
{
    let ghost bytes = text.spec_bytes();
    proof {
        lemma_text_bytes(text);
        assert(to <= bytes.len()) by {
            reveal_with_fuel(is_char_boundary, 2);
        }
    }
    let (head, _) = text.split_at(to);
    proof {
        lemma_text_bytes(head);
        let part = head.spec_bytes();
        if from < to {
            assert(part[from as int] == bytes[from as int]);
            is_char_boundary_iff_not_is_continuation_byte(bytes, from as int);
            is_char_boundary_iff_not_is_continuation_byte(part, from as int);
        } else {
            is_char_boundary_start_end_of_seq(part);
        }
    }
    let (_, middle) = head.split_at(from);
    proof {
        assert(middle.spec_bytes() =~= bytes.subrange(from as int, to as int));
    }
    middle
}

/// Looks for a byte from a position on.
pub(crate) fn find_byte(bytes: &[u8], byte: u8, from: usize) -> (r: Option<usize>)
    requires
        from <= bytes@.len(),
    ensures
        match r {
            Some(i) => first_byte(bytes@, byte, from as int) == Some(i as int) && i < bytes@.len()
                && i < usize::MAX,
            None => first_byte(bytes@, byte, from as int) is None,
        },
{
    let mut i: usize = from;
    while i < bytes.len()
        invariant
            from <= i <= bytes@.len(),
            first_byte(bytes@, byte, from as int) == first_byte(bytes@, byte, i as int),
        decreases bytes.len() - i,
    {
        if bytes[i] == byte {
            return Some(i);
        }
        i = i + 1;
    }
    None
}

/// Whether `needle` stands at a position.
pub(crate) fn matches_at(bytes: &[u8], needle: &[u8], i: usize) -> (r: bool)
    requires
        i <= bytes@.len(),
    ensures
        r == stands_at(bytes@, needle@, i as int),
{
    if needle.len() > bytes.len() - i {
        return false;
    }
    let n: usize = bytes.len();
    let mut k: usize = 0;
    while k < needle.len()
        invariant
            k <= needle@.len(),
            i + needle@.len() <= bytes@.len(),
            n == bytes@.len(),
            forall|j: int| 0 <= j < k ==> bytes@[i + j] == needle@[j],
        decreases needle.len() - k,
    {
        if bytes[i + k] != needle[k] {
            proof {
                assert(bytes@.subrange(i as int, i + needle@.len())[k as int] != needle@[k as int]);
            }
            return false;
        }
        k = k + 1;
    }
    proof {
        assert(bytes@.subrange(i as int, i + needle@.len()) =~= needle@);
    }
    true
}

/// Looks for a sequence of bytes from a position on.
pub(crate) fn find_bytes(bytes: &[u8], needle: &[u8], from: usize) -> (r: Option<usize>)
    requires
        from <= bytes@.len(),
    ensures
        match r {
            Some(i) => first_match(bytes@, needle@, from as int) == Some(i as int) && i
                + needle@.len() <= bytes@.len() && i + needle@.len() <= usize::MAX,
            None => first_match(bytes@, needle@, from as int) is None,
        },
{
    let n: usize = bytes.len();
    let mut i: usize = from;
    while i < n
        invariant
            from <= i <= n == bytes@.len(),
            first_match(bytes@, needle@, from as int) == first_match(
                bytes@,
                needle@,
                i as int,
            ),
        decreases n - i,
    {
        if matches_at(bytes, needle, i) {
            return Some(i);
        }
        i = i + 1;
    }
    proof {
        assert(first_match(bytes@, needle@, (bytes@.len() + 1) as int) is None);
    }
    if matches_at(bytes, needle, i) {
        Some(i)
    } else {
        None
    }
}

} // verus!
