//! What the blocks and fields of an item file are.
use crate::numerals::spelled_float;
use crate::slices::{first_byte, stands_at};
use crate::spelling::lemma_first_found;
use crate::sync::kits_of;
use crate::text::spelled_u32;
use crate::vdf::{
    block_body, block_end, bodies_from, closing_from, field_bytes, named_body, quoted_name,
};
use vstd::prelude::*;
use vstd::utf8::decode_utf8;

verus! {

/// How often a byte occurs.
pub open spec fn times(bytes: Seq<u8>, byte: u8) -> nat
    decreases bytes.len(),
{
    if bytes.len() == 0 {
        0
    } else {
        times(bytes.drop_last(), byte) + if bytes.last() == byte {
            1nat
        } else {
            0
        }
    }
}

/// Every brace that is opened is closed, and none is closed before it was opened.
pub open spec fn braces_match(bytes: Seq<u8>) -> bool {
    &&& times(bytes, 123) == times(bytes, 125)
    &&& forall|n: int|
        0 <= n <= bytes.len() ==> times(#[trigger] bytes.take(n), 123) >= times(bytes.take(n), 125)
}

proof fn lemma_times_step(bytes: Seq<u8>, n: int, byte: u8)
    requires
        0 <= n < bytes.len(),
    ensures
        times(bytes.take(n + 1), byte) == times(bytes.take(n), byte) + if bytes[n] == byte {
            1nat
        } else {
            0
        },
{
    assert(bytes.take(n + 1).drop_last() =~= bytes.take(n));
}

/// The search for the closing brace, after `n` bytes of a body.
proof fn lemma_depth(bytes: Seq<u8>, body: Seq<u8>, n: int)
    requires
        0 <= n <= body.len(),
        body.len() + 1 < bytes.len(),
        forall|i: int| 0 <= i < body.len() ==> #[trigger] bytes[1 + i] == body[i],
        forall|i: int| 0 <= i < body.len() ==> #[trigger] body[i] != 34,
        forall|k: int|
            0 <= k <= body.len() ==> times(#[trigger] body.take(k), 123) >= times(
                body.take(k),
                125,
            ),
    ensures
        closing_from(bytes, 1, 1, false, false) == closing_from(
            bytes,
            1 + n,
            1 + times(body.take(n), 123) - times(body.take(n), 125),
            false,
            false,
        ),
    decreases n,
{
    if n == 0 {
        assert(body.take(0) =~= Seq::empty());
    } else {
        lemma_depth(bytes, body, n - 1);
        lemma_times_step(body, n - 1, 123);
        lemma_times_step(body, n - 1, 125);
        assert(bytes[1 + (n - 1)] == body[n - 1]);
        assert(body[n - 1] != 34);
        assert(times(body.take(n), 123) >= times(body.take(n), 125));
    }
}

/// A block reaches to the brace that closes it: where the braces in between match, its body
/// is all of that.
pub proof fn law_block_reaches_its_brace(body: Seq<u8>, rest: Seq<u8>)
    requires
        braces_match(body),
        forall|i: int| 0 <= i < body.len() ==> #[trigger] body[i] != 34,
    ensures
        block_body(seq![123u8] + body + seq![125u8] + rest) == Some(body),
{
    let bytes = seq![123u8] + body + seq![125u8] + rest;
    let n = body.len() as int;
    lemma_depth(bytes, body, n);
    assert(body.take(n) =~= body);
    assert(bytes[0] == 123 && bytes[1 + n] == 125);
    assert(block_end(bytes) == Some(1 + n));
    assert(bytes.subrange(1, 1 + n) =~= body);
}

/// The search goes through bytes that are neither braces nor quotes.
proof fn lemma_plain_is_skipped(bytes: Seq<u8>, i: int, to: int, depth: int)
    requires
        0 <= i <= to <= bytes.len(),
        forall|j: int|
            i <= j < to ==> #[trigger] bytes[j] != 34 && bytes[j] != 123 && bytes[j] != 125,
    ensures
        closing_from(bytes, i, depth, false, false) == closing_from(bytes, to, depth, false, false),
    decreases to - i,
{
    if i < to {
        assert(bytes[i] != 34);
        lemma_plain_is_skipped(bytes, i + 1, to, depth);
    }
}

/// The search goes through a quoted text, whatever braces there are.
proof fn lemma_quoted_is_skipped(bytes: Seq<u8>, i: int, to: int, depth: int)
    requires
        0 <= i <= to < bytes.len(),
        forall|j: int| i <= j < to ==> #[trigger] bytes[j] != 34 && bytes[j] != 92,
        bytes[to] == 34,
    ensures
        closing_from(bytes, i, depth, true, false) == closing_from(
            bytes,
            to + 1,
            depth,
            false,
            false,
        ),
    decreases to - i,
{
    if i < to {
        assert(bytes[i] != 34);
        lemma_quoted_is_skipped(bytes, i + 1, to, depth);
    }
}

/// Braces in a quoted text do not count.
pub proof fn law_quoted_braces_do_not_count(
    before: Seq<u8>,
    text: Seq<u8>,
    after: Seq<u8>,
    rest: Seq<u8>,
)
    requires
        forall|i: int|
            0 <= i < before.len() ==> #[trigger] before[i] != 34 && before[i] != 123 && before[i]
                != 125,
        forall|i: int| 0 <= i < text.len() ==> #[trigger] text[i] != 34 && text[i] != 92,
        forall|i: int|
            0 <= i < after.len() ==> #[trigger] after[i] != 34 && after[i] != 123 && after[i]
                != 125,
    ensures
        ({
            let body = before + seq![34u8] + text + seq![34u8] + after;
            block_body(seq![123u8] + body + seq![125u8] + rest) == Some(body)
        }),
{
    let body = before + seq![34u8] + text + seq![34u8] + after;
    let bytes = seq![123u8] + body + seq![125u8] + rest;
    let (a, b, c) = (before.len() as int, text.len() as int, after.len() as int);
    assert forall|j: int| 1 <= j < 1 + a implies #[trigger] bytes[j] != 34 && bytes[j] != 123
        && bytes[j] != 125 by {
        assert(bytes[j] == before[j - 1]);
    }
    lemma_plain_is_skipped(bytes, 1, 1 + a, 1);
    assert(bytes[1 + a] == 34);
    assert forall|j: int| 2 + a <= j < 2 + a + b implies #[trigger] bytes[j] != 34 && bytes[j]
        != 92 by {
        assert(bytes[j] == text[j - 2 - a]);
    }
    assert(bytes[2 + a + b] == 34);
    lemma_quoted_is_skipped(bytes, 2 + a, 2 + a + b, 1);
    assert forall|j: int| 3 + a + b <= j < 3 + a + b + c implies #[trigger] bytes[j] != 34
        && bytes[j] != 123 && bytes[j] != 125 by {
        assert(bytes[j] == after[j - 3 - a - b]);
    }
    lemma_plain_is_skipped(bytes, 3 + a + b, 3 + a + b + c, 1);
    assert(bytes[0] == 123);
    assert(bytes[3 + a + b + c] == 125);
    assert(block_end(bytes) == Some(3 + a + b + c));
    assert(bytes.subrange(1, 3 + a + b + c) =~= body);
}

/// The first place of a byte, where it does not stand before.
proof fn lemma_first_byte_found(bytes: Seq<u8>, byte: u8, from: int, at: int)
    requires
        0 <= from <= at < bytes.len(),
        bytes[at] == byte,
        forall|i: int| from <= i < at ==> #[trigger] bytes[i] != byte,
    ensures
        first_byte(bytes, byte, from) == Some(at),
    decreases at - from,
{
    if from < at {
        assert(bytes[from] != byte);
        lemma_first_byte_found(bytes, byte, from + 1, at);
    }
}

/// A field has the text that is quoted next behind its quoted name, where that name stands
/// first.
pub proof fn law_field_has_the_next_text(
    before: Seq<u8>,
    field: Seq<char>,
    between: Seq<u8>,
    value: Seq<u8>,
    rest: Seq<u8>,
)
    requires
        forall|i: int|
            0 <= i < before.len() ==> !(#[trigger] stands_at(
                before + quoted_name(field) + between + seq![34u8] + value + seq![34u8] + rest,
                quoted_name(field),
                i,
            )),
        forall|i: int| 0 <= i < between.len() ==> #[trigger] between[i] != 34,
        forall|i: int| 0 <= i < value.len() ==> #[trigger] value[i] != 34,
    ensures
        field_bytes(
            before + quoted_name(field) + between + seq![34u8] + value + seq![34u8] + rest,
            field,
        ) == Some(value),
{
    let name = quoted_name(field);
    let bytes = before + name + between + seq![34u8] + value + seq![34u8] + rest;
    let n = before.len() as int;
    let (m, g, v) = (name.len() as int, between.len() as int, value.len() as int);
    assert(bytes.subrange(n, n + m) =~= name);
    lemma_first_found(bytes, name, 0, n);
    assert forall|i: int| n + m <= i < n + m + g implies #[trigger] bytes[i] != 34 by {
        assert(bytes[i] == between[i - n - m]);
    }
    assert(bytes[n + m + g] == 34);
    lemma_first_byte_found(bytes, 34, n + m, n + m + g);
    assert forall|i: int| n + m + g + 1 <= i < n + m + g + 1 + v implies #[trigger] bytes[i]
        != 34 by {
        assert(bytes[i] == value[i - n - m - g - 1]);
    }
    assert(bytes[n + m + g + 1 + v] == 34);
    lemma_first_byte_found(bytes, 34, n + m + g + 1, n + m + g + 1 + v);
    assert(bytes.subrange(n + m + g + 1, n + m + g + 1 + v) =~= value);
}

/// A named block is the next one behind the quoted name, where that name stands first.
pub proof fn law_named_block(
    before: Seq<u8>,
    name: Seq<char>,
    between: Seq<u8>,
    body: Seq<u8>,
    rest: Seq<u8>,
)
    requires
        forall|i: int|
            0 <= i < before.len() ==> !(#[trigger] stands_at(
                before + quoted_name(name) + between + (seq![123u8] + body + seq![125u8] + rest),
                quoted_name(name),
                i,
            )),
        forall|i: int| 0 <= i < between.len() ==> #[trigger] between[i] != 123,
        block_body(seq![123u8] + body + seq![125u8] + rest) == Some(body),
    ensures
        named_body(
            before + quoted_name(name) + between + (seq![123u8] + body + seq![125u8] + rest),
            name,
        ) == Some(body),
{
    let quoted = quoted_name(name);
    let block = seq![123u8] + body + seq![125u8] + rest;
    let bytes = before + quoted + between + block;
    let n = before.len() as int;
    let (m, g) = (quoted.len() as int, between.len() as int);
    assert(bytes.subrange(n, n + m) =~= quoted);
    lemma_first_found(bytes, quoted, 0, n);
    assert forall|i: int| n + m <= i < n + m + g implies #[trigger] bytes[i] != 123 by {
        assert(bytes[i] == between[i - n - m]);
    }
    assert(bytes[n + m + g] == 123);
    lemma_first_byte_found(bytes, 123, n + m, n + m + g);
    assert(bytes.skip(n + m + g) =~= block);
}

/// The blocks of a section are read one after the other: the next quoted name, the next
/// block behind it, and then what follows that block.
pub proof fn law_blocks_follow(
    bytes: Seq<u8>,
    cursor: int,
    before: int,
    after: int,
    open: int,
    body: Seq<u8>,
)
    requires
        0 <= cursor <= before < after < open < bytes.len(),
        forall|i: int| cursor <= i < before ==> #[trigger] bytes[i] != 34,
        bytes[before] == 34,
        forall|i: int| before < i < after ==> #[trigger] bytes[i] != 34,
        bytes[after] == 34,
        forall|i: int| after < i < open ==> #[trigger] bytes[i] != 123,
        bytes[open] == 123,
        block_body(bytes.skip(open)) == Some(body),
        open + body.len() + 2 <= bytes.len(),
    ensures
        bodies_from(bytes, cursor) == seq![(bytes.subrange(before + 1, after), body)]
            + bodies_from(bytes, open + body.len() + 2),
{
    lemma_first_byte_found(bytes, 34, cursor, before);
    lemma_first_byte_found(bytes, 34, before + 1, after);
    lemma_first_byte_found(bytes, 123, after + 1, open);
}

/// Behind the last name there are no more blocks.
pub proof fn law_no_more_blocks(bytes: Seq<u8>, cursor: int)
    requires
        0 <= cursor,
        forall|i: int| cursor <= i < bytes.len() ==> #[trigger] bytes[i] != 34,
    ensures
        bodies_from(bytes, cursor).len() == 0,
{
    lemma_no_byte(bytes, 34, cursor);
}

proof fn lemma_no_byte(bytes: Seq<u8>, byte: u8, from: int)
    requires
        0 <= from,
        forall|i: int| from <= i < bytes.len() ==> #[trigger] bytes[i] != byte,
    ensures
        first_byte(bytes, byte, from) is None,
    decreases bytes.len() - from,
{
    if from < bytes.len() {
        assert(bytes[from] != byte);
        lemma_no_byte(bytes, byte, from + 1);
    }
}

/// A block is a paint kit where its name is a number and both caps are numbers: the lower
/// one under `wear_remap_min`, the upper one under `wear_remap_max`. Others are passed over.
pub proof fn law_paint_kit(
    blocks: Seq<(Seq<u8>, Seq<u8>)>,
    name: Seq<u8>,
    body: Seq<u8>,
    low: Seq<u8>,
    high: Seq<u8>,
)
    requires
        field_bytes(body, "wear_remap_min"@) == Some(low),
        field_bytes(body, "wear_remap_max"@) == Some(high),
    ensures
        spelled_u32(decode_utf8(name)) is Some && spelled_float(decode_utf8(low)) is Some
            && spelled_float(decode_utf8(high)) is Some ==> kits_of(blocks.push((name, body)))
            == kits_of(blocks).push(
            (
                decode_utf8(name),
                spelled_float(decode_utf8(low))->0,
                spelled_float(decode_utf8(high))->0,
            ),
        ),
        spelled_u32(decode_utf8(name)) is None || spelled_float(decode_utf8(low)) is None
            || spelled_float(decode_utf8(high)) is None ==> kits_of(blocks.push((name, body)))
            == kits_of(blocks),
{
    let all = blocks.push((name, body));
    assert(all.drop_last() =~= blocks);
    assert(all.last() == (name, body));
}

/// A block without one of its caps is passed over.
pub proof fn law_no_caps_no_kit(
    blocks: Seq<(Seq<u8>, Seq<u8>)>,
    name: Seq<u8>,
    body: Seq<u8>,
)
    requires
        field_bytes(body, "wear_remap_min"@) is None || field_bytes(body, "wear_remap_max"@) is None,
    ensures
        kits_of(blocks.push((name, body))) == kits_of(blocks),
{
    let all = blocks.push((name, body));
    assert(all.drop_last() =~= blocks);
    assert(all.last() == (name, body));
}

/// A quote behind a backslash does not end a quoted text.
pub proof fn law_escaped_quote_does_not_count(
    before: Seq<u8>,
    text: Seq<u8>,
    more: Seq<u8>,
    rest: Seq<u8>,
)
    requires
        forall|i: int|
            0 <= i < before.len() ==> #[trigger] before[i] != 34 && before[i] != 123 && before[i]
                != 125,
        forall|i: int| 0 <= i < text.len() ==> #[trigger] text[i] != 34 && text[i] != 92,
        forall|i: int| 0 <= i < more.len() ==> #[trigger] more[i] != 34 && more[i] != 92,
    ensures
        ({
            let body = before + seq![34u8] + text + seq![92u8, 34u8] + more + seq![34u8];
            block_body(seq![123u8] + body + seq![125u8] + rest) == Some(body)
        }),
{
    let body = before + seq![34u8] + text + seq![92u8, 34u8] + more + seq![34u8];
    let bytes = seq![123u8] + body + seq![125u8] + rest;
    let (a, b, c) = (before.len() as int, text.len() as int, more.len() as int);
    assert forall|j: int| 1 <= j < 1 + a implies #[trigger] bytes[j] != 34 && bytes[j] != 123
        && bytes[j] != 125 by {
        assert(bytes[j] == before[j - 1]);
    }
    lemma_plain_is_skipped(bytes, 1, 1 + a, 1);
    assert(bytes[1 + a] == 34);
    assert forall|j: int| 2 + a <= j < 2 + a + b implies #[trigger] bytes[j] != 34 && bytes[j]
        != 92 by {
        assert(bytes[j] == text[j - 2 - a]);
    }
    lemma_quoted_goes_on(bytes, 2 + a, 2 + a + b, 1);
    assert(bytes[2 + a + b] == 92);
    assert(closing_from(bytes, 2 + a + b, 1, true, false) == closing_from(
        bytes,
        3 + a + b,
        1,
        true,
        true,
    ));
    assert(closing_from(bytes, 3 + a + b, 1, true, true) == closing_from(
        bytes,
        4 + a + b,
        1,
        true,
        false,
    ));
    assert forall|j: int| 4 + a + b <= j < 4 + a + b + c implies #[trigger] bytes[j] != 34
        && bytes[j] != 92 by {
        assert(bytes[j] == more[j - 4 - a - b]);
    }
    assert(bytes[4 + a + b + c] == 34);
    lemma_quoted_is_skipped(bytes, 4 + a + b, 4 + a + b + c, 1);
    assert(bytes[0] == 123);
    assert(bytes[5 + a + b + c] == 125);
    assert(block_end(bytes) == Some(5 + a + b + c));
    assert(bytes.subrange(1, 5 + a + b + c) =~= body);
}

/// The search stays in a quoted text.
proof fn lemma_quoted_goes_on(bytes: Seq<u8>, i: int, to: int, depth: int)
    requires
        0 <= i <= to < bytes.len(),
        forall|j: int| i <= j < to ==> #[trigger] bytes[j] != 34 && bytes[j] != 92,
    ensures
        closing_from(bytes, i, depth, true, false) == closing_from(bytes, to, depth, true, false),
    decreases to - i,
{
    if i < to {
        assert(bytes[i] != 34);
        lemma_quoted_goes_on(bytes, i + 1, to, depth);
    }
}

} // verus!
