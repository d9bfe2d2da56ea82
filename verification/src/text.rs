//! Text: equality, the byte-wise order, and decimal numerals.
use vstd::prelude::*;
use vstd::string::{StrSliceExecFns, StringExecFns};
use vstd::utf8::{encode_utf8, encode_utf8_decode_utf8};

verus! {

/// The outcome of a three-way comparison.
#[derive(Debug, Clone, Copy, PartialEq, Eq, Structural)]
pub enum Relation {
    Before,
    Same,
    After,
}

/// The lexicographic order of byte sequences.
pub open spec fn bytes_before(a: Seq<u8>, b: Seq<u8>) -> bool
    decreases a.len(),
{
    if b.len() == 0 {
        false
    } else if a.len() == 0 {
        true
    } else if a[0] != b[0] {
        a[0] < b[0]
    } else {
        bytes_before(a.drop_first(), b.drop_first())
    }
}

/// The order of strings: lexicographic in their UTF-8 bytes.
pub open spec fn text_before(a: Seq<char>, b: Seq<char>) -> bool {
    bytes_before(encode_utf8(a), encode_utf8(b))
}

/// What a three-way comparison of two strings gives.
pub open spec fn text_relation(a: Seq<char>, b: Seq<char>) -> Relation {
    if a == b {
        Relation::Same
    } else if text_before(a, b) {
        Relation::Before
    } else {
        Relation::After
    }
}

proof fn lemma_bytes_order(a: Seq<u8>, b: Seq<u8>)
    ensures
        !(bytes_before(a, b) && bytes_before(b, a)),
        !bytes_before(a, b) && !bytes_before(b, a) ==> a == b,
        a == b ==> !bytes_before(a, b),
    decreases a.len(),
{
    if a.len() > 0 && b.len() > 0 && a[0] == b[0] {
        lemma_bytes_order(a.drop_first(), b.drop_first());
        if a.drop_first() == b.drop_first() {
            assert(a =~= seq![a[0]] + a.drop_first());
            assert(b =~= seq![b[0]] + b.drop_first());
        }
    } else if a.len() == 0 && b.len() == 0 {
        assert(a =~= b);
    }
}

proof fn lemma_bytes_transitive(a: Seq<u8>, b: Seq<u8>, c: Seq<u8>)
    requires
        bytes_before(a, b),
        bytes_before(b, c),
    ensures
        bytes_before(a, c),
    decreases a.len(),
{
    if a.len() > 0 && a[0] == b[0] && b[0] == c[0] {
        lemma_bytes_transitive(a.drop_first(), b.drop_first(), c.drop_first());
    }
}

/// Different texts have different bytes.
pub proof fn lemma_utf8_injective(a: Seq<char>, b: Seq<char>)
    requires
        encode_utf8(a) == encode_utf8(b),
    ensures
        a == b,
{
    encode_utf8_decode_utf8(a);
    encode_utf8_decode_utf8(b);
}

/// The order of strings is a strict total order.
pub proof fn lemma_text_order(a: Seq<char>, b: Seq<char>)
    ensures
        !(text_before(a, b) && text_before(b, a)),
        !text_before(a, b) && !text_before(b, a) ==> a == b,
        !text_before(a, a),
{
    lemma_bytes_order(encode_utf8(a), encode_utf8(b));
    lemma_bytes_order(encode_utf8(a), encode_utf8(a));
    if encode_utf8(a) == encode_utf8(b) {
        lemma_utf8_injective(a, b);
    }
}

pub proof fn lemma_text_transitive(a: Seq<char>, b: Seq<char>, c: Seq<char>)
    requires
        text_before(a, b),
        text_before(b, c),
    ensures
        text_before(a, c),
{
    lemma_bytes_transitive(encode_utf8(a), encode_utf8(b), encode_utf8(c));
}

/// How three-way comparisons compose.
pub proof fn lemma_text_relations(a: Seq<char>, b: Seq<char>, c: Seq<char>)
    ensures
        text_relation(a, b) is After <==> text_relation(b, a) is Before,
        text_relation(a, b) is Same <==> a == b,
        text_relation(a, b) is Before && text_relation(b, c) is Before ==> text_relation(
            a,
            c,
        ) is Before,
{
    lemma_text_order(a, b);
    lemma_text_order(b, a);
    lemma_text_order(a, c);
    if text_before(a, b) && text_before(b, c) {
        lemma_text_transitive(a, b, c);
    }
}

/// Compares two strings by their bytes.
pub fn compare_text(a: &str, b: &str) -> (r: Relation)
    ensures
        r == text_relation(a@, b@),
{
    let x: &[u8] = a.as_bytes();
    let y: &[u8] = b.as_bytes();
    let mut i: usize = 0;
    proof {
        lemma_text_order(a@, b@);
        assert(x@.skip(0) =~= x@);
        assert(y@.skip(0) =~= y@);
    }
    while i < x.len() && i < y.len()
        invariant
            i <= x@.len(),
            i <= y@.len(),
            x@ == encode_utf8(a@),
            y@ == encode_utf8(b@),
            forall|j: int| 0 <= j < i ==> x@[j] == y@[j],
            bytes_before(x@, y@) == bytes_before(x@.skip(i as int), y@.skip(i as int)),
        decreases x.len() - i,
    {
        if x[i] != y[i] {
            if x[i] < y[i] {
                return Relation::Before;
            } else {
                return Relation::After;
            }
        }
        proof {
            assert(x@.skip(i as int).drop_first() =~= x@.skip(i + 1));
            assert(y@.skip(i as int).drop_first() =~= y@.skip(i + 1));
        }
        i = i + 1;
    }
    if x.len() == y.len() {
        proof {
            assert(x@ =~= y@);
            lemma_utf8_injective(a@, b@);
        }
        Relation::Same
    } else if x.len() < y.len() {
        Relation::Before
    } else {
        Relation::After
    }
}

/// Whether two strings are equal.
pub fn same_text(a: &str, b: &str) -> (r: bool)
    ensures
        r == (a@ == b@),
{
    let x: &[u8] = a.as_bytes();
    let y: &[u8] = b.as_bytes();
    if x.len() != y.len() {
        return false;
    }
    let mut i: usize = 0;
    while i < x.len()
        invariant
            i <= x@.len(),
            x@.len() == y@.len(),
            x@ == encode_utf8(a@),
            y@ == encode_utf8(b@),
            forall|j: int| 0 <= j < i ==> x@[j] == y@[j],
        decreases x.len() - i,
    {
        if x[i] != y[i] {
            return false;
        }
        i = i + 1;
    }
    proof {
        assert(x@ =~= y@);
        lemma_utf8_injective(a@, b@);
    }
    true
}

/// The character of a digit below sixteen.
pub open spec fn digit(n: nat) -> char {
    if n == 0 {
        '0'
    } else if n == 1 {
        '1'
    } else if n == 2 {
        '2'
    } else if n == 3 {
        '3'
    } else if n == 4 {
        '4'
    } else if n == 5 {
        '5'
    } else if n == 6 {
        '6'
    } else if n == 7 {
        '7'
    } else if n == 8 {
        '8'
    } else if n == 9 {
        '9'
    } else if n == 10 {
        'a'
    } else if n == 11 {
        'b'
    } else if n == 12 {
        'c'
    } else if n == 13 {
        'd'
    } else if n == 14 {
        'e'
    } else {
        'f'
    }
}

/// The decimal numeral of a number, without leading zeros.
pub open spec fn decimal(n: nat) -> Seq<char>
    decreases n,
{
    if n < 10 {
        seq![digit(n)]
    } else {
        decimal(n / 10).push(digit(n % 10))
    }
}

/// The last `width` digits of a number in the given base, leading zeros kept.
pub open spec fn padded(n: nat, base: nat, width: nat) -> Seq<char>
    decreases width,
{
    if width == 0 {
        Seq::empty()
    } else {
        padded(n / base, base, (width - 1) as nat).push(digit(n % base))
    }
}

fn digit_text(n: u128) -> (r: &'static str)
    requires
        n < 16,
    ensures
        r@ == seq![digit(n as nat)],
{
    proof {
        reveal_strlit("0");
        reveal_strlit("1");
        reveal_strlit("2");
        reveal_strlit("3");
        reveal_strlit("4");
        reveal_strlit("5");
        reveal_strlit("6");
        reveal_strlit("7");
        reveal_strlit("8");
        reveal_strlit("9");
        reveal_strlit("a");
        reveal_strlit("b");
        reveal_strlit("c");
        reveal_strlit("d");
        reveal_strlit("e");
        reveal_strlit("f");
    }
    let r: &'static str = if n == 0 {
        "0"
    } else if n == 1 {
        "1"
    } else if n == 2 {
        "2"
    } else if n == 3 {
        "3"
    } else if n == 4 {
        "4"
    } else if n == 5 {
        "5"
    } else if n == 6 {
        "6"
    } else if n == 7 {
        "7"
    } else if n == 8 {
        "8"
    } else if n == 9 {
        "9"
    } else if n == 10 {
        "a"
    } else if n == 11 {
        "b"
    } else if n == 12 {
        "c"
    } else if n == 13 {
        "d"
    } else if n == 14 {
        "e"
    } else {
        "f"
    };
    assert(r@ =~= seq![digit(n as nat)]);
    r
}

/// Writes a number in decimal.
pub fn decimal_text(n: u128) -> (r: String)
    ensures
        r@ == decimal(n as nat),
    decreases n,
{
    if n < 10 {
        digit_text(n).to_owned()
    } else {
        let mut r: String = decimal_text(n / 10);
        r.append(digit_text(n % 10));
        assert(r@ =~= decimal(n as nat));
        r
    }
}

/// Writes the last `width` digits of a number.
pub(crate) fn padded_text(n: u128, base: u128, width: u32) -> (r: String)
    requires
        2 <= base <= 16,
    ensures
        r@ == padded(n as nat, base as nat, width as nat),
    decreases width,
{
    if width == 0 {
        String::new()
    } else {
        let mut r: String = padded_text(n / base, base, width - 1);
        r.append(digit_text(n % base));
        assert(r@ =~= padded(n as nat, base as nat, width as nat));
        r
    }
}

pub(crate) fn join2(a: &str, b: &str) -> (r: String)
    ensures
        r@ == a@ + b@,
{
    a.to_owned().concat(b)
}

pub(crate) fn join3(a: &str, b: &str, c: &str) -> (r: String)
    ensures
        r@ == a@ + b@ + c@,
{
    a.to_owned().concat(b).concat(c)
}

/// The number of bytes of a text.
pub(crate) fn byte_len(text: &str) -> (r: usize)
    ensures
        r == encode_utf8(text@).len(),
{
    text.as_bytes().len()
}

/// Whether a character has the Unicode property White_Space.
pub open spec fn white_space(c: char) -> bool {
    let n = c as u32;
    ||| 0x9 <= n <= 0xd
    ||| n == 0x20
    ||| n == 0x85
    ||| n == 0xa0
    ||| n == 0x1680
    ||| 0x2000 <= n <= 0x200a
    ||| n == 0x2028
    ||| n == 0x2029
    ||| n == 0x202f
    ||| n == 0x205f
    ||| n == 0x3000
}

fn is_white_space(c: char) -> (r: bool)
    ensures
        r == white_space(c),
{
    let n: u32 = c as u32;
    (0x9 <= n && n <= 0xd) || n == 0x20 || n == 0x85 || n == 0xa0 || n == 0x1680 || (0x2000 <= n
        && n <= 0x200a) || n == 0x2028 || n == 0x2029 || n == 0x202f || n == 0x205f || n == 0x3000
}

/// A text without the white space in front of it.
pub open spec fn trimmed_start(text: Seq<char>) -> Seq<char>
    decreases text.len(),
{
    if text.len() > 0 && white_space(text[0]) {
        trimmed_start(text.drop_first())
    } else {
        text
    }
}

/// A text without the white space behind it.
pub open spec fn trimmed_end(text: Seq<char>) -> Seq<char>
    decreases text.len(),
{
    if text.len() > 0 && white_space(text.last()) {
        trimmed_end(text.drop_last())
    } else {
        text
    }
}

/// A text without the white space around it.
pub open spec fn trimmed(text: Seq<char>) -> Seq<char> {
    trimmed_end(trimmed_start(text))
}

/// Takes off the white space around a text.
pub fn trim_text(text: &str) -> (r: &str)
    ensures
        r@ == trimmed(text@),
{
    let n: usize = text.unicode_len();
    let mut from: usize = 0;
    proof {
        assert(text@.skip(0) =~= text@);
    }
    while from < n && is_white_space(text.get_char(from))
        invariant
            from <= n,
            n == text@.len(),
            trimmed_start(text@) == trimmed_start(text@.skip(from as int)),
        decreases n - from,
    {
        proof {
            assert(text@.skip(from as int).drop_first() =~= text@.skip(from + 1));
        }
        from = from + 1;
    }
    let ghost rest = text@.skip(from as int);
    let mut to: usize = n;
    proof {
        assert(trimmed_start(text@) == rest);
        assert(text@.subrange(from as int, to as int) =~= rest);
    }
    while from < to && is_white_space(text.get_char(to - 1))
        invariant
            from <= to <= n,
            n == text@.len(),
            trimmed_end(rest) == trimmed_end(text@.subrange(from as int, to as int)),
        decreases to,
    {
        proof {
            assert(text@.subrange(from as int, to as int).drop_last() =~= text@.subrange(
                from as int,
                to - 1,
            ));
        }
        to = to - 1;
    }
    text.substring_char(from, to)
}

/// The number that ASCII digits stand for; nothing where another byte is among them.
pub open spec fn digits_value(bytes: Seq<u8>) -> Option<nat>
    decreases bytes.len(),
{
    if bytes.len() == 0 {
        Some(0)
    } else {
        match digits_value(bytes.drop_last()) {
            Some(v) if 48 <= bytes.last() <= 57 => Some((v * 10 + (bytes.last() - 48)) as nat),
            _ => None,
        }
    }
}

/// The number that a text spells: digits, perhaps after one plus sign; nothing
/// where it exceeds `limit`.
pub open spec fn spelled_number(text: Seq<char>, limit: nat) -> Option<nat> {
    let bytes = encode_utf8(text);
    let digits = if bytes.len() > 0 && bytes[0] == 43 {
        bytes.drop_first()
    } else {
        bytes
    };
    if digits.len() == 0 {
        None
    } else {
        match digits_value(digits) {
            Some(v) if v <= limit => Some(v),
            _ => None,
        }
    }
}

/// The unsigned 32-bit number that a text spells.
pub open spec fn spelled_u32(text: Seq<char>) -> Option<u32> {
    match spelled_number(text, u32::MAX as nat) {
        Some(v) => Some(v as u32),
        None => None,
    }
}

/// The unsigned 64-bit number that a text spells.
pub open spec fn spelled_u64(text: Seq<char>) -> Option<u64> {
    match spelled_number(text, u64::MAX as nat) {
        Some(v) => Some(v as u64),
        None => None,
    }
}

/// A prefix that is no numeral makes no numeral, and a longer numeral is no smaller.
proof fn lemma_digits_prefix(bytes: Seq<u8>, n: int)
    requires
        0 <= n <= bytes.len(),
    ensures
        digits_value(bytes.take(n)) is None ==> digits_value(bytes) is None,
        digits_value(bytes.take(n)) matches Some(v) ==> (digits_value(bytes) matches Some(w)
            ==> v <= w),
    decreases bytes.len(),
{
    if n < bytes.len() {
        lemma_digits_prefix(bytes.drop_last(), n);
        assert(bytes.drop_last().take(n) =~= bytes.take(n));
    } else {
        assert(bytes.take(n) =~= bytes);
    }
}

/// Reads a number up to a limit.
fn parse_number(text: &str, limit: u64) -> (r: Option<u64>)
    ensures
        match r {
            Some(v) => spelled_number(text@, limit as nat) == Some(v as nat) && v <= limit,
            None => spelled_number(text@, limit as nat) is None,
        },
{
    let bytes: &[u8] = text.as_bytes();
    let start: usize = if bytes.len() > 0 && bytes[0] == 43 {
        1
    } else {
        0
    };
    if start == bytes.len() {
        return None;
    }
    let ghost digits = bytes@.skip(start as int);
    proof {
        assert(start == 0 ==> digits =~= bytes@);
        assert(start == 1 ==> digits =~= bytes@.drop_first());
        assert(digits.take(0) =~= Seq::empty());
    }
    let mut value: u128 = 0;
    let mut i: usize = start;
    while i < bytes.len()
        invariant
            start <= i <= bytes@.len(),
            digits == bytes@.skip(start as int),
            digits_value(digits.take(i - start)) == Some(value as nat),
            value <= limit,
            digits.len() > 0,
            spelled_number(text@, limit as nat) == (match digits_value(digits) {
                Some(v) if v <= limit => Some(v),
                _ => None,
            }),
        decreases bytes.len() - i,
    {
        let b: u8 = bytes[i];
        proof {
            assert(digits.take(i - start + 1).drop_last() =~= digits.take(i - start));
            assert(digits.take(i - start + 1).last() == b);
            lemma_digits_prefix(digits, i - start + 1);
        }
        if b < 48 || b > 57 {
            return None;
        }
        value = value * 10 + (b - 48) as u128;
        if value > limit as u128 {
            return None;
        }
        i = i + 1;
    }
    proof {
        assert(digits.take(i - start) =~= digits);
    }
    Some(value as u64)
}

/// Reads an unsigned 32-bit number.
pub fn parse_u32(text: &str) -> (r: Option<u32>)
    ensures
        r == spelled_u32(text@),
{
    match parse_number(text, u32::MAX as u64) {
        Some(v) => Some(v as u32),
        None => None,
    }
}

/// Reads an unsigned 64-bit number.
pub fn parse_u64(text: &str) -> (r: Option<u64>)
    ensures
        r == spelled_u64(text@),
{
    parse_number(text, u64::MAX)
}

/// A copy of an optional text.
pub(crate) fn copy_optional(text: &Option<String>) -> (r: Option<String>)
    ensures
        r == *text,
{
    match text {
        Some(value) => Some(value.clone()),
        None => None,
    }
}

} // verus!
