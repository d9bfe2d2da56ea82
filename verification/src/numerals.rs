//! Reading single-precision numbers from decimal text.
use crate::bignum::{big_minus, big_times, big_value};
use crate::decimal::ten_to;
use crate::float32::{signed, Float32, QUIET_NAN};
use crate::rounding::{
    half_even, in_binade, lemma_binade_exists, lemma_binade_is, lemma_pow2_monotone, nearest,
    positive_part, INFINITE_MAGNITUDE,
};
use crate::text::digits_value;
use vstd::arithmetic::div_mod::lemma_fundamental_div_mod_converse;
use vstd::arithmetic::power2::{
    lemma2_to64, lemma_pow2_adds, lemma_pow2_pos, lemma_pow2_unfold, pow2,
};
use vstd::prelude::*;
use vstd::utf8::encode_utf8;

verus! {

/// Doubling scales by a power of two.
proof fn lemma_doubled(d: nat, e: nat)
    ensures
        d * pow2(e) * 2 == d * pow2(e + 1),
{
    lemma_pow2_unfold(e + 1);
    assert(d * pow2(e) * 2 == d * (2 * pow2(e))) by (nonlinear_arith);
}

/// What reaches the last binade is infinite.
proof fn lemma_infinite(n: nat, d: nat)
    requires
        d > 0,
        d * pow2(278) <= n,
    ensures
        nearest(n, d) == INFINITE_MAGNITUDE,
{
    lemma_binade_exists(n, d);
    let k = crate::rounding::binade(n, d);
    if k < 255 {
        lemma_pow2_monotone(24 + k, 278);
        assert(d * pow2(24 + k) <= d * pow2(278)) by (nonlinear_arith)
            requires
                pow2(24 + k) <= pow2(278),
        ;
    }
}

/// A list of the multiples `d`, `2 * d`, `4 * d` and so on.
fn doublings(d: &Vec<u32>, count: usize) -> (r: Vec<Vec<u32>>)
    ensures
        r@.len() == count,
        forall|j: int|
            0 <= j < count ==> big_value((#[trigger] r@[j])@) == big_value(d@) * pow2(j as nat),
{
    let mut r: Vec<Vec<u32>> = Vec::new();
    let mut current: Vec<u32> = big_times(d, 1, 0);
    proof {
        lemma2_to64();
        assert(big_value(d@) * 1 == big_value(d@));
    }
    while r.len() < count
        invariant
            r@.len() <= count,
            big_value(current@) == big_value(d@) * pow2(r@.len()),
            forall|j: int|
                0 <= j < r@.len() ==> big_value((#[trigger] r@[j])@) == big_value(d@) * pow2(
                    j as nat,
                ),
        decreases count - r@.len(),
    {
        let next: Vec<u32> = big_times(&current, 2, 0);
        proof {
            lemma_doubled(big_value(d@), r@.len());
        }
        r.push(current);
        current = next;
    }
    r
}

/// The quotient and the remainder of numbers whose quotient stays below `2^24`.
fn big_divide(n: &Vec<u32>, d: &Vec<u32>) -> (r: (u64, Vec<u32>))
    requires
        big_value(n@) < big_value(d@) * pow2(24),
    ensures
        big_value(n@) == r.0 * big_value(d@) + big_value(r.1@),
        big_value(r.1@) < big_value(d@),
        r.0 < 0x100_0000,
{
    let multiples: Vec<Vec<u32>> = doublings(d, 24);
    let mut rest: Vec<u32> = big_times(n, 1, 0);
    let mut q: u64 = 0;
    let mut j: usize = 24;
    let ghost (gn, gd) = (big_value(n@), big_value(d@));
    proof {
        lemma2_to64();
        assert(gn * 1 == gn);
        assert(0 * gd == 0);
    }
    while j > 0
        invariant
            j <= 24,
            gd == big_value(d@),
            multiples@.len() == 24,
            forall|i: int|
                0 <= i < 24 ==> big_value((#[trigger] multiples@[i])@) == gd * pow2(i as nat),
            gn == q * gd + big_value(rest@),
            big_value(rest@) < gd * pow2(j as nat),
            q + pow2(j as nat) <= 0x100_0000,
        decreases j,
    {
        j = j - 1;
        let ghost old_rest = big_value(rest@);
        let ghost p = pow2(j as nat);
        proof {
            lemma_doubled(gd, j as nat);
            lemma_pow2_unfold((j + 1) as nat);
            lemma_pow2_pos(j as nat);
            lemma2_to64();
            lemma_pow2_monotone(j as nat, 24);
        }
        if let Some(less) = big_minus(&rest, &multiples[j]) {
            let step: u64 = 1u64 << (j as u64);
            proof {
                vstd::bits::lemma_u64_shl_is_mul(1, j as u64);
                assert(step == p);
                assert((q + p) * gd == q * gd + gd * p) by (nonlinear_arith);
            }
            rest = less;
            q = q + step;
        }
    }
    proof {
        lemma2_to64();
        assert(gd * 1 == gd);
    }
    (q, rest)
}

/// Rounds a quotient of large numbers to the nearest encoded magnitude.
pub(crate) fn round_big(n: &Vec<u32>, d: &Vec<u32>) -> (r: u32)
    requires
        big_value(d@) > 0,
    ensures
        r == nearest(big_value(n@), big_value(d@)),
        r <= INFINITE_MAGNITUDE,
{
    let ghost (gn, gd) = (big_value(n@), big_value(d@));
    let mut upper: Vec<u32> = big_times(d, 0x100_0000, 0);
    let mut step: Vec<u32> = big_times(d, 1, 0);
    let mut k: u64 = 0;
    proof {
        lemma2_to64();
        assert(gd * 1 == gd);
    }
    while k < 255
        invariant_except_break
            k <= 255,
        invariant
            gn == big_value(n@),
            gd == big_value(d@),
            k <= 255,
            big_value(upper@) == gd * pow2((24 + k) as nat),
            big_value(step@) == gd * pow2(k as nat),
            k > 0 ==> gd * pow2((23 + k) as nat) <= gn,
        ensures
            gn < gd * pow2((24 + k) as nat) || k == 255,
        decreases 255 - k,
    {
        if big_minus(n, &upper).is_none() {
            break;
        }
        proof {
            lemma_doubled(gd, (24 + k) as nat);
            lemma_doubled(gd, k as nat);
        }
        upper = big_times(&upper, 2, 0);
        step = big_times(&step, 2, 0);
        k = k + 1;
    }
    if k == 255 {
        proof {
            lemma_infinite(gn, gd);
        }
        return INFINITE_MAGNITUDE;
    }
    proof {
        lemma_binade_is(gn, gd, k as nat);
        lemma_pow2_adds(k as nat, 24);
        lemma_pow2_pos(k as nat);
        assert(gd * (pow2(k as nat) * pow2(24)) == (gd * pow2(k as nat)) * pow2(24))
            by (nonlinear_arith);
    }
    let (q, rest): (u64, Vec<u32>) = big_divide(n, &step);
    let twice: Vec<u32> = big_times(&rest, 2, 0);
    let below: bool = big_minus(&twice, &step).is_none();
    let not_above: bool = big_minus(&step, &twice).is_some();
    proof {
        let (ds, rs) = (big_value(step@), big_value(rest@));
        assert(gn == ds * q + rs) by (nonlinear_arith)
            requires
                gn == q * ds + rs,
        ;
        lemma_fundamental_div_mod_converse(gn as int, ds as int, q as int, rs as int);
    }
    let h: u64 = if below || (not_above && q % 2 == 0) {
        q
    } else {
        q + 1
    };
    let m: u64 = k * 0x80_0000 + h;
    if m < INFINITE_MAGNITUDE as u64 {
        m as u32
    } else {
        INFINITE_MAGNITUDE
    }
}

pub open spec fn is_digit(byte: u8) -> bool {
    48 <= byte <= 57
}

/// Where the digits from `i` on end.
pub open spec fn digits_end(bytes: Seq<u8>, i: int) -> int
    decreases bytes.len() - i,
{
    if i < bytes.len() && is_digit(bytes[i]) {
        digits_end(bytes, i + 1)
    } else {
        i
    }
}

/// The exponent that ends a numeral, from the position behind its letter on.
pub open spec fn exponent_of(bytes: Seq<u8>, i: int) -> Option<int> {
    let signed_exponent = i < bytes.len() && (bytes[i] == 43 || bytes[i] == 45);
    let start = if signed_exponent {
        i + 1
    } else {
        i
    };
    if start < bytes.len() && digits_end(bytes, start) == bytes.len() {
        let value = digits_value(bytes.skip(start))->0 as int;
        Some(
            if signed_exponent && bytes[i] == 45 {
                -value
            } else {
                value
            },
        )
    } else {
        None
    }
}

/// The digits of an unsigned numeral and the power of ten they are scaled by.
pub open spec fn numeral_of(bytes: Seq<u8>) -> Option<(Seq<u8>, int)> {
    let whole = digits_end(bytes, 0);
    let pointed = whole < bytes.len() && bytes[whole] == 46;
    let end = if pointed {
        digits_end(bytes, whole + 1)
    } else {
        whole
    };
    let fraction = if pointed {
        bytes.subrange(whole + 1, end)
    } else {
        Seq::empty()
    };
    let digits = bytes.take(whole) + fraction;
    if digits.len() == 0 {
        None
    } else if end == bytes.len() {
        Some((digits, -(fraction.len() as int)))
    } else if bytes[end] == 101 || bytes[end] == 69 {
        match exponent_of(bytes, end + 1) {
            Some(exponent) => Some((digits, exponent - fraction.len())),
            None => None,
        }
    } else {
        None
    }
}

/// The encoded magnitude nearest to `digits * 10^exponent`.
pub open spec fn decimal_magnitude(digits: nat, exponent: int) -> nat {
    nearest(
        digits * ten_to(positive_part(exponent)) * pow2(149),
        ten_to(positive_part(-exponent)),
    )
}

/// The small letter of a byte.
pub open spec fn lowered(byte: u8) -> u8 {
    if 65 <= byte <= 90 {
        (byte + 32) as u8
    } else {
        byte
    }
}

/// Whether bytes spell a word of small letters, in letters of either case.
pub open spec fn spells(bytes: Seq<u8>, word: Seq<u8>) -> bool {
    bytes.len() == word.len() && forall|i: int|
        0 <= i < bytes.len() ==> lowered(#[trigger] bytes[i]) == word[i]
}

/// `inf`
pub open spec fn word_inf() -> Seq<u8> {
    seq![105u8, 110u8, 102u8]
}

/// `infinity`
pub open spec fn word_infinity() -> Seq<u8> {
    seq![105u8, 110u8, 102u8, 105u8, 110u8, 105u8, 116u8, 121u8]
}

/// `nan`
pub open spec fn word_nan() -> Seq<u8> {
    seq![110u8, 97u8, 110u8]
}

/// The single-precision number that a text spells.
pub open spec fn spelled_float(text: Seq<char>) -> Option<Float32> {
    let bytes = encode_utf8(text);
    let negative = bytes.len() > 0 && bytes[0] == 45;
    let body = if bytes.len() > 0 && (bytes[0] == 43 || bytes[0] == 45) {
        bytes.drop_first()
    } else {
        bytes
    };
    match numeral_of(body) {
        Some((digits, exponent)) => Some(
            signed(negative, decimal_magnitude(digits_value(digits)->0, exponent)),
        ),
        None => if spells(body, word_inf()) || spells(body, word_infinity()) {
            Some(signed(negative, INFINITE_MAGNITUDE as nat))
        } else if spells(body, word_nan()) {
            Some(signed(negative, QUIET_NAN as nat))
        } else {
            None
        },
    }
}

proof fn lemma_ten_to_pow2(e: nat)
    ensures
        ten_to(e) >= pow2(e),
        ten_to(e) > 0,
    decreases e,
{
    if e == 0 {
        lemma2_to64();
    } else {
        lemma_ten_to_pow2((e - 1) as nat);
        lemma_pow2_unfold(e);
    }
}

proof fn lemma_ten_to_adds(a: nat, b: nat)
    ensures
        ten_to(a + b) == ten_to(a) * ten_to(b),
    decreases a,
{
    if a == 0 {
        assert(1 * ten_to(b) == ten_to(b));
    } else {
        lemma_ten_to_adds((a - 1) as nat, b);
        assert((a - 1) as nat + b == (a + b - 1) as nat);
        let (x, y) = (ten_to((a - 1) as nat), ten_to(b));
        assert(10 * (x * y) == (10 * x) * y) by (nonlinear_arith);
    }
}

/// Digits stay below the power of ten of their number.
proof fn lemma_digits_bound(digits: Seq<u8>)
    ensures
        digits_value(digits) matches Some(v) ==> v < ten_to(digits.len()),
    decreases digits.len(),
{
    if digits.len() > 0 {
        lemma_digits_bound(digits.drop_last());
        assert((digits.len() - 1) as nat == digits.drop_last().len());
    }
}

/// A large exponent makes an infinite number.
proof fn lemma_large_exponent(digits: nat, exponent: int)
    requires
        digits > 0,
        exponent >= 400,
    ensures
        decimal_magnitude(digits, exponent) == INFINITE_MAGNITUDE,
{
    let t = ten_to(exponent as nat);
    lemma_ten_to_pow2(exponent as nat);
    lemma_pow2_monotone(278, exponent as nat);
    lemma_pow2_pos(149);
    let p = pow2(149);
    assert(t <= digits * t * p) by (nonlinear_arith)
        requires
            digits >= 1,
            p >= 1,
            t >= 0,
    ;
    assert(1 * pow2(278) == pow2(278));
    lemma_infinite(digits * t * p, 1);
}

/// A small exponent makes zero.
proof fn lemma_small_exponent(digits: nat, count: nat, exponent: int)
    requires
        digits < ten_to(count),
        exponent <= -400 - count,
    ensures
        decimal_magnitude(digits, exponent) == 0,
{
    let x = (-exponent) as nat;
    let d = ten_to(x);
    let n = digits * 1 * pow2(149);
    let c = (x - count) as nat;
    lemma_ten_to_adds(c, count);
    lemma_ten_to_pow2(c);
    lemma_ten_to_pow2(count);
    lemma_ten_to_pow2(x);
    lemma_pow2_monotone(150, c);
    lemma_pow2_unfold(150);
    lemma_pow2_pos(149);
    let (p, u, v) = (pow2(149), ten_to(c), ten_to(count));
    assert(2 * n < d) by (nonlinear_arith)
        requires
            n == digits * 1 * p,
            digits < v,
            d == u * v,
            u >= 2 * p,
            p > 0,
    ;
    lemma2_to64();
    lemma_pow2_pos(24);
    assert(d <= d * pow2(24)) by (nonlinear_arith)
        requires
            pow2(24) >= 1,
    ;
    assert(in_binade(n, d, 0));
    lemma_binade_is(n, d, 0);
    assert(d * 1 == d);
    lemma_fundamental_div_mod_converse(n as int, d as int, 0, n as int);
    assert(half_even(n, d) == 0);
}

/// Multiplies by ten several times.
fn big_scale(limbs: Vec<u32>, count: u128) -> (r: Vec<u32>)
    ensures
        big_value(r@) == big_value(limbs@) * ten_to(count as nat),
{
    let mut r: Vec<u32> = limbs;
    let mut i: u128 = 0;
    let ghost v = big_value(r@);
    proof {
        assert(v * 1 == v);
    }
    while i < count
        invariant
            i <= count,
            big_value(r@) == v * ten_to(i as nat),
        decreases count - i,
    {
        r = big_times(&r, 10, 0);
        proof {
            let t = ten_to(i as nat);
            assert(v * t * 10 == v * (10 * t)) by (nonlinear_arith);
        }
        i = i + 1;
    }
    r
}

/// Multiplies by two several times.
fn big_shift(limbs: Vec<u32>, count: usize) -> (r: Vec<u32>)
    ensures
        big_value(r@) == big_value(limbs@) * pow2(count as nat),
{
    let mut r: Vec<u32> = limbs;
    let mut i: usize = 0;
    let ghost v = big_value(r@);
    proof {
        lemma2_to64();
        assert(v * 1 == v);
    }
    while i < count
        invariant
            i <= count,
            big_value(r@) == v * pow2(i as nat),
        decreases count - i,
    {
        r = big_times(&r, 2, 0);
        proof {
            lemma_doubled(v, i as nat);
        }
        i = i + 1;
    }
    r
}

/// Takes digits into a number.
fn read_digits(start: Vec<u32>, bytes: &[u8], from: usize, to: usize, Ghost(before): Ghost<
    Seq<u8>,
>) -> (r: Vec<u32>)
    requires
        from <= to <= bytes@.len(),
        forall|i: int| from <= i < to ==> is_digit(#[trigger] bytes@[i]),
        digits_value(before) == Some(big_value(start@)),
    ensures
        digits_value(before + bytes@.subrange(from as int, to as int)) == Some(big_value(r@)),
{
    let mut r: Vec<u32> = start;
    let mut i: usize = from;
    proof {
        assert(before + bytes@.subrange(from as int, from as int) =~= before);
    }
    while i < to
        invariant
            from <= i <= to <= bytes@.len(),
            forall|i: int| from <= i < to ==> is_digit(#[trigger] bytes@[i]),
            digits_value(before + bytes@.subrange(from as int, i as int)) == Some(big_value(r@)),
        decreases to - i,
    {
        let digit: u8 = bytes[i];
        proof {
            assert(is_digit(bytes@[i as int]));
            let next = before + bytes@.subrange(from as int, i + 1);
            assert(next.drop_last() =~= before + bytes@.subrange(from as int, i as int));
            assert(next.last() == digit);
        }
        r = big_times(&r, 10, (digit - 48) as u32);
        i = i + 1;
    }
    r
}

/// Where the digits from `i` on end.
fn skip_digits(bytes: &[u8], i: usize) -> (r: usize)
    requires
        i <= bytes@.len(),
    ensures
        r == digits_end(bytes@, i as int),
        i <= r <= bytes@.len(),
        forall|j: int| i <= j < r ==> is_digit(#[trigger] bytes@[j]),
{
    let mut r: usize = i;
    while r < bytes.len() && 48 <= bytes[r] && bytes[r] <= 57
        invariant
            i <= r <= bytes@.len(),
            digits_end(bytes@, i as int) == digits_end(bytes@, r as int),
            forall|j: int| i <= j < r ==> is_digit(#[trigger] bytes@[j]),
        decreases bytes.len() - r,
    {
        r = r + 1;
    }
    r
}

/// Exponents are not told apart from here on.
const EXPONENT_LIMIT: i128 = 0x1_0000_0000_0000_0000_0000;

/// An exponent, or one beyond the limit that stands for it.
spec fn stands_for_exponent(shown: i128, exponent: int) -> bool {
    &&& -EXPONENT_LIMIT <= shown <= EXPONENT_LIMIT
    &&& -EXPONENT_LIMIT < shown < EXPONENT_LIMIT ==> shown == exponent
    &&& shown == EXPONENT_LIMIT ==> exponent >= EXPONENT_LIMIT
    &&& shown == -EXPONENT_LIMIT ==> exponent <= -EXPONENT_LIMIT
}

proof fn lemma_digits_are_some(digits: Seq<u8>)
    requires
        forall|i: int| 0 <= i < digits.len() ==> is_digit(#[trigger] digits[i]),
    ensures
        digits_value(digits) is Some,
    decreases digits.len(),
{
    if digits.len() > 0 {
        assert forall|i: int| 0 <= i < digits.drop_last().len() implies is_digit(
            #[trigger] digits.drop_last()[i],
        ) by {
            assert(digits.drop_last()[i] == digits[i]);
        }
        lemma_digits_are_some(digits.drop_last());
        assert(is_digit(digits[digits.len() - 1]));
    }
}

/// Reads the exponent of a numeral.
fn read_exponent(bytes: &[u8], i: usize) -> (r: Option<i128>)
    requires
        i <= bytes@.len(),
    ensures
        match r {
            Some(shown) => exponent_of(bytes@, i as int) matches Some(exponent)
                && stands_for_exponent(shown, exponent),
            None => exponent_of(bytes@, i as int) is None,
        },
{
    let negative: bool = i < bytes.len() && bytes[i] == 45;
    let start: usize = if i < bytes.len() && (bytes[i] == 43 || bytes[i] == 45) {
        i + 1
    } else {
        i
    };
    if start >= bytes.len() || skip_digits(bytes, start) != bytes.len() {
        return None;
    }
    let ghost digits = bytes@.skip(start as int);
    let mut value: i128 = 0;
    let mut k: usize = start;
    proof {
        assert forall|j: int| 0 <= j < digits.len() implies is_digit(#[trigger] digits[j]) by {
            assert(digits[j] == bytes@[start + j]);
        }
        lemma_digits_are_some(digits);
        assert(digits.take(0) =~= Seq::empty());
    }
    while k < bytes.len()
        invariant
            start <= k <= bytes@.len(),
            digits == bytes@.skip(start as int),
            forall|j: int| 0 <= j < digits.len() ==> is_digit(#[trigger] digits[j]),
            digits_value(digits.take(k - start)) matches Some(v) && stands_for_exponent(
                value,
                v as int,
            ) && value >= 0,
        decreases bytes.len() - k,
    {
        proof {
            assert(digits.take(k - start + 1).drop_last() =~= digits.take(k - start));
            assert(digits.take(k - start + 1).last() == bytes@[k as int]);
            assert(is_digit(digits[k - start]));
        }
        if value < EXPONENT_LIMIT {
            value = value * 10 + (bytes[k] - 48) as i128;
            if value > EXPONENT_LIMIT {
                value = EXPONENT_LIMIT;
            }
        }
        k = k + 1;
    }
    proof {
        assert(digits.take(k - start) =~= digits);
    }
    Some(
        if negative {
            -value
        } else {
            value
        },
    )
}

/// Rounds `digits * 10^exponent`.
fn round_decimal(digits: Vec<u32>, exponent: i128, count: usize, Ghost(exact): Ghost<int>) -> (r: u32)
    requires
        big_value(digits@) < ten_to(count as nat),
        exact == exponent || (exponent >= 400 && exact >= 400) || (exponent < -400 - count
            && exact < -400 - count),
    ensures
        r == decimal_magnitude(big_value(digits@), exact),
        r <= INFINITE_MAGNITUDE,
{
    let ghost value = big_value(digits@);
    let nothing: Vec<u32> = Vec::new();
    if big_minus(&nothing, &digits).is_some() {
        proof {
            let d = ten_to(positive_part(-exact));
            lemma_ten_to_pow2(positive_part(-exact));
            lemma_pow2_pos(24);
            let (t, w) = (ten_to(positive_part(exact)), pow2(149));
            assert(0 * t * w == 0) by (nonlinear_arith);
            assert(0 < d * pow2(24)) by (nonlinear_arith)
                requires
                    d > 0,
                    pow2(24) > 0,
            ;
            assert(in_binade(0, d, 0));
            lemma_binade_is(0, d, 0);
            lemma2_to64();
            assert(d * 1 == d);
            lemma_fundamental_div_mod_converse(0, d as int, 0, 0);
        }
        return 0;
    }
    if exponent >= 400 {
        proof {
            lemma_large_exponent(value, exact);
        }
        return INFINITE_MAGNITUDE;
    }
    if exponent < -400 - count as i128 {
        proof {
            lemma_small_exponent(value, count as nat, exact);
        }
        return 0;
    }
    let mut one: Vec<u32> = Vec::new();
    one.push(1);
    proof {
        assert(one@.drop_first() =~= Seq::empty());
        assert(big_value(one@.drop_first()) == 0);
        assert(big_value(one@) == 1);
        lemma_ten_to_pow2(positive_part(-exact));
        assert(value * 1 == value);
    }
    if exponent >= 0 {
        round_big(&big_shift(big_scale(digits, exponent as u128), 149), &one)
    } else {
        let down: u128 = (-exponent) as u128;
        let scale: Vec<u32> = big_scale(one, down);
        proof {
            assert(1 * ten_to(down as nat) == ten_to(down as nat));
        }
        round_big(&big_shift(digits, 149), &scale)
    }
}

/// Reads the magnitude of an unsigned numeral.
fn read_magnitude(bytes: &[u8]) -> (r: Option<u32>)
    ensures
        match r {
            Some(m) => numeral_of(bytes@) matches Some((digits, exponent)) && m
                == decimal_magnitude(digits_value(digits)->0, exponent) && m
                <= INFINITE_MAGNITUDE,
            None => numeral_of(bytes@) is None,
        },
{
    let whole: usize = skip_digits(bytes, 0);
    let pointed: bool = whole < bytes.len() && bytes[whole] == 46;
    let end: usize = if pointed {
        skip_digits(bytes, whole + 1)
    } else {
        whole
    };
    let places: usize = if pointed {
        end - whole - 1
    } else {
        0
    };
    let ghost fraction = if pointed {
        bytes@.subrange(whole + 1, end as int)
    } else {
        Seq::<u8>::empty()
    };
    let ghost digits = bytes@.take(whole as int) + fraction;
    if whole == 0 && places == 0 {
        return None;
    }
    let exponent: i128 = if end == bytes.len() {
        0
    } else if bytes[end] == 101 || bytes[end] == 69 {
        match read_exponent(bytes, end + 1) {
            Some(exponent) => exponent,
            None => {
                return None;
            },
        }
    } else {
        return None;
    };
    let ghost exact = (numeral_of(bytes@)->0).1;
    proof {
        assert(bytes@.subrange(0, whole as int) =~= bytes@.take(whole as int));
        assert(Seq::<u8>::empty() + bytes@.take(whole as int) =~= bytes@.take(whole as int));
        assert(bytes@.take(whole as int) + Seq::<u8>::empty() =~= bytes@.take(whole as int));
    }
    let head: Vec<u32> = read_digits(Vec::new(), bytes, 0, whole, Ghost(Seq::empty()));
    let number: Vec<u32> = if pointed {
        read_digits(head, bytes, whole + 1, end, Ghost(bytes@.take(whole as int)))
    } else {
        head
    };
    proof {
        assert(digits_value(digits) == Some(big_value(number@)));
        lemma_digits_bound(digits);
        assert(digits.len() == whole + places);
    }
    Some(round_decimal(number, exponent - places as i128, whole + places, Ghost(exact)))
}

fn spells_word(bytes: &[u8], word: &[u8]) -> (r: bool)
    ensures
        r == spells(bytes@, word@),
{
    if bytes.len() != word.len() {
        return false;
    }
    let mut i: usize = 0;
    while i < bytes.len()
        invariant
            i <= bytes@.len(),
            bytes@.len() == word@.len(),
            forall|j: int| 0 <= j < i ==> lowered(#[trigger] bytes@[j]) == word@[j],
        decreases bytes.len() - i,
    {
        let byte: u8 = bytes[i];
        let low: u8 = if 65 <= byte && byte <= 90 {
            byte + 32
        } else {
            byte
        };
        if low != word[i] {
            proof {
                assert(lowered(bytes@[i as int]) != word@[i as int]);
            }
            return false;
        }
        i = i + 1;
    }
    true
}

fn with_sign(negative: bool, m: u32) -> (r: Float32)
    requires
        m <= QUIET_NAN,
    ensures
        r == signed(negative, m as nat),
{
    Float32 {
        bits: if negative {
            0x8000_0000 + m
        } else {
            m
        },
    }
}

/// Reads a single-precision number.
pub fn parse_float(text: &str) -> (r: Option<Float32>)
    ensures
        r == spelled_float(text@),
{
    let bytes: &[u8] = text.as_bytes();
    let negative: bool = bytes.len() > 0 && bytes[0] == 45;
    let body: &[u8] = if bytes.len() > 0 && (bytes[0] == 43 || bytes[0] == 45) {
        vstd::slice::slice_subrange(bytes, 1, bytes.len())
    } else {
        bytes
    };
    proof {
        if bytes@.len() > 0 && (bytes@[0] == 43 || bytes@[0] == 45) {
            assert(body@ =~= bytes@.drop_first());
        }
    }
    if let Some(m) = read_magnitude(body) {
        return Some(with_sign(negative, m));
    }
    let inf: [u8; 3] = [105, 110, 102];
    let infinity: [u8; 8] = [105, 110, 102, 105, 110, 105, 116, 121];
    let nan: [u8; 3] = [110, 97, 110];
    proof {
        assert(inf@ =~= word_inf());
        assert(infinity@ =~= word_infinity());
        assert(nan@ =~= word_nan());
    }
    if spells_word(body, &inf) || spells_word(body, &infinity) {
        Some(with_sign(negative, INFINITE_MAGNITUDE))
    } else if spells_word(body, &nan) {
        Some(with_sign(negative, QUIET_NAN))
    } else {
        None
    }
}

} // verus!
