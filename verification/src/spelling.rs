//! What texts say of numbers, and how they are ordered, cut and filled in.
use crate::accuracy::{gap, law_nearest_is_closest, lemma_half_step};
use crate::contract::{percent, HUNDRED_BITS};
use crate::decimal::{decimal_steps, fixed, ten_to};
use crate::domain::{rarity_name, Float32Value, PlannerError, Rarity};
use crate::float32::{magnitude_units, product, signed, Float32};
use crate::float64::{narrowed, Float64};
use crate::market::{lemma_encode_concat, leading_literal, literal_end, replaced, replaced_from};
use crate::numerals::{
    decimal_magnitude, digits_end, exponent_of, is_digit, numeral_of, spelled_float,
};
use crate::rounding::{nearest, INFINITE_MAGNITUDE};
use crate::slices::{first_match, stands_at};
use crate::text::{
    bytes_before, decimal, digit, digits_value, padded, spelled_u64, text_before, trimmed, trimmed_end,
    trimmed_start, white_space,
};
use vstd::arithmetic::power2::{lemma_pow2_pos, pow2};
use vstd::prelude::*;
use vstd::utf8::{encode_utf8, encode_utf8_decode_utf8, is_ascii_chars, is_ascii_chars_encode_utf8};

verus! {

/// A text of decimal digits.
pub open spec fn all_digits(text: Seq<char>) -> bool {
    forall|i: int| 0 <= i < text.len() ==> '0' <= #[trigger] text[i] <= '9'
}

/// The bytes of decimal digits are decimal digits.
proof fn lemma_digit_bytes(text: Seq<char>)
    requires
        all_digits(text),
    ensures
        encode_utf8(text).len() == text.len(),
        forall|i: int|
            0 <= i < text.len() ==> #[trigger] encode_utf8(text)[i] == text[i] as u8 && is_digit(
                encode_utf8(text)[i],
            ),
{
    assert(is_ascii_chars(text)) by {
        assert forall|i: int| 0 <= i < text.len() implies '\0' <= #[trigger] text[i] <= '\u{7f}' by {
            assert('0' <= text[i] <= '9');
        }
    }
    is_ascii_chars_encode_utf8(text);
    assert forall|i: int| 0 <= i < text.len() implies #[trigger] encode_utf8(text)[i]
        == text[i] as u8 && is_digit(encode_utf8(text)[i]) by {
        assert('0' <= text[i] <= '9');
    }
}

/// A number in decimal digits.
proof fn lemma_decimal_digits(n: nat)
    ensures
        all_digits(decimal(n)),
        decimal(n).len() > 0,
        digits_value(encode_utf8(decimal(n))) == Some(n),
    decreases n,
{
    let text = decimal(n);
    if n < 10 {
        lemma_digit_bytes(text);
        let bytes = encode_utf8(text);
        assert(bytes.drop_last() =~= Seq::empty());
        assert(digits_value(Seq::<u8>::empty()) == Some(0nat));
        assert(bytes.last() == bytes[0]);
        assert(text[0] == digit(n));
    } else {
        lemma_decimal_digits(n / 10);
        let front = decimal(n / 10);
        assert forall|i: int| 0 <= i < text.len() implies '0' <= #[trigger] text[i] <= '9' by {
            if i < front.len() {
                assert(text[i] == front[i]);
            }
        }
        lemma_digit_bytes(text);
        lemma_digit_bytes(front);
        let bytes = encode_utf8(text);
        assert(bytes.drop_last() =~= encode_utf8(front)) by {
            assert forall|i: int| 0 <= i < front.len() implies bytes[i] == encode_utf8(front)[i] by {
                assert(text[i] == front[i]);
                assert(bytes[i] == text[i] as u8);
                assert(encode_utf8(front)[i] == front[i] as u8);
            }
        }
        assert(text[text.len() - 1] == digit(n % 10));
        assert(bytes.last() == bytes[text.len() - 1]);
    }
}

/// A number is read back from its digits.
pub proof fn law_digits_read_back(n: nat)
    requires
        n <= u64::MAX,
    ensures
        spelled_u64(decimal(n)) == Some(n as u64),
        all_digits(decimal(n)),
        n > 0 ==> decimal(n)[0] != '0',
{
    lemma_decimal_digits(n);
    lemma_digit_bytes(decimal(n));
    lemma_no_leading_zero(n);
    assert(is_digit(encode_utf8(decimal(n))[0]));
}

proof fn lemma_no_leading_zero(n: nat)
    ensures
        n > 0 ==> decimal(n)[0] != '0',
        decimal(n).len() > 0,
    decreases n,
{
    if n >= 10 {
        lemma_no_leading_zero(n / 10);
    }
}

/// Padded digits are as many as asked for, and have the value.
proof fn lemma_padded_digits(n: nat, width: nat)
    requires
        n < ten_to(width),
    ensures
        padded(n, 10, width).len() == width,
        all_digits(padded(n, 10, width)),
        digits_value(encode_utf8(padded(n, 10, width))) == Some(n),
    decreases width,
{
    let text = padded(n, 10, width);
    if width == 0 {
        lemma_digit_bytes(text);
        assert(encode_utf8(text) =~= Seq::empty());
        assert(ten_to(0) == 1);
    } else {
        let front = padded(n / 10, 10, (width - 1) as nat);
        assert(ten_to(width) == 10 * ten_to((width - 1) as nat));
        lemma_padded_digits(n / 10, (width - 1) as nat);
        assert forall|i: int| 0 <= i < text.len() implies '0' <= #[trigger] text[i] <= '9' by {
            if i < front.len() {
                assert(text[i] == front[i]);
            }
        }
        lemma_digit_bytes(text);
        lemma_digit_bytes(front);
        let bytes = encode_utf8(text);
        assert(bytes.drop_last() =~= encode_utf8(front)) by {
            assert forall|i: int| 0 <= i < front.len() implies bytes[i] == encode_utf8(front)[i] by {
                assert(text[i] == front[i]);
                assert(bytes[i] == text[i] as u8);
                assert(encode_utf8(front)[i] == front[i] as u8);
            }
        }
        assert(text[text.len() - 1] == digit(n % 10));
        assert(bytes.last() == bytes[text.len() - 1]);
    }
}

/// A number that is shown with a point is shown by digits before it, so many behind it, and
/// a sign in front where it is negative; what they say is no more than half of the last
/// place off.
pub proof fn law_shown_number(x: Float32, places: nat) -> (parts: (Seq<char>, Seq<char>))
    requires
        x.finite(),
        places > 0,
    ensures
        fixed(x, places) == (if x.negative() {
            "-"@
        } else {
            ""@
        }) + parts.0 + "."@ + parts.1,
        all_digits(parts.0),
        parts.0.len() > 0,
        all_digits(parts.1),
        parts.1.len() == places,
        ({
            let whole = digits_value(encode_utf8(parts.0))->0;
            let fraction = digits_value(encode_utf8(parts.1))->0;
            2 * gap(
                ((whole * ten_to(places) + fraction) * pow2(149)) as int,
                (magnitude_units(x.magnitude()) * ten_to(places)) as int,
            ) <= pow2(149)
        }),
{
    let t = ten_to(places);
    let steps = decimal_steps(x.magnitude(), places);
    lemma_ten_to_pos(places);
    lemma_pow2_pos(149);
    lemma_half_step(magnitude_units(x.magnitude()) * t, pow2(149));
    assert(steps % t < t && steps == (steps / t) * t + steps % t) by (nonlinear_arith)
        requires
            t > 0,
    ;
    lemma_decimal_digits(steps / t);
    lemma_padded_digits(steps % t, places);
    (decimal(steps / t), padded(steps % t, 10, places))
}

proof fn lemma_ten_to_pos(places: nat)
    ensures
        ten_to(places) > 0,
    decreases places,
{
    if places > 0 {
        lemma_ten_to_pos((places - 1) as nat);
    }
}

/// A probability is shown as a percentage with two places.
pub proof fn law_shown_percentage(p: Float32) -> (parts: (Seq<char>, Seq<char>))
    requires
        product(p, Float32 { bits: HUNDRED_BITS }).finite(),
        !product(p, Float32 { bits: HUNDRED_BITS }).negative(),
    ensures
        percent(p) == parts.0 + "."@ + parts.1 + "%"@,
        all_digits(parts.0),
        all_digits(parts.1),
        parts.1.len() == 2,
        ({
            let whole = digits_value(encode_utf8(parts.0))->0;
            let fraction = digits_value(encode_utf8(parts.1))->0;
            let hundredfold = product(p, Float32 { bits: HUNDRED_BITS }).units();
            2 * gap(((whole * 100 + fraction) * pow2(149)) as int, hundredfold * 100) <= pow2(149)
        }),
{
    let x = product(p, Float32 { bits: HUNDRED_BITS });
    let parts = law_shown_number(x, 2);
    reveal_strlit("");
    assert(ten_to(0) == 1 && ten_to(1) == 10 * ten_to(0) && ten_to(2) == 10 * ten_to(1));
    assert(ten_to(2) == 100);
    assert(""@ =~= Seq::empty());
    assert(percent(p) =~= parts.0 + "."@ + parts.1 + "%"@);
    parts
}

/// Digits behind digits.
proof fn lemma_digits_concat(a: Seq<u8>, b: Seq<u8>)
    requires
        digits_value(a) is Some,
        digits_value(b) is Some,
    ensures
        digits_value(a + b) == Some(
            (digits_value(a)->0 * ten_to(b.len()) + digits_value(b)->0) as nat,
        ),
    decreases b.len(),
{
    if b.len() == 0 {
        let v = digits_value(a)->0;
        assert(a + b =~= a);
        assert(ten_to(b.len()) == 1);
        assert(v * 1 == v);
        assert(digits_value(b)->0 == 0);
    } else {
        let front = b.drop_last();
        assert((a + b).drop_last() =~= a + front);
        assert((a + b).last() == b.last());
        lemma_digits_concat(a, front);
        let (v, w, t) = (digits_value(a)->0, digits_value(front)->0, ten_to(front.len()));
        assert(ten_to(b.len()) == 10 * t);
        assert((v * t + w) * 10 == v * (10 * t) + w * 10) by (nonlinear_arith);
        assert(digits_value(b)->0 == w * 10 + (b.last() - 48));
        assert(digits_value(a + b)->0 == (v * t + w) * 10 + (b.last() - 48));
    }
}

/// Digits end where the text does.
proof fn lemma_digits_run(bytes: Seq<u8>, i: int, end: int)
    requires
        0 <= i <= end <= bytes.len(),
        forall|j: int| i <= j < end ==> is_digit(#[trigger] bytes[j]),
        end < bytes.len() ==> !is_digit(bytes[end]),
    ensures
        digits_end(bytes, i) == end,
    decreases end - i,
{
    if i < end {
        assert(is_digit(bytes[i]));
        lemma_digits_run(bytes, i + 1, end);
    }
}

/// Bytes of digits have a value.
proof fn lemma_digits_valued(bytes: Seq<u8>)
    requires
        forall|j: int| 0 <= j < bytes.len() ==> is_digit(#[trigger] bytes[j]),
    ensures
        digits_value(bytes) is Some,
    decreases bytes.len(),
{
    if bytes.len() > 0 {
        let front = bytes.drop_last();
        assert forall|j: int| 0 <= j < front.len() implies is_digit(#[trigger] front[j]) by {
            assert(front[j] == bytes[j]);
        }
        lemma_digits_valued(front);
        assert(is_digit(bytes[bytes.len() - 1]));
    }
}

/// A float that is spelled with a point is the number nearest to what it says.
pub proof fn law_spelled_number(whole: Seq<char>, fraction: Seq<char>)
    requires
        all_digits(whole),
        whole.len() > 0,
        all_digits(fraction),
    ensures
        ({
            let t = ten_to(fraction.len());
            let w = digits_value(encode_utf8(whole))->0;
            let f = digits_value(encode_utf8(fraction))->0;
            let m = nearest(((w * t + f) * pow2(149)) as nat, t);
            &&& spelled_float(whole + "."@ + fraction) == Some(signed(false, m))
            &&& spelled_float("-"@ + (whole + "."@ + fraction)) == Some(signed(true, m))
        }),
{
    let text = whole + "."@ + fraction;
    let (a, b) = (encode_utf8(whole), encode_utf8(fraction));
    let (bytes, n) = (encode_utf8(text), whole.len() as int);
    let t = ten_to(fraction.len());
    reveal_strlit(".");
    reveal_strlit("-");
    lemma_digit_bytes(whole);
    lemma_digit_bytes(fraction);
    assert("."@.len() == 1 && "."@[0] == '.');
    assert(is_ascii_chars("."@));
    is_ascii_chars_encode_utf8("."@);
    assert(encode_utf8("."@) =~= seq![46u8]);
    lemma_encode_concat(whole, "."@);
    lemma_encode_concat(whole + "."@, fraction);
    assert(bytes =~= a + seq![46u8] + b);
    assert forall|j: int| 0 <= j < a.len() implies is_digit(#[trigger] a[j]) by {
        assert(encode_utf8(whole)[j] == whole[j] as u8);
    }
    assert forall|j: int| 0 <= j < b.len() implies is_digit(#[trigger] b[j]) by {
        assert(encode_utf8(fraction)[j] == fraction[j] as u8);
    }
    lemma_digits_valued(a);
    lemma_digits_valued(b);
    assert forall|j: int| 0 <= j < n implies is_digit(#[trigger] bytes[j]) by {
        assert(bytes[j] == a[j]);
    }
    assert forall|j: int| n + 1 <= j < bytes.len() implies is_digit(#[trigger] bytes[j]) by {
        assert(bytes[j] == b[j - n - 1]);
    }
    assert(bytes[n] == 46);
    lemma_digits_run(bytes, 0, n);
    lemma_digits_run(bytes, n + 1, bytes.len() as int);
    assert(bytes.take(n) =~= a);
    assert(bytes.subrange(n + 1, bytes.len() as int) =~= b);
    lemma_digits_concat(a, b);
    assert(numeral_of(bytes) == Some((a + b, -(fraction.len() as int))));
    assert(is_digit(bytes[0]));
    let v = digits_value(a + b)->0;
    assert(v * 1 == v);
    assert(ten_to(0) == 1);
    assert("-"@.len() == 1 && "-"@[0] == '-');
    assert(is_ascii_chars("-"@));
    is_ascii_chars_encode_utf8("-"@);
    assert(encode_utf8("-"@) =~= seq![45u8]);
    lemma_encode_concat("-"@, text);
    let with_sign = encode_utf8("-"@ + text);
    assert(with_sign.drop_first() =~= bytes);
}

/// Texts stand in the order of the first bytes in which they differ; the beginning of a
/// text stands before it.
pub proof fn law_order_of_bytes(a: Seq<u8>, b: Seq<u8>, n: int)
    requires
        0 <= n <= a.len(),
        n < b.len(),
        forall|i: int| 0 <= i < n ==> #[trigger] a[i] == b[i],
    ensures
        n == a.len() ==> bytes_before(a, b) && !bytes_before(b, a),
        n < a.len() && a[n] < b[n] ==> bytes_before(a, b) && !bytes_before(b, a),
        n < a.len() && b[n] < a[n] ==> bytes_before(b, a) && !bytes_before(a, b),
    decreases n,
{
    if n > 0 {
        assert(a[0] == b[0]);
        let (x, y) = (a.drop_first(), b.drop_first());
        assert forall|i: int| 0 <= i < n - 1 implies #[trigger] x[i] == y[i] by {
            assert(a[i + 1] == b[i + 1]);
        }
        law_order_of_bytes(x, y, n - 1);
        if n < a.len() {
            assert(x[n - 1] == a[n] && y[n - 1] == b[n]);
        }
    }
}

/// Blanks at both ends are cut off, and nothing else.
pub proof fn law_trimmed(before: Seq<char>, text: Seq<char>, after: Seq<char>)
    requires
        forall|i: int| 0 <= i < before.len() ==> white_space(#[trigger] before[i]),
        forall|i: int| 0 <= i < after.len() ==> white_space(#[trigger] after[i]),
        text.len() > 0,
        !white_space(text[0]),
        !white_space(text.last()),
    ensures
        trimmed(before + text + after) == text,
{
    lemma_trimmed_start(before, text + after);
    assert(before + text + after =~= before + (text + after));
    assert((text + after)[0] == text[0]);
    lemma_trimmed_end(text, after);
}

proof fn lemma_trimmed_start(before: Seq<char>, text: Seq<char>)
    requires
        forall|i: int| 0 <= i < before.len() ==> white_space(#[trigger] before[i]),
        text.len() > 0,
        !white_space(text[0]),
    ensures
        trimmed_start(before + text) == text,
    decreases before.len(),
{
    let all = before + text;
    if before.len() > 0 {
        assert(white_space(before[0]));
        let rest = before.drop_first();
        assert(all.drop_first() =~= rest + text);
        assert forall|i: int| 0 <= i < rest.len() implies white_space(#[trigger] rest[i]) by {
            assert(rest[i] == before[i + 1]);
        }
        lemma_trimmed_start(rest, text);
    } else {
        assert(all =~= text);
    }
}

proof fn lemma_trimmed_end(text: Seq<char>, after: Seq<char>)
    requires
        forall|i: int| 0 <= i < after.len() ==> white_space(#[trigger] after[i]),
        text.len() > 0,
        !white_space(text.last()),
    ensures
        trimmed_end(text + after) == text,
    decreases after.len(),
{
    let all = text + after;
    if after.len() > 0 {
        assert(white_space(after[after.len() - 1]));
        let rest = after.drop_last();
        assert(all.drop_last() =~= text + rest);
        assert forall|i: int| 0 <= i < rest.len() implies white_space(#[trigger] rest[i]) by {
            assert(rest[i] == after[i]);
        }
        lemma_trimmed_end(text, rest);
    } else {
        assert(all =~= text);
    }
}

/// A number of the larger format becomes the nearest of the smaller: none is closer. Here
/// the value is `n / d`, in units of `2^-149`.
pub proof fn law_narrowed_is_closest(x: Float64, m: nat)
    requires
        x.exponent() != 0x7ff,
        narrowed(x).finite(),
        m < INFINITE_MAGNITUDE,
    ensures
        ({
            let s = x.exponent() - (if x.exponent() == 0 {
                925int
            } else {
                926
            });
            let n = x.significand() * pow2(
                (if s > 0 {
                    s
                } else {
                    0
                }) as nat,
            );
            let d = pow2(
                (if s < 0 {
                    -s
                } else {
                    0
                }) as nat,
            );
            &&& gap(
                magnitude_units(narrowed(x).magnitude()) * d as int,
                n as int,
            ) <= gap(magnitude_units(m) * d as int, n as int)
            &&& narrowed(x).negative() == (x.bits >= 0x8000_0000_0000_0000)
        }),
{
    let s = x.scale();
    let n = x.significand() * pow2(
        (if s > 0 {
            s
        } else {
            0
        }) as nat,
    );
    let d = pow2(
        (if s < 0 {
            -s
        } else {
            0
        }) as nat,
    );
    lemma_pow2_pos(
        (if s < 0 {
            -s
        } else {
            0
        }) as nat,
    );
    assert(1 * d == d);
    crate::float32::lemma_nearest_bound(n, d);
    law_nearest_is_closest(n, d, m);
}

/// A placeholder that stands once is filled in, and all the rest stays.
pub proof fn law_placeholder_is_filled(
    before: Seq<char>,
    part: Seq<char>,
    after: Seq<char>,
    by: Seq<char>,
)
    requires
        encode_utf8(part).len() > 0,
        forall|i: int|
            0 <= i < encode_utf8(before).len() ==> !(#[trigger] stands_at(
                encode_utf8(before + part + after),
                encode_utf8(part),
                i,
            )),
        forall|i: int|
            encode_utf8(before + part).len() <= i ==> !(#[trigger] stands_at(
                encode_utf8(before + part + after),
                encode_utf8(part),
                i,
            )),
    ensures
        replaced(before + part + after, part, by) == before + by + after,
{
    let (b, p, a, v) = (
        encode_utf8(before),
        encode_utf8(part),
        encode_utf8(after),
        encode_utf8(by),
    );
    let bytes = encode_utf8(before + part + after);
    lemma_encode_concat(before, part);
    lemma_encode_concat(before + part, after);
    assert(bytes =~= b + p + a);
    let n = b.len() as int;
    assert(bytes.subrange(n, n + p.len()) =~= p);
    lemma_first_found(bytes, p, 0, n);
    lemma_none_found(bytes, p, n + p.len());
    assert(bytes.subrange(0, n) =~= b);
    assert(bytes.subrange(n + p.len(), bytes.len() as int) =~= a);
    assert(replaced_from(bytes, p, v, n + p.len()) == a);
    assert(replaced_from(bytes, p, v, 0) =~= b + v + a);
    lemma_encode_concat(before, by);
    lemma_encode_concat(before + by, after);
    assert(encode_utf8(before + by + after) =~= b + v + a);
    encode_utf8_decode_utf8(before + by + after);
}

pub(crate) proof fn lemma_first_found(bytes: Seq<u8>, needle: Seq<u8>, from: int, at: int)
    requires
        0 <= from <= at <= bytes.len(),
        stands_at(bytes, needle, at),
        forall|i: int| from <= i < at ==> !(#[trigger] stands_at(bytes, needle, i)),
    ensures
        first_match(bytes, needle, from) == Some(at),
    decreases at - from,
{
    if from < at {
        assert(!stands_at(bytes, needle, from));
        lemma_first_found(bytes, needle, from + 1, at);
    }
}

proof fn lemma_none_found(bytes: Seq<u8>, needle: Seq<u8>, from: int)
    requires
        0 <= from,
        forall|i: int| from <= i ==> !(#[trigger] stands_at(bytes, needle, i)),
    ensures
        first_match(bytes, needle, from) is None,
    decreases bytes.len() - from + 1,
{
    if from <= bytes.len() {
        assert(!stands_at(bytes, needle, from));
        lemma_none_found(bytes, needle, from + 1);
    }
}

/// A string literal ends at the first quote that no backslash stands before: bytes without
/// either are skipped, and so is whatever stands behind a backslash.
pub proof fn law_literal_ends(plain: Seq<u8>, escaped: u8, more: Seq<u8>, rest: Seq<u8>)
    requires
        forall|i: int| 0 <= i < plain.len() ==> #[trigger] plain[i] != 34 && plain[i] != 92,
        forall|i: int| 0 <= i < more.len() ==> #[trigger] more[i] != 34 && more[i] != 92,
    ensures
        leading_literal(seq![34u8] + plain + seq![34u8] + rest) == Ok::<Seq<u8>, Seq<char>>(
            seq![34u8] + plain + seq![34u8],
        ),
        leading_literal(
            seq![34u8] + plain + seq![92u8, escaped] + more + seq![34u8] + rest,
        ) == Ok::<Seq<u8>, Seq<char>>(
            seq![34u8] + plain + seq![92u8, escaped] + more + seq![34u8],
        ),
{
    let n = plain.len() as int;
    let a = seq![34u8] + plain + seq![34u8] + rest;
    assert forall|i: int| 1 <= i < 1 + n implies #[trigger] a[i] != 34 && a[i] != 92 by {
        assert(a[i] == plain[i - 1]);
    }
    lemma_literal_skips(a, 1, 1 + n);
    assert(a[1 + n] == 34);
    assert(a.take(n + 2) =~= seq![34u8] + plain + seq![34u8]);
    let b = seq![34u8] + plain + seq![92u8, escaped] + more + seq![34u8] + rest;
    let m = more.len() as int;
    assert forall|i: int| 1 <= i < 1 + n implies #[trigger] b[i] != 34 && b[i] != 92 by {
        assert(b[i] == plain[i - 1]);
    }
    lemma_literal_skips(b, 1, 1 + n);
    assert(b[1 + n] == 92);
    assert forall|i: int| 3 + n <= i < 3 + n + m implies #[trigger] b[i] != 34 && b[i] != 92 by {
        assert(b[i] == more[i - 3 - n]);
    }
    lemma_literal_skips(b, 3 + n, 3 + n + m);
    assert(b[3 + n + m] == 34);
    assert(literal_end(b, 1 + n, false) == literal_end(b, 2 + n, true));
    assert(literal_end(b, 2 + n, true) == literal_end(b, 3 + n, false));
    assert(b.take(n + m + 4) =~= seq![34u8] + plain + seq![92u8, escaped] + more + seq![34u8]);
}

proof fn lemma_literal_skips(bytes: Seq<u8>, i: int, to: int)
    requires
        0 <= i <= to < bytes.len(),
        forall|j: int| i <= j < to ==> #[trigger] bytes[j] != 34 && bytes[j] != 92,
    ensures
        literal_end(bytes, i, false) == literal_end(bytes, to, false),
    decreases to - i,
{
    if i < to {
        assert(bytes[i] != 34 && bytes[i] != 92);
        lemma_literal_skips(bytes, i + 1, to);
    }
}

/// A number is shown with its bits and with nine places behind the point.
pub proof fn law_number_is_shown(x: Float32, shown: Float32Value) -> (parts: (Seq<char>, Seq<char>))
    requires
        x.finite(),
        call_ensures(Float32Value::new, (x,), shown),
    ensures
        shown.value == x,
        shown.bits == x.bits,
        shown.display@ == (if x.negative() {
            "-"@
        } else {
            ""@
        }) + parts.0 + "."@ + parts.1,
        all_digits(parts.0),
        all_digits(parts.1),
        parts.1.len() == 9,
        ({
            let whole = digits_value(encode_utf8(parts.0))->0;
            let fraction = digits_value(encode_utf8(parts.1))->0;
            2 * gap(
                ((whole * 1_000_000_000 + fraction) * pow2(149)) as int,
                (magnitude_units(x.magnitude()) * 1_000_000_000) as int,
            ) <= pow2(149)
        }),
{
    let parts = law_shown_number(x, 9);
    reveal_with_fuel(ten_to, 10);
    assert(ten_to(9) == 1_000_000_000);
    parts
}

/// The names of rarities tell them apart.
pub proof fn law_rarity_names_differ(a: Rarity, b: Rarity)
    requires
        rarity_name(a) == rarity_name(b),
    ensures
        a == b,
{
    reveal_strlit("Consumer");
    reveal_strlit("Industrial");
    reveal_strlit("MilSpec");
    reveal_strlit("Restricted");
    reveal_strlit("Classified");
    reveal_strlit("Covert");
    reveal_strlit("Extraordinary");
    assert("Consumer"@.len() == 8 && "Industrial"@.len() == 10 && "MilSpec"@.len() == 7
        && "Restricted"@.len() == 10 && "Classified"@.len() == 10 && "Covert"@.len() == 6
        && "Extraordinary"@.len() == 13);
    assert("Industrial"@[0] == 'I' && "Restricted"@[0] == 'R' && "Classified"@[0] == 'C');
}

/// What was wrong with a request is shown as it is; what is wrong inside is marked.
pub proof fn law_error_texts(error: PlannerError, r: String)
    requires
        call_ensures(PlannerError::to_text, (&error,), r),
    ensures
        error matches PlannerError::Validation(text) ==> r@ == text@,
        error matches PlannerError::Catalog(text) ==> r@.len() > text@.len() && r@.subrange(
            r@.len() - text@.len(),
            r@.len() as int,
        ) == text@,
{
    reveal_strlit("internal catalog error: ");
    if let PlannerError::Catalog(text) = error {
        assert("internal catalog error: "@.len() == 24);
        assert(r@.subrange(r@.len() - text@.len(), r@.len() as int) =~= text@);
    }
}

/// Texts stand in the order of the first characters in which they differ, as far as these are
/// ASCII; the beginning of a text stands before it.
pub proof fn law_order_of_texts(
    common: Seq<char>,
    x: char,
    y: char,
    rest: Seq<char>,
    other: Seq<char>,
)
    requires
        x < y <= '\u{7f}',
    ensures
        text_before(common + seq![x] + rest, common + seq![y] + other),
        !text_before(common + seq![y] + other, common + seq![x] + rest),
        text_before(common, common + seq![x] + rest),
        !text_before(common + seq![x] + rest, common),
{
    let (c, r, o) = (encode_utf8(common), encode_utf8(rest), encode_utf8(other));
    let (a, b) = (common + seq![x] + rest, common + seq![y] + other);
    lemma_encode_concat(common, seq![x]);
    lemma_encode_concat(common + seq![x], rest);
    lemma_encode_concat(common, seq![y]);
    lemma_encode_concat(common + seq![y], other);
    assert(is_ascii_chars(seq![x]) && is_ascii_chars(seq![y]));
    is_ascii_chars_encode_utf8(seq![x]);
    is_ascii_chars_encode_utf8(seq![y]);
    assert(encode_utf8(seq![x]) =~= seq![seq![x][0] as u8]);
    assert(encode_utf8(seq![y]) =~= seq![seq![y][0] as u8]);
    assert(encode_utf8(a) =~= c + seq![x as u8] + r);
    assert(encode_utf8(b) =~= c + seq![y as u8] + o);
    law_order_of_bytes(encode_utf8(a), encode_utf8(b), c.len() as int);
    law_order_of_bytes(c, encode_utf8(a), c.len() as int);
}

/// What is no number stays none when it is narrowed, and what is infinite stays infinite.
pub proof fn law_narrowed_special(x: Float64)
    requires
        x.exponent() == 0x7ff,
    ensures
        x.fraction() == 0 ==> narrowed(x).infinite() && narrowed(x).negative() == x.negative(),
        x.fraction() != 0 ==> narrowed(x).nan(),
{
}

/// An exponent moves the point: behind `e` to the right, behind `e-` to the left.
pub proof fn law_spelled_exponent(whole: Seq<char>, power: Seq<char>)
    requires
        all_digits(whole),
        whole.len() > 0,
        all_digits(power),
        power.len() > 0,
    ensures
        ({
            let w = digits_value(encode_utf8(whole))->0;
            let t = ten_to(digits_value(encode_utf8(power))->0);
            &&& spelled_float(whole + "e"@ + power) == Some(
                signed(false, nearest((w * t * pow2(149)) as nat, 1)),
            )
            &&& spelled_float(whole + "e-"@ + power) == Some(
                signed(false, nearest((w * pow2(149)) as nat, t)),
            )
        }),
{
    reveal_strlit("e");
    reveal_strlit("e-");
    assert("e"@ =~= seq!['e']);
    assert("e-"@ =~= seq!['e', '-']);
    assert(is_ascii_chars("e"@) && is_ascii_chars("e-"@));
    is_ascii_chars_encode_utf8("e"@);
    is_ascii_chars_encode_utf8("e-"@);
    assert(encode_utf8("e"@) =~= seq![101u8]);
    assert(encode_utf8("e-"@) =~= seq![101u8, 45u8]);
    lemma_exponent(whole, "e"@, power, seq![101u8]);
    lemma_exponent(whole, "e-"@, power, seq![101u8, 45u8]);
    let w = digits_value(encode_utf8(whole))->0;
    assert(ten_to(0) == 1);
    assert(w * 1 == w);
}

proof fn lemma_exponent(whole: Seq<char>, sign: Seq<char>, power: Seq<char>, s: Seq<u8>)
    requires
        all_digits(whole),
        whole.len() > 0,
        all_digits(power),
        power.len() > 0,
        encode_utf8(sign) == s,
        s == seq![101u8] || s == seq![101u8, 45u8],
    ensures
        digits_value(encode_utf8(whole)) is Some,
        digits_value(encode_utf8(power)) is Some,
        spelled_float(whole + sign + power) == Some(
            signed(
                false,
                decimal_magnitude(
                    digits_value(encode_utf8(whole))->0,
                    if s.len() == 2 {
                        -(digits_value(encode_utf8(power))->0 as int)
                    } else {
                        digits_value(encode_utf8(power))->0 as int
                    },
                ),
            ),
        ),
{
    let (a, b) = (encode_utf8(whole), encode_utf8(power));
    let text = whole + sign + power;
    let (bytes, n, m) = (encode_utf8(text), whole.len() as int, s.len() as int);
    lemma_digit_bytes(whole);
    lemma_digit_bytes(power);
    lemma_encode_concat(whole, sign);
    lemma_encode_concat(whole + sign, power);
    assert(bytes =~= a + s + b);
    assert forall|j: int| 0 <= j < a.len() implies is_digit(#[trigger] a[j]) by {
        assert(encode_utf8(whole)[j] == whole[j] as u8);
    }
    assert forall|j: int| 0 <= j < b.len() implies is_digit(#[trigger] b[j]) by {
        assert(encode_utf8(power)[j] == power[j] as u8);
    }
    lemma_digits_valued(a);
    lemma_digits_valued(b);
    assert forall|j: int| 0 <= j < n implies is_digit(#[trigger] bytes[j]) by {
        assert(bytes[j] == a[j]);
    }
    assert forall|j: int| n + m <= j < bytes.len() implies is_digit(#[trigger] bytes[j]) by {
        assert(bytes[j] == b[j - n - m]);
    }
    assert(bytes[n] == 101);
    if m == 2 {
        assert(bytes[n + 1] == 45);
    } else {
        assert(is_digit(bytes[n + 1]));
    }
    lemma_digits_run(bytes, 0, n);
    lemma_digits_run(bytes, n + m, bytes.len() as int);
    assert(bytes.take(n) =~= a);
    assert(a + Seq::<u8>::empty() =~= a);
    assert(bytes.skip(n + m) =~= b);
    assert(is_digit(bytes[0]));
    let e = if m == 2 {
        -(digits_value(b)->0 as int)
    } else {
        digits_value(b)->0 as int
    };
    assert(exponent_of(bytes, n + 1) == Some(e));
    assert(numeral_of(bytes) == Some((a, e)));
}

} // verus!
