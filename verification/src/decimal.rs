//! Single-precision numbers in decimal notation with a fixed number of places.
use crate::float32::{lemma_shifted_power, magnitude_units, Float32};
use crate::rounding::{
    half_even, lemma_half_even_exact, lemma_half_even_scale, lemma_pow2_monotone, round_quotient,
    INFINITE_MAGNITUDE,
};
use crate::text::{decimal, decimal_text, padded, padded_text};
use vstd::arithmetic::div_mod::lemma_fundamental_div_mod_converse;
use vstd::arithmetic::power2::{
    lemma2_to64, lemma2_to64_rest, lemma_pow2_adds, lemma_pow2_pos, lemma_pow2_unfold, pow2,
};
use vstd::bits::lemma_u64_shl_is_mul;
use vstd::prelude::*;
use vstd::string::StringExecFns;

verus! {

/// `10^places`.
pub open spec fn ten_to(places: nat) -> nat
    decreases places,
{
    if places == 0 {
        1
    } else {
        10 * ten_to((places - 1) as nat)
    }
}

/// A finite magnitude in steps of `10^-places`, to the nearest, ties to even.
pub open spec fn decimal_steps(m: nat, places: nat) -> nat {
    half_even(magnitude_units(m) * ten_to(places), pow2(149))
}

/// A number written with exactly `places` digits after the point.
pub open spec fn fixed(x: Float32, places: nat) -> Seq<char> {
    if x.nan() {
        "NaN"@
    } else {
        let sign = if x.negative() {
            "-"@
        } else {
            ""@
        };
        if x.infinite() {
            sign + "inf"@
        } else {
            let steps = decimal_steps(x.magnitude(), places);
            sign + decimal(steps / ten_to(places)) + "."@ + padded(
                steps % ten_to(places),
                10,
                places,
            )
        }
    }
}

pub proof fn lemma_ten_to_values()
    ensures
        ten_to(2) == 100,
        ten_to(9) == 1_000_000_000,
{
    reveal_with_fuel(ten_to, 10);
}

/// The whole part and the steps of the fraction of a finite magnitude.
fn whole_and_fraction(m: u32, places: u32, scale: u64) -> (r: (u128, u64))
    requires
        m < INFINITE_MAGNITUDE,
        scale as nat == ten_to(places as nat),
        0 < scale <= 1_000_000_000,
    ensures
        r.0 as nat == decimal_steps(m as nat, places as nat) / scale as nat,
        r.1 as nat == decimal_steps(m as nat, places as nat) % scale as nat,
{
    let g: u64 = if m < 0x80_0000 { m as u64 } else { 0x80_0000 + (m % 0x80_0000) as u64 };
    let k: u32 = if m < 0x80_0000 { 0 } else { m / 0x80_0000 - 1 };
    let ghost steps = decimal_steps(m as nat, places as nat);
    let ghost units = magnitude_units(m as nat);
    if k >= 149 {
        let mut whole: u128 = g as u128;
        let mut e: u32 = 149;
        proof {
            lemma2_to64();
            assert(g * 1 == g);
        }
        while e < k
            invariant
                149 <= e <= k <= 253,
                g < 0x100_0000,
                whole as nat == g as nat * pow2((e - 149) as nat),
            decreases k - e,
        {
            proof {
                lemma_pow2_unfold((e - 149 + 1) as nat);
                lemma_whole_fits(g as nat, (e - 149 + 1) as nat);
                let p = pow2((e - 149) as nat);
                assert(g as nat * (2 * p) == 2 * (g as nat * p)) by (nonlinear_arith);
            }
            whole = whole * 2;
            e = e + 1;
        }
        proof {
            let w = whole as nat;
            let s = scale as nat;
            lemma_shifted_power(g as nat, (k - 149) as nat, 149);
            lemma_pow2_pos(149);
            let p = pow2(149);
            assert((w * p) * s == (w * s) * p) by (nonlinear_arith);
            lemma_half_even_exact(w * s, p);
            lemma_fundamental_div_mod_converse((w * s) as int, s as int, w as int, 0);
        }
        (whole, 0)
    } else {
        let j: u32 = 149 - k;
        proof {
            let (p, q, s) = (pow2(k as nat), pow2(j as nat), scale as nat);
            lemma_pow2_adds(k as nat, j as nat);
            lemma_pow2_pos(k as nat);
            lemma_pow2_pos(j as nat);
            assert((g as nat * p) * s == (g as nat * s) * p) by (nonlinear_arith);
            assert(p * q == q * p) by (nonlinear_arith);
            lemma_half_even_scale(g as nat * s, q, p);
            assert(g * scale < 0x40_0000_0000_0000) by (nonlinear_arith)
                requires
                    0 <= g < 0x100_0000,
                    0 < scale <= 1_000_000_000,
            ;
        }
        assert(steps == half_even((g * scale) as nat, pow2(j as nat)));
        let q: u64 = if j >= 60 {
            proof {
                lemma2_to64_rest();
                lemma_pow2_monotone(60, j as nat);
                lemma_fundamental_div_mod_converse(
                    g * scale,
                    pow2(j as nat) as int,
                    0,
                    g * scale,
                );
            }
            0
        } else {
            proof {
                lemma2_to64_rest();
                lemma_pow2_monotone(j as nat, 60);
                lemma_u64_shl_is_mul(1, j as u64);
                lemma_pow2_pos(j as nat);
            }
            round_quotient(g * scale, 1u64 << (j as u64))
        };
        ((q / scale) as u128, q % scale)
    }
}

proof fn lemma_whole_fits(g: nat, c: nat)
    requires
        g < 0x100_0000,
        c <= 104,
    ensures
        g * pow2(c) <= u128::MAX,
{
    lemma2_to64();
    lemma2_to64_rest();
    lemma_pow2_adds(64, 40);
    lemma_pow2_monotone(c, 104);
    assert(g * pow2(c) <= 0xff_ffff * pow2(104)) by (nonlinear_arith)
        requires
            g <= 0xff_ffff,
            pow2(c) <= pow2(104),
    ;
}

/// Writes a number with nine places.
pub fn nine_places(x: Float32) -> (r: String)
    ensures
        r@ == fixed(x, 9),
{
    proof {
        lemma_ten_to_values();
    }
    fixed_text(x, 9, 1_000_000_000)
}

/// Writes a number with two places.
pub fn two_places(x: Float32) -> (r: String)
    ensures
        r@ == fixed(x, 2),
{
    proof {
        lemma_ten_to_values();
    }
    fixed_text(x, 2, 100)
}

fn fixed_text(x: Float32, places: u32, scale: u64) -> (r: String)
    requires
        scale as nat == ten_to(places as nat),
        0 < scale <= 1_000_000_000,
    ensures
        r@ == fixed(x, places as nat),
{
    if x.is_nan() {
        return "NaN".to_owned();
    }
    let m: u32 = x.bits % 0x8000_0000;
    let mut r: String = if x.bits >= 0x8000_0000 {
        "-".to_owned()
    } else {
        "".to_owned()
    };
    if m == INFINITE_MAGNITUDE {
        r.append("inf");
        return r;
    }
    let (whole, fraction): (u128, u64) = whole_and_fraction(m, places, scale);
    let digits: String = decimal_text(whole);
    let rest: String = padded_text(fraction as u128, 10, places);
    r.append(digits.as_str());
    r.append(".");
    r.append(rest.as_str());
    r
}

} // verus!
