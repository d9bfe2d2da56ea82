//! Round-to-nearest, ties-to-even, onto the grid of IEEE-754 single precision.
//!
//! Every finite single-precision number is an integer multiple of two to the
//! power -149. This module speaks of magnitudes in that unit: a magnitude is a
//! non-negative rational `n / d`, and rounding it gives the lower 31 bits of
//! the encoding of the nearest single-precision number.
use vstd::arithmetic::div_mod::{lemma_fundamental_div_mod, lemma_fundamental_div_mod_converse};
use vstd::arithmetic::power2::{
    lemma2_to64, lemma2_to64_rest, lemma_pow2_adds, lemma_pow2_pos, lemma_pow2_strictly_increases,
    lemma_pow2_unfold, pow2,
};
use vstd::bits::lemma_u64_shl_is_mul;
use vstd::prelude::*;

verus! {

/// The lower 31 bits of an infinity; everything below encodes a finite magnitude.
pub const INFINITE_MAGNITUDE: u32 = 0x7f80_0000;

/// The quotient `n / d` rounded to an integer, halves going to the even one.
pub open spec fn half_even(n: nat, d: nat) -> nat {
    let q = n / d;
    let r = n % d;
    if 2 * r < d || (2 * r == d && q % 2 == 0) {
        q
    } else {
        q + 1
    }
}

/// `n / d` needs the spacing `2^k`: `k` is the least exponent for which the
/// quotient by `2^k` stays below `2^24`.
pub open spec fn in_binade(n: nat, d: nat, k: nat) -> bool {
    &&& n < d * pow2(24 + k)
    &&& k > 0 ==> d * pow2((23 + k) as nat) <= n
}

/// The exponent of the grid spacing at `n / d`.
pub open spec fn binade(n: nat, d: nat) -> nat {
    choose|k: nat| in_binade(n, d, k)
}

/// The encoded magnitude nearest to `n / d`, ties going to the even encoding;
/// what lies beyond the largest finite magnitude by half a step is infinite.
pub open spec fn nearest(n: nat, d: nat) -> nat {
    let k = binade(n, d);
    let m = k * 0x80_0000 + half_even(n, d * pow2(k));
    if m < INFINITE_MAGNITUDE {
        m
    } else {
        INFINITE_MAGNITUDE as nat
    }
}

/// `nearest` of `n * 2^s / d`, for an exponent of either sign.
pub open spec fn nearest_scaled(n: nat, d: nat, s: int) -> nat {
    nearest(n * pow2(positive_part(s)), d * pow2(positive_part(-s)))
}

pub open spec fn positive_part(s: int) -> nat {
    if s > 0 {
        s as nat
    } else {
        0
    }
}

pub proof fn lemma_binade_unique(n: nat, d: nat, j: nat, k: nat)
    requires
        d > 0,
        in_binade(n, d, j),
        in_binade(n, d, k),
    ensures
        j == k,
{
    if j != k {
        let (lo, hi) = if j < k { (j, k) } else { (k, j) };
        if 24 + lo < 23 + hi {
            lemma_pow2_strictly_increases(24 + lo, (23 + hi) as nat);
        }
        assert(d * pow2(24 + lo) <= d * pow2((23 + hi) as nat)) by (nonlinear_arith)
            requires
                pow2(24 + lo) <= pow2((23 + hi) as nat),
        ;
    }
}

pub proof fn lemma_binade_is(n: nat, d: nat, k: nat)
    requires
        d > 0,
        in_binade(n, d, k),
    ensures
        binade(n, d) == k,
{
    lemma_binade_unique(n, d, k, binade(n, d));
}

pub proof fn lemma_binade_exists(n: nat, d: nat)
    requires
        d > 0,
    ensures
        in_binade(n, d, binade(n, d)),
{
    lemma_binade_below(n, d, n);
}

/// Some exponent up to `k` fits, once `k` is large enough.
proof fn lemma_binade_below(n: nat, d: nat, k: nat)
    requires
        d > 0,
        n <= k || n < d * pow2(24 + k),
    ensures
        exists|j: nat| in_binade(n, d, j),
    decreases k,
{
    lemma_pow2_exceeds(24 + k);
    lemma_pow2_pos(24 + k);
    assert(pow2(24 + k) <= d * pow2(24 + k)) by (nonlinear_arith)
        requires
            d > 0,
            pow2(24 + k) > 0,
    ;
    assert(n < d * pow2(24 + k));
    if k == 0 || d * pow2((23 + k) as nat) <= n {
        assert(in_binade(n, d, k));
    } else {
        assert(24 + (k - 1) == 23 + k);
        lemma_binade_below(n, d, (k - 1) as nat);
    }
}

pub proof fn lemma_pow2_exceeds(e: nat)
    ensures
        e < pow2(e),
    decreases e,
{
    if e == 0 {
        lemma2_to64();
    } else {
        lemma_pow2_exceeds((e - 1) as nat);
        lemma_pow2_unfold(e);
    }
}

pub proof fn lemma_half_even_scale(n: nat, d: nat, c: nat)
    requires
        d > 0,
        c > 0,
    ensures
        half_even(n * c, d * c) == half_even(n, d),
{
    let q = (n / d) as int;
    let r = (n % d) as int;
    lemma_fundamental_div_mod(n as int, d as int);
    assert(n * c == q * (d * c) + r * c) by (nonlinear_arith)
        requires
            n == d * q + r,
    ;
    assert(0 <= r * c < d * c) by (nonlinear_arith)
        requires
            0 <= r < d,
            c > 0,
    ;
    lemma_fundamental_div_mod_converse((n * c) as int, (d * c) as int, q, r * c);
    assert(2 * (r * c) < d * c <==> 2 * r < d) by (nonlinear_arith)
        requires
            c > 0,
    ;
    assert(2 * (r * c) == d * c <==> 2 * r == d) by (nonlinear_arith)
        requires
            c > 0,
    ;
}

/// The rounded quotient is one of the two integers around the exact one.
pub proof fn lemma_half_even_bounds(n: nat, d: nat)
    requires
        d > 0,
    ensures
        n / d <= half_even(n, d) <= n / d + 1,
        2 * d * half_even(n, d) <= 2 * n + d,
        2 * n <= 2 * d * half_even(n, d) + d,
{
    let q = (n / d) as int;
    let r = (n % d) as int;
    lemma_fundamental_div_mod(n as int, d as int);
    let h = half_even(n, d) as int;
    assert(2 * d * h <= 2 * n + d && 2 * n <= 2 * d * h + d) by (nonlinear_arith)
        requires
            n == d * q + r,
            0 <= r < d,
            (h == q && 2 * r <= d) || (h == q + 1 && 2 * r >= d),
    ;
}

/// Rounding an exact multiple changes nothing.
pub proof fn lemma_half_even_exact(m: nat, d: nat)
    requires
        d > 0,
    ensures
        half_even(m * d, d) == m,
{
    lemma_fundamental_div_mod_converse((m * d) as int, d as int, m as int, 0);
}

/// Both sides of a comparison may be shifted together.
proof fn lemma_shift_less(n: nat, d: nat, a: nat, b: nat, c: nat)
    ensures
        n * pow2(a) < d * pow2(b) <==> n * pow2(a + c) < d * pow2(b + c),
{
    lemma_pow2_adds(a, c);
    lemma_pow2_adds(b, c);
    lemma_pow2_pos(c);
    let (x, y, z) = (n * pow2(a), d * pow2(b), pow2(c));
    assert(n * (pow2(a) * z) == x * z) by (nonlinear_arith)
        requires
            x == n * pow2(a),
    ;
    assert(d * (pow2(b) * z) == y * z) by (nonlinear_arith)
        requires
            y == d * pow2(b),
    ;
    assert(x < y <==> x * z < y * z) by (nonlinear_arith)
        requires
            z > 0,
    ;
}

/// A comparison of scaled quotients depends on the difference of the exponents alone.
pub proof fn lemma_scaled_less(n: nat, d: nat, a: nat, b: nat, a2: nat, b2: nat)
    requires
        b - a == b2 - a2,
    ensures
        n * pow2(a) < d * pow2(b) <==> n * pow2(a2) < d * pow2(b2),
{
    if a <= a2 {
        lemma_shift_less(n, d, a, b, (a2 - a) as nat);
    } else {
        lemma_shift_less(n, d, a2, b2, (a - a2) as nat);
    }
}

/// So does the rounded quotient.
pub proof fn lemma_scaled_half_even(n: nat, d: nat, a: nat, b: nat, a2: nat, b2: nat)
    requires
        d > 0,
        b - a == b2 - a2,
    ensures
        half_even(n * pow2(a), d * pow2(b)) == half_even(n * pow2(a2), d * pow2(b2)),
    decreases a,
{
    if a > a2 {
        lemma_scaled_half_even(n, d, a2, b2, a, b);
    } else {
        let c = (a2 - a) as nat;
        lemma_pow2_adds(a, c);
        lemma_pow2_adds(b, c);
        lemma_pow2_pos(c);
        lemma_pow2_pos(b);
        let (x, y, z) = (n * pow2(a), d * pow2(b), pow2(c));
        assert(n * (pow2(a) * z) == x * z) by (nonlinear_arith)
            requires
                x == n * pow2(a),
        ;
        assert(d * (pow2(b) * z) == y * z) by (nonlinear_arith)
            requires
                y == d * pow2(b),
        ;
        assert(y > 0) by (nonlinear_arith)
            requires
                y == d * pow2(b),
                d > 0,
                pow2(b) > 0,
        ;
        lemma_half_even_scale(x, y, z);
    }
}

/// The grid position of `n * 2^s / d`, from comparisons at any exponents `a`, `b`
/// with `b - a == 24 + k - s`.
proof fn lemma_scaled_in_binade(n: nat, d: nat, s: int, k: nat, a: nat, b: nat)
    requires
        d > 0,
        b - a == 24 + k - s,
        n * pow2(a) < d * pow2(b),
        k > 0 ==> d * pow2(b) <= n * pow2(a + 1),
    ensures
        in_binade(n * pow2(positive_part(s)), d * pow2(positive_part(-s)), k),
{
    let (u, v) = (positive_part(s), positive_part(-s));
    lemma_scaled_less(n, d, a, b, u, v + 24 + k);
    lemma_scaled_product(d, v, 24 + k);
    if k > 0 {
        lemma_scaled_less(n, d, a + 1, b, u, (v + 23 + k) as nat);
        lemma_scaled_product(d, v, (23 + k) as nat);
    }
}

proof fn lemma_scaled_product(d: nat, a: nat, b: nat)
    ensures
        d * pow2(a + b) == (d * pow2(a)) * pow2(b),
{
    lemma_pow2_adds(a, b);
    assert(d * (pow2(a) * pow2(b)) == (d * pow2(a)) * pow2(b)) by (nonlinear_arith);
}

/// The encoded magnitude once the spacing is known.
pub proof fn lemma_nearest_scaled_is(n: nat, d: nat, s: int, k: nat, a: nat, b: nat)
    requires
        d > 0,
        in_binade(n * pow2(positive_part(s)), d * pow2(positive_part(-s)), k),
        b - a == k - s,
    ensures
        nearest_scaled(n, d, s) == if k * 0x80_0000 + half_even(n * pow2(a), d * pow2(b))
            < INFINITE_MAGNITUDE {
            k * 0x80_0000 + half_even(n * pow2(a), d * pow2(b))
        } else {
            INFINITE_MAGNITUDE as nat
        },
{
    let (u, v) = (positive_part(s), positive_part(-s));
    lemma_pow2_pos(v);
    assert(d * pow2(v) > 0) by (nonlinear_arith)
        requires
            d > 0,
            pow2(v) > 0,
    ;
    lemma_binade_is(n * pow2(u), d * pow2(v), k);
    lemma_scaled_product(d, v, k);
    lemma_scaled_half_even(n, d, a, b, u, v + k);
}

/// The number of binary digits of `n`.
fn bit_length(n: u64) -> (r: u32)
    requires
        n > 0,
    ensures
        1 <= r <= 64,
        pow2((r - 1) as nat) <= n < pow2(r as nat),
{
    proof {
        lemma2_to64();
        lemma2_to64_rest();
    }
    let mut m: u64 = n;
    let mut r: u32 = 0;
    let ghost mut step: nat = 1;
    if m >= 0x1_0000_0000 {
        m = m / 0x1_0000_0000;
        r = r + 32;
        proof { step = 0x1_0000_0000; }
    }
    assert(step == pow2(r as nat) && m * step <= n < (m + 1) * step && 0 < m < 0x1_0000_0000);
    if m >= 0x1_0000 {
        proof { lemma_bit_length_step(n as nat, m as nat, r as nat, 16, 0x1_0000); }
        m = m / 0x1_0000;
        r = r + 16;
    }
    if m >= 0x100 {
        proof { lemma_bit_length_step(n as nat, m as nat, r as nat, 8, 0x100); }
        m = m / 0x100;
        r = r + 8;
    }
    if m >= 0x10 {
        proof { lemma_bit_length_step(n as nat, m as nat, r as nat, 4, 0x10); }
        m = m / 0x10;
        r = r + 4;
    }
    if m >= 4 {
        proof { lemma_bit_length_step(n as nat, m as nat, r as nat, 2, 4); }
        m = m / 4;
        r = r + 2;
    }
    if m >= 2 {
        proof { lemma_bit_length_step(n as nat, m as nat, r as nat, 1, 2); }
        r = r + 1;
    }
    proof {
        lemma_pow2_unfold((r + 1) as nat);
    }
    r + 1
}

/// Halving `m` by `2^e` while `m` counts the whole multiples of `2^r` in `n`.
proof fn lemma_bit_length_step(n: nat, m: nat, r: nat, e: nat, p: nat)
    requires
        p == pow2(e),
        p > 0,
        m * pow2(r) <= n < (m + 1) * pow2(r),
    ensures
        (m / p) * pow2(r + e) <= n < (m / p + 1) * pow2(r + e),
{
    lemma_pow2_adds(r, e);
    lemma_fundamental_div_mod(m as int, p as int);
    let (q, w) = (m / p, m % p);
    let z = pow2(r);
    assert(q * (z * p) <= n < (q + 1) * (z * p)) by (nonlinear_arith)
        requires
            m == p * q + w,
            0 <= w < p,
            m * z <= n < (m + 1) * z,
    ;
}

/// Whether the significand of `n`, a number of `l` digits, lies below that of `d`, one of `e`.
fn significand_below(n: u64, d: u64, l: u32, e: u32) -> (r: bool)
    requires
        1 <= l <= 64,
        1 <= e <= 24,
        n < pow2(l as nat),
        d < pow2(e as nat),
    ensures
        r <==> n as nat * pow2(e as nat) < d as nat * pow2(l as nat),
{
    let ghost (gn, gd) = (n as nat, d as nat);
    proof {
        lemma2_to64();
        lemma2_to64_rest();
        lemma_scaled_less(
            gn,
            gd,
            e as nat,
            l as nat,
            positive_part(e - l),
            positive_part(l - e),
        );
    }
    if l >= e {
        proof {
            lemma_shifted_below(gd, e as nat, (l - e) as nat);
            lemma_pow2_monotone(l as nat, 64);
            lemma_u64_shl_is_mul(d, (l - e) as u64);
            assert(gn * pow2(0) == gn);
        }
        n < d << ((l - e) as u64)
    } else {
        proof {
            lemma_shifted_below(gn, l as nat, (e - l) as nat);
            lemma_pow2_monotone(e as nat, 24);
            lemma_u64_shl_is_mul(n, (e - l) as u64);
            assert(gd * pow2(0) == gd);
        }
        n << ((e - l) as u64) < d
    }
}

/// Rounds `n * 2^s / d` to the nearest encoded magnitude.
pub fn round_scaled(n: u64, d: u64, s: i32) -> (r: u32)
    requires
        0 < d < 0x100_0000,
        -1200 <= s <= 1200,
        s >= 0 || n < 0x4000_0000_0000_0000,
    ensures
        r as nat == nearest_scaled(n as nat, d as nat, s as int),
        r <= INFINITE_MAGNITUDE,
{
    let ghost (gn, gd, gs) = (n as nat, d as nat, s as int);
    if n == 0 {
        proof {
            lemma_nearest_scaled_zero(gd, gs);
        }
        return 0;
    }
    let l: u32 = bit_length(n);
    let e: u32 = bit_length(d);
    proof {
        lemma2_to64();
        lemma2_to64_rest();
        if e > 24 {
            lemma_pow2_monotone(24, (e - 1) as nat);
        }
        if s < 0 && l > 62 {
            lemma_pow2_monotone(62, (l - 1) as nat);
        }
    }
    let below: bool = significand_below(n, d, l, e);
    let grid: i32 = l as i32 - e as i32 + s - (if below { 24i32 } else { 23i32 });
    let k: i32 = if grid < 0 { 0 } else { grid };
    proof {
        lemma_scaled_binade(gn, gd, gs, l as nat, e as nat, below, k as nat);
    }
    let t: i32 = s - k;
    let h: u64 = grid_quotient(n, d, l, e, t, Ghost(s), Ghost(k as nat));
    proof {
        lemma_rounded_quotient_fits(gn, gd, gs, k as nat);
        lemma_nearest_scaled_is(
            gn,
            gd,
            gs,
            k as nat,
            positive_part(t as int),
            positive_part(-t),
        );
    }
    let m: u64 = k as u64 * 0x80_0000 + h;
    if m < INFINITE_MAGNITUDE as u64 {
        m as u32
    } else {
        INFINITE_MAGNITUDE
    }
}

/// Rounds `n * 2^t / d` to an integer, where that quotient stays below `2^24`.
fn grid_quotient(
    n: u64,
    d: u64,
    l: u32,
    e: u32,
    t: i32,
    Ghost(s): Ghost<i32>,
    Ghost(k): Ghost<nat>,
) -> (h: u64)
    requires
        0 < d < 0x100_0000,
        n > 0,
        1 <= l <= 64,
        1 <= e <= 24,
        pow2((l - 1) as nat) <= n < pow2(l as nat),
        pow2((e - 1) as nat) <= d < pow2(e as nat),
        -3000 <= t <= 3000,
        t == s - k,
        s >= 0 || l <= 62,
        k > 0 ==> k <= l - e + s - 23,
        in_binade(
            n as nat * pow2(positive_part(s as int)),
            d as nat * pow2(positive_part(-s)),
            k,
        ),
    ensures
        h as nat == half_even(
            n as nat * pow2(positive_part(t as int)),
            d as nat * pow2(positive_part(-t)),
        ),
{
    proof {
        lemma2_to64();
    }
    if t >= 0 {
        proof {
            lemma_shifted_numerator(n as nat, d as nat, s as int, k, t as nat);
            lemma_u64_shl_is_mul(n, t as u64);
            assert(d * 1 == d);
        }
        round_quotient(n << (t as u64), d)
    } else if l as i32 - e as i32 + t <= -2 {
        proof {
            lemma_vanishing_quotient(n as nat, d as nat, l as nat, e as nat, (-t) as nat);
            assert(n * 1 == n);
        }
        0
    } else {
        proof {
            lemma_shifted_below(d as nat, e as nat, (-t) as nat);
            lemma_pow2_monotone((e - t) as nat, 64);
            lemma_u64_shl_is_mul(d, (-t) as u64);
            lemma_pow2_pos((-t) as nat);
            assert(d as nat * pow2((-t) as nat) > 0) by (nonlinear_arith)
                requires
                    d > 0,
                    pow2((-t) as nat) > 0,
            ;
            assert(n * 1 == n);
        }
        round_quotient(n, d << ((-t) as u64))
    }
}

/// `n / d` to the nearest integer, halves to even.
pub fn round_quotient(n: u64, d: u64) -> (r: u64)
    requires
        d > 0,
    ensures
        r as nat == half_even(n as nat, d as nat),
{
    let q: u64 = n / d;
    let r: u64 = n % d;
    let rest: u64 = d - r;
    proof {
        lemma_fundamental_div_mod(n as int, d as int);
        assert(d >= 2 ==> 2 * q <= n) by (nonlinear_arith)
            requires
                n == d * q + r,
                r >= 0,
                q >= 0,
        ;
    }
    if r < rest || (r == rest && q % 2 == 0) {
        q
    } else {
        q + 1
    }
}

pub proof fn lemma_pow2_monotone(a: nat, b: nat)
    requires
        a <= b,
    ensures
        pow2(a) <= pow2(b),
{
    if a < b {
        lemma_pow2_strictly_increases(a, b);
    }
}

proof fn lemma_nearest_scaled_zero(d: nat, s: int)
    requires
        d > 0,
    ensures
        nearest_scaled(0, d, s) == 0,
{
    let v = positive_part(-s);
    lemma_pow2_pos(v);
    lemma_pow2_pos(24);
    assert(d * pow2(v) > 0 && (d * pow2(v)) * pow2(24) > 0) by (nonlinear_arith)
        requires
            d > 0,
            pow2(v) > 0,
            pow2(24) > 0,
    ;
    lemma2_to64();
    let y = d * pow2(v);
    assert(0 * pow2(positive_part(s)) == 0);
    lemma_binade_is(0, y, 0);
    assert(y * pow2(0) == y);
    lemma_half_even_exact(0, y);
}

/// A number of `l` binary digits, shifted by `c`, has `l + c` of them.
proof fn lemma_shifted_below(n: nat, l: nat, c: nat)
    requires
        n < pow2(l),
    ensures
        n * pow2(c) < pow2(l + c),
{
    lemma_pow2_adds(l, c);
    lemma_pow2_pos(c);
    assert(n * pow2(c) < pow2(l) * pow2(c)) by (nonlinear_arith)
        requires
            n < pow2(l),
            pow2(c) > 0,
    ;
}

proof fn lemma_shifted_at_least(n: nat, l: nat, c: nat)
    requires
        pow2(l) <= n,
    ensures
        pow2(l + c) <= n * pow2(c),
{
    lemma_pow2_adds(l, c);
    assert(pow2(l) * pow2(c) <= n * pow2(c)) by (nonlinear_arith)
        requires
            pow2(l) <= n,
    ;
}

/// The spacing follows from the lengths of the operands and one comparison.
proof fn lemma_scaled_binade(n: nat, d: nat, s: int, l: nat, e: nat, below: bool, k: nat)
    requires
        d > 0,
        l > 0,
        e > 0,
        pow2((l - 1) as nat) <= n < pow2(l),
        pow2((e - 1) as nat) <= d < pow2(e),
        below <==> n * pow2(e) < d * pow2(l),
        ({
            let grid = l - e + s - if below { 24int } else { 23int };
            k == if grid < 0 { 0 } else { grid }
        }),
    ensures
        in_binade(n * pow2(positive_part(s)), d * pow2(positive_part(-s)), k),
{
    lemma_shifted_below(n, l, e);
    lemma_shifted_at_least(n, (l - 1) as nat, e + 1);
    lemma_shifted_below(d, e, l);
    lemma_shifted_at_least(d, (e - 1) as nat, l + 1);
    let grid = l - e + s - if below { 24int } else { 23int };
    let (a, b) = (e, if below { l } else { l + 1 });
    assert(n * pow2(a) < d * pow2(b));
    assert(d * pow2(b) <= n * pow2(a + 1)) by {
        if !below {
            lemma_scaled_less(n, d, e, l, e + 1, l + 1);
        }
    }
    assert(b - a == 24 + grid - s);
    if grid >= 0 {
        lemma_scaled_in_binade(n, d, s, k, a, b);
    } else {
        // Even closer to zero: the finest spacing serves.
        let c = (-grid) as nat;
        lemma_pow2_monotone(b, b + c);
        assert(d * pow2(b) <= d * pow2(b + c)) by (nonlinear_arith)
            requires
                pow2(b) <= pow2(b + c),
        ;
        lemma_scaled_in_binade(n, d, s, 0, a, b + c);
    }
}

/// On its grid the numerator stays below `2^24` times the denominator.
proof fn lemma_shifted_numerator(n: nat, d: nat, s: int, k: nat, t: nat)
    requires
        0 < d < 0x100_0000,
        n > 0,
        t == s - k,
        in_binade(n * pow2(positive_part(s)), d * pow2(positive_part(-s)), k),
    ensures
        n * pow2(t) < d * 0x100_0000,
        n * pow2(t) <= u64::MAX - 1,
        t < 64,
{
    lemma2_to64();
    let (u, v) = (positive_part(s), positive_part(-s));
    lemma_scaled_product(d, v, 24 + k);
    lemma_scaled_less(n, d, u, v + 24 + k, t, 24);
    if t >= 64 {
        lemma_pow2_monotone(64, t);
        assert(n * pow2(t) >= pow2(t)) by (nonlinear_arith)
            requires
                n > 0,
        ;
    }
}

/// A quotient below one half rounds to zero.
proof fn lemma_vanishing_quotient(n: nat, d: nat, l: nat, e: nat, c: nat)
    requires
        n < pow2(l),
        e > 0,
        pow2((e - 1) as nat) <= d,
        l + 2 <= e + c,
    ensures
        half_even(n, d * pow2(c)) == 0,
{
    lemma_shifted_at_least(d, (e - 1) as nat, c);
    lemma_pow2_monotone(l + 1, (e - 1 + c) as nat);
    lemma_pow2_unfold(l + 1);
    let y = d * pow2(c);
    assert(2 * n < y);
    lemma_fundamental_div_mod_converse(n as int, y as int, 0, n as int);
}

/// The rounded significand of the grid is at most `2^24`.
proof fn lemma_rounded_quotient_fits(n: nat, d: nat, s: int, k: nat)
    requires
        d > 0,
        in_binade(n * pow2(positive_part(s)), d * pow2(positive_part(-s)), k),
    ensures
        forall|a: nat, b: nat|
            b - a == k - s ==> #[trigger] half_even(n * pow2(a), d * pow2(b)) <= 0x100_0000,
{
    lemma2_to64();
    let (u, v) = (positive_part(s), positive_part(-s));
    assert forall|a: nat, b: nat| b - a == k - s implies #[trigger] half_even(
        n * pow2(a),
        d * pow2(b),
    ) <= 0x100_0000 by {
        lemma_scaled_product(d, v, 24 + k);
        lemma_scaled_less(n, d, u, v + 24 + k, a, b + 24);
        lemma_scaled_product(d, b, 24);
        lemma_pow2_pos(b);
        let (x, y) = (n * pow2(a), d * pow2(b));
        assert(y > 0) by (nonlinear_arith)
            requires
                y == d * pow2(b),
                d > 0,
                pow2(b) > 0,
        ;
        lemma_half_even_bounds(x, y);
        assert(x / y < 0x100_0000) by (nonlinear_arith)
            requires
                x < y * 0x100_0000,
                y > 0,
        ;
    }
}

} // verus!
