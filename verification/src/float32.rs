//! IEEE-754 single precision on its bit patterns.
//!
//! A `Float32` is the 32-bit encoding itself, so equality of values of this type
//! is equality of bits. The arithmetic is that of the standard's default mode:
//! each operation gives the number nearest to the exact result, ties to even.
use crate::rounding::{
    half_even, in_binade, lemma_binade_exists, lemma_binade_is, lemma_pow2_monotone,
    lemma_scaled_half_even, lemma_scaled_less, nearest, positive_part, round_scaled,
    INFINITE_MAGNITUDE,
};
use vstd::arithmetic::div_mod::lemma_fundamental_div_mod_converse;
use vstd::arithmetic::power2::{
    lemma2_to64, lemma_pow2_adds, lemma_pow2_pos, lemma_pow2_unfold, pow2,
};
use vstd::bits::lemma_u64_shl_is_mul;
use vstd::prelude::*;

verus! {

/// A single-precision number, by its encoding.
#[derive(Debug, Clone, Copy, PartialEq, Eq, Structural)]
pub struct Float32 {
    pub bits: u32,
}

/// The bits of the quiet not-a-number that invalid operations give.
pub const QUIET_NAN: u32 = 0x7fc0_0000;

/// The value of a finite encoded magnitude, in units of `2^-149`.
pub open spec fn magnitude_units(m: nat) -> nat {
    significand(m) * pow2(grid_exponent(m))
}

/// The 24-bit significand of a finite magnitude.
pub open spec fn significand(m: nat) -> nat {
    if m < 0x80_0000 {
        m
    } else {
        0x80_0000 + m % 0x80_0000
    }
}

/// The exponent of the spacing at a finite magnitude, in units of `2^-149`.
pub open spec fn grid_exponent(m: nat) -> nat {
    if m < 0x80_0000 {
        0
    } else {
        (m / 0x80_0000 - 1) as nat
    }
}

/// The number with the given sign and encoded magnitude.
pub open spec fn signed(negative: bool, m: nat) -> Float32 {
    Float32 {
        bits: (if negative {
            0x8000_0000 + m
        } else {
            m
        }) as u32,
    }
}

pub open spec fn abs_int(x: int) -> nat {
    if x < 0 {
        (-x) as nat
    } else {
        x as nat
    }
}

impl Float32 {
    /// The sign bit.
    pub open spec fn negative(self) -> bool {
        self.bits >= 0x8000_0000
    }

    /// The encoding without its sign bit.
    pub open spec fn magnitude(self) -> nat {
        (self.bits % 0x8000_0000) as nat
    }

    pub open spec fn nan(self) -> bool {
        self.magnitude() > INFINITE_MAGNITUDE
    }

    pub open spec fn infinite(self) -> bool {
        self.magnitude() == INFINITE_MAGNITUDE
    }

    pub open spec fn finite(self) -> bool {
        self.magnitude() < INFINITE_MAGNITUDE
    }

    /// The value of a finite number, in units of `2^-149`.
    pub open spec fn units(self) -> int {
        if self.negative() {
            -(magnitude_units(self.magnitude()) as int)
        } else {
            magnitude_units(self.magnitude()) as int
        }
    }

    /// The place of a number in the numeric order; both zeros share one.
    pub open spec fn rank(self) -> int {
        if self.negative() {
            -(self.magnitude() as int)
        } else {
            self.magnitude() as int
        }
    }

    /// The place of any encoding in the total order of the standard: negative
    /// not-a-numbers first, the negative zero just before the positive one.
    pub open spec fn total_rank(self) -> int {
        if self.negative() {
            -1 - self.magnitude()
        } else {
            self.magnitude() as int
        }
    }

    pub fn from_bits(bits: u32) -> (r: Float32)
        ensures
            r.bits == bits,
    {
        Float32 { bits }
    }

    pub fn to_bits(self) -> (r: u32)
        ensures
            r == self.bits,
    {
        self.bits
    }

    pub fn is_finite(self) -> (r: bool)
        ensures
            r == self.finite(),
    {
        self.bits % 0x8000_0000 < INFINITE_MAGNITUDE
    }

    pub fn is_nan(self) -> (r: bool)
        ensures
            r == self.nan(),
    {
        self.bits % 0x8000_0000 > INFINITE_MAGNITUDE
    }

    fn is_negative(self) -> (r: bool)
        ensures
            r == self.negative(),
    {
        self.bits >= 0x8000_0000
    }

    fn rank_value(self) -> (r: i64)
        ensures
            r == self.rank(),
    {
        let m: i64 = (self.bits % 0x8000_0000) as i64;
        if self.bits >= 0x8000_0000 {
            -m
        } else {
            m
        }
    }

    /// The place in the total order.
    pub fn total_rank_value(self) -> (r: i64)
        ensures
            r == self.total_rank(),
    {
        let m: i64 = (self.bits % 0x8000_0000) as i64;
        if self.bits >= 0x8000_0000 {
            -1 - m
        } else {
            m
        }
    }

    /// `self < other`; false where either is not a number.
    pub fn less(self, other: Float32) -> (r: bool)
        ensures
            r == below(self, other),
    {
        !self.is_nan() && !other.is_nan() && self.rank_value() < other.rank_value()
    }

    /// `self <= other`; false where either is not a number.
    pub fn at_most(self, other: Float32) -> (r: bool)
        ensures
            r == not_above(self, other),
    {
        !self.is_nan() && !other.is_nan() && self.rank_value() <= other.rank_value()
    }

    /// Numeric equality: the zeros are equal, and not-a-number equals nothing.
    pub fn same_number(self, other: Float32) -> (r: bool)
        ensures
            r == numerically_equal(self, other),
    {
        !self.is_nan() && !other.is_nan() && self.rank_value() == other.rank_value()
    }

    /// The larger of two numbers; a number beats not-a-number.
    pub fn maximum(self, other: Float32) -> (r: Float32)
        ensures
            r == larger(self, other),
    {
        if self.is_nan() || self.less(other) {
            other
        } else {
            self
        }
    }

    /// The smaller of two numbers; a number beats not-a-number.
    pub fn minimum(self, other: Float32) -> (r: Float32)
        ensures
            r == smaller(self, other),
    {
        if self.is_nan() || other.less(self) {
            other
        } else {
            self
        }
    }

    /// The number brought into `[low, high]`.
    pub fn clamp(self, low: Float32, high: Float32) -> (r: Float32)
        requires
            not_above(low, high),
        ensures
            r == clamped(self, low, high),
    {
        if self.less(low) {
            low
        } else if high.less(self) {
            high
        } else {
            self
        }
    }

    /// The number nearest to a count.
    pub fn from_count(n: usize) -> (r: Float32)
        ensures
            r == of_count(n as nat),
    {
        let m: u32 = round_scaled(n as u64, 1, 149);
        proof {
            reveal(of_count);
            lemma2_to64();
            assert(1 * pow2(0) == 1);
        }
        Float32 { bits: m }
    }
}

pub open spec fn below(a: Float32, b: Float32) -> bool {
    !a.nan() && !b.nan() && a.rank() < b.rank()
}

pub open spec fn not_above(a: Float32, b: Float32) -> bool {
    !a.nan() && !b.nan() && a.rank() <= b.rank()
}

pub open spec fn numerically_equal(a: Float32, b: Float32) -> bool {
    !a.nan() && !b.nan() && a.rank() == b.rank()
}

pub open spec fn larger(a: Float32, b: Float32) -> Float32 {
    if a.nan() || below(a, b) {
        b
    } else {
        a
    }
}

pub open spec fn smaller(a: Float32, b: Float32) -> Float32 {
    if a.nan() || below(b, a) {
        b
    } else {
        a
    }
}

pub open spec fn clamped(x: Float32, low: Float32, high: Float32) -> Float32 {
    if below(x, low) {
        low
    } else if below(high, x) {
        high
    } else {
        x
    }
}

#[verifier::opaque]
pub open spec fn of_count(n: nat) -> Float32 {
    signed(false, nearest(n * pow2(149), 1))
}

pub open spec fn quiet_nan() -> Float32 {
    Float32 { bits: QUIET_NAN }
}

pub open spec fn opposite(a: Float32) -> Float32 {
    signed(!a.negative(), a.magnitude())
}

pub open spec fn absolute(a: Float32) -> Float32 {
    signed(false, a.magnitude())
}

/// The correctly rounded sum.
#[verifier::opaque]
pub open spec fn sum(a: Float32, b: Float32) -> Float32 {
    if a.nan() || b.nan() {
        quiet_nan()
    } else if a.infinite() {
        if b.infinite() && a.negative() != b.negative() {
            quiet_nan()
        } else {
            a
        }
    } else if b.infinite() {
        b
    } else {
        let s = a.units() + b.units();
        if s == 0 {
            signed(a.negative() && b.negative(), 0)
        } else {
            signed(s < 0, nearest(abs_int(s), 1))
        }
    }
}

/// The correctly rounded difference.
pub open spec fn difference(a: Float32, b: Float32) -> Float32 {
    sum(a, opposite(b))
}

/// The correctly rounded product.
#[verifier::opaque]
pub open spec fn product(a: Float32, b: Float32) -> Float32 {
    let negative = a.negative() != b.negative();
    if a.nan() || b.nan() {
        quiet_nan()
    } else if a.infinite() || b.infinite() {
        if a.magnitude() == 0 || b.magnitude() == 0 {
            quiet_nan()
        } else {
            signed(negative, INFINITE_MAGNITUDE as nat)
        }
    } else {
        signed(
            negative,
            nearest(
                magnitude_units(a.magnitude()) * magnitude_units(b.magnitude()),
                pow2(149),
            ),
        )
    }
}

/// The correctly rounded quotient.
#[verifier::opaque]
pub open spec fn quotient(a: Float32, b: Float32) -> Float32 {
    let negative = a.negative() != b.negative();
    if a.nan() || b.nan() {
        quiet_nan()
    } else if a.infinite() {
        if b.infinite() {
            quiet_nan()
        } else {
            signed(negative, INFINITE_MAGNITUDE as nat)
        }
    } else if b.infinite() {
        signed(negative, 0)
    } else if b.magnitude() == 0 {
        if a.magnitude() == 0 {
            quiet_nan()
        } else {
            signed(negative, INFINITE_MAGNITUDE as nat)
        }
    } else {
        signed(
            negative,
            nearest(
                magnitude_units(a.magnitude()) * pow2(149),
                magnitude_units(b.magnitude()),
            ),
        )
    }
}

fn split_magnitude(m: u32) -> (r: (u64, u32))
    requires
        m < INFINITE_MAGNITUDE,
    ensures
        r.0 as nat == significand(m as nat),
        r.1 as nat == grid_exponent(m as nat),
        r.0 < 0x100_0000,
        r.1 <= 253,
        r.1 > 0 ==> r.0 >= 0x80_0000,
        m == 0 <==> r.0 == 0,
        m == r.1 * 0x80_0000 + r.0,
{
    if m < 0x80_0000 {
        (m as u64, 0)
    } else {
        (0x80_0000 + (m % 0x80_0000) as u64, m / 0x80_0000 - 1)
    }
}

/// Rounding to the grid gives an encoded magnitude.
pub proof fn lemma_nearest_bound(n: nat, d: nat)
    ensures
        nearest(n, d) <= INFINITE_MAGNITUDE,
{
}

/// Rounding depends on the difference of the exponents alone.
pub proof fn lemma_nearest_shift(n: nat, d: nat, a: nat, b: nat, a2: nat, b2: nat)
    requires
        d > 0,
        b - a == b2 - a2,
    ensures
        nearest(n * pow2(a), d * pow2(b)) == nearest(n * pow2(a2), d * pow2(b2)),
{
    lemma_pow2_pos(b);
    lemma_pow2_pos(b2);
    let (x, y) = (n * pow2(a), d * pow2(b));
    let (x2, y2) = (n * pow2(a2), d * pow2(b2));
    assert(y > 0 && y2 > 0) by (nonlinear_arith)
        requires
            d > 0,
            pow2(b) > 0,
            pow2(b2) > 0,
            y == d * pow2(b),
            y2 == d * pow2(b2),
    ;
    lemma_binade_exists(x, y);
    let k = crate::rounding::binade(x, y);
    lemma_shifted_power(d, b, 24 + k);
    lemma_shifted_power(d, b2, 24 + k);
    lemma_scaled_less(n, d, a, b + 24 + k, a2, b2 + 24 + k);
    if k > 0 {
        lemma_shifted_power(d, b, (23 + k) as nat);
        lemma_shifted_power(d, b2, (23 + k) as nat);
        lemma_scaled_less(n, d, a, (b + 23 + k) as nat, a2, (b2 + 23 + k) as nat);
    }
    assert(in_binade(x2, y2, k));
    lemma_binade_is(x2, y2, k);
    lemma_shifted_power(d, b, k);
    lemma_shifted_power(d, b2, k);
    lemma_scaled_half_even(n, d, a, b + k, a2, b2 + k);
}

pub proof fn lemma_shifted_power(d: nat, a: nat, b: nat)
    ensures
        d * pow2(a + b) == (d * pow2(a)) * pow2(b),
{
    lemma_pow2_adds(a, b);
    assert(d * (pow2(a) * pow2(b)) == (d * pow2(a)) * pow2(b)) by (nonlinear_arith);
}

/// Adding less than a quarter of a step leaves a normal number in place.
proof fn lemma_absorbed(m: nat, e: int)
    requires
        m < INFINITE_MAGNITUDE,
        grid_exponent(m) >= 2,
        abs_int(e) < pow2((grid_exponent(m) - 2) as nat),
    ensures
        magnitude_units(m) + e > 0,
        nearest((magnitude_units(m) + e) as nat, 1) == m,
{
    let (g, k) = (significand(m), grid_exponent(m));
    let p = pow2((k - 2) as nat);
    let x = (g * pow2(k) + e) as nat;
    lemma2_to64();
    lemma_pow2_pos((k - 2) as nat);
    lemma_pow2_unfold(k);
    lemma_pow2_unfold((k - 1) as nat);
    lemma_pow2_adds(24, k);
    lemma_pow2_adds(23, k);
    assert(pow2(k) == 4 * p);
    assert(pow2((23 + k) as nat) == 0x80_0000 * pow2(k));
    assert(pow2((24 + k) as nat) == 0x100_0000 * pow2(k));
    assert(g * pow2(k) == 4 * (g * p)) by (nonlinear_arith)
        requires
            pow2(k) == 4 * p,
    ;
    assert(g * p >= 0x80_0000 * p && (g + 1) * p <= 0x100_0000 * p) by (nonlinear_arith)
        requires
            0x80_0000 <= g <= 0xff_ffff,
            p > 0,
    ;
    assert((g + 1) * p == g * p + p) by (nonlinear_arith);
    if e >= 0 || g > 0x80_0000 {
        assert(g > 0x80_0000 ==> g * p >= 0x80_0001 * p) by (nonlinear_arith)
            requires
                p > 0,
        ;
        assert(in_binade(x, 1, k)) by {
            assert(1 * pow2(24 + k) == pow2(24 + k));
            assert(1 * pow2((23 + k) as nat) == pow2((23 + k) as nat));
        }
        lemma_binade_is(x, 1, k);
        assert(1 * pow2(k) == pow2(k));
        if e >= 0 {
            assert(x == g * (4 * p) + e) by (nonlinear_arith)
                requires
                    x == g * pow2(k) + e,
                    pow2(k) == 4 * p,
            ;
            lemma_fundamental_div_mod_converse(x as int, 4 * p as int, g as int, e);
        } else {
            assert(x == (g - 1) * (4 * p) + (4 * p + e)) by (nonlinear_arith)
                requires
                    x == g * pow2(k) + e,
                    pow2(k) == 4 * p,
            ;
            lemma_fundamental_div_mod_converse(x as int, 4 * p as int, g - 1, 4 * p + e);
        }
        assert(half_even(x, 1 * pow2(k)) == g);
    } else {
        // Just under a power of two the spacing halves.
        let j = (k - 1) as nat;
        lemma_pow2_adds(24, j);
        lemma_pow2_adds(23, j);
        assert(pow2(j) == 2 * p);
        assert(in_binade(x, 1, j)) by {
            assert(1 * pow2(24 + j) == pow2(24 + j));
            assert(1 * pow2((23 + j) as nat) == pow2((23 + j) as nat));
        }
        lemma_binade_is(x, 1, j);
        assert(1 * pow2(j) == pow2(j));
        assert(x == 0xff_ffff * (2 * p) + (2 * p + e)) by (nonlinear_arith)
            requires
                x == g * pow2(k) + e,
                pow2(k) == 4 * p,
                g == 0x80_0000,
        ;
        lemma_fundamental_div_mod_converse(x as int, 2 * p as int, 0xff_ffff, 2 * p + e);
        assert(half_even(x, 1 * pow2(j)) == 0x100_0000);
    }
}

/// A number far larger than the other one absorbs it.
proof fn lemma_sum_absorbed(a: Float32, b: Float32)
    requires
        a.finite(),
        b.finite(),
        grid_exponent(a.magnitude()) >= grid_exponent(b.magnitude()) + 26,
    ensures
        sum(a, b) == a,
{
    reveal(sum);
    let (m, o) = (a.magnitude(), b.magnitude());
    let (k, j) = (grid_exponent(m), grid_exponent(o));
    let u = magnitude_units(o);
    lemma2_to64();
    lemma_pow2_pos(j);
    lemma_pow2_adds(24, j);
    lemma_pow2_monotone(24 + j, (k - 2) as nat);
    assert(u < 0x100_0000 * pow2(j)) by (nonlinear_arith)
        requires
            u == significand(o) * pow2(j),
            significand(o) < 0x100_0000,
            pow2(j) > 0,
    ;
    let e = if a.negative() == b.negative() {
        u as int
    } else {
        -u
    };
    lemma_absorbed(m, e);
    assert(a.units() + b.units() == if a.negative() {
        -(magnitude_units(m) + e)
    } else {
        magnitude_units(m) + e
    });
}

fn aligned(negative: bool, g: u64, c: u32) -> (r: i64)
    requires
        g < 0x100_0000,
        c < 26,
    ensures
        r == if negative {
            -(g * pow2(c as nat))
        } else {
            g * pow2(c as nat)
        },
        -0x4_0000_0000_0000 < r < 0x4_0000_0000_0000,
{
    proof {
        lemma2_to64();
        lemma_pow2_monotone(c as nat, 26);
        assert(g * pow2(c as nat) < 0x4_0000_0000_0000) by (nonlinear_arith)
            requires
                g < 0x100_0000,
                pow2(c as nat) <= 0x400_0000,
        ;
        lemma_u64_shl_is_mul(g, c as u64);
    }
    let v: i64 = (g << (c as u64)) as i64;
    if negative {
        -v
    } else {
        v
    }
}

#[inline(never)]
pub fn f32_add(left: Float32, right: Float32) -> (r: Float32)
    ensures
        r == sum(left, right),
{
    proof {
        reveal(sum);
    }
    if left.is_nan() || right.is_nan() {
        return Float32 { bits: QUIET_NAN };
    }
    let lm: u32 = left.bits % 0x8000_0000;
    let rm: u32 = right.bits % 0x8000_0000;
    if lm == INFINITE_MAGNITUDE {
        if rm == INFINITE_MAGNITUDE && left.is_negative() != right.is_negative() {
            return Float32 { bits: QUIET_NAN };
        }
        return left;
    }
    if rm == INFINITE_MAGNITUDE {
        return right;
    }
    let (lg, lk): (u64, u32) = split_magnitude(lm);
    let (rg, rk): (u64, u32) = split_magnitude(rm);
    if lk >= rk + 26 {
        proof {
            lemma_sum_absorbed(left, right);
        }
        return left;
    }
    if rk >= lk + 26 {
        proof {
            lemma_sum_absorbed(right, left);
            assert(left.units() + right.units() == right.units() + left.units());
        }
        return right;
    }
    let base: u32 = if lk <= rk { lk } else { rk };
    let lv: i64 = aligned(left.is_negative(), lg, lk - base);
    let rv: i64 = aligned(right.is_negative(), rg, rk - base);
    let s: i64 = lv + rv;
    proof {
        lemma_aligned_units(left, lv as int, base as nat);
        lemma_aligned_units(right, rv as int, base as nat);
        let p = pow2(base as nat) as int;
        lemma_pow2_pos(base as nat);
        assert(left.units() + right.units() == s * p) by (nonlinear_arith)
            requires
                left.units() == lv * p,
                right.units() == rv * p,
                s == lv + rv,
        ;
        assert((s * p == 0 <==> s == 0) && (s * p < 0 <==> s < 0)) by (nonlinear_arith)
            requires
                p > 0,
        ;
        assert((-s) * p == -(s * p)) by (nonlinear_arith);
        assert(abs_int(s * p) == abs_int(s as int) * p);
        lemma2_to64();
        assert(1 * pow2(0) == 1);
    }
    if s == 0 {
        return Float32 {
            bits: if left.is_negative() && right.is_negative() {
                0x8000_0000
            } else {
                0
            },
        };
    }
    if s < 0 {
        let m: u32 = round_scaled((-s) as u64, 1, base as i32);
        Float32 { bits: 0x8000_0000 + m }
    } else {
        let m: u32 = round_scaled(s as u64, 1, base as i32);
        Float32 { bits: m }
    }
}

proof fn lemma_aligned_units(a: Float32, v: int, base: nat)
    requires
        a.finite(),
        base <= grid_exponent(a.magnitude()),
        v == if a.negative() {
            -(significand(a.magnitude()) * pow2(
                (grid_exponent(a.magnitude()) - base) as nat,
            ))
        } else {
            (significand(a.magnitude()) * pow2(
                (grid_exponent(a.magnitude()) - base) as nat,
            )) as int
        },
    ensures
        a.units() == v * pow2(base),
{
    let (g, k) = (significand(a.magnitude()), grid_exponent(a.magnitude()));
    lemma_shifted_power(g, (k - base) as nat, base);
    let (x, p) = ((g * pow2((k - base) as nat)) as int, pow2(base) as int);
    assert((-x) * p == -(x * p)) by (nonlinear_arith);
}

#[inline(never)]
pub fn f32_sub(left: Float32, right: Float32) -> (r: Float32)
    ensures
        r == difference(left, right),
{
    let flipped: Float32 = if right.bits >= 0x8000_0000 {
        Float32 { bits: right.bits - 0x8000_0000 }
    } else {
        Float32 { bits: right.bits + 0x8000_0000 }
    };
    f32_add(left, flipped)
}

fn signed_bits(negative: bool, m: u32) -> (r: Float32)
    requires
        m <= INFINITE_MAGNITUDE,
    ensures
        r == signed(negative, m as nat),
{
    if negative {
        Float32 { bits: 0x8000_0000 + m }
    } else {
        Float32 { bits: m }
    }
}

#[inline(never)]
pub fn f32_mul(left: Float32, right: Float32) -> (r: Float32)
    ensures
        r == product(left, right),
{
    proof {
        reveal(product);
    }
    if left.is_nan() || right.is_nan() {
        return Float32 { bits: QUIET_NAN };
    }
    let negative: bool = left.is_negative() != right.is_negative();
    let lm: u32 = left.bits % 0x8000_0000;
    let rm: u32 = right.bits % 0x8000_0000;
    if lm == INFINITE_MAGNITUDE || rm == INFINITE_MAGNITUDE {
        if lm == 0 || rm == 0 {
            return Float32 { bits: QUIET_NAN };
        }
        return signed_bits(negative, INFINITE_MAGNITUDE);
    }
    let (lg, lk): (u64, u32) = split_magnitude(lm);
    let (rg, rk): (u64, u32) = split_magnitude(rm);
    proof {
        assert(lg * rg < 0x1_0000_0000_0000) by (nonlinear_arith)
            requires
                0 <= lg < 0x100_0000,
                0 <= rg < 0x100_0000,
        ;
        let n = (lg * rg) as nat;
        let (pa, pb) = (pow2(lk as nat), pow2(rk as nat));
        lemma_pow2_adds(lk as nat, rk as nat);
        assert((lg as nat * pa) * (rg as nat * pb) == n * (pa * pb)) by (nonlinear_arith)
            requires
                n == lg * rg,
        ;
        let s = lk + rk - 149;
        lemma_nearest_shift(
            n,
            1,
            (lk + rk) as nat,
            149,
            positive_part(s),
            positive_part(-s),
        );
        assert(1 * pow2(149) == pow2(149));
    }
    let m: u32 = round_scaled(lg * rg, 1, lk as i32 + rk as i32 - 149);
    signed_bits(negative, m)
}

#[inline(never)]
pub fn f32_div(left: Float32, right: Float32) -> (r: Float32)
    ensures
        r == quotient(left, right),
{
    proof {
        reveal(quotient);
    }
    if left.is_nan() || right.is_nan() {
        return Float32 { bits: QUIET_NAN };
    }
    let negative: bool = left.is_negative() != right.is_negative();
    let lm: u32 = left.bits % 0x8000_0000;
    let rm: u32 = right.bits % 0x8000_0000;
    if lm == INFINITE_MAGNITUDE {
        if rm == INFINITE_MAGNITUDE {
            return Float32 { bits: QUIET_NAN };
        }
        return signed_bits(negative, INFINITE_MAGNITUDE);
    }
    if rm == INFINITE_MAGNITUDE {
        return signed_bits(negative, 0);
    }
    if rm == 0 {
        if lm == 0 {
            return Float32 { bits: QUIET_NAN };
        }
        return signed_bits(negative, INFINITE_MAGNITUDE);
    }
    let (lg, lk): (u64, u32) = split_magnitude(lm);
    let (rg, rk): (u64, u32) = split_magnitude(rm);
    proof {
        lemma_shifted_power(lg as nat, lk as nat, 149);
        let s = 149 + lk - rk;
        lemma_nearest_shift(
            lg as nat,
            rg as nat,
            (lk + 149) as nat,
            rk as nat,
            positive_part(s),
            positive_part(-s),
        );
    }
    let m: u32 = round_scaled(lg, rg, 149 + lk as i32 - rk as i32);
    signed_bits(negative, m)
}

#[inline(never)]
pub fn f32_abs(value: Float32) -> (r: Float32)
    ensures
        r == absolute(value),
{
    Float32 { bits: value.bits % 0x8000_0000 }
}

} // verus!
