//! Exterior names and fixed numbers, by the decimals that they stand for.
use crate::accuracy::{
    gap, law_nearest_is_closest, law_nearest_monotone, law_order_is_numeric, law_sum_is_nearest,
    lemma_grid_value, lemma_one, lemma_units_monotone,
};
use crate::domain::{
    boundary_distance, describes_wear, law_nearest_boundary, nearest_boundary, wear_boundary,
    WearInfo, NEAR_BOUNDARY_BITS, WEAR_BOUNDARY_BITS,
};
use crate::float32::{absolute, difference, magnitude_units, opposite, Float32};
use crate::planner::DEFAULT_DELTA_BITS;
use crate::rounding::{nearest, INFINITE_MAGNITUDE};
use crate::sync::CAP_TOLERANCE_BITS;
use vstd::arithmetic::power2::{
    lemma2_to64, lemma2_to64_rest, lemma_pow2_adds, lemma_pow2_pos, pow2,
};
use vstd::prelude::*;

verus! {

/// The place in the numeric order of the number nearest to `n / d`.
pub open spec fn decimal_place(n: nat, d: nat) -> int {
    nearest(n * pow2(149), d) as int
}

/// A number that is less than half a step off a decimal is the nearest to it.
proof fn lemma_decimal(n: nat, d: nat, k: nat, g: nat, q: nat)
    requires
        0 < n <= d,
        0 < k <= 126,
        q == pow2((149 - k) as nat),
        0x80_0000 < g < 0xff_ffff,
        2 * gap((n * q) as int, (g * d) as int) < d,
    ensures
        decimal_place(n, d) == k * 0x80_0000 + g,
{
    let m = k * 0x80_0000 + g;
    let (p, w) = (pow2(149), pow2(k));
    let r = nearest(n * p, d);
    lemma_pow2_pos(k);
    lemma_pow2_pos(149);
    lemma_pow2_adds((149 - k) as nat, k);
    assert(p == q * w);
    lemma_one();
    assert(n * p <= d * p && (n * p) * 1 <= p * d) by (nonlinear_arith)
        requires
            n <= d,
    ;
    law_nearest_monotone(n * p, d, p, 1);
    assert(r < INFINITE_MAGNITUDE);
    lemma_grid_value(k, g);
    lemma_grid_value(k, (g + 1) as nat);
    lemma_grid_value(k, (g - 1) as nat);
    assert(m + 1 < INFINITE_MAGNITUDE);
    law_nearest_is_closest(n * p, d, m);
    let u = magnitude_units(r) as int;
    let x = (n * q - g * d) as int;
    assert(n * p == (n * q) * w && (g * w) * d == (g * d) * w) by (nonlinear_arith)
        requires
            p == q * w,
    ;
    assert((g * w) * d - n * p == -x * w) by (nonlinear_arith)
        requires
            n * p == (n * q) * w,
            (g * w) * d == (g * d) * w,
            x == n * q - g * d,
    ;
    let e = gap((n * q) as int, (g * d) as int) as int;
    assert(gap(((g * w) * d) as int, (n * p) as int) == e * w) by {
        if x >= 0 {
            assert(-x * w <= 0 && -(-x * w) == x * w) by (nonlinear_arith)
                requires
                    x >= 0,
                    w > 0,
            ;
        } else {
            assert(-x * w >= 0) by (nonlinear_arith)
                requires
                    x < 0,
                    w > 0,
            ;
        }
    }
    assert(2 * (e * w) < d * w) by (nonlinear_arith)
        requires
            2 * e < d,
            w > 0,
    ;
    let (ud, gd, np, dw) = (
        (u * d) as int,
        ((g * w) * d) as int,
        (n * p) as int,
        (d * w) as int,
    );
    assert(gap(ud, np) <= e * w);
    assert(-dw < ud - gd < dw);
    if r > m {
        if r > m + 1 {
            lemma_units_monotone((m + 1) as nat, r);
        }
        assert(u >= (g + 1) * w);
        assert(ud >= gd + dw) by (nonlinear_arith)
            requires
                u >= (g + 1) * w,
                ud == u * d,
                gd == (g * w) * d,
                dw == d * w,
                d > 0,
        ;
    }
    if r < m {
        if r < m - 1 {
            lemma_units_monotone(r, (m - 1) as nat);
        }
        assert(u <= (g - 1) * w);
        assert(ud <= gd - dw) by (nonlinear_arith)
            requires
                u <= (g - 1) * w,
                ud == u * d,
                gd == (g * w) * d,
                dw == d * w,
                d > 0,
        ;
    }
}

/// The fixed numbers are those nearest to their decimals: the boundaries of the exteriors,
/// what counts as near to one, the deviation that requests start from, and the tolerance
/// for caps.
pub proof fn law_fixed_numbers()
    ensures
        wear_boundary(0).rank() == decimal_place(7, 100),
        wear_boundary(1).rank() == decimal_place(15, 100),
        wear_boundary(2).rank() == decimal_place(38, 100),
        wear_boundary(3).rank() == decimal_place(45, 100),
        (Float32 { bits: NEAR_BOUNDARY_BITS }).rank() == decimal_place(1, 100_000),
        (Float32 { bits: DEFAULT_DELTA_BITS }).rank() == decimal_place(1, 10_000),
        (Float32 { bits: CAP_TOLERANCE_BITS }).rank() == decimal_place(1, 1_000_000),
        forall|i: int| 0 <= i < 4 ==> (#[trigger] wear_boundary(i)).finite(),
{
    lemma2_to64();
    lemma2_to64_rest();
    lemma_decimal(7, 100, 122, 0x8f_5c29, pow2(27));
    lemma_decimal(15, 100, 123, 0x99_999a, pow2(26));
    lemma_decimal(38, 100, 124, 0xc2_8f5c, pow2(25));
    lemma_decimal(45, 100, 124, 0xe6_6666, pow2(25));
    lemma_decimal(1, 100_000, 109, 0xa7_c5ac, pow2(40));
    lemma_decimal(1, 10_000, 112, 0xd1_b717, pow2(37));
    lemma_decimal(1, 1_000_000, 106, 0x86_37bd, pow2(43));
    assert(WEAR_BOUNDARY_BITS@[0] == 0x3d8f_5c29 && WEAR_BOUNDARY_BITS@[1] == 0x3e19_999a
        && WEAR_BOUNDARY_BITS@[2] == 0x3ec2_8f5c && WEAR_BOUNDARY_BITS@[3] == 0x3ee6_6666);
}

/// The exterior names differ.
pub(crate) proof fn lemma_names_differ()
    ensures
        "Factory New"@.len() == 11,
        "Minimal Wear"@.len() == 12,
        "Field-Tested"@.len() == 12,
        "Well-Worn"@.len() == 9,
        "Battle-Scarred"@.len() == 14,
        "Minimal Wear"@ != "Field-Tested"@,
{
    reveal_strlit("Factory New");
    reveal_strlit("Minimal Wear");
    reveal_strlit("Field-Tested");
    reveal_strlit("Well-Worn");
    reveal_strlit("Battle-Scarred");
    assert("Minimal Wear"@[0] != "Field-Tested"@[0]);
}

/// An exterior reaches up to the next boundary: 0.07, 0.15, 0.38 and 0.45.
pub proof fn law_exterior_names(info: WearInfo, x: Float32)
    requires
        !x.nan(),
        describes_wear(info, x),
    ensures
        info.name@ == "Factory New"@ <==> x.rank() < decimal_place(7, 100),
        info.name@ == "Minimal Wear"@ <==> decimal_place(7, 100) <= x.rank() < decimal_place(
            15,
            100,
        ),
        info.name@ == "Field-Tested"@ <==> decimal_place(15, 100) <= x.rank() < decimal_place(
            38,
            100,
        ),
        info.name@ == "Well-Worn"@ <==> decimal_place(38, 100) <= x.rank() < decimal_place(45, 100),
        info.name@ == "Battle-Scarred"@ <==> decimal_place(45, 100) <= x.rank(),
{
    law_fixed_numbers();
    lemma_names_differ();
    assert(wear_boundary(0).finite() && wear_boundary(1).finite() && wear_boundary(2).finite()
        && wear_boundary(3).finite());
}

/// A boundary between exteriors.
pub open spec fn is_boundary(b: Float32) -> bool {
    b.rank() == decimal_place(7, 100) || b.rank() == decimal_place(15, 100) || b.rank()
        == decimal_place(38, 100) || b.rank() == decimal_place(45, 100)
}

/// The boundary that is shown is the nearest: no other one is less far from the number,
/// and the distance is that of the two; of two that are as far it is the lower one. What is
/// shown as near is within 0.00001.
pub proof fn law_boundary_is_the_nearest(info: WearInfo, x: Float32, other: Float32)
    requires
        x.finite(),
        describes_wear(info, x),
        is_boundary(other),
        other.finite(),
    ensures
        is_boundary(info.nearest_boundary.value),
        info.distance_to_nearest_boundary.value.rank() == nearest(
            gap(x.units(), info.nearest_boundary.value.units()),
            1,
        ),
        info.distance_to_nearest_boundary.value.rank() <= nearest(gap(x.units(), other.units()), 1),
        info.distance_to_nearest_boundary.value.rank() == nearest(
            gap(x.units(), other.units()),
            1,
        ) ==> info.nearest_boundary.value.rank() <= other.rank(),
        info.near_boundary <==> info.distance_to_nearest_boundary.value.rank() <= decimal_place(
            1,
            100_000,
        ),
{
    law_fixed_numbers();
    let i = nearest_boundary(x, 4);
    let j = if other.rank() == decimal_place(7, 100) {
        0int
    } else if other.rank() == decimal_place(15, 100) {
        1
    } else if other.rank() == decimal_place(38, 100) {
        2
    } else {
        3
    };
    law_nearest_boundary(x, 4, j);
    if j < i {
        lemma_first_boundary(x, 4, j);
    }
    assert(wear_boundary(i).finite() && wear_boundary(j).finite());
    lemma_distance(x, wear_boundary(i));
    lemma_distance(x, wear_boundary(j));
    law_order_is_numeric(other, wear_boundary(j));
}

/// A distance, by values.
pub(crate) proof fn lemma_distance(a: Float32, b: Float32)
    requires
        a.finite(),
        b.finite(),
    ensures
        !absolute(difference(a, b)).nan(),
        absolute(difference(a, b)).rank() == nearest(gap(a.units(), b.units()), 1),
        absolute(difference(a, b)).total_rank() == nearest(gap(a.units(), b.units()), 1),
{
    assert(opposite(b).units() == -b.units());
    law_sum_is_nearest(a, opposite(b));
}

/// Of boundaries that are as far the first is taken.
proof fn lemma_first_boundary(x: Float32, n: nat, j: int)
    requires
        1 <= n <= 4,
        0 <= j < nearest_boundary(x, n),
    ensures
        boundary_distance(x, nearest_boundary(x, n)).total_rank() < boundary_distance(
            x,
            j,
        ).total_rank(),
    decreases n,
{
    if n > 1 {
        let best = nearest_boundary(x, (n - 1) as nat);
        law_nearest_boundary(x, (n - 1) as nat, 0);
        if nearest_boundary(x, n) == best {
            lemma_first_boundary(x, (n - 1) as nat, j);
        } else {
            law_nearest_boundary(x, (n - 1) as nat, j);
        }
    }
}

} // verus!
