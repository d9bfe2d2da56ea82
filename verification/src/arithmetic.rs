//! The arithmetic of single-precision numbers, by value.
use crate::accuracy::{
    law_order_is_numeric, law_sum_is_nearest, lemma_one, lemma_zero_units, rank_of_units,
};
use crate::float32::{
    abs_int, f32_abs, f32_add, f32_div, f32_mul, f32_sub, lemma_nearest_bound,
    magnitude_units, of_count, opposite, product, quotient, sum, Float32,
};
use crate::rounding::nearest;
use vstd::arithmetic::power2::pow2;
use vstd::prelude::*;

verus! {

/// A sum is the number nearest to the exact sum, in whatever order; what cancels out is
/// zero, negative only where both terms are.
pub proof fn law_addition(a: Float32, b: Float32, r: Float32, s: Float32)
    requires
        call_ensures(f32_add, (a, b), r),
        call_ensures(f32_add, (b, a), s),
    ensures
        a.finite() && b.finite() ==> !r.nan() && r.rank() == rank_of_units(a.units() + b.units()),
        a.finite() && b.finite() && a.units() + b.units() == 0 ==> r.magnitude() == 0
            && r.negative() == (a.negative() && b.negative()),
        a.finite() && b.finite() ==> r == s,
        a.nan() || b.nan() ==> r.nan(),
        a.infinite() && b.finite() ==> r == a,
        a.finite() && b.infinite() ==> r == b,
        a.infinite() && b.infinite() ==> if a.negative() == b.negative() {
            r == a
        } else {
            r.nan()
        },
{
    reveal(sum);
    if a.finite() && b.finite() {
        law_sum_is_nearest(a, b);
    }
}

/// A difference is the number nearest to the exact difference; turned around it is the
/// opposite.
pub proof fn law_subtraction(a: Float32, b: Float32, r: Float32, s: Float32)
    requires
        call_ensures(f32_sub, (a, b), r),
        call_ensures(f32_sub, (b, a), s),
    ensures
        a.finite() && b.finite() ==> !r.nan() && r.rank() == rank_of_units(a.units() - b.units())
            && r.rank() == -s.rank(),
        a.nan() || b.nan() ==> r.nan(),
        a.infinite() && b.infinite() && a.negative() == b.negative() ==> r.nan(),
{
    reveal(sum);
    if a.finite() && b.finite() {
        assert(opposite(b).units() == -b.units());
        assert(opposite(a).units() == -a.units());
        law_sum_is_nearest(a, opposite(b));
        law_sum_is_nearest(b, opposite(a));
        lemma_zero_rank();
    }
}

proof fn lemma_zero_rank()
    ensures
        rank_of_units(0) == 0,
{
    lemma_one();
}

/// A product is the number nearest to the exact product, in whatever order; it is negative
/// where exactly one factor is.
pub proof fn law_multiplication(a: Float32, b: Float32, r: Float32, s: Float32)
    requires
        call_ensures(f32_mul, (a, b), r),
        call_ensures(f32_mul, (b, a), s),
    ensures
        a.finite() && b.finite() ==> r.negative() == (a.negative() != b.negative())
            && r.magnitude() == nearest(abs_int(a.units()) * abs_int(b.units()), pow2(149)),
        a.finite() && b.finite() ==> r == s,
        a.nan() || b.nan() ==> r.nan(),
        a.infinite() && b.magnitude() == 0 ==> r.nan(),
        a.infinite() && !b.nan() && b.magnitude() != 0 ==> r.infinite() && r.negative() == (
        a.negative() != b.negative()),
{
    reveal(product);
    if a.finite() && b.finite() {
        let (x, y) = (magnitude_units(a.magnitude()), magnitude_units(b.magnitude()));
        assert(x * y == y * x) by (nonlinear_arith);
        lemma_nearest_bound(x * y, pow2(149));
        lemma_zero_units(a.magnitude());
        lemma_zero_units(b.magnitude());
        assert(abs_int(a.units()) == x && abs_int(b.units()) == y);
    }
}

/// A quotient is the number nearest to the exact quotient, negative where exactly one of
/// the two is; nothing but nothing divided by nothing, or two infinities, has none.
pub proof fn law_division(a: Float32, b: Float32, r: Float32)
    requires
        call_ensures(f32_div, (a, b), r),
    ensures
        a.finite() && b.finite() && b.units() != 0 ==> r.negative() == (a.negative()
            != b.negative()) && r.magnitude() == nearest(
            abs_int(a.units()) * pow2(149),
            abs_int(b.units()),
        ),
        a.nan() || b.nan() ==> r.nan(),
        a.finite() && b.finite() && b.units() == 0 ==> if a.units() == 0 {
            r.nan()
        } else {
            r.infinite() && r.negative() == (a.negative() != b.negative())
        },
        a.infinite() && b.infinite() ==> r.nan(),
        a.finite() && b.infinite() ==> r.magnitude() == 0,
        a.infinite() && b.finite() ==> r.infinite() && r.negative() == (a.negative()
            != b.negative()),
{
    reveal(quotient);
    if a.finite() && b.finite() {
        let (x, y) = (magnitude_units(a.magnitude()), magnitude_units(b.magnitude()));
        lemma_zero_units(a.magnitude());
        lemma_zero_units(b.magnitude());
        assert(abs_int(a.units()) == x && abs_int(b.units()) == y);
        if y > 0 {
            lemma_nearest_bound(x * pow2(149), y);
        }
    }
}

/// Numbers compare by value; what is not a number compares with nothing.
pub proof fn law_comparisons(a: Float32, b: Float32, less: bool, at_most: bool, same: bool)
    requires
        call_ensures(Float32::less, (a, b), less),
        call_ensures(Float32::at_most, (a, b), at_most),
        call_ensures(Float32::same_number, (a, b), same),
    ensures
        a.finite() && b.finite() ==> {
            &&& less <==> a.units() < b.units()
            &&& at_most <==> a.units() <= b.units()
            &&& same <==> a.units() == b.units()
        },
        a.nan() || b.nan() ==> !less && !at_most && !same,
{
    if a.finite() && b.finite() {
        law_order_is_numeric(a, b);
    }
}

/// The greater of two numbers is neither below the other, nor another; likewise the smaller.
/// Moving a number between bounds that are in order leads between them, and leaves what is
/// there already.
pub proof fn law_extremes(
    a: Float32,
    b: Float32,
    greater: Float32,
    smaller: Float32,
    low: Float32,
    high: Float32,
    moved: Float32,
)
    requires
        !a.nan(),
        !b.nan(),
        !low.nan(),
        !high.nan(),
        low.rank() <= high.rank(),
        call_ensures(Float32::maximum, (a, b), greater),
        call_ensures(Float32::minimum, (a, b), smaller),
        call_ensures(Float32::clamp, (a, low, high), moved),
    ensures
        greater == a || greater == b,
        greater.rank() >= a.rank() && greater.rank() >= b.rank(),
        smaller == a || smaller == b,
        smaller.rank() <= a.rank() && smaller.rank() <= b.rank(),
        low.rank() <= moved.rank() <= high.rank(),
        low.rank() <= a.rank() <= high.rank() ==> moved == a,
        a.rank() < low.rank() ==> moved.rank() == low.rank(),
        a.rank() > high.rank() ==> moved.rank() == high.rank(),
{
}

/// The absolute value has the sign taken away.
pub proof fn law_absolute(a: Float32, r: Float32)
    requires
        call_ensures(f32_abs, (a,), r),
    ensures
        !r.negative(),
        r.magnitude() == a.magnitude(),
        a.finite() ==> r.finite() && r.units() == abs_int(a.units()),
{
    if a.finite() {
        lemma_zero_units(a.magnitude());
    }
}

/// A count becomes the nearest number.
pub proof fn law_counts(n: usize, r: Float32)
    requires
        call_ensures(Float32::from_count, (n,), r),
    ensures
        !r.nan(),
        r.rank() == nearest(n as nat * pow2(149), 1),
{
    reveal(of_count);
    lemma_nearest_bound(n as nat * pow2(149), 1);
}

} // verus!
