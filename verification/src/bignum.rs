//! Natural numbers of any size, in limbs of 32 bits, the lowest first.
use vstd::prelude::*;

verus! {

pub open spec fn limb_base() -> nat {
    0x1_0000_0000
}

/// The number that limbs stand for.
pub open spec fn big_value(limbs: Seq<u32>) -> nat
    decreases limbs.len(),
{
    if limbs.len() == 0 {
        0
    } else {
        limbs[0] as nat + limb_base() * big_value(limbs.drop_first())
    }
}

/// The weight of the limb at position `i`.
pub open spec fn weight(i: nat) -> nat
    decreases i,
{
    if i == 0 {
        1
    } else {
        limb_base() * weight((i - 1) as nat)
    }
}

/// A further limb adds its weighted value.
pub proof fn lemma_big_push(limbs: Seq<u32>, limb: u32)
    ensures
        big_value(limbs.push(limb)) == big_value(limbs) + limb * weight(limbs.len()),
    decreases limbs.len(),
{
    let longer = limbs.push(limb);
    if limbs.len() == 0 {
        assert(longer.drop_first() =~= Seq::empty());
        assert(big_value(longer.drop_first()) == 0);
        assert(weight(0) == 1);
        assert(limb * 1 == limb);
        assert(limb_base() * 0 == 0);
        assert(big_value(longer) == limb as nat + limb_base() * big_value(longer.drop_first()));
    } else {
        lemma_big_push(limbs.drop_first(), limb);
        assert(longer.drop_first() =~= limbs.drop_first().push(limb));
        let (v, w) = (big_value(limbs.drop_first()), weight((limbs.len() - 1) as nat));
        assert(limb_base() * (v + limb * w) == limb_base() * v + limb * (limb_base() * w))
            by (nonlinear_arith);
    }
}

pub proof fn lemma_big_take(limbs: Seq<u32>, i: int)
    requires
        0 <= i < limbs.len(),
    ensures
        big_value(limbs.take(i + 1)) == big_value(limbs.take(i)) + limbs[i] * weight(i as nat),
{
    assert(limbs.take(i + 1) =~= limbs.take(i).push(limbs[i]));
    lemma_big_push(limbs.take(i), limbs[i]);
}

/// A number stays below the weight of the limb behind its last one.
pub proof fn lemma_big_bound(limbs: Seq<u32>)
    ensures
        big_value(limbs) < weight(limbs.len()),
    decreases limbs.len(),
{
    if limbs.len() > 0 {
        lemma_big_bound(limbs.drop_first());
        let (l, v, w) = (
            limbs[0] as nat,
            big_value(limbs.drop_first()),
            weight((limbs.len() - 1) as nat),
        );
        assert(l + limb_base() * v < limb_base() * w) by (nonlinear_arith)
            requires
                l < limb_base(),
                v < w,
                limb_base() == 0x1_0000_0000,
        ;
    }
}

/// Multiplies by a small number and adds another.
pub fn big_times(limbs: &Vec<u32>, factor: u32, summand: u32) -> (r: Vec<u32>)
    ensures
        big_value(r@) == big_value(limbs@) * factor + summand,
{
    let mut r: Vec<u32> = Vec::new();
    let mut carry: u64 = summand as u64;
    let mut i: usize = 0;
    proof {
        assert(limbs@.take(0) =~= Seq::empty());
        assert(big_value(limbs@.take(0)) == 0);
        assert(big_value(r@) == 0);
        assert(weight(0) == 1);
        assert(carry * 1 == carry);
        assert(0 * factor == 0);
    }
    while i < limbs.len()
        invariant
            i <= limbs@.len(),
            r@.len() == i,
            carry < 0x1_0000_0000,
            big_value(r@) + carry * weight(i as nat) == big_value(limbs@.take(i as int)) * factor
                + summand,
        decreases limbs.len() - i,
    {
        let ghost before = r@;
        let ghost old_carry = carry;
        let ghost limb = limbs@[i as int];
        proof {
            assert(limb * factor <= 0xffff_fffe_0000_0001) by (nonlinear_arith)
                requires
                    limb <= 0xffff_ffff,
                    factor <= 0xffff_ffff,
            ;
        }
        let product: u64 = limbs[i] as u64 * factor as u64 + carry;
        let low: u32 = (product % 0x1_0000_0000) as u32;
        r.push(low);
        carry = product / 0x1_0000_0000;
        proof {
            lemma_big_push(before, low);
            lemma_big_take(limbs@, i as int);
            let w = weight(i as nat);
            let v = big_value(limbs@.take(i as int));
            let p = product as nat;
            assert(low * w + carry * (limb_base() * w) == p * w) by (nonlinear_arith)
                requires
                    p == low + carry * limb_base(),
            ;
            assert(p * w == limb * factor * w + old_carry * w) by (nonlinear_arith)
                requires
                    p == limb * factor + old_carry,
            ;
            assert((v + limb * w) * factor == v * factor + limb * factor * w)
                by (nonlinear_arith);
        }
        i = i + 1;
    }
    let last: u32 = carry as u32;
    let ghost before = r@;
    r.push(last);
    proof {
        lemma_big_push(before, last);
        assert(limbs@.take(i as int) =~= limbs@);
    }
    r
}

/// Subtracts; nothing where the result would be negative.
pub fn big_minus(a: &Vec<u32>, b: &Vec<u32>) -> (r: Option<Vec<u32>>)
    ensures
        match r {
            Some(d) => big_value(b@) <= big_value(a@) && big_value(d@) == big_value(a@)
                - big_value(b@),
            None => big_value(a@) < big_value(b@),
        },
{
    let n: usize = if a.len() < b.len() {
        b.len()
    } else {
        a.len()
    };
    let mut r: Vec<u32> = Vec::new();
    let mut borrow: u64 = 0;
    let mut i: usize = 0;
    let ghost (x, y) = (widened(a@, n as int), widened(b@, n as int));
    proof {
        lemma_widened(a@, n as int);
        lemma_widened(b@, n as int);
        assert(x.take(0) =~= Seq::empty());
        assert(y.take(0) =~= Seq::empty());
        assert(big_value(r@) == 0);
        assert(0 * weight(0) == 0);
    }
    while i < n
        invariant
            i <= n,
            n >= a@.len(),
            n >= b@.len(),
            x == widened(a@, n as int),
            y == widened(b@, n as int),
            r@.len() == i,
            borrow <= 1,
            big_value(x.take(i as int)) + borrow * weight(i as nat) == big_value(
                y.take(i as int),
            ) + big_value(r@),
        decreases n - i,
    {
        let p: u64 = if i < a.len() {
            a[i] as u64
        } else {
            0
        };
        let q: u64 = (if i < b.len() {
            b[i] as u64
        } else {
            0
        }) + borrow;
        let ghost before = r@;
        let ghost old_borrow = borrow;
        let digit: u32 = if p < q {
            (p + 0x1_0000_0000 - q) as u32
        } else {
            (p - q) as u32
        };
        borrow = if p < q {
            1
        } else {
            0
        };
        r.push(digit);
        proof {
            lemma_big_push(before, digit);
            lemma_big_take(x, i as int);
            lemma_big_take(y, i as int);
            let w = weight(i as nat);
            let (u, v, d, s, o) = (
                x[i as int] as int,
                y[i as int] as int,
                digit as int,
                borrow as int,
                old_borrow as int,
            );
            assert(u * w + s * (limb_base() * w) == v * w + o * w + d * w) by (nonlinear_arith)
                requires
                    u + s * limb_base() == v + o + d,
            ;
        }
        i = i + 1;
    }
    proof {
        assert(x.take(n as int) =~= x);
        assert(y.take(n as int) =~= y);
        lemma_big_bound(r@);
    }
    if borrow == 0 {
        Some(r)
    } else {
        None
    }
}

/// Limbs with zeros behind them.
spec fn widened(limbs: Seq<u32>, n: int) -> Seq<u32> {
    Seq::new(
        n as nat,
        |i: int|
            if i < limbs.len() {
                limbs[i]
            } else {
                0
            },
    )
}

proof fn lemma_widened(limbs: Seq<u32>, n: int)
    requires
        n >= limbs.len(),
    ensures
        big_value(widened(limbs, n)) == big_value(limbs),
    decreases n,
{
    let wide = widened(limbs, n);
    if n > 0 {
        if limbs.len() > 0 {
            lemma_widened(limbs.drop_first(), n - 1);
            assert(wide.drop_first() =~= widened(limbs.drop_first(), n - 1));
        } else {
            lemma_widened(limbs, n - 1);
            assert(wide.drop_first() =~= widened(limbs, n - 1));
            assert(big_value(wide) == 0 + limb_base() * big_value(wide.drop_first()));
        }
    } else {
        assert(wide =~= limbs);
    }
}

} // verus!
