use cs_float_planner::decimal::{nine_places, two_places};
use cs_float_planner::float32::{f32_abs, f32_add, f32_div, f32_mul, f32_sub, Float32};

fn float(x: f32) -> Float32 {
    Float32::from_bits(x.to_bits())
}

fn same(ours: Float32, native: f32) -> bool {
    if native.is_nan() {
        ours.is_nan()
    } else {
        ours.to_bits() == native.to_bits()
    }
}

fn next(seed: &mut u64) -> u32 {
    *seed ^= *seed << 13;
    *seed ^= *seed >> 7;
    *seed ^= *seed << 17;
    (*seed >> 16) as u32
}

/// Bit patterns around every boundary of the format.
fn edges() -> Vec<u32> {
    let mut bits = Vec::new();
    for base in [
        0u32,
        1,
        2,
        3,
        0x007f_fffe,
        0x007f_ffff,
        0x0080_0000,
        0x0080_0001,
        0x00ff_ffff,
        0x0100_0000,
        0x0b80_0000,
        0x3380_0000,
        0x3400_0000,
        0x3eff_ffff,
        0x3f00_0000,
        0x3f7f_ffff,
        0x3f80_0000,
        0x3f80_0001,
        0x4000_0000,
        0x4b7f_ffff,
        0x4b80_0000,
        0x4b80_0001,
        0x7eff_ffff,
        0x7f00_0000,
        0x7f7f_fffe,
        0x7f7f_ffff,
        0x7f80_0000,
        0x7fc0_0000,
        0x7f80_0001,
    ] {
        bits.push(base);
        bits.push(base | 0x8000_0000);
    }
    bits
}

fn check_pair(a: u32, b: u32) {
    let (x, y) = (f32::from_bits(a), f32::from_bits(b));
    let (p, q) = (Float32::from_bits(a), Float32::from_bits(b));
    assert!(same(f32_add(p, q), x + y), "{a:#x} + {b:#x}");
    assert!(same(f32_sub(p, q), x - y), "{a:#x} - {b:#x}");
    assert!(same(f32_mul(p, q), x * y), "{a:#x} * {b:#x}");
    assert!(same(f32_div(p, q), x / y), "{a:#x} / {b:#x}");
    assert_eq!(p.less(q), x < y);
    assert_eq!(p.at_most(q), x <= y);
    assert_eq!(p.same_number(q), x == y);
    assert!(p.maximum(q).same_number(float(x.max(y))) || x.max(y).is_nan());
    assert!(p.minimum(q).same_number(float(x.min(y))) || x.min(y).is_nan());
    assert_eq!(
        p.total_rank_value() < q.total_rank_value(),
        x.total_cmp(&y) == std::cmp::Ordering::Less
    );
}

#[test]
fn arithmetic_agrees_with_the_processor_on_edges() {
    let bits = edges();
    for &a in &bits {
        for &b in &bits {
            check_pair(a, b);
        }
    }
}

#[test]
fn arithmetic_agrees_with_the_processor_on_many_patterns() {
    let mut seed = 0x9e37_79b9_7f4a_7c15;
    for _ in 0..200_000 {
        let a = next(&mut seed);
        let b = next(&mut seed);
        check_pair(a, b);
        // Neighbouring exponents, where cancellation and ties are common.
        let c = (a & 0x807f_ffff) | (0x3f00_0000 + ((b & 7) << 23));
        let d = (b & 0x807f_ffff) | (0x3f00_0000 + ((a & 15) << 23));
        check_pair(c, d);
        check_pair(a & 0x80ff_ffff, b & 0x80ff_ffff);
    }
}

#[test]
fn absolute_value_clears_the_sign() {
    for &a in &edges() {
        assert_eq!(f32_abs(Float32::from_bits(a)).to_bits(), a & 0x7fff_ffff);
    }
}

#[test]
fn counts_convert_exactly_as_the_processor_does() {
    for n in [0usize, 1, 5, 10, 16_777_215, 16_777_216, 16_777_217, 33_554_435] {
        assert_eq!(Float32::from_count(n).to_bits(), (n as f32).to_bits());
    }
    if usize::BITS == 64 {
        for n in [usize::MAX, usize::MAX / 3, 0xff_ffff_8000_0000usize] {
            assert_eq!(Float32::from_count(n).to_bits(), (n as f32).to_bits());
        }
    }
}

#[test]
fn decimal_text_agrees_with_the_formatter() {
    let mut seed = 42;
    for i in 0..20_000u32 {
        let mut bits = next(&mut seed);
        if i % 2 == 0 {
            bits = (bits & 0x80ff_ffff) | 0x3e00_0000;
        }
        let x = f32::from_bits(bits);
        if x.is_nan() {
            continue;
        }
        assert_eq!(nine_places(Float32::from_bits(bits)), format!("{x:.9}"));
        assert_eq!(two_places(Float32::from_bits(bits)), format!("{x:.2}"));
    }
    for &bits in &edges() {
        let x = f32::from_bits(bits);
        if !x.is_nan() {
            assert_eq!(nine_places(Float32::from_bits(bits)), format!("{x:.9}"));
        }
    }
}
