use vortex_mesh::binary32::{Binary32, HALF, NAN};

/// Bit patterns that between them reach every kind of number.
fn patterns(count: usize) -> Vec<u32> {
    let mut found = vec![
        0, 0x8000_0000, 1, 0x8000_0001, 0x007f_ffff, 0x0080_0000, 0x0080_0001, 0x00ff_ffff,
        0x0100_0000, 0x3f80_0000, 0xbf80_0000, 0x3f7f_ffff, 0x3f80_0001, 0x7f7f_ffff, 0xff7f_ffff,
        0x7f80_0000, 0xff80_0000, 0x7fc0_0000, 0xffc0_0001, 0x3f00_0000, 0x4040_0000, 0x4b80_0000,
        0x3380_0000, 0x3400_0000, 0x2b8c_bccc, 0x2edb_e6ff, 0x7e80_0000, 0x1980_0000,
    ];
    let mut state = 0x9e37_79b9_7f4a_7c15_u64;
    while found.len() < count {
        state = state
            .wrapping_mul(6_364_136_223_846_793_005)
            .wrapping_add(1_442_695_040_888_963_407);
        let raw = (state >> 32) as u32;
        // Every other pattern is close to one, so that sums do not all absorb.
        if found.len() % 2 == 0 {
            found.push(raw);
        } else {
            found.push((raw & 0x80ff_ffff) | (0x3a00_0000 + ((raw >> 8) & 0x0f00_0000)));
        }
    }
    found
}

fn same(ours: Binary32, native: f32) -> bool {
    if native.is_nan() {
        ours.bits == NAN
    } else {
        ours.bits == native.to_bits()
    }
}

#[test]
fn sums_products_and_quotients_are_those_of_the_machine() {
    let all = patterns(700);
    for &x in &all {
        for &y in &all {
            let (a, b) = (Binary32::of(x), Binary32::of(y));
            let (p, q) = (f32::from_bits(x), f32::from_bits(y));
            assert!(same(a.plus(b), p + q), "{x:x} + {y:x}");
            assert!(same(a.minus(b), p - q), "{x:x} - {y:x}");
            assert!(same(a.times(b), p * q), "{x:x} * {y:x}");
            assert!(same(a.over(b), p / q), "{x:x} / {y:x}");
        }
    }
}

#[test]
fn comparisons_are_those_of_the_machine() {
    let all = patterns(700);
    for &x in &all {
        for &y in &all {
            let (a, b) = (Binary32::of(x), Binary32::of(y));
            let (p, q) = (f32::from_bits(x), f32::from_bits(y));
            assert_eq!(a.le(b), p <= q);
            assert_eq!(a.lt(b), p < q);
            assert_eq!(a.rank() < b.rank(), p.total_cmp(&q).is_lt());
            assert_eq!(a.rank() == b.rank(), x == y);
            if !(p.is_nan() && q.is_nan()) && p != q {
                assert_eq!(a.least(b).bits, p.min(q).to_bits());
                assert_eq!(a.greatest(b).bits, p.max(q).to_bits());
            }
        }
    }
}

#[test]
fn roots_and_conversions_are_those_of_the_machine() {
    for x in patterns(200_000) {
        let a = Binary32::of(x);
        let p = f32::from_bits(x);
        assert!(same(a.root(), p.sqrt()), "sqrt {x:x}");
        assert_eq!(a.neg().bits, (-p).to_bits());
        assert_eq!(a.abs().bits, p.abs().to_bits());
        assert_eq!(a.is_nan(), p.is_nan());
        assert_eq!(a.is_finite(), p.is_finite());
        assert!(same(Binary32::from_count(x as u64), x as f32));
        let wide = (x as u64) << 17 | 0x1_2345;
        assert!(same(Binary32::from_count(wide), wide as f32));
    }
}

#[test]
fn exact_values() {
    let three = Binary32::of(3.0_f32.to_bits());
    let four = Binary32::of(4.0_f32.to_bits());
    assert_eq!(three.plus(four).bits, 7.0_f32.to_bits());
    assert_eq!(three.minus(four).bits, (-1.0_f32).to_bits());
    assert_eq!(three.times(four).bits, 12.0_f32.to_bits());
    assert_eq!(three.over(four).bits, 0.75_f32.to_bits());
    assert_eq!(four.root().bits, 2.0_f32.to_bits());
    assert_eq!(Binary32::from_count(16_777_217).bits, 16_777_216.0_f32.to_bits());
}

#[test]
fn middles_are_off_by_rounding_alone() {
    let all = patterns(700);
    for &x in &all {
        for &y in &all {
            let (a, b) = (Binary32::of(x), Binary32::of(y));
            let sum = a.plus(b);
            if !a.is_finite() || !b.is_finite() || !sum.is_finite() {
                continue;
            }
            let middle = f64::from(f32::from_bits(sum.times(Binary32::of(HALF)).bits));
            let exact = f64::from(f32::from_bits(x)) + f64::from(f32::from_bits(y));
            let unit = f64::from(f32::from_bits(1));
            let slip = (2.0 * middle - exact).abs();
            assert!(slip <= unit + 3.0 * exact.abs() / 16_777_216.0);
        }
    }
}

#[test]
fn products_keep_the_order_of_their_factors() {
    let all = patterns(200);
    for &x in &all {
        let x = Binary32::of(x & 0x7fff_ffff);
        for &low in &all {
            for &high in &all {
                let (low, high) = (Binary32::of(low), Binary32::of(high));
                let positive = Binary32::of(0).lt(low) && low.is_finite() && high.is_finite();
                if positive && low.le(high) {
                    assert!(x.is_nan() || x.times(low).le(x.times(high)));
                }
            }
        }
        for &y in &all {
            let y = Binary32::of(y);
            assert_eq!(x.times(y), y.times(x));
        }
    }
}
