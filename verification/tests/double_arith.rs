use neuroevo::double::{Double, QUIET_NAN};

struct Lcg(u64);

impl Lcg {
    fn next(&mut self) -> u64 {
        self.0 = self.0.wrapping_mul(6364136223846793005).wrapping_add(1442695040888963407);
        let hi = self.0 >> 32;
        self.0 = self.0.wrapping_mul(6364136223846793005).wrapping_add(1442695040888963407);
        (hi << 32) | (self.0 >> 32)
    }
}

fn edge_patterns() -> Vec<u64> {
    let mut v = Vec::new();
    let magnitudes: [u64; 24] = [
        0,
        1,
        2,
        3,
        0x000f_ffff_ffff_ffff,
        0x000f_ffff_ffff_fffe,
        0x0008_0000_0000_0000,
        0x0010_0000_0000_0000,
        0x0010_0000_0000_0001,
        0x001f_ffff_ffff_ffff,
        0x0020_0000_0000_0000,
        0x3ff0_0000_0000_0000,
        0x3ff0_0000_0000_0001,
        0x3fef_ffff_ffff_ffff,
        0x3fe0_0000_0000_0000,
        0x4000_0000_0000_0000,
        0x4340_0000_0000_0000,
        0x4330_0000_0000_0001,
        0x3ca0_0000_0000_0000,
        0x3c90_0000_0000_0000,
        0x7fef_ffff_ffff_ffff,
        0x7fe0_0000_0000_0000,
        0x7ff0_0000_0000_0000,
        0x7ff8_0000_0000_0001,
    ];
    for m in magnitudes {
        v.push(m);
        v.push(m | 0x8000_0000_0000_0000);
    }
    v.push(0x7ff0_0000_0000_0001);
    v.push(0xfff4_0000_0000_0000);
    v
}

fn check_sum(x: u64, y: u64) {
    let got = Double::from_bits(x).plus(Double::from_bits(y)).to_bits();
    let want = f64::from_bits(x) + f64::from_bits(y);
    if want.is_nan() {
        assert_eq!(got, QUIET_NAN, "{:#018x} + {:#018x}", x, y);
    } else {
        assert_eq!(got, want.to_bits(), "{:#018x} + {:#018x}", x, y);
    }
}

fn check_order(x: u64, y: u64) {
    let got = Double::from_bits(x).gt(Double::from_bits(y));
    let want = f64::from_bits(x) > f64::from_bits(y);
    assert_eq!(got, want, "{:#018x} > {:#018x}", x, y);
}

#[test]
fn sums_of_edge_values_match_the_machine() {
    let edges = edge_patterns();
    for &x in &edges {
        for &y in &edges {
            check_sum(x, y);
        }
    }
}

#[test]
fn sums_of_arbitrary_patterns_match_the_machine() {
    let mut rng = Lcg(0x1234_5678_9abc_def0);
    for _ in 0..200_000 {
        check_sum(rng.next(), rng.next());
    }
}

#[test]
fn sums_of_nearby_magnitudes_match_the_machine() {
    let mut rng = Lcg(42);
    for _ in 0..300_000 {
        let x = rng.next();
        let exponent = (x >> 52) & 0x7ff;
        let shift = rng.next() % 141;
        let other = (exponent + shift).saturating_sub(70).min(0x7fe);
        let y = (rng.next() & 0x800f_ffff_ffff_ffff) | (other << 52);
        check_sum(x, y);
        check_sum(y, x);
    }
}

#[test]
fn sums_with_sparse_fractions_match_the_machine() {
    // Few fraction bits set: exact ties between two doubles are common.
    let mut rng = Lcg(7);
    for _ in 0..300_000 {
        let a = rng.next();
        let b = rng.next();
        let c = rng.next();
        let fraction_x = (1u64 << (a % 52)) | (1u64 << (b % 52)) | (c & 1);
        let fraction_y = (1u64 << ((a >> 8) % 52)) | ((c >> 1) & 1);
        let exponent_x = (b >> 8) % 0x7ff;
        let exponent_y = (exponent_x + (c >> 8) % 121).saturating_sub(60).min(0x7fe);
        let x = ((a >> 63) << 63) | (exponent_x << 52) | fraction_x;
        let y = ((b >> 63) << 63) | (exponent_y << 52) | fraction_y;
        check_sum(x, y);
    }
}

#[test]
fn sums_near_the_subnormal_range_match_the_machine() {
    let mut rng = Lcg(99);
    for _ in 0..200_000 {
        let x = rng.next() & 0x803f_ffff_ffff_ffff;
        let y = rng.next() & 0x803f_ffff_ffff_ffff;
        check_sum(x, y);
    }
}

#[test]
fn sums_near_overflow_match_the_machine() {
    let mut rng = Lcg(5);
    for _ in 0..200_000 {
        let x = (rng.next() & 0x800f_ffff_ffff_ffff) | (0x7fe - rng.next() % 3) << 52;
        let y = (rng.next() & 0x800f_ffff_ffff_ffff) | (0x7fe - rng.next() % 56) << 52;
        check_sum(x, y);
    }
}

#[test]
fn sum_examples() {
    let one = 1.0f64.to_bits();
    let two = 2.0f64.to_bits();
    assert_eq!(Double::from_bits(one).plus(Double::from_bits(one)).to_bits(), two);
    assert_eq!(
        Double::from_bits(0.1f64.to_bits()).plus(Double::from_bits(0.2f64.to_bits())).to_bits(),
        0x3fd3_3333_3333_3334
    );
    // A tie goes to the even significand: 1 + 2^-53 is 1.
    let tiny = (2.0f64).powi(-53).to_bits();
    assert_eq!(Double::from_bits(one).plus(Double::from_bits(tiny)).to_bits(), one);
    // 1 + 2^-52 + 2^-53 rounds up to the even neighbour.
    let odd = one + 1;
    assert_eq!(Double::from_bits(odd).plus(Double::from_bits(tiny)).to_bits(), one + 2);
    // The largest finite double doubled overflows to infinity.
    let max = f64::MAX.to_bits();
    let inf = f64::INFINITY.to_bits();
    assert_eq!(Double::from_bits(max).plus(Double::from_bits(max)).to_bits(), inf);
    // Zeros.
    let pz = 0u64;
    let nz = 0x8000_0000_0000_0000u64;
    assert_eq!(Double::from_bits(nz).plus(Double::from_bits(nz)).to_bits(), nz);
    assert_eq!(Double::from_bits(nz).plus(Double::from_bits(pz)).to_bits(), pz);
    assert_eq!(Double::from_bits(one).plus(Double::from_bits(one | nz)).to_bits(), pz);
    // Infinities.
    assert_eq!(Double::from_bits(inf).plus(Double::from_bits(inf | nz)).to_bits(), QUIET_NAN);
    assert_eq!(Double::from_bits(inf).plus(Double::from_bits(max | nz)).to_bits(), inf);
}

#[test]
fn differences_match_the_machine() {
    let edges = edge_patterns();
    let check = |x: u64, y: u64| {
        let got = Double::from_bits(x).minus(Double::from_bits(y)).to_bits();
        let want = f64::from_bits(x) - f64::from_bits(y);
        if want.is_nan() {
            assert_eq!(got, QUIET_NAN, "{:#018x} - {:#018x}", x, y);
        } else {
            assert_eq!(got, want.to_bits(), "{:#018x} - {:#018x}", x, y);
        }
    };
    for &x in &edges {
        for &y in &edges {
            check(x, y);
        }
    }
    let mut rng = Lcg(17);
    for _ in 0..200_000 {
        let x = rng.next();
        let exponent = (x >> 52) & 0x7ff;
        let other = (exponent + rng.next() % 5).saturating_sub(2).min(0x7fe);
        let y = (rng.next() & 0x800f_ffff_ffff_ffff) | (other << 52);
        check(x, y);
    }
}

#[test]
fn negation_flips_the_sign_bit() {
    for x in edge_patterns() {
        let got = Double::from_bits(x).negate().to_bits();
        assert_eq!(got, x ^ 0x8000_0000_0000_0000);
        assert_eq!(got, (-f64::from_bits(x)).to_bits());
        assert_eq!(Double::from_bits(x).is_negative(), f64::from_bits(x).is_sign_negative());
        assert_eq!(Double::from_bits(x).abs_bits(), f64::from_bits(x).abs().to_bits());
    }
}

#[test]
fn classification_matches_the_machine() {
    let mut patterns = edge_patterns();
    let mut rng = Lcg(23);
    for _ in 0..10_000 {
        patterns.push(rng.next());
    }
    let one = Double::from_bits(1.0f64.to_bits());
    for x in patterns {
        let v = f64::from_bits(x);
        let dx = Double::from_bits(x);
        assert_eq!(dx.finite(), v.is_finite());
        assert_eq!(dx.is_positive(), v > 0.0);
        assert_eq!(dx.within(one), v.abs() <= 1.0);
        assert_eq!(dx.within(one.negate()), v.abs() <= 1.0);
        assert_eq!(one.within(dx), 1.0 <= v.abs());
    }
}

#[test]
fn order_matches_the_machine() {
    let edges = edge_patterns();
    for &x in &edges {
        for &y in &edges {
            check_order(x, y);
        }
    }
    let mut rng = Lcg(3);
    for _ in 0..200_000 {
        let x = rng.next();
        let y = rng.next();
        check_order(x, y);
        check_order(x, x ^ (1u64 << (y % 64)));
    }
}

#[test]
fn product_with_a_bit_matches_the_machine() {
    let mut patterns = edge_patterns();
    let mut rng = Lcg(11);
    for _ in 0..1000 {
        patterns.push(rng.next());
    }
    for x in patterns {
        for (on, factor) in [(true, 1.0f64), (false, 0.0f64)] {
            let got = Double::from_bits(x).times_bit(on).to_bits();
            let want = f64::from_bits(x) * factor;
            if want.is_nan() {
                assert_eq!(got, QUIET_NAN);
            } else {
                assert_eq!(got, want.to_bits());
            }
        }
    }
}
