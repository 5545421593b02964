use fp8::fp8_i::E4M3;
use fp8::fp8_t::E5M2;

#[test]
fn add_exact_sums() {
    // 1.0 + 1.0 = 2.0
    let r = E4M3::new(0x38).add(E4M3::new(0x38));
    assert_eq!(r, E4M3::new(0x40));
    // 1.0 + 0.5 = 1.5
    let r = E4M3::new(0x38).add(E4M3::new(0x30));
    assert_eq!(r, E4M3::new(0x3C));
    // two smallest denormals
    let r = E4M3::new(0x01).add(E4M3::new(0x01));
    assert_eq!(r, E4M3::new(0x02));
    // largest denormal plus one step is the smallest normal
    let r = E4M3::new(0x07).add(E4M3::new(0x01));
    assert_eq!(r, E4M3::new(0x08));
}

#[test]
fn add_rounds_ties_to_even() {
    // 576 + 32 steps = 608 = 9.5 * 64: the tie goes up to the even mantissa
    let r = E4M3::new(0x39).add(E4M3::new(0x18));
    assert_eq!(r, E4M3::new(0x3A));
    // 640 + 32 steps = 672 = 10.5 * 64: the tie stays on the even mantissa
    let r = E4M3::new(0x3A).add(E4M3::new(0x18));
    assert_eq!(r, E4M3::new(0x3A));
    // 15 + 16 steps = 31 = 15.5 * 2: rounding carries into the next binade
    let r = E4M3::new(0x0F).add(E4M3::new(0x10));
    assert_eq!(r, E4M3::new(0x18));
}

#[test]
fn add_rounds_small_tail_down() {
    // -448 plus 0.5 is within half a step of -448 and rounds back onto it
    let r = E4M3::new(0xFE).add(E4M3::new(0x30));
    assert_eq!(r, E4M3::new(0xFE));
}

#[test]
fn add_overflows_to_nan() {
    // the format has no infinity: 448 + 448 is NaN
    assert!(E4M3::new(0x7E).add(E4M3::new(0x7E)).is_nan());
    assert!(E4M3::new(0xFE).add(E4M3::new(0xFE)).is_nan());
    // 448 + 64 crosses the largest representable magnitude
    assert!(E4M3::new(0x7E).add(E4M3::new(0x60)).is_nan());
}

#[test]
fn add_cancellation_gives_positive_zero() {
    let r = E4M3::new(0x38).add(E4M3::new(0xB8));
    assert!(r.is_zero());
    let r = E4M3::new(0x81).add(E4M3::new(0x01));
    assert!(r.is_zero());
}

#[test]
fn add_zero_sign_rule() {
    assert!(E4M3::neg_zero().add(E4M3::neg_zero()).is_neg_zero());
    assert!(E4M3::neg_zero().add(E4M3::zero()).is_zero());
    assert!(E4M3::zero().add(E4M3::neg_zero()).is_zero());
    assert!(E4M3::zero().add(E4M3::zero()).is_zero());
}

#[test]
fn add_identity() {
    // adding a zero leaves every finite value unchanged, bit for bit; the
    // one exception is negative zero plus positive zero, which is positive
    for b in 0..=255u8 {
        let v = E4M3::new(b);
        if v.is_nan() {
            continue;
        }
        assert_eq!(v.add(E4M3::neg_zero()), v);
        if b != 0x80 {
            assert_eq!(v.add(E4M3::zero()), v);
        } else {
            assert!(v.add(E4M3::zero()).is_zero());
        }
    }
}

#[test]
fn add_nan_propagation() {
    for b in 0..=255u8 {
        let v = E4M3::new(b);
        assert!(E4M3::nan().add(v).is_nan());
        assert!(v.add(E4M3::nan()).is_nan());
        assert!(E4M3::new(0x7F).add(v).is_nan());
        assert!(v.add(E4M3::new(0x7F)).is_nan());
    }
}

#[test]
fn add_commutativity() {
    for a in 0..=255u8 {
        for b in 0..=255u8 {
            let x = E4M3::new(a).add(E4M3::new(b));
            let y = E4M3::new(b).add(E4M3::new(a));
            assert_eq!(x, y);
        }
    }
}

#[test]
fn add_matches_wide_arithmetic() {
    // against a reference in f64 (wide enough to be exact for these ranges):
    // every non-overflowing sum of finite operands is the nearest
    // representable value of the exact sum
    for a in 0..=255u8 {
        for b in 0..=255u8 {
            let x = E4M3::new(a);
            let y = E4M3::new(b);
            if x.is_nan() || y.is_nan() {
                continue;
            }
            let sum = x.add(y);
            if sum.is_nan() {
                continue;
            }
            let exact = x.scaled_value() as f64 + y.scaled_value() as f64;
            let got = sum.scaled_value() as f64;
            // the error is at most half the spacing at the result
            let spacing = spacing_at(exact.abs());
            assert!((got - exact).abs() * 2.0 <= spacing, "{} {} -> {}", a, b, got);
        }
    }
}

fn spacing_at(mag: f64) -> f64 {
    let mut q = 1.0;
    let mut t = mag;
    while t >= 16.0 {
        t /= 2.0;
        q *= 2.0;
    }
    q
}

#[test]
fn e5m2_add_exact_sums() {
    // 1.0 + 1.0 = 2.0
    let r = E5M2::new(0x3C).add(E5M2::new(0x3C));
    assert_eq!(r, E5M2::new(0x40));
    // two smallest denormals
    let r = E5M2::new(0x01).add(E5M2::new(0x01));
    assert_eq!(r, E5M2::new(0x02));
    // largest denormal plus one step is the smallest normal
    let r = E5M2::new(0x03).add(E5M2::new(0x01));
    assert_eq!(r, E5M2::new(0x04));
}

#[test]
fn e5m2_add_rounds_ties_to_even() {
    // 81920 + 8192 steps = 5.5 * 16384: the tie goes up to the even mantissa
    let r = E5M2::new(0x3D).add(E5M2::new(0x30));
    assert_eq!(r, E5M2::new(0x3E));
    // 98304 + 8192 steps = 6.5 * 16384: the tie stays on the even mantissa
    let r = E5M2::new(0x3E).add(E5M2::new(0x30));
    assert_eq!(r, E5M2::new(0x3E));
}

#[test]
fn e5m2_add_overflows_to_nan() {
    assert!(E5M2::new(0x7E).add(E5M2::new(0x7E)).is_nan());
    assert!(E5M2::new(0xFE).add(E5M2::new(0xFE)).is_nan());
}

#[test]
fn e5m2_add_zero_rules() {
    assert!(E5M2::neg_zero().add(E5M2::neg_zero()).is_neg_zero());
    assert!(E5M2::neg_zero().add(E5M2::zero()).is_zero());
    assert!(E5M2::new(0x3C).add(E5M2::new(0xBC)).is_zero());
    for b in 0..=255u8 {
        let v = E5M2::new(b);
        if v.is_nan() {
            continue;
        }
        assert_eq!(v.add(E5M2::neg_zero()), v);
        if b != 0x80 {
            assert_eq!(v.add(E5M2::zero()), v);
        }
    }
}

#[test]
fn e5m2_add_nan_propagation_and_commutativity() {
    for a in 0..=255u8 {
        assert!(E5M2::nan().add(E5M2::new(a)).is_nan());
        assert!(E5M2::new(a).add(E5M2::nan()).is_nan());
        for b in 0..=255u8 {
            let x = E5M2::new(a).add(E5M2::new(b));
            let y = E5M2::new(b).add(E5M2::new(a));
            assert_eq!(x, y);
        }
    }
}

#[test]
fn e5m2_add_matches_wide_arithmetic() {
    for a in 0..=255u8 {
        for b in 0..=255u8 {
            let x = E5M2::new(a);
            let y = E5M2::new(b);
            if x.is_nan() || y.is_nan() {
                continue;
            }
            let sum = x.add(y);
            if sum.is_nan() {
                continue;
            }
            let exact = x.scaled_value() as f64 + y.scaled_value() as f64;
            let got = sum.scaled_value() as f64;
            let spacing = e5m2_spacing_at(exact.abs());
            assert!((got - exact).abs() * 2.0 <= spacing, "{} {} -> {}", a, b, got);
        }
    }
}

fn e5m2_spacing_at(mag: f64) -> f64 {
    let mut q = 1.0;
    let mut t = mag;
    while t >= 8.0 {
        t /= 2.0;
        q *= 2.0;
    }
    q
}
