use fp8::fp8_i::E4M3;
use fp8::fp8_t::E5M2;

fn breakdown_e4m3(v: &E4M3) -> String {
    format!(
        "sign: {:01b} exp: {:04b} mantissa: {:03b}",
        v.sign(),
        v.exp(),
        v.mantissa()
    )
}

#[test]
fn display_test() {
    let fp8i = E4M3::new(0x12);
    println!("{}", breakdown_e4m3(&fp8i));
    let pmaxnormal = E4M3::new(0xFE);
    let nmaxnormal = E4M3::new(0x7E);
    let pminnormal = E4M3::new(0x88);
    let nminnormal = E4M3::new(0x08);
    println!("{}", breakdown_e4m3(&pmaxnormal));
    println!("{}", breakdown_e4m3(&nmaxnormal));
    println!("{}", breakdown_e4m3(&pminnormal));
    println!("{}", breakdown_e4m3(&nminnormal));
    let pmaxsubnormal = E4M3::new(0x87);
    let nmaxsubnormal = E4M3::new(0x07);
    let pminsubnormal = E4M3::new(0x81);
    let nminsubnormal = E4M3::new(0x01);
    println!("{}", breakdown_e4m3(&pmaxsubnormal));
    println!("{}", breakdown_e4m3(&nmaxsubnormal));
    println!("{}", breakdown_e4m3(&pminsubnormal));
    println!("{}", breakdown_e4m3(&nminsubnormal));
    let nan = E4M3::new(0xFF);
    let neg_nan = E4M3::new(0x7F);
    let zero = E4M3::new(0x80);
    let neg_zero = E4M3::new(0x00);
    println!("{}", breakdown_e4m3(&nan));
    println!("{}", breakdown_e4m3(&neg_nan));
    println!("{}", breakdown_e4m3(&zero));
    println!("{}", breakdown_e4m3(&neg_zero));
}

#[test]
fn nan_test() {
    assert!(E4M3::new(0xFF).is_nan());
    assert!(E4M3::new(0x7F).is_nan());
    assert!(E4M3::nan().is_nan());
    assert!(!E4M3::new(0xFE).is_nan());
    assert!(!E4M3::new(0x7E).is_nan());
}

fn value_e4m3(v: &E4M3) -> f32 {
    assert!(!v.is_nan());
    v.scaled_value() as f32 / 512.0
}

#[test]
fn special_value_round_trip() {
    let zero = E4M3::new(0x00);
    assert!(zero.is_zero());
    assert_eq!(zero.sign(), 0);
    assert_eq!(zero.scaled_value(), 0);
    assert_eq!(value_e4m3(&zero), 0.0);

    let neg_zero = E4M3::new(0x80);
    assert!(neg_zero.is_neg_zero());
    assert_eq!(neg_zero.sign(), 1);
    assert_eq!(neg_zero.scaled_value(), 0);
    assert_eq!(value_e4m3(&neg_zero), 0.0);

    assert!(E4M3::new(0xFF).is_nan());
    assert!(E4M3::new(0x7F).is_nan());

    assert!(E4M3::zero().is_zero());
    assert!(E4M3::neg_zero().is_neg_zero());
}

#[test]
fn normal_decode() {
    // exponent field 7 (the bias), mantissa 0: exactly 1.0
    let one = E4M3::new(0b0_0111_000);
    assert_eq!(one.sign(), 0);
    assert_eq!(one.exp(), 7);
    assert_eq!(one.mantissa(), 0);
    assert!(!one.is_subnormal());
    assert_eq!(one.scaled_value(), 512);
    assert_eq!(value_e4m3(&one), 1.0);

    // exponent field 8: exactly 2.0
    let two = E4M3::new(0b0_1000_000);
    assert_eq!(two.scaled_value(), 1024);
    assert_eq!(value_e4m3(&two), 2.0);
}

#[test]
fn subnormal_decode() {
    // exponent 0, mantissa 1: 2^-6 * (1/8) = 2^-9, one step
    let tiny = E4M3::new(0b0_0000_001);
    assert!(tiny.is_subnormal());
    assert_eq!(tiny.scaled_value(), 1);
    assert_eq!(value_e4m3(&tiny), 2.0_f32.powi(-9));
}

#[test]
fn max_normal_decode() {
    // sign 1, exponent 15, mantissa 6: not the NaN pattern, worth -448
    let m = E4M3::new(0xFE);
    assert!(!m.is_nan());
    assert_eq!(m.sign(), 1);
    assert_eq!(m.exp(), 15);
    assert_eq!(m.mantissa(), 6);
    assert_eq!(m.scaled_value(), -229376);
    assert_eq!(value_e4m3(&m), -448.0);
}

#[test]
fn nan_short_circuit() {
    // every byte with exponent 15 and mantissa 7 is NaN, whatever the sign,
    // even though the generic normal formula would give a large finite value
    for b in 0..=255u8 {
        let v = E4M3::new(b);
        let max_fields = v.exp() == 15 && v.mantissa() == 7;
        assert_eq!(v.is_nan(), max_fields);
        if max_fields {
            assert!(b == 0xFF || b == 0x7F);
        } else {
            // the decode path is reachable only after the NaN check
            let steps = v.scaled_value();
            assert!(steps.abs() <= 229376);
        }
    }
}

#[test]
fn exponent_monotonicity() {
    // equal sign and mantissa: a larger exponent field, a larger magnitude
    for s in 0..=1u8 {
        for m in 0..=7u8 {
            for e1 in 1..=14u8 {
                for e2 in (e1 + 1)..=15u8 {
                    let a = E4M3::new(s * 128 + e1 * 8 + m);
                    let b = E4M3::new(s * 128 + e2 * 8 + m);
                    if a.is_nan() || b.is_nan() {
                        continue;
                    }
                    assert!(a.scaled_value().abs() < b.scaled_value().abs());
                }
            }
        }
    }
}

fn value_e5m2(v: &E5M2) -> f32 {
    assert!(!v.is_nan());
    v.scaled_value() as f32 / 65536.0
}

#[test]
fn e5m2_fields() {
    let v = E5M2::new(0b1_01101_10);
    assert_eq!(v.sign(), 1);
    assert_eq!(v.exp(), 0b01101);
    assert_eq!(v.mantissa(), 0b10);
}

#[test]
fn e5m2_decode() {
    // exponent field 15 (the bias), mantissa 0: exactly 1.0
    let one = E5M2::new(0b0_01111_00);
    assert_eq!(one.scaled_value(), 65536);
    assert_eq!(value_e5m2(&one), 1.0);

    // the mantissa weighs in quarters: 1.75 * 2^0
    let m3 = E5M2::new(0b0_01111_11);
    assert_eq!(m3.scaled_value(), 65536 / 4 * 7);
    assert_eq!(value_e5m2(&m3), 1.75);

    // smallest denormalized step: 1/4 * 2^-14 = 2^-16
    let tiny = E5M2::new(0x01);
    assert!(tiny.is_subnormal());
    assert_eq!(tiny.scaled_value(), 1);
    assert_eq!(value_e5m2(&tiny), 2.0_f32.powi(-16));

    // largest finite magnitude: -(1.5 * 2^16)
    let m = E5M2::new(0xFE);
    assert!(!m.is_nan());
    assert_eq!(m.scaled_value(), -6442450944);
    assert_eq!(value_e5m2(&m), -98304.0);
}

#[test]
fn e5m2_classification() {
    assert!(E5M2::new(0x00).is_zero());
    assert!(E5M2::new(0x80).is_neg_zero());
    assert!(E5M2::new(0xFF).is_nan());
    assert!(E5M2::new(0x7F).is_nan());
    assert!(!E5M2::new(0xFE).is_nan());
    for b in 0..=255u8 {
        let v = E5M2::new(b);
        assert_eq!(v.is_nan(), v.exp() == 31 && v.mantissa() == 3);
        assert_eq!(v.is_subnormal(), v.exp() == 0 && v.mantissa() != 0);
    }
}
