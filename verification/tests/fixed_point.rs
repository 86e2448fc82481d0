use actionkv::fixed_point::Q7;

#[test]
fn out_of_bounds() {
    assert_eq!(
        Q7::from_f64_bits((10.0f64).to_bits()),
        Q7::from_f64_bits((1.0f64).to_bits())
    );
    assert_eq!(
        Q7::from_f64_bits((-10.0f64).to_bits()),
        Q7::from_f64_bits((-1.0f64).to_bits())
    );
}

#[test]
fn f32_to_q7() {
    let n1: f32 = 0.7;
    let q1 = Q7::from_f64_bits((n1 as f64).to_bits());

    let n2: f32 = -0.4;
    let q2 = Q7::from_f64_bits((n2 as f64).to_bits());

    let n3: f32 = 123.0;
    let q3 = Q7::from_f64_bits((n3 as f64).to_bits());

    assert_eq!(q1, Q7(89));
    assert_eq!(q2, Q7(-51));
    assert_eq!(q3, Q7(127));
}

#[test]
fn q7_special_values() {
    assert_eq!(Q7::from_f64_bits((0.0f64).to_bits()), Q7(0));
    assert_eq!(Q7::from_f64_bits((-0.0f64).to_bits()), Q7(0));
    assert_eq!(Q7::from_f64_bits(f64::NAN.to_bits()), Q7(0));
    assert_eq!(Q7::from_f64_bits(f64::INFINITY.to_bits()), Q7(127));
    assert_eq!(Q7::from_f64_bits(f64::NEG_INFINITY.to_bits()), Q7(-128));
    // subnormals truncate to zero
    assert_eq!(Q7::from_f64_bits((5e-324f64).to_bits()), Q7(0));
    assert_eq!(Q7::from_f64_bits((1.0e-300f64).to_bits()), Q7(0));
    // the exact bounds of the representable range
    assert_eq!(Q7::from_f64_bits((-1.0f64).to_bits()), Q7(-128));
    assert_eq!(Q7::from_f64_bits((0.9921875f64).to_bits()), Q7(127));
    assert_eq!(Q7::from_f64_bits((-0.9999f64).to_bits()), Q7(-127));
}

#[test]
fn q7_matches_float_conversion() {
    // the bit-level conversion agrees with clamp-and-truncate on doubles
    for i in -300i32..=300i32 {
        let n = (i as f64) / 200.0;
        let expected: i8 = if n >= 1.0 {
            127
        } else if n <= -1.0 {
            -128
        } else {
            (n * 128.0) as i8
        };
        assert_eq!(Q7::from_f64_bits(n.to_bits()).0, expected);
    }
}
