use saddle_ai_utility_ai::Real32;

fn samples() -> Vec<f32> {
    vec![
        0.0,
        -0.0,
        1.0,
        -1.0,
        0.5,
        -0.5,
        1.0e-40,
        -1.0e-40,
        f32::MIN_POSITIVE,
        f32::MAX,
        f32::MIN,
        f32::INFINITY,
        f32::NEG_INFINITY,
        f32::NAN,
        -f32::NAN,
        0.25,
        0.75,
        2.0,
        1.5,
    ]
}

#[test]
fn comparisons_agree_with_native_numbers() {
    for a in samples() {
        for b in samples() {
            let (x, y) = (Real32(a.to_bits()), Real32(b.to_bits()));
            assert_eq!(x.lt(y), a < b, "{a} < {b}");
            assert_eq!(x.le(y), a <= b, "{a} <= {b}");
        }
    }
}

#[test]
fn classification_agrees_with_native_numbers() {
    for a in samples() {
        let x = Real32(a.to_bits());
        assert_eq!(x.is_nan(), a.is_nan());
        assert_eq!(x.is_finite(), a.is_finite());
        assert_eq!(x.is_positive(), a.is_finite() && a > 0.0);
    }
}

#[test]
fn total_rank_agrees_with_total_order() {
    for a in samples() {
        for b in samples() {
            let (x, y) = (Real32(a.to_bits()), Real32(b.to_bits()));
            assert_eq!(
                x.total_rank_value().cmp(&y.total_rank_value()),
                a.total_cmp(&b),
                "{a} vs {b}"
            );
        }
    }
}

#[test]
fn unit_clamp_agrees_with_native_clamp() {
    for a in samples() {
        let clamped = Real32(a.to_bits()).clamp_unit();
        let native = a.clamp(0.0, 1.0);
        if native.is_nan() {
            assert!(clamped.is_nan());
        } else {
            assert_eq!(clamped.0, native.to_bits(), "clamp {a}");
        }
    }
}
