use rand::rngs::StdRng;
use rand::{Rng, SeedableRng};
use raytracing::scalar::Scalar;

fn scalar(x: f64) -> Scalar {
    Scalar::from_bits(x.to_bits())
}

fn notable() -> Vec<f64> {
    vec![
        0.0,
        -0.0,
        1.0,
        -1.0,
        0.001,
        0.999,
        1e-8,
        -1e-8,
        0.5,
        2.0,
        1e300,
        -1e300,
        f64::MIN_POSITIVE,
        -f64::MIN_POSITIVE,
        f64::MIN_POSITIVE / 2.0,
        5e-324,
        -5e-324,
        f64::MAX,
        f64::MIN,
        f64::INFINITY,
        f64::NEG_INFINITY,
        f64::NAN,
        -f64::NAN,
        f64::EPSILON,
        1.0 + f64::EPSILON,
        1.0 - f64::EPSILON / 2.0,
    ]
}

#[test]
fn less_agrees_with_the_hardware_on_notable_values() {
    for a in notable() {
        for b in notable() {
            assert_eq!(scalar(a).less(scalar(b)), a < b, "{} < {}", a, b);
        }
    }
}

#[test]
fn at_most_agrees_with_the_hardware_on_notable_values() {
    for a in notable() {
        for b in notable() {
            assert_eq!(scalar(a).at_most(scalar(b)), a <= b, "{} <= {}", a, b);
        }
    }
}

#[test]
fn comparisons_agree_with_the_hardware_on_random_patterns() {
    let mut rng = StdRng::seed_from_u64(17);
    for _ in 0..200_000 {
        let a = f64::from_bits(rng.gen::<u64>());
        let b = f64::from_bits(rng.gen::<u64>());
        assert_eq!(scalar(a).less(scalar(b)), a < b);
        assert_eq!(scalar(a).at_most(scalar(b)), a <= b);
    }
}

#[test]
fn comparisons_agree_with_the_hardware_on_nearby_numbers() {
    let mut rng = StdRng::seed_from_u64(18);
    for _ in 0..100_000 {
        let a: f64 = rng.gen_range(-2.0..2.0);
        let b = f64::from_bits(a.to_bits().wrapping_add(rng.gen_range(0..3)));
        assert_eq!(scalar(a).less(scalar(b)), a < b);
        assert_eq!(scalar(b).less(scalar(a)), b < a);
        assert_eq!(scalar(a).at_most(scalar(b)), a <= b);
    }
}

#[test]
fn the_two_zeros_are_equal_as_numbers() {
    assert!(!scalar(-0.0).less(scalar(0.0)));
    assert!(!scalar(0.0).less(scalar(-0.0)));
    assert!(scalar(-0.0).at_most(scalar(0.0)));
    assert!(scalar(0.0).at_most(scalar(-0.0)));
}

#[test]
fn what_is_no_number_compares_with_nothing() {
    let nan = scalar(f64::NAN);
    assert!(nan.is_nan());
    assert!(!nan.less(nan));
    assert!(!nan.at_most(nan));
    assert!(!nan.less(scalar(f64::INFINITY)));
    assert!(!scalar(f64::NEG_INFINITY).less(nan));
    assert!(!scalar(1.0).is_nan());
    assert!(!scalar(f64::INFINITY).is_nan());
}

#[test]
fn negation_turns_the_sign_bit_only() {
    for a in notable() {
        assert_eq!(scalar(a).negated().to_bits(), (-a).to_bits());
        assert_eq!(scalar(a).negated().negated().to_bits(), a.to_bits());
    }
}

#[test]
fn absolute_clears_the_sign_bit() {
    for a in notable() {
        assert_eq!(scalar(a).absolute().to_bits(), a.abs().to_bits());
        assert_eq!(scalar(a).size_bits(), a.abs().to_bits());
    }
}

#[test]
fn sign_is_read_from_the_sign_bit() {
    for a in notable() {
        assert_eq!(scalar(a).is_sign_negative(), a.is_sign_negative());
    }
    assert!(scalar(-0.0).is_sign_negative());
    assert!(!scalar(0.0).is_sign_negative());
}

#[test]
fn zero_is_positive_zero() {
    assert_eq!(Scalar::zero().to_bits(), 0.0f64.to_bits());
    assert_eq!(Scalar::from_bits(42).to_bits(), 42);
}
