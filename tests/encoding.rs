use kinematic_arm::ccd::{decide, Reading, Step, ANGLE_EPSILON, CONVERGENCE_THRESHOLD, MAX_ITERATIONS};
use kinematic_arm::ieee::{absolute, is_nan, less_than, negate};

fn samples() -> Vec<f32> {
    vec![
        0.0,
        -0.0,
        1.0,
        -1.0,
        0.01,
        0.009999,
        -0.01,
        1e-45,
        -1e-45,
        3.4e38,
        -3.4e38,
        f32::INFINITY,
        f32::NEG_INFINITY,
        f32::NAN,
        -f32::NAN,
        f32::EPSILON,
        std::f32::consts::PI,
    ]
}

#[test]
fn less_than_agrees_with_float_order() {
    for a in samples() {
        for b in samples() {
            assert_eq!(less_than(a.to_bits(), b.to_bits()), a < b, "{} < {}", a, b);
        }
    }
}

#[test]
fn negate_and_absolute_agree_with_float_ops() {
    for a in samples() {
        assert_eq!(negate(a.to_bits()), (-a).to_bits());
        assert_eq!(absolute(a.to_bits()), a.abs().to_bits());
        assert_eq!(is_nan(a.to_bits()), a.is_nan());
    }
}

#[test]
fn subtracting_equals_adding_the_negation() {
    for a in samples() {
        for b in samples() {
            let diff = a - b;
            let sum = a + f32::from_bits(negate(b.to_bits()));
            assert!(diff.to_bits() == sum.to_bits() || (diff.is_nan() && sum.is_nan()));
        }
    }
}

#[test]
fn tuning_constants() {
    assert_eq!(CONVERGENCE_THRESHOLD, 0.01f32.to_bits());
    assert_eq!(ANGLE_EPSILON, f32::EPSILON.to_bits());
    assert_eq!(MAX_ITERATIONS, 100);
}

fn reading(distance: f32, delta: f32, direction: f32) -> Reading {
    Reading { distance: distance.to_bits(), delta: delta.to_bits(), direction: direction.to_bits() }
}

#[test]
fn decide_stops_within_threshold() {
    assert_eq!(decide(reading(0.0, 1.0, 1.0)), Step::Reached);
    assert_eq!(decide(reading(0.0099, 1.0, -1.0)), Step::Reached);
    assert_eq!(decide(reading(0.01, 1.0, 1.0)), Step::Turn((-1.0f32).to_bits()));
}

#[test]
fn decide_skips_tiny_and_undefined_rotations() {
    assert_eq!(decide(reading(5.0, 0.0, 1.0)), Step::Hold);
    assert_eq!(decide(reading(5.0, f32::EPSILON / 2.0, 1.0)), Step::Hold);
    assert_eq!(decide(reading(5.0, f32::EPSILON, 1.0)), Step::Turn((-f32::EPSILON).to_bits()));
    assert_eq!(decide(reading(5.0, f32::NAN, 1.0)), Step::Hold);
    assert_eq!(decide(reading(f32::NAN, 0.5, 1.0)), Step::Turn((-0.5f32).to_bits()));
}

#[test]
fn decide_turns_against_the_cross_product() {
    assert_eq!(decide(reading(5.0, 0.5, 2.0)), Step::Turn((-0.5f32).to_bits()));
    assert_eq!(decide(reading(5.0, 0.5, 0.0)), Step::Turn((-0.5f32).to_bits()));
    assert_eq!(decide(reading(5.0, 0.5, -0.0)), Step::Turn((-0.5f32).to_bits()));
    assert_eq!(decide(reading(5.0, 0.5, f32::NAN)), Step::Turn(0.5f32.to_bits()));
    assert_eq!(decide(reading(5.0, 0.5, -2.0)), Step::Turn(0.5f32.to_bits()));
}
