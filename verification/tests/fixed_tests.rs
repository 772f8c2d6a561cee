use neatfour::fixed::{add_sat, clamp, mul_sat, relu, sigmoid, BOUND, SCALE};
use neatfour::genes::Type;

#[test]
fn sigmoid_exact_at_zero_and_limits() {
    assert_eq!(sigmoid(0), SCALE / 2);
    assert_eq!(sigmoid(i64::MAX), SCALE);
    assert_eq!(sigmoid(i64::MIN), 0);
}

#[test]
fn sigmoid_matches_logistic_closely() {
    // against f64 reference values at a few points
    for &x in &[-3i64, -1, 1, 2, 4] {
        let got = sigmoid(x * SCALE) as f64 / SCALE as f64;
        let want = 1.0 / (1.0 + (-(x as f64)).exp());
        assert!((got - want).abs() < 0.001, "x={} got={} want={}", x, got, want);
    }
}

#[test]
fn relu_and_clamp() {
    assert_eq!(relu(-5), 0);
    assert_eq!(relu(12345), 12345);
    assert_eq!(relu(i64::MAX), BOUND);
    assert_eq!(clamp(i64::MIN), -BOUND);
    assert_eq!(clamp(42), 42);
}

#[test]
fn saturating_arithmetic() {
    assert_eq!(add_sat(BOUND, BOUND), BOUND);
    assert_eq!(add_sat(-BOUND, -BOUND), -BOUND);
    assert_eq!(add_sat(3 * SCALE, -SCALE), 2 * SCALE);
    // 2.0 * 3.0 == 6.0
    assert_eq!(mul_sat(2 * SCALE, 3 * SCALE), 6 * SCALE);
    // (-1.5) * 2.0 == -3.0
    assert_eq!(mul_sat(-3 * SCALE / 2, 2 * SCALE), -3 * SCALE);
}

#[test]
fn activation_per_node_kind() {
    assert_eq!(Type::Bias.activation(-999), SCALE);
    assert_eq!(Type::Sensor.activation(777), 777);
    assert_eq!(Type::Hidden.activation(-777), 0);
    assert_eq!(Type::Output.activation(0), SCALE / 2);
}
