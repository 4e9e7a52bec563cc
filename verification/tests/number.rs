use rlox::number::{equal, less, less_equal, nan, negate};

fn samples() -> Vec<f64> {
    vec![
        0.0,
        -0.0,
        1.0,
        -1.0,
        0.5,
        -0.5,
        3.0,
        1e300,
        -1e300,
        5e-324,
        -5e-324,
        f64::MAX,
        f64::MIN,
        f64::INFINITY,
        f64::NEG_INFINITY,
        f64::NAN,
        -f64::NAN,
        f64::from_bits(0x7ff0_0000_0000_0001),
        f64::from_bits(0xfff8_0000_0000_1234),
    ]
}

#[test]
fn nan_is_told_by_the_bits() {
    for x in samples() {
        assert_eq!(nan(x.to_bits()), x.is_nan(), "{x}");
    }
}

#[test]
fn equality_is_that_of_doubles() {
    for x in samples() {
        for y in samples() {
            assert_eq!(equal(x.to_bits(), y.to_bits()), x == y, "{x} == {y}");
        }
    }
}

#[test]
fn order_is_that_of_doubles() {
    for x in samples() {
        for y in samples() {
            assert_eq!(less(x.to_bits(), y.to_bits()), x < y, "{x} < {y}");
            assert_eq!(less_equal(x.to_bits(), y.to_bits()), x <= y, "{x} <= {y}");
        }
    }
}

#[test]
fn negation_is_that_of_doubles() {
    for x in samples() {
        assert_eq!(negate(x.to_bits()), (-x).to_bits(), "{x}");
    }
}

#[test]
fn the_two_zeros_are_equal_and_neither_is_less() {
    let plus = 0.0f64.to_bits();
    let minus = (-0.0f64).to_bits();
    assert!(plus != minus);
    assert!(equal(plus, minus));
    assert!(!less(minus, plus));
    assert!(less_equal(minus, plus));
    assert_eq!(negate(plus), minus);
}
