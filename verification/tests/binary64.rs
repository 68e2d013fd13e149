use prometheus_client_python_speedups::binary64::{is_less, magnitude_of, total_le};

fn samples() -> Vec<f64> {
    vec![
        0.0,
        -0.0,
        1.0,
        -1.0,
        1.5,
        -1.5,
        2.0,
        5.0,
        9.0,
        1e-320,
        -1e-320,
        f64::MIN_POSITIVE,
        f64::MAX,
        f64::MIN,
        f64::INFINITY,
        f64::NEG_INFINITY,
        f64::NAN,
        -f64::NAN,
        f64::from_bits(0x7ff0_0000_0000_0001),
        f64::from_bits(0xfff0_0000_0000_0001),
        f64::EPSILON,
        1e300,
        -1e300,
    ]
}

#[test]
fn is_less_agrees_with_the_comparison_of_numbers() {
    for a in samples() {
        for b in samples() {
            assert_eq!(is_less(a.to_bits(), b.to_bits()), a < b, "{:?} < {:?}", a, b);
        }
    }
}

#[test]
fn total_le_agrees_with_the_total_order() {
    for a in samples() {
        for b in samples() {
            let expected = a.total_cmp(&b) != std::cmp::Ordering::Greater;
            assert_eq!(total_le(a.to_bits(), b.to_bits()), expected, "{:?} <= {:?}", a, b);
        }
    }
}

#[test]
fn zeros_and_what_is_no_number_never_compare_less() {
    assert!(!is_less(0.0f64.to_bits(), (-0.0f64).to_bits()));
    assert!(!is_less((-0.0f64).to_bits(), 0.0f64.to_bits()));
    assert!(!is_less(f64::NAN.to_bits(), 1.0f64.to_bits()));
    assert!(!is_less(1.0f64.to_bits(), f64::NAN.to_bits()));
    assert!(total_le((-0.0f64).to_bits(), 0.0f64.to_bits()));
    assert!(!total_le(0.0f64.to_bits(), (-0.0f64).to_bits()));
}

#[test]
fn magnitude_drops_the_sign() {
    assert_eq!(magnitude_of((-2.5f64).to_bits()), 2.5f64.to_bits());
    assert_eq!(magnitude_of(2.5f64.to_bits()), 2.5f64.to_bits());
}
