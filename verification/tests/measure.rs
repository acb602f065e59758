use earthstream_geo::geo_index::get_precision;
use earthstream_geo::model::{KM_1252, KM_156, KM_1_2, KM_39, KM_4_9};
use earthstream_geo::measure::{Km, INFINITY_BITS, SIGN_BIT};

fn km(value: f64) -> Km {
    Km { bits: value.to_bits() }
}

fn samples() -> Vec<f64> {
    vec![
        f64::NEG_INFINITY,
        -1252.0,
        -1.2,
        -f64::MIN_POSITIVE,
        -0.0,
        0.0,
        f64::MIN_POSITIVE,
        0.5,
        1.1,
        1.2,
        1.3,
        4.9,
        5.0,
        39.0,
        40.0,
        156.0,
        157.0,
        1251.0,
        1252.0,
        f64::MAX,
        f64::INFINITY,
        f64::NAN,
        -f64::NAN,
    ]
}

#[test]
fn threshold_constants_are_the_bit_patterns_of_the_table() {
    assert_eq!(KM_1252, 1252.0f64.to_bits());
    assert_eq!(KM_156, 156.0f64.to_bits());
    assert_eq!(KM_39, 39.0f64.to_bits());
    assert_eq!(KM_4_9, 4.9f64.to_bits());
    assert_eq!(KM_1_2, 1.2f64.to_bits());
    assert_eq!(INFINITY_BITS, f64::INFINITY.to_bits());
    assert_eq!(SIGN_BIT, (-0.0f64).to_bits());
}

#[test]
fn less_than_agrees_with_the_order_of_doubles() {
    for a in samples() {
        for b in samples() {
            assert_eq!(km(a).less_than(&km(b)), a < b, "{} < {}", a, b);
        }
    }
}

#[test]
fn at_most_agrees_with_the_order_of_doubles() {
    for a in samples() {
        for b in samples() {
            assert_eq!(km(a).at_most(&km(b)), a <= b, "{} <= {}", a, b);
        }
    }
}

#[test]
fn both_zeros_are_equal_and_nan_is_unordered() {
    assert!(km(0.0).at_most(&km(-0.0)));
    assert!(km(-0.0).at_most(&km(0.0)));
    assert!(!km(-0.0).less_than(&km(0.0)));
    assert!(!km(f64::NAN).at_most(&km(f64::NAN)));
    assert!(!km(f64::NAN).less_than(&km(1.0)));
    assert!(!km(1.0).less_than(&km(f64::NAN)));
}

#[test]
fn precision_table_is_exact() {
    let radii = [0.0, 1.1, 1.2, 1.3, 5.0, 40.0, 156.0, 157.0, 1251.0, 1252.0];
    let expected: [usize; 10] = [6, 6, 1, 5, 4, 3, 1, 2, 2, 1];
    for i in 0..radii.len() {
        assert_eq!(get_precision(&km(radii[i])), expected[i], "radius {}", radii[i]);
    }
}

#[test]
fn a_radius_on_a_boundary_falls_to_the_coarsest_precision() {
    assert_eq!(get_precision(&km(1.2)), 1);
    assert_eq!(get_precision(&km(4.9)), 1);
    assert_eq!(get_precision(&km(39.0)), 1);
    assert_eq!(get_precision(&km(156.0)), 1);
    assert_eq!(get_precision(&km(1252.0)), 1);
}

#[test]
fn precision_at_the_edges_of_each_tier() {
    assert_eq!(get_precision(&km(4.8999)), 5);
    assert_eq!(get_precision(&km(4.9001)), 4);
    assert_eq!(get_precision(&km(38.9999)), 4);
    assert_eq!(get_precision(&km(155.9999)), 3);
    assert_eq!(get_precision(&km(156.0001)), 2);
    assert_eq!(get_precision(&km(1251.9999)), 2);
    assert_eq!(get_precision(&km(1.1999999)), 6);
    assert_eq!(get_precision(&km(1.2000001)), 5);
}

#[test]
fn precision_of_unusual_radii() {
    assert_eq!(get_precision(&km(-5.0)), 6);
    assert_eq!(get_precision(&km(-0.0)), 6);
    assert_eq!(get_precision(&km(f64::NEG_INFINITY)), 6);
    assert_eq!(get_precision(&km(f64::INFINITY)), 1);
    assert_eq!(get_precision(&km(f64::NAN)), 1);
    assert_eq!(get_precision(&km(20000.0)), 1);
}
