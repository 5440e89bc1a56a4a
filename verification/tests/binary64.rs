use hanleng_nianchi::binary64::{equal, less, less_eq, nan};

fn b(x: f64) -> u64 {
    x.to_bits()
}

#[test]
fn ordering_matches_floating_point_comparison() {
    let values = [f64::NEG_INFINITY, -1e300, -2.5, -0.0, 0.0, 1e-300, 1.0, 21.8, 22.4, 1e300, f64::INFINITY, f64::NAN];
    for &x in values.iter() {
        for &y in values.iter() {
            assert_eq!(less(b(x), b(y)), x < y, "{} < {}", x, y);
            assert_eq!(less_eq(b(x), b(y)), x <= y, "{} <= {}", x, y);
            assert_eq!(equal(b(x), b(y)), x == y, "{} == {}", x, y);
        }
    }
}

#[test]
fn nan_is_recognised() {
    assert!(nan(f64::NAN.to_bits()));
    assert!(nan((-f64::NAN).to_bits()));
    assert!(!nan(f64::INFINITY.to_bits()));
    assert!(!nan(0.0f64.to_bits()));
}
