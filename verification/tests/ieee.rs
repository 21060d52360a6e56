use meetily::ieee::{is_at_most_32, is_finite_32, is_less_32, is_less_64, order_of_32, order_of_64};

fn singles() -> Vec<f32> {
    vec![
        0.0, -0.0, 1.0, -1.0, 0.15, 0.72, f32::MIN_POSITIVE, -f32::MIN_POSITIVE, f32::from_bits(1), f32::MAX, f32::MIN,
        f32::INFINITY, f32::NEG_INFINITY, f32::NAN, -f32::NAN,
    ]
}

fn doubles() -> Vec<f64> {
    vec![
        0.0, -0.0, 0.15, 0.149999, -3.5, f64::MIN_POSITIVE, f64::from_bits(1), f64::MAX, f64::MIN, f64::INFINITY,
        f64::NEG_INFINITY, f64::NAN, -f64::NAN,
    ]
}

#[test]
fn single_precision_comparisons_agree_with_the_numbers() {
    for a in singles() {
        assert_eq!(is_finite_32(a.to_bits()), a.is_finite(), "{}", a);
        for b in singles() {
            assert_eq!(is_less_32(a.to_bits(), b.to_bits()), a < b, "{} {}", a, b);
            assert_eq!(is_at_most_32(a.to_bits(), b.to_bits()), a <= b, "{} {}", a, b);
            if !a.is_nan() && !b.is_nan() {
                assert_eq!(order_of_32(a.to_bits()) < order_of_32(b.to_bits()), a < b);
                assert_eq!(order_of_32(a.to_bits()) == order_of_32(b.to_bits()), a == b);
            }
        }
    }
}

#[test]
fn double_precision_comparisons_agree_with_the_numbers() {
    for a in doubles() {
        for b in doubles() {
            assert_eq!(is_less_64(a.to_bits(), b.to_bits()), a < b, "{} {}", a, b);
            if !a.is_nan() && !b.is_nan() {
                assert_eq!(order_of_64(a.to_bits()) < order_of_64(b.to_bits()), a < b);
                assert_eq!(order_of_64(a.to_bits()) == order_of_64(b.to_bits()), a == b);
            }
        }
    }
}
