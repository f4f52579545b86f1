use std::cmp::Ordering;
use threedee::painter::{compare_depth, depth_less, painter_order};

fn bits(v: &[f64]) -> Vec<u64> {
    v.iter().map(|z| z.to_bits()).collect()
}

#[test]
fn farthest_is_painted_first() {
    let order = painter_order(&bits(&[1.0, 3.0, 2.0, -4.0, 2.5]));
    assert_eq!(order, vec![1, 4, 2, 0, 3]);
}

#[test]
fn order_is_a_permutation_even_with_nan() {
    let depths = [1.0, f64::NAN, 3.0, -0.0, 0.0, f64::INFINITY, f64::NEG_INFINITY];
    let mut order = painter_order(&bits(&depths));
    order.sort();
    assert_eq!(order, (0..depths.len()).collect::<Vec<_>>());
}

#[test]
fn empty_and_single() {
    assert_eq!(painter_order(&Vec::new()), Vec::<usize>::new());
    assert_eq!(painter_order(&bits(&[7.0])), vec![0]);
}

#[test]
fn depths_compare_like_f64() {
    let values = [
        0.0, -0.0, 1.0, -1.0, 0.5, -2.5, 1e300, -1e300, f64::INFINITY, f64::NEG_INFINITY,
        f64::NAN, f64::MIN_POSITIVE, 5e-324,
    ];
    for a in values.iter() {
        for b in values.iter() {
            assert_eq!(depth_less(a.to_bits(), b.to_bits()), a < b, "{} < {}", a, b);
            let expected = if a < b {
                Ordering::Greater
            } else if a > b {
                Ordering::Less
            } else {
                Ordering::Equal
            };
            assert_eq!(compare_depth(a.to_bits(), b.to_bits()), expected);
        }
    }
}
