use slide::hasher::order_key;
use slide::network::top_class;

fn keys(values: &[f32]) -> Vec<u32> {
    values.iter().map(|v| order_key(v.to_bits())).collect()
}

#[test]
fn top_class_takes_first_largest() {
    assert_eq!(top_class(&keys(&[0.1, 0.7, 0.3, 0.7]), &[10, 11, 12, 13]), 11);
    assert_eq!(top_class(&keys(&[-2.0, -1.0, -3.0]), &[4, 5, 6]), 5);
}

#[test]
fn top_class_defaults_to_zero() {
    assert_eq!(top_class(&[], &[]), 0);
    assert_eq!(top_class(&keys(&[f32::NEG_INFINITY, f32::NAN]), &[3, 4]), 0);
}
