use slide::desified_wta_hash::DesifiedWtaHash;
use slide::hasher::order_key;

fn keys(values: &[f32]) -> Vec<u32> {
    values.iter().map(|v| order_key(v.to_bits())).collect()
}

#[test]
fn desified_dense_equals_fully_listed_sparse() {
    let hasher = DesifiedWtaHash::new(16, 8);
    let dense = [0.0, 0.5, 0.0, 0.4, 0.1, 0.3, 0.0, 0.2];
    let positions: Vec<usize> = (0..8).collect();
    assert_eq!(hasher.get_hash(&keys(&dense)), hasher.get_hash_sparse(&keys(&dense), &positions));
}

#[test]
fn desified_dense_hash_fills_every_slot() {
    let hasher = DesifiedWtaHash::new(16, 8);
    let hashes = hasher.get_hash(&keys(&[0.1, 0.5, 0.2, 0.4, 0.9, 0.3, 0.7, 0.2]));
    assert_eq!(hashes.len(), 16);
    assert!(hashes.iter().all(|&h| h < 8));
}

#[test]
fn desified_fold_shifts_earlier_slots_higher() {
    assert_eq!(DesifiedWtaHash::hashes_to_index(&[1, 2, 3, 4], 2, 2, 0), vec![6, 16]);
    assert_eq!(DesifiedWtaHash::hashes_to_index(&[1, 1, 1], 3, 1, 0), vec![21]);
}

#[test]
fn desified_double_hash_is_deterministic() {
    let hasher = DesifiedWtaHash::new(64, 32);
    for binid in 0..64 {
        for count in 0..5 {
            assert_eq!(
                hasher.get_rand_double_hash(binid, count),
                hasher.get_rand_double_hash(binid, count)
            );
        }
    }
}

#[test]
fn desified_without_slots_hashes_to_nothing() {
    let hasher = DesifiedWtaHash::new(0, 8);
    assert!(hasher.get_hash(&keys(&[0.1; 8])).is_empty());
}

#[test]
fn desified_double_hash_takes_any_slot_and_count() {
    let hasher = DesifiedWtaHash::new(4, 8);
    let a = hasher.get_rand_double_hash(usize::MAX - 1, 1000);
    assert_eq!(a, hasher.get_rand_double_hash(usize::MAX - 1, 1000));
}
