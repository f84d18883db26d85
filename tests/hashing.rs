use slide::densified_wta_hash::DensifiedWtaHash;
use slide::hasher::{order_key, FLOOR_KEY, ZERO_KEY};
use slide::wta_hash::WtaHash;

fn keys(values: &[f32]) -> Vec<u32> {
    values.iter().map(|v| order_key(v.to_bits())).collect()
}

#[test]
fn densified_wta_hash_test() {
    let hash = DensifiedWtaHash::new(4, 8);
    assert_eq!(
        hash.hash(&keys(&[0.0, 0.0, 0.0, 0.0, 0.0, 0.0, 0.0, 0.0])),
        hash.hash_sparse(&keys(&[]), &[])
    );
    assert_eq!(
        hash.hash(&keys(&[0.5, 0.0, 0.0, 0.0, 0.0, 0.0, 0.0, 0.0])),
        hash.hash_sparse(&keys(&[0.5]), &[0])
    );
    assert_eq!(
        hash.hash(&keys(&[1.0, 0.0, 0.0, 0.0, 0.0, 0.0, 0.0, 0.0])),
        hash.hash_sparse(&keys(&[1.0]), &[0])
    );
    assert_eq!(
        hash.hash(&keys(&[0.0, 0.5, 0.0, 0.0, 0.0, 0.0, 0.0, 0.0])),
        hash.hash_sparse(&keys(&[0.5]), &[1])
    );
    assert_eq!(
        hash.hash(&keys(&[0.0, 0.5, 0.0, 0.4, 0.0, 0.3, 0.0, 0.2])),
        hash.hash_sparse(&keys(&[0.5, 0.4, 0.3, 0.2]), &[1, 3, 5, 7])
    );

    let hashes = hash.hash(&keys(&[0.0, 0.0, 0.0, 0.0, 0.0, 0.0, 0.0, 0.0]));
    println!("{:?}", &hashes);
    println!("{:?}", DensifiedWtaHash::hashes_to_indices(&hashes, 2, 2, 10));
    let hashes = hash.hash(&keys(&[0.0, 0.5, 0.0, 0.4, 0.0, 0.3, 0.0, 0.2]));
    println!("{:?}", &hashes);
    println!("{:?}", DensifiedWtaHash::hashes_to_indices(&hashes, 2, 2, 10));

    let hash = DensifiedWtaHash::new(100, 50);
    let hashes = hash.hash_sparse(&keys(&[1.0]), &[0]);
    println!("{:?}", &hashes);
}

#[test]
fn wta_hash_test() {
    let hash = WtaHash::new(4, 8);
    assert_eq!(
        hash.hash(&keys(&[0.0, 0.0, 0.0, 0.0, 0.0, 0.0, 0.0, 0.0])),
        hash.hash_sparse(&keys(&[]), &[])
    );
    assert_eq!(
        hash.hash(&keys(&[0.5, 0.0, 0.0, 0.0, 0.0, 0.0, 0.0, 0.0])),
        hash.hash_sparse(&keys(&[0.5]), &[0])
    );
    assert_eq!(
        hash.hash(&keys(&[1.0, 0.0, 0.0, 0.0, 0.0, 0.0, 0.0, 0.0])),
        hash.hash_sparse(&keys(&[1.0]), &[0])
    );
    assert_eq!(
        hash.hash(&keys(&[0.0, 0.5, 0.0, 0.0, 0.0, 0.0, 0.0, 0.0])),
        hash.hash_sparse(&keys(&[0.5]), &[1])
    );
    assert_eq!(
        hash.hash(&keys(&[0.0, 0.5, 0.0, 0.4, 0.0, 0.3, 0.0, 0.2])),
        hash.hash_sparse(&keys(&[0.5, 0.4, 0.3, 0.2]), &[1, 3, 5, 7])
    );

    let hashes = hash.hash(&keys(&[0.0, 0.0, 0.0, 0.0, 0.0, 0.0, 0.0, 0.0]));
    println!("{:?}", &hashes);
    println!("{:?}", WtaHash::hashes_to_indices(&hashes, 2, 2, 10));
    let hashes = hash.hash(&keys(&[0.0, 0.5, 0.0, 0.4, 0.0, 0.3, 0.0, 0.2]));
    println!("{:?}", &hashes);
    println!("{:?}", WtaHash::hashes_to_indices(&hashes, 2, 2, 10));

    let hash = WtaHash::new(100, 50);
    let hashes = hash.hash_sparse(&keys(&[1.0]), &[0]);
    println!("{:?}", &hashes);
}

#[test]
fn order_keys_follow_float_order() {
    assert_eq!(order_key(0.0f32.to_bits()), ZERO_KEY);
    assert_eq!(order_key((-0.0f32).to_bits()), ZERO_KEY);
    assert_eq!(order_key(f32::MIN.to_bits()), FLOOR_KEY);
    assert_eq!(order_key(f32::NAN.to_bits()), 0);
    let ordered = [f32::NEG_INFINITY, f32::MIN, -2.5, -1.0, -1e-30, 0.0, 1e-30, 0.5, 1.0, 3.0e38, f32::INFINITY];
    for w in ordered.windows(2) {
        assert!(order_key(w[0].to_bits()) < order_key(w[1].to_bits()), "{} < {}", w[0], w[1]);
    }
}

#[test]
fn one_hot_dense_and_sparse_hash_alike() {
    let hasher = DensifiedWtaHash::new(4, 8);
    let mut dense = vec![0.0f32; 8];
    dense[0] = 1.0;
    assert_eq!(hasher.hash(&keys(&dense)), hasher.hash_sparse(&keys(&[1.0]), &[0]));
    let hasher = DensifiedWtaHash::new(30, 40);
    let mut dense = vec![0.0f32; 40];
    dense[3] = 0.25;
    dense[17] = -1.0;
    dense[39] = 2.0;
    assert_eq!(
        hasher.hash(&keys(&dense)),
        hasher.hash_sparse(&keys(&[0.25, -1.0, 2.0]), &[3, 17, 39])
    );
}

#[test]
fn sparse_duplicate_position_takes_first_entry() {
    let hasher = WtaHash::new(10, 8);
    let mut dense = vec![0.0f32; 8];
    dense[2] = 0.7;
    assert_eq!(hasher.hash(&keys(&dense)), hasher.hash_sparse(&keys(&[0.7, 0.9]), &[2, 2]));
}

#[test]
fn densify_fills_empty_slots_from_probes() {
    let hasher = DensifiedWtaHash::new(4, 8);
    assert_eq!(hasher.densify(vec![0, 3, 0, 0]), vec![3705, 3, 3705, 1237]);
    assert_eq!(hasher.densify(vec![2, 5, 1, 7]), vec![2, 5, 1, 7]);
}

#[test]
fn densify_gives_zero_when_every_probe_fails() {
    let hasher = DensifiedWtaHash::new(4, 8);
    assert_eq!(hasher.densify(vec![0, 0, 0, 0]), vec![0, 0, 0, 0]);
}

#[test]
fn hashes_fold_into_table_indices() {
    assert_eq!(DensifiedWtaHash::hashes_to_indices(&[1, 2, 3, 4], 2, 2, 10), vec![17, 35]);
    assert_eq!(DensifiedWtaHash::hashes_to_indices(&[1, 2, 3, 4], 2, 2, 4), vec![1, 3]);
    assert_eq!(WtaHash::hashes_to_indices(&[7, 7, 7], 3, 1, 6), vec![63]);
}

#[test]
fn folded_indices_stay_in_range() {
    let hashes: Vec<usize> = (0..60).map(|i| (i * 7919) % 123457).collect();
    for range_pow in [0usize, 1, 5, 10, 18] {
        let indices = DensifiedWtaHash::hashes_to_indices(&hashes, 6, 10, range_pow);
        assert_eq!(indices.len(), 10);
        assert!(indices.iter().all(|&i| i < (1usize << range_pow)));
    }
}

#[test]
fn selection_is_shuffled() {
    // With an unshuffled selection every slot would pick positions 0..8 and
    // the one non-zero input at position 1 would win every slot at bin
    // position 1.
    let hasher = WtaHash::new(100, 50);
    let hashes = hasher.hash_sparse(&keys(&[1.0]), &[1]);
    assert_eq!(hashes.len(), 100);
    assert!(hashes.iter().any(|&h| h != 1));
    assert!(hashes.iter().all(|&h| h < 8));
}

#[test]
fn fold_accepts_twenty_two_slots_per_table() {
    let hashes = vec![1usize; 22];
    let indices = DensifiedWtaHash::hashes_to_indices(&hashes, 22, 1, 63);
    let expected: usize = (0..21).map(|j| 1usize << (3 * j)).fold(0, |a, b| a | b) | (1usize << 63);
    assert_eq!(indices, vec![expected & ((1usize << 63) - 1)]);
}
