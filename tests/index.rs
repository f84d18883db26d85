use slide::bucket::{Bucket, BUCKET_SIZE};
use slide::lsh::Lsh;

#[test]
fn bucket_fifo_wraps() {
    let mut bucket = Bucket::new();
    for id in 0..200u32 {
        let slot = bucket.add(id);
        assert_eq!(slot, id as usize % BUCKET_SIZE);
    }
    assert_eq!(bucket.get_size(), 200);
    let all = bucket.get_all();
    assert_eq!(all.len(), BUCKET_SIZE);
    for q in 72..200u32 {
        assert_eq!(all[q as usize % BUCKET_SIZE], q);
    }
}

#[test]
fn bucket_len_is_min_of_count_and_capacity() {
    let mut bucket = Bucket::new();
    assert_eq!(bucket.get_all().len(), 0);
    for id in 0..5u32 {
        bucket.add(id * 10);
    }
    assert_eq!(bucket.get_all(), &[0, 10, 20, 30, 40]);
    for id in 0..128u32 {
        bucket.add(id);
    }
    assert_eq!(bucket.get_size(), 133);
    assert_eq!(bucket.get_all().len(), 128);
}

#[test]
fn bucket_clear_resets_count() {
    let mut bucket = Bucket::new();
    for id in 0..300u32 {
        bucket.add(id);
    }
    bucket.clear();
    assert_eq!(bucket.get_size(), 0);
    assert_eq!(bucket.get_all().len(), 0);
    assert_eq!(bucket.add(9), 0);
    assert_eq!(bucket.get_all(), &[9]);
}

#[test]
fn lsh_add_and_get_raw() {
    let mut lsh = Lsh::new(2, 3, 4);
    assert_eq!(lsh.get_l(), 3);
    assert_eq!(lsh.get_range_pow(), 4);
    lsh.add(&[1, 2, 3], 7);
    lsh.add(&[1, 5, 3], 8);
    assert_eq!(lsh.get_raw(&[1, 2, 3]), vec![7, 8, 7, 7, 8]);
    assert_eq!(lsh.get_raw(&[0, 5, 15]), vec![8]);
    assert_eq!(lsh.get_bucket_size(0, 1), 2);
    assert_eq!(lsh.get_bucket_size(1, 2), 1);
    assert_eq!(lsh.get_bucket_size(2, 4), 0);
}

#[test]
fn lsh_add_returns_slots() {
    let mut lsh = Lsh::new(1, 2, 2);
    assert_eq!(lsh.add(&[0, 0], 1), vec![0, 0]);
    assert_eq!(lsh.add(&[0, 1], 2), vec![1, 0]);
}

#[test]
fn lsh_clear_empties_every_bucket() {
    let mut lsh = Lsh::new(2, 2, 3);
    lsh.add(&[1, 2], 4);
    lsh.add(&[7, 0], 5);
    lsh.clear();
    for t in 0..2 {
        for b in 0..8 {
            assert_eq!(lsh.get_bucket_size(t, b), 0);
        }
    }
    assert!(lsh.get_raw(&[1, 2]).is_empty());
}

#[test]
fn lsh_hashes_to_indices_uses_its_shape() {
    let lsh = Lsh::new(2, 2, 4);
    assert_eq!(lsh.hashes_to_indices(&[1, 2, 3, 4]), vec![1, 3]);
}
