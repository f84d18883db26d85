use slide::hasher::order_key;
use slide::layer::{select_active_nodes, LayerIndex, MIN_ACTIVE};

fn weight_keys(n: usize, m: usize, seed: usize) -> Vec<Vec<u32>> {
    (0..n)
        .map(|i| {
            (0..m)
                .map(|j| {
                    let v = ((i * 31 + j * 17 + seed * 7) % 23) as f32 / 100.0;
                    order_key(v.to_bits())
                })
                .collect()
        })
        .collect()
}

fn all_buckets(index: &LayerIndex) -> Vec<Vec<u32>> {
    let tables = index.hash_tables();
    let mut out = Vec::new();
    for t in 0..tables.get_l() {
        for b in 0..(1usize << tables.get_range_pow()) {
            let mut indices = vec![0; tables.get_l()];
            indices[t] = b;
            let raw = tables.get_raw(&indices);
            out.push(raw);
        }
    }
    out
}

#[test]
fn rehash_inserts_every_neuron_once_per_table() {
    let mut index = LayerIndex::new(200, 16, 2, 3, 4);
    index.rehash(&weight_keys(200, 16, 1));
    let tables = index.hash_tables();
    for t in 0..3 {
        let total: usize = (0..16).map(|b| tables.get_bucket_size(t, b)).sum();
        assert_eq!(total, 200);
    }
}

#[test]
fn rebuild_then_rehash_repopulates() {
    let mut index = LayerIndex::new(300, 16, 3, 4, 5);
    let weights = weight_keys(300, 16, 2);
    index.rehash(&weights);
    index.update_table();
    index.rehash(&weights);
    let tables = index.hash_tables();
    for t in 0..4 {
        let total: usize = (0..32).map(|b| tables.get_bucket_size(t, b)).sum();
        assert_eq!(total, 300);
    }
}

#[test]
fn rehash_twice_keeps_bucket_membership() {
    let mut index = LayerIndex::new(150, 12, 2, 2, 3);
    let weights = weight_keys(150, 12, 3);
    index.rehash(&weights);
    let first = all_buckets(&index);
    index.rehash(&weights);
    index.rehash(&weights);
    assert_eq!(all_buckets(&index), first);
}

#[test]
fn dense_query_takes_every_neuron() {
    let mut index = LayerIndex::new(50, 8, 2, 2, 3);
    index.rehash(&weight_keys(50, 8, 4));
    let active = index.query_active_nodes(&[], &[], &[], true);
    assert_eq!(active, (0..50).collect::<Vec<usize>>());
}

#[test]
fn sparse_query_forces_labels_and_pads() {
    let mut index = LayerIndex::new(1500, 10, 2, 4, 4);
    index.rehash(&weight_keys(1500, 10, 5));
    let values = [order_key(1.0f32.to_bits()), order_key(0.5f32.to_bits())];
    for _ in 0..5 {
        let active = index.query_active_nodes(&values, &[2, 7], &[1499, 3], false);
        assert!(active.contains(&1499));
        assert!(active.contains(&3));
        assert!(active.len() >= MIN_ACTIVE);
        let mut sorted = active.clone();
        sorted.sort();
        sorted.dedup();
        assert_eq!(sorted.len(), active.len());
        assert!(active.iter().all(|&id| id < 1500));
    }
}

#[test]
fn sparse_query_on_small_layer_takes_all() {
    let mut index = LayerIndex::new(120, 10, 2, 3, 4);
    index.rehash(&weight_keys(120, 10, 6));
    index.random_nodes();
    let values = [order_key(0.3f32.to_bits())];
    let active = index.query_active_nodes(&values, &[4], &[7], false);
    assert_eq!(active.len(), 120);
    assert_eq!(active[0], 7);
}

#[test]
fn select_takes_forced_then_candidates_then_padding() {
    let rand_ids = [4, 0, 6, 2, 5, 1, 3, 7];
    let r = select_active_nodes(&[3, 1], &[1, 7, 9], &rand_ids, 2, 5, 8);
    assert_eq!(r, vec![3, 1, 7, 6, 2]);
}

#[test]
fn select_wraps_around_rand_ids() {
    let rand_ids = [4, 0, 6, 2, 5, 1, 3, 7];
    let r = select_active_nodes(&[], &[], &rand_ids, 6, 3, 8);
    assert_eq!(r, vec![3, 7, 4]);
}

#[test]
fn select_stops_when_ids_run_out() {
    let rand_ids = [2, 0, 1];
    let r = select_active_nodes(&[1], &[], &rand_ids, 1, 1000, 3);
    assert_eq!(r, vec![1, 0, 2]);
}

#[test]
fn select_skips_out_of_range_ids() {
    let rand_ids = [0, 1];
    let r = select_active_nodes(&[5, 1], &[8, 1], &rand_ids, 0, 1, 2);
    assert_eq!(r, vec![1]);
}

#[test]
fn select_size_is_distinct_ids_topped_up() {
    let rand_ids = [4, 0, 6, 2, 5, 1, 3, 7];
    // Six distinct ids already exceed the floor of four.
    let r = select_active_nodes(&[1, 1, 2], &[3, 4, 5, 6, 2], &rand_ids, 0, 4, 8);
    assert_eq!(r.len(), 6);
    // Two distinct ids are topped up to the floor.
    let r = select_active_nodes(&[1], &[2, 1], &rand_ids, 0, 4, 8);
    assert_eq!(r.len(), 4);
}

#[test]
fn maintain_rebuilds_then_rehashes() {
    let mut index = LayerIndex::new(100, 12, 2, 3, 4);
    let weights = weight_keys(100, 12, 7);
    index.rehash(&weights);
    let before = all_buckets(&index);
    index.maintain(&Vec::new(), false, false);
    assert_eq!(all_buckets(&index), before);
    index.maintain(&weights, true, true);
    let tables = index.hash_tables();
    for t in 0..3 {
        let total: usize = (0..16).map(|b| tables.get_bucket_size(t, b)).sum();
        assert_eq!(total, 100);
    }
    index.maintain(&weights, false, true);
    let after = all_buckets(&index);
    index.maintain(&weights, false, true);
    assert_eq!(all_buckets(&index), after);
}
