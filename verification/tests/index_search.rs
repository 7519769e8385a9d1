use api::index::search::top_centroid_probes;
use api::index::{LocalReferenceIndex, CLUSTERS, DIMS};
use api::reference::ReferenceEntry;

const FAR: u32 = 100;

fn entry(bins: [u8; 4], dim: usize, value: i16, label: &str) -> ReferenceEntry {
    let mut vector = [0i16; 14];
    vector[dim] = value;
    ReferenceEntry { bins, vector, label: label.to_string() }
}

fn index_of(entries: &[ReferenceEntry]) -> LocalReferenceIndex {
    LocalReferenceIndex::build_from_references(entries, vec![0u32; DIMS * CLUSTERS]).unwrap()
}

/// A query far from the zero vector that fills the unused slots of a block.
fn far_query() -> [i16; 14] {
    let mut q = [0i16; 14];
    q[0] = 10000;
    q
}

/// A reference `d` away from the far query along dimension 0.
fn near(bins: [u8; 4], d: i16, label: &str) -> ReferenceEntry {
    entry(bins, 0, 10000 - d, label)
}

fn keys_near(cluster: usize) -> Vec<u32> {
    let mut keys = vec![FAR; CLUSTERS];
    keys[cluster] = 0;
    keys
}

#[test]
fn probes_prefer_smaller_keys() {
    let keys = vec![50, 10, 40, 20, 30];
    assert_eq!(top_centroid_probes(&keys, 3), vec![1, 3, 4]);
}

#[test]
fn probe_ties_keep_first_cluster_last() {
    // equal keys: each later cluster goes before the earlier ones, and once
    // the list is full an equal key is not taken
    assert_eq!(top_centroid_probes(&keys_near(0), 8), vec![0, 7, 6, 5, 4, 3, 2, 1]);
}

#[test]
fn unfilled_probe_slots_point_at_cluster_zero() {
    let keys = vec![7, 3];
    assert_eq!(top_centroid_probes(&keys, 4), vec![1, 0, 0, 0]);
    // a key at the unfilled sentinel is never taken
    let keys = vec![0x7f80_0000, 5];
    assert_eq!(top_centroid_probes(&keys, 2), vec![1, 0]);
}

#[test]
fn counts_fraud_among_five_nearest() {
    let entries = vec![
        near([0, 0, 0, 0], 1, "fraud"),
        near([0, 0, 0, 0], 2, "legit"),
        near([0, 0, 0, 0], 3, "fraud"),
        near([0, 0, 0, 0], 4, "legit"),
        near([0, 0, 0, 0], 5, "legit"),
        near([0, 0, 0, 0], 6, "fraud"),
    ];
    let index = index_of(&entries);
    assert_eq!(index.fraud_count_for(&far_query(), &keys_near(0)).unwrap(), 2);
}

#[test]
fn undecided_fast_count_rescans_wider() {
    // the fast probes see cluster 0 only (three frauds); the full probes
    // also reach cluster 9, whose references are nearer and legit
    let mut entries = vec![
        near([0, 0, 0, 0], 10, "fraud"),
        near([0, 0, 0, 0], 11, "fraud"),
        near([0, 0, 0, 0], 12, "fraud"),
    ];
    for _ in 0..5 {
        entries.push(near([0, 0, 1, 1], 1, "legit"));
    }
    let index = index_of(&entries);
    let mut keys = keys_near(0);
    keys[9] = 50;
    let query = far_query();
    assert_eq!(top_centroid_probes(&keys, 8)[1], 9);
    let mut keys = keys_near(0);
    keys[9] = FAR;
    // cluster 9 is now outside the fast probes but inside the full ones
    let fast = top_centroid_probes(&keys, 8);
    assert!(!fast.contains(&9));
    let full = top_centroid_probes(&keys, 24);
    assert!(full.contains(&9));
    assert_eq!(index.fraud_count_for(&query, &keys).unwrap(), 0);
}

#[test]
fn decided_fast_count_is_final() {
    let mut entries = vec![near([0, 0, 0, 0], 10, "fraud")];
    for _ in 0..5 {
        entries.push(near([0, 0, 1, 1], 1, "fraud"));
    }
    let index = index_of(&entries);
    let keys = keys_near(0);
    let query = far_query();
    // one fraud seen by the fast probes: no second scan reaches cluster 9
    assert_eq!(index.fraud_count_for(&query, &keys).unwrap(), 1);
}

#[test]
fn dimensions_one_and_three_do_not_count() {
    let mut a = near([0, 0, 0, 0], 0, "fraud");
    a.vector[1] = -10000;
    let mut b = near([0, 0, 0, 0], 0, "fraud");
    b.vector[3] = -10000;
    let entries = vec![
        a,
        b,
        near([0, 0, 0, 0], 1, "legit"),
        near([0, 0, 0, 0], 2, "legit"),
        near([0, 0, 0, 0], 3, "legit"),
        near([0, 0, 0, 0], 4, "legit"),
    ];
    let index = index_of(&entries);
    let query = far_query();
    // the two fraud references are at distance 0
    assert_eq!(index.fraud_count_for(&query, &keys_near(0)).unwrap(), 2);
}

#[test]
fn dimension_seven_counts_twice() {
    // distance 2 * 3^2 = 18 against 4^2 = 16 in dimension 0
    let mut seven = near([0, 0, 0, 0], 0, "fraud");
    seven.vector[7] = 3;
    let keys = keys_near(0);
    let query = far_query();
    // five legit references at distance 17 leave no room for the fraud one
    let mut entries = vec![seven];
    for _ in 0..5 {
        let mut e = near([0, 0, 0, 0], 4, "legit");
        e.vector[2] = 1;
        entries.push(e);
    }
    let index = index_of(&entries);
    assert_eq!(index.fraud_count_for(&query, &keys).unwrap(), 0);
    // at distance 19 they do
    let mut seven = near([0, 0, 0, 0], 0, "fraud");
    seven.vector[7] = 3;
    let mut entries = vec![seven];
    for _ in 0..5 {
        let mut e = near([0, 0, 0, 0], 4, "legit");
        e.vector[2] = 1;
        e.vector[4] = 1;
        e.vector[5] = 1;
        entries.push(e);
    }
    let index = index_of(&entries);
    assert_eq!(index.fraud_count_for(&query, &keys).unwrap(), 1);
}

#[test]
fn sentinel_query_values_are_far() {
    let entries = vec![
        entry([0, 0, 0, 0], 5, -10000, "fraud"),
        entry([0, 0, 0, 0], 5, 0, "legit"),
    ];
    let index = index_of(&entries);
    let mut query = [0i16; 14];
    query[5] = -10000;
    assert_eq!(index.fraud_count_for(&query, &keys_near(0)).unwrap(), 1);
}

#[test]
fn loaded_index_answers_like_built_index() {
    let entries = vec![
        near([0, 0, 0, 0], 1, "fraud"),
        near([0, 0, 0, 0], 2, "fraud"),
        near([0, 0, 0, 0], 9, "legit"),
    ];
    let index = index_of(&entries);
    let loaded = LocalReferenceIndex::from_compact_bytes(&index.to_compact_bytes()).unwrap();
    let query = far_query();
    let keys = keys_near(0);
    assert_eq!(
        loaded.fraud_count_for(&query, &keys).unwrap(),
        index.fraud_count_for(&query, &keys).unwrap()
    );
    assert_eq!(loaded.fraud_count_for(&query, &keys).unwrap(), 2);
}

#[test]
fn unused_block_slots_act_as_legit_references_at_the_origin() {
    // one fraud reference far from the zero query; the seven unused slots of
    // its block are legit and at distance zero
    let entries = vec![entry([0, 0, 0, 0], 0, 100, "fraud")];
    let index = index_of(&entries);
    assert_eq!(index.fraud_count_for(&[0i16; 14], &keys_near(0)).unwrap(), 0);
}

#[test]
fn probing_a_cluster_past_the_blocks_is_detected() {
    let entries = vec![near([0, 0, 0, 0], 1, "fraud")];
    let mut bytes = index_of(&entries).to_compact_bytes();
    // cluster 0 claims blocks 0..5 while only one block is stored
    let at = api::index::format::OFFSETS_POS + 4;
    bytes[at..at + 4].copy_from_slice(&5u32.to_le_bytes());
    let index = LocalReferenceIndex::from_compact_bytes(&bytes).unwrap();
    assert!(!index.is_queryable());
    assert_eq!(index.fraud_count_checked(&far_query(), &keys_near(0)), None);
    // a query whose probes avoid cluster 0 is answered
    let mut keys = vec![FAR; CLUSTERS];
    keys[0] = FAR + 1;
    assert_eq!(index.fraud_count_checked(&far_query(), &keys), Some(0));
}

#[test]
fn checked_count_agrees_with_count() {
    let entries = vec![
        near([0, 0, 0, 0], 1, "fraud"),
        near([0, 0, 0, 0], 2, "fraud"),
        near([0, 0, 0, 0], 3, "legit"),
    ];
    let index = index_of(&entries);
    let keys = keys_near(0);
    assert_eq!(
        index.fraud_count_checked(&far_query(), &keys),
        Some(index.fraud_count_for(&far_query(), &keys).unwrap())
    );
}

#[test]
fn nan_distances_go_first() {
    // a query with a NaN coordinate is at NaN distance from every centroid:
    // each cluster is inserted at the front, so the last ones are probed
    let keys = vec![f32::NAN.to_bits(); CLUSTERS];
    let expected: Vec<usize> = (4088..4096).rev().collect();
    assert_eq!(top_centroid_probes(&keys, 8), expected);
    let negative_nan = vec![0xffc0_0000u32; CLUSTERS];
    assert_eq!(top_centroid_probes(&negative_nan, 8), expected);
}

#[test]
fn keys_compare_as_float_values() {
    // -0.0 equals 0.0: the later cluster goes before the earlier one
    let keys = vec![(-0.0f32).to_bits(), 0.0f32.to_bits()];
    assert_eq!(top_centroid_probes(&keys, 2), vec![1, 0]);
    let keys = vec![2.5f32.to_bits(), 0.5f32.to_bits(), f32::INFINITY.to_bits(), 1.0f32.to_bits()];
    assert_eq!(top_centroid_probes(&keys, 3), vec![1, 3, 0]);
}
