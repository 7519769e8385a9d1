use api::error::AppError;
use api::index::builder::{write_compact_index, ClusterCounts, IndexBuilder};
use api::index::format::{LABELS_POS, OFFSETS_POS};
use api::index::{LocalReferenceIndex, CLUSTERS, DIMS};
use api::reference::ReferenceEntry;

fn entry(bins: [u8; 4], first: i16, label: &str) -> ReferenceEntry {
    let mut vector = [0i16; 14];
    vector[0] = first;
    ReferenceEntry { bins, vector, label: label.to_string() }
}

fn sample_entries() -> Vec<ReferenceEntry> {
    vec![
        entry([0, 0, 0, 0], 100, "fraud"),
        entry([0, 0, 0, 1], 200, "legit"),
        entry([0, 0, 0, 0], 300, "legit"),
    ]
}

fn centroids() -> Vec<u32> {
    vec![0u32; DIMS * CLUSTERS]
}

#[test]
fn artifact_round_trips() {
    let index = LocalReferenceIndex::build_from_references(&sample_entries(), centroids()).unwrap();
    let bytes = index.to_compact_bytes();
    // two clusters of one block each
    assert_eq!(bytes.len(), LABELS_POS + 232 * 2);
    assert_eq!(&bytes[0..4], b"RIVF");
    let back = LocalReferenceIndex::from_compact_bytes(&bytes).unwrap();
    assert_eq!(back.len(), 3);
    assert_eq!(back.cluster_count(), CLUSTERS);
    assert!(back.is_queryable());
    assert_eq!(back.to_compact_bytes(), bytes);
}

#[test]
fn artifact_layout_places_offsets_and_labels() {
    let bytes = write_compact_index(&sample_entries(), centroids()).unwrap();
    // version, n, clusters, dims
    assert_eq!(&bytes[4..8], &1u32.to_le_bytes());
    assert_eq!(&bytes[8..12], &3u32.to_le_bytes());
    assert_eq!(&bytes[12..16], &4096u32.to_le_bytes());
    assert_eq!(&bytes[16..20], &14u32.to_le_bytes());
    // offsets: cluster 0 starts at block 0, cluster 1 at block 1, then 2
    assert_eq!(&bytes[OFFSETS_POS..OFFSETS_POS + 4], &0u32.to_le_bytes());
    assert_eq!(&bytes[OFFSETS_POS + 4..OFFSETS_POS + 8], &1u32.to_le_bytes());
    assert_eq!(&bytes[OFFSETS_POS + 8..OFFSETS_POS + 12], &2u32.to_le_bytes());
    assert_eq!(&bytes[LABELS_POS - 4..LABELS_POS], &2u32.to_le_bytes());
    // labels: block 0 holds the two references of cluster 0, block 1 the other
    assert_eq!(&bytes[LABELS_POS..LABELS_POS + 8], &[1, 0, 0, 0, 0, 0, 0, 0]);
    assert_eq!(&bytes[LABELS_POS + 8..LABELS_POS + 16], &[0, 0, 0, 0, 0, 0, 0, 0]);
    // blocks: dimension 0 of block 0, slots 0 and 1
    let blocks = LABELS_POS + 16;
    assert_eq!(&bytes[blocks..blocks + 4], &[100, 0, 44, 1]);
}

#[test]
fn truncated_artifact_is_an_io_error() {
    let bytes = write_compact_index(&sample_entries(), centroids()).unwrap();
    let expected = AppError::Io("failed to fill whole buffer".to_string());
    assert_eq!(LocalReferenceIndex::from_compact_bytes(&bytes[..2]).unwrap_err(), expected);
    assert_eq!(LocalReferenceIndex::from_compact_bytes(&bytes[..18]).unwrap_err(), expected);
    assert_eq!(
        LocalReferenceIndex::from_compact_bytes(&bytes[..bytes.len() - 1]).unwrap_err(),
        expected
    );
}

#[test]
fn trailing_bytes_are_ignored() {
    let mut bytes = write_compact_index(&sample_entries(), centroids()).unwrap();
    let expected = bytes.clone();
    bytes.extend_from_slice(&[9, 9, 9]);
    let back = LocalReferenceIndex::from_compact_bytes(&bytes).unwrap();
    assert_eq!(back.to_compact_bytes(), expected);
}

#[test]
fn bad_magic_is_rejected() {
    let mut bytes = write_compact_index(&sample_entries(), centroids()).unwrap();
    bytes[0] = b'X';
    assert_eq!(
        LocalReferenceIndex::from_compact_bytes(&bytes).unwrap_err(),
        AppError::Startup("Invalid index artifact header".to_string())
    );
}

#[test]
fn unsupported_version_is_named() {
    let mut bytes = write_compact_index(&sample_entries(), centroids()).unwrap();
    bytes[4..8].copy_from_slice(&70213u32.to_le_bytes());
    assert_eq!(
        LocalReferenceIndex::from_compact_bytes(&bytes).unwrap_err(),
        AppError::Startup("Unsupported index artifact version 70213".to_string())
    );
}

#[test]
fn shape_mismatch_is_rejected() {
    let mut bytes = write_compact_index(&sample_entries(), centroids()).unwrap();
    bytes[16] = 13;
    assert_eq!(
        LocalReferenceIndex::from_compact_bytes(&bytes).unwrap_err(),
        AppError::Startup("Index artifact shape mismatch".to_string())
    );
    let mut bytes = write_compact_index(&sample_entries(), centroids()).unwrap();
    bytes[12] = 1;
    assert_eq!(
        LocalReferenceIndex::from_compact_bytes(&bytes).unwrap_err(),
        AppError::Startup("Index artifact shape mismatch".to_string())
    );
}

#[test]
fn artifact_without_references_is_empty() {
    let mut bytes = write_compact_index(&sample_entries(), centroids()).unwrap();
    bytes[8..12].copy_from_slice(&0u32.to_le_bytes());
    assert_eq!(
        LocalReferenceIndex::from_compact_bytes(&bytes).unwrap_err(),
        AppError::Startup("Index artifact is empty".to_string())
    );
}

#[test]
fn empty_dataset_is_rejected() {
    assert_eq!(
        write_compact_index(&[], centroids()).unwrap_err(),
        AppError::Startup("Reference dataset did not yield any vectors".to_string())
    );
}

#[test]
fn first_invalid_label_is_reported() {
    let entries = vec![
        entry([0, 0, 0, 0], 1, "legit"),
        entry([0, 0, 0, 0], 2, "suspicious"),
        entry([0, 0, 0, 0], 3, "unknown"),
    ];
    assert_eq!(
        LocalReferenceIndex::build_from_references(&entries, centroids()).unwrap_err(),
        AppError::Startup("Invalid label 'suspicious' in reference dataset".to_string())
    );
}

#[test]
fn two_passes_place_references_cluster_by_cluster() {
    let entries = sample_entries();
    let mut counts = ClusterCounts::new();
    for e in &entries {
        counts.add(api::reference::cluster_id(&e.bins));
    }
    assert_eq!(counts.len(), 3);
    assert_eq!(counts.count_of(0), 2);
    assert_eq!(counts.count_of(1), 1);
    let mut builder = IndexBuilder::from_counts(&counts).unwrap();
    for e in &entries {
        assert!(builder.can_place(api::reference::cluster_id(&e.bins)));
        builder.place(e).unwrap();
    }
    // a fourth reference of cluster 1 still fits in its block
    assert!(builder.can_place(1));
    let index = builder.finish(centroids());
    assert_eq!(
        index.to_compact_bytes(),
        write_compact_index(&entries, centroids()).unwrap()
    );
}

#[test]
fn nine_references_take_two_blocks() {
    let entries: Vec<ReferenceEntry> =
        (0..9).map(|i| entry([0, 0, 0, 2], i as i16, "legit")).collect();
    let bytes = write_compact_index(&entries, centroids()).unwrap();
    // cluster 2 starts at block 0 and ends at block 2
    assert_eq!(&bytes[OFFSETS_POS + 8..OFFSETS_POS + 12], &0u32.to_le_bytes());
    assert_eq!(&bytes[OFFSETS_POS + 12..OFFSETS_POS + 16], &2u32.to_le_bytes());
    assert_eq!(bytes.len(), LABELS_POS + 232 * 2);
}

#[test]
fn builder_refuses_empty_counts() {
    let counts = ClusterCounts::new();
    assert_eq!(
        IndexBuilder::from_counts(&counts).err().unwrap(),
        AppError::Startup("Reference dataset did not yield any vectors".to_string())
    );
}
