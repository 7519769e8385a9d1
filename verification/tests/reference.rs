use api::error::AppError;
use api::reference::{cluster_id, label_to_u8};

#[test]
fn cluster_id_uses_four_dims() {
    // bucket bins of 0.1, 0.2, 0.3 and 0.4 in dimensions 0, 2, 7 and 12
    let bins = [0u8, 1, 2, 3];
    assert_eq!(cluster_id(&bins), cluster_id(&bins));
    assert_eq!(cluster_id(&bins), 83);
}

#[test]
fn cluster_id_reads_bins_in_base_eight() {
    assert_eq!(cluster_id(&[0, 0, 0, 0]), 0);
    assert_eq!(cluster_id(&[7, 7, 7, 7]), 4095);
    assert_eq!(cluster_id(&[1, 0, 0, 0]), 512);
    assert_eq!(cluster_id(&[0, 0, 1, 0]), 8);
}

#[test]
fn labels_map_to_codes() {
    assert_eq!(label_to_u8("fraud"), Ok(1));
    assert_eq!(label_to_u8("legit"), Ok(0));
    assert_eq!(
        label_to_u8("Fraud"),
        Err(AppError::Startup("Invalid label 'Fraud' in reference dataset".to_string()))
    );
    assert_eq!(
        label_to_u8(""),
        Err(AppError::Startup("Invalid label '' in reference dataset".to_string()))
    );
}
