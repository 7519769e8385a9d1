//! Building the index artifact for the loaders.
use vstd::prelude::*;
use crate::error::AppError;
use crate::index::{CLUSTERS, DIMS};
use crate::index::builder::{
    built_model, is_empty_dataset_error, labels_ok_upto, write_compact_index,
};
use crate::index::format::{ArtifactRead, compact_bytes, read_artifact};
use crate::reference::{ReferenceEntry, is_invalid_label_error, label_code};

verus! {

/// The artifact of the reference index for `entries`, with centroids
/// `centroids`.
pub fn build_reference_index(entries: &[ReferenceEntry], centroids: Vec<u32>) -> (r: Result<
    Vec<u8>,
    AppError,
>)
    requires
        forall|i: int| 0 <= i < entries@.len() ==> (#[trigger] entries@[i]).bins_ok(),
        entries@.len() <= u32::MAX,
        14 * entries@.len() + 458752 <= usize::MAX,
        centroids@.len() == DIMS * CLUSTERS,
    ensures
        match r {
            Ok(bytes) => {
                &&& entries@.len() >= 1
                &&& labels_ok_upto(entries@, entries@.len() as int)
                &&& bytes@ == compact_bytes(built_model(entries@, centroids@))
                &&& built_model(entries@, centroids@).n == entries@.len()
                &&& read_artifact(bytes@) == ArtifactRead::Parsed(built_model(entries@, centroids@))
            },
            Err(e) => {
                ||| entries@.len() == 0 && is_empty_dataset_error(e)
                ||| entries@.len() >= 1 && exists|i: int|
                    0 <= i < entries@.len() && labels_ok_upto(entries@, i) && label_code(
                        #[trigger] entries@[i].label@,
                    ) is None && is_invalid_label_error(e, entries@[i].label@)
            },
        },
{
    write_compact_index(entries, centroids)
}

} // verus!
