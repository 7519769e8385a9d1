//! Reference entries and their labels.
use vstd::prelude::*;
use vstd::string::*;
use crate::error::AppError;
use crate::text::concat3;

verus! {

/// Number of dimensions whose bucket bins choose a reference's cluster
/// (dimensions 0, 2, 7 and 12 of the vector, most significant first).
pub const SELECTED_DIMS_COUNT: usize = 4;

/// A labelled reference vector, as the index stores it: the bucket bins of
/// the selected dimensions (each below eight) and the quantized coordinates.
pub struct ReferenceEntry {
    pub bins: [u8; 4],
    pub vector: [i16; 14],
    pub label: String,
}

impl ReferenceEntry {
    /// Every bucket bin is below eight.
    pub open spec fn bins_ok(&self) -> bool {
        forall|i: int| 0 <= i < 4 ==> #[trigger] self.bins@[i] < 8
    }
}

/// The cluster of the bins `b`: the four bins read as the digits, most
/// significant first, of a number in base eight.
pub open spec fn cluster_of(b: Seq<u8>) -> nat {
    b[0] as nat * 512 + b[1] as nat * 64 + b[2] as nat * 8 + b[3] as nat
}

/// The cluster of a reference with bucket bins `bins`.
pub fn cluster_id(bins: &[u8; 4]) -> (id: usize)
    requires
        forall|i: int| 0 <= i < 4 ==> #[trigger] bins@[i] < 8,
    ensures
        id == cluster_of(bins@),
        id < 4096,
{
    let mut id: usize = 0;
    let mut i: usize = 0;
    while i < SELECTED_DIMS_COUNT
        invariant
            i <= 4,
            forall|k: int| 0 <= k < 4 ==> #[trigger] bins@[k] < 8,
            id == if i == 0 {
                0
            } else if i == 1 {
                bins@[0] as nat
            } else if i == 2 {
                bins@[0] as nat * 8 + bins@[1] as nat
            } else if i == 3 {
                bins@[0] as nat * 64 + bins@[1] as nat * 8 + bins@[2] as nat
            } else {
                cluster_of(bins@)
            },
        decreases 4 - i,
    {
        id = id * 8 + bins[i] as usize;
        i = i + 1;
    }
    id
}

/// Distinct bins give distinct clusters, so a cluster gives back its bins.
pub proof fn lemma_cluster_of_injective(a: Seq<u8>, b: Seq<u8>)
    requires
        a.len() == 4,
        b.len() == 4,
        forall|i: int| 0 <= i < 4 ==> #[trigger] a[i] < 8,
        forall|i: int| 0 <= i < 4 ==> #[trigger] b[i] < 8,
        cluster_of(a) == cluster_of(b),
    ensures
        a == b,
{
    assert(a[0] < 8 && a[1] < 8 && a[2] < 8 && a[3] < 8);
    assert(b[0] < 8 && b[1] < 8 && b[2] < 8 && b[3] < 8);
    assert(a[0] == b[0]);
    assert(a[1] == b[1]);
    assert(a[2] == b[2]);
    assert(a[3] == b[3]);
    assert(a =~= b);
}

/// The stored code of a label: 1 for "fraud", 0 for "legit", none otherwise.
pub open spec fn label_code(label: Seq<char>) -> Option<u8> {
    if label == "fraud"@ {
        Some(1u8)
    } else if label == "legit"@ {
        Some(0u8)
    } else {
        None
    }
}

/// Message for a label that is neither "fraud" nor "legit".
pub open spec fn invalid_label_text(label: Seq<char>) -> Seq<char> {
    "Invalid label '"@ + label + "' in reference dataset"@
}

/// The error for a label that is neither "fraud" nor "legit".
pub open spec fn is_invalid_label_error(e: AppError, label: Seq<char>) -> bool {
    e matches AppError::Startup(m) && m@ == invalid_label_text(label)
}

/// The error for the label `label`.
pub fn invalid_label(label: &str) -> (e: AppError)
    ensures
        is_invalid_label_error(e, label@),
{
    AppError::Startup(concat3("Invalid label '", label, "' in reference dataset"))
}

/// The stored code of a label; any label but "fraud" and "legit" is an error.
pub fn label_to_u8(label: &str) -> (r: Result<u8, AppError>)
    ensures
        match r {
            Ok(code) => label_code(label@) == Some(code),
            Err(e) => label_code(label@) is None && is_invalid_label_error(e, label@),
        },
{
    let owned = String::from_str(label);
    let fraud = String::from_str("fraud");
    let legit = String::from_str("legit");
    if owned == fraud {
        Ok(1)
    } else if owned == legit {
        Ok(0)
    } else {
        Err(invalid_label(label))
    }
}

} // verus!
