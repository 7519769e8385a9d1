//! The cluster-partitioned reference index and its abstract model.
//!
//! References are grouped into `CLUSTERS` clusters. Each cluster owns a run of
//! consecutive blocks, `offsets[c]..offsets[c + 1]`; a block holds
//! `BLOCK_SIZE` slots. For block `b` and slot `s`, the label is
//! `labels[b * BLOCK_SIZE + s]` and dimension `d` of the quantized vector is
//! `blocks[b * BLOCK_SIZE * DIMS + d * BLOCK_SIZE + s]`. Centroids are kept
//! dimension-major, `centroids[d * CLUSTERS + c]`, as the bit patterns of
//! their single-precision values.
use vstd::prelude::*;

pub mod format;
pub mod search;
pub mod builder;

verus! {

/// Dimensions of a transaction vector.
pub const DIMS: usize = 14;

/// Number of clusters of the index.
pub const CLUSTERS: usize = 4096;

/// Slots per block.
pub const BLOCK_SIZE: usize = 8;

/// Neighbours considered by a query.
pub const TOP_K: usize = 5;

/// Clusters probed by the first, cheap pass of a query.
pub const PROBES_FAST: usize = 8;

/// Clusters probed when the first pass is undecided.
pub const PROBES_FULL: usize = 24;

/// Version of the artifact layout.
pub const VERSION: u32 = 1;

/// Abstract value of a `LocalReferenceIndex`.
pub struct IndexModel {
    pub centroids: Seq<u32>,
    pub offsets: Seq<u32>,
    pub labels: Seq<u8>,
    pub blocks: Seq<i16>,
    pub clusters: nat,
    pub n: nat,
}

impl IndexModel {
    /// Number of blocks, as recorded by the last offset.
    pub open spec fn total_blocks(self) -> nat {
        self.offsets[self.clusters as int] as nat
    }

    /// The vectors have the lengths that the cluster count and the block
    /// count call for.
    pub open spec fn shape_ok(self) -> bool {
        &&& self.clusters == CLUSTERS
        &&& self.centroids.len() == DIMS * CLUSTERS
        &&& self.offsets.len() == CLUSTERS + 1
        // BLOCK_SIZE labels and BLOCK_SIZE * DIMS values per block
        &&& self.labels.len() == 8 * self.total_blocks()
        &&& self.blocks.len() == 112 * self.total_blocks()
    }

    /// The block range of cluster `c`, when not empty, lies inside the
    /// stored blocks, so that a query may scan the cluster.
    pub open spec fn cluster_in_range(self, c: int) -> bool {
        self.offsets[c] < self.offsets[c + 1] ==> self.offsets[c + 1] <= self.total_blocks()
    }

    /// Every cluster may be scanned.
    pub open spec fn ranges_ok(self) -> bool {
        forall|c: int| 0 <= c < self.clusters ==> #[trigger] self.cluster_in_range(c)
    }

    /// Every probed cluster exists and may be scanned.
    pub open spec fn probes_in_range(self, probes: Seq<usize>) -> bool {
        forall|i: int|
            0 <= i < probes.len() ==> #[trigger] probes[i] < self.clusters
                && self.cluster_in_range(probes[i] as int)
    }

    /// The index can be queried.
    pub open spec fn queryable(self) -> bool {
        self.shape_ok() && self.ranges_ok()
    }

    /// The index can be written to an artifact and read back unchanged.
    pub open spec fn storable(self) -> bool {
        &&& self.shape_ok()
        &&& 1 <= self.n <= u32::MAX
        &&& self.total_blocks() >= 1
    }
}

/// A quantized reference index.
#[derive(Debug)]
pub struct LocalReferenceIndex {
    centroids: Vec<u32>,
    offsets: Vec<u32>,
    labels: Vec<u8>,
    blocks: Vec<i16>,
    clusters: usize,
    n: usize,
}

impl View for LocalReferenceIndex {
    type V = IndexModel;

    closed spec fn view(&self) -> IndexModel {
        IndexModel {
            centroids: self.centroids@,
            offsets: self.offsets@,
            labels: self.labels@,
            blocks: self.blocks@,
            clusters: self.clusters as nat,
            n: self.n as nat,
        }
    }
}

impl LocalReferenceIndex {
    /// Number of references held.
    pub fn len(&self) -> (n: usize)
        ensures
            n == self@.n,
    {
        self.n
    }

    /// Number of clusters.
    pub fn cluster_count(&self) -> (c: usize)
        ensures
            c == self@.clusters,
    {
        self.clusters
    }

    /// Centroid bit patterns, dimension-major.
    pub fn centroid_bits(&self) -> (c: &Vec<u32>)
        ensures
            c@ == self@.centroids,
    {
        &self.centroids
    }

    /// Whether every cluster's block range lies inside the stored blocks and
    /// the vectors have their expected lengths, that is, whether the index
    /// can be queried.
    pub fn is_queryable(&self) -> (b: bool)
        ensures
            b == self@.queryable(),
    {
        if self.clusters != CLUSTERS || self.centroids.len() != DIMS * CLUSTERS
            || self.offsets.len() != CLUSTERS + 1 {
            return false;
        }
        let total = self.offsets[CLUSTERS] as usize;
        if self.labels.len() / 8 != total || self.labels.len() % 8 != 0 {
            return false;
        }
        if self.blocks.len() / 112 != total || self.blocks.len() % 112 != 0 {
            return false;
        }
        let mut c: usize = 0;
        while c < CLUSTERS
            invariant
                c <= CLUSTERS,
                self.offsets@.len() == CLUSTERS + 1,
                self.clusters == CLUSTERS,
                total == self@.total_blocks(),
                forall|k: int| 0 <= k < c ==> #[trigger] self@.cluster_in_range(k),
            decreases CLUSTERS - c,
        {
            if self.offsets[c] < self.offsets[c + 1] && self.offsets[c + 1] as usize > total {
                assert(!self@.cluster_in_range(c as int));
                return false;
            }
            c = c + 1;
        }
        true
    }

    /// Whether every probed cluster exists and may be scanned.
    pub fn probes_in_range(&self, probes: &Vec<usize>) -> (b: bool)
        requires
            self@.shape_ok(),
        ensures
            b == self@.probes_in_range(probes@),
    {
        let total = self.offsets[CLUSTERS];
        let mut i: usize = 0;
        while i < probes.len()
            invariant
                i <= probes@.len(),
                self@.shape_ok(),
                total == self@.offsets[CLUSTERS as int],
                forall|k: int|
                    0 <= k < i ==> #[trigger] probes@[k] < self@.clusters
                        && self@.cluster_in_range(probes@[k] as int),
            decreases probes@.len() - i,
        {
            let c = probes[i];
            if c >= CLUSTERS {
                return false;
            }
            if self.offsets[c] < self.offsets[c + 1] && self.offsets[c + 1] > total {
                assert(!self@.cluster_in_range(c as int));
                return false;
            }
            i = i + 1;
        }
        true
    }
}

} // verus!
