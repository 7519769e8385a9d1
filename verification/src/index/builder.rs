//! Building an index from labelled references, in two passes: the first
//! counts the references of each cluster, which fixes the block layout; the
//! second places each reference in the next free slot of its cluster.
use vstd::prelude::*;
use vstd::string::*;
use crate::error::AppError;
use crate::reference::{ReferenceEntry, cluster_id, cluster_of, label_code, label_to_u8, is_invalid_label_error};
use super::{BLOCK_SIZE, CLUSTERS, DIMS, IndexModel, LocalReferenceIndex};
use super::format::{ArtifactRead, compact_bytes, lemma_artifact_roundtrip, read_artifact};

verus! {

/// Blocks needed for `count` references.
pub open spec fn blocks_for(count: nat) -> nat {
    (count + 7) / 8
}

/// Sum of the first `c` counts.
pub open spec fn count_sum(counts: Seq<u32>, c: int) -> nat
    decreases c,
{
    if c <= 0 {
        0
    } else {
        count_sum(counts, c - 1) + counts[c - 1] as nat
    }
}

/// First block of cluster `c`: the clusters before it, in order, take the
/// blocks their counts need.
pub open spec fn layout_offset(counts: Seq<u32>, c: int) -> nat
    decreases c,
{
    if c <= 0 {
        0
    } else {
        layout_offset(counts, c - 1) + blocks_for(counts[c - 1] as nat)
    }
}

/// The block offsets of every cluster, and the total block count last.
pub open spec fn layout_offsets(counts: Seq<u32>) -> Seq<u32> {
    Seq::new((CLUSTERS + 1) as nat, |c: int| layout_offset(counts, c) as u32)
}

/// Per-cluster counts after the first `i` entries.
pub open spec fn counts_after(entries: Seq<ReferenceEntry>, i: int) -> Seq<u32>
    decreases i,
{
    if i <= 0 {
        Seq::new(CLUSTERS as nat, |c: int| 0u32)
    } else {
        let prev = counts_after(entries, i - 1);
        let c = cluster_of(entries[i - 1].bins@) as int;
        prev.update(c, (prev[c] + 1) as u32)
    }
}

/// What the second pass has written so far.
pub struct Placement {
    pub labels: Seq<u8>,
    pub blocks: Seq<i16>,
    pub positions: Seq<u32>,
}

/// The placement after `entry` is put in the next free slot of its cluster:
/// slot `p % 8` of block `offsets[c] + p / 8`, where `p` is the cluster's
/// position.
pub open spec fn place_spec(offsets: Seq<u32>, st: Placement, entry: ReferenceEntry) -> Placement {
    let c = cluster_of(entry.bins@) as int;
    let p = st.positions[c] as int;
    let block = offsets[c] + p / 8;
    let slot = p % 8;
    Placement {
        labels: st.labels.update(block * 8 + slot, label_code(entry.label@).unwrap()),
        blocks: Seq::new(
            st.blocks.len(),
            |k: int|
                if block * 112 <= k < block * 112 + 112 && (k - block * 112) % 8 == slot {
                    entry.vector@[(k - block * 112) / 8]
                } else {
                    st.blocks[k]
                },
        ),
        positions: st.positions.update(
            c,
            if p == u32::MAX {
                p as u32
            } else {
                (p + 1) as u32
            },
        ),
    }
}

/// The placement after the first `i` entries, from empty blocks.
pub open spec fn placed_after(entries: Seq<ReferenceEntry>, offsets: Seq<u32>, i: int) -> Placement
    decreases i,
{
    if i <= 0 {
        let total = offsets[CLUSTERS as int] as nat;
        Placement {
            labels: Seq::new(8 * total, |k: int| 0u8),
            blocks: Seq::new(112 * total, |k: int| 0i16),
            positions: Seq::new(CLUSTERS as nat, |c: int| 0u32),
        }
    } else {
        place_spec(offsets, placed_after(entries, offsets, i - 1), entries[i - 1])
    }
}

/// The first `i` entries all carry a known label.
pub open spec fn labels_ok_upto(entries: Seq<ReferenceEntry>, i: int) -> bool {
    forall|j: int| 0 <= j < i ==> #[trigger] label_code(entries[j].label@) is Some
}

/// The index built from `entries` with centroids `centroids`.
pub open spec fn built_model(entries: Seq<ReferenceEntry>, centroids: Seq<u32>) -> IndexModel {
    let offsets = layout_offsets(counts_after(entries, entries.len() as int));
    let placed = placed_after(entries, offsets, entries.len() as int);
    IndexModel {
        centroids,
        offsets,
        labels: placed.labels,
        blocks: placed.blocks,
        clusters: CLUSTERS as nat,
        n: entries.len(),
    }
}

/// Message for a reference dataset without any entry.
pub open spec fn empty_dataset_text() -> Seq<char> {
    "Reference dataset did not yield any vectors"@
}

/// The error for a reference dataset without any entry.
pub open spec fn is_empty_dataset_error(e: AppError) -> bool {
    e matches AppError::Startup(m) && m@ == empty_dataset_text()
}

proof fn lemma_count_sum_update(counts: Seq<u32>, c: int, k: int)
    requires
        0 <= c < counts.len(),
        0 <= k <= counts.len(),
        counts[c] < u32::MAX,
    ensures
        count_sum(counts.update(c, (counts[c] + 1) as u32), k) == count_sum(counts, k) + if c
            < k {
            1nat
        } else {
            0nat
        },
    decreases k,
{
    if k > 0 {
        lemma_count_sum_update(counts, c, k - 1);
    }
}

proof fn lemma_count_le_sum(counts: Seq<u32>, c: int, k: int)
    requires
        0 <= c < k <= counts.len(),
    ensures
        counts[c] <= count_sum(counts, k),
    decreases k,
{
    if c < k - 1 {
        lemma_count_le_sum(counts, c, k - 1);
    }
}

proof fn lemma_layout_monotone(counts: Seq<u32>, a: int, b: int)
    requires
        0 <= a <= b,
    ensures
        layout_offset(counts, a) <= layout_offset(counts, b),
    decreases b - a,
{
    if a < b {
        lemma_layout_monotone(counts, a, b - 1);
    }
}

proof fn lemma_layout_bound(counts: Seq<u32>, c: int)
    requires
        0 <= c,
    ensures
        8 * layout_offset(counts, c) <= count_sum(counts, c) + 7 * c,
    decreases c,
{
    if c > 0 {
        lemma_layout_bound(counts, c - 1);
    }
}

proof fn lemma_layout_fits(counts: Seq<u32>, n: nat)
    requires
        counts.len() == CLUSTERS,
        count_sum(counts, CLUSTERS as int) == n,
        n <= u32::MAX,
    ensures
        forall|c: int|
            0 <= c <= CLUSTERS ==> #[trigger] layout_offset(counts, c) <= layout_offset(
                counts,
                CLUSTERS as int,
            ),
        layout_offset(counts, CLUSTERS as int) <= n / 8 + 4096,
        layout_offset(counts, CLUSTERS as int) < u32::MAX,
        n >= 1 ==> layout_offset(counts, CLUSTERS as int) >= 1,
        layout_offsets(counts).len() == CLUSTERS + 1,
        forall|c: int|
            0 <= c <= CLUSTERS ==> #[trigger] layout_offsets(counts)[c] == layout_offset(counts, c),
{
    lemma_layout_bound(counts, CLUSTERS as int);
    assert forall|c: int| 0 <= c <= CLUSTERS implies #[trigger] layout_offset(counts, c)
        <= layout_offset(counts, CLUSTERS as int) by {
        lemma_layout_monotone(counts, c, CLUSTERS as int);
    }
    if n >= 1 {
        lemma_nonzero_layout(counts, CLUSTERS as int);
    }
    assert forall|c: int| 0 <= c <= CLUSTERS implies #[trigger] layout_offsets(counts)[c]
        == layout_offset(counts, c) by {
        lemma_layout_monotone(counts, c, CLUSTERS as int);
    }
}

proof fn lemma_nonzero_layout(counts: Seq<u32>, c: int)
    requires
        0 <= c,
        count_sum(counts, c) >= 1,
    ensures
        layout_offset(counts, c) >= 1,
    decreases c,
{
    if c > 0 {
        if count_sum(counts, c - 1) >= 1 {
            lemma_nonzero_layout(counts, c - 1);
        }
    }
}

/// First pass: references counted per cluster.
pub struct ClusterCounts {
    counts: Vec<u32>,
    n: u32,
}

impl ClusterCounts {
    /// Count of each cluster.
    pub closed spec fn counts(&self) -> Seq<u32> {
        self.counts@
    }

    /// Number of references counted.
    pub closed spec fn n(&self) -> nat {
        self.n as nat
    }

    /// One count per cluster, summing to the number of references.
    pub closed spec fn wf(&self) -> bool {
        &&& self.counts@.len() == CLUSTERS
        &&& count_sum(self.counts@, CLUSTERS as int) == self.n
    }

    /// No reference counted yet.
    pub fn new() -> (r: ClusterCounts)
        ensures
            r.wf(),
            r.counts() == Seq::new(CLUSTERS as nat, |c: int| 0u32),
            r.n() == 0,
    {
        let mut counts: Vec<u32> = Vec::new();
        let mut i: usize = 0;
        while i < CLUSTERS
            invariant
                i <= CLUSTERS,
                counts@ == Seq::new(i as nat, |c: int| 0u32),
                count_sum(counts@, i as int) == 0,
            decreases CLUSTERS - i,
        {
            counts.push(0);
            i = i + 1;
            proof {
                assert(counts@ =~= Seq::new(i as nat, |c: int| 0u32));
                assert forall|k: int| 0 <= k <= i implies count_sum(counts@, k) == 0 by {
                    lemma_count_sum_zero(counts@, k);
                }
            }
        }
        ClusterCounts { counts, n: 0 }
    }

    /// Counts one more reference of cluster `cluster`.
    pub fn add(&mut self, cluster: usize)
        requires
            old(self).wf(),
            cluster < CLUSTERS,
            old(self).n() < u32::MAX,
        ensures
            final(self).wf(),
            final(self).counts() == old(self).counts().update(
                cluster as int,
                (old(self).counts()[cluster as int] + 1) as u32,
            ),
            final(self).n() == old(self).n() + 1,
    {
        proof {
            lemma_count_le_sum(self.counts@, cluster as int, CLUSTERS as int);
            lemma_count_sum_update(self.counts@, cluster as int, CLUSTERS as int);
        }
        let c = self.counts[cluster];
        self.counts.set(cluster, c + 1);
        self.n = self.n + 1;
    }

    /// Count of cluster `cluster`.
    pub fn count_of(&self, cluster: usize) -> (c: u32)
        requires
            self.wf(),
            cluster < CLUSTERS,
        ensures
            c == self.counts()[cluster as int],
    {
        self.counts[cluster]
    }

    /// Number of references counted.
    pub fn len(&self) -> (n: u32)
        ensures
            n == self.n(),
    {
        self.n
    }

    /// Counts the references of `entries`.
    pub fn count_entries(entries: &[ReferenceEntry]) -> (r: ClusterCounts)
        requires
            entries@.len() <= u32::MAX,
            forall|i: int| 0 <= i < entries@.len() ==> (#[trigger] entries@[i]).bins_ok(),
        ensures
            r.wf(),
            r.counts() == counts_after(entries@, entries@.len() as int),
            r.n() == entries@.len(),
    {
        let mut counts = ClusterCounts::new();
        let mut i: usize = 0;
        while i < entries.len()
            invariant
                i <= entries@.len(),
                entries@.len() <= u32::MAX,
                forall|k: int| 0 <= k < entries@.len() ==> (#[trigger] entries@[k]).bins_ok(),
                counts.wf(),
                counts.counts() == counts_after(entries@, i as int),
                counts.n() == i,
            decreases entries@.len() - i,
        {
            let cluster = cluster_id(&entries[i].bins);
            counts.add(cluster);
            i = i + 1;
        }
        counts
    }
}

proof fn lemma_count_sum_zero(counts: Seq<u32>, k: int)
    requires
        0 <= k <= counts.len(),
        forall|c: int| 0 <= c < k ==> counts[c] == 0,
    ensures
        count_sum(counts, k) == 0,
    decreases k,
{
    if k > 0 {
        lemma_count_sum_zero(counts, k - 1);
    }
}

fn zeros_u8(n: usize) -> (v: Vec<u8>)
    ensures
        v@ == Seq::new(n as nat, |k: int| 0u8),
{
    let mut v: Vec<u8> = Vec::with_capacity(n);
    let mut i: usize = 0;
    while i < n
        invariant
            i <= n,
            v@ == Seq::new(i as nat, |k: int| 0u8),
        decreases n - i,
    {
        v.push(0);
        i = i + 1;
        assert(v@ =~= Seq::new(i as nat, |k: int| 0u8));
    }
    v
}

fn zeros_i16(n: usize) -> (v: Vec<i16>)
    ensures
        v@ == Seq::new(n as nat, |k: int| 0i16),
{
    let mut v: Vec<i16> = Vec::with_capacity(n);
    let mut i: usize = 0;
    while i < n
        invariant
            i <= n,
            v@ == Seq::new(i as nat, |k: int| 0i16),
        decreases n - i,
    {
        v.push(0);
        i = i + 1;
        assert(v@ =~= Seq::new(i as nat, |k: int| 0i16));
    }
    v
}

fn zeros_u32(n: usize) -> (v: Vec<u32>)
    ensures
        v@ == Seq::new(n as nat, |k: int| 0u32),
{
    let mut v: Vec<u32> = Vec::with_capacity(n);
    let mut i: usize = 0;
    while i < n
        invariant
            i <= n,
            v@ == Seq::new(i as nat, |k: int| 0u32),
        decreases n - i,
    {
        v.push(0);
        i = i + 1;
        assert(v@ =~= Seq::new(i as nat, |k: int| 0u32));
    }
    v
}

/// Second pass: the block layout and the references placed so far.
pub struct IndexBuilder {
    offsets: Vec<u32>,
    positions: Vec<u32>,
    labels: Vec<u8>,
    blocks: Vec<i16>,
    n: usize,
}

impl IndexBuilder {
    /// Block offsets of the clusters, with the total block count last.
    pub closed spec fn offsets(&self) -> Seq<u32> {
        self.offsets@
    }

    /// What has been placed so far.
    pub closed spec fn placement(&self) -> Placement {
        Placement { labels: self.labels@, blocks: self.blocks@, positions: self.positions@ }
    }

    /// Number of references the index will report.
    pub closed spec fn n(&self) -> nat {
        self.n as nat
    }

    /// Total number of blocks.
    pub open spec fn total_blocks(&self) -> nat {
        self.offsets()[CLUSTERS as int] as nat
    }

    /// The layout is consistent: offsets rise and stay below the total, and
    /// labels and blocks have room for every block.
    pub open spec fn wf(&self) -> bool {
        &&& self.offsets().len() == CLUSTERS + 1
        &&& forall|c: int|
            0 <= c < CLUSTERS ==> #[trigger] self.offsets()[c] <= self.offsets()[c + 1]
        &&& self.placement().positions.len() == CLUSTERS
        &&& self.placement().labels.len() == 8 * self.total_blocks()
        &&& self.placement().blocks.len() == 112 * self.total_blocks()
        &&& 1 <= self.n() <= u32::MAX
        &&& self.total_blocks() >= 1
    }

    /// The next reference of cluster `cluster` lands inside the blocks.
    pub open spec fn fits(&self, cluster: int) -> bool {
        self.offsets()[cluster] + self.placement().positions[cluster] / 8 < self.total_blocks()
    }

    /// Lays out the blocks for the counted references; fails when there are
    /// none.
    pub fn from_counts(counts: &ClusterCounts) -> (r: Result<IndexBuilder, AppError>)
        requires
            counts.wf(),
            counts.n() <= u32::MAX,
            14 * counts.n() + 458752 <= usize::MAX,
        ensures
            match r {
                Ok(b) => {
                    &&& counts.n() >= 1
                    &&& b.wf()
                    &&& b.offsets() == layout_offsets(counts.counts())
                    &&& b.n() == counts.n()
                    &&& b.placement() == placed_after(Seq::empty(), b.offsets(), 0)
                },
                Err(e) => counts.n() == 0 && is_empty_dataset_error(e),
            },
    {
        if counts.n == 0 {
            return Err(
                AppError::Startup(String::from_str("Reference dataset did not yield any vectors")),
            );
        }
        proof {
            lemma_layout_fits(counts.counts@, counts.n as nat);
        }
        let mut offsets: Vec<u32> = Vec::with_capacity(CLUSTERS + 1);
        offsets.push(0);
        let mut c: usize = 0;
        while c < CLUSTERS
            invariant
                c <= CLUSTERS,
                counts.wf(),
                counts.counts@.len() == CLUSTERS,
                layout_offset(counts.counts@, CLUSTERS as int) < u32::MAX,
                forall|k: int|
                    0 <= k <= CLUSTERS ==> #[trigger] layout_offset(counts.counts@, k)
                        <= layout_offset(counts.counts@, CLUSTERS as int),
                offsets@.len() == c + 1,
                forall|k: int|
                    0 <= k <= c ==> #[trigger] offsets@[k] == layout_offset(counts.counts@, k),
            decreases CLUSTERS - c,
        {
            let blocks = ((counts.counts[c] as u64) + (BLOCK_SIZE as u64 - 1)) / BLOCK_SIZE as u64;
            assert(layout_offset(counts.counts@, c + 1) == offsets@[c as int] + blocks);
            let next = offsets[c] + blocks as u32;
            offsets.push(next);
            c = c + 1;
        }
        assert(offsets@ =~= layout_offsets(counts.counts@));
        let total = offsets[CLUSTERS] as usize;
        let labels = zeros_u8(8 * total);
        let blocks = zeros_i16(112 * total);
        let positions = zeros_u32(CLUSTERS);
        let b = IndexBuilder { offsets, positions, labels, blocks, n: counts.n as usize };
        proof {
            assert forall|k: int| 0 <= k < CLUSTERS implies #[trigger] b.offsets()[k]
                <= b.offsets()[k + 1] by {
                lemma_layout_monotone(counts.counts@, k, k + 1);
            }
        }
        Ok(b)
    }

    /// Whether the next reference of cluster `cluster` lands inside the
    /// blocks.
    pub fn can_place(&self, cluster: usize) -> (b: bool)
        requires
            self.wf(),
            cluster < CLUSTERS,
        ensures
            b == self.fits(cluster as int),
    {
        let start = self.offsets[cluster] as u64;
        let within = (self.positions[cluster] / 8) as u64;
        let total = self.offsets[CLUSTERS] as u64;
        start + within < total
    }

    /// Places `entry` in the next free slot of its cluster. A label other
    /// than "fraud" or "legit" is an error, and then nothing changes.
    pub fn place(&mut self, entry: &ReferenceEntry) -> (r: Result<(), AppError>)
        requires
            old(self).wf(),
            entry.bins_ok(),
            old(self).fits(cluster_of(entry.bins@) as int),
        ensures
            final(self).wf(),
            final(self).offsets() == old(self).offsets(),
            final(self).n() == old(self).n(),
            match r {
                Ok(()) => label_code(entry.label@) is Some && final(self).placement() == place_spec(
                    old(self).offsets(),
                    old(self).placement(),
                    *entry,
                ),
                Err(e) => label_code(entry.label@) is None && is_invalid_label_error(
                    e,
                    entry.label@,
                ) && final(self).placement() == old(self).placement(),
            },
    {
        let bin = cluster_id(&entry.bins);
        let pos = self.positions[bin];
        let block_index = self.offsets[bin] as usize + (pos / 8) as usize;
        let slot = (pos % 8) as usize;
        let code = match label_to_u8(entry.label.as_str()) {
            Ok(code) => code,
            Err(e) => return Err(e),
        };
        let ghost before = self.placement();
        let ghost target = place_spec(self.offsets@, before, *entry);
        let labels_len = self.labels.len();
        let blocks_len = self.blocks.len();
        assert(block_index * 8 + slot < labels_len);
        assert(block_index * 112 + 111 < blocks_len);
        self.labels.set(block_index * BLOCK_SIZE + slot, code);
        self.write_block_vector(block_index, slot, &entry.vector);
        let next = pos.saturating_add(1);
        self.positions.set(bin, next);
        proof {
            assert(self.labels@ =~= target.labels);
            assert(self.blocks@ =~= target.blocks);
            assert(self.positions@ =~= target.positions);
        }
        Ok(())
    }

    fn write_block_vector(&mut self, block: usize, slot: usize, vector: &[i16; 14])
        requires
            block * 112 + 112 <= old(self).blocks@.len(),
            slot < 8,
        ensures
            final(self).offsets == old(self).offsets,
            final(self).positions == old(self).positions,
            final(self).labels == old(self).labels,
            final(self).n == old(self).n,
            final(self).blocks@ == Seq::new(
                old(self).blocks@.len(),
                |k: int|
                    if block * 112 <= k < block * 112 + 112 && (k - block * 112) % 8 == slot {
                        vector@[(k - block * 112) / 8]
                    } else {
                        old(self).blocks@[k]
                    },
            ),
    {
        let ghost old_blocks = self.blocks@;
        let len = self.blocks.len();
        let mut dim: usize = 0;
        while dim < DIMS
            invariant
                dim <= DIMS,
                len == old_blocks.len(),
                block * 112 + 112 <= old_blocks.len(),
                slot < 8,
                self.offsets == old(self).offsets,
                self.positions == old(self).positions,
                self.labels == old(self).labels,
                self.n == old(self).n,
                old_blocks == old(self).blocks@,
                self.blocks@ == Seq::new(
                    old_blocks.len(),
                    |k: int|
                        if block * 112 <= k < block * 112 + 8 * dim && (k - block * 112) % 8 == slot {
                            vector@[(k - block * 112) / 8]
                        } else {
                            old_blocks[k]
                        },
                ),
            decreases DIMS - dim,
        {
            let at = block * 112 + dim * 8 + slot;
            self.blocks.set(at, vector[dim]);
            dim = dim + 1;
            proof {
                let expect = Seq::new(
                    old_blocks.len(),
                    |k: int|
                        if block * 112 <= k < block * 112 + 8 * dim && (k - block * 112) % 8
                            == slot {
                            vector@[(k - block * 112) / 8]
                        } else {
                            old_blocks[k]
                        },
                );
                assert forall|k: int| 0 <= k < old_blocks.len() implies #[trigger] self.blocks@[k]
                    == expect[k] by {
                    if k == at {
                        assert((k - block * 112) / 8 == dim - 1);
                        assert((k - block * 112) % 8 == slot);
                    } else if block * 112 + 8 * (dim - 1) <= k < block * 112 + 8 * dim {
                        assert((k - block * 112) % 8 != slot);
                    }
                }
                assert(self.blocks@ =~= expect);
            }
        }
    }

    /// The finished index, with centroids `centroids`.
    pub fn finish(self, centroids: Vec<u32>) -> (index: LocalReferenceIndex)
        requires
            self.wf(),
            centroids@.len() == DIMS * CLUSTERS,
        ensures
            index@ == (IndexModel {
                centroids: centroids@,
                offsets: self.offsets(),
                labels: self.placement().labels,
                blocks: self.placement().blocks,
                clusters: CLUSTERS as nat,
                n: self.n(),
            }),
            index@.queryable(),
            index@.storable(),
    {
        let index = LocalReferenceIndex {
            centroids,
            offsets: self.offsets,
            labels: self.labels,
            blocks: self.blocks,
            clusters: CLUSTERS,
            n: self.n,
        };
        proof {
            assert forall|c: int| 0 <= c < CLUSTERS && #[trigger] index@.offsets[c]
                < index@.offsets[c + 1] implies index@.offsets[c + 1] <= index@.total_blocks() by {
                lemma_offsets_rise(self.offsets@, c + 1, CLUSTERS as int);
            }
        }
        index
    }
}

proof fn lemma_offsets_rise(offsets: Seq<u32>, a: int, b: int)
    requires
        0 <= a <= b <= CLUSTERS,
        offsets.len() == CLUSTERS + 1,
        forall|c: int| 0 <= c < CLUSTERS ==> #[trigger] offsets[c] <= offsets[c + 1],
    ensures
        offsets[a] <= offsets[b],
    decreases b - a,
{
    if a < b {
        lemma_offsets_rise(offsets, a, b - 1);
        assert(offsets[b - 1] <= offsets[b]);
    }
}

/// Counts only grow as entries are counted, and no count exceeds the number
/// of entries counted.
proof fn lemma_counts_after_props(entries: Seq<ReferenceEntry>, a: int, b: int)
    requires
        0 <= a <= b <= entries.len(),
        entries.len() <= u32::MAX,
        forall|i: int| 0 <= i < entries.len() ==> (#[trigger] entries[i]).bins_ok(),
    ensures
        counts_after(entries, b).len() == CLUSTERS,
        forall|c: int| 0 <= c < CLUSTERS ==> #[trigger] counts_after(entries, b)[c] <= b,
        forall|c: int|
            0 <= c < CLUSTERS ==> #[trigger] counts_after(entries, a)[c] <= counts_after(
                entries,
                b,
            )[c],
    decreases b,
{
    if b > 0 {
        if a < b {
            lemma_counts_after_props(entries, a, b - 1);
        } else {
            lemma_counts_after_props(entries, a - 1, b - 1);
        }
        let e = entries[b - 1];
        assert(e.bins_ok());
        assert(e.bins@[0] < 8 && e.bins@[1] < 8 && e.bins@[2] < 8 && e.bins@[3] < 8);
    }
}

/// Cluster positions of the second pass equal the counts of the first pass
/// over the same entries.
proof fn lemma_positions_are_counts(entries: Seq<ReferenceEntry>, offsets: Seq<u32>, i: int)
    requires
        0 <= i <= entries.len(),
        entries.len() <= u32::MAX,
        forall|k: int| 0 <= k < entries.len() ==> (#[trigger] entries[k]).bins_ok(),
    ensures
        placed_after(entries, offsets, i).positions == counts_after(entries, i),
    decreases i,
{
    if i > 0 {
        lemma_positions_are_counts(entries, offsets, i - 1);
        lemma_counts_after_props(entries, i - 1, i - 1);
        let e = entries[i - 1];
        assert(e.bins@[0] < 8 && e.bins@[1] < 8 && e.bins@[2] < 8 && e.bins@[3] < 8);
    }
}

proof fn lemma_blocks_cover(p: int, count: int)
    requires
        0 <= p < count,
    ensures
        p / 8 < (count + 7) / 8,
{
    assert(p / 8 < (count + 7) / 8) by (nonlinear_arith)
        requires
            0 <= p < count,
    ;
}

/// The `i`-th entry lands inside the blocks laid out for all entries.
proof fn lemma_place_fits(entries: Seq<ReferenceEntry>, i: int)
    requires
        0 <= i < entries.len(),
        entries.len() <= u32::MAX,
        forall|k: int| 0 <= k < entries.len() ==> (#[trigger] entries[k]).bins_ok(),
    ensures
        ({
            let all = counts_after(entries, entries.len() as int);
            let offsets = layout_offsets(all);
            let c = cluster_of(entries[i].bins@) as int;
            &&& c < CLUSTERS
            &&& offsets[c] + placed_after(entries, offsets, i).positions[c] / 8
                < offsets[CLUSTERS as int]
        }),
{
    let all = counts_after(entries, entries.len() as int);
    let offsets = layout_offsets(all);
    let e = entries[i];
    assert(e.bins_ok());
    assert(e.bins@[0] < 8 && e.bins@[1] < 8 && e.bins@[2] < 8 && e.bins@[3] < 8);
    let c = cluster_of(e.bins@) as int;
    lemma_positions_are_counts(entries, offsets, i);
    lemma_counts_after_props(entries, i, i);
    lemma_counts_after_props(entries, i + 1, entries.len() as int);
    lemma_count_sum_after(entries, entries.len() as int);
    lemma_layout_fits(all, entries.len());
    let p = counts_after(entries, i)[c] as int;
    let count = all[c] as int;
    assert(counts_after(entries, i + 1)[c] == p + 1);
    lemma_blocks_cover(p, count);
    assert(offsets[c] == layout_offset(all, c));
    assert(offsets[c + 1] == layout_offset(all, c + 1));
    assert(layout_offset(all, c + 1) == layout_offset(all, c) + (count + 7) / 8);
}

/// The counts after `i` entries sum to `i`.
proof fn lemma_count_sum_after(entries: Seq<ReferenceEntry>, i: int)
    requires
        0 <= i <= entries.len(),
        entries.len() <= u32::MAX,
        forall|k: int| 0 <= k < entries.len() ==> (#[trigger] entries[k]).bins_ok(),
    ensures
        count_sum(counts_after(entries, i), CLUSTERS as int) == i,
    decreases i,
{
    if i == 0 {
        lemma_count_sum_zero(counts_after(entries, 0), CLUSTERS as int);
    } else {
        lemma_count_sum_after(entries, i - 1);
        lemma_counts_after_props(entries, i - 1, i - 1);
        let e = entries[i - 1];
        assert(e.bins_ok());
        assert(e.bins@[0] < 8 && e.bins@[1] < 8 && e.bins@[2] < 8 && e.bins@[3] < 8);
        let c = cluster_of(e.bins@) as int;
        lemma_count_sum_update(counts_after(entries, i - 1), c, CLUSTERS as int);
    }
}

impl LocalReferenceIndex {
    /// Builds the index of `entries`: the first pass counts each cluster's
    /// references, the second places every reference in the next free slot
    /// of its cluster. A dataset without entries, or an entry whose label is
    /// neither "fraud" nor "legit", is an error. (When entries are streamed
    /// from a JSON reader, a reader that wraps the callback's error reports
    /// the label error in its own terms, with the position in the input.)
    #[verifier::rlimit(50)]
    pub fn build_from_references(entries: &[ReferenceEntry], centroids: Vec<u32>) -> (r: Result<
        LocalReferenceIndex,
        AppError,
    >)
        requires
            forall|i: int| 0 <= i < entries@.len() ==> (#[trigger] entries@[i]).bins_ok(),
            entries@.len() <= u32::MAX,
            14 * entries@.len() + 458752 <= usize::MAX,
            centroids@.len() == DIMS * CLUSTERS,
        ensures
            match r {
                Ok(index) => {
                    &&& entries@.len() >= 1
                    &&& labels_ok_upto(entries@, entries@.len() as int)
                    &&& index@ == built_model(entries@, centroids@)
                    &&& index@.queryable()
                    &&& index@.storable()
                },
                Err(e) => {
                    ||| entries@.len() == 0 && is_empty_dataset_error(e)
                    ||| entries@.len() >= 1 && exists|i: int|
                        0 <= i < entries@.len() && labels_ok_upto(entries@, i) && label_code(
                            #[trigger] entries@[i].label@,
                        ) is None && is_invalid_label_error(e, entries@[i].label@)
                },
            },
    {
        let counts = ClusterCounts::count_entries(entries);
        let mut builder = match IndexBuilder::from_counts(&counts) {
            Ok(b) => b,
            Err(e) => return Err(e),
        };
        let ghost all = counts_after(entries@, entries@.len() as int);
        let ghost offsets = builder.offsets();
        proof {
            lemma_count_sum_after(entries@, entries@.len() as int);
            lemma_layout_fits(all, entries@.len());
            assert(builder.placement() == placed_after(entries@, offsets, 0));
        }
        let mut i: usize = 0;
        while i < entries.len()
            invariant
                i <= entries@.len(),
                forall|k: int| 0 <= k < entries@.len() ==> (#[trigger] entries@[k]).bins_ok(),
                entries@.len() <= u32::MAX,
                all == counts_after(entries@, entries@.len() as int),
                offsets == layout_offsets(all),
                all.len() == CLUSTERS,
                forall|c: int|
                    0 <= c <= CLUSTERS ==> #[trigger] layout_offset(all, c) <= layout_offset(
                        all,
                        CLUSTERS as int,
                    ),
                layout_offset(all, CLUSTERS as int) < u32::MAX,
                builder.wf(),
                builder.offsets() == offsets,
                builder.n() == entries@.len(),
                builder.placement() == placed_after(entries@, offsets, i as int),
                labels_ok_upto(entries@, i as int),
            decreases entries@.len() - i,
        {
            proof {
                lemma_place_fits(entries@, i as int);
            }
            match builder.place(&entries[i]) {
                Ok(()) => {},
                Err(e) => {
                    proof {
                        assert(labels_ok_upto(entries@, i as int));
                    }
                    return Err(e);
                },
            }
            i = i + 1;
            proof {
                assert forall|j: int| 0 <= j < i implies #[trigger] label_code(
                    entries@[j].label@,
                ) is Some by {
                    if j < i - 1 {
                        assert(labels_ok_upto(entries@, i - 1));
                    }
                }
            }
        }
        Ok(builder.finish(centroids))
    }
}

/// The artifact of the index built from `entries` with centroids
/// `centroids`; failures are those of `build_from_references`.
pub fn write_compact_index(entries: &[ReferenceEntry], centroids: Vec<u32>) -> (r: Result<
    Vec<u8>,
    AppError,
>)
    requires
        forall|i: int| 0 <= i < entries@.len() ==> (#[trigger] entries@[i]).bins_ok(),
        entries@.len() <= u32::MAX,
        14 * entries@.len() + 458752 <= usize::MAX,
        centroids@.len() == DIMS * CLUSTERS,
    ensures
        match r {
            Ok(bytes) => {
                &&& entries@.len() >= 1
                &&& labels_ok_upto(entries@, entries@.len() as int)
                &&& bytes@ == compact_bytes(built_model(entries@, centroids@))
                &&& built_model(entries@, centroids@).storable()
                &&& built_model(entries@, centroids@).n == entries@.len()
                &&& read_artifact(bytes@) == ArtifactRead::Parsed(built_model(entries@, centroids@))
            },
            Err(e) => {
                ||| entries@.len() == 0 && is_empty_dataset_error(e)
                ||| entries@.len() >= 1 && exists|i: int|
                    0 <= i < entries@.len() && labels_ok_upto(entries@, i) && label_code(
                        #[trigger] entries@[i].label@,
                    ) is None && is_invalid_label_error(e, entries@[i].label@)
            },
        },
{
    match LocalReferenceIndex::build_from_references(entries, centroids) {
        Ok(index) => {
            let bytes = index.to_compact_bytes();
            proof {
                lemma_artifact_roundtrip(index@);
            }
            Ok(bytes)
        },
        Err(e) => Err(e),
    }
}

/// The placement keeps the lengths of labels, blocks and positions.
proof fn lemma_placed_lengths(entries: Seq<ReferenceEntry>, i: int)
    requires
        0 <= i <= entries.len(),
        entries.len() <= u32::MAX,
        forall|k: int| 0 <= k < entries.len() ==> (#[trigger] entries[k]).bins_ok(),
    ensures
        ({
            let offsets = layout_offsets(counts_after(entries, entries.len() as int));
            &&& placed_after(entries, offsets, i).labels.len() == 8 * offsets[CLUSTERS as int]
            &&& placed_after(entries, offsets, i).blocks.len() == 112 * offsets[CLUSTERS as int]
            &&& placed_after(entries, offsets, i).positions.len() == CLUSTERS
        }),
    decreases i,
{
    if i > 0 {
        lemma_placed_lengths(entries, i - 1);
        lemma_place_fits(entries, i - 1);
    }
}

/// The index built from entries with known labels can be stored: written to
/// an artifact, it reads back unchanged.
pub proof fn lemma_built_artifact_reads_back(entries: Seq<ReferenceEntry>, centroids: Seq<u32>)
    requires
        forall|i: int| 0 <= i < entries.len() ==> (#[trigger] entries[i]).bins_ok(),
        1 <= entries.len() <= u32::MAX,
        centroids.len() == DIMS * CLUSTERS,
    ensures
        built_model(entries, centroids).storable(),
        read_artifact(compact_bytes(built_model(entries, centroids))) == ArtifactRead::Parsed(
            built_model(entries, centroids),
        ),
{
    let all = counts_after(entries, entries.len() as int);
    lemma_counts_after_props(entries, 0, entries.len() as int);
    lemma_count_sum_after(entries, entries.len() as int);
    lemma_layout_fits(all, entries.len());
    lemma_placed_lengths(entries, entries.len() as int);
    lemma_artifact_roundtrip(built_model(entries, centroids));
}

/// The `r`-th reference of each cluster holds its own slot: for distinct
/// ranks within a cluster, or distinct clusters, the slots differ.
proof fn lemma_distinct_slots(all: Seq<u32>, c1: int, r1: int, c2: int, r2: int)
    requires
        all.len() == CLUSTERS,
        0 <= c1 < CLUSTERS,
        0 <= c2 < CLUSTERS,
        0 <= r1 < all[c1],
        0 <= r2 < all[c2],
        c1 != c2 || r1 != r2,
    ensures
        8 * layout_offset(all, c1) + r1 != 8 * layout_offset(all, c2) + r2,
{
    if c1 < c2 {
        lemma_layout_monotone(all, c1 + 1, c2);
        assert(r1 < 8 * ((all[c1] + 7) / 8)) by (nonlinear_arith)
            requires
                0 <= r1 < all[c1],
        ;
    } else if c2 < c1 {
        lemma_layout_monotone(all, c2 + 1, c1);
        assert(r2 < 8 * ((all[c2] + 7) / 8)) by (nonlinear_arith)
            requires
                0 <= r2 < all[c2],
        ;
    }
}

/// What the build stores for entry `i` is there: its label code and its
/// vector in slot `r % 8` of block `offsets[c] + r / 8`, where `c` is its
/// cluster and `r` the number of earlier entries of that cluster.
pub open spec fn stored_at(
    entries: Seq<ReferenceEntry>,
    offsets: Seq<u32>,
    placed: Placement,
    i: int,
) -> bool {
    let c = cluster_of(entries[i].bins@) as int;
    let r = counts_after(entries, i)[c] as int;
    let b = offsets[c] + r / 8;
    let s = r % 8;
    &&& placed.labels[b * 8 + s] == label_code(entries[i].label@).unwrap()
    &&& forall|d: int| 0 <= d < DIMS ==> #[trigger] placed.blocks[b * 112 + d * 8 + s]
        == entries[i].vector@[d]
}

/// Facts about entry `i` and its slot: its cluster, its rank, and that the
/// slot lies inside the laid-out blocks.
proof fn lemma_slot_facts(entries: Seq<ReferenceEntry>, i: int)
    requires
        0 <= i < entries.len(),
        entries.len() <= u32::MAX,
        forall|k: int| 0 <= k < entries.len() ==> (#[trigger] entries[k]).bins_ok(),
    ensures
        ({
            let n = entries.len() as int;
            let all = counts_after(entries, n);
            let offsets = layout_offsets(all);
            let c = cluster_of(entries[i].bins@) as int;
            let r = counts_after(entries, i)[c] as int;
            &&& 0 <= c < CLUSTERS
            &&& all.len() == CLUSTERS
            &&& 0 <= r < all[c]
            &&& counts_after(entries, i + 1)[c] == r + 1
            &&& offsets[c] == layout_offset(all, c)
            &&& offsets[c] + r / 8 < offsets[CLUSTERS as int]
            &&& (offsets[c] + r / 8) * 8 + r % 8 == 8 * layout_offset(all, c) + r
            &&& placed_after(entries, offsets, i).positions[c] == r
            &&& placed_after(entries, offsets, i).labels.len() == 8 * offsets[CLUSTERS as int]
            &&& placed_after(entries, offsets, i).blocks.len() == 112 * offsets[CLUSTERS as int]
            &&& placed_after(entries, offsets, i + 1) == place_spec(
                offsets,
                placed_after(entries, offsets, i),
                entries[i],
            )
        }),
{
    let n = entries.len() as int;
    let all = counts_after(entries, n);
    let offsets = layout_offsets(all);
    lemma_counts_after_props(entries, 0, n);
    lemma_count_sum_after(entries, n);
    lemma_layout_fits(all, entries.len());
    let ei = entries[i];
    assert(ei.bins_ok());
    assert(ei.bins@[0] < 8 && ei.bins@[1] < 8 && ei.bins@[2] < 8 && ei.bins@[3] < 8);
    let c = cluster_of(ei.bins@) as int;
    lemma_counts_after_props(entries, i, i);
    lemma_counts_after_props(entries, i + 1, n);
    lemma_place_fits(entries, i);
    lemma_positions_are_counts(entries, offsets, i);
    lemma_placed_lengths(entries, i);
    let r = counts_after(entries, i)[c] as int;
    assert(counts_after(entries, i + 1)[c] == r + 1);
    assert(0 <= r < all[c]);
    assert(offsets[c] == layout_offset(all, c));
    assert(r == 8 * (r / 8) + r % 8);
    assert((offsets[c] + r / 8) * 8 + r % 8 == 8 * layout_offset(all, c) + r);
    assert(placed_after(entries, offsets, i).positions[c] == r);
    assert(placed_after(entries, offsets, i + 1) == place_spec(
        offsets,
        placed_after(entries, offsets, i),
        entries[i],
    ));
}

/// Placing entry `i` stores it in its slot.
proof fn lemma_stored_when_placed(entries: Seq<ReferenceEntry>, i: int)
    requires
        0 <= i < entries.len(),
        entries.len() <= u32::MAX,
        forall|k: int| 0 <= k < entries.len() ==> (#[trigger] entries[k]).bins_ok(),
    ensures
        ({
            let offsets = layout_offsets(counts_after(entries, entries.len() as int));
            stored_at(entries, offsets, placed_after(entries, offsets, i + 1), i)
        }),
{
    let offsets = layout_offsets(counts_after(entries, entries.len() as int));
    lemma_slot_facts(entries, i);
    let ei = entries[i];
    let c = cluster_of(ei.bins@) as int;
    let r = counts_after(entries, i)[c] as int;
    let b = offsets[c] + r / 8;
    let s = r % 8;
    let after = placed_after(entries, offsets, i + 1);
    assert(after.labels[b * 8 + s] == label_code(ei.label@).unwrap());
    assert forall|d: int| 0 <= d < DIMS implies #[trigger] after.blocks[b * 112 + d * 8 + s]
        == ei.vector@[d] by {
        let k = b * 112 + d * 8 + s;
        assert((k - b * 112) / 8 == d);
        assert((k - b * 112) % 8 == s);
    }
}

/// Placing a later entry `j` leaves entry `i`'s slot alone.
proof fn lemma_stored_step(entries: Seq<ReferenceEntry>, i: int, j: int)
    requires
        0 <= i < j < entries.len(),
        entries.len() <= u32::MAX,
        forall|k: int| 0 <= k < entries.len() ==> (#[trigger] entries[k]).bins_ok(),
        ({
            let offsets = layout_offsets(counts_after(entries, entries.len() as int));
            stored_at(entries, offsets, placed_after(entries, offsets, j), i)
        }),
    ensures
        ({
            let offsets = layout_offsets(counts_after(entries, entries.len() as int));
            stored_at(entries, offsets, placed_after(entries, offsets, j + 1), i)
        }),
{
    let n = entries.len() as int;
    let all = counts_after(entries, n);
    let offsets = layout_offsets(all);
    lemma_slot_facts(entries, i);
    lemma_slot_facts(entries, j);
    let c = cluster_of(entries[i].bins@) as int;
    let r = counts_after(entries, i)[c] as int;
    let c2 = cluster_of(entries[j].bins@) as int;
    let r2 = counts_after(entries, j)[c2] as int;
    lemma_counts_after_props(entries, i + 1, j);
    assert(c2 != c || r2 != r);
    lemma_distinct_slots(all, c, r, c2, r2);
    let b = offsets[c] + r / 8;
    let s = r % 8;
    let b2 = offsets[c2] + r2 / 8;
    let s2 = r2 % 8;
    let before = placed_after(entries, offsets, j);
    let after = placed_after(entries, offsets, j + 1);
    assert(b * 8 + s != b2 * 8 + s2);
    assert(after.labels[b * 8 + s] == before.labels[b * 8 + s]);
    assert forall|d: int| 0 <= d < DIMS implies #[trigger] after.blocks[b * 112 + d * 8 + s]
        == entries[i].vector@[d] by {
        let k = b * 112 + d * 8 + s;
        assert(before.blocks[k] == entries[i].vector@[d]);
        if b2 * 112 <= k < b2 * 112 + 112 {
            assert(b == b2) by (nonlinear_arith)
                requires
                    b2 * 112 <= b * 112 + d * 8 + s < b2 * 112 + 112,
                    0 <= d < 14,
                    0 <= s < 8,
            ;
            assert((k - b2 * 112) % 8 == s);
        }
    }
}

proof fn lemma_stored_survives(entries: Seq<ReferenceEntry>, i: int, j: int)
    requires
        0 <= i < j <= entries.len(),
        entries.len() <= u32::MAX,
        forall|k: int| 0 <= k < entries.len() ==> (#[trigger] entries[k]).bins_ok(),
    ensures
        ({
            let offsets = layout_offsets(counts_after(entries, entries.len() as int));
            stored_at(entries, offsets, placed_after(entries, offsets, j), i)
        }),
    decreases j,
{
    if j == i + 1 {
        lemma_stored_when_placed(entries, i);
    } else {
        lemma_stored_survives(entries, i, j - 1);
        lemma_stored_step(entries, i, j - 1);
    }
}

/// Building stores every reference: entry `i`'s label code and vector sit
/// in slot `r % 8` of block `offsets[c] + r / 8` of the built index, where
/// `c` is its cluster and `r` the number of earlier entries of `c`.
pub proof fn lemma_references_stored(entries: Seq<ReferenceEntry>, centroids: Seq<u32>, i: int)
    requires
        forall|k: int| 0 <= k < entries.len() ==> (#[trigger] entries[k]).bins_ok(),
        entries.len() <= u32::MAX,
        0 <= i < entries.len(),
    ensures
        ({
            let m = built_model(entries, centroids);
            let c = cluster_of(entries[i].bins@) as int;
            let r = counts_after(entries, i)[c] as int;
            let b = m.offsets[c] + r / 8;
            let s = r % 8;
            &&& r < counts_after(entries, entries.len() as int)[c]
            &&& b < m.offsets[c + 1]
            &&& m.labels[b * 8 + s] == label_code(entries[i].label@).unwrap()
            &&& forall|d: int| 0 <= d < DIMS ==> #[trigger] m.blocks[b * 112 + d * 8 + s]
                == entries[i].vector@[d]
        }),
{
    lemma_stored_survives(entries, i, entries.len() as int);
    lemma_slot_facts(entries, i);
    let all = counts_after(entries, entries.len() as int);
    let c = cluster_of(entries[i].bins@) as int;
    let r = counts_after(entries, i)[c] as int;
    lemma_blocks_cover(r, all[c] as int);
    assert(layout_offset(all, c + 1) == layout_offset(all, c) + (all[c] + 7) / 8);
    lemma_counts_after_props(entries, 0, entries.len() as int);
    lemma_count_sum_after(entries, entries.len() as int);
    lemma_layout_fits(all, entries.len());
}

/// Number of the first `i` entries that fall in cluster `c`.
pub open spec fn references_in(entries: Seq<ReferenceEntry>, c: int, i: int) -> nat
    decreases i,
{
    if i <= 0 {
        0
    } else {
        references_in(entries, c, i - 1) + if cluster_of(entries[i - 1].bins@) == c {
            1nat
        } else {
            0nat
        }
    }
}

proof fn lemma_counts_are_references(entries: Seq<ReferenceEntry>, i: int)
    requires
        0 <= i <= entries.len(),
        entries.len() <= u32::MAX,
        forall|k: int| 0 <= k < entries.len() ==> (#[trigger] entries[k]).bins_ok(),
    ensures
        forall|c: int|
            0 <= c < CLUSTERS ==> #[trigger] counts_after(entries, i)[c] == references_in(
                entries,
                c,
                i,
            ),
    decreases i,
{
    if i > 0 {
        lemma_counts_are_references(entries, i - 1);
        lemma_counts_after_props(entries, i - 1, i - 1);
        let e = entries[i - 1];
        assert(e.bins_ok());
        assert(e.bins@[0] < 8 && e.bins@[1] < 8 && e.bins@[2] < 8 && e.bins@[3] < 8);
    }
}

/// The layout of a built index: 4096 clusters, one offset more, starting at
/// block 0; each cluster takes `(m + 7) / 8` consecutive blocks for its `m`
/// references; eight labels and 112 values per block; `DIMS * CLUSTERS`
/// centroids; and as many references as entries.
pub proof fn lemma_built_layout(entries: Seq<ReferenceEntry>, centroids: Seq<u32>)
    requires
        forall|k: int| 0 <= k < entries.len() ==> (#[trigger] entries[k]).bins_ok(),
        entries.len() <= u32::MAX,
        centroids.len() == DIMS * CLUSTERS,
    ensures
        ({
            let m = built_model(entries, centroids);
            &&& m.clusters == CLUSTERS
            &&& m.n == entries.len()
            &&& m.offsets.len() == CLUSTERS + 1
            &&& m.offsets[0] == 0
            &&& forall|c: int|
                0 <= c < CLUSTERS ==> #[trigger] m.offsets[c + 1] - m.offsets[c] == (
                references_in(entries, c, entries.len() as int) + 7) / 8
            &&& m.labels.len() == 8 * m.offsets[CLUSTERS as int]
            &&& m.blocks.len() == 112 * m.offsets[CLUSTERS as int]
            &&& m.centroids.len() == DIMS * CLUSTERS
        }),
{
    let n = entries.len() as int;
    let all = counts_after(entries, n);
    lemma_counts_after_props(entries, 0, n);
    lemma_count_sum_after(entries, n);
    lemma_layout_fits(all, entries.len());
    lemma_counts_are_references(entries, n);
    lemma_placed_lengths(entries, n);
    let m = built_model(entries, centroids);
    assert forall|c: int| 0 <= c < CLUSTERS implies #[trigger] m.offsets[c + 1] - m.offsets[c]
        == (references_in(entries, c, n) + 7) / 8 by {
        assert(layout_offset(all, c + 1) == layout_offset(all, c) + (all[c] + 7) / 8);
    }
}

} // verus!
