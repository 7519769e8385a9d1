//! The index artifact: a little-endian binary layout.
//!
//! ```text
//! "RIVF" | version u32 | n u32 | clusters u32 | dims u32
//! centroids  u32 x DIMS * clusters   (single-precision bit patterns)
//! offsets    u32 x clusters + 1
//! labels     u8  x BLOCK_SIZE * total_blocks
//! blocks     i16 x BLOCK_SIZE * DIMS * total_blocks
//! ```
use vstd::prelude::*;
use vstd::slice::*;
use crate::codec::{
    i16s_le, i16s_at, le_i16_at, le_u32_at, lemma_i16s_roundtrip, lemma_u32s_roundtrip, read_i16s, read_u32,
    read_u32s, u32s_at, u32s_le, write_i16s, write_u32s,
};
use crate::error::{AppError, is_truncation, truncated_input};
use crate::text::{concat2, decimal_string, decimal_text};
use super::{BLOCK_SIZE, CLUSTERS, DIMS, IndexModel, LocalReferenceIndex, VERSION};

verus! {

/// Bytes before the centroids.
pub const HEADER_LEN: usize = 20;

/// Byte position of the offsets.
pub const OFFSETS_POS: usize = 229396;

/// Byte position of the labels.
pub const LABELS_POS: usize = 245784;

/// The four bytes that open an artifact, "RIVF".
pub open spec fn magic() -> Seq<u8> {
    seq![0x52u8, 0x49u8, 0x56u8, 0x46u8]
}

/// The artifact that stores `m`.
pub open spec fn compact_bytes(m: IndexModel) -> Seq<u8> {
    magic() + u32s_le(seq![VERSION, m.n as u32, m.clusters as u32, DIMS as u32]) + u32s_le(
        m.centroids,
    ) + u32s_le(m.offsets) + m.labels + i16s_le(m.blocks)
}

/// What reading an artifact yields.
pub enum ArtifactRead {
    Parsed(IndexModel),
    Truncated,
    BadMagic,
    BadVersion(u32),
    BadShape,
    Empty,
}

/// The reading of the artifact `b`: the header is checked field by field,
/// then the arrays are read in order; an input that ends before an array is
/// complete is truncated. Bytes after the last array are ignored.
pub open spec fn read_artifact(b: Seq<u8>) -> ArtifactRead {
    if b.len() < 4 {
        ArtifactRead::Truncated
    } else if b.subrange(0, 4) != magic() {
        ArtifactRead::BadMagic
    } else if b.len() < 8 {
        ArtifactRead::Truncated
    } else if le_u32_at(b, 4) != VERSION {
        ArtifactRead::BadVersion(le_u32_at(b, 4))
    } else if b.len() < HEADER_LEN {
        ArtifactRead::Truncated
    } else if le_u32_at(b, 16) != DIMS || le_u32_at(b, 12) != CLUSTERS {
        ArtifactRead::BadShape
    } else if b.len() < LABELS_POS {
        ArtifactRead::Truncated
    } else {
        let offsets = u32s_at(b, OFFSETS_POS as int, (CLUSTERS + 1) as nat);
        let total = offsets[CLUSTERS as int] as nat;
        // a label byte and 2 * DIMS block bytes for each of the 8 slots of a block
        let blocks_pos = LABELS_POS + 8 * total;
        if b.len() < blocks_pos + 224 * total {
            ArtifactRead::Truncated
        } else if le_u32_at(b, 8) == 0 || total == 0 {
            ArtifactRead::Empty
        } else {
            ArtifactRead::Parsed(
                IndexModel {
                    centroids: u32s_at(b, HEADER_LEN as int, (DIMS * CLUSTERS) as nat),
                    offsets,
                    labels: b.subrange(LABELS_POS as int, blocks_pos),
                    blocks: i16s_at(b, blocks_pos, 112 * total),
                    clusters: CLUSTERS as nat,
                    n: le_u32_at(b, 8) as nat,
                },
            )
        }
    }
}

/// `e` is the error reported for the failed reading `r`.
pub open spec fn artifact_error(r: ArtifactRead, e: AppError) -> bool {
    match r {
        ArtifactRead::Parsed(_) => false,
        ArtifactRead::Truncated => is_truncation(e),
        ArtifactRead::BadMagic => e matches AppError::Startup(m) && m@
            == "Invalid index artifact header"@,
        ArtifactRead::BadVersion(v) => e matches AppError::Startup(m) && m@
            == "Unsupported index artifact version "@ + decimal_text(v as nat),
        ArtifactRead::BadShape => e matches AppError::Startup(m) && m@
            == "Index artifact shape mismatch"@,
        ArtifactRead::Empty => e matches AppError::Startup(m) && m@ == "Index artifact is empty"@,
    }
}

proof fn lemma_layout_constants()
    ensures
        OFFSETS_POS == HEADER_LEN + 4 * (DIMS * CLUSTERS),
        LABELS_POS == OFFSETS_POS + 4 * (CLUSTERS + 1),
{
}

impl LocalReferenceIndex {
    /// Reads an index from the bytes of an artifact.
    pub fn from_compact_bytes(bytes: &[u8]) -> (r: Result<LocalReferenceIndex, AppError>)
        ensures
            match r {
                Ok(index) => read_artifact(bytes@) == ArtifactRead::Parsed(index@)
                    && index@.shape_ok(),
                Err(e) => artifact_error(read_artifact(bytes@), e),
            },
    {
        proof {
            lemma_layout_constants();
        }
        if bytes.len() < 4 {
            return Err(truncated_input());
        }
        if bytes[0] != 0x52 || bytes[1] != 0x49 || bytes[2] != 0x56 || bytes[3] != 0x46 {
            proof {
                if bytes@.subrange(0, 4) == magic() {
                    assert(bytes@.subrange(0, 4)[0] == bytes@[0]);
                    assert(bytes@.subrange(0, 4)[1] == bytes@[1]);
                    assert(bytes@.subrange(0, 4)[2] == bytes@[2]);
                    assert(bytes@.subrange(0, 4)[3] == bytes@[3]);
                }
            }
            return Err(AppError::Startup(String::from_str("Invalid index artifact header")));
        }
        assert(bytes@.subrange(0, 4) =~= magic());
        let version = match read_u32(bytes, 4) {
            Ok(v) => v,
            Err(e) => return Err(e),
        };
        if version != VERSION {
            let digits = decimal_string(version as u64);
            return Err(
                AppError::Startup(concat2("Unsupported index artifact version ", digits.as_str())),
            );
        }
        let n = match read_u32(bytes, 8) {
            Ok(v) => v,
            Err(e) => return Err(e),
        };
        let clusters = match read_u32(bytes, 12) {
            Ok(v) => v,
            Err(e) => return Err(e),
        };
        let dims = match read_u32(bytes, 16) {
            Ok(v) => v,
            Err(e) => return Err(e),
        };
        if dims as usize != DIMS || clusters as usize != CLUSTERS {
            return Err(AppError::Startup(String::from_str("Index artifact shape mismatch")));
        }
        let centroids = match read_u32s(bytes, HEADER_LEN, DIMS * CLUSTERS) {
            Ok(v) => v,
            Err(e) => return Err(e),
        };
        let offsets = match read_u32s(bytes, OFFSETS_POS, CLUSTERS + 1) {
            Ok(v) => v,
            Err(e) => return Err(e),
        };
        let total = offsets[CLUSTERS];
        let needed: u64 = LABELS_POS as u64 + 8 * (total as u64) + 224 * (total as u64);
        if (bytes.len() as u64) < needed {
            return Err(truncated_input());
        }
        let total_blocks = total as usize;
        let blocks_pos = LABELS_POS + 8 * total_blocks;
        let labels = slice_to_vec(slice_subrange(bytes, LABELS_POS, blocks_pos));
        let blocks = match read_i16s(bytes, blocks_pos, 112 * total_blocks) {
            Ok(v) => v,
            Err(e) => return Err(e),
        };
        if n == 0 || total == 0 {
            return Err(AppError::Startup(String::from_str("Index artifact is empty")));
        }
        let index = LocalReferenceIndex {
            centroids,
            offsets,
            labels,
            blocks,
            clusters: clusters as usize,
            n: n as usize,
        };
        assert(index@ =~= match read_artifact(bytes@) {
            ArtifactRead::Parsed(m) => m,
            _ => index@,
        });
        Ok(index)
    }

    /// The bytes of the artifact that stores this index.
    pub fn to_compact_bytes(&self) -> (out: Vec<u8>)
        ensures
            out@ == compact_bytes(self@),
    {
        let mut out: Vec<u8> = Vec::new();
        out.push(0x52);
        out.push(0x49);
        out.push(0x56);
        out.push(0x46);
        let ghost start = out@;
        assert(start =~= magic());
        let header: [u32; 4] = [VERSION, self.n as u32, self.clusters as u32, DIMS as u32];
        write_u32s(&mut out, &header);
        assert(header@ =~= seq![VERSION, self@.n as u32, self@.clusters as u32, DIMS as u32]);
        write_u32s(&mut out, self.centroids.as_slice());
        write_u32s(&mut out, self.offsets.as_slice());
        let ghost before_labels = out@;
        let mut i: usize = 0;
        while i < self.labels.len()
            invariant
                i <= self.labels@.len(),
                out@ == before_labels + self.labels@.take(i as int),
            decreases self.labels@.len() - i,
        {
            out.push(self.labels[i]);
            i = i + 1;
            assert(out@ =~= before_labels + self.labels@.take(i as int));
        }
        assert(self.labels@.take(self.labels@.len() as int) =~= self.labels@);
        write_i16s(&mut out, self.blocks.as_slice());
        out
    }
}

/// Reading the artifact of a storable index gives the index back.
pub proof fn lemma_artifact_roundtrip(m: IndexModel)
    requires
        m.storable(),
    ensures
        read_artifact(compact_bytes(m)) == ArtifactRead::Parsed(m),
{
    lemma_layout_constants();
    let head = seq![VERSION, m.n as u32, m.clusters as u32, DIMS as u32];
    let a = magic();
    let h = u32s_le(head);
    let c = u32s_le(m.centroids);
    let o = u32s_le(m.offsets);
    let l = m.labels;
    let k = i16s_le(m.blocks);
    let b = compact_bytes(m);
    let total = m.total_blocks();
    assert(b =~= a + h + c + o + l + k);
    assert(b.len() == LABELS_POS + 8 * total + 224 * total);
    assert(b.subrange(0, 4) =~= a);
    assert(b.subrange(4, 20) =~= h);
    lemma_u32s_roundtrip(b, 4, head);
    assert(u32s_at(b, 4, 4)[0] == le_u32_at(b, 4));
    assert(u32s_at(b, 4, 4)[1] == le_u32_at(b, 8));
    assert(u32s_at(b, 4, 4)[2] == le_u32_at(b, 12));
    assert(u32s_at(b, 4, 4)[3] == le_u32_at(b, 16));
    assert(b.subrange(HEADER_LEN as int, OFFSETS_POS as int) =~= c);
    lemma_u32s_roundtrip(b, HEADER_LEN as int, m.centroids);
    assert(b.subrange(OFFSETS_POS as int, LABELS_POS as int) =~= o);
    lemma_u32s_roundtrip(b, OFFSETS_POS as int, m.offsets);
    let blocks_pos = LABELS_POS + 8 * total;
    assert(b.subrange(LABELS_POS as int, blocks_pos) =~= l);
    assert(b.subrange(blocks_pos, blocks_pos + 224 * total) =~= k);
    lemma_i16s_roundtrip(b, blocks_pos, m.blocks);
}


/// Where each value sits in the artifact of an index: the header fields at
/// bytes 0, 4, 8, 12 and 16, centroid `i` at `20 + 4 * i`, offset `c` at
/// `229396 + 4 * c`, label `k` at `245784 + k`, and block value `k` at
/// `245784 + 8 * T + 2 * k` for `T` blocks; integers little-endian.
pub proof fn lemma_artifact_layout(m: IndexModel)
    requires
        m.shape_ok(),
        m.n <= u32::MAX,
    ensures
        ({
            let b = compact_bytes(m);
            let t = m.offsets[4096] as int;
            &&& b.len() == 245784 + 232 * t
            &&& b[0] == 0x52 && b[1] == 0x49 && b[2] == 0x56 && b[3] == 0x46
            &&& le_u32_at(b, 4) == 1
            &&& le_u32_at(b, 8) == m.n
            &&& le_u32_at(b, 12) == 4096
            &&& le_u32_at(b, 16) == 14
            &&& forall|i: int| 0 <= i < 57344 ==> #[trigger] le_u32_at(b, 20 + 4 * i)
                == m.centroids[i]
            &&& forall|c: int| 0 <= c < 4097 ==> #[trigger] le_u32_at(b, 229396 + 4 * c)
                == m.offsets[c]
            &&& forall|k: int| 0 <= k < 8 * t ==> #[trigger] b[245784 + k] == m.labels[k]
            &&& forall|k: int| 0 <= k < 112 * t ==> #[trigger] le_i16_at(
                b,
                245784 + 8 * t + 2 * k,
            ) == m.blocks[k]
        }),
{
    lemma_layout_constants();
    let head = seq![VERSION, m.n as u32, m.clusters as u32, DIMS as u32];
    let a = magic();
    let h = u32s_le(head);
    let c = u32s_le(m.centroids);
    let o = u32s_le(m.offsets);
    let l = m.labels;
    let k = i16s_le(m.blocks);
    let b = compact_bytes(m);
    let total = m.total_blocks();
    assert(b =~= a + h + c + o + l + k);
    assert(b.len() == LABELS_POS + 8 * total + 224 * total);
    assert(b.subrange(0, 4) =~= a);
    assert(b[0] == b.subrange(0, 4)[0] && b[1] == b.subrange(0, 4)[1] && b[2] == b.subrange(
        0,
        4,
    )[2] && b[3] == b.subrange(0, 4)[3]);
    assert(b.subrange(4, 20) =~= h);
    lemma_u32s_roundtrip(b, 4, head);
    assert(u32s_at(b, 4, 4)[0] == le_u32_at(b, 4));
    assert(u32s_at(b, 4, 4)[1] == le_u32_at(b, 8));
    assert(u32s_at(b, 4, 4)[2] == le_u32_at(b, 12));
    assert(u32s_at(b, 4, 4)[3] == le_u32_at(b, 16));
    assert(b.subrange(HEADER_LEN as int, OFFSETS_POS as int) =~= c);
    lemma_u32s_roundtrip(b, HEADER_LEN as int, m.centroids);
    assert forall|i: int| 0 <= i < 57344 implies #[trigger] le_u32_at(b, 20 + 4 * i)
        == m.centroids[i] by {
        assert(u32s_at(b, HEADER_LEN as int, m.centroids.len())[i] == m.centroids[i]);
    }
    assert(b.subrange(OFFSETS_POS as int, LABELS_POS as int) =~= o);
    lemma_u32s_roundtrip(b, OFFSETS_POS as int, m.offsets);
    assert forall|ci: int| 0 <= ci < 4097 implies #[trigger] le_u32_at(b, 229396 + 4 * ci)
        == m.offsets[ci] by {
        assert(u32s_at(b, OFFSETS_POS as int, m.offsets.len())[ci] == m.offsets[ci]);
    }
    let blocks_pos = LABELS_POS + 8 * total;
    assert(b.subrange(LABELS_POS as int, blocks_pos) =~= l);
    assert forall|ki: int| 0 <= ki < 8 * total implies #[trigger] b[245784 + ki] == m.labels[ki] by {
        assert(b.subrange(LABELS_POS as int, blocks_pos)[ki] == b[245784 + ki]);
    }
    assert(b.subrange(blocks_pos, blocks_pos + 224 * total) =~= k);
    lemma_i16s_roundtrip(b, blocks_pos, m.blocks);
    assert forall|ki: int| 0 <= ki < 112 * total implies #[trigger] le_i16_at(
        b,
        245784 + 8 * total + 2 * ki,
    ) == m.blocks[ki] by {
        assert(i16s_at(b, blocks_pos, m.blocks.len())[ki] == m.blocks[ki]);
    }
}

/// What an artifact reads as comes from fixed places: a successful reading
/// has the header checked at bytes 0 to 19, takes the count of references
/// from byte 8, centroid `i` from `20 + 4 * i`, offset `c` from
/// `229396 + 4 * c`, and, for `T` blocks, label `k` from `245784 + k` and
/// block value `k` from `245784 + 8 * T + 2 * k`; integers little-endian.
pub proof fn lemma_artifact_read_positions(b: Seq<u8>)
    ensures
        read_artifact(b) matches ArtifactRead::Parsed(m) ==> {
            let t = m.offsets[4096] as int;
            &&& b.len() >= 245784 + 232 * t
            &&& b[0] == 0x52 && b[1] == 0x49 && b[2] == 0x56 && b[3] == 0x46
            &&& le_u32_at(b, 4) == 1
            &&& le_u32_at(b, 12) == 4096
            &&& le_u32_at(b, 16) == 14
            &&& m.n == le_u32_at(b, 8) && m.n >= 1
            &&& t >= 1
            &&& m.clusters == 4096
            &&& m.centroids.len() == 57344
            &&& m.offsets.len() == 4097
            &&& m.labels.len() == 8 * t
            &&& m.blocks.len() == 112 * t
            &&& forall|i: int| 0 <= i < 57344 ==> #[trigger] m.centroids[i] == le_u32_at(
                b,
                20 + 4 * i,
            )
            &&& forall|c: int| 0 <= c < 4097 ==> #[trigger] m.offsets[c] == le_u32_at(
                b,
                229396 + 4 * c,
            )
            &&& forall|k: int| 0 <= k < 8 * t ==> #[trigger] m.labels[k] == b[245784 + k]
            &&& forall|k: int| 0 <= k < 112 * t ==> #[trigger] m.blocks[k] == le_i16_at(
                b,
                245784 + 8 * t + 2 * k,
            )
        },
{
    lemma_layout_constants();
    if let ArtifactRead::Parsed(m) = read_artifact(b) {
        assert(b.subrange(0, 4) == magic());
        assert(b[0] == b.subrange(0, 4)[0] && b[1] == b.subrange(0, 4)[1] && b[2] == b.subrange(
            0,
            4,
        )[2] && b[3] == b.subrange(0, 4)[3]);
        let t = m.offsets[4096] as int;
        assert forall|k: int| 0 <= k < 8 * t implies #[trigger] m.labels[k] == b[245784 + k] by {
        }
    }
}

} // verus!
