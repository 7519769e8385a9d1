//! Little-endian encoding of the integers stored in the index artifact.
use vstd::prelude::*;
use crate::error::{AppError, is_truncation, truncated_input};

verus! {

/// The `u32` stored little-endian at `b[i..i + 4]`.
pub open spec fn le_u32_at(b: Seq<u8>, i: int) -> u32 {
    (b[i] as int + 256 * b[i + 1] + 65536 * b[i + 2] + 16777216 * b[i + 3]) as u32
}

/// The `i16` stored little-endian (two's complement) at `b[i..i + 2]`.
pub open spec fn le_i16_at(b: Seq<u8>, i: int) -> i16 {
    let u = b[i] as int + 256 * b[i + 1];
    (if u >= 32768 { u - 65536 } else { u }) as i16
}

/// Byte `j` (0 is the least significant) of `x`.
pub open spec fn u32_byte(x: u32, j: int) -> u8 {
    (if j == 0 {
        x % 256
    } else if j == 1 {
        (x / 256) % 256
    } else if j == 2 {
        (x / 65536) % 256
    } else {
        x / 16777216
    }) as u8
}

/// Byte `j` of the two's complement form of `x`.
pub open spec fn i16_byte(x: i16, j: int) -> u8 {
    let u: int = if x < 0 { x + 65536 } else { x as int };
    (if j == 0 { u % 256 } else { u / 256 }) as u8
}

/// `count` values of type `u32` read little-endian from `b` starting at `off`.
pub open spec fn u32s_at(b: Seq<u8>, off: int, count: nat) -> Seq<u32> {
    Seq::new(count, |i: int| le_u32_at(b, off + 4 * i))
}

/// `count` values of type `i16` read little-endian from `b` starting at `off`.
pub open spec fn i16s_at(b: Seq<u8>, off: int, count: nat) -> Seq<i16> {
    Seq::new(count, |i: int| le_i16_at(b, off + 2 * i))
}

/// The little-endian bytes of a sequence of `u32` values.
pub open spec fn u32s_le(s: Seq<u32>) -> Seq<u8> {
    Seq::new(4 * s.len(), |k: int| u32_byte(s[k / 4], k % 4))
}

/// The little-endian bytes of a sequence of `i16` values.
pub open spec fn i16s_le(s: Seq<i16>) -> Seq<u8> {
    Seq::new(2 * s.len(), |k: int| i16_byte(s[k / 2], k % 2))
}

proof fn lemma_u32_bytes_recombine(x: u32)
    ensures
        u32_byte(x, 0) as int + 256 * u32_byte(x, 1) + 65536 * u32_byte(x, 2) + 16777216
            * u32_byte(x, 3) == x,
{
    assert(x % 256 + 256 * ((x / 256) % 256) + 65536 * ((x / 65536) % 256) + 16777216 * (x
        / 16777216) == x) by (nonlinear_arith);
}

proof fn lemma_i16_bytes_recombine(x: i16)
    ensures
        ({
            let u = i16_byte(x, 0) as int + 256 * i16_byte(x, 1);
            (if u >= 32768 { u - 65536 } else { u }) == x
        }),
{
    let u: int = if x < 0 { x + 65536 } else { x as int };
    assert(u % 256 + 256 * (u / 256) == u) by (nonlinear_arith);
    assert(0 <= u < 65536);
    assert(u / 256 < 256) by (nonlinear_arith) requires 0 <= u < 65536;
}

/// Reading back the little-endian bytes of `s`, placed at `off` in `b`,
/// gives `s`.
pub proof fn lemma_u32s_roundtrip(b: Seq<u8>, off: int, s: Seq<u32>)
    requires
        0 <= off,
        off + 4 * s.len() <= b.len(),
        b.subrange(off, off + 4 * s.len()) == u32s_le(s),
    ensures
        u32s_at(b, off, s.len()) == s,
{
    assert forall|i: int| 0 <= i < s.len() implies #[trigger] u32s_at(b, off, s.len())[i]
        == s[i] by {
        let e = u32s_le(s);
        assert forall|j: int| 0 <= j < 4 implies b[off + 4 * i + j] == u32_byte(s[i], j) by {
            assert(b[off + 4 * i + j] == b.subrange(off, off + 4 * s.len())[4 * i + j]);
            assert((4 * i + j) / 4 == i);
            assert((4 * i + j) % 4 == j);
        }
        lemma_u32_bytes_recombine(s[i]);
    }
    assert(u32s_at(b, off, s.len()) =~= s);
}

/// Reading back the little-endian bytes of `s`, placed at `off` in `b`,
/// gives `s`.
pub proof fn lemma_i16s_roundtrip(b: Seq<u8>, off: int, s: Seq<i16>)
    requires
        0 <= off,
        off + 2 * s.len() <= b.len(),
        b.subrange(off, off + 2 * s.len()) == i16s_le(s),
    ensures
        i16s_at(b, off, s.len()) == s,
{
    assert forall|i: int| 0 <= i < s.len() implies #[trigger] i16s_at(b, off, s.len())[i]
        == s[i] by {
        assert forall|j: int| 0 <= j < 2 implies b[off + 2 * i + j] == i16_byte(s[i], j) by {
            assert(b[off + 2 * i + j] == b.subrange(off, off + 2 * s.len())[2 * i + j]);
            assert((2 * i + j) / 2 == i);
            assert((2 * i + j) % 2 == j);
        }
        lemma_i16_bytes_recombine(s[i]);
    }
    assert(i16s_at(b, off, s.len()) =~= s);
}

/// Reads the `u32` stored little-endian at `pos`; fails when fewer than four
/// bytes remain.
pub fn read_u32(bytes: &[u8], pos: usize) -> (r: Result<u32, AppError>)
    ensures
        match r {
            Ok(v) => pos + 4 <= bytes@.len() && v == le_u32_at(bytes@, pos as int),
            Err(e) => pos + 4 > bytes@.len() && is_truncation(e),
        },
{
    if bytes.len() < 4 || pos > bytes.len() - 4 {
        return Err(truncated_input());
    }
    let v: u32 = bytes[pos] as u32 + (bytes[pos + 1] as u32) * 256 + (bytes[pos + 2] as u32)
        * 65536 + (bytes[pos + 3] as u32) * 16777216;
    Ok(v)
}

/// Reads the `i16` stored little-endian at `pos`; fails when fewer than two
/// bytes remain.
pub fn read_i16(bytes: &[u8], pos: usize) -> (r: Result<i16, AppError>)
    ensures
        match r {
            Ok(v) => pos + 2 <= bytes@.len() && v == le_i16_at(bytes@, pos as int),
            Err(e) => pos + 2 > bytes@.len() && is_truncation(e),
        },
{
    if bytes.len() < 2 || pos > bytes.len() - 2 {
        return Err(truncated_input());
    }
    let u: i32 = bytes[pos] as i32 + (bytes[pos + 1] as i32) * 256;
    let v: i16 = if u >= 32768 {
        (u - 65536) as i16
    } else {
        u as i16
    };
    Ok(v)
}

/// Reads `count` little-endian `u32` values starting at `pos`; fails when the
/// input ends before the last one.
pub fn read_u32s(bytes: &[u8], pos: usize, count: usize) -> (r: Result<Vec<u32>, AppError>)
    ensures
        match r {
            Ok(v) => pos + 4 * count <= bytes@.len() && v@ == u32s_at(bytes@, pos as int, count as nat),
            Err(e) => pos + 4 * count > bytes@.len() && is_truncation(e),
        },
{
    if pos > bytes.len() || count > (bytes.len() - pos) / 4 {
        return Err(truncated_input());
    }
    let total = bytes.len();
    let mut out: Vec<u32> = Vec::with_capacity(count);
    let mut i: usize = 0;
    while i < count
        invariant
            i <= count,
            pos + 4 * count <= bytes@.len(),
            bytes@.len() == total,
            out@ == u32s_at(bytes@, pos as int, i as nat),
        decreases count - i,
    {
        let v = match read_u32(bytes, pos + 4 * i) {
            Ok(v) => v,
            Err(e) => return Err(e),
        };
        out.push(v);
        i = i + 1;
        assert(out@ =~= u32s_at(bytes@, pos as int, i as nat));
    }
    Ok(out)
}

/// Reads `count` little-endian `i16` values starting at `pos`; fails when the
/// input ends before the last one.
pub fn read_i16s(bytes: &[u8], pos: usize, count: usize) -> (r: Result<Vec<i16>, AppError>)
    ensures
        match r {
            Ok(v) => pos + 2 * count <= bytes@.len() && v@ == i16s_at(bytes@, pos as int, count as nat),
            Err(e) => pos + 2 * count > bytes@.len() && is_truncation(e),
        },
{
    if pos > bytes.len() || count > (bytes.len() - pos) / 2 {
        return Err(truncated_input());
    }
    let total = bytes.len();
    let mut out: Vec<i16> = Vec::with_capacity(count);
    let mut i: usize = 0;
    while i < count
        invariant
            i <= count,
            pos + 2 * count <= bytes@.len(),
            bytes@.len() == total,
            out@ == i16s_at(bytes@, pos as int, i as nat),
        decreases count - i,
    {
        let v = match read_i16(bytes, pos + 2 * i) {
            Ok(v) => v,
            Err(e) => return Err(e),
        };
        out.push(v);
        i = i + 1;
        assert(out@ =~= i16s_at(bytes@, pos as int, i as nat));
    }
    Ok(out)
}

/// Appends the little-endian bytes of a `u32`.
pub fn write_u32(out: &mut Vec<u8>, value: u32)
    ensures
        final(out)@ == old(out)@ + u32s_le(seq![value]),
{
    let ghost before = out@;
    out.push((value % 256) as u8);
    out.push(((value / 256) % 256) as u8);
    out.push(((value / 65536) % 256) as u8);
    out.push((value / 16777216) as u8);
    assert(out@ =~= before + u32s_le(seq![value]));
}

/// Appends the little-endian bytes of each value in turn.
pub fn write_u32s(out: &mut Vec<u8>, values: &[u32])
    ensures
        final(out)@ == old(out)@ + u32s_le(values@),
{
    let ghost before = out@;
    let mut i: usize = 0;
    while i < values.len()
        invariant
            i <= values@.len(),
            out@ == before + u32s_le(values@.take(i as int)),
        decreases values@.len() - i,
    {
        let ghost mid = out@;
        write_u32(out, values[i]);
        proof {
            let s = values@.take(i as int);
            let t = values@.take(i + 1);
            assert(t =~= s.push(values@[i as int]));
            assert forall|k: int| 0 <= k < 4 * t.len() implies #[trigger] u32s_le(t)[k] == (
            u32s_le(s) + u32s_le(seq![values@[i as int]]))[k] by {
                if k < 4 * s.len() {
                    assert(k / 4 < s.len());
                } else {
                    assert(k / 4 == s.len());
                    assert((k - 4 * s.len()) / 4 == 0);
                    assert((k - 4 * s.len()) % 4 == k % 4);
                }
            }
            assert(u32s_le(t) =~= u32s_le(s) + u32s_le(seq![values@[i as int]]));
        }
        i = i + 1;
        assert(out@ =~= before + u32s_le(values@.take(i as int)));
    }
    assert(values@.take(values@.len() as int) =~= values@);
}

/// Appends the little-endian bytes of an `i16`.
pub fn write_i16(out: &mut Vec<u8>, value: i16)
    ensures
        final(out)@ == old(out)@ + i16s_le(seq![value]),
{
    let ghost before = out@;
    let u: u16 = if value < 0 {
        (value as i32 + 65536) as u16
    } else {
        value as u16
    };
    out.push((u % 256) as u8);
    out.push((u / 256) as u8);
    assert(out@ =~= before + i16s_le(seq![value]));
}

/// Appends the little-endian bytes of each value in turn.
pub fn write_i16s(out: &mut Vec<u8>, values: &[i16])
    ensures
        final(out)@ == old(out)@ + i16s_le(values@),
{
    let ghost before = out@;
    let mut i: usize = 0;
    while i < values.len()
        invariant
            i <= values@.len(),
            out@ == before + i16s_le(values@.take(i as int)),
        decreases values@.len() - i,
    {
        write_i16(out, values[i]);
        proof {
            let s = values@.take(i as int);
            let t = values@.take(i + 1);
            assert(t =~= s.push(values@[i as int]));
            assert forall|k: int| 0 <= k < 2 * t.len() implies #[trigger] i16s_le(t)[k] == (
            i16s_le(s) + i16s_le(seq![values@[i as int]]))[k] by {
                if k < 2 * s.len() {
                    assert(k / 2 < s.len());
                } else {
                    assert(k / 2 == s.len());
                    assert((k - 2 * s.len()) / 2 == 0);
                    assert((k - 2 * s.len()) % 2 == k % 2);
                }
            }
            assert(i16s_le(t) =~= i16s_le(s) + i16s_le(seq![values@[i as int]]));
        }
        i = i + 1;
        assert(out@ =~= before + i16s_le(values@.take(i as int)));
    }
    assert(values@.take(values@.len() as int) =~= values@);
}

} // verus!
