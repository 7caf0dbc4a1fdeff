//! Fixed-endian serialization of sparse blocks. Values are ZigZagged and
//! truncated to 16 bits — magnitudes past ±32767 wrap, a layout kept for
//! bit-compatibility — while indices keep their full 32 bits.

use vstd::prelude::*;
use crate::bytes::{
    be16_bytes, be32_bytes, lemma_be16_roundtrip, lemma_be32_roundtrip, push_u16_be, push_u32_be,
    read_u16_be, read_u32_be, u16_from_be, u32_from_be,
};
use crate::coder::{unzigzag, unzigzag_spec, zigzag_spec, lemma_zigzag_bijection};
use crate::sparse::SparseData;

verus! {

/// The low sixteen bits of the ZigZag image of `v`.
pub open spec fn zz16(v: i32) -> u16 {
    (zigzag_spec(v) % 0x1_0000) as u16
}

/// The serialized values: two big-endian bytes each.
pub open spec fn val_bytes(values: Seq<i32>) -> Seq<u8>
    decreases values.len(),
{
    if values.len() == 0 {
        Seq::empty()
    } else {
        val_bytes(values.drop_last()) + be16_bytes(zz16(values.last()))
    }
}

/// The serialized indices: four big-endian bytes each.
pub open spec fn idx_bytes(indices: Seq<u32>) -> Seq<u8>
    decreases indices.len(),
{
    if indices.len() == 0 {
        Seq::empty()
    } else {
        idx_bytes(indices.drop_last()) + be32_bytes(indices.last())
    }
}

/// The whole sparse-block layout: length, count, values, indices.
pub open spec fn simd_serialized(values: Seq<i32>, indices: Seq<u32>, original_len: u32) -> Seq<
    u8,
> {
    be32_bytes(original_len) + be32_bytes(values.len() as u32) + val_bytes(values) + idx_bytes(
        indices,
    )
}

/// Serialized values take two bytes each, in order.
pub proof fn lemma_val_bytes_index(values: Seq<i32>)
    ensures
        val_bytes(values).len() == 2 * values.len(),
        forall|i: int|
            0 <= i < values.len() ==> val_bytes(values)[2 * i] == be16_bytes(zz16(values[i]))[0]
                && val_bytes(values)[2 * i + 1] == be16_bytes(zz16(values[i]))[1],
    decreases values.len(),
{
    if values.len() > 0 {
        lemma_val_bytes_index(values.drop_last());
        assert forall|i: int| 0 <= i < values.len() implies val_bytes(values)[2 * i]
            == be16_bytes(zz16(values[i]))[0] && val_bytes(values)[2 * i + 1] == be16_bytes(
            zz16(values[i]),
        )[1] by {
            if i < values.len() - 1 {
                assert(values.drop_last()[i] == values[i]);
            }
        }
    }
}

/// Serialized indices take four bytes each, in order.
pub proof fn lemma_idx_bytes_index(indices: Seq<u32>)
    ensures
        idx_bytes(indices).len() == 4 * indices.len(),
        forall|i: int|
            0 <= i < indices.len() ==> idx_bytes(indices)[4 * i] == be32_bytes(indices[i])[0]
                && idx_bytes(indices)[4 * i + 1] == be32_bytes(indices[i])[1] && idx_bytes(
                indices,
            )[4 * i + 2] == be32_bytes(indices[i])[2] && idx_bytes(indices)[4 * i + 3]
                == be32_bytes(indices[i])[3],
    decreases indices.len(),
{
    if indices.len() > 0 {
        lemma_idx_bytes_index(indices.drop_last());
        assert forall|i: int| 0 <= i < indices.len() implies idx_bytes(indices)[4 * i]
            == be32_bytes(indices[i])[0] && idx_bytes(indices)[4 * i + 1] == be32_bytes(
            indices[i],
        )[1] && idx_bytes(indices)[4 * i + 2] == be32_bytes(indices[i])[2] && idx_bytes(
            indices,
        )[4 * i + 3] == be32_bytes(indices[i])[3] by {
            if i < indices.len() - 1 {
                assert(indices.drop_last()[i] == indices[i]);
            }
        }
    }
}

/// Serialization layout for sparse blocks.
pub struct SimdOps;

impl SimdOps {
    /// Packs a sparse block as length, count, ZigZagged 16-bit values, and
    /// 32-bit indices, all big-endian.
    pub fn serialize(data: &SparseData) -> (out: Vec<u8>)
        requires
            data.values@.len() <= u32::MAX,
        ensures
            out@ == simd_serialized(data.values@, data.indices@, data.original_len),
    {
        let mut out: Vec<u8> = Vec::new();
        push_u32_be(&mut out, data.original_len);
        push_u32_be(&mut out, data.values.len() as u32);
        let ghost header = out@;
        let vn = data.values.len();
        for i in 0..vn
            invariant
                vn == data.values@.len() <= u32::MAX,
                out@ == header + val_bytes(data.values@.take(i as int)),
        {
            let v = data.values[i];
            let u = crate::coder::zigzag(v);
            let w = (u % 0x1_0000) as u16;
            push_u16_be(&mut out, w);
            proof {
                let taken = data.values@.take(i as int + 1);
                assert(taken.drop_last() =~= data.values@.take(i as int));
                assert(taken.last() == data.values@[i as int]);
                assert(out@ =~= header + val_bytes(taken));
            }
        }
        proof {
            assert(data.values@.take(vn as int) =~= data.values@);
        }
        let ghost mid = out@;
        let inn = data.indices.len();
        for i in 0..inn
            invariant
                inn == data.indices@.len(),
                out@ == mid + idx_bytes(data.indices@.take(i as int)),
        {
            push_u32_be(&mut out, data.indices[i]);
            proof {
                let taken = data.indices@.take(i as int + 1);
                assert(taken.drop_last() =~= data.indices@.take(i as int));
                assert(taken.last() == data.indices@[i as int]);
                assert(out@ =~= mid + idx_bytes(taken));
            }
        }
        proof {
            assert(data.indices@.take(inn as int) =~= data.indices@);
            assert(out@ =~= simd_serialized(data.values@, data.indices@, data.original_len));
        }
        out
    }

    /// Reads back a sparse block; the input must hold the full layout that
    /// its own count field promises.
    pub fn deserialize(bytes: &Vec<u8>) -> (s: SparseData)
        requires
            bytes@.len() >= 8,
            8 + 6 * (u32_from_be(bytes@[4], bytes@[5], bytes@[6], bytes@[7]) as int)
                <= bytes@.len(),
        ensures
            s.original_len == u32_from_be(bytes@[0], bytes@[1], bytes@[2], bytes@[3]),
            s.values@.len() == u32_from_be(bytes@[4], bytes@[5], bytes@[6], bytes@[7]),
            s.indices@.len() == s.values@.len(),
            forall|i: int|
                0 <= i < s.values@.len() ==> s.values@[i] == unzigzag_spec(
                    u16_from_be(bytes@[8 + 2 * i], bytes@[9 + 2 * i]) as u32,
                ),
            forall|i: int|
                0 <= i < s.indices@.len() ==> s.indices@[i] == u32_from_be(
                    bytes@[8 + 2 * s.values@.len() + 4 * i],
                    bytes@[9 + 2 * s.values@.len() + 4 * i],
                    bytes@[10 + 2 * s.values@.len() + 4 * i],
                    bytes@[11 + 2 * s.values@.len() + 4 * i],
                ),
    {
        let blen = bytes.len();
        let original_len = read_u32_be(bytes, 0);
        let count = read_u32_be(bytes, 4) as usize;
        let mut values: Vec<i32> = Vec::new();
        for i in 0..count
            invariant
                bytes@.len() <= usize::MAX,
                8 + 6 * count <= bytes@.len(),
                values@.len() == i,
                forall|t: int|
                    0 <= t < i ==> values@[t] == unzigzag_spec(
                        u16_from_be(bytes@[8 + 2 * t], bytes@[9 + 2 * t]) as u32,
                    ),
        {
            let u = read_u16_be(bytes, 8 + 2 * i);
            let v = unzigzag(u as u32);
            values.push(v);
        }
        let mut indices: Vec<u32> = Vec::new();
        for i in 0..count
            invariant
                bytes@.len() <= usize::MAX,
                8 + 6 * count <= bytes@.len(),
                indices@.len() == i,
                forall|t: int|
                    0 <= t < i ==> indices@[t] == u32_from_be(
                        bytes@[8 + 2 * count + 4 * t],
                        bytes@[9 + 2 * count + 4 * t],
                        bytes@[10 + 2 * count + 4 * t],
                        bytes@[11 + 2 * count + 4 * t],
                    ),
        {
            let idx = read_u32_be(bytes, 8 + 2 * count + 4 * i);
            indices.push(idx);
        }
        SparseData { values, indices, original_len }
    }
}

/// Serializer round-trip: for counts that fit the count field and values
/// within the representable 16-bit ZigZag range, deserializing the
/// serialized block recovers every field exactly.
#[verifier::rlimit(100)]
pub proof fn lemma_simd_roundtrip(values: Seq<i32>, indices: Seq<u32>, n: u32)
    requires
        values.len() <= u32::MAX,
        values.len() == indices.len(),
        forall|i: int| 0 <= i < values.len() ==> #[trigger] values[i] >= -0x8000 && values[i] <= 0x7fff,
    ensures
        ({
            let b = simd_serialized(values, indices, n);
            &&& b.len() == 8 + 6 * values.len()
            &&& u32_from_be(b[0], b[1], b[2], b[3]) == n
            &&& u32_from_be(b[4], b[5], b[6], b[7]) == values.len() as u32
            &&& forall|i: int|
                0 <= i < values.len() ==> unzigzag_spec(
                    u16_from_be(b[8 + 2 * i], b[9 + 2 * i]) as u32,
                ) == #[trigger] values[i]
            &&& forall|i: int|
                0 <= i < indices.len() ==> u32_from_be(
                    b[8 + 2 * values.len() + 4 * i],
                    b[9 + 2 * values.len() + 4 * i],
                    b[10 + 2 * values.len() + 4 * i],
                    b[11 + 2 * values.len() + 4 * i],
                ) == #[trigger] indices[i]
        }),
{
    let b = simd_serialized(values, indices, n);
    lemma_val_bytes_index(values);
    lemma_idx_bytes_index(indices);
    lemma_be32_roundtrip(n);
    lemma_be32_roundtrip(values.len() as u32);
    let hdr = be32_bytes(n) + be32_bytes(values.len() as u32);
    let hv = hdr + val_bytes(values);
    assert(hdr.len() == 8);
    assert(b == hv + idx_bytes(indices));
    assert forall|i: int| 0 <= i < values.len() implies unzigzag_spec(
        u16_from_be(b[8 + 2 * i], b[9 + 2 * i]) as u32,
    ) == values[i] by {
        let v = values[i];
        let w = zz16(v);
        assert(b[8 + 2 * i] == hv[8 + 2 * i]);
        assert(hv[8 + 2 * i] == val_bytes(values)[2 * i]);
        assert(b[9 + 2 * i] == hv[9 + 2 * i]);
        assert(hv[9 + 2 * i] == val_bytes(values)[2 * i + 1]);
        lemma_be16_roundtrip(w);
        assert(zigzag_spec(v) < 0x1_0000);
        vstd::arithmetic::div_mod::lemma_small_mod(zigzag_spec(v) as nat, 0x1_0000);
        assert(w as u32 == zigzag_spec(v));
        lemma_zigzag_bijection(v);
    }
    assert forall|i: int| 0 <= i < indices.len() implies u32_from_be(
        b[8 + 2 * values.len() + 4 * i],
        b[9 + 2 * values.len() + 4 * i],
        b[10 + 2 * values.len() + 4 * i],
        b[11 + 2 * values.len() + 4 * i],
    ) == indices[i] by {
        assert(hv.len() == 8 + 2 * values.len());
        assert(b[8 + 2 * values.len() + 4 * i] == idx_bytes(indices)[4 * i]);
        assert(b[9 + 2 * values.len() + 4 * i] == idx_bytes(indices)[4 * i + 1]);
        assert(b[10 + 2 * values.len() + 4 * i] == idx_bytes(indices)[4 * i + 2]);
        assert(b[11 + 2 * values.len() + 4 * i] == idx_bytes(indices)[4 * i + 3]);
        lemma_be32_roundtrip(indices[i]);
    }
}

} // verus!
