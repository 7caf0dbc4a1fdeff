//! The self-describing container: magic, version, stream metadata, and a
//! version-selected body. Numeric fields are big-endian; the rANS
//! sub-payload keeps its own little-endian framing.
//!
//! Version 1 carries Rice-coded residual blocks, version 4 a single spike
//! event blob, version 5 rANS-compressed sparse residual blocks.

use vstd::prelude::*;
use crate::bytes::{
    be16_bytes, be32_bytes, be64_bytes, lemma_be32_roundtrip, lemma_be64_roundtrip, push_u16_be,
    push_u32_be, push_u64_be, read_u16_be, read_u32_be, read_u64_be, u16_from_be, u16_from_le,
    u32_from_be, u32_from_le, u64_from_be,
};
use crate::coder::{decode_rice, encode_rice, lemma_rice_roundtrip, rice_decode_spec,
    rice_encoded_bytes, unzigzag_spec};
use crate::bits::bits_of_bytes;
use crate::errors::CodecError;
use crate::lpc::{autocorrelation, compute_residuals, lemma_lpc_roundtrip, levinson_durbin,
    residuals_spec, restore_signal, restore_spec};
use crate::rans::{dec_sentinel_spec, freq_sum_upto, table_seq};
use crate::sparse::{sparse_decode_spec, sparse_indices_spec, sparse_values_spec};
use crate::simd_ops::simd_serialized;
use crate::rans::rans_encoded_bytes;
use crate::rans::RansCoder;
use crate::simd_ops::SimdOps;
use crate::sparse::SparseEncoder;
use crate::spike::SpikeCompressor;

verus! {

/// The operating mode of an encode.
#[derive(Clone, Copy, Debug, PartialEq, Eq, Structural)]
pub enum Mode {
    /// Linear prediction with Rice-coded residuals; exact recovery.
    Lossless,
    /// Spike detection with vector quantization; lossy.
    Events,
    /// Linear prediction, sparse residuals, and rANS; exact recovery
    /// within the serializer's sixteen-bit residual range.
    Elite,
}

/// A decoded stream: the samples and the metadata carried beside them.
pub struct Decoded {
    pub sample_rate: u32,
    pub channels: u16,
    pub bits_per_sample: u16,
    pub total_samples: u64,
    pub version: u32,
    pub samples: Vec<i32>,
}

/// The 24-byte container header.
pub open spec fn header_bytes(
    version: u32,
    sample_rate: u32,
    channels: u16,
    bits_per_sample: u16,
    total: u64,
) -> Seq<u8> {
    seq![0x4eu8, 0x45u8, 0x55u8, 0x52u8] + be32_bytes(version) + be32_bytes(sample_rate)
        + be16_bytes(channels) + be16_bytes(bits_per_sample) + be64_bytes(total)
}

/// The version a mode selects.
pub open spec fn version_of(mode: Mode) -> u32 {
    match mode {
        Mode::Lossless => 1,
        Mode::Events => 4,
        Mode::Elite => 5,
    }
}

/// The sum of absolute residual values over the first `upto` positions.
pub open spec fn sum_abs_upto(s: Seq<i32>, upto: int) -> int
    decreases upto,
{
    if upto <= 0 {
        0
    } else {
        sum_abs_upto(s, upto - 1) + if s[upto - 1] < 0 {
            0 - s[upto - 1]
        } else {
            s[upto - 1] as int
        }
    }
}

/// The floor of the base-two logarithm; zero below two.
pub open spec fn ilog2_spec(m: nat) -> nat
    decreases m,
{
    if m <= 1 {
        0
    } else {
        1 + ilog2_spec(m / 2)
    }
}

/// The Rice parameter a residual block selects: the floored logarithm of
/// the mean absolute residual, clamped into `[0, 15]`.
pub open spec fn rice_k_spec(s: Seq<i32>) -> nat {
    if s.len() == 0 {
        0
    } else {
        let mean = sum_abs_upto(s, s.len() as int) / (s.len() as int);
        if ilog2_spec(mean as nat) > 15 {
            15
        } else {
            ilog2_spec(mean as nat)
        }
    }
}

/// Selects the Rice parameter for a residual block.
pub fn rice_param(residuals: &Vec<i32>) -> (k: u32)
    requires
        residuals@.len() < 0x1_0000_0000,
    ensures
        k == rice_k_spec(residuals@),
        k <= 15,
{
    let n = residuals.len();
    if n == 0 {
        return 0;
    }
    let mut sum: u64 = 0;
    let mut i: usize = 0;
    while i < n
        invariant
            i <= n == residuals@.len() < 0x1_0000_0000,
            sum == sum_abs_upto(residuals@, i as int),
            sum <= 0x8000_0000 * (i as int),
        decreases n - i,
    {
        let v = residuals[i];
        let a: u64 = if v < 0 {
            (-(v as i64)) as u64
        } else {
            v as u64
        };
        proof {
            assert(0x8000_0000 * ((i + 1) as int) == 0x8000_0000 * (i as int) + 0x8000_0000) by (
            nonlinear_arith);
            assert(0x8000_0000 * ((i + 1) as int) <= 0x8000_0000 * 0x1_0000_0000) by (
            nonlinear_arith)
                requires
                    (i as int) + 1 <= 0x1_0000_0000,
            ;
        }
        sum = sum + a;
        i += 1;
    }
    let mean: u64 = sum / (n as u64);
    let mut k: u32 = 0;
    let mut m: u64 = mean;
    while m > 1 && k < 15
        invariant
            k <= 15,
            ilog2_spec(mean as nat) == k + ilog2_spec(m as nat) || (ilog2_spec(mean as nat) > 15
                && k + ilog2_spec(m as nat) > 15),
        decreases m,
    {
        proof {
            assert(m / 2 < m);
        }
        m = m / 2;
        k += 1;
    }
    proof {
        if m <= 1 {
            assert(ilog2_spec(m as nat) == 0);
        } else {
            lemma_ilog2_pos(m as nat);
        }
    }
    k
}

/// A logarithm of anything at least two is positive.
proof fn lemma_ilog2_pos(m: nat)
    requires
        m >= 2,
    ensures
        ilog2_spec(m) >= 1,
{
}


/// The eight-byte big-endian two's-complement form of each coefficient.
pub open spec fn coeff_bytes(coeffs: Seq<i64>) -> Seq<u8>
    decreases coeffs.len(),
{
    if coeffs.len() == 0 {
        Seq::empty()
    } else {
        coeff_bytes(coeffs.drop_last()) + be64_bytes(coeffs.last() as u64)
    }
}










/// The coefficients read back from eight-byte big-endian fields at `off`.
pub open spec fn parsed_coeffs(b: Seq<u8>, off: int, order: int) -> Seq<i64> {
    Seq::new(order as nat, |j: int| u64_from_be(
        b[off + 8 * j],
        b[off + 8 * j + 1],
        b[off + 8 * j + 2],
        b[off + 8 * j + 3],
        b[off + 8 * j + 4],
        b[off + 8 * j + 5],
        b[off + 8 * j + 6],
        b[off + 8 * j + 7],
    ) as i64)
}

/// Joins a decoded block onto the outcome of parsing the rest.
pub open spec fn parse_extend(prefix: Seq<i32>, rest: Option<Seq<i32>>) -> Option<Seq<i32>> {
    match rest {
        Some(r) => Some(prefix + r),
        None => None,
    }
}

/// What parsing a version-1 body yields while `remaining` samples are
/// owed: each frame is read, its Rice payload decoded with the carried
/// parameter, and the block restored with the carried coefficients; any
/// shortfall or malformed field yields nothing.
pub open spec fn v1_parse(b: Seq<u8>, remaining: int) -> Option<Seq<i32>>
    decreases b.len(),
{
    if remaining <= 0 {
        Some(Seq::empty())
    } else if b.len() < 6 {
        None
    } else {
        let bsz = u32_from_be(b[0], b[1], b[2], b[3]) as int;
        let order = b[4] as int;
        let k = b[5] as nat;
        if k > 15 {
            None
        } else if b.len() < 10 + 8 * order {
            None
        } else {
            let coeffs = parsed_coeffs(b, 6, order);
            let dlen = u32_from_be(
                b[6 + 8 * order],
                b[7 + 8 * order],
                b[8 + 8 * order],
                b[9 + 8 * order],
            ) as int;
            if b.len() < 10 + 8 * order + dlen {
                None
            } else {
                let payload = b.subrange(10 + 8 * order, 10 + 8 * order + dlen);
                match rice_decode_spec(bits_of_bytes(payload), 0, bsz as nat, k) {
                    None => None,
                    Some(res) => parse_extend(
                        restore_spec(res, coeffs),
                        v1_parse(b.skip(10 + 8 * order + dlen), remaining - bsz),
                    ),
                }
            }
        }
    }
}

/// What decoding one rANS payload in its drain-the-stream mode yields:
/// mirrors the coder's own contract, including the symbol budget.
pub open spec fn rans_sentinel_parse(payload: Seq<u8>) -> Option<Seq<u8>> {
    if payload.len() == 0 {
        Some(Seq::empty())
    } else if payload.len() < 516 {
        None
    } else if freq_sum_upto(table_seq(payload), 256) != 4096 {
        None
    } else {
        dec_sentinel_spec(
            payload,
            table_seq(payload),
            u32_from_le(payload[0], payload[1], payload[2], payload[3]),
            payload.len() - 513,
            (0x1_0000 * (payload.len() + 1)) as nat,
        )
    }
}

/// The sparse block a serialized blob stands for, or nothing when the
/// blob cannot hold the layout its count field promises.
pub open spec fn blob_parse(blob: Seq<u8>) -> Option<Seq<i32>> {
    if blob.len() < 8 {
        None
    } else {
        let count = u32_from_be(blob[4], blob[5], blob[6], blob[7]) as int;
        if count > ((usize::MAX - 8) / 6) as int || 8 + 6 * count > blob.len() {
            None
        } else {
            let values = Seq::new(count as nat, |i: int| unzigzag_spec(
                u16_from_be(blob[8 + 2 * i], blob[9 + 2 * i]) as u32,
            ));
            let indices = Seq::new(count as nat, |i: int| u32_from_be(
                blob[8 + 2 * count + 4 * i],
                blob[9 + 2 * count + 4 * i],
                blob[10 + 2 * count + 4 * i],
                blob[11 + 2 * count + 4 * i],
            ));
            Some(sparse_decode_spec(values, indices, u32_from_be(
                blob[0],
                blob[1],
                blob[2],
                blob[3],
            ) as nat))
        }
    }
}

/// What parsing a version-5 body yields: each frame's rANS payload is
/// drained back into a sparse blob, densified, and the block restored
/// with the carried coefficients.
pub open spec fn v5_parse(b: Seq<u8>, remaining: int) -> Option<Seq<i32>>
    decreases b.len(),
{
    if remaining <= 0 {
        Some(Seq::empty())
    } else if b.len() < 5 {
        None
    } else {
        let bsz = u32_from_be(b[0], b[1], b[2], b[3]) as int;
        let order = b[4] as int;
        if b.len() < 9 + 8 * order {
            None
        } else {
            let coeffs = parsed_coeffs(b, 5, order);
            let dlen = u32_from_be(
                b[5 + 8 * order],
                b[6 + 8 * order],
                b[7 + 8 * order],
                b[8 + 8 * order],
            ) as int;
            if b.len() < 9 + 8 * order + dlen {
                None
            } else {
                let payload = b.subrange(9 + 8 * order, 9 + 8 * order + dlen);
                match rans_sentinel_parse(payload) {
                    None => None,
                    Some(blob) => match blob_parse(blob) {
                        None => None,
                        Some(res) => parse_extend(
                            restore_spec(res, coeffs),
                            v5_parse(b.skip(9 + 8 * order + dlen), remaining - bsz),
                        ),
                    },
                }
            }
        }
    }
}


/// The bytes of one version-1 block frame for `chunk` under `coeffs` and
/// the Rice parameter `k`.
#[verifier::opaque]
pub open spec fn v1_frame(chunk: Seq<i32>, coeffs: Seq<i64>, k: nat) -> Seq<u8> {
    let payload = rice_encoded_bytes(residuals_spec(chunk, coeffs), k);
    be32_bytes(chunk.len() as u32) + seq![(coeffs.len() as u8)] + seq![(k as u8)] + coeff_bytes(
        coeffs,
    ) + be32_bytes(payload.len() as u32) + payload
}

/// The coefficient field takes eight bytes per coefficient.
proof fn lemma_coeff_bytes_len(coeffs: Seq<i64>)
    ensures
        coeff_bytes(coeffs).len() == 8 * coeffs.len(),
    decreases coeffs.len(),
{
    if coeffs.len() > 0 {
        lemma_coeff_bytes_len(coeffs.drop_last());
    }
}

/// Each coefficient's eight bytes sit at their own offset, in order.
proof fn lemma_coeff_bytes_index(coeffs: Seq<i64>)
    ensures
        coeff_bytes(coeffs).len() == 8 * coeffs.len(),
        forall|j: int, t: int|
            0 <= j < coeffs.len() && 0 <= t < 8 ==> #[trigger] coeff_bytes(coeffs)[8 * j + t]
                == be64_bytes(coeffs[j] as u64)[t],
    decreases coeffs.len(),
{
    lemma_coeff_bytes_len(coeffs);
    if coeffs.len() > 0 {
        lemma_coeff_bytes_index(coeffs.drop_last());
        assert forall|j: int, t: int| 0 <= j < coeffs.len() && 0 <= t < 8 implies #[trigger] coeff_bytes(
            coeffs,
        )[8 * j + t] == be64_bytes(coeffs[j] as u64)[t] by {
            if j < coeffs.len() - 1 {
                assert(coeffs.drop_last()[j] == coeffs[j]);
                assert(coeff_bytes(coeffs)[8 * j + t] == coeff_bytes(coeffs.drop_last())[8 * j
                    + t]);
            } else {
                assert(coeff_bytes(coeffs)[8 * j + t] == be64_bytes(coeffs.last() as u64)[t]);
            }
        }
    }
}

/// Reading a coefficient's eight big-endian bytes back gives the
/// coefficient.
proof fn lemma_coeff_parse(c: i64)
    ensures
        u64_from_be(
            be64_bytes(c as u64)[0],
            be64_bytes(c as u64)[1],
            be64_bytes(c as u64)[2],
            be64_bytes(c as u64)[3],
            be64_bytes(c as u64)[4],
            be64_bytes(c as u64)[5],
            be64_bytes(c as u64)[6],
            be64_bytes(c as u64)[7],
        ) as i64 == c,
{
    lemma_be64_roundtrip(c as u64);
    assert((c as u64) as i64 == c) by (bit_vector);
}

/// One freshly written frame, followed by anything, parses to its own
/// chunk followed by the parse of the rest.
#[verifier::rlimit(100)]
proof fn lemma_v1_frame_step(fr: Seq<u8>, chunk: Seq<i32>, coeffs: Seq<i64>, k: nat, rest: Seq<u8>, rem: int)
    requires
        rem > 0,
        1 <= chunk.len() <= 0xffff_ffff,
        coeffs.len() <= 255,
        k <= 15,
        forall|i: int|
            0 <= i < chunk.len() ==> #[trigger] residuals_spec(chunk, coeffs)[i] != i32::MIN,
        rice_encoded_bytes(residuals_spec(chunk, coeffs), k).len() <= 0xffff_ffff,
        fr == v1_frame(chunk, coeffs, k) + rest,
    ensures
        v1_parse(fr, rem) == parse_extend(chunk, v1_parse(rest, rem - chunk.len())),
{
    reveal(v1_frame);
    let order = coeffs.len() as int;
    let res = residuals_spec(chunk, coeffs);
    let payload = rice_encoded_bytes(res, k);
    let f = v1_frame(chunk, coeffs, k);
    lemma_coeff_bytes_index(coeffs);
    let h2 = be32_bytes(chunk.len() as u32) + seq![(coeffs.len() as u8)] + seq![(k as u8)];
    let h3 = h2 + coeff_bytes(coeffs);
    let h4 = h3 + be32_bytes(payload.len() as u32);
    assert(h2.len() == 6);
    assert(h3.len() == 6 + 8 * order);
    assert(h4.len() == 10 + 8 * order);
    assert(f =~= h4 + payload);
    assert(f.len() == 10 + 8 * order + payload.len());
    // the leading fields
    lemma_be32_roundtrip(chunk.len() as u32);
    assert forall|t: int| 0 <= t < 4 implies fr[t] == (#[trigger] be32_bytes(
        chunk.len() as u32,
    )[t]) by {
        assert(fr[t] == f[t]);
        assert(f[t] == (h4 + payload)[t]);
        assert(h4[t] == h3[t] && h3[t] == h2[t]);
    }
    assert(fr[4] == (coeffs.len() as u8)) by {
        assert(fr[4] == f[4] && f[4] == h2[4]);
    }
    assert(fr[5] == (k as u8)) by {
        assert(fr[5] == f[5] && f[5] == h2[5]);
    }
    assert(u32_from_be(fr[0], fr[1], fr[2], fr[3]) == chunk.len());
    // the coefficients
    assert forall|j: int, t: int| 0 <= j < order && 0 <= t < 8 implies fr[6 + 8 * j + t] == (
    #[trigger] be64_bytes(coeffs[j] as u64)[t]) by {
        assert(fr[6 + 8 * j + t] == f[6 + 8 * j + t]);
        assert(f[6 + 8 * j + t] == (h4 + payload)[6 + 8 * j + t]);
        assert(h4[6 + 8 * j + t] == h3[6 + 8 * j + t]);
        assert(h3[6 + 8 * j + t] == coeff_bytes(coeffs)[8 * j + t]);
    }
    assert(parsed_coeffs(fr, 6, order) =~= coeffs) by {
        assert forall|j: int| 0 <= j < order implies parsed_coeffs(fr, 6, order)[j] == coeffs[j] by {
            lemma_coeff_parse(coeffs[j]);
        }
    }
    // the payload length field
    lemma_be32_roundtrip(payload.len() as u32);
    assert forall|t: int| 0 <= t < 4 implies fr[6 + 8 * order + t] == (#[trigger] be32_bytes(
        payload.len() as u32,
    )[t]) by {
        assert(fr[6 + 8 * order + t] == f[6 + 8 * order + t]);
        assert(f[6 + 8 * order + t] == (h4 + payload)[6 + 8 * order + t]);
        assert(h4[6 + 8 * order + t] == be32_bytes(payload.len() as u32)[t]);
    }
    assert(u32_from_be(
        fr[6 + 8 * order],
        fr[7 + 8 * order],
        fr[8 + 8 * order],
        fr[9 + 8 * order],
    ) == payload.len());
    // the payload itself
    assert(fr.subrange(10 + 8 * order, 10 + 8 * order + payload.len() as int) =~= payload);
    lemma_rice_roundtrip(res, k);
    assert(rice_decode_spec(bits_of_bytes(payload), 0, chunk.len() as nat, k) == Some(res));
    lemma_lpc_roundtrip(chunk, coeffs);
    assert(restore_spec(res, coeffs) == chunk);
    assert(fr.skip(10 + 8 * order + payload.len() as int) =~= rest);
}


/// The rANS-coded sparse residual payload of one elite block.
#[verifier::opaque]
pub open spec fn v5_payload(chunk: Seq<i32>, coeffs: Seq<i64>) -> Seq<u8> {
    let res = residuals_spec(chunk, coeffs);
    rans_encoded_bytes(
        simd_serialized(sparse_values_spec(res), sparse_indices_spec(res), chunk.len() as u32),
    )
}

/// The bytes of one version-5 block frame for `chunk` under `coeffs`.
pub open spec fn v5_frame(chunk: Seq<i32>, coeffs: Seq<i64>) -> Seq<u8> {
    be32_bytes(chunk.len() as u32) + seq![(coeffs.len() as u8)] + coeff_bytes(coeffs)
        + be32_bytes(v5_payload(chunk, coeffs).len() as u32) + v5_payload(chunk, coeffs)
}

/// A well-formed version-5 body for `s`: frames tiling `s` in chunks of
/// `bs`, each carrying its coefficients in its own bytes and the exact
/// rANS coding of the serialized sparse residuals under them.
pub open spec fn is_v5_body(b: Seq<u8>, s: Seq<i32>, order: int, bs: int) -> bool
    decreases s.len(),
{
    if s.len() == 0 {
        b.len() == 0
    } else if bs < 1 || order < 0 {
        false
    } else {
        let cl = if s.len() <= bs {
            s.len() as int
        } else {
            bs
        };
        let chunk = s.take(cl);
        let coeffs = parsed_coeffs(b, 5, order);
        let f = v5_frame(chunk, coeffs);
        &&& f.len() <= b.len()
        &&& b.take(f.len() as int) == f
        &&& is_v5_body(b.skip(f.len() as int), s.skip(cl), order, bs)
    }
}

/// One freshly written elite frame, followed by a well-formed tail, makes
/// a well-formed body.
#[verifier::rlimit(100)]
proof fn lemma_v5_frame_step(
    fr: Seq<u8>,
    mid: Seq<i32>,
    chunk: Seq<i32>,
    coeffs: Seq<i64>,
    rest: Seq<u8>,
    order: int,
    bs: int,
)
    requires
        1 <= bs,
        1 <= mid.len(),
        chunk == mid.take(if mid.len() <= bs {
            mid.len() as int
        } else {
            bs
        }),
        coeffs.len() == order <= 255,
        fr == v5_frame(chunk, coeffs) + rest,
        is_v5_body(rest, mid.skip(if mid.len() <= bs {
            mid.len() as int
        } else {
            bs
        }), order, bs),
    ensures
        is_v5_body(fr, mid, order, bs),
{
    let f = v5_frame(chunk, coeffs);
    lemma_coeff_bytes_index(coeffs);
    let cl = if mid.len() <= bs {
        mid.len() as int
    } else {
        bs
    };
    let payload = v5_payload(chunk, coeffs);
    let h2 = be32_bytes(chunk.len() as u32) + seq![(coeffs.len() as u8)];
    let h3 = h2 + coeff_bytes(coeffs);
    let h4 = h3 + be32_bytes(payload.len() as u32);
    assert(h2.len() == 5);
    assert(h3.len() == 5 + 8 * order);
    assert(f =~= h4 + payload);
    assert forall|j: int, t: int| 0 <= j < order && 0 <= t < 8 implies fr[5 + 8 * j + t] == (
    #[trigger] be64_bytes(coeffs[j] as u64)[t]) by {
        assert(fr[5 + 8 * j + t] == f[5 + 8 * j + t]);
        assert(f[5 + 8 * j + t] == (h4 + payload)[5 + 8 * j + t]);
        assert(h4[5 + 8 * j + t] == h3[5 + 8 * j + t]);
        assert(h3[5 + 8 * j + t] == coeff_bytes(coeffs)[8 * j + t]);
    }
    assert(parsed_coeffs(fr, 5, order) =~= coeffs) by {
        assert forall|j: int| 0 <= j < order implies parsed_coeffs(fr, 5, order)[j] == coeffs[j] by {
            lemma_coeff_parse(coeffs[j]);
        }
    }
    assert(fr.take(f.len() as int) =~= f);
    assert(fr.skip(f.len() as int) =~= rest);
    assert(mid.skip(cl) =~= mid.skip(if mid.len() <= bs {
        mid.len() as int
    } else {
        bs
    }));
}

/// Appends the coefficients as eight big-endian bytes each.
fn push_coeffs(out: &mut Vec<u8>, coeffs: &Vec<i64>)
    ensures
        final(out)@ == old(out)@ + coeff_bytes(coeffs@),
{
    let n = coeffs.len();
    let ghost base = out@;
    let mut i: usize = 0;
    while i < n
        invariant
            i <= n == coeffs@.len(),
            out@ == base + coeff_bytes(coeffs@.take(i as int)),
        decreases n - i,
    {
        push_u64_be(out, coeffs[i] as u64);
        proof {
            let taken = coeffs@.take(i as int + 1);
            assert(taken.drop_last() =~= coeffs@.take(i as int));
            assert(taken.last() == coeffs@[i as int]);
            assert(out@ =~= base + coeff_bytes(taken));
        }
        i += 1;
    }
    proof {
        assert(coeffs@.take(n as int) =~= coeffs@);
    }
}

/// Encodes `samples` with the chosen mode into a complete container. The
/// header always carries the magic, version, metadata, and exact sample
/// count; the body is a well-formed block sequence for the whole input.
/// A block whose entropy-coded payload outgrows its 32-bit length prefix
/// is reported rather than framed wrongly.
pub fn encode(
    samples: &Vec<i32>,
    sample_rate: u32,
    channels: u16,
    bits_per_sample: u16,
    mode: Mode,
    order: usize,
    block_size: usize,
    threshold_centi: u32,
) -> (r: Result<Vec<u8>, CodecError>)
    requires
        1 <= block_size <= 0xffff_ffff,
        1 <= order <= 255,
        threshold_centi <= 0xffff,
        samples@.len() < 0x1_0000_0000,
        forall|i: int| 0 <= i < samples@.len() ==> #[trigger] samples@[i] != i32::MIN,
    ensures
        (match r {
            Ok(out) => {
                &&& out@.len() >= 24
                &&& out@.take(24) == header_bytes(
                    version_of(mode),
                    sample_rate,
                    channels,
                    bits_per_sample,
                    samples@.len() as u64,
                )
                &&& (mode == Mode::Lossless ==> v1_parse(out@.skip(24), samples@.len() as int)
                    == Some(samples@))
                &&& (mode == Mode::Elite ==> is_v5_body(
                    out@.skip(24),
                    samples@,
                    order as int,
                    block_size as int,
                ))
                &&& (mode == Mode::Events ==> out@.len() == 32 + 5 * (u32_from_be(
                    out@[28],
                    out@[29],
                    out@[30],
                    out@[31],
                ) as int))
            },
            Err(e) => e == CodecError::BlockTooLarge,
        }),
{
    let mut out: Vec<u8> = Vec::new();
    let version: u32 = match mode {
        Mode::Lossless => 1,
        Mode::Events => 4,
        Mode::Elite => 5,
    };
    out.push(0x4e);
    out.push(0x45);
    out.push(0x55);
    out.push(0x52);
    push_u32_be(&mut out, version);
    push_u32_be(&mut out, sample_rate);
    push_u16_be(&mut out, channels);
    push_u16_be(&mut out, bits_per_sample);
    push_u64_be(&mut out, samples.len() as u64);
    proof {
        assert(out@ =~= header_bytes(
            version_of(mode),
            sample_rate,
            channels,
            bits_per_sample,
            samples@.len() as u64,
        ));
    }
    match mode {
        Mode::Events => {
            let compressor = SpikeCompressor::new(threshold_centi);
            let blob = match compressor.encode(samples) {
                Ok(b) => b,
                Err(e) => {
                    return Err(CodecError::BlockTooLarge);
                },
            };
            let mut t: usize = 0;
            let ghost header = out@;
            while t < blob.len()
                invariant
                    t <= blob@.len(),
                    out@ == header + blob@.take(t as int),
                decreases blob@.len() - t,
            {
                let byte = blob[t];
                out.push(byte);
                proof {
                    assert(out@ =~= header + blob@.take(t as int + 1));
                }
                t += 1;
            }
            proof {
                assert(blob@.take(blob@.len() as int) =~= blob@);
                assert(out@ =~= header + blob@);
                assert(out@.take(24) =~= header);
                assert(out@[28] == blob@[4] && out@[29] == blob@[5] && out@[30] == blob@[6]
                    && out@[31] == blob@[7]);
            }
            Ok(out)
        },
        Mode::Lossless => {
            match encode_v1_body(&mut out, samples, order, block_size) {
                Ok(()) => Ok(out),
                Err(e) => Err(e),
            }
        },
        Mode::Elite => {
            match encode_v5_body(&mut out, samples, order, block_size) {
                Ok(()) => Ok(out),
                Err(e) => Err(e),
            }
        },
    }
}


/// Writing one more frame extends the parse of the body by its chunk.
#[verifier::rlimit(100)]
proof fn lemma_v1_closure_step(
    base: Seq<u8>,
    outpre: Seq<u8>,
    outnew: Seq<u8>,
    samples: Seq<i32>,
    chunk: Seq<i32>,
    coeffs: Seq<i64>,
    k: nat,
    start: int,
    cl: int,
)
    requires
        0 <= start,
        1 <= cl <= 0xffff_ffff,
        start + cl <= samples.len(),
        base.is_prefix_of(outpre),
        chunk == samples.skip(start).take(cl),
        coeffs.len() <= 255,
        k <= 15,
        forall|i: int|
            0 <= i < chunk.len() ==> #[trigger] residuals_spec(chunk, coeffs)[i] != i32::MIN,
        rice_encoded_bytes(residuals_spec(chunk, coeffs), k).len() <= 0xffff_ffff,
        outnew == outpre + v1_frame(chunk, coeffs, k),
        forall|rest: Seq<u8>|
            (#[trigger] v1_parse(rest, samples.len() - start)) is Some ==> v1_parse(
                outpre.skip(base.len() as int) + rest,
                samples.len() as int,
            ) == parse_extend(samples.take(start), v1_parse(rest, samples.len() - start)),
    ensures
        base.is_prefix_of(outnew),
        forall|rest: Seq<u8>|
            (#[trigger] v1_parse(rest, samples.len() - (start + cl))) is Some ==> v1_parse(
                outnew.skip(base.len() as int) + rest,
                samples.len() as int,
            ) == parse_extend(
                samples.take(start + cl),
                v1_parse(rest, samples.len() - (start + cl)),
            ),
{
    let f = v1_frame(chunk, coeffs, k);
    let n = samples.len() as int;
    let start2 = start + cl;
    assert forall|rest: Seq<u8>| (#[trigger] v1_parse(rest, n - start2)) is Some implies v1_parse(
        outnew.skip(base.len() as int) + rest,
        n,
    ) == parse_extend(samples.take(start2), v1_parse(rest, n - start2)) by {
        lemma_v1_frame_step(f + rest, chunk, coeffs, k, rest, n - start);
        assert(v1_parse(f + rest, n - start) == parse_extend(chunk, v1_parse(rest, n - start2)));
        assert(v1_parse(f + rest, n - start) is Some);
        assert(v1_parse(outpre.skip(base.len() as int) + (f + rest), n) == parse_extend(
            samples.take(start),
            v1_parse(f + rest, n - start),
        ));
        assert(outnew.skip(base.len() as int) + rest =~= outpre.skip(base.len() as int) + (f
            + rest));
        lemma_parse_extend_assoc(samples.take(start), chunk, v1_parse(rest, n - start2));
        assert(samples.take(start) + chunk =~= samples.take(start2));
    }
}

/// Appends the version-1 block frames for `samples`, chunk by chunk, so
/// that parsing them back yields exactly `samples`. A block whose
/// residuals cannot survive the round trip keeps its samples verbatim
/// under zero coefficients.
#[verifier::rlimit(100)]
fn encode_v1_body(out: &mut Vec<u8>, samples: &Vec<i32>, order: usize, block_size: usize) -> (r:
    Result<(), CodecError>)
    requires
        1 <= block_size <= 0xffff_ffff,
        1 <= order <= 255,
        samples@.len() < 0x1_0000_0000,
        forall|i: int| 0 <= i < samples@.len() ==> #[trigger] samples@[i] != i32::MIN,
    ensures
        (match r {
            Ok(()) => old(out)@.is_prefix_of(final(out)@) && v1_parse(
                final(out)@.skip(old(out)@.len() as int),
                samples@.len() as int,
            ) == Some(samples@),
            Err(e) => e == CodecError::BlockTooLarge,
        }),
{
    let n = samples.len();
    let mut start: usize = 0;
    let ghost base = out@;
    proof {
        assert forall|rest: Seq<u8>|
            (#[trigger] v1_parse(rest, n as int - 0)) is Some implies v1_parse(
            out@.skip(base.len() as int) + rest,
            n as int,
        ) == parse_extend(samples@.take(0), v1_parse(rest, n as int - 0)) by {
            assert(out@.skip(base.len() as int) + rest =~= rest);
            match v1_parse(rest, n as int) {
                Some(x) => {
                    assert(samples@.take(0) + x =~= x);
                },
                None => {},
            }
        }
    }
    while start < n
        invariant
            start <= n == samples@.len() < 0x1_0000_0000,
            1 <= block_size <= 0xffff_ffff,
            1 <= order <= 255,
            forall|i: int| 0 <= i < samples@.len() ==> #[trigger] samples@[i] != i32::MIN,
            base.is_prefix_of(out@),
            forall|rest: Seq<u8>|
                (#[trigger] v1_parse(rest, n as int - start as int)) is Some ==> v1_parse(
                    out@.skip(base.len() as int) + rest,
                    n as int,
                ) == parse_extend(
                    samples@.take(start as int),
                    v1_parse(rest, n as int - start as int),
                ),
        decreases n - start,
    {
        let cl = if n - start > block_size {
            block_size
        } else {
            n - start
        };
        let mut chunk: Vec<i32> = Vec::new();
        let mut t: usize = 0;
        while t < cl
            invariant
                t <= cl,
                start + cl <= n == samples@.len(),
                chunk@ == samples@.subrange(start as int, start as int + t as int),
            decreases cl - t,
        {
            let v = samples[start + t];
            chunk.push(v);
            proof {
                assert(chunk@ =~= samples@.subrange(start as int, start as int + t as int + 1));
            }
            t += 1;
        }
        proof {
            assert(chunk@ =~= samples@.skip(start as int).take(cl as int));
            assert(forall|i: int| 0 <= i < chunk@.len() ==> #[trigger] chunk@[i] != i32::MIN);
        }
        let autoc = autocorrelation(&chunk, order);
        let mut coeffs = levinson_durbin(&autoc, order);
        let mut residuals = compute_residuals(&chunk, &coeffs);
        // a residual at the very bottom of the range cannot round-trip
        // through the ZigZag map; such a block keeps its samples verbatim
        let mut fits = true;
        let mut ci: usize = 0;
        while ci < residuals.len()
            invariant
                ci <= residuals@.len(),
                fits ==> forall|t2: int| 0 <= t2 < ci ==> #[trigger] residuals@[t2] != i32::MIN,
            decreases residuals@.len() - ci,
        {
            let v = residuals[ci];
            if v == i32::MIN {
                fits = false;
            }
            ci += 1;
        }
        if !fits {
            let mut zero_coeffs: Vec<i64> = Vec::new();
            let mut zi: usize = 0;
            while zi < order
                invariant
                    zi <= order <= 255,
                    zero_coeffs@.len() == zi,
                    forall|t2: int| 0 <= t2 < zi ==> #[trigger] zero_coeffs@[t2] == 0,
                decreases order - zi,
            {
                zero_coeffs.push(0);
                zi += 1;
            }
            coeffs = zero_coeffs;
            residuals = compute_residuals(&chunk, &coeffs);
            proof {
                crate::lpc::lemma_residuals_zero_coeffs(chunk@, coeffs@);
            }
        }
        proof {
            assert(forall|i: int|
                0 <= i < chunk@.len() ==> #[trigger] residuals_spec(chunk@, coeffs@)[i]
                    != i32::MIN);
        }
        let k = rice_param(&residuals);
        let payload = match encode_rice(&residuals, k) {
            Ok(p) => p,
            Err(e) => {
                return Err(CodecError::BlockTooLarge);
            },
        };
        if payload.len() > 0xffff_ffff {
            return Err(CodecError::BlockTooLarge);
        }
        let ghost outpre = out@;
        push_u32_be(out, cl as u32);
        out.push(order as u8);
        out.push(k as u8);
        push_coeffs(out, &coeffs);
        push_u32_be(out, payload.len() as u32);
        let mut t2: usize = 0;
        let ghost prepay = out@;
        while t2 < payload.len()
            invariant
                t2 <= payload@.len(),
                out@ == prepay + payload@.take(t2 as int),
            decreases payload@.len() - t2,
        {
            let byte = payload[t2];
            out.push(byte);
            proof {
                assert(out@ =~= prepay + payload@.take(t2 as int + 1));
            }
            t2 += 1;
        }
        proof {
            assert(payload@.take(payload@.len() as int) =~= payload@);
            reveal(v1_frame);
            let f = v1_frame(chunk@, coeffs@, k as nat);
            assert(out@ =~= outpre + f);
            lemma_v1_closure_step(
                base,
                outpre,
                out@,
                samples@,
                chunk@,
                coeffs@,
                k as nat,
                start as int,
                cl as int,
            );
        }
        start = start + cl;
    }
    proof {
        assert(start == n);
        assert(v1_parse(Seq::<u8>::empty(), n as int - start as int) == Some(Seq::<i32>::empty()));
        assert((v1_parse(Seq::<u8>::empty(), n as int - start as int)) is Some);
        assert(v1_parse(out@.skip(base.len() as int) + Seq::<u8>::empty(), n as int)
            == parse_extend(
            samples@.take(n as int),
            v1_parse(Seq::<u8>::empty(), n as int - start as int),
        ));
        assert(out@.skip(base.len() as int) + Seq::<u8>::empty() =~= out@.skip(
            base.len() as int,
        ));
        assert(samples@.take(n as int) =~= samples@);
        assert(samples@ + Seq::<i32>::empty() =~= samples@);
    }
    Ok(())
}


/// Writing one more elite frame keeps the body well formed.
#[verifier::rlimit(100)]
proof fn lemma_v5_closure_step(
    base: Seq<u8>,
    outpre: Seq<u8>,
    outnew: Seq<u8>,
    samples: Seq<i32>,
    chunk: Seq<i32>,
    coeffs: Seq<i64>,
    start: int,
    cl: int,
    order: int,
    bs: int,
)
    requires
        0 <= start,
        1 <= bs,
        1 <= cl,
        start + cl <= samples.len(),
        cl == (if samples.len() - start <= bs {
            samples.len() - start
        } else {
            bs
        }),
        base.is_prefix_of(outpre),
        chunk == samples.skip(start).take(cl),
        coeffs.len() == order <= 255,
        outnew == outpre + v5_frame(chunk, coeffs),
        forall|rest: Seq<u8>|
            #[trigger] is_v5_body(rest, samples.skip(start), order, bs) ==> is_v5_body(
                outpre.skip(base.len() as int) + rest,
                samples,
                order,
                bs,
            ),
    ensures
        base.is_prefix_of(outnew),
        forall|rest: Seq<u8>|
            #[trigger] is_v5_body(rest, samples.skip(start + cl), order, bs) ==> is_v5_body(
                outnew.skip(base.len() as int) + rest,
                samples,
                order,
                bs,
            ),
{
    let f = v5_frame(chunk, coeffs);
    assert forall|rest: Seq<u8>|
        #[trigger] is_v5_body(rest, samples.skip(start + cl), order, bs) implies is_v5_body(
        outnew.skip(base.len() as int) + rest,
        samples,
        order,
        bs,
    ) by {
        let mid = samples.skip(start);
        assert(mid.len() >= 1);
        assert(mid.take(if mid.len() <= bs {
            mid.len() as int
        } else {
            bs
        }) == chunk);
        assert(mid.skip(if mid.len() <= bs {
            mid.len() as int
        } else {
            bs
        }) =~= samples.skip(start + cl));
        lemma_v5_frame_step(f + rest, mid, chunk, coeffs, rest, order, bs);
        assert(is_v5_body(f + rest, mid, order, bs));
        assert(is_v5_body(outpre.skip(base.len() as int) + (f + rest), samples, order, bs));
        assert(outnew.skip(base.len() as int) + rest =~= outpre.skip(base.len() as int) + (f
            + rest));
    }
}

/// Appends the version-5 block frames for `samples`, chunk by chunk,
/// leaving a well-formed elite body: each frame carries its coefficients
/// and the exact rANS coding of its serialized sparse residuals. A block
/// whose residuals leave the serializer's sixteen-bit range keeps its
/// samples verbatim under zero coefficients.
#[verifier::rlimit(100)]
fn encode_v5_body(out: &mut Vec<u8>, samples: &Vec<i32>, order: usize, block_size: usize) -> (r:
    Result<(), CodecError>)
    requires
        1 <= block_size <= 0xffff_ffff,
        1 <= order <= 255,
        samples@.len() < 0x1_0000_0000,
    ensures
        (match r {
            Ok(()) => old(out)@.is_prefix_of(final(out)@) && is_v5_body(
                final(out)@.skip(old(out)@.len() as int),
                samples@,
                order as int,
                block_size as int,
            ),
            Err(e) => e == CodecError::BlockTooLarge,
        }),
{
    let n = samples.len();
    let mut start: usize = 0;
    let ghost base = out@;
    proof {
        assert forall|rest: Seq<u8>|
            #[trigger] is_v5_body(rest, samples@.skip(0), order as int, block_size as int)
                implies is_v5_body(
            out@.skip(base.len() as int) + rest,
            samples@,
            order as int,
            block_size as int,
        ) by {
            assert(samples@.skip(0) =~= samples@);
            assert(out@.skip(base.len() as int) + rest =~= rest);
        }
    }
    while start < n
        invariant
            start <= n == samples@.len() < 0x1_0000_0000,
            1 <= block_size <= 0xffff_ffff,
            1 <= order <= 255,
            base.is_prefix_of(out@),
            forall|rest: Seq<u8>|
                #[trigger] is_v5_body(rest, samples@.skip(start as int), order as int,
                    block_size as int) ==> is_v5_body(
                    out@.skip(base.len() as int) + rest,
                    samples@,
                    order as int,
                    block_size as int,
                ),
        decreases n - start,
    {
        let cl = if n - start > block_size {
            block_size
        } else {
            n - start
        };
        let mut chunk: Vec<i32> = Vec::new();
        let mut t: usize = 0;
        while t < cl
            invariant
                t <= cl,
                start + cl <= n == samples@.len(),
                chunk@ == samples@.subrange(start as int, start as int + t as int),
            decreases cl - t,
        {
            let v = samples[start + t];
            chunk.push(v);
            proof {
                assert(chunk@ =~= samples@.subrange(start as int, start as int + t as int + 1));
            }
            t += 1;
        }
        proof {
            assert(chunk@ =~= samples@.skip(start as int).take(cl as int));
        }
        let autoc = autocorrelation(&chunk, order);
        let mut coeffs = levinson_durbin(&autoc, order);
        let mut residuals = compute_residuals(&chunk, &coeffs);
        // the serializer carries sixteen-bit ZigZag values; a block whose
        // residuals leave that range keeps its samples verbatim instead,
        // under all-zero coefficients
        let mut fits = true;
        let mut ci: usize = 0;
        while ci < residuals.len()
            invariant
                ci <= residuals@.len(),
            decreases residuals@.len() - ci,
        {
            let v = residuals[ci];
            if v < -0x8000 || v > 0x7fff {
                fits = false;
            }
            ci += 1;
        }
        if !fits {
            let mut zero_coeffs: Vec<i64> = Vec::new();
            let mut zi: usize = 0;
            while zi < order
                invariant
                    zi <= order <= 255,
                    zero_coeffs@.len() == zi,
                decreases order - zi,
            {
                zero_coeffs.push(0);
                zi += 1;
            }
            coeffs = zero_coeffs;
            residuals = compute_residuals(&chunk, &coeffs);
        }
        let sparse = SparseEncoder::encode(&residuals);
        proof {
            crate::sparse::lemma_sparse_lens(residuals@);
        }
        let blob = SimdOps::serialize(&sparse);
        let payload = match RansCoder::encode(&blob) {
            Ok(p) => p,
            Err(e) => {
                return Err(CodecError::BlockTooLarge);
            },
        };
        if payload.len() > 0xffff_ffff {
            return Err(CodecError::BlockTooLarge);
        }
        proof {
            assert(residuals@ =~= residuals_spec(chunk@, coeffs@));
            assert(blob@.len() >= 8);
            reveal(v5_payload);
            assert(payload@ == v5_payload(chunk@, coeffs@));
        }
        let ghost outpre = out@;
        push_u32_be(out, cl as u32);
        out.push(order as u8);
        push_coeffs(out, &coeffs);
        push_u32_be(out, payload.len() as u32);
        let mut t2: usize = 0;
        let ghost prepay = out@;
        while t2 < payload.len()
            invariant
                t2 <= payload@.len(),
                out@ == prepay + payload@.take(t2 as int),
            decreases payload@.len() - t2,
        {
            let byte = payload[t2];
            out.push(byte);
            proof {
                assert(out@ =~= prepay + payload@.take(t2 as int + 1));
            }
            t2 += 1;
        }
        proof {
            assert(payload@.take(payload@.len() as int) =~= payload@);
            assert(out@ =~= outpre + v5_frame(chunk@, coeffs@));
            lemma_v5_closure_step(
                base,
                outpre,
                out@,
                samples@,
                chunk@,
                coeffs@,
                start as int,
                cl as int,
                order as int,
                block_size as int,
            );
        }
        start = start + cl;
    }
    proof {
        assert(samples@.skip(n as int) =~= Seq::<i32>::empty());
        assert(is_v5_body(Seq::<u8>::empty(), samples@.skip(start as int), order as int,
            block_size as int));
        assert(is_v5_body(
            out@.skip(base.len() as int) + Seq::<u8>::empty(),
            samples@,
            order as int,
            block_size as int,
        ));
        assert(out@.skip(base.len() as int) + Seq::<u8>::empty() =~= out@.skip(
            base.len() as int,
        ));
    }
    Ok(())
}

/// Reads one version-1 block frame at `pos`, and hands back the restored
/// samples, the position after the frame, and the declared sample count.
/// On failure, the version-1 parse of the bytes at `pos` yields nothing.
#[verifier::rlimit(100)]
fn parse_block_v1(data: &Vec<u8>, pos: usize, rem: Ghost<int>) -> (res: Result<
    (Vec<i32>, usize, u32),
    CodecError,
>)
    requires
        24 <= pos <= data@.len(),
        rem@ > 0,
    ensures
        (match res {
            Ok(step) => {
                &&& pos < step.1 <= data@.len()
                &&& v1_parse(data@.skip(pos as int), rem@) == parse_extend(
                    step.0@,
                    v1_parse(data@.skip(step.1 as int), rem@ - step.2 as int),
                )
            },
            Err(_) => v1_parse(data@.skip(pos as int), rem@) is None,
        }),
{
    let n = data.len();
    let ghost bcur = data@.skip(pos as int);
    let ghost remi = rem@;
    let prefix: usize = 6;
    if n - pos < prefix {
        proof {
            assert(v1_parse(bcur, remi) == None::<Seq<i32>>);
        }
        return Err(CodecError::Truncated);
    }
    let block_size = read_u32_be(data, pos);
    let order = data[pos + 4] as usize;
    proof {
        assert(bcur[0] == data@[pos as int]);
        assert(bcur[1] == data@[pos as int + 1]);
        assert(bcur[2] == data@[pos as int + 2]);
        assert(bcur[3] == data@[pos as int + 3]);
        assert(bcur[4] == data@[pos as int + 4]);
    }
    let k: u32 = data[pos + 5] as u32;
    if k > 15 {
        proof {
            assert(bcur[5] == data@[pos as int + 5]);
            assert(v1_parse(bcur, remi) == None::<Seq<i32>>);
        }
        return Err(CodecError::Truncated);
    }
    let mut here = pos + prefix;
    if n - here < 8 * order {
        proof {
            assert(v1_parse(bcur, remi) == None::<Seq<i32>>);
        }
        return Err(CodecError::Truncated);
    }
    let mut coeffs: Vec<i64> = Vec::new();
    let mut c: usize = 0;
    while c < order
        invariant
            c <= order <= 255,
            24 <= pos,
            pos + prefix == here,
            prefix == 6,
            here + 8 * order <= n == data@.len(),
            coeffs@.len() == c,
            forall|j: int|
                0 <= j < c ==> coeffs@[j] == u64_from_be(
                    data@[here + 8 * j],
                    data@[here + 8 * j + 1],
                    data@[here + 8 * j + 2],
                    data@[here + 8 * j + 3],
                    data@[here + 8 * j + 4],
                    data@[here + 8 * j + 5],
                    data@[here + 8 * j + 6],
                    data@[here + 8 * j + 7],
                ) as i64,
        decreases order - c,
    {
        let v = read_u64_be(data, here + 8 * c);
        coeffs.push(v as i64);
        c += 1;
    }
    proof {
        assert(coeffs@ =~= parsed_coeffs(bcur, prefix as int, order as int));
    }
    here = here + 8 * order;
    if n - here < 4 {
        proof {
            assert(v1_parse(bcur, remi) == None::<Seq<i32>>);
        }
        return Err(CodecError::Truncated);
    }
    let data_len = read_u32_be(data, here) as usize;
    here = here + 4;
    if n - here < data_len {
        proof {
            assert(v1_parse(bcur, remi) == None::<Seq<i32>>);
        }
        return Err(CodecError::Truncated);
    }
    let mut payload: Vec<u8> = Vec::new();
    let mut t: usize = 0;
    while t < data_len
        invariant
            t <= data_len,
            here + data_len <= n == data@.len(),
            payload@.len() == t,
            forall|i: int| 0 <= i < payload@.len() ==> payload@[i] == data@[here + i],
        decreases data_len - t,
    {
        let b = data[here + t];
        payload.push(b);
        t += 1;
    }
    proof {
        assert(payload@ =~= bcur.subrange(
            prefix + 8 * order as int + 4,
            prefix + 8 * order as int + 4 + data_len as int,
        ));
    }
    here = here + data_len;
    let restored: Vec<i32>;
    let residuals = match decode_rice(&payload, block_size as usize, k) {
        Ok(rs) => rs,
        Err(e) => {
            proof {
                assert(v1_parse(bcur, remi) == None::<Seq<i32>>);
            }
            return Err(e);
        },
    };
    restored = restore_signal(&residuals, &coeffs);
    proof {
        assert(data@.skip(here as int) =~= bcur.skip(
            prefix + 8 * order as int + 4 + data_len as int,
        ));
        assert(v1_parse(bcur, remi) == parse_extend(
            restored@,
            v1_parse(data@.skip(here as int), remi - block_size as int),
        ));
    }
    Ok((restored, here, block_size))
}

/// Reads one version-5 block frame at `pos`, and hands back the restored
/// samples, the position after the frame, and the declared sample count.
/// On failure, the version-5 parse of the bytes at `pos` yields nothing.
#[verifier::rlimit(100)]
fn parse_block_v5(data: &Vec<u8>, pos: usize, rem: Ghost<int>) -> (res: Result<
    (Vec<i32>, usize, u32),
    CodecError,
>)
    requires
        24 <= pos <= data@.len(),
        rem@ > 0,
    ensures
        (match res {
            Ok(step) => {
                &&& pos < step.1 <= data@.len()
                &&& v5_parse(data@.skip(pos as int), rem@) == parse_extend(
                    step.0@,
                    v5_parse(data@.skip(step.1 as int), rem@ - step.2 as int),
                )
            },
            Err(_) => v5_parse(data@.skip(pos as int), rem@) is None,
        }),
{
    let n = data.len();
    let ghost bcur = data@.skip(pos as int);
    let ghost remi = rem@;
    let prefix: usize = 5;
    if n - pos < prefix {
        proof {
            assert(v5_parse(bcur, remi) == None::<Seq<i32>>);
        }
        return Err(CodecError::Truncated);
    }
    let block_size = read_u32_be(data, pos);
    let order = data[pos + 4] as usize;
    proof {
        assert(bcur[0] == data@[pos as int]);
        assert(bcur[1] == data@[pos as int + 1]);
        assert(bcur[2] == data@[pos as int + 2]);
        assert(bcur[3] == data@[pos as int + 3]);
        assert(bcur[4] == data@[pos as int + 4]);
    }
    let mut here = pos + prefix;
    if n - here < 8 * order {
        proof {
            assert(v5_parse(bcur, remi) == None::<Seq<i32>>);
        }
        return Err(CodecError::Truncated);
    }
    let mut coeffs: Vec<i64> = Vec::new();
    let mut c: usize = 0;
    while c < order
        invariant
            c <= order <= 255,
            24 <= pos,
            pos + prefix == here,
            prefix == 5,
            here + 8 * order <= n == data@.len(),
            coeffs@.len() == c,
            forall|j: int|
                0 <= j < c ==> coeffs@[j] == u64_from_be(
                    data@[here + 8 * j],
                    data@[here + 8 * j + 1],
                    data@[here + 8 * j + 2],
                    data@[here + 8 * j + 3],
                    data@[here + 8 * j + 4],
                    data@[here + 8 * j + 5],
                    data@[here + 8 * j + 6],
                    data@[here + 8 * j + 7],
                ) as i64,
        decreases order - c,
    {
        let v = read_u64_be(data, here + 8 * c);
        coeffs.push(v as i64);
        c += 1;
    }
    proof {
        assert(coeffs@ =~= parsed_coeffs(bcur, prefix as int, order as int));
    }
    here = here + 8 * order;
    if n - here < 4 {
        proof {
            assert(v5_parse(bcur, remi) == None::<Seq<i32>>);
        }
        return Err(CodecError::Truncated);
    }
    let data_len = read_u32_be(data, here) as usize;
    here = here + 4;
    if n - here < data_len {
        proof {
            assert(v5_parse(bcur, remi) == None::<Seq<i32>>);
        }
        return Err(CodecError::Truncated);
    }
    let mut payload: Vec<u8> = Vec::new();
    let mut t: usize = 0;
    while t < data_len
        invariant
            t <= data_len,
            here + data_len <= n == data@.len(),
            payload@.len() == t,
            forall|i: int| 0 <= i < payload@.len() ==> payload@[i] == data@[here + i],
        decreases data_len - t,
    {
        let b = data[here + t];
        payload.push(b);
        t += 1;
    }
    proof {
        assert(payload@ =~= bcur.subrange(
            prefix + 8 * order as int + 4,
            prefix + 8 * order as int + 4 + data_len as int,
        ));
    }
    here = here + data_len;
    let restored: Vec<i32>;
    let blob = match RansCoder::decode(&payload, 0) {
        Ok(b) => b,
        Err(e) => {
            proof {
                assert(rans_sentinel_parse(payload@) is None);
                assert(v5_parse(bcur, remi) == None::<Seq<i32>>);
            }
            return Err(e);
        },
    };
    proof {
        assert(rans_sentinel_parse(payload@) == Some(blob@));
    }
    if blob.len() < 8 {
        proof {
            assert(blob_parse(blob@) is None);
            assert(v5_parse(bcur, remi) == None::<Seq<i32>>);
        }
        return Err(CodecError::Truncated);
    }
    let count = read_u32_be(&blob, 4) as usize;
    if count > (usize::MAX - 8) / 6 || 8 + 6 * count > blob.len() {
        proof {
            assert(blob_parse(blob@) is None);
            assert(v5_parse(bcur, remi) == None::<Seq<i32>>);
        }
        return Err(CodecError::Truncated);
    }
    let sparse = SimdOps::deserialize(&blob);
    let residuals = SparseEncoder::decode(&sparse);
    proof {
        assert(sparse.values@ =~= Seq::new(count as nat, |i: int| unzigzag_spec(
            u16_from_be(blob@[8 + 2 * i], blob@[9 + 2 * i]) as u32,
        )));
        assert(sparse.indices@ =~= Seq::new(count as nat, |i: int| u32_from_be(
            blob@[8 + 2 * count + 4 * i],
            blob@[9 + 2 * count + 4 * i],
            blob@[10 + 2 * count + 4 * i],
            blob@[11 + 2 * count + 4 * i],
        )));
        assert(blob_parse(blob@) == Some(residuals@));
    }
    restored = restore_signal(&residuals, &coeffs);
    proof {
        assert(data@.skip(here as int) =~= bcur.skip(
            prefix + 8 * order as int + 4 + data_len as int,
        ));
        assert(v5_parse(bcur, remi) == parse_extend(
            restored@,
            v5_parse(data@.skip(here as int), remi - block_size as int),
        ));
    }
    Ok((restored, here, block_size))
}

/// Distributing a decoded prefix over a parse outcome.
proof fn lemma_parse_extend_assoc(a: Seq<i32>, b: Seq<i32>, rest: Option<Seq<i32>>)
    ensures
        parse_extend(a, parse_extend(b, rest)) == parse_extend(a + b, rest),
{
    match rest {
        Some(r) => {
            assert(a + (b + r) =~= (a + b) + r);
        },
        None => {},
    }
}

/// Splits the container into header and body, dispatches on the version,
/// and rebuilds the sample stream. A short input is truncated, a wrong
/// magic or unknown version rejected; the metadata comes back exactly as
/// stored; a body its version's parse accepts is decoded successfully,
/// and the samples equal exactly what that parse yields.
#[verifier::rlimit(100)]
pub fn decode(data: &Vec<u8>) -> (r: Result<Decoded, CodecError>)
    ensures
        data@.len() < 24 ==> r == Err::<Decoded, CodecError>(CodecError::Truncated),
        data@.len() >= 24 && !(data@[0] == 0x4e && data@[1] == 0x45 && data@[2] == 0x55 && data@[3]
            == 0x52) ==> r == Err::<Decoded, CodecError>(CodecError::BadMagic),
        data@.len() >= 24 && (data@[0] == 0x4e && data@[1] == 0x45 && data@[2] == 0x55 && data@[3]
            == 0x52) && !(u32_from_be(data@[4], data@[5], data@[6], data@[7]) == 1 || u32_from_be(
            data@[4],
            data@[5],
            data@[6],
            data@[7],
        ) == 4 || u32_from_be(data@[4], data@[5], data@[6], data@[7]) == 5) ==> r == Err::<
            Decoded,
            CodecError,
        >(CodecError::BadVersion),
        ({
            let ver = u32_from_be(data@[4], data@[5], data@[6], data@[7]);
            let total = u64_from_be(
                data@[16],
                data@[17],
                data@[18],
                data@[19],
                data@[20],
                data@[21],
                data@[22],
                data@[23],
            );
            let body = data@.skip(24);
            data@.len() >= 24 && data@[0] == 0x4e && data@[1] == 0x45 && data@[2] == 0x55
                && data@[3] == 0x52 ==> {
                &&& (ver == 1 && v1_parse(body, total as int) is Some ==> r is Ok)
                &&& (ver == 5 && v5_parse(body, total as int) is Some ==> r is Ok)
                &&& (ver == 4 && total <= 0xffff_ffff && body.len() >= 8 && 8 + 5 * (u32_from_be(
                    body[4],
                    body[5],
                    body[6],
                    body[7],
                ) as int) <= body.len() ==> r is Ok)
            }
        }),
        (match r {
            Ok(d) => {
                &&& data@.len() >= 24
                &&& d.version == u32_from_be(data@[4], data@[5], data@[6], data@[7])
                &&& (d.version == 1 || d.version == 4 || d.version == 5)
                &&& d.sample_rate == u32_from_be(data@[8], data@[9], data@[10], data@[11])
                &&& d.channels == u16_from_be(data@[12], data@[13])
                &&& d.bits_per_sample == u16_from_be(data@[14], data@[15])
                &&& d.total_samples == u64_from_be(
                    data@[16],
                    data@[17],
                    data@[18],
                    data@[19],
                    data@[20],
                    data@[21],
                    data@[22],
                    data@[23],
                )
                &&& (d.version == 1 ==> v1_parse(data@.skip(24), d.total_samples as int) == Some(
                    d.samples@,
                ))
                &&& (d.version == 5 ==> v5_parse(data@.skip(24), d.total_samples as int) == Some(
                    d.samples@,
                ))
                &&& (d.version == 4 ==> d.samples@ == crate::spike::spike_replay(
                    data@.skip(24),
                    d.total_samples as nat,
                ) && d.samples@.len() == d.total_samples)
            },
            Err(_) => true,
        }),
{
    let n = data.len();
    if n < 24 {
        return Err(CodecError::Truncated);
    }
    if !(data[0] == 0x4e && data[1] == 0x45 && data[2] == 0x55 && data[3] == 0x52) {
        return Err(CodecError::BadMagic);
    }
    let version = read_u32_be(data, 4);
    let sample_rate = read_u32_be(data, 8);
    let channels = read_u16_be(data, 12);
    let bits_per_sample = read_u16_be(data, 14);
    let total_samples = read_u64_be(data, 16);
    if !(version == 1 || version == 4 || version == 5) {
        return Err(CodecError::BadVersion);
    }
    let ghost body = data@.skip(24);
    let mut samples: Vec<i32> = Vec::new();
    if version == 4 {
        if total_samples > 0xffff_ffff {
            return Err(CodecError::Truncated);
        }
        let mut blob: Vec<u8> = Vec::new();
        let mut t: usize = 24;
        while t < n
            invariant
                24 <= t <= n == data@.len(),
                blob@.len() == t - 24,
                forall|i: int| 0 <= i < blob@.len() ==> blob@[i] == data@[24 + i],
            decreases n - t,
        {
            let b = data[t];
            blob.push(b);
            t += 1;
        }
        proof {
            assert(blob@ =~= body);
        }
        let compressor = SpikeCompressor::new(400);
        match compressor.decode(&blob, total_samples as usize) {
            Ok(out) => {
                samples = out;
            },
            Err(e) => {
                return Err(e);
            },
        }
        return Ok(Decoded { sample_rate, channels, bits_per_sample, total_samples, version, samples });
    }
    let mut pos: usize = 24;
    let mut samples_read: u128 = 0;
    proof {
        match v1_parse(body, total_samples as int) {
            Some(r0) => {
                assert(Seq::<i32>::empty() + r0 =~= r0);
            },
            None => {},
        }
        match v5_parse(body, total_samples as int) {
            Some(r0) => {
                assert(Seq::<i32>::empty() + r0 =~= r0);
            },
            None => {},
        }
        assert(data@.skip(24) == body);
    }
    while samples_read < total_samples as u128
        invariant
            24 <= pos <= n == data@.len(),
            version == 1 || version == 5,
            data@[0] == 0x4e && data@[1] == 0x45 && data@[2] == 0x55 && data@[3] == 0x52,
            version == u32_from_be(data@[4], data@[5], data@[6], data@[7]),
            sample_rate == u32_from_be(data@[8], data@[9], data@[10], data@[11]),
            channels == u16_from_be(data@[12], data@[13]),
            bits_per_sample == u16_from_be(data@[14], data@[15]),
            total_samples == u64_from_be(
                data@[16],
                data@[17],
                data@[18],
                data@[19],
                data@[20],
                data@[21],
                data@[22],
                data@[23],
            ),
            body == data@.skip(24),
            version == 1 ==> v1_parse(body, total_samples as int) == parse_extend(
                samples@,
                v1_parse(data@.skip(pos as int), total_samples as int - samples_read),
            ),
            version == 5 ==> v5_parse(body, total_samples as int) == parse_extend(
                samples@,
                v5_parse(data@.skip(pos as int), total_samples as int - samples_read),
            ),
        decreases n - pos,
    {
        let ghost rem = total_samples as int - samples_read;
        let step = if version == 1 {
            match parse_block_v1(data, pos, Ghost(rem)) {
                Ok(st) => st,
                Err(e) => {
                    return Err(e);
                },
            }
        } else {
            match parse_block_v5(data, pos, Ghost(rem)) {
                Ok(st) => st,
                Err(e) => {
                    return Err(e);
                },
            }
        };
        let (restored, newpos, block_size) = step;
        let ghost presamples = samples@;
        let mut t2: usize = 0;
        let rl = restored.len();
        while t2 < rl
            invariant
                t2 <= rl == restored@.len(),
                samples@ == presamples + restored@.take(t2 as int),
            decreases rl - t2,
        {
            let v = restored[t2];
            samples.push(v);
            proof {
                assert(samples@ =~= presamples + restored@.take(t2 as int + 1));
            }
            t2 += 1;
        }
        proof {
            assert(restored@.take(rl as int) =~= restored@);
            let sub = if version == 1 {
                v1_parse(data@.skip(newpos as int), rem - block_size as int)
            } else {
                v5_parse(data@.skip(newpos as int), rem - block_size as int)
            };
            lemma_parse_extend_assoc(presamples, restored@, sub);
        }
        samples_read = samples_read + block_size as u128;
        pos = newpos;
    }
    proof {
        assert(v1_parse(data@.skip(pos as int), total_samples as int - samples_read) == Some(
            Seq::<i32>::empty(),
        ));
        assert(v5_parse(data@.skip(pos as int), total_samples as int - samples_read) == Some(
            Seq::<i32>::empty(),
        ));
        assert(samples@ + Seq::<i32>::empty() =~= samples@);
    }
    Ok(Decoded { sample_rate, channels, bits_per_sample, total_samples, version, samples })
}

} // verus!
