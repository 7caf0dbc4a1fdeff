//! Stage-level behavior: the entropy coders, the sparse representation,
//! the serializer, the predictor, and the error paths.

use neur::coder::{decode_rice, encode_rice, unzigzag, zigzag};
use neur::container::decode;
use neur::errors::CodecError;
use neur::lpc::{autocorrelation, compute_residuals, levinson_durbin, restore_signal};
use neur::rans::RansCoder;
use neur::simd_ops::SimdOps;
use neur::sparse::{SparseData, SparseEncoder};
use neur::spike::SpikeCompressor;

#[test]
fn rice_small_roundtrip() {
    let residuals = vec![0i32, 1, -1, 2, -2];
    let bytes = encode_rice(&residuals, 0).unwrap();
    let back = decode_rice(&bytes, 5, 0).unwrap();
    assert_eq!(back, residuals);
}

#[test]
fn rice_roundtrip_across_parameters() {
    let residuals: Vec<i32> = (-60..60).map(|v| v * 17).collect();
    for k in 0..16u32 {
        let bytes = encode_rice(&residuals, k).unwrap();
        let back = decode_rice(&bytes, residuals.len(), k).unwrap();
        assert_eq!(back, residuals);
    }
}

#[test]
fn rice_large_magnitudes_roundtrip() {
    let residuals = vec![1 << 20, -(1 << 20), (1 << 20) - 3];
    let bytes = encode_rice(&residuals, 15).unwrap();
    let back = decode_rice(&bytes, 3, 15).unwrap();
    assert_eq!(back, residuals);
}

#[test]
fn rice_underflow_reported() {
    let r = decode_rice(&vec![0xffu8], 3, 0);
    assert_eq!(r, Err(CodecError::BitstreamUnderflow));
}

#[test]
fn zigzag_bijection_samples() {
    for v in [-2147483647i32, -30000, -1, 0, 1, 2, 30000, 2147483647] {
        assert_eq!(unzigzag(zigzag(v)), v);
    }
    assert_eq!(zigzag(0), 0);
    assert_eq!(zigzag(-1), 1);
    assert_eq!(zigzag(1), 2);
    assert_eq!(zigzag(-2), 3);
}

#[test]
fn rans_byte_ramp_roundtrip() {
    let data: Vec<u8> = (0..=255u8).collect();
    let enc = RansCoder::encode(&data).unwrap();
    let dec = RansCoder::decode(&enc, 256).unwrap();
    assert_eq!(dec, data);
    let table = &enc[enc.len() - 512..];
    let mut sum: u32 = 0;
    for i in 0..256 {
        sum += u16::from_le_bytes([table[2 * i], table[2 * i + 1]]) as u32;
    }
    assert_eq!(sum, 4096);
}

#[test]
fn rans_sentinel_roundtrip() {
    let data: Vec<u8> = (0..300).map(|i| (i * 7 % 40) as u8).collect();
    let enc = RansCoder::encode(&data).unwrap();
    let dec = RansCoder::decode(&enc, 0).unwrap();
    assert_eq!(dec, data);
}

#[test]
fn rans_empty_roundtrip() {
    let data: Vec<u8> = Vec::new();
    let enc = RansCoder::encode(&data).unwrap();
    assert!(enc.is_empty());
    assert_eq!(RansCoder::decode(&enc, 0).unwrap(), data);
}

#[test]
fn rans_truncated_reported() {
    let r = RansCoder::decode(&vec![1u8, 2, 3], 1);
    assert_eq!(r, Err(CodecError::Truncated));
}

#[test]
fn rans_bad_table_reported() {
    let bogus = vec![0u8; 516];
    let r = RansCoder::decode(&bogus, 1);
    assert_eq!(r, Err(CodecError::FrequencyTableInvalid));
}

#[test]
fn sparse_roundtrip() {
    let x = vec![0i32, 5, 0, 0, -3, 0, 7, 0];
    let s = SparseEncoder::encode(&x);
    assert_eq!(s.values, vec![5, -3, 7]);
    assert_eq!(s.indices, vec![1, 4, 6]);
    assert_eq!(s.original_len, 8);
    assert_eq!(SparseEncoder::decode(&s), x);
}

#[test]
fn sparse_out_of_range_index_skipped() {
    let s = SparseData { values: vec![9, 8], indices: vec![1, 99], original_len: 4 };
    assert_eq!(SparseEncoder::decode(&s), vec![0, 9, 0, 0]);
}

#[test]
fn simd_roundtrip() {
    let s = SparseData { values: vec![1, -32768, 32767, -5], indices: vec![0, 3, 9, 200], original_len: 300 };
    let bytes = SimdOps::serialize(&s);
    assert_eq!(bytes.len(), 8 + 6 * 4);
    let back = SimdOps::deserialize(&bytes);
    assert_eq!(back.values, s.values);
    assert_eq!(back.indices, s.indices);
    assert_eq!(back.original_len, s.original_len);
}

#[test]
fn lpc_residuals_invert() {
    let x: Vec<i32> = (0..200).map(|i| ((i * i) % 4001) - 2000).collect();
    let auto = autocorrelation(&x, 8);
    let coeffs = levinson_durbin(&auto, 8);
    assert_eq!(coeffs.len(), 8);
    let res = compute_residuals(&x, &coeffs);
    let back = restore_signal(&res, &coeffs);
    assert_eq!(back, x);
}

#[test]
fn lpc_inverts_under_arbitrary_coefficients() {
    let x: Vec<i32> = (0..64).map(|i| (i * 997 % 3001) - 1500).collect();
    let coeffs = vec![0x1_0000_0000i64, -0x8000_0000i64, 12345678901i64];
    let res = compute_residuals(&x, &coeffs);
    let back = restore_signal(&res, &coeffs);
    assert_eq!(back, x);
}

#[test]
fn degenerate_autocorrelation_gives_zero_coefficients() {
    let x = vec![0i32; 32];
    let auto = autocorrelation(&x, 4);
    let coeffs = levinson_durbin(&auto, 4);
    assert_eq!(coeffs, vec![0, 0, 0, 0]);
}

#[test]
fn spike_blob_shape() {
    let comp = SpikeCompressor::new(400);
    let mut x = vec![0i32; 256];
    x[40] = 20000;
    x[120] = -20000;
    let blob = comp.encode(&x).unwrap();
    let count = u32::from_be_bytes([blob[4], blob[5], blob[6], blob[7]]) as usize;
    assert_eq!(blob.len(), 8 + 5 * count);
    assert!(count >= 1);
    let back = comp.decode(&blob, 256).unwrap();
    assert_eq!(back.len(), 256);
}

#[test]
fn spike_all_zero_input_has_no_events() {
    let comp = SpikeCompressor::new(400);
    let x = vec![0i32; 4096];
    let blob = comp.encode(&x).unwrap();
    // zero root-mean-square, zero events: eight zero bytes
    assert_eq!(blob, vec![0u8; 8]);
}

#[test]
fn codebook_rounds_to_nearest() {
    let comp = SpikeCompressor::new(400);
    // (131/128 - 1) * sin(2*pi*2/16) * 1000 = 16.57..., which rounds to 17
    assert_eq!(comp.codebook[131][2], 17);
    assert_eq!(comp.codebook[0][4], -1000);
    assert_eq!(comp.codebook[255][4], 992);
    assert_eq!(comp.codebook[128][7], 0);
}

#[test]
fn spike_truncated_reported() {
    let comp = SpikeCompressor::new(400);
    assert_eq!(comp.decode(&vec![0u8; 4], 10), Err(CodecError::Truncated));
    // a count that promises more events than the bytes can hold
    let mut blob = vec![0u8; 8];
    blob[7] = 3;
    assert_eq!(comp.decode(&blob, 10), Err(CodecError::Truncated));
}

#[test]
fn decode_rejects_short_input() {
    assert_eq!(decode(&vec![0u8; 10]).err(), Some(CodecError::Truncated));
}

#[test]
fn decode_rejects_bad_magic() {
    let mut c = vec![0u8; 24];
    c[0] = b'X';
    assert_eq!(decode(&c).err(), Some(CodecError::BadMagic));
}

#[test]
fn decode_rejects_unknown_version() {
    let mut c = vec![0u8; 24];
    c[0] = 0x4e;
    c[1] = 0x45;
    c[2] = 0x55;
    c[3] = 0x52;
    c[7] = 9;
    assert_eq!(decode(&c).err(), Some(CodecError::BadVersion));
}
