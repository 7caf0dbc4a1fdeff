//! Entropy coding of residuals: the ZigZag map, the Rice/Golomb-Rice coder.
//!
//! A residual `v` is mapped onto a nonnegative `u` by ZigZag, split as
//! `q = u >> k` and `r = u & (2^k - 1)`, and written as `q` one-bits, a
//! zero-bit, and the `k` bits of `r` most significant first. The output is
//! padded with zero bits to a whole byte.

use vstd::prelude::*;
use vstd::arithmetic::power2::pow2;
use vstd::arithmetic::power2::lemma2_to64;
use crate::bits::{
    bits_val, bits_of_bytes, bytes_of_bits, lemma_bits_val_bound, lemma_pack_unpack, pack_bits,
    unpack_bits,
};
use crate::errors::CodecError;

verus! {

/// The ZigZag image of `v`: nonnegatives map to evens, negatives to odds.
pub open spec fn zigzag_spec(v: i32) -> u32 {
    if v >= 0 {
        (2 * v) as u32
    } else {
        (-2 * v - 1) as u32
    }
}

/// The inverse ZigZag map, with the wrap of `u + 1` at the top of `u32`.
pub open spec fn unzigzag_spec(u: u32) -> i32 {
    if u % 2 == 0 {
        (u / 2) as i32
    } else {
        (0 - ((u + 1) % 0x1_0000_0000) / 2) as i32
    }
}

/// ZigZag followed by its inverse is the identity away from `i32::MIN`.
pub proof fn lemma_zigzag_bijection(v: i32)
    requires
        v != i32::MIN,
    ensures
        unzigzag_spec(zigzag_spec(v)) == v,
{
    if v >= 0 {
        let u = (2 * v) as u32;
        assert(u as int == 2 * v);
        assert(u % 2 == 0 && u / 2 == v);
    } else {
        let u = (-2 * v - 1) as u32;
        assert(u as int == -2 * v - 1);
        assert(u % 2 == 1);
        assert((u + 1) % 0x1_0000_0000 == -2 * v);
        assert(0 - (-2 * v) / 2 == v);
    }
}

/// Maps `v` onto a nonnegative integer, interleaving signs; total, with
/// the minimum value landing on the top of the unsigned range.
pub fn zigzag(v: i32) -> (u: u32)
    ensures
        u == zigzag_spec(v),
{
    if v == i32::MIN {
        0xffff_ffff
    } else if v >= 0 {
        (v as u32) * 2
    } else {
        ((-v) as u32) * 2 - 1
    }
}

/// Inverts [`zigzag`]; total on all of `u32`.
pub fn unzigzag(u: u32) -> (v: i32)
    ensures
        v == unzigzag_spec(u),
{
    if u % 2 == 0 {
        (u / 2) as i32
    } else {
        let m = ((u as u64) + 1) % 0x1_0000_0000;
        let w = (m / 2) as u32;
        0 - (w as i32)
    }
}

/// `q` one-bits closed by a zero-bit.
pub open spec fn unary_bits(q: nat) -> Seq<bool> {
    Seq::new(q + 1, |i: int| i < q)
}

/// The low `k` bits of `u`, most significant first.
pub open spec fn tail_bits(u: u32, k: nat) -> Seq<bool> {
    Seq::new(k, |i: int| ((u as nat) / pow2((k - 1 - i) as nat)) % 2 == 1)
}

/// The Rice code of one ZigZagged value.
pub open spec fn rice_sym_bits(u: u32, k: nat) -> Seq<bool> {
    unary_bits((u as nat) / pow2(k)) + tail_bits(u, k)
}

/// The Rice code of a residual sequence, symbol after symbol.
pub open spec fn rice_bits(rs: Seq<i32>, k: nat) -> Seq<bool>
    decreases rs.len(),
{
    if rs.len() == 0 {
        Seq::empty()
    } else {
        rice_bits(rs.drop_last(), k) + rice_sym_bits(zigzag_spec(rs.last()), k)
    }
}

/// Zero bits bringing a bit string up to a whole number of bytes.
pub open spec fn pad_bits(bits: Seq<bool>) -> Seq<bool> {
    bits + Seq::new(((8 - bits.len() % 8) % 8) as nat, |i: int| false)
}

/// The bytes the Rice encoder emits for `rs` under parameter `k`.
pub open spec fn rice_encoded_bytes(rs: Seq<i32>, k: nat) -> Seq<u8> {
    bytes_of_bits(pad_bits(rice_bits(rs, k)))
}

/// The first position at or after `from` holding a zero-bit.
pub open spec fn unary_end(bits: Seq<bool>, from: int) -> Option<int>
    decreases bits.len() - from,
{
    if from < 0 || from >= bits.len() {
        None
    } else if !bits[from] {
        Some(from)
    } else {
        unary_end(bits, from + 1)
    }
}

/// Prepends an already-decoded prefix to a decoder outcome.
pub open spec fn dec_extend(prefix: Seq<i32>, rest: Option<Seq<i32>>) -> Option<Seq<i32>> {
    match rest {
        Some(r) => Some(prefix + r),
        None => None,
    }
}

/// What Rice decoding of `count` symbols from bit position `from` yields:
/// the residuals, or nothing when the bits run out mid-symbol. The
/// reconstructed value wraps at 32 bits exactly as the decoder's register.
pub open spec fn rice_decode_spec(bits: Seq<bool>, from: int, count: nat, k: nat) -> Option<
    Seq<i32>,
>
    decreases count,
{
    if count == 0 {
        Some(Seq::empty())
    } else {
        match unary_end(bits, from) {
            None => None,
            Some(e) => {
                if e + 1 + k <= bits.len() {
                    let q = e - from;
                    let tval = bits_val(bits.subrange(e + 1, e + 1 + k));
                    let u = (((q * pow2(k) + tval) % 0x1_0000_0000) as u32);
                    dec_extend(
                        seq![unzigzag_spec(u)],
                        rice_decode_spec(bits, e + 1 + k, (count - 1) as nat, k),
                    )
                } else {
                    None
                }
            },
        }
    }
}

/// Prefixing distributes over decoder outcomes.
proof fn lemma_dec_extend_assoc(a: Seq<i32>, b: Seq<i32>, rest: Option<Seq<i32>>)
    ensures
        dec_extend(a, dec_extend(b, rest)) == dec_extend(a + b, rest),
{
    match rest {
        Some(r) => {
            assert(a + (b + r) =~= (a + b) + r);
        },
        None => {},
    }
}

/// Encodes residuals by Rice coding with parameter `k`; the output is
/// byte-aligned, padded with zero bits.
pub fn encode_rice(residuals: &Vec<i32>, k: u32) -> (r: Result<Vec<u8>, CodecError>)
    requires
        k <= 15,
    ensures
        r matches Ok(out) && out@ == rice_encoded_bytes(residuals@, k as nat),
{
    let ghost kn = k as nat;
    let mut bitv: Vec<bool> = Vec::new();
    let n = residuals.len();
    for idx in 0..n
        invariant
            n == residuals@.len(),
            k <= 15,
            kn == k as nat,
            bitv@ == rice_bits(residuals@.take(idx as int), kn),
    {
        let v = residuals[idx];
        let u = zigzag(v);
        let q = u >> k;
        proof {
            vstd::bits::lemma_u32_shr_is_div(u, k);
        }
        let ghost pre = bitv@;
        let mut c: u32 = 0;
        while c < q
            invariant
                c <= q,
                bitv@ == pre + Seq::new(c as nat, |i: int| true),
            decreases q - c,
        {
            bitv.push(true);
            proof {
                assert(bitv@ =~= pre + Seq::new((c + 1) as nat, |i: int| true));
            }
            c += 1;
        }
        bitv.push(false);
        proof {
            assert(bitv@ =~= pre + unary_bits((u as nat) / pow2(kn)));
        }
        let ghost pre2 = bitv@;
        let mut j: u32 = 0;
        while j < k
            invariant
                j <= k <= 15,
                kn == k as nat,
                bitv@ == pre2 + tail_bits(u, kn).take(j as int),
            decreases k - j,
        {
            let sh = k - 1 - j;
            let bit = ((u >> sh) & 1) == 1;
            proof {
                vstd::bits::lemma_u32_shr_is_div(u, sh);
                assert((u >> sh) & 1 == (u >> sh) % 2) by (bit_vector);
                assert(tail_bits(u, kn)[j as int] == (((u as nat) / pow2(
                    (kn - 1 - j) as nat,
                )) % 2 == 1));
            }
            bitv.push(bit);
            proof {
                assert(bitv@ =~= pre2 + tail_bits(u, kn).take(j as int + 1));
            }
            j += 1;
        }
        proof {
            assert(tail_bits(u, kn).take(k as int) =~= tail_bits(u, kn));
            let taken = residuals@.take(idx as int + 1);
            assert(taken.drop_last() =~= residuals@.take(idx as int));
            assert(taken.last() == residuals@[idx as int]);
            assert(bitv@ =~= rice_bits(residuals@.take(idx as int), kn) + rice_sym_bits(
                zigzag_spec(residuals@[idx as int]),
                kn,
            ));
        }
    }
    proof {
        assert(residuals@.take(n as int) =~= residuals@);
    }
    let ghost unpadded = bitv@;
    let rem = bitv.len() % 8;
    let padn = (8 - rem) % 8;
    let mut t: usize = 0;
    while t < padn
        invariant
            t <= padn,
            bitv@ == unpadded + Seq::new(t as nat, |i: int| false),
        decreases padn - t,
    {
        bitv.push(false);
        proof {
            assert(bitv@ =~= unpadded + Seq::new((t + 1) as nat, |i: int| false));
        }
        t += 1;
    }
    proof {
        assert(bitv@ =~= pad_bits(unpadded));
        let ln = unpadded.len() as int;
        let pn = padn as int;
        vstd::arithmetic::div_mod::lemma_add_mod_noop(ln, pn, 8);
        vstd::arithmetic::div_mod::lemma_small_mod(padn as nat, 8);
        assert((ln % 8 + pn) % 8 == 0);
        assert(bitv@.len() % 8 == 0);
    }
    let out = pack_bits(&bitv);
    Ok(out)
}


/// The code of a sequence starts with the code of its first symbol.
proof fn lemma_rice_bits_front(rs: Seq<i32>, k: nat)
    requires
        rs.len() > 0,
    ensures
        rice_bits(rs, k) == rice_sym_bits(zigzag_spec(rs[0]), k) + rice_bits(rs.skip(1), k),
    decreases rs.len(),
{
    let sym0 = rice_sym_bits(zigzag_spec(rs[0]), k);
    if rs.len() == 1 {
        assert(rs.drop_last() =~= Seq::<i32>::empty());
        assert(rs.skip(1) =~= Seq::<i32>::empty());
        assert(Seq::<bool>::empty() + sym0 =~= sym0);
        assert(sym0 + Seq::<bool>::empty() =~= sym0);
    } else {
        let dl = rs.drop_last();
        lemma_rice_bits_front(dl, k);
        assert(dl[0] == rs[0]);
        assert(rs.skip(1).drop_last() =~= dl.skip(1));
        assert(rs.skip(1).last() == rs.last());
        let symn = rice_sym_bits(zigzag_spec(rs.last()), k);
        assert(rice_bits(rs.skip(1), k) == rice_bits(dl.skip(1), k) + symn);
        assert((sym0 + rice_bits(dl.skip(1), k)) + symn =~= sym0 + (rice_bits(dl.skip(1), k)
            + symn));
    }
}

/// A run of `q` one-bits closed by a zero-bit parses as that unary count.
proof fn lemma_unary_end_run(bits: Seq<bool>, from: int, q: nat)
    requires
        0 <= from,
        from + q < bits.len(),
        forall|j: int| from <= j < from + q ==> bits[j],
        !bits[from + q],
    ensures
        unary_end(bits, from) == Some(from + q),
    decreases q,
{
    if q > 0 {
        assert(bits[from]);
        lemma_unary_end_run(bits, from + 1, (q - 1) as nat);
    }
}

/// The `k`-bit tail of `u` is worth `u` reduced modulo `2^k`.
proof fn lemma_tail_bits_val(u: u32, k: nat)
    ensures
        bits_val(tail_bits(u, k)) == (u as nat) % pow2(k),
    decreases k,
{
    lemma2_to64();
    if k == 0 {
        assert(tail_bits(u, 0) =~= Seq::<bool>::empty());
        assert((u as nat) % 1 == 0);
    } else {
        let u2 = u / 2;
        lemma_tail_bits_val(u2, (k - 1) as nat);
        assert(tail_bits(u, k).drop_last() =~= tail_bits(u2, (k - 1) as nat)) by {
            assert forall|i: int| 0 <= i < k - 1 implies tail_bits(u, k)[i] == tail_bits(
                u2,
                (k - 1) as nat,
            )[i] by {
                vstd::arithmetic::power2::lemma_pow2_adds(1, (k - 2 - i) as nat);
                vstd::arithmetic::power2::lemma_pow2_pos((k - 2 - i) as nat);
                vstd::arithmetic::div_mod::lemma_div_denominator(
                    u as int,
                    2,
                    pow2((k - 2 - i) as nat) as int,
                );
                assert(pow2((k - 1 - i) as nat) == 2 * pow2((k - 2 - i) as nat));
                assert((u2 as nat) / pow2((k - 2 - i) as nat) == (u as nat) / pow2(
                    (k - 1 - i) as nat,
                ));
            }
        }
        assert(tail_bits(u, k).last() == ((u as nat) / 1 % 2 == 1));
        assert(bits_val(tail_bits(u, k)) == 2 * ((u2 as nat) % pow2((k - 1) as nat)) + (
        if (u as nat) % 2 == 1 {
            1nat
        } else {
            0nat
        }));
        vstd::arithmetic::power2::lemma_pow2_pos((k - 1) as nat);
        vstd::arithmetic::div_mod::lemma_breakdown(u as int, 2, pow2((k - 1) as nat) as int);
        vstd::arithmetic::power2::lemma_pow2_adds(1, (k - 1) as nat);
        assert(pow2(k) == 2 * pow2((k - 1) as nat));
    }
}

/// Decoding from a position where the code of `rs` begins yields `rs`.
#[verifier::rlimit(100)]
proof fn lemma_rice_dec_prefix(bits: Seq<bool>, from: int, rs: Seq<i32>, k: nat)
    requires
        k <= 15,
        0 <= from,
        from + rice_bits(rs, k).len() <= bits.len(),
        forall|i: int| 0 <= i < rs.len() ==> rs[i] != i32::MIN,
        forall|t: int| 0 <= t < rice_bits(rs, k).len() ==> bits[from + t] == rice_bits(rs, k)[t],
    ensures
        rice_decode_spec(bits, from, rs.len(), k) == Some(rs),
    decreases rs.len(),
{
    if rs.len() == 0 {
        assert(rs =~= Seq::<i32>::empty());
    } else {
        let v = rs[0];
        let u = zigzag_spec(v);
        vstd::arithmetic::power2::lemma_pow2_pos(k);
        let q = (u as nat) / pow2(k);
        let rb = rice_bits(rs, k);
        lemma_rice_bits_front(rs, k);
        let sym = rice_sym_bits(u, k);
        let rest = rice_bits(rs.skip(1), k);
        assert(rb == sym + rest);
        assert(sym.len() == q + 1 + k);
        assert forall|j: int| from <= j < from + q implies bits[j] by {
            assert(bits[j] == rb[j - from]);
            assert(rb[j - from] == sym[j - from]);
            assert(sym[j - from] == unary_bits(q)[j - from]);
        }
        let qi = q as int;
        assert(q < rb.len());
        assert((sym + rest)[qi] == sym[qi]);
        assert(rb[qi] == sym[qi]);
        assert(sym[qi] == (unary_bits(q) + tail_bits(u, k))[qi]);
        assert((unary_bits(q) + tail_bits(u, k))[qi] == unary_bits(q)[qi]);
        assert(unary_bits(q)[qi] == false);
        assert(bits[from + qi] == rb[qi]);
        assert(!bits[from + q]);
        lemma_unary_end_run(bits, from, q);
        let e = from + q;
        assert(e + 1 + k <= bits.len());
        let sub = bits.subrange(e + 1, e + 1 + k);
        assert(sub =~= tail_bits(u, k)) by {
            assert forall|i: int| 0 <= i < k implies sub[i] == tail_bits(u, k)[i] by {
                assert(sub[i] == bits[e + 1 + i]);
                assert(bits[e + 1 + i] == rb[q + 1 + i]);
                assert(rb[q + 1 + i] == sym[q + 1 + i]);
                assert(sym[q + 1 + i] == tail_bits(u, k)[i]);
            }
        }
        lemma_tail_bits_val(u, k);
        vstd::arithmetic::power2::lemma_pow2_pos(k);
        vstd::arithmetic::div_mod::lemma_fundamental_div_mod(u as int, pow2(k) as int);
        vstd::arithmetic::div_mod::lemma_small_mod(u as nat, 0x1_0000_0000);
        assert((q * pow2(k) + bits_val(sub)) % 0x1_0000_0000 == u as nat);
        lemma_zigzag_bijection(v);
        let from2 = e + 1 + k;
        assert forall|t: int| 0 <= t < rest.len() implies bits[from2 + t] == rest[t] by {
            assert(rb[sym.len() + t] == rest[t]);
            assert(bits[from + sym.len() + t] == rb[sym.len() + t]);
        }
        lemma_rice_dec_prefix(bits, from2, rs.skip(1), k);
        assert(rice_decode_spec(bits, from, rs.len(), k) == dec_extend(
            seq![v],
            Some(rs.skip(1)),
        ));
        assert(seq![v] + rs.skip(1) =~= rs);
    }
}

/// Rice round-trip: decoding the encoder's byte-aligned output with the same
/// count and parameter recovers every residual exactly, for every `k` in
/// range and every residual away from `i32::MIN`.
pub proof fn lemma_rice_roundtrip(rs: Seq<i32>, k: nat)
    requires
        k <= 15,
        forall|i: int| 0 <= i < rs.len() ==> rs[i] != i32::MIN,
    ensures
        rice_decode_spec(bits_of_bytes(rice_encoded_bytes(rs, k)), 0, rs.len(), k) == Some(rs),
{
    let rb = rice_bits(rs, k);
    let padded = pad_bits(rb);
    let ln = rb.len() as int;
    let pn = ((8 - rb.len() % 8) % 8) as int;
    vstd::arithmetic::div_mod::lemma_add_mod_noop(ln, pn, 8);
    vstd::arithmetic::div_mod::lemma_small_mod(((8 - rb.len() % 8) % 8) as nat, 8);
    assert((ln % 8 + pn) % 8 == 0);
    assert(padded.len() % 8 == 0);
    lemma_pack_unpack(padded);
    lemma_rice_dec_prefix(padded, 0, rs, k);
}

/// Reassembling `q * 2^k + t` in a 32-bit register may wrap `q` first.
proof fn lemma_rice_reassemble(q: nat, kn: nat, t: nat)
    requires
        kn <= 15,
        t < pow2(kn),
    ensures
        ((q % 0x1_0000_0000) * pow2(kn) + t) % 0x1_0000_0000 == (q * pow2(kn) + t)
            % 0x1_0000_0000,
{
    let qi = q as int;
    let p = pow2(kn) as int;
    let ti = t as int;
    vstd::arithmetic::div_mod::lemma_mul_mod_noop_left(qi, p, 0x1_0000_0000);
    vstd::arithmetic::div_mod::lemma_add_mod_noop(qi * p, ti, 0x1_0000_0000);
    vstd::arithmetic::div_mod::lemma_add_mod_noop((qi % 0x1_0000_0000) * p, ti, 0x1_0000_0000);
}

/// Decodes `count` Rice-coded residuals with parameter `k`, or reports that
/// the bit stream ran out mid-symbol.
#[verifier::rlimit(60)]
pub fn decode_rice(data: &Vec<u8>, count: usize, k: u32) -> (r: Result<Vec<i32>, CodecError>)
    requires
        k <= 15,
    ensures
        (match rice_decode_spec(bits_of_bytes(data@), 0, count as nat, k as nat) {
            Some(vals) => r matches Ok(out) && out@ == vals,
            None => r == Err::<Vec<i32>, CodecError>(CodecError::BitstreamUnderflow),
        }),
{
    let ghost kn = k as nat;
    let ghost allbits = bits_of_bytes(data@);
    let bits = unpack_bits(data);
    let nbits = bits.len();
    let mut res: Vec<i32> = Vec::new();
    let mut pos: usize = 0;
    proof {
        match rice_decode_spec(allbits, 0, count as nat, kn) {
            Some(r0) => {
                assert(Seq::<i32>::empty() + r0 =~= r0);
            },
            None => {},
        }
    }
    for c in 0..count
        invariant
            k <= 15,
            kn == k as nat,
            allbits == bits_of_bytes(data@),
            bits@ == allbits,
            nbits == bits@.len(),
            pos <= nbits,
            rice_decode_spec(allbits, 0, count as nat, kn) == dec_extend(
                res@,
                rice_decode_spec(allbits, pos as int, (count - c) as nat, kn),
            ),
    {
        let ghost pos0 = pos as int;
        let ghost m = (count - c) as nat;
        let mut q: usize = 0;
        while pos < nbits && bits[pos]
            invariant
                0 <= pos0 <= pos <= nbits,
                nbits == bits@.len(),
                q == pos - pos0,
                unary_end(allbits, pos0) == unary_end(allbits, pos as int),
                bits@ == allbits,
            decreases nbits - pos,
        {
            proof {
                assert(unary_end(allbits, pos as int) == unary_end(allbits, pos as int + 1));
            }
            pos += 1;
            q += 1;
        }
        if pos == nbits {
            proof {
                assert(unary_end(allbits, pos0) == None::<int>);
                assert(rice_decode_spec(allbits, pos0, m, kn) == None::<Seq<i32>>);
            }
            return Err(CodecError::BitstreamUnderflow);
        }
        let ghost e = pos as int;
        proof {
            assert(unary_end(allbits, pos0) == Some(e));
        }
        let kk = k as usize;
        if nbits - pos - 1 < kk {
            proof {
                assert(e + 1 + kn > allbits.len());
                assert(rice_decode_spec(allbits, pos0, m, kn) == None::<Seq<i32>>);
            }
            return Err(CodecError::BitstreamUnderflow);
        }
        proof {
            lemma2_to64();
        }
        let mut rv: u32 = 0;
        let mut j: usize = 0;
        while j < kk
            invariant
                j <= kk == k,
                k <= 15,
                kn == k as nat,
                pos == e,
                e + 1 + kn <= nbits == bits@.len(),
                bits@ == allbits,
                rv as nat == bits_val(allbits.subrange(e + 1, e + 1 + j)),
                rv < pow2(j as nat),
            decreases kk - j,
        {
            proof {
                lemma2_to64();
                if (j as nat) < 15 {
                    vstd::arithmetic::power2::lemma_pow2_strictly_increases(j as nat, 15);
                }
            }
            let bit = if bits[pos + 1 + j] {
                1u32
            } else {
                0u32
            };
            rv = rv * 2 + bit;
            proof {
                let cur = allbits.subrange(e + 1, e + 1 + j + 1);
                assert(cur.drop_last() =~= allbits.subrange(e + 1, e + 1 + j));
                assert(cur.last() == allbits[e + 1 + j]);
                vstd::arithmetic::power2::lemma_pow2_unfold((j + 1) as nat);
            }
            j += 1;
        }
        let q64: u64 = (q as u64) % 0x1_0000_0000;
        let shifted: u64 = q64 << k;
        let uval64: u64 = (shifted | (rv as u64)) % 0x1_0000_0000;
        let uval: u32 = uval64 as u32;
        proof {
            lemma2_to64();
            assert(pow2(kn) <= 32768) by {
                if kn < 15 {
                    vstd::arithmetic::power2::lemma_pow2_strictly_increases(kn, 15);
                }
            }
            vstd::bits::lemma_u64_shl_is_mul(1u64, k as u64);
            vstd::arithmetic::mul::lemma_mul_upper_bound(
                q64 as int,
                0xffff_ffff,
                pow2(kn) as int,
                0x8000,
            );
            vstd::bits::lemma_u64_shl_is_mul(q64, k as u64);
            let rv64 = rv as u64;
            assert((shifted | rv64) == shifted + rv64) by (bit_vector)
                requires
                    shifted == q64 << (k as u64) && q64 < 0x1_0000_0000 && (k as u64) <= 15 && rv64
                        < (1u64 << (k as u64)),
            ;
            let t = bits_val(allbits.subrange(e + 1, e + 1 + kn));
            lemma_rice_reassemble(q as nat, kn, t);
            assert(uval == (((e - pos0) * pow2(kn) + t) % 0x1_0000_0000) as u32);
        }
        let v = unzigzag(uval);
        res.push(v);
        pos = pos + 1 + kk;
        proof {
            let sub = rice_decode_spec(allbits, pos as int, (m - 1) as nat, kn);
            assert(rice_decode_spec(allbits, pos0, m, kn) == dec_extend(seq![unzigzag_spec(uval)], sub));
            lemma_dec_extend_assoc(res@.drop_last(), seq![unzigzag_spec(uval)], sub);
            assert(res@.drop_last() + seq![unzigzag_spec(uval)] =~= res@);
        }
    }
    proof {
        assert(rice_decode_spec(allbits, pos as int, 0, kn) == Some(Seq::<i32>::empty()));
        assert(res@ + Seq::<i32>::empty() =~= res@);
    }
    Ok(res)
}


} // verus!
