//! Bit streams as boolean sequences: most-significant-bit-first packing into
//! bytes and the exact inverse. The Rice coder works on this representation;
//! its output is byte-aligned by padding with zero bits.

use vstd::prelude::*;
use vstd::arithmetic::power2::pow2;
use vstd::arithmetic::power2::lemma2_to64;

verus! {

/// The unsigned value of a bit string, most significant bit first.
pub open spec fn bits_val(s: Seq<bool>) -> nat
    decreases s.len(),
{
    if s.len() == 0 {
        0
    } else {
        2 * bits_val(s.drop_last()) + if s.last() {
            1nat
        } else {
            0nat
        }
    }
}

/// The byte whose bits, most significant first, are `s`.
pub open spec fn byte_of_bits(s: Seq<bool>) -> u8
    recommends
        s.len() == 8,
{
    bits_val(s) as u8
}

/// Bit `j` of `b`, counting the most significant bit as bit 0.
pub open spec fn byte_bit(b: u8, j: int) -> bool
    recommends
        0 <= j < 8,
{
    ((b as nat) / pow2((7 - j) as nat)) % 2 == 1
}

/// Every bit of a byte string, most significant bit of each byte first.
pub open spec fn bits_of_bytes(data: Seq<u8>) -> Seq<bool> {
    Seq::new(data.len() * 8, |i: int| byte_bit(data[i / 8], i % 8))
}

/// The bytes packing a bit string whose length is a whole number of bytes.
pub open spec fn bytes_of_bits(bits: Seq<bool>) -> Seq<u8> {
    Seq::new(bits.len() / 8, |j: int| byte_of_bits(bits.subrange(8 * j, 8 * j + 8)))
}

/// A bit string of length `n` is worth less than `2^n`.
pub proof fn lemma_bits_val_bound(s: Seq<bool>)
    ensures
        bits_val(s) < pow2(s.len()),
    decreases s.len(),
{
    if s.len() == 0 {
        assert(pow2(0) == 1) by {
            lemma2_to64();
        }
    } else {
        vstd::arithmetic::power2::lemma_pow2_unfold(s.len());
        lemma_bits_val_bound(s.drop_last());
    }
}

/// Spells out the value of an eight-bit string as a weighted sum.
proof fn lemma_bits_val8(s: Seq<bool>)
    requires
        s.len() == 8,
    ensures
        bits_val(s) == 128 * (if s[0] { 1nat } else { 0nat }) + 64 * (if s[1] { 1nat } else { 0nat })
            + 32 * (if s[2] { 1nat } else { 0nat }) + 16 * (if s[3] { 1nat } else { 0nat }) + 8 * (
        if s[4] {
            1nat
        } else {
            0nat
        }) + 4 * (if s[5] { 1nat } else { 0nat }) + 2 * (if s[6] { 1nat } else { 0nat }) + (if s[7] {
            1nat
        } else {
            0nat
        }),
{
    let s7 = s.drop_last();
    let s6 = s7.drop_last();
    let s5 = s6.drop_last();
    let s4 = s5.drop_last();
    let s3 = s4.drop_last();
    let s2 = s3.drop_last();
    let s1 = s2.drop_last();
    let s0 = s1.drop_last();
    assert(s0.len() == 0);
    assert(bits_val(s0) == 0);
    assert(s1.last() == s[0] && s2.last() == s[1] && s3.last() == s[2] && s4.last() == s[3]
        && s5.last() == s[4] && s6.last() == s[5] && s7.last() == s[6] && s.last() == s[7]);
    assert(bits_val(s) == 2 * bits_val(s7) + if s[7] { 1nat } else { 0nat });
    assert(bits_val(s7) == 2 * bits_val(s6) + if s[6] { 1nat } else { 0nat });
    assert(bits_val(s6) == 2 * bits_val(s5) + if s[5] { 1nat } else { 0nat });
    assert(bits_val(s5) == 2 * bits_val(s4) + if s[4] { 1nat } else { 0nat });
    assert(bits_val(s4) == 2 * bits_val(s3) + if s[3] { 1nat } else { 0nat });
    assert(bits_val(s3) == 2 * bits_val(s2) + if s[2] { 1nat } else { 0nat });
    assert(bits_val(s2) == 2 * bits_val(s1) + if s[1] { 1nat } else { 0nat });
    assert(bits_val(s1) == 2 * bits_val(s0) + if s[0] { 1nat } else { 0nat });
}

/// Reading any bit of the packed byte gives back the bit that was packed.
pub proof fn lemma_byte_bits_roundtrip(s: Seq<bool>, j: int)
    requires
        s.len() == 8,
        0 <= j < 8,
    ensures
        byte_bit(byte_of_bits(s), j) == s[j],
{
    lemma_bits_val8(s);
    lemma_bits_val_bound(s);
    lemma2_to64();
    let n0: nat = if s[0] { 1 } else { 0 };
    let n1: nat = if s[1] { 1 } else { 0 };
    let n2: nat = if s[2] { 1 } else { 0 };
    let n3: nat = if s[3] { 1 } else { 0 };
    let n4: nat = if s[4] { 1 } else { 0 };
    let n5: nat = if s[5] { 1 } else { 0 };
    let n6: nat = if s[6] { 1 } else { 0 };
    let n7: nat = if s[7] { 1 } else { 0 };
    let v: nat = 128 * n0 + 64 * n1 + 32 * n2 + 16 * n3 + 8 * n4 + 4 * n5 + 2 * n6 + n7;
    assert(v < 256);
    assert(byte_of_bits(s) as nat == v);
    if j == 0 {
        assert(v / 128 % 2 == n0) by (nonlinear_arith)
            requires
                n0 <= 1 && n1 <= 1 && n2 <= 1 && n3 <= 1 && n4 <= 1 && n5 <= 1 && n6 <= 1 && n7
                    <= 1 && v == 128 * n0 + 64 * n1 + 32 * n2 + 16 * n3 + 8 * n4 + 4 * n5 + 2 * n6
                    + n7,
        ;
    } else if j == 1 {
        assert(v / 64 % 2 == n1) by (nonlinear_arith)
            requires
                n0 <= 1 && n1 <= 1 && n2 <= 1 && n3 <= 1 && n4 <= 1 && n5 <= 1 && n6 <= 1 && n7
                    <= 1 && v == 128 * n0 + 64 * n1 + 32 * n2 + 16 * n3 + 8 * n4 + 4 * n5 + 2 * n6
                    + n7,
        ;
    } else if j == 2 {
        assert(v / 32 % 2 == n2) by (nonlinear_arith)
            requires
                n0 <= 1 && n1 <= 1 && n2 <= 1 && n3 <= 1 && n4 <= 1 && n5 <= 1 && n6 <= 1 && n7
                    <= 1 && v == 128 * n0 + 64 * n1 + 32 * n2 + 16 * n3 + 8 * n4 + 4 * n5 + 2 * n6
                    + n7,
        ;
    } else if j == 3 {
        assert(v / 16 % 2 == n3) by (nonlinear_arith)
            requires
                n0 <= 1 && n1 <= 1 && n2 <= 1 && n3 <= 1 && n4 <= 1 && n5 <= 1 && n6 <= 1 && n7
                    <= 1 && v == 128 * n0 + 64 * n1 + 32 * n2 + 16 * n3 + 8 * n4 + 4 * n5 + 2 * n6
                    + n7,
        ;
    } else if j == 4 {
        assert(v / 8 % 2 == n4) by (nonlinear_arith)
            requires
                n0 <= 1 && n1 <= 1 && n2 <= 1 && n3 <= 1 && n4 <= 1 && n5 <= 1 && n6 <= 1 && n7
                    <= 1 && v == 128 * n0 + 64 * n1 + 32 * n2 + 16 * n3 + 8 * n4 + 4 * n5 + 2 * n6
                    + n7,
        ;
    } else if j == 5 {
        assert(v / 4 % 2 == n5) by (nonlinear_arith)
            requires
                n0 <= 1 && n1 <= 1 && n2 <= 1 && n3 <= 1 && n4 <= 1 && n5 <= 1 && n6 <= 1 && n7
                    <= 1 && v == 128 * n0 + 64 * n1 + 32 * n2 + 16 * n3 + 8 * n4 + 4 * n5 + 2 * n6
                    + n7,
        ;
    } else if j == 6 {
        assert(v / 2 % 2 == n6) by (nonlinear_arith)
            requires
                n0 <= 1 && n1 <= 1 && n2 <= 1 && n3 <= 1 && n4 <= 1 && n5 <= 1 && n6 <= 1 && n7
                    <= 1 && v == 128 * n0 + 64 * n1 + 32 * n2 + 16 * n3 + 8 * n4 + 4 * n5 + 2 * n6
                    + n7,
        ;
    } else {
        assert(v / 1 % 2 == n7) by (nonlinear_arith)
            requires
                n0 <= 1 && n1 <= 1 && n2 <= 1 && n3 <= 1 && n4 <= 1 && n5 <= 1 && n6 <= 1 && n7
                    <= 1 && v == 128 * n0 + 64 * n1 + 32 * n2 + 16 * n3 + 8 * n4 + 4 * n5 + 2 * n6
                    + n7,
        ;
    }
    assert(pow2((7 - j) as nat) == (if j == 0 { 128nat } else if j == 1 { 64nat } else if j == 2 {
        32nat
    } else if j == 3 { 16nat } else if j == 4 { 8nat } else if j == 5 { 4nat } else if j == 6 {
        2nat
    } else { 1nat }));
}

/// Packing a whole number of bytes and unpacking gives back every bit.
pub proof fn lemma_pack_unpack(bits: Seq<bool>)
    requires
        bits.len() % 8 == 0,
    ensures
        bits_of_bytes(bytes_of_bits(bits)) == bits,
{
    let packed = bytes_of_bits(bits);
    assert(packed.len() == bits.len() / 8);
    assert(bits_of_bytes(packed).len() == bits.len());
    assert forall|i: int| 0 <= i < bits.len() implies bits_of_bytes(packed)[i] == bits[i] by {
        let j = i / 8;
        let r = i % 8;
        vstd::arithmetic::div_mod::lemma_fundamental_div_mod(i, 8);
        assert(0 <= j < packed.len());
        let chunk = bits.subrange(8 * j, 8 * j + 8);
        assert(packed[j] == byte_of_bits(chunk));
        lemma_byte_bits_roundtrip(chunk, r);
        assert(chunk[r] == bits[i]);
    }
    assert(bits_of_bytes(packed) =~= bits);
}

/// Unpacks every bit of `data`, most significant bit of each byte first.
pub fn unpack_bits(data: &Vec<u8>) -> (bits: Vec<bool>)
    ensures
        bits@ == bits_of_bytes(data@),
{
    let mut bits: Vec<bool> = Vec::new();
    let n = data.len();
    for i in 0..n
        invariant
            n == data@.len(),
            bits@.len() == 8 * i,
            forall|t: int| 0 <= t < bits@.len() ==> bits@[t] == byte_bit(data@[t / 8], t % 8),
    {
        let b = data[i];
        let mut j: usize = 0;
        while j < 8
            invariant
                0 <= j <= 8,
                i < n == data@.len(),
                b == data@[i as int],
                bits@.len() == 8 * i + j,
                forall|t: int| 0 <= t < bits@.len() ==> bits@[t] == byte_bit(data@[t / 8], t % 8),
            decreases 8 - j,
        {
            let ghost len0 = bits@.len() as int;
            let sh: u32 = 7 - j as u32;
            let bit = ((b >> (sh as u8)) & 1) == 1;
            proof {
                vstd::bits::lemma_u8_shr_is_div(b, sh as u8);
                lemma2_to64();
                assert((b >> (sh as u8)) & 1 == (b >> (sh as u8)) % 2) by (bit_vector);
                assert(len0 / 8 == i && len0 % 8 == j) by (nonlinear_arith)
                    requires
                        len0 == 8 * (i as int) + j && 0 <= j < 8 && 0 <= i,
                ;
            }
            bits.push(bit);
            j += 1;
        }
    }
    proof {
        assert(bits@ =~= bits_of_bytes(data@));
    }
    bits
}

/// Packs a whole number of bytes' worth of bits, most significant bit first.
pub fn pack_bits(bits: &Vec<bool>) -> (out: Vec<u8>)
    requires
        bits@.len() % 8 == 0,
    ensures
        out@ == bytes_of_bits(bits@),
{
    let mut out: Vec<u8> = Vec::new();
    let n = bits.len();
    let mut i: usize = 0;
    while i < n
        invariant
            n == bits@.len(),
            n % 8 == 0,
            i % 8 == 0,
            i <= n,
            out@.len() == i / 8,
            forall|j: int|
                0 <= j < out@.len() ==> out@[j] == byte_of_bits(
                    bits@.subrange(8 * j, 8 * j + 8),
                ),
        decreases n - i,
    {
        proof {
            assert(i + 8 <= n) by (nonlinear_arith)
                requires
                    i < n && i % 8 == 0 && n % 8 == 0,
            ;
        }
        let mut b: u8 = 0;
        let mut j: usize = 0;
        while j < 8
            invariant
                0 <= j <= 8,
                i + 8 <= n == bits@.len(),
                b as nat == bits_val(bits@.subrange(i as int, i as int + j as int)),
            decreases 8 - j,
        {
            let ghost pre = bits@.subrange(i as int, i as int + j as int);
            proof {
                lemma_bits_val_bound(pre);
                lemma2_to64();
                if (j as nat) < 7 {
                    vstd::arithmetic::power2::lemma_pow2_strictly_increases(j as nat, 7);
                }
                assert(pow2(j as nat) <= 128);
            }
            let bit = bits[i + j];
            b = b * 2 + if bit {
                1
            } else {
                0
            };
            proof {
                let cur = bits@.subrange(i as int, i as int + j as int + 1);
                assert(cur.drop_last() =~= pre);
                assert(cur.last() == bits@[i as int + j as int]);
            }
            j += 1;
        }
        proof {
            assert((i + 8) % 8 == 0) by (nonlinear_arith)
                requires
                    i % 8 == 0,
            ;
            assert((i + 8) / 8 == i / 8 + 1);
            assert(8 * ((i / 8) as int) == i as int);
        }
        out.push(b);
        i += 8;
        proof {
            assert forall|j: int| 0 <= j < out@.len() implies out@[j] == byte_of_bits(
                bits@.subrange(8 * j, 8 * j + 8),
            ) by {
                if j == out@.len() - 1 {
                    assert(8 * j == i - 8);
                }
            }
        }
    }
    proof {
        assert(i == n);
        assert(out@ =~= bytes_of_bits(bits@));
    }
    out
}

} // verus!
