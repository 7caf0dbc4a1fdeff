//! Byte-renormalized range-ANS with a 32-bit state and a 12-bit frequency
//! table embedded after the renormalization bytes.
//!
//! The encoder walks the input backwards; the decoder pops renormalization
//! bytes from the high end of that stream, so the bytes come back in the
//! reverse of emission order, exactly as the encoder's state evolution
//! requires. The output layout is `state:u32 LE | renorm bytes | 256 x u16
//! LE frequency table`, and an empty input encodes to an empty sequence.

use vstd::prelude::*;
use crate::bytes::{le16_bytes, le32_bytes, push_u16_le, push_u32_le, read_u16_le, read_u32_le,
    u16_from_le, u32_from_le};
use crate::errors::CodecError;

verus! {

/// How often byte `s` occurs in `data`.
pub open spec fn count_of(data: Seq<u8>, s: int) -> nat
    decreases data.len(),
{
    if data.len() == 0 {
        0
    } else {
        count_of(data.drop_last(), s) + if data.last() == s {
            1nat
        } else {
            0nat
        }
    }
}

/// The occurrence counts of the symbols below `i`, summed.
pub open spec fn count_sum_upto(data: Seq<u8>, i: int) -> nat
    decreases i,
{
    if i <= 0 {
        0
    } else {
        count_sum_upto(data, i - 1) + count_of(data, i - 1)
    }
}

/// How many symbols below `i` occur in `data` at all.
pub open spec fn present_upto(data: Seq<u8>, i: int) -> nat
    decreases i,
{
    if i <= 0 {
        0
    } else {
        present_upto(data, i - 1) + if count_of(data, i - 1) > 0 {
            1nat
        } else {
            0nat
        }
    }
}

/// The least symbol occurring in `data`, or 256 when there is none.
pub open spec fn first_present(data: Seq<u8>, from: int) -> int
    decreases 256 - from,
{
    if from < 0 || from >= 256 {
        256
    } else if count_of(data, from) > 0 {
        from
    } else {
        first_present(data, from + 1)
    }
}

/// The share of the frequency budget a present symbol earns before the
/// remainder is assigned: one slot plus its proportional part of what is
/// left once every present symbol holds a slot.
pub open spec fn base_freq(data: Seq<u8>, s: int) -> nat {
    if count_of(data, s) > 0 {
        1 + count_of(data, s) * ((4096 - present_upto(data, 256)) as nat) / data.len()
    } else {
        0
    }
}

/// The base shares of the symbols below `i`, summed.
pub open spec fn base_sum_upto(data: Seq<u8>, i: int) -> nat
    decreases i,
{
    if i <= 0 {
        0
    } else {
        base_sum_upto(data, i - 1) + base_freq(data, i - 1)
    }
}

/// The normalized frequency of symbol `s`: its base share, with the whole
/// remaining budget given to the least present symbol so the table sums to
/// exactly 4096.
pub open spec fn norm_freq(data: Seq<u8>, s: int) -> nat {
    base_freq(data, s) + if s == first_present(data, 0) {
        (4096 - base_sum_upto(data, 256)) as nat
    } else {
        0
    }
}

/// The frequencies of the symbols below `s`, summed: the cumulative table.
pub open spec fn freq_sum_upto(nf: Seq<u32>, s: int) -> int
    decreases s,
{
    if s <= 0 {
        0
    } else {
        freq_sum_upto(nf, s - 1) + nf[s - 1]
    }
}

/// The bytes the encoder's renormalization emits from `state` under
/// `bound`, low byte first, with the state that remains.
pub open spec fn renorm_spec(state: u32, bound: u32) -> (Seq<u8>, u32)
    decreases state via renorm_spec_decreases
{
    if bound < 4096 || state < bound {
        (Seq::empty(), state)
    } else {
        let r = renorm_spec(state >> 8, bound);
        (seq![(state & 0xff) as u8] + r.0, r.1)
    }
}

#[via_fn]
proof fn renorm_spec_decreases(state: u32, bound: u32) {
    assert(state >= 4096 ==> (state >> 8) < state) by (bit_vector);
}

/// One encoder step for a symbol with frequency `f` and cumulative base
/// `b`: renormalize, then fold the symbol into the state.
pub open spec fn enc_step(state: u32, f: u32, b: u32) -> (Seq<u8>, u32) {
    if f == 0 || f > 4096 || b > 4096 {
        (Seq::empty(), state)
    } else {
        let r = renorm_spec(state, f << 12u32);
        let s1 = r.1;
        (r.0, (s1 / f) << 12u32 | ((s1 % f + b) as u32))
    }
}

/// The emitted bytes and state after encoding `data[i..]`, which the
/// encoder processes back to front so that `data[i]` is folded in last.
pub open spec fn enc_from(data: Seq<u8>, nf: Seq<u32>, i: int) -> (Seq<u8>, u32)
    decreases data.len() - i,
{
    if i < 0 || i >= data.len() {
        (Seq::empty(), 0x1_0000)
    } else {
        let prev = enc_from(data, nf, i + 1);
        let s = data[i] as int;
        let st = enc_step(prev.1, nf[s], freq_sum_upto(nf, s) as u32);
        (prev.0 + st.0, st.1)
    }
}

/// The embedded table: 256 little-endian 16-bit frequencies.
pub open spec fn table_bytes_upto(nf: Seq<u32>, i: int) -> Seq<u8>
    decreases i,
{
    if i <= 0 {
        Seq::empty()
    } else {
        table_bytes_upto(nf, i - 1) + le16_bytes((nf[i - 1] & 0xffff) as u16)
    }
}

/// The normalized frequency table of `data` as a sequence.
pub open spec fn norm_table(data: Seq<u8>) -> Seq<u32> {
    Seq::new(256, |s: int| norm_freq(data, s) as u32)
}

/// Everything the encoder emits for a non-empty input.
pub open spec fn rans_encoded_bytes(data: Seq<u8>) -> Seq<u8> {
    let nf = norm_table(data);
    let e = enc_from(data, nf, 0);
    le32_bytes(e.1) + e.0 + table_bytes_upto(nf, 256)
}


/// The frequency table embedded in the last 512 bytes of `data`.
pub open spec fn table_at(data: Seq<u8>, s: int) -> u32 {
    u16_from_le(data[data.len() - 512 + 2 * s], data[data.len() - 512 + 2 * s + 1]) as u32
}

/// The whole embedded table as a sequence.
pub open spec fn table_seq(data: Seq<u8>) -> Seq<u32> {
    Seq::new(256, |s: int| table_at(data, s))
}

/// The symbol owning `slot` in the cumulative table: the first whose
/// cumulative range reaches past it.
pub open spec fn sym_scan(nf: Seq<u32>, slot: int, s: int) -> int
    decreases 256 - s,
{
    if s >= 255 {
        255
    } else if slot < freq_sum_upto(nf, s + 1) {
        s
    } else {
        sym_scan(nf, slot, s + 1)
    }
}

/// One decoder step: take the symbol owning the low twelve bits and fold
/// it back out of the state.
pub open spec fn dec_step_spec(nf: Seq<u32>, state: u32) -> (int, u32) {
    let slot = (state & 0xfff) as int;
    let s = sym_scan(nf, slot, 0);
    let f = nf[s] as int;
    let b = freq_sum_upto(nf, s);
    (s, (f * ((state >> 12u32) as int) + slot - b) as u32)
}

/// Refilling pulls bytes from the high end of the renormalization range
/// until the state is back above the low-water mark.
pub open spec fn refill_spec(data: Seq<u8>, state: u32, pos: int) -> (u32, int)
    decreases pos,
{
    if state >= 0x1_0000 || pos < 4 {
        (state, pos)
    } else {
        refill_spec(data, (state << 8u32) | (data[pos] as u32), pos - 1)
    }
}

/// Decoding `count` symbols; `None` is a renormalization underflow, a
/// corrupt container.
pub open spec fn dec_loop_spec(data: Seq<u8>, nf: Seq<u32>, state: u32, pos: int, count: nat)
    -> Option<Seq<u8>>
    decreases count,
{
    if count == 0 {
        Some(Seq::empty())
    } else {
        let st = dec_step_spec(nf, state);
        let rf = refill_spec(data, st.1, pos);
        if count > 1 && rf.0 < 0x1_0000 && rf.1 < 4 {
            None
        } else {
            match dec_loop_spec(data, nf, rf.0, rf.1, (count - 1) as nat) {
                Some(rest) => Some(seq![(st.0 as u8)] + rest),
                None => None,
            }
        }
    }
}

/// Decoding until the renormalization bytes are exhausted and the state
/// has drained back to the low-water mark, within `fuel` symbols.
pub open spec fn dec_sentinel_spec(data: Seq<u8>, nf: Seq<u32>, state: u32, pos: int, fuel: nat)
    -> Option<Seq<u8>>
    decreases fuel,
{
    if pos < 4 && state == 0x1_0000 {
        Some(Seq::empty())
    } else if fuel == 0 {
        None
    } else {
        let st = dec_step_spec(nf, state);
        let rf = refill_spec(data, st.1, pos);
        match dec_sentinel_spec(data, nf, rf.0, rf.1, (fuel - 1) as nat) {
            Some(rest) => Some(seq![(st.0 as u8)] + rest),
            None => None,
        }
    }
}

/// Prepends already-decoded symbols to a decoder outcome.
pub open spec fn dec_extend8(prefix: Seq<u8>, rest: Option<Seq<u8>>) -> Option<Seq<u8>> {
    match rest {
        Some(r) => Some(prefix + r),
        None => None,
    }
}

/// Prefixing distributes over decoder outcomes.
proof fn lemma_dec_extend8_assoc(a: Seq<u8>, b: Seq<u8>, rest: Option<Seq<u8>>)
    ensures
        dec_extend8(a, dec_extend8(b, rest)) == dec_extend8(a + b, rest),
{
    match rest {
        Some(r) => {
            assert(a + (b + r) =~= (a + b) + r);
        },
        None => {},
    }
}

/// The found symbol's cumulative range really holds the slot.
proof fn lemma_sym_scan_range(nf: Seq<u32>, slot: int, s: int)
    requires
        nf.len() == 256,
        freq_sum_upto(nf, 256) == 4096,
        0 <= s <= 255,
        freq_sum_upto(nf, s) <= slot < 4096,
    ensures
        ({
            let y = sym_scan(nf, slot, s);
            &&& s <= y <= 255
            &&& freq_sum_upto(nf, y) <= slot
            &&& slot < freq_sum_upto(nf, y + 1)
        }),
    decreases 256 - s,
{
    if s >= 255 {
        assert(freq_sum_upto(nf, 256) == 4096);
    } else if slot < freq_sum_upto(nf, s + 1) {
    } else {
        lemma_sym_scan_range(nf, slot, s + 1);
    }
}

/// Occurrence counts of a longer-by-one sequence.
proof fn lemma_count_drop(data: Seq<u8>)
    requires
        data.len() > 0,
    ensures
        forall|s: int| count_of(data, s) == count_of(data.drop_last(), s) + if data.last() == s {
            1nat
        } else {
            0nat
        },
{
}

/// The counts of all 256 symbols sum to the length of the data.
proof fn lemma_count_sum(data: Seq<u8>)
    requires
        forall|t: int| 0 <= t < data.len() ==> 0 <= #[trigger] data[t] < 256,
    ensures
        count_sum_upto(data, 256) == data.len(),
    decreases data.len(),
{
    if data.len() == 0 {
        lemma_count_sum_zero(data, 256);
    } else {
        let dl = data.drop_last();
        assert(forall|t: int| 0 <= t < dl.len() ==> 0 <= #[trigger] dl[t] < 256);
        lemma_count_sum(dl);
        lemma_count_sum_step(data, dl, 256, data.last() as int);
    }
}

/// An empty sequence has no occurrences at all.
proof fn lemma_count_sum_zero(data: Seq<u8>, i: int)
    requires
        data.len() == 0,
    ensures
        count_sum_upto(data, i) == 0,
    decreases i,
{
    if i > 0 {
        lemma_count_sum_zero(data, i - 1);
    }
}

/// Appending one symbol raises the total count by one once the sum passes
/// that symbol.
proof fn lemma_count_sum_step(data: Seq<u8>, dl: Seq<u8>, i: int, x: int)
    requires
        data.len() > 0,
        dl == data.drop_last(),
        data.last() == x,
        0 <= x < 256,
    ensures
        count_sum_upto(data, i) == count_sum_upto(dl, i) + if x < i {
            1int
        } else {
            0int
        },
    decreases i,
{
    if i > 0 {
        lemma_count_sum_step(data, dl, i - 1, x);
    }
}

/// Integer division distributes subadditively over addition.
proof fn lemma_div_subadd(a: int, b: int, d: int)
    requires
        a >= 0,
        b >= 0,
        d > 0,
    ensures
        a / d + b / d <= (a + b) / d,
{
    vstd::arithmetic::div_mod::lemma_fundamental_div_mod(a, d);
    vstd::arithmetic::div_mod::lemma_fundamental_div_mod(b, d);
    vstd::arithmetic::div_mod::lemma_mod_bound(a, d);
    vstd::arithmetic::div_mod::lemma_mod_bound(b, d);
    vstd::arithmetic::div_mod::lemma_div_pos_is_pos(a, d);
    vstd::arithmetic::div_mod::lemma_div_pos_is_pos(b, d);
    let q = a / d + b / d;
    assert(q * d <= a + b) by (nonlinear_arith)
        requires
            q == a / d + b / d && a == d * (a / d) + a % d && b == d * (b / d) + b % d && a % d
                >= 0 && b % d >= 0 && d > 0,
    ;
    vstd::arithmetic::div_mod::lemma_div_multiples_vanish(q, d);
    vstd::arithmetic::div_mod::lemma_div_is_ordered(q * d, a + b, d);
}

/// The base shares never exceed the budget: each present symbol holds one
/// slot plus a proportional part whose floors sum below the remainder.
proof fn lemma_base_sum_bound(data: Seq<u8>, i: int)
    requires
        data.len() > 0,
        0 <= i <= 256,
        present_upto(data, 256) <= 4096,
        forall|t: int| 0 <= t < data.len() ==> 0 <= #[trigger] data[t] < 256,
    ensures
        base_sum_upto(data, i) <= present_upto(data, i) + count_sum_upto(data, i) * ((4096
            - present_upto(data, 256)) as nat) / data.len(),
    decreases i,
{
    if i > 0 {
        lemma_base_sum_bound(data, i - 1);
        let n = data.len() as int;
        let rr = (4096 - present_upto(data, 256)) as int;
        let c = count_of(data, i - 1) as int;
        let a = count_sum_upto(data, i - 1) as int;
        if c > 0 {
            lemma_div_subadd(a * rr, c * rr, n);
            assert((a + c) * rr == a * rr + c * rr) by (nonlinear_arith);
        } else {
            assert(base_freq(data, i - 1) == 0);
        }
        assert(rr >= 0);
        assert(a * rr >= 0) by (nonlinear_arith)
            requires
                a >= 0 && rr >= 0,
        ;
        assert(c * rr >= 0) by (nonlinear_arith)
            requires
                c >= 0 && rr >= 0,
        ;
    }
}

/// The number of present symbols is at most 256.
proof fn lemma_present_bound(data: Seq<u8>, i: int)
    requires
        0 <= i,
    ensures
        present_upto(data, i) <= i,
    decreases i,
{
    if i > 0 {
        lemma_present_bound(data, i - 1);
    }
}

/// A present symbol below `i` makes `present_upto(i)` positive, and the
/// least present symbol is a real symbol when the data is non-empty.
proof fn lemma_first_present(data: Seq<u8>, from: int)
    requires
        0 <= from <= 256,
        exists|s: int| from <= s < 256 && count_of(data, s) > 0,
    ensures
        from <= first_present(data, from) < 256,
        count_of(data, first_present(data, from)) > 0,
    decreases 256 - from,
{
    if count_of(data, from) > 0 {
    } else {
        let w = choose|s: int| from <= s < 256 && count_of(data, s) > 0;
        assert(w != from);
        lemma_first_present(data, from + 1);
    }
}

/// The last symbol of a non-empty sequence is present.
proof fn lemma_last_present(data: Seq<u8>)
    requires
        data.len() > 0,
        forall|t: int| 0 <= t < data.len() ==> 0 <= #[trigger] data[t] < 256,
    ensures
        count_of(data, data.last() as int) > 0,
{
}

/// The range variant of asymmetric numeral systems over bytes.
pub struct RansCoder;

impl RansCoder {
    /// Builds the normalized frequency table of `data`: present symbols get
    /// at least one slot, absent symbols none, and the whole table sums to
    /// exactly 4096.
    fn normalize(data: &Vec<u8>) -> (nf: Vec<u32>)
        requires
            data@.len() > 0,
        ensures
            nf@.len() == 256,
            forall|s: int| 0 <= s < 256 ==> nf@[s] == norm_freq(data@, s),
            freq_sum_upto(nf@, 256) == 4096,
            forall|s: int| 0 <= s < 256 ==> ((nf@[s] > 0) <==> count_of(data@, s) > 0),
    {
        let n = data.len();
        let mut counts: Vec<u64> = Vec::new();
        let mut s: usize = 0;
        while s < 256
            invariant
                counts@.len() == s <= 256,
                forall|t: int| 0 <= t < s ==> counts@[t] == 0,
            decreases 256 - s,
        {
            counts.push(0);
            s += 1;
        }
        let mut i: usize = 0;
        while i < n
            invariant
                i <= n == data@.len() <= u64::MAX,
                counts@.len() == 256,
                forall|t: int| 0 <= t < 256 ==> counts@[t] == count_of(data@.take(i as int), t),
            decreases n - i,
        {
            let b = data[i] as usize;
            let old_c = counts[b];
            proof {
                lemma_count_le(data@.take(i as int), b as int);
            }
            counts.set(b, old_c + 1);
            proof {
                let taken = data@.take(i as int + 1);
                assert(taken.drop_last() =~= data@.take(i as int));
                assert(taken.last() == data@[i as int]);
                lemma_count_drop(taken);
            }
            i += 1;
        }
        proof {
            assert(data@.take(n as int) =~= data@);
            assert(forall|t: int| 0 <= t < data@.len() ==> 0 <= #[trigger] data@[t] < 256);
            lemma_count_sum(data@);
        }
        // count the present symbols
        let mut npresent: u32 = 0;
        let mut s2: usize = 0;
        while s2 < 256
            invariant
                s2 <= 256,
                counts@.len() == 256,
                forall|t: int| 0 <= t < 256 ==> counts@[t] == count_of(data@, t),
                npresent == present_upto(data@, s2 as int),
                npresent <= s2,
            decreases 256 - s2,
        {
            if counts[s2] > 0 {
                npresent += 1;
            }
            s2 += 1;
        }
        // base shares
        let remainder: u64 = (4096 - npresent) as u64;
        let mut nf: Vec<u32> = Vec::new();
        let mut sum: u64 = 0;
        let mut s3: usize = 0;
        while s3 < 256
            invariant
                s3 <= 256,
                n == data@.len(),
                n > 0,
                counts@.len() == 256,
                forall|t: int| 0 <= t < 256 ==> counts@[t] == count_of(data@, t),
                remainder == 4096 - present_upto(data@, 256),
                present_upto(data@, 256) <= 256,
                nf@.len() == s3,
                forall|t: int| 0 <= t < s3 ==> nf@[t] == base_freq(data@, t),
                sum == base_sum_upto(data@, s3 as int),
                sum <= 4096,
            decreases 256 - s3,
        {
            let c = counts[s3];
            let f: u64 = if c > 0 {
                proof {
                    lemma_count_le(data@, s3 as int);
                    assert(c * remainder <= 0x1_0000_0000_0000_0000_0000) by (nonlinear_arith)
                        requires
                            c <= 0xffff_ffff_ffff_ffff && remainder <= 4096,
                    ;
                    let ci = c as int;
                    let rr = remainder as int;
                    let ni = n as int;
                    assert(ci * rr <= ni * rr) by (nonlinear_arith)
                        requires
                            ci <= ni && rr >= 0,
                    ;
                    vstd::arithmetic::div_mod::lemma_div_is_ordered(ci * rr, ni * rr, ni);
                    vstd::arithmetic::div_mod::lemma_div_multiples_vanish(rr, ni);
                    assert((ci * rr) / ni <= rr);
                }
                1 + ((c as u128 * remainder as u128) / (n as u128)) as u64
            } else {
                0
            };
            proof {
                assert(forall|t: int| 0 <= t < data@.len() ==> 0 <= #[trigger] data@[t] < 256);
                lemma_present_bound(data@, 256);
                lemma_base_sum_bound(data@, s3 as int + 1);
                lemma_present_mono(data@, s3 as int + 1, 256);
                lemma_count_sum(data@);
                lemma_count_sum_mono(data@, s3 as int + 1, 256);
                lemma_present_mono(data@, s3 as int + 1, 256);
                let rr = (4096 - present_upto(data@, 256)) as int;
                assert(count_sum_upto(data@, s3 as int + 1) as int * rr <= count_sum_upto(
                    data@,
                    256,
                ) as int * rr) by (nonlinear_arith)
                    requires
                        count_sum_upto(data@, s3 as int + 1) <= count_sum_upto(data@, 256) && rr
                            >= 0,
                ;
                assert(count_sum_upto(data@, 256) as int * rr <= data@.len() as int * rr) by (
                nonlinear_arith)
                    requires
                        count_sum_upto(data@, 256) <= data@.len() && rr >= 0,
                ;
                vstd::arithmetic::div_mod::lemma_div_is_ordered(
                    count_sum_upto(data@, s3 as int + 1) as int * rr,
                    count_sum_upto(data@, 256) as int * rr,
                    data@.len() as int,
                );
                vstd::arithmetic::div_mod::lemma_div_is_ordered(
                    count_sum_upto(data@, 256) as int * rr,
                    data@.len() as int * rr,
                    data@.len() as int,
                );
                vstd::arithmetic::div_mod::lemma_div_multiples_vanish(
                    rr,
                    data@.len() as int,
                );
            }
            nf.push(f as u32);
            sum = sum + f;
            s3 += 1;
        }
        // hand the remaining budget to the least present symbol
        let deficit: u64 = 4096 - sum;
        proof {
            lemma_first_present_lb(data@, 0);
        }
        let mut s4: usize = 0;
        while s4 < 256 && nf[s4] == 0
            invariant
                s4 <= 256,
                nf@.len() == 256,
                forall|t: int| 0 <= t < 256 ==> nf@[t] == base_freq(data@, t),
                forall|t: int| 0 <= t < s4 ==> nf@[t] == 0,
                first_present(data@, 0) >= s4,
            decreases 256 - s4,
        {
            proof {
                lemma_first_present_step(data@, s4 as int);
            }
            s4 += 1;
        }
        proof {
            lemma_last_present(data@);
            assert(exists|t: int| 0 <= t < 256 && count_of(data@, t) > 0) by {
                assert(0 <= data@.last() < 256);
                assert(count_of(data@, data@.last() as int) > 0);
            }
            lemma_first_present(data@, 0);
            if s4 < 256 {
                lemma_first_present_found(data@, 0, s4 as int);
            }
        }
        let fp = s4;
        let old_f = nf[fp];
        proof {
            lemma_base_le_sum(data@, fp as int);
            assert(old_f + deficit <= 4096);
        }
        nf.set(fp, old_f + deficit as u32);
        proof {
            assert(nf@[fp as int] == norm_freq(data@, fp as int));
            assert(forall|t: int| 0 <= t < 256 && t != fp ==> nf@[t] == norm_freq(data@, t));
            lemma_freq_sum_split(nf@, data@, 256, fp as int, deficit as int);
        }
        nf
    }


    /// Finds the symbol owning `slot` by scanning the cumulative table.
    fn find_symbol(cum: &Vec<u32>, nf: &Vec<u32>, slot: u32) -> (s: usize)
        requires
            nf@.len() == 256,
            cum@.len() == 257,
            forall|t: int| 0 <= t <= 256 ==> cum@[t] == freq_sum_upto(nf@, t),
            freq_sum_upto(nf@, 256) == 4096,
            slot < 4096,
        ensures
            s == sym_scan(nf@, slot as int, 0),
            s < 256,
            nf@[s as int] > 0,
            freq_sum_upto(nf@, s as int) <= slot < freq_sum_upto(nf@, s as int + 1),
    {
        let mut s: usize = 0;
        while s < 255 && cum[s + 1] <= slot
            invariant
                s <= 255,
                nf@.len() == 256,
                cum@.len() == 257,
                forall|t: int| 0 <= t <= 256 ==> cum@[t] == freq_sum_upto(nf@, t),
                freq_sum_upto(nf@, 256) == 4096,
                slot < 4096,
                sym_scan(nf@, slot as int, 0) == sym_scan(nf@, slot as int, s as int),
                freq_sum_upto(nf@, s as int) <= slot,
            decreases 255 - s,
        {
            s += 1;
        }
        proof {
            lemma_sym_scan_range(nf@, slot as int, s as int);
            if s < 255 {
                assert(sym_scan(nf@, slot as int, s as int) == s as int);
            }
        }
        s
    }

    /// Encodes `data`; an empty input yields an empty output, any other
    /// input yields the little-endian state word, the renormalization
    /// bytes in emission order, and the 512-byte frequency table.
    pub fn encode(data: &Vec<u8>) -> (r: Result<Vec<u8>, CodecError>)
        ensures
            r matches Ok(out) && (if data@.len() == 0 {
                out@ == Seq::<u8>::empty()
            } else {
                out@ == rans_encoded_bytes(data@)
            }),
    {
        if data.len() == 0 {
            let out: Vec<u8> = Vec::new();
            proof {
                assert(out@ =~= Seq::<u8>::empty());
            }
            return Ok(out);
        }
        let nf = Self::normalize(data);
        let mut cum: Vec<u32> = Vec::new();
        cum.push(0);
        let mut s: usize = 0;
        while s < 256
            invariant
                s <= 256,
                nf@.len() == 256,
                freq_sum_upto(nf@, 256) == 4096,
                cum@.len() == s + 1,
                forall|t: int| 0 <= t <= s ==> cum@[t] == freq_sum_upto(nf@, t),
                cum@[s as int] <= 4096,
            decreases 256 - s,
        {
            proof {
                lemma_freq_sum_mono(nf@, s as int + 1, 256);
            }
            let c = cum[s];
            cum.push(c + nf[s]);
            s += 1;
        }
        let n = data.len();
        let mut state: u32 = 0x1_0000;
        let mut out: Vec<u8> = Vec::new();
        let mut i: usize = n;
        proof {
            assert(enc_from(data@, nf@, n as int) == (Seq::<u8>::empty(), 0x1_0000u32));
            assert(out@ =~= Seq::<u8>::empty());
        }
        while i > 0
            invariant
                i <= n == data@.len(),
                nf@.len() == 256,
                cum@.len() == 257,
                forall|t: int| 0 <= t <= 256 ==> cum@[t] == freq_sum_upto(nf@, t),
                forall|t: int| 0 <= t < 256 ==> ((nf@[t] > 0) <==> count_of(data@, t) > 0),
                freq_sum_upto(nf@, 256) == 4096,
                (out@, state) == enc_from(data@, nf@, i as int),
            decreases i,
        {
            i -= 1;
            let sym = data[i] as usize;
            let f = nf[sym];
            let b = cum[sym];
            proof {
                lemma_count_at_index(data@, i as int);
                lemma_freq_le_sum(nf@, sym as int, 256);
                lemma_freq_sum_mono(nf@, sym as int, 256);
                assert(f >= 1 && f <= 4096 && b <= 4096);
            }
            let bound: u32 = f << 12;
            proof {
                assert((f << 12u32) == f * 4096) by (bit_vector)
                    requires
                        f <= 4096,
                ;
                assert(bound >= 4096);
            }
            let ghost state0 = state;
            let ghost out0 = out@;
            while state >= bound
                invariant
                    bound == f * 4096,
                    4096 <= bound,
                    out0.is_prefix_of(out@),
                    renorm_spec(state0, bound).0 == out@.skip(out0.len() as int) + renorm_spec(
                        state,
                        bound,
                    ).0,
                    renorm_spec(state0, bound).1 == renorm_spec(state, bound).1,
                decreases state,
            {
                let ghost pre = out@;
                proof {
                    assert(state & 0xff < 256) by (bit_vector);
                }
                out.push((state & 0xff) as u8);
                proof {
                    let r = renorm_spec(state >> 8, bound);
                    assert(renorm_spec(state, bound).0 == seq![(state & 0xff) as u8] + r.0);
                    assert((state >> 8) < state) by (bit_vector)
                        requires
                            state >= 4096,
                    ;
                    assert(out@.skip(out0.len() as int) =~= pre.skip(out0.len() as int) + seq![
                        (state & 0xff) as u8,
                    ]);
                    assert(pre.skip(out0.len() as int) + (seq![(state & 0xff) as u8] + r.0) =~= (
                    pre.skip(out0.len() as int) + seq![(state & 0xff) as u8]) + r.0);
                }
                state = state >> 8;
            }
            proof {
                assert(renorm_spec(state, bound).0 =~= Seq::<u8>::empty());
                assert(out@.skip(out0.len() as int) + Seq::<u8>::empty() =~= out@.skip(
                    out0.len() as int,
                ));
                assert(out@ =~= out0 + out@.skip(out0.len() as int));
                assert(out@ =~= out0 + renorm_spec(state0, bound).0);
                assert(state == renorm_spec(state0, bound).1);
                assert(state % f < f) by {
                    vstd::arithmetic::div_mod::lemma_mod_bound(state as int, f as int);
                }
            }
            let q2: u32 = state / f;
            let rm: u32 = state % f + b;
            let snew: u32 = q2 << 12 | rm;
            state = snew;
            proof {
                assert((out@, state) == enc_from(data@, nf@, i as int));
            }
        }
        let mut fin: Vec<u8> = Vec::new();
        push_u32_le(&mut fin, state);
        proof {
            assert(fin@ =~= le32_bytes(state) + out@.take(0));
        }
        let mut t: usize = 0;
        while t < out.len()
            invariant
                t <= out@.len(),
                fin@ == le32_bytes(state) + out@.take(t as int),
                (out@, state) == enc_from(data@, nf@, 0),
            decreases out@.len() - t,
        {
            let byte = out[t];
            fin.push(byte);
            proof {
                assert(fin@ =~= le32_bytes(state) + out@.take(t as int + 1));
            }
            t += 1;
        }
        proof {
            assert(out@.take(out@.len() as int) =~= out@);
        }
        let ghost before_table = fin@;
        proof {
            assert(fin@ =~= before_table + table_bytes_upto(nf@, 0));
            assert forall|t2: int| 0 <= t2 < 256 implies nf@[t2] <= 4096 by {
                lemma_freq_le_sum(nf@, t2, 256);
                lemma_freq_sum_mono(nf@, 0, t2);
                lemma_freq_sum_nonneg(nf@, t2);
            }
        }
        let mut s5: usize = 0;
        while s5 < 256
            invariant
                s5 <= 256,
                nf@.len() == 256,
                forall|t2: int| 0 <= t2 < 256 ==> nf@[t2] <= 4096,
                fin@ == before_table + table_bytes_upto(nf@, s5 as int),
            decreases 256 - s5,
        {
            let entry = nf[s5];
            proof {
                assert(entry & 0xffff < 0x1_0000) by (bit_vector);
            }
            push_u16_le(&mut fin, (entry & 0xffff) as u16);
            proof {
                assert(fin@ =~= before_table + table_bytes_upto(nf@, s5 as int + 1));
            }
            s5 += 1;
        }
        proof {
            assert(nf@ =~= norm_table(data@));
            assert(fin@ =~= rans_encoded_bytes(data@));
        }
        Ok(fin)
    }

    /// Decodes `count` symbols, or, with a `count` of zero, decodes until
    /// the renormalization bytes are exhausted and the state has drained
    /// back to the low-water mark. A short input is reported as truncated,
    /// a table that does not sum to 4096 as invalid, and running dry
    /// mid-stream as an underflow. The zero-count mode carries a generous
    /// symbol budget as a safety cap against corrupt containers.
    #[verifier::rlimit(60)]
    pub fn decode(data: &Vec<u8>, count: usize) -> (r: Result<Vec<u8>, CodecError>)
        ensures
            ({
                let n = data@.len();
                let nf = table_seq(data@);
                if n == 0 {
                    r matches Ok(out) && out@ == Seq::<u8>::empty()
                } else if n < 516 {
                    r == Err::<Vec<u8>, CodecError>(CodecError::Truncated)
                } else if freq_sum_upto(nf, 256) != 4096 {
                    r == Err::<Vec<u8>, CodecError>(CodecError::FrequencyTableInvalid)
                } else {
                    let st0 = u32_from_le(data@[0], data@[1], data@[2], data@[3]);
                    let pos0 = n - 513;
                    let d = if count == 0 {
                        dec_sentinel_spec(data@, nf, st0, pos0 as int, (0x1_0000 * (n + 1)) as nat)
                    } else {
                        dec_loop_spec(data@, nf, st0, pos0 as int, count as nat)
                    };
                    match d {
                        Some(vals) => r matches Ok(out) && out@ == vals,
                        None => r == Err::<Vec<u8>, CodecError>(CodecError::BitstreamUnderflow),
                    }
                }
            }),
    {
        let n = data.len();
        if n == 0 {
            let out: Vec<u8> = Vec::new();
            proof {
                assert(out@ =~= Seq::<u8>::empty());
            }
            return Ok(out);
        }
        if n < 516 {
            return Err(CodecError::Truncated);
        }
        let state0 = read_u32_le(data, 0);
        let freq_start = n - 512;
        let mut nf: Vec<u32> = Vec::new();
        let mut sum: u64 = 0;
        let mut s: usize = 0;
        while s < 256
            invariant
                s <= 256,
                n == data@.len() >= 516,
                freq_start == n - 512,
                nf@.len() == s,
                forall|t: int| 0 <= t < s ==> nf@[t] == table_at(data@, t),
                sum == freq_sum_upto(nf@, s as int),
                sum <= 0x1_0000 * s,
            decreases 256 - s,
        {
            let v = read_u16_le(data, freq_start + 2 * s) as u32;
            let ghost nfpre = nf@;
            nf.push(v);
            sum = sum + v as u64;
            proof {
                lemma_freq_sum_congruent(nfpre, nf@, s as int);
                assert(freq_sum_upto(nf@, s as int + 1) == freq_sum_upto(nf@, s as int)
                    + nf@[s as int]);
                assert(forall|t: int| 0 <= t < s ==> nf@[t] == table_at(data@, t));
            }
            s += 1;
        }
        proof {
            assert(nf@ =~= table_seq(data@));
        }
        if sum != 4096 {
            return Err(CodecError::FrequencyTableInvalid);
        }
        let mut cum: Vec<u32> = Vec::new();
        cum.push(0);
        let mut s2: usize = 0;
        while s2 < 256
            invariant
                s2 <= 256,
                nf@.len() == 256,
                freq_sum_upto(nf@, 256) == 4096,
                cum@.len() == s2 + 1,
                forall|t: int| 0 <= t <= s2 ==> cum@[t] == freq_sum_upto(nf@, t),
                cum@[s2 as int] <= 4096,
            decreases 256 - s2,
        {
            proof {
                lemma_freq_sum_mono(nf@, s2 as int + 1, 256);
                lemma_freq_sum_nonneg(nf@, s2 as int);
            }
            let c = cum[s2];
            cum.push(c + nf[s2]);
            s2 += 1;
        }
        let mut state = state0;
        let mut pos: usize = n - 513;
        let ghost st0 = u32_from_le(data@[0], data@[1], data@[2], data@[3]);
        let ghost pos0 = (n - 513) as int;
        proof {
            assert(state == st0);
        }
        let mut out: Vec<u8> = Vec::new();
        if count > 0 {
            proof {
                match dec_loop_spec(data@, nf@, st0, pos0, count as nat) {
                    Some(r0) => {
                        assert(Seq::<u8>::empty() + r0 =~= r0);
                    },
                    None => {},
                }
            }
            let mut c: usize = 0;
            while c < count
                invariant
                    c <= count,
                    n == data@.len() >= 516,
                    nf@.len() == 256,
                    nf@ == table_seq(data@),
                    freq_sum_upto(nf@, 256) == 4096,
                    cum@.len() == 257,
                    forall|t: int| 0 <= t <= 256 ==> cum@[t] == freq_sum_upto(nf@, t),
                    out@.len() == c,
                    pos < n - 512,
                    st0 == u32_from_le(data@[0], data@[1], data@[2], data@[3]),
                    pos0 == n - 513,
                    count > 0,
                    dec_loop_spec(data@, nf@, st0, pos0, count as nat) == dec_extend8(
                        out@,
                        dec_loop_spec(data@, nf@, state, pos as int, (count - c) as nat),
                    ),
                decreases count - c,
            {
                let ghost m = (count - c) as nat;
                let ghost statein = state;
                let ghost posin = pos as int;
                let ghost outin = out@;
                let slot = state & 0xfff;
                proof {
                    assert(state & 0xfff < 4096) by (bit_vector);
                }
                let sy = Self::find_symbol(&cum, &nf, slot);
                let f = nf[sy];
                let b = cum[sy];
                proof {
                    lemma_freq_le_sum(nf@, sy as int, 256);
                    lemma_freq_sum_nonneg(nf@, sy as int);
                    assert(f <= 4096 && b <= slot);
                    assert(state >> 12u32 <= 0xf_ffff) by (bit_vector);
                    assert(f * (state >> 12u32) <= 4096 * 0xf_ffff) by (nonlinear_arith)
                        requires
                            f <= 4096 && state >> 12u32 <= 0xf_ffff,
                    ;
                    assert(f * (state >> 12u32) >= 0) by (nonlinear_arith);
                }
                let state2: u32 = f * (state >> 12) + slot - b;
                out.push(sy as u8);
                proof {
                    assert((sy as u8) as int == dec_step_spec(nf@, statein).0);
                    assert(state2 == dec_step_spec(nf@, statein).1);
                }
                state = state2;
                while state < 0x1_0000 && pos >= 4
                    invariant
                        n == data@.len() >= 516,
                        pos < n - 512,
                        refill_spec(data@, dec_step_spec(nf@, statein).1, posin) == refill_spec(
                            data@,
                            state,
                            pos as int,
                        ),
                    decreases pos,
                {
                    state = (state << 8) | data[pos] as u32;
                    pos -= 1;
                }
                proof {
                    assert(refill_spec(data@, state, pos as int) == (state, pos as int));
                    let rf = refill_spec(data@, dec_step_spec(nf@, statein).1, posin);
                    assert(rf == (state, pos as int));
                }
                c += 1;
                if c < count && state < 0x1_0000 && pos < 4 {
                    proof {
                        assert(dec_loop_spec(data@, nf@, statein, posin, m) == None::<Seq<u8>>);
                        assert(dec_loop_spec(data@, nf@, st0, pos0, count as nat) == dec_extend8(
                            outin,
                            dec_loop_spec(data@, nf@, statein, posin, m),
                        ));
                    }
                    return Err(CodecError::BitstreamUnderflow);
                }
                proof {
                    let sub = dec_loop_spec(data@, nf@, state, pos as int, (m - 1) as nat);
                    assert(dec_loop_spec(data@, nf@, statein, posin, m) == dec_extend8(
                        seq![(dec_step_spec(nf@, statein).0 as u8)],
                        sub,
                    ));
                    lemma_dec_extend8_assoc(
                        out@.drop_last(),
                        seq![(dec_step_spec(nf@, statein).0 as u8)],
                        sub,
                    );
                    assert(out@.drop_last() + seq![(dec_step_spec(nf@, statein).0 as u8)]
                        =~= out@);
                }
            }
            proof {
                assert(dec_loop_spec(data@, nf@, state, pos as int, 0) == Some(
                    Seq::<u8>::empty(),
                ));
                assert(out@ + Seq::<u8>::empty() =~= out@);
            }
            Ok(out)
        } else {
            let mut fuel: u128 = 0x1_0000 * (n as u128 + 1);
            proof {
                match dec_sentinel_spec(data@, nf@, st0, pos0, (0x1_0000 * (n + 1)) as nat) {
                    Some(r0) => {
                        assert(Seq::<u8>::empty() + r0 =~= r0);
                    },
                    None => {},
                }
            }
            while pos >= 4 || state != 0x1_0000
                invariant
                    n == data@.len() >= 516,
                    nf@.len() == 256,
                    nf@ == table_seq(data@),
                    freq_sum_upto(nf@, 256) == 4096,
                    cum@.len() == 257,
                    forall|t: int| 0 <= t <= 256 ==> cum@[t] == freq_sum_upto(nf@, t),
                    pos < n - 512,
                    st0 == u32_from_le(data@[0], data@[1], data@[2], data@[3]),
                    pos0 == n - 513,
                    count == 0,
                    dec_sentinel_spec(data@, nf@, st0, pos0, (0x1_0000 * (n + 1)) as nat)
                        == dec_extend8(
                        out@,
                        dec_sentinel_spec(data@, nf@, state, pos as int, fuel as nat),
                    ),
                decreases fuel,
            {
                let ghost statein = state;
                let ghost posin = pos as int;
                let ghost fuelin = fuel as nat;
                if fuel == 0 {
                    proof {
                        assert(dec_sentinel_spec(data@, nf@, statein, posin, 0)
                            == None::<Seq<u8>>);
                    }
                    return Err(CodecError::BitstreamUnderflow);
                }
                let slot = state & 0xfff;
                proof {
                    assert(state & 0xfff < 4096) by (bit_vector);
                }
                let sy = Self::find_symbol(&cum, &nf, slot);
                let f = nf[sy];
                let b = cum[sy];
                proof {
                    lemma_freq_le_sum(nf@, sy as int, 256);
                    lemma_freq_sum_nonneg(nf@, sy as int);
                    assert(f <= 4096 && b <= slot);
                    assert(state >> 12u32 <= 0xf_ffff) by (bit_vector);
                    assert(f * (state >> 12u32) <= 4096 * 0xf_ffff) by (nonlinear_arith)
                        requires
                            f <= 4096 && state >> 12u32 <= 0xf_ffff,
                    ;
                    assert(f * (state >> 12u32) >= 0) by (nonlinear_arith);
                }
                let state2: u32 = f * (state >> 12) + slot - b;
                out.push(sy as u8);
                proof {
                    assert((sy as u8) as int == dec_step_spec(nf@, statein).0);
                    assert(state2 == dec_step_spec(nf@, statein).1);
                }
                state = state2;
                while state < 0x1_0000 && pos >= 4
                    invariant
                        n == data@.len() >= 516,
                        pos < n - 512,
                        refill_spec(data@, dec_step_spec(nf@, statein).1, posin) == refill_spec(
                            data@,
                            state,
                            pos as int,
                        ),
                    decreases pos,
                {
                    state = (state << 8) | data[pos] as u32;
                    pos -= 1;
                }
                fuel = fuel - 1;
                proof {
                    assert(refill_spec(data@, state, pos as int) == (state, pos as int));
                    let sub = dec_sentinel_spec(data@, nf@, state, pos as int, fuel as nat);
                    assert(dec_sentinel_spec(data@, nf@, statein, posin, fuelin) == dec_extend8(
                        seq![(dec_step_spec(nf@, statein).0 as u8)],
                        sub,
                    ));
                    lemma_dec_extend8_assoc(
                        out@.drop_last(),
                        seq![(dec_step_spec(nf@, statein).0 as u8)],
                        sub,
                    );
                    assert(out@.drop_last() + seq![(dec_step_spec(nf@, statein).0 as u8)]
                        =~= out@);
                }
            }
            proof {
                assert(dec_sentinel_spec(data@, nf@, state, pos as int, fuel as nat) == Some(
                    Seq::<u8>::empty(),
                ));
                assert(out@ + Seq::<u8>::empty() =~= out@);
            }
            Ok(out)
        }
    }
}

/// One occurrence count never exceeds the length.
proof fn lemma_count_le(data: Seq<u8>, s: int)
    ensures
        count_of(data, s) <= data.len(),
    decreases data.len(),
{
    if data.len() > 0 {
        lemma_count_le(data.drop_last(), s);
    }
}

/// The symbol at any index is present.
proof fn lemma_count_at_index(data: Seq<u8>, i: int)
    requires
        0 <= i < data.len(),
    ensures
        count_of(data, data[i] as int) > 0,
    decreases data.len(),
{
    if i == data.len() - 1 {
    } else {
        lemma_count_at_index(data.drop_last(), i);
    }
}

/// Partial count sums grow with the bound.
proof fn lemma_count_sum_mono(data: Seq<u8>, i: int, j: int)
    requires
        0 <= i <= j,
    ensures
        count_sum_upto(data, i) <= count_sum_upto(data, j),
    decreases j - i,
{
    if i < j {
        lemma_count_sum_mono(data, i, j - 1);
    }
}

/// Partial presence counts grow with the bound.
proof fn lemma_present_mono(data: Seq<u8>, i: int, j: int)
    requires
        0 <= i <= j,
    ensures
        present_upto(data, i) <= present_upto(data, j),
    decreases j - i,
{
    if i < j {
        lemma_present_mono(data, i, j - 1);
    }
}

/// Partial frequency sums grow with the bound when entries are unsigned.
proof fn lemma_freq_sum_mono(nf: Seq<u32>, i: int, j: int)
    requires
        0 <= i <= j <= nf.len(),
    ensures
        freq_sum_upto(nf, i) <= freq_sum_upto(nf, j),
    decreases j - i,
{
    if i < j {
        lemma_freq_sum_mono(nf, i, j - 1);
    }
}

/// A single entry is bounded by any sum that passes it.
proof fn lemma_freq_le_sum(nf: Seq<u32>, s: int, j: int)
    requires
        0 <= s < j <= nf.len(),
    ensures
        freq_sum_upto(nf, s) + nf[s] <= freq_sum_upto(nf, j),
    decreases j - s,
{
    if s + 1 < j {
        lemma_freq_le_sum(nf, s, j - 1);
    }
}

/// Raising one entry raises the sum by the same amount.
proof fn lemma_freq_sum_split(nf: Seq<u32>, data: Seq<u8>, i: int, fp: int, deficit: int)
    requires
        nf.len() == 256,
        0 <= fp < 256,
        forall|t: int| 0 <= t < 256 && t != fp ==> nf[t] == base_freq(data, t),
        nf[fp] == base_freq(data, fp) + deficit,
        deficit >= 0,
        0 <= i <= 256,
        deficit == 4096 - base_sum_upto(data, 256),
    ensures
        freq_sum_upto(nf, i) == base_sum_upto(data, i) + if fp < i {
            deficit
        } else {
            0int
        },
    decreases i,
{
    if i > 0 {
        lemma_freq_sum_split(nf, data, i - 1, fp, deficit);
    }
}

/// One base share is bounded by the total of all of them.
proof fn lemma_base_le_sum(data: Seq<u8>, s: int)
    requires
        0 <= s < 256,
    ensures
        base_freq(data, s) <= base_sum_upto(data, 256),
{
    lemma_base_ge_partial(data, s, 256);
}

/// A base share is inside every partial sum that passes it.
proof fn lemma_base_ge_partial(data: Seq<u8>, s: int, j: int)
    requires
        0 <= s < j,
    ensures
        base_sum_upto(data, s) + base_freq(data, s) <= base_sum_upto(data, j),
    decreases j - s,
{
    if s + 1 < j {
        lemma_base_ge_partial(data, s, j - 1);
    }
}

/// Partial frequency sums read only the entries below the bound.
proof fn lemma_freq_sum_congruent(a: Seq<u32>, b: Seq<u32>, i: int)
    requires
        i <= a.len(),
        i <= b.len(),
        forall|t: int| 0 <= t < i ==> a[t] == b[t],
    ensures
        freq_sum_upto(a, i) == freq_sum_upto(b, i),
    decreases i,
{
    if i > 0 {
        lemma_freq_sum_congruent(a, b, i - 1);
    }
}

/// Partial frequency sums are nonnegative.
proof fn lemma_freq_sum_nonneg(nf: Seq<u32>, i: int)
    ensures
        freq_sum_upto(nf, i) >= 0,
    decreases i,
{
    if i > 0 {
        lemma_freq_sum_nonneg(nf, i - 1);
    }
}

/// The least present symbol is at least `from`.
proof fn lemma_first_present_lb(data: Seq<u8>, from: int)
    requires
        0 <= from <= 256,
    ensures
        first_present(data, from) >= from,
    decreases 256 - from,
{
    if from < 256 && count_of(data, from) == 0 {
        lemma_first_present_lb(data, from + 1);
    }
}

/// A present symbol not yet passed pins the least present one down.
proof fn lemma_first_present_found(data: Seq<u8>, from: int, s: int)
    requires
        0 <= from <= s < 256,
        first_present(data, from) >= s,
        count_of(data, s) > 0,
    ensures
        first_present(data, from) == s,
    decreases s - from,
{
    if from == s {
    } else {
        if count_of(data, from) > 0 {
        } else {
            lemma_first_present_found(data, from + 1, s);
        }
    }
}

/// Walking past absent symbols walks toward the least present one.
proof fn lemma_first_present_step(data: Seq<u8>, s: int)
    requires
        0 <= s < 256,
        first_present(data, 0) >= s,
        count_of(data, s) == 0,
    ensures
        first_present(data, 0) >= s + 1,
{
    lemma_first_present_ge(data, 0, s);
}

/// The least present symbol from `from` skips absent symbols.
proof fn lemma_first_present_ge(data: Seq<u8>, from: int, s: int)
    requires
        0 <= from <= s < 256,
        first_present(data, from) >= s,
        count_of(data, s) == 0,
    ensures
        first_present(data, from) >= s + 1,
    decreases s - from,
{
    if from < s {
        if count_of(data, from) > 0 {
        } else {
            lemma_first_present_ge(data, from + 1, s);
        }
    } else {
        lemma_first_present_lb(data, s + 1);
    }
}

} // verus!
