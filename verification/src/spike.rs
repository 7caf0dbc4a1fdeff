//! Spike event coder with vector quantization over a fixed codebook.
//!
//! Detection compares each sample against a root-mean-square threshold; the
//! comparison `|x| > rms * multiplier` is evaluated exactly in integers by
//! squaring both sides, with the multiplier carried in hundredths. Each
//! detected snippet of sixteen samples is replaced by the index of the
//! nearest codebook template under squared Euclidean distance, ties going
//! to the lowest index. This mode is lossy by design.

use vstd::prelude::*;
use crate::bytes::{be32_bytes, lemma_be32_roundtrip, push_u32_be, read_u32_be, u32_from_be};
use crate::errors::CodecError;

verus! {

/// A millionfold sine wave sampled at sixteen points per period.
pub open spec fn sine_micro_spec(j: int) -> i32 {
    if j == 0 {
        0i32
    } else if j == 1 {
        382683i32
    } else if j == 2 {
        707107i32
    } else if j == 3 {
        923880i32
    } else if j == 4 {
        1000000i32
    } else if j == 5 {
        923880i32
    } else if j == 6 {
        707107i32
    } else if j == 7 {
        382683i32
    } else if j == 8 {
        0i32
    } else if j == 9 {
        -382683i32
    } else if j == 10 {
        -707107i32
    } else if j == 11 {
        -923880i32
    } else if j == 12 {
        -1000000i32
    } else if j == 13 {
        -923880i32
    } else if j == 14 {
        -707107i32
    } else {
        -382683i32
    }
}

/// Template `i` at position `j`: `(i/128 - 1) * sin(2*pi*j/16) * 1000`,
/// rounded to the nearest integer with halves away from zero.
pub open spec fn template_spec(i: int, j: int) -> i16 {
    let p = (i - 128) * sine_micro_spec(j);
    (if p >= 0 {
        (p + 64000) / 128000
    } else {
        0 - ((64000 - p) / 128000)
    }) as i16
}

/// The squared Euclidean distance between the first `upto` positions.
pub open spec fn dist_upto(a: Seq<i16>, b: Seq<i16>, upto: int) -> int
    decreases upto,
{
    if upto <= 0 {
        0
    } else {
        dist_upto(a, b, upto - 1) + (a[upto - 1] - b[upto - 1]) * (a[upto - 1] - b[upto - 1])
    }
}

/// The sum of squared samples over the first `upto` positions.
pub open spec fn sumsq_upto(s: Seq<i32>, upto: int) -> int
    decreases upto,
{
    if upto <= 0 {
        0
    } else {
        sumsq_upto(s, upto - 1) + s[upto - 1] * s[upto - 1]
    }
}

/// Whether `|x|` exceeds the threshold `rms * centi / 100`, decided exactly
/// by comparing squares: `x^2 * n * 10000 > sumsq * centi^2`.
pub open spec fn exceeds_spec(x: i32, sumsq: int, n: int, centi: int) -> bool {
    x * x * n * 10000 > sumsq * centi * centi
}


/// The delta field of event `t` in a blob.
pub open spec fn ev_delta(data: Seq<u8>, t: int) -> u32 {
    u32_from_be(data[8 + 5 * t], data[9 + 5 * t], data[10 + 5 * t], data[11 + 5 * t])
}

/// The template index of event `t` in a blob.
pub open spec fn ev_idx(data: Seq<u8>, t: int) -> u8 {
    data[12 + 5 * t]
}

/// The running timestamp after the first `e` deltas, saturated at the top
/// of `u64`.
pub open spec fn ev_ts(data: Seq<u8>, e: int) -> int
    decreases e,
{
    if e <= 0 {
        0
    } else {
        let t2 = ev_ts(data, e - 1) + ev_delta(data, e - 1);
        if t2 > 0xffff_ffff_ffff_ffff {
            0xffff_ffff_ffff_ffff
        } else {
            t2
        }
    }
}

/// The output after replaying the first `e` events of a blob into `total`
/// zeros: each event stamps its template eight positions before its
/// timestamp, later events overwrite earlier ones, and positions at or
/// past the end are skipped.
pub open spec fn replay_upto(data: Seq<u8>, total: nat, e: int) -> Seq<i32>
    decreases e,
{
    if e <= 0 {
        Seq::new(total, |p: int| 0i32)
    } else {
        let prev = replay_upto(data, total, e - 1);
        let ts = ev_ts(data, e);
        let start = if ts >= 8 {
            ts - 8
        } else {
            0
        };
        let idx = ev_idx(data, e - 1) as int;
        Seq::new(total, |p: int|
            if start <= p < start + 16 {
                template_spec(idx, p - start) as i32
            } else {
                prev[p]
            })
    }
}

/// The full replay of a blob: every event its count field declares.
pub open spec fn spike_replay(data: Seq<u8>, total: nat) -> Seq<i32> {
    replay_upto(data, total, u32_from_be(data[4], data[5], data[6], data[7]) as int)
}


/// A sixteen-sample window at `start`, the tail padded with the last
/// sample, each entry truncated to sixteen bits.
pub open spec fn snippet_spec(s: Seq<i32>, start: int) -> Seq<i16> {
    Seq::new(16, |j: int| (if start + j < s.len() {
        s[start + j]
    } else {
        s[s.len() - 1]
    }) as i16)
}

/// Codebook row `i` as a sequence.
pub open spec fn template_row(i: int) -> Seq<i16> {
    Seq::new(16, |j: int| template_spec(i, j))
}

/// The lowest index among the first `t` templates at minimal squared
/// distance from the snippet.
pub open spec fn best_upto(snippet: Seq<i16>, t: int) -> int
    decreases t,
{
    if t <= 1 {
        0
    } else {
        let prev = best_upto(snippet, t - 1);
        if dist_upto(template_row(t - 1), snippet, 16) < dist_upto(
            template_row(prev),
            snippet,
            16,
        ) {
            t - 1
        } else {
            prev
        }
    }
}

/// The event list a left-to-right scan of `s` produces: a sample past the
/// squared threshold yields its position and the nearest template for the
/// window around it, and the scan jumps a window ahead; otherwise it
/// steps one sample.
pub open spec fn scan_events(s: Seq<i32>, centi: int, i: int) -> Seq<(u32, u8)>
    decreases s.len() - i,
{
    if i < 0 || i >= s.len() {
        Seq::empty()
    } else if exceeds_spec(s[i], sumsq_upto(s, s.len() as int), s.len() as int, centi) {
        let start = if i >= 8 {
            i - 8
        } else {
            0
        };
        seq![((i as u32), (best_upto(snippet_spec(s, start), 256) as u8))] + scan_events(
            s,
            centi,
            if i + 16 <= s.len() {
                i + 16
            } else {
                s.len() as int
            },
        )
    } else {
        scan_events(s, centi, i + 1)
    }
}

/// The bytes of an event list from event `e` on, delta-stamped against
/// `last`.
pub open spec fn events_bytes(evs: Seq<(u32, u8)>, e: int, last: u32) -> Seq<u8>
    decreases evs.len() - e,
{
    if e < 0 || e >= evs.len() {
        Seq::empty()
    } else {
        be32_bytes(((evs[e].0 - last) as u32)) + seq![evs[e].1] + events_bytes(evs, e + 1, evs[e].0)
    }
}

/// The spike detector and vector quantizer. The threshold multiplier is
/// carried in hundredths of the root-mean-square.
pub struct SpikeCompressor {
    pub threshold_centi: u32,
    pub snippet_len: usize,
    pub codebook: Vec<Vec<i16>>,
}

impl SpikeCompressor {
    /// The codebook holds 256 sixteen-sample templates of the fixed shape,
    /// and the snippet length is sixteen.
    pub open spec fn wf(&self) -> bool {
        &&& self.codebook@.len() == 256
        &&& forall|i: int| 0 <= i < 256 ==> (#[trigger] self.codebook@[i])@.len() == 16
        &&& forall|i: int, j: int|
            0 <= i < 256 && 0 <= j < 16 ==> (#[trigger] self.codebook@[i]@[j]) == template_spec(
                i,
                j,
            )
        &&& self.snippet_len == 16
        &&& self.threshold_centi <= 0xffff
    }

    /// The threshold multiplier, in hundredths.
    pub open spec fn threshold_centi_spec(&self) -> u32 {
        self.threshold_centi
    }

    /// Builds the deterministic codebook for a threshold multiplier given
    /// in hundredths of the root-mean-square.
    pub fn new(threshold_centi: u32) -> (r: Self)
        requires
            threshold_centi <= 0xffff,
        ensures
            r.wf(),
            r.threshold_centi_spec() == threshold_centi,
    {
        let mut codebook: Vec<Vec<i16>> = Vec::new();
        let mut i: usize = 0;
        while i < 256
            invariant
                i <= 256,
                codebook@.len() == i,
                forall|t: int| 0 <= t < i ==> (#[trigger] codebook@[t])@.len() == 16,
                forall|t: int, j: int|
                    0 <= t < i && 0 <= j < 16 ==> (#[trigger] codebook@[t]@[j]) == template_spec(
                        t,
                        j,
                    ),
            decreases 256 - i,
        {
            let mut template: Vec<i16> = Vec::new();
            let mut j: usize = 0;
            while j < 16
                invariant
                    j <= 16,
                    i < 256,
                    template@.len() == j,
                    forall|t: int| 0 <= t < j ==> template@[t] == template_spec(i as int, t),
                decreases 16 - j,
            {
                let sv = Self::sine_micro(j);
                proof {
                    assert(-128000000 <= ((i as int) - 128) * (sv as int) <= 128000000) by (
                    nonlinear_arith)
                        requires
                            0 <= i < 256 && -1000000 <= sv <= 1000000,
                    ;
                }
                let p: i32 = ((i as i32) - 128) * sv;
                let q: i32 = if p >= 0 {
                    proof {
                        vstd::arithmetic::div_mod::lemma_div_is_ordered(
                            p as int + 64000,
                            128064000,
                            128000,
                        );
                        vstd::arithmetic::div_mod::lemma_div_pos_is_pos(p as int + 64000, 128000);
                    }
                    (p + 64000) / 128000
                } else {
                    proof {
                        vstd::arithmetic::div_mod::lemma_div_is_ordered(
                            64000 - p as int,
                            128064000,
                            128000,
                        );
                        vstd::arithmetic::div_mod::lemma_div_pos_is_pos(64000 - p as int, 128000);
                    }
                    -((64000 - p) / 128000)
                };
                template.push(q as i16);
                j += 1;
            }
            codebook.push(template);
            i += 1;
        }
        SpikeCompressor { threshold_centi, snippet_len: 16, codebook }
    }

    /// One period of the scaled sine shape.
    fn sine_micro(j: usize) -> (v: i32)
        requires
            j < 16,
        ensures
            v == sine_micro_spec(j as int),
            -1000000 <= v <= 1000000,
    {
        if j == 0 {
            0
        } else if j == 1 {
            382683
        } else if j == 2 {
            707107
        } else if j == 3 {
            923880
        } else if j == 4 {
            1000000
        } else if j == 5 {
            923880
        } else if j == 6 {
            707107
        } else if j == 7 {
            382683
        } else if j == 8 {
            0
        } else if j == 9 {
            -382683
        } else if j == 10 {
            -707107
        } else if j == 11 {
            -923880
        } else if j == 12 {
            -1000000
        } else if j == 13 {
            -923880
        } else if j == 14 {
            -707107
        } else {
            -382683
        }
    }

    /// Picks the codebook index whose template is nearest the snippet in
    /// squared Euclidean distance; ties go to the lowest index.
    fn quantize(&self, snippet: &Vec<i16>) -> (best: u8)
        requires
            self.wf(),
            snippet@.len() == 16,
        ensures
            best == best_upto(snippet@, 256),
            forall|t: int|
                0 <= t < 256 ==> dist_upto(self.codebook@[best as int]@, snippet@, 16)
                    <= dist_upto(#[trigger] self.codebook@[t]@, snippet@, 16),
    {
        let mut best: usize = 0;
        let mut best_dist: i64 = Self::distance(&self.codebook[0], snippet);
        let mut t: usize = 1;
        while t < 256
            invariant
                1 <= t <= 256,
                best < t,
                self.wf(),
                snippet@.len() == 16,
                best == best_upto(snippet@, t as int),
                best_dist == dist_upto(self.codebook@[best as int]@, snippet@, 16),
                forall|u: int|
                    0 <= u < t ==> best_dist <= dist_upto(
                        #[trigger] self.codebook@[u]@,
                        snippet@,
                        16,
                    ),
            decreases 256 - t,
        {
            let d = Self::distance(&self.codebook[t], snippet);
            proof {
                assert(self.codebook@[t as int]@ =~= template_row(t as int));
                assert(self.codebook@[best as int]@ =~= template_row(best as int));
            }
            if d < best_dist {
                best = t;
                best_dist = d;
            }
            t += 1;
        }
        proof {
            assert(self.codebook@[0]@ =~= template_row(0));
        }
        best as u8
    }

    /// The exact squared distance between two sixteen-sample vectors.
    fn distance(a: &Vec<i16>, b: &Vec<i16>) -> (d: i64)
        requires
            a@.len() == 16,
            b@.len() == 16,
        ensures
            d == dist_upto(a@, b@, 16),
    {
        let mut d: i64 = 0;
        let mut j: usize = 0;
        while j < 16
            invariant
                j <= 16,
                a@.len() == 16,
                b@.len() == 16,
                d == dist_upto(a@, b@, j as int),
                0 <= d <= 0x4_0000_0000 * (j as int),
            decreases 16 - j,
        {
            let diff: i64 = (a[j] as i64) - (b[j] as i64);
            proof {
                assert(diff * diff <= 0x4_0000_0000 && diff * diff >= 0) by (nonlinear_arith)
                    requires
                        -0x1_0000 <= diff <= 0x1_0000,
                ;
            }
            d = d + diff * diff;
            j += 1;
        }
        d
    }

    /// Detects spikes against the squared threshold, quantizes each one to
    /// the nearest template, and writes the event stream: four big-endian
    /// bytes holding the integer square root of the mean squared sample,
    /// the event count, and one delta-stamped codebook index per event.
    /// The events are exactly the spec-level scan of the input.
    #[verifier::rlimit(100)]
    pub fn encode(&self, samples: &Vec<i32>) -> (r: Result<Vec<u8>, CodecError>)
        requires
            self.wf(),
            samples@.len() < 0x1_0000_0000,
        ensures
            (r matches Ok(out) && {
                let evs = scan_events(samples@, self.threshold_centi as int, 0);
                let msq = if samples@.len() == 0 {
                    0int
                } else {
                    let m0 = sumsq_upto(samples@, samples@.len() as int) / (
                    samples@.len() as int);
                    if m0 > 0xffff_ffff_ffff_ffff {
                        0xffff_ffff_ffff_ffff
                    } else {
                        m0
                    }
                };
                &&& out@.len() == 8 + 5 * evs.len()
                &&& out@.len() == 8 + 5 * (u32_from_be(out@[4], out@[5], out@[6], out@[7]) as int)
                &&& out@.subrange(4, 8) == be32_bytes(evs.len() as u32)
                &&& out@.skip(8) == events_bytes(evs, 0, 0)
                &&& ({
                    let rv = u32_from_be(out@[0], out@[1], out@[2], out@[3]) as int;
                    rv * rv <= msq && msq < (rv + 1) * (rv + 1)
                })
            }),
    {
        let ghost centi = self.threshold_centi as int;
        let n = samples.len();
        let mut sum_sq: u128 = 0;
        let mut i: usize = 0;
        while i < n
            invariant
                i <= n == samples@.len() < 0x1_0000_0000,
                sum_sq == sumsq_upto(samples@, i as int),
                sum_sq <= 0x4000_0000_0000_0000 * (i as int),
            decreases n - i,
        {
            let x = samples[i];
            proof {
                assert((x as int) * (x as int) <= 0x4000_0000_0000_0000 && (x as int) * (x as int)
                    >= 0) by (nonlinear_arith)
                    requires
                        -0x8000_0000 <= x <= 0x7fff_ffff,
                ;
                assert(0x4000_0000_0000_0000 * ((i + 1) as int) == 0x4000_0000_0000_0000 * (
                i as int) + 0x4000_0000_0000_0000) by (nonlinear_arith);
                assert(0x4000_0000_0000_0000 * ((i + 1) as int) <= 0x4000_0000_0000_0000
                    * 0x1_0000_0000) by (nonlinear_arith)
                    requires
                        (i as int) + 1 <= 0x1_0000_0000,
                ;
            }
            sum_sq = sum_sq + (x as i64 as i128 * x as i64 as i128) as u128;
            i += 1;
        }
        // integer root of the mean squared sample, stored for inspection
        let mean_sq: u128 = if n > 0 {
            sum_sq / (n as u128)
        } else {
            0
        };
        let clamped: u64 = if mean_sq > 0xffff_ffff_ffff_ffff {
            0xffff_ffff_ffff_ffff
        } else {
            mean_sq as u64
        };
        let rms_est = Self::isqrt64(clamped);
        let mut events: Vec<(u32, u8)> = Vec::new();
        let mut pos: usize = 0;
        proof {
            assert(Seq::<(u32, u8)>::empty() + scan_events(samples@, centi, 0) =~= scan_events(
                samples@,
                centi,
                0,
            ));
        }
        while pos < n
            invariant
                pos <= n == samples@.len() < 0x1_0000_0000,
                sum_sq == sumsq_upto(samples@, n as int),
                sum_sq <= 0x4000_0000_0000_0000 * (n as int),
                centi == self.threshold_centi as int,
                self.wf(),
                events@.len() <= pos,
                forall|e: int| 0 <= e < events@.len() ==> (#[trigger] events@[e]).0 < pos,
                forall|e: int|
                    0 < e < events@.len() ==> events@[e - 1].0 < (#[trigger] events@[e]).0,
                scan_events(samples@, centi, 0) == events@ + scan_events(
                    samples@,
                    centi,
                    pos as int,
                ),
            decreases n - pos,
        {
            let ghost evpre = events@;
            let x = samples[pos];
            if Self::exceeds(x, sum_sq, n as u64, self.threshold_centi) {
                let start = if pos >= 8 {
                    pos - 8
                } else {
                    0
                };
                let mut snippet: Vec<i16> = Vec::new();
                let mut j: usize = 0;
                while j < 16
                    invariant
                        j <= 16,
                        snippet@.len() == j,
                        n == samples@.len(),
                        n > 0,
                        start < n,
                        forall|t: int|
                            0 <= t < j ==> #[trigger] snippet@[t] == snippet_spec(
                                samples@,
                                start as int,
                            )[t],
                    decreases 16 - j,
                {
                    let idx = if j < n - start {
                        start + j
                    } else {
                        n - 1
                    };
                    let sv = samples[idx];
                    snippet.push(#[verifier::truncate] (sv as i16));
                    j += 1;
                }
                proof {
                    assert(snippet@ =~= snippet_spec(samples@, start as int));
                }
                let tpl = self.quantize(&snippet);
                events.push((pos as u32, tpl));
                let ghost posold = pos as int;
                pos = if n - pos > 16 {
                    pos + 16
                } else {
                    n
                };
                proof {
                    assert(scan_events(samples@, centi, posold) == seq![
                        ((posold as u32), (best_upto(snippet_spec(samples@, start as int), 256) as u8)),
                    ] + scan_events(samples@, centi, pos as int));
                    assert(events@ =~= evpre + seq![((posold as u32), tpl)]);
                    assert(evpre + (seq![((posold as u32), tpl)] + scan_events(
                        samples@,
                        centi,
                        pos as int,
                    )) =~= (evpre + seq![((posold as u32), tpl)]) + scan_events(
                        samples@,
                        centi,
                        pos as int,
                    ));
                }
            } else {
                proof {
                    assert(scan_events(samples@, centi, pos as int) == scan_events(
                        samples@,
                        centi,
                        pos as int + 1,
                    ));
                }
                pos += 1;
            }
        }
        proof {
            assert(scan_events(samples@, centi, pos as int) =~= Seq::<(u32, u8)>::empty());
            assert(events@ + Seq::<(u32, u8)>::empty() =~= events@);
            assert(events@ == scan_events(samples@, centi, 0));
        }
        let mut out: Vec<u8> = Vec::new();
        push_u32_be(&mut out, rms_est);
        let count = events.len();
        push_u32_be(&mut out, count as u32);
        proof {
            lemma_be32_roundtrip(count as u32);
            lemma_be32_roundtrip(rms_est);
            assert(out@.subrange(4, 8) =~= be32_bytes(count as u32));
            assert(out@.skip(8) =~= Seq::<u8>::empty());
            assert(out@.skip(8) + events_bytes(events@, 0, 0) =~= events_bytes(events@, 0, 0));
        }
        let mut last_ts: u32 = 0;
        let mut e: usize = 0;
        while e < count
            invariant
                e <= count == events@.len(),
                out@.len() == 8 + 5 * e,
                out@.subrange(0, 4) == be32_bytes(rms_est),
                out@.subrange(4, 8) == be32_bytes(count as u32),
                forall|t: int|
                    0 < t < events@.len() ==> events@[t - 1].0 < (#[trigger] events@[t]).0,
                e == 0 ==> last_ts == 0,
                e > 0 ==> last_ts == events@[e - 1].0,
                events_bytes(events@, 0, 0) == out@.skip(8) + events_bytes(
                    events@,
                    e as int,
                    last_ts,
                ),
            decreases count - e,
        {
            let ghost outpre = out@;
            let (ts, idx) = events[e];
            proof {
                if e > 0 {
                    assert(events@[e as int - 1].0 < events@[e as int].0);
                }
            }
            push_u32_be(&mut out, ts - last_ts);
            out.push(idx);
            proof {
                assert(events_bytes(events@, e as int, last_ts) == be32_bytes(
                    ((events@[e as int].0 - last_ts) as u32),
                ) + seq![events@[e as int].1] + events_bytes(
                    events@,
                    e as int + 1,
                    events@[e as int].0,
                ));
                assert(out@.skip(8) =~= outpre.skip(8) + (be32_bytes(((ts - last_ts) as u32))
                    + seq![idx]));
                assert(outpre.skip(8) + (be32_bytes(((ts - last_ts) as u32)) + seq![idx]
                    + events_bytes(events@, e as int + 1, ts)) =~= (outpre.skip(8) + (be32_bytes(
                    ((ts - last_ts) as u32),
                ) + seq![idx])) + events_bytes(events@, e as int + 1, ts));
                assert(out@.subrange(0, 4) =~= outpre.subrange(0, 4));
                assert(out@.subrange(4, 8) =~= outpre.subrange(4, 8));
            }
            last_ts = ts;
            e += 1;
        }
        proof {
            assert(events_bytes(events@, count as int, last_ts) =~= Seq::<u8>::empty());
            assert(out@.skip(8) + Seq::<u8>::empty() =~= out@.skip(8));
            assert(out@[0] == be32_bytes(rms_est)[0]);
            assert(out@[1] == be32_bytes(rms_est)[1]);
            assert(out@[2] == be32_bytes(rms_est)[2]);
            assert(out@[3] == be32_bytes(rms_est)[3]);
            assert(out@[4] == be32_bytes(count as u32)[0]);
            assert(out@[5] == be32_bytes(count as u32)[1]);
            assert(out@[6] == be32_bytes(count as u32)[2]);
            assert(out@[7] == be32_bytes(count as u32)[3]);
        }
        Ok(out)
    }

    /// Exact integer decision of `|x| > sqrt(sumsq / n) * centi / 100`.
    fn exceeds(x: i32, sumsq: u128, n: u64, centi: u32) -> (r: bool)
        requires
            sumsq <= 0x4000_0000_0000_0000 * (n as int),
            n < 0x1_0000_0000,
            centi <= 0xffff,
        ensures
            r == exceeds_spec(x, sumsq as int, n as int, centi as int),
    {
        proof {
            assert((x as i128) * (x as i128) <= 0x4000_0000_0000_0000 && (x as i128) * (
            x as i128) >= 0) by (nonlinear_arith)
                requires
                    -0x8000_0000 <= x <= 0x7fff_ffff,
            ;
            assert(0x4000_0000_0000_0000 * (n as int) <= 0x4000_0000_0000_0000
                * 0x1_0000_0000) by (nonlinear_arith)
                requires
                    n < 0x1_0000_0000,
            ;
            let xs = (x as int) * (x as int);
            assert(xs * (n as int) <= 0x4000_0000_0000_0000 * 0x1_0000_0000) by (nonlinear_arith)
                requires
                    0 <= xs <= 0x4000_0000_0000_0000 && 0 <= (n as int) < 0x1_0000_0000,
            ;
            assert(xs * (n as int) >= 0) by (nonlinear_arith)
                requires
                    xs >= 0 && n >= 0,
            ;
            assert(xs * (n as int) * 10000 <= 0x4000_0000_0000_0000 * 0x1_0000_0000 * 10000) by (
            nonlinear_arith)
                requires
                    0 <= xs * (n as int) <= 0x4000_0000_0000_0000 * 0x1_0000_0000,
            ;
            assert((sumsq as int) * (centi as int) <= 0x4000_0000_0000_0000 * 0x1_0000_0000
                * 0x1_0000) by (nonlinear_arith)
                requires
                    0 <= sumsq <= 0x4000_0000_0000_0000 * 0x1_0000_0000 && centi <= 0x1_0000,
            ;
            assert((sumsq as int) * (centi as int) >= 0) by (nonlinear_arith)
                requires
                    sumsq >= 0 && centi >= 0,
            ;
            assert((sumsq as int) * (centi as int) * (centi as int) <= 0x4000_0000_0000_0000
                * 0x1_0000_0000 * 0x1_0000 * 0x1_0000) by (nonlinear_arith)
                requires
                    0 <= (sumsq as int) * (centi as int) <= 0x4000_0000_0000_0000 * 0x1_0000_0000
                        * 0x1_0000 && centi <= 0x1_0000,
            ;
        }
        let xabs: i128 = (x as i128) * (x as i128);
        let lhs: u128 = (xabs as u128) * (n as u128) * 10000;
        let rhs: u128 = sumsq * (centi as u128) * (centi as u128);
        lhs > rhs
    }

    /// The integer square root, rounded down.
    fn isqrt64(m: u64) -> (r: u32)
        ensures
            (r as int) * (r as int) <= m,
            m < (r as int + 1) * (r as int + 1),
    {
        let mut lo: u64 = 0;
        let mut hi: u64 = 0x1_0000_0000;
        proof {
            assert((0x1_0000_0000u64 as int) * (0x1_0000_0000u64 as int) > m as int);
        }
        while lo + 1 < hi
            invariant
                lo < hi <= 0x1_0000_0000,
                lo * lo <= m,
                (hi as int) * (hi as int) > m,
            decreases hi - lo,
        {
            let mid = lo + (hi - lo) / 2;
            proof {
                assert(mid < hi);
                assert(mid * mid <= 0xffff_ffff * 0xffff_ffff) by (nonlinear_arith)
                    requires
                        0 <= mid <= 0xffff_ffff,
                ;
            }
            if mid * mid <= m {
                lo = mid;
            } else {
                hi = mid;
            }
        }
        lo as u32
    }

    /// Replays the event stream into a zero-filled output of
    /// `total_samples` entries: each event adds its delta to the running
    /// timestamp and stamps its template around that position, later events
    /// overwriting earlier ones, positions past the end skipped. The input
    /// must hold the count its own header promises, else it is truncated.
    pub fn decode(&self, data: &Vec<u8>, total_samples: usize) -> (r: Result<Vec<i32>, CodecError>)
        requires
            self.wf(),
        ensures
            ({
                let count = u32_from_be(data@[4], data@[5], data@[6], data@[7]) as int;
                if data@.len() < 8 || 8 + 5 * count > data@.len() {
                    r == Err::<Vec<i32>, CodecError>(CodecError::Truncated)
                } else {
                    r matches Ok(out) && out@ == spike_replay(data@, total_samples as nat)
                }
            }),
    {
        if data.len() < 8 {
            return Err(CodecError::Truncated);
        }
        let count = read_u32_be(data, 4) as usize;
        if count > (usize::MAX - 8) / 5 || 8 + 5 * count > data.len() {
            proof {
                vstd::arithmetic::div_mod::lemma_fundamental_div_mod(
                    (usize::MAX - 8) as int,
                    5,
                );
            }
            return Err(CodecError::Truncated);
        }
        let mut out: Vec<i32> = Vec::new();
        let mut p: usize = 0;
        while p < total_samples
            invariant
                p <= total_samples,
                out@.len() == p,
                forall|t: int| 0 <= t < p ==> out@[t] == 0,
            decreases total_samples - p,
        {
            out.push(0);
            p += 1;
        }
        proof {
            assert(out@ =~= replay_upto(data@, total_samples as nat, 0));
        }
        let mut ts: u64 = 0;
        let mut e: usize = 0;
        while e < count
            invariant
                e <= count,
                count <= (usize::MAX - 8) / 5,
                8 + 5 * count <= data@.len(),
                data@.len() <= usize::MAX,
                self.wf(),
                ts == ev_ts(data@, e as int),
                out@.len() == total_samples,
                out@ == replay_upto(data@, total_samples as nat, e as int),
            decreases count - e,
        {
            let ghost prev = out@;
            let delta = read_u32_be(data, 8 + 5 * e);
            let idx = data[8 + 5 * e + 4] as usize;
            proof {
                assert(delta == ev_delta(data@, e as int));
                assert(idx == ev_idx(data@, e as int));
            }
            ts = {
                let t2 = ts as u128 + delta as u128;
                if t2 > 0xffff_ffff_ffff_ffff {
                    0xffff_ffff_ffff_ffff
                } else {
                    t2 as u64
                }
            };
            proof {
                assert(ts == ev_ts(data@, e as int + 1));
            }
            let start: u64 = if ts >= 8 {
                ts - 8
            } else {
                0
            };
            let mut j: usize = 0;
            while j < 16
                invariant
                    j <= 16,
                    idx < 256,
                    self.wf(),
                    ts == ev_ts(data@, e as int + 1),
                    start == (if ts >= 8 {
                        ts - 8
                    } else {
                        0
                    }),
                    prev.len() == total_samples,
                    out@.len() == total_samples,
                    forall|t: int|
                        0 <= t < total_samples ==> out@[t] == (if start <= t
                            < start + j {
                            template_spec(idx as int, t - start) as i32
                        } else {
                            prev[t]
                        }),
                decreases 16 - j,
            {
                let pos128 = start as u128 + j as u128;
                if pos128 < total_samples as u128 {
                    let pos = (start as usize) + j;
                    let v = self.codebook[idx][j];
                    out.set(pos, v as i32);
                }
                j += 1;
            }
            e += 1;
            proof {
                assert(out@ =~= replay_upto(data@, total_samples as nat, e as int));
            }
        }
        Ok(out)
    }
}

} // verus!
