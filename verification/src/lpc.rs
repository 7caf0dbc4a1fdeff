//! Linear-predictive stage in exact integer arithmetic.
//!
//! Autocorrelation of an integer signal is itself an integer and is computed
//! exactly. Predictor coefficients are fixed-point values with 32 fractional
//! bits, carried as `i64` and stored in the container's eight-byte
//! coefficient fields. The prediction is rounded to the nearest integer,
//! halves away from zero, on both sides, so residual recovery is exact for
//! every coefficient vector.

use vstd::prelude::*;

verus! {

/// Clamps `v` into `[lo, hi]`.
pub open spec fn clamp_spec(v: int, lo: int, hi: int) -> int {
    if v < lo {
        lo
    } else if v > hi {
        hi
    } else {
        v
    }
}

/// The exact sum of `s[i] * s[i - k]` over `i` in `[k, upto)`.
pub open spec fn autocorr_sum(s: Seq<i32>, k: int, upto: int) -> int
    decreases upto,
{
    if upto <= k || upto <= 0 {
        0
    } else {
        autocorr_sum(s, k, upto - 1) + s[upto - 1] * s[upto - 1 - k]
    }
}

/// The autocorrelation of `s` at lag `k`, saturated into `i64`.
pub open spec fn autocorr_lag_spec(s: Seq<i32>, k: int) -> i64 {
    clamp_spec(autocorr_sum(s, k, s.len() as int), i64::MIN as int, i64::MAX as int) as i64
}

/// The raw prediction sum `sum coeffs[j] * s[i - j - 1]` over the `j < jn`
/// with `j + 1 <= i`, in fixed point with 32 fractional bits.
pub open spec fn pred_sum(coeffs: Seq<i64>, s: Seq<i32>, i: int, jn: int) -> int
    decreases jn,
{
    if jn <= 0 {
        0
    } else {
        pred_sum(coeffs, s, i, jn - 1) + if i > jn - 1 {
            coeffs[jn - 1] * s[i - jn]
        } else {
            0
        }
    }
}

/// Rounds a fixed-point value with 32 fractional bits to the nearest
/// integer, halves away from zero.
pub open spec fn round_q32(p: int) -> int {
    if p >= 0 {
        (p + 0x8000_0000) / 0x1_0000_0000
    } else {
        0 - ((0 - p + 0x8000_0000) / 0x1_0000_0000)
    }
}

/// Saturates an integer into `i32`.
pub open spec fn sat_i32(v: int) -> i32 {
    if v > i32::MAX {
        i32::MAX
    } else if v < i32::MIN {
        i32::MIN
    } else {
        v as i32
    }
}

/// The predicted sample before position `i`, from the coefficients and the
/// samples already known there.
pub open spec fn pred_spec(coeffs: Seq<i64>, s: Seq<i32>, i: int) -> i32 {
    sat_i32(round_q32(0 - pred_sum(coeffs, s, i, coeffs.len() as int)))
}

/// Reduces an integer into `i32` by wrapping at 32 bits.
pub open spec fn wrap_i32(v: int) -> i32 {
    let m = v % 0x1_0000_0000;
    if m >= 0x8000_0000 {
        (m - 0x1_0000_0000) as i32
    } else {
        m as i32
    }
}

/// The residual vector of `s` under `coeffs`: each sample minus its
/// rounded prediction, wrapping at 32 bits.
pub open spec fn residuals_spec(s: Seq<i32>, coeffs: Seq<i64>) -> Seq<i32> {
    Seq::new(s.len(), |i: int| wrap_i32(s[i] - pred_spec(coeffs, s, i)))
}

/// The first `n` restored samples: each residual plus the prediction made
/// from the samples already restored.
pub open spec fn restore_prefix(res: Seq<i32>, coeffs: Seq<i64>, n: int) -> Seq<i32>
    decreases n,
{
    if n <= 0 {
        Seq::empty()
    } else {
        let p = restore_prefix(res, coeffs, n - 1);
        p + seq![wrap_i32(res[n - 1] + pred_spec(coeffs, p, n - 1))]
    }
}

/// The signal restored from a whole residual vector.
pub open spec fn restore_spec(res: Seq<i32>, coeffs: Seq<i64>) -> Seq<i32> {
    restore_prefix(res, coeffs, res.len() as int)
}

/// The prediction reads only positions below `i`.
proof fn lemma_pred_sum_congruent(coeffs: Seq<i64>, s1: Seq<i32>, s2: Seq<i32>, i: int, jn: int)
    requires
        i <= s1.len(),
        i <= s2.len(),
        forall|t: int| 0 <= t < i ==> s1[t] == s2[t],
    ensures
        pred_sum(coeffs, s1, i, jn) == pred_sum(coeffs, s2, i, jn),
    decreases jn,
{
    if jn > 0 {
        lemma_pred_sum_congruent(coeffs, s1, s2, i, jn - 1);
    }
}

/// Wrapping keeps the value's class modulo `2^32`, and an `i32` wraps to
/// itself.
proof fn lemma_wrap_cancel(a: i32, p: i32)
    ensures
        wrap_i32(wrap_i32(a - p) + p) == a,
{
    let m: int = 0x1_0000_0000;
    let d: int = a - p;
    let w: int = wrap_i32(d) as int;
    vstd::arithmetic::div_mod::lemma_mod_bound(d, m);
    assert(w == d % m || w == d % m - m);
    let v: int = w + p;
    // v differs from a by a multiple of m
    vstd::arithmetic::div_mod::lemma_fundamental_div_mod(d, m);
    let t: int = d / m;
    assert(d % m == d - m * t);
    assert(v == a - m * t || v == a - m * (t + 1));
    assert(wrap_i32(a - m * t) == a && wrap_i32(a - m * (t + 1)) == a) by {
        lemma_wrap_of_shifted(a, t);
        lemma_wrap_of_shifted(a, t + 1);
    }
}

/// Wrapping an `i32` shifted by any multiple of `2^32` gives it back.
proof fn lemma_wrap_of_shifted(a: i32, t: int)
    ensures
        wrap_i32(a as int - 0x1_0000_0000 * t) == a,
{
    let m: int = 0x1_0000_0000;
    vstd::arithmetic::div_mod::lemma_mod_multiples_vanish(0 - t, a as int, m);
    assert((a as int - m * t) % m == (a as int) % m);
    if a >= 0 {
        vstd::arithmetic::div_mod::lemma_small_mod(a as nat, m as nat);
        assert((a as int) % m == a as int);
    } else {
        vstd::arithmetic::div_mod::lemma_mod_multiples_vanish(1, a as int, m);
        vstd::arithmetic::div_mod::lemma_small_mod((a + m) as nat, m as nat);
        assert((a as int) % m == a as int + m);
    }
}

/// Restoring the residuals of any signal under the same coefficients gives
/// the signal back exactly, whatever the coefficients are.
pub proof fn lemma_lpc_roundtrip(x: Seq<i32>, coeffs: Seq<i64>)
    ensures
        restore_spec(residuals_spec(x, coeffs), coeffs) == x,
{
    lemma_lpc_roundtrip_prefix(x, coeffs, x.len() as int);
    assert(x.take(x.len() as int) =~= x);
}

/// The first `n` restored samples equal the first `n` original ones.
proof fn lemma_lpc_roundtrip_prefix(x: Seq<i32>, coeffs: Seq<i64>, n: int)
    requires
        0 <= n <= x.len(),
    ensures
        restore_prefix(residuals_spec(x, coeffs), coeffs, n) == x.take(n),
    decreases n,
{
    let res = residuals_spec(x, coeffs);
    if n == 0 {
        assert(x.take(0) =~= Seq::<i32>::empty());
    } else {
        lemma_lpc_roundtrip_prefix(x, coeffs, n - 1);
        let p = restore_prefix(res, coeffs, n - 1);
        assert(p == x.take(n - 1));
        lemma_pred_sum_congruent(coeffs, p, x, n - 1, coeffs.len() as int);
        assert(pred_spec(coeffs, p, n - 1) == pred_spec(coeffs, x, n - 1));
        let pr = pred_spec(coeffs, x, n - 1);
        assert(res[n - 1] == wrap_i32(x[n - 1] - pr));
        lemma_wrap_cancel(x[n - 1], pr);
        assert(p + seq![x[n - 1]] =~= x.take(n));
    }
}


/// Zero coefficients predict zero, so the residuals are the samples.
pub proof fn lemma_residuals_zero_coeffs(s: Seq<i32>, coeffs: Seq<i64>)
    requires
        forall|j: int| 0 <= j < coeffs.len() ==> #[trigger] coeffs[j] == 0,
    ensures
        residuals_spec(s, coeffs) == s,
{
    assert forall|i: int| 0 <= i < s.len() implies residuals_spec(s, coeffs)[i] == s[i] by {
        lemma_pred_sum_zero(coeffs, s, i, coeffs.len() as int);
        assert(pred_spec(coeffs, s, i) == 0);
        assert(wrap_i32(s[i] - 0) == s[i]) by {
            lemma_wrap_of_shifted(s[i], 0);
        }
    }
    assert(residuals_spec(s, coeffs) =~= s);
}

/// The prediction sum of all-zero coefficients vanishes.
proof fn lemma_pred_sum_zero(coeffs: Seq<i64>, s: Seq<i32>, i: int, jn: int)
    requires
        jn <= coeffs.len(),
        forall|j: int| 0 <= j < coeffs.len() ==> #[trigger] coeffs[j] == 0,
    ensures
        pred_sum(coeffs, s, i, jn) == 0,
    decreases jn,
{
    if jn > 0 {
        lemma_pred_sum_zero(coeffs, s, i, jn - 1);
        if i > jn - 1 {
            assert(coeffs[jn - 1] * s[i - jn] == 0) by (nonlinear_arith)
                requires
                    coeffs[jn - 1] == 0,
            ;
        }
    }
}

/// Wraps a value already within one turn of the 32-bit range.
fn wrap32(v: i64) -> (r: i32)
    requires
        -0x1_0000_0000 <= v < 0x1_0000_0000,
    ensures
        r == wrap_i32(v as int),
{
    proof {
        let m: int = 0x1_0000_0000;
        if v >= 0 {
            vstd::arithmetic::div_mod::lemma_small_mod(v as nat, m as nat);
        } else {
            vstd::arithmetic::div_mod::lemma_mod_multiples_vanish(1, v as int, m);
            vstd::arithmetic::div_mod::lemma_small_mod((v + m) as nat, m as nat);
        }
    }
    if v >= 0x8000_0000 {
        (v - 0x1_0000_0000) as i32
    } else if v < -0x8000_0000 {
        (v + 0x1_0000_0000) as i32
    } else {
        v as i32
    }
}

/// The rounded, saturated prediction for position `i` of `s`.
fn predict(coeffs: &Vec<i64>, s: &Vec<i32>, i: usize) -> (p: i32)
    requires
        i <= s@.len(),
        coeffs@.len() <= 0x1_0000_0000,
    ensures
        p == pred_spec(coeffs@, s@, i as int),
{
    let jn = coeffs.len();
    let mut acc: i128 = 0;
    let mut j: usize = 0;
    while j < jn
        invariant
            j <= jn == coeffs@.len() <= 0x1_0000_0000,
            i <= s@.len(),
            acc == pred_sum(coeffs@, s@, i as int, j as int),
            -0x4000_0000_0000_0000_0000_0000 * (j as int) <= acc <= 0x4000_0000_0000_0000_0000_0000
                * (j as int),
        decreases jn - j,
    {
        if i > j {
            let c = coeffs[j];
            let x = s[i - j - 1];
            proof {
                assert((c as int) * (x as int) <= 0x4000_0000_0000_0000_0000_0000 && (c as int) * (
                x as int) >= -0x4000_0000_0000_0000_0000_0000) by (nonlinear_arith)
                    requires
                        -0x8000_0000_0000_0000 <= c <= 0x7fff_ffff_ffff_ffff && -0x8000_0000 <= x
                            <= 0x7fff_ffff,
                ;
                assert(0x4000_0000_0000_0000_0000_0000 * ((j + 1) as int)
                    == 0x4000_0000_0000_0000_0000_0000 * (j as int)
                    + 0x4000_0000_0000_0000_0000_0000) by (nonlinear_arith);
                assert(0x4000_0000_0000_0000_0000_0000 * ((j + 1) as int)
                    <= 0x4000_0000_0000_0000_0000_0000 * 0x1_0000_0000) by (nonlinear_arith)
                    requires
                        (j as int) + 1 <= 0x1_0000_0000,
                ;
            }
            acc = acc + (c as i128) * (x as i128);
        }
        proof {
            if !(i > j) {
                assert(0x4000_0000_0000_0000_0000_0000 * ((j + 1) as int)
                    >= 0x4000_0000_0000_0000_0000_0000 * (j as int)) by (nonlinear_arith);
            }
        }
        j += 1;
    }
    let p: i128 = -acc;
    let rounded: i128 = if p >= 0 {
        (p + 0x8000_0000) / 0x1_0000_0000
    } else {
        -((-p + 0x8000_0000) / 0x1_0000_0000)
    };
    if rounded > 0x7fff_ffff {
        0x7fff_ffff
    } else if rounded < -0x8000_0000 {
        -0x8000_0000
    } else {
        rounded as i32
    }
}

/// Computes the exact autocorrelation of `signal` for lags `0 ..= order`,
/// each saturated into `i64`.
pub fn autocorrelation(signal: &Vec<i32>, order: usize) -> (r: Vec<i64>)
    requires
        order < usize::MAX,
        signal@.len() <= 0x1_0000_0000_0000_0000,
    ensures
        r@.len() == order + 1,
        forall|k: int| 0 <= k <= order ==> r@[k] == autocorr_lag_spec(signal@, k),
{
    let n = signal.len();
    let mut r: Vec<i64> = Vec::new();
    let mut k: usize = 0;
    while k <= order
        invariant
            k <= order + 1,
            order < usize::MAX,
            n == signal@.len() <= 0x1_0000_0000_0000_0000,
            r@.len() == k,
            forall|t: int| 0 <= t < k ==> r@[t] == autocorr_lag_spec(signal@, t),
        decreases order + 1 - k,
    {
        let mut acc: i128 = 0;
        let mut i: usize = if k < n {
            k
        } else {
            n
        };
        while i < n
            invariant
                i <= n == signal@.len() <= 0x1_0000_0000_0000_0000,
                k <= i || i == n,
                acc == autocorr_sum(signal@, k as int, i as int),
                -0x4000_0000_0000_0000 * (i as int) <= acc <= 0x4000_0000_0000_0000 * (i as int),
            decreases n - i,
        {
            let a = signal[i];
            let b = signal[i - k];
            proof {
                assert((a as int) * (b as int) <= 0x4000_0000_0000_0000 && (a as int) * (b as int)
                    >= -0x4000_0000_0000_0000) by (nonlinear_arith)
                    requires
                        -0x8000_0000 <= a <= 0x7fff_ffff && -0x8000_0000 <= b <= 0x7fff_ffff,
                ;
                assert(0x4000_0000_0000_0000 * ((i + 1) as int) == 0x4000_0000_0000_0000 * (
                i as int) + 0x4000_0000_0000_0000) by (nonlinear_arith);
                assert(0x4000_0000_0000_0000 * ((i + 1) as int) <= 0x4000_0000_0000_0000
                    * 0x1_0000_0000_0000_0000) by (nonlinear_arith)
                    requires
                        (i as int) + 1 <= 0x1_0000_0000_0000_0000,
                ;
            }
            acc = acc + (a as i128) * (b as i128);
            i += 1;
        }
        let clamped: i64 = if acc > 0x7fff_ffff_ffff_ffff {
            0x7fff_ffff_ffff_ffff
        } else if acc < -0x8000_0000_0000_0000 {
            -0x8000_0000_0000_0000
        } else {
            acc as i64
        };
        r.push(clamped);
        k += 1;
    }
    r
}

/// Runs the Levinson-Durbin recursion in fixed point with 32 fractional
/// bits and returns the `order` predictor coefficients. A degenerate
/// autocorrelation at lag zero yields all-zero coefficients; intermediate
/// values are clamped, which can only cost compression, never correctness,
/// since residual recovery holds for every coefficient vector.
pub fn levinson_durbin(r: &Vec<i64>, order: usize) -> (c: Vec<i64>)
    requires
        order <= 255,
        r@.len() == order + 1,
    ensures
        c@.len() == order,
        r@[0] <= 0 ==> forall|i: int| 0 <= i < order ==> c@[i] == 0,
{
    if r[0] <= 0 {
        let mut c: Vec<i64> = Vec::new();
        for i in 0..order
            invariant
                c@.len() == i,
                forall|t: int| 0 <= t < i ==> c@[t] == 0,
        {
            c.push(0);
        }
        return c;
    }
    // normalize so the lag-zero term fits in 31 bits; the recursion only
    // depends on ratios of the autocorrelation values
    let r0 = r[0];
    let mut scale: i64 = 1;
    while r0 / scale >= 0x8000_0000 && scale < 0x1_0000_0000_0000
        invariant
            1 <= scale <= 0x2_0000_0000_0000,
            r0 > 0,
        decreases 0x2_0000_0000_0000 - scale,
    {
        scale = scale * 2;
    }
    let e0 = r0 / scale;
    proof {
        vstd::arithmetic::div_mod::lemma_div_pos_is_pos(r0 as int, scale as int);
    }
    let mut e: i128 = if e0 >= 0x8000_0000 {
        0x7fff_ffff
    } else {
        e0 as i128
    };
    let mut a: Vec<i128> = Vec::new();
    a.push(0x1_0000_0000);
    let mut t: usize = 0;
    while t < order
        invariant
            t <= order,
            a@.len() == t + 1,
        decreases order - t,
    {
        a.push(0);
        t += 1;
    }
    let mut k: usize = 1;
    while k <= order
        invariant
            1 <= k <= order + 1,
            order <= 255,
            r@.len() == order + 1,
            a@.len() == order + 1,
            1 <= scale,
            0 <= e < 0x8000_0000,
        decreases order + 1 - k,
    {
        if e > 0 {
            // lambda = -(sum_{j<k} a[j] * rn[k - j]) / e, in fixed point,
            // with every term clamped into a safe range
            let mut acc: i128 = 0;
            let mut j: usize = 0;
            while j < k
                invariant
                    j <= k <= order,
                    order <= 255,
                    r@.len() == order + 1,
                    a@.len() == order + 1,
                    1 <= scale,
                    -0x10_0000_0000_0000_0000 * (j as int) <= acc
                        <= 0x10_0000_0000_0000_0000 * (j as int),
                decreases k - j,
            {
                let aj = a[j];
                let rkj = (r[k - j] / scale) as i128;
                let ca: i128 = if aj > 0x10_0000_0000 {
                    0x10_0000_0000
                } else if aj < -0x10_0000_0000 {
                    -0x10_0000_0000
                } else {
                    aj
                };
                let cr: i128 = if rkj > 0x1_0000_0000 {
                    0x1_0000_0000
                } else if rkj < -0x1_0000_0000 {
                    -0x1_0000_0000
                } else {
                    rkj
                };
                proof {
                    assert(ca * cr <= 0x10_0000_0000_0000_0000 && ca * cr
                        >= -0x10_0000_0000_0000_0000) by (nonlinear_arith)
                        requires
                            -0x10_0000_0000 <= ca <= 0x10_0000_0000 && -0x1_0000_0000 <= cr
                                <= 0x1_0000_0000,
                    ;
                    assert(0x10_0000_0000_0000_0000 * ((j + 1) as int)
                        == 0x10_0000_0000_0000_0000 * (j as int)
                        + 0x10_0000_0000_0000_0000) by (nonlinear_arith);
                    assert(0x10_0000_0000_0000_0000 * ((j + 1) as int)
                        <= 0x10_0000_0000_0000_0000 * 0x100) by (nonlinear_arith)
                        requires
                            (j as int) + 1 <= 0x100,
                    ;
                }
                acc = acc + ca * cr;
                j += 1;
            }
            let num: i128 = if acc > 0x8000_0000_0000_0000i128 {
                0x8000_0000_0000_0000i128
            } else if acc < -0x8000_0000_0000_0000i128 {
                -0x8000_0000_0000_0000i128
            } else {
                acc
            };
            let lambda_raw: i128 = -(num / e);
            let lambda: i128 = if lambda_raw > 0x2_0000_0000 {
                0x2_0000_0000
            } else if lambda_raw < -0x2_0000_0000 {
                -0x2_0000_0000
            } else {
                lambda_raw
            };
            // fold lambda into the coefficient vector
            let mut new_a: Vec<i128> = Vec::new();
            let mut j2: usize = 0;
            let alen = a.len();
            while j2 < alen
                invariant
                    j2 <= alen == a@.len() == order + 1,
                    order <= 255,
                    new_a@.len() == j2,
                    1 <= k <= order,
                    -0x2_0000_0000 <= lambda <= 0x2_0000_0000,
                decreases alen - j2,
            {
                if 1 <= j2 && j2 < k {
                    let base = a[j2];
                    let other = a[k - j2];
                    let cb: i128 = if base > 0x10_0000_0000 {
                        0x10_0000_0000
                    } else if base < -0x10_0000_0000 {
                        -0x10_0000_0000
                    } else {
                        base
                    };
                    let co: i128 = if other > 0x10_0000_0000 {
                        0x10_0000_0000
                    } else if other < -0x10_0000_0000 {
                        -0x10_0000_0000
                    } else {
                        other
                    };
                    proof {
                        assert(lambda * co <= 0x20_0000_0000_0000_0000 && lambda * co
                            >= -0x20_0000_0000_0000_0000) by (nonlinear_arith)
                            requires
                                -0x2_0000_0000 <= lambda <= 0x2_0000_0000 && -0x10_0000_0000 <= co
                                    <= 0x10_0000_0000,
                        ;
                    }
                    let prod: i128 = lambda * co;
                    new_a.push(cb + prod / 0x1_0000_0000);
                } else if j2 == k {
                    new_a.push(lambda);
                } else {
                    new_a.push(a[j2]);
                }
                j2 += 1;
            }
            a = new_a;
            // e *= 1 - lambda^2, kept nonnegative and below 2^31
            proof {
                assert(lambda * lambda <= 0x4_0000_0000_0000_0000 && lambda * lambda >= 0) by (
                nonlinear_arith)
                    requires
                        -0x2_0000_0000 <= lambda <= 0x2_0000_0000,
                ;
            }
            let lsq: i128 = (lambda * lambda) / 0x1_0000_0000;
            let factor: i128 = 0x1_0000_0000 - lsq;
            let enew: i128 = if factor <= 0 {
                0
            } else {
                proof {
                    assert(e * factor <= 0x8000_0000_0000_0000_0000 && e * factor >= 0) by (
                    nonlinear_arith)
                        requires
                            0 <= e < 0x8000_0000 && 0 < factor <= 0x1_0000_0000,
                    ;
                    assert((e * factor) / 0x1_0000_0000 >= 0) by (nonlinear_arith)
                        requires
                            e * factor >= 0,
                    ;
                }
                (e * factor) / 0x1_0000_0000
            };
            e = if enew >= 0x8000_0000 {
                0x7fff_ffff
            } else {
                enew
            };
        }
        k += 1;
    }
    let mut c: Vec<i64> = Vec::new();
    let mut t2: usize = 1;
    while t2 <= order
        invariant
            1 <= t2 <= order + 1,
            order <= 255,
            a@.len() == order + 1,
            c@.len() == t2 - 1,
        decreases order + 1 - t2,
    {
        let v = a[t2];
        let clamped: i64 = if v > 0x7fff_ffff_ffff_ffff {
            0x7fff_ffff_ffff_ffff
        } else if v < -0x8000_0000_0000_0000 {
            -0x8000_0000_0000_0000
        } else {
            v as i64
        };
        c.push(clamped);
        t2 += 1;
    }
    c
}

/// Subtracts the rounded prediction from each sample, wrapping at 32 bits:
/// the residual vector that [`restore_signal`] inverts exactly.
pub fn compute_residuals(signal: &Vec<i32>, coeffs: &Vec<i64>) -> (res: Vec<i32>)
    requires
        coeffs@.len() <= 0x1_0000_0000,
    ensures
        res@ == residuals_spec(signal@, coeffs@),
{
    let n = signal.len();
    let mut res: Vec<i32> = Vec::new();
    for i in 0..n
        invariant
            n == signal@.len(),
            coeffs@.len() <= 0x1_0000_0000,
            res@.len() == i,
            forall|t: int| 0 <= t < i ==> res@[t] == residuals_spec(signal@, coeffs@)[t],
    {
        let p = predict(coeffs, signal, i);
        let d: i64 = (signal[i] as i64) - (p as i64);
        let w = wrap32(d);
        res.push(w);
    }
    proof {
        assert(res@ =~= residuals_spec(signal@, coeffs@));
    }
    res
}

/// Adds each residual to the prediction made from the samples already
/// restored; the exact inverse of [`compute_residuals`].
pub fn restore_signal(residuals: &Vec<i32>, coeffs: &Vec<i64>) -> (out: Vec<i32>)
    requires
        coeffs@.len() <= 0x1_0000_0000,
    ensures
        out@ == restore_spec(residuals@, coeffs@),
{
    let n = residuals.len();
    let mut out: Vec<i32> = Vec::new();
    for i in 0..n
        invariant
            n == residuals@.len(),
            coeffs@.len() <= 0x1_0000_0000,
            out@.len() == i,
            out@ == restore_prefix(residuals@, coeffs@, i as int),
    {
        let p = predict(coeffs, &out, i);
        let s: i64 = (residuals[i] as i64) + (p as i64);
        let w = wrap32(s);
        out.push(w);
        proof {
            assert(out@ =~= restore_prefix(residuals@, coeffs@, i as int) + seq![
                wrap_i32(residuals@[i as int] + pred_spec(
                    coeffs@,
                    restore_prefix(residuals@, coeffs@, i as int),
                    i as int,
                )),
            ]);
        }
    }
    out
}

} // verus!
