//! dB conversion and 8-bit quantization of Q16 magnitudes, built on a
//! fixed-point binary logarithm whose monotonicity is proved.

use vstd::prelude::*;
use crate::fixed::{lemma_div_bound, ONE};
use vstd::arithmetic::div_mod::{
    lemma_div_denominator, lemma_div_is_ordered, lemma_div_multiples_vanish,
    lemma_fundamental_div_mod, lemma_multiply_divide_lt,
};

verus! {

/// Q16 dB carried by one binary order of magnitude on the amplitude
/// (20 log10) scale: `20 log10(2) * ONE`, rounded down.
pub const DB20_PER_OCTAVE: i64 = 394566;

/// Q16 dB per binary order of magnitude on the power (10 log10) scale.
pub const DB10_PER_OCTAVE: i64 = 197283;

/// Powers of two.
pub open spec fn pw2(e: int) -> int
    decreases e,
{
    if e <= 0 {
        1
    } else {
        2 * pw2(e - 1)
    }
}

/// The binary order of magnitude of `m`: the exponent of the highest
/// power of two not above `m` (zero below 2).
pub open spec fn ilog2(m: int) -> int
    decreases m,
{
    if m < 2 {
        0
    } else {
        1 + ilog2(m / 2)
    }
}

/// `m` normalized into `[ONE, 2 ONE)` by its binary order of magnitude.
pub open spec fn norm16(m: int) -> int {
    m * 65536 / pw2(ilog2(m))
}

/// Fractional bits of the binary logarithm of `x` in `[ONE, 2 ONE)`,
/// `k` bits deep, by repeated squaring.
pub open spec fn log_frac(x: int, k: nat) -> int
    decreases k,
{
    if k == 0 {
        0
    } else {
        let y = x * x / 65536;
        if y >= 131072 {
            pw2(k - 1) + log_frac(y / 2, (k - 1) as nat)
        } else {
            log_frac(y, (k - 1) as nat)
        }
    }
}

/// The Q16 binary logarithm of a positive Q16 value:
/// `log2(m / ONE) * ONE`, truncated to 16 fractional bits.
pub open spec fn log2_q16(m: int) -> int {
    (ilog2(m) - 16) * 65536 + log_frac(norm16(m), 16)
}

/// The quantized byte of a Q16 magnitude under `gain` and `range`
/// (both Q16 dB): the dB window `[-gain - range, -gain]` mapped onto
/// `[0, 255]`, clamped at both ends. `db` is held at scale `ONE^2`.
pub open spec fn quantize_spec(m: int, gain: int, range: int) -> int {
    let db = log2_q16(if m >= 1 {
        m
    } else {
        1
    }) * 394566;
    let lo = (-gain - range) * 65536;
    let hi = (-gain) * 65536;
    if db < lo {
        0
    } else if db > hi {
        255
    } else {
        (db - lo) * 255 / (range * 65536)
    }
}

/// `pw2(16)` is `ONE`.
pub proof fn lemma_pw2_16()
    ensures
        pw2(16) == 65536,
        pw2(15) == 32768,
{
    reveal_with_fuel(pw2, 18);
}

/// Powers of two outgrow their exponent.
pub proof fn lemma_pw2_gt(e: int)
    requires
        0 <= e,
    ensures
        pw2(e) >= e + 1,
    decreases e,
{
    if e > 0 {
        lemma_pw2_gt(e - 1);
    }
}

/// Powers of two are positive.
pub proof fn lemma_pw2_pos(e: int)
    ensures
        pw2(e) >= 1,
    decreases e,
{
    if e > 0 {
        lemma_pw2_pos(e - 1);
    }
}

/// `ilog2` is never negative.
pub proof fn lemma_ilog2_nonneg(m: int)
    ensures
        ilog2(m) >= 0,
    decreases m,
{
    if m >= 2 {
        lemma_ilog2_nonneg(m / 2);
    }
}

/// `ilog2` grows with its argument.
pub proof fn lemma_ilog2_monotone(m1: int, m2: int)
    requires
        0 <= m1 <= m2,
    ensures
        ilog2(m1) <= ilog2(m2),
    decreases m2,
{
    lemma_ilog2_nonneg(m1);
    lemma_ilog2_nonneg(m2);
    if m1 >= 2 {
        lemma_div_is_ordered(m1, m2, 2);
        lemma_ilog2_monotone(m1 / 2, m2 / 2);
    }
}

/// A value between consecutive powers of two pins its order down.
pub proof fn lemma_ilog2_of_range(m: int, e: int)
    requires
        0 <= e,
        pw2(e) <= m < 2 * pw2(e),
    ensures
        ilog2(m) == e,
    decreases e,
{
    lemma_pw2_pos(e);
    if e == 0 {
        assert(m == 1);
    } else {
        lemma_pw2_pos(e - 1);
        assert(m >= 2);
        assert(pw2(e - 1) <= m / 2 < 2 * pw2(e - 1));
        lemma_ilog2_of_range(m / 2, e - 1);
    }
}

/// Every positive value lies between consecutive powers of two of its
/// order.
pub proof fn lemma_ilog2_range(m: int)
    requires
        m >= 1,
    ensures
        pw2(ilog2(m)) <= m < 2 * pw2(ilog2(m)),
    decreases m,
{
    if m < 2 {
        assert(ilog2(m) == 0);
    } else {
        lemma_ilog2_range(m / 2);
        lemma_ilog2_nonneg(m / 2);
        assert(pw2(ilog2(m)) == 2 * pw2(ilog2(m / 2)));
        lemma_fundamental_div_mod(m, 2);
    }
}

/// The normalized mantissa lies in `[ONE, 2 ONE)`.
pub proof fn lemma_norm16_range(m: int)
    requires
        m >= 1,
    ensures
        65536 <= norm16(m) < 131072,
{
    let e = ilog2(m);
    let p = pw2(e);
    lemma_ilog2_range(m);
    lemma_pw2_pos(e);
    assert(p * 65536 <= m * 65536) by (nonlinear_arith)
        requires
            p <= m,
    ;
    lemma_div_is_ordered(p * 65536, m * 65536, p);
    lemma_div_multiples_vanish(65536, p);
    assert(m * 65536 < p * 131072) by (nonlinear_arith)
        requires
            m < 2 * p,
    ;
    lemma_multiply_divide_lt(m * 65536, p, 131072);
}

/// The fractional bits stay within `[0, pw2(k))`.
pub proof fn lemma_log_frac_bound(x: int, k: nat)
    requires
        65536 <= x < 131072,
    ensures
        0 <= log_frac(x, k) <= pw2(k as int) - 1,
    decreases k,
{
    if k > 0 {
        let y = x * x / 65536;
        assert(65536 <= y < 262144) by (nonlinear_arith)
            requires
                65536 <= x < 131072,
                y == x * x / 65536,
        ;
        if y >= 131072 {
            lemma_log_frac_bound(y / 2, (k - 1) as nat);
        } else {
            lemma_log_frac_bound(y, (k - 1) as nat);
            lemma_pw2_pos(k - 1);
        }
    }
}

/// The fractional bits grow with the mantissa.
pub proof fn lemma_log_frac_monotone(x1: int, x2: int, k: nat)
    requires
        65536 <= x1 <= x2 < 131072,
    ensures
        log_frac(x1, k) <= log_frac(x2, k),
    decreases k,
{
    if k > 0 {
        let y1 = x1 * x1 / 65536;
        let y2 = x2 * x2 / 65536;
        assert(x1 * x1 <= x2 * x2 && 65536 * 65536 <= x1 * x1 && x2 * x2 < 131072 * 131072)
            by (nonlinear_arith)
            requires
                65536 <= x1 <= x2 < 131072,
        ;
        lemma_div_is_ordered(x1 * x1, x2 * x2, 65536);
        assert(65536 <= y1 <= y2 < 262144);
        if y1 >= 131072 && y2 >= 131072 {
            lemma_div_is_ordered(y1, y2, 2);
            lemma_log_frac_monotone(y1 / 2, y2 / 2, (k - 1) as nat);
        } else if y1 < 131072 && y2 < 131072 {
            lemma_log_frac_monotone(y1, y2, (k - 1) as nat);
        } else {
            assert(y1 < 131072 && y2 >= 131072);
            lemma_log_frac_bound(y1, (k - 1) as nat);
            lemma_log_frac_bound(y2 / 2, (k - 1) as nat);
        }
    }
}

/// The Q16 binary logarithm grows with its argument.
pub proof fn lemma_log2_q16_monotone(m1: int, m2: int)
    requires
        1 <= m1 <= m2,
    ensures
        log2_q16(m1) <= log2_q16(m2),
{
    let e1 = ilog2(m1);
    let e2 = ilog2(m2);
    lemma_ilog2_monotone(m1, m2);
    lemma_norm16_range(m1);
    lemma_norm16_range(m2);
    lemma_pw2_16();
    lemma_log_frac_bound(norm16(m1), 16);
    lemma_log_frac_bound(norm16(m2), 16);
    if e1 == e2 {
        lemma_ilog2_range(m1);
        lemma_ilog2_range(m2);
        lemma_pw2_pos(e1);
        assert(m1 * 65536 <= m2 * 65536) by (nonlinear_arith)
            requires
                m1 <= m2,
        ;
        lemma_div_is_ordered(m1 * 65536, m2 * 65536, pw2(e1));
        lemma_log_frac_monotone(norm16(m1), norm16(m2), 16);
    }
}

/// Quantization never maps a larger magnitude below a smaller one: the
/// byte value is monotone in the linear magnitude for fixed gain and
/// range.
pub proof fn lemma_quantize_monotone(m1: int, m2: int, gain: int, range: int)
    requires
        m1 <= m2,
        range >= 1,
    ensures
        quantize_spec(m1, gain, range) <= quantize_spec(m2, gain, range),
{
    let mm1: int = if m1 >= 1 {
        m1
    } else {
        1
    };
    let mm2: int = if m2 >= 1 {
        m2
    } else {
        1
    };
    lemma_log2_q16_monotone(mm1, mm2);
    let d1 = log2_q16(mm1) * 394566;
    let d2 = log2_q16(mm2) * 394566;
    let lo = (-gain - range) * 65536;
    let hi = (-gain) * 65536;
    if d1 >= lo && d1 <= hi {
        if d2 <= hi {
            lemma_div_is_ordered((d1 - lo) * 255, (d2 - lo) * 255, range * 65536);
        } else {
            lemma_div_bound((d1 - lo) * 255, range * 65536, 255);
        }
    } else if d1 < lo && lo <= d2 <= hi {
        vstd::arithmetic::div_mod::lemma_div_pos_is_pos((d2 - lo) * 255, range * 65536);
    }
}

/// The quantizer of the image path: dB centered on the window
/// `[-range/2 - gain, range/2 - gain]` mapped onto `[0, 255]`, with a
/// fixed -80 dB floor for vanished magnitudes. `db` at scale `ONE^2`.
pub open spec fn quantize_centered_spec(m: int, gain: int, range: int) -> int {
    let db = if m >= 1 {
        log2_q16(m) * 394566
    } else {
        -343597383680
    };
    let num = db + range * 32768 + gain * 65536;
    if num <= 0 {
        0
    } else if num >= range * 65536 {
        255
    } else {
        num * 255 / (range * 65536)
    }
}

/// The centered quantizer yields a byte.
pub proof fn lemma_quantize_centered_range(m: int, gain: int, range: int)
    requires
        range >= 1,
    ensures
        0 <= quantize_centered_spec(m, gain, range) <= 255,
{
    let db = if m >= 1 {
        log2_q16(m) * 394566
    } else {
        -343597383680
    };
    let num = db + range * 32768 + gain * 65536;
    if 0 < num < range * 65536 {
        lemma_div_bound(num * 255, range * 65536, 255);
    }
}

/// Quantize a Q16 magnitude for the image path: the dB window is
/// centered by half the range plus the gain, clamped to `[0, 1]` and
/// scaled to a byte, truncating.
pub fn quantize_centered_u8(m: i64, gain: i64, range: i64) -> (q: u8)
    requires
        -0x8000_0000_0000i64 <= m <= 0x8000_0000_0000i64,
        -0x1_0000_0000i64 <= gain <= 0x1_0000_0000i64,
        1 <= range <= 0x1_0000_0000i64,
    ensures
        q as int == quantize_centered_spec(m as int, gain as int, range as int),
{
    let db: i64 = if m >= 1 {
        let l = log2_q16_exec(m as u64);
        l * DB20_PER_OCTAVE
    } else {
        -343597383680
    };
    let num: i64 = db + range * 32768 + gain * 65536;
    if num <= 0 {
        0
    } else if num >= range * 65536 {
        255
    } else {
        proof {
            lemma_div_bound((num as int) * 255, (range as int) * 65536, 255);
        }
        (((num as u64) * 255) / ((range as u64) * 65536)) as u8
    }
}

/// A quantized value is always a byte.
pub proof fn lemma_quantize_spec_range(m: int, gain: int, range: int)
    requires
        range >= 1,
    ensures
        0 <= quantize_spec(m, gain, range) <= 255,
{
    let db = log2_q16(if m >= 1 {
        m
    } else {
        1
    }) * 394566;
    let lo = (-gain - range) * 65536;
    if db >= lo && db <= (-gain) * 65536 {
        lemma_div_bound((db - lo) * 255, range * 65536, 255);
    }
}

/// The binary order of a positive value, with the matching power of
/// two.
fn ilog2_exec(m: u64) -> (r: (u64, u64))
    requires
        1 <= m,
    ensures
        r.0 == ilog2(m as int),
        r.1 == pw2(r.0 as int),
        r.1 <= m < 2 * r.1,
{
    let mut e: u64 = 0;
    let mut p: u64 = 1;
    let mut t: u64 = m;
    while t >= 2
        invariant
            1 <= m,
            p == pw2(e as int),
            t == m as int / p as int,
            1 <= t,
            1 <= p <= m,
            e < p,
        decreases t,
    {
        proof {
            lemma_pw2_gt(e as int + 1);
            lemma_div_denominator(m as int, p as int, 2);
            lemma_fundamental_div_mod(m as int, (p as int) * 2);
            assert((p as int) * 2 <= m) by {
                assert(m as int / ((p as int) * 2) >= 1);
                vstd::arithmetic::div_mod::lemma_div_pos_is_pos(m as int, (p as int) * 2);
                if (p as int) * 2 > m {
                    vstd::arithmetic::div_mod::lemma_basic_div(m as int, (p as int) * 2);
                }
            }
        }
        t = t / 2;
        p = p * 2;
        e = e + 1;
    }
    proof {
        lemma_fundamental_div_mod(m as int, p as int);
        lemma_ilog2_of_range(m as int, e as int);
    }
    (e, p)
}

/// The fractional bits of the binary logarithm, `k` bits deep.
fn log_frac_exec(x: u64, k: u64) -> (r: u64)
    requires
        65536 <= x < 131072,
        k <= 16,
    ensures
        r == log_frac(x as int, k as nat),
        r < 65536,
    decreases k,
{
    proof {
        lemma_log_frac_bound(x as int, k as nat);
        lemma_pw2_16();
        if k < 16 {
            assert(pw2(k as int) <= pw2(16)) by {
                lemma_pw2_increases(k as int, 16);
            }
        }
    }
    if k == 0 {
        0
    } else {
        proof {
            assert(65536 * 65536 <= (x as int) * (x as int) && (x as int) * (x as int) < 131072
                * 131072) by (nonlinear_arith)
                requires
                    65536 <= x < 131072,
            ;
        }
        let y = (x * x) / 65536;
        if y >= 131072 {
            let rest = log_frac_exec(y / 2, k - 1);
            let bit = pw2_exec(k - 1);
            proof {
                lemma_log_frac_bound((y / 2) as int, (k - 1) as nat);
                lemma_pw2_16();
                lemma_pw2_increases(k as int - 1, 15);
            }
            bit + rest
        } else {
            log_frac_exec(y, k - 1)
        }
    }
}

/// Powers of two grow with the exponent.
pub proof fn lemma_pw2_increases(e1: int, e2: int)
    requires
        e1 <= e2,
    ensures
        pw2(e1) <= pw2(e2),
    decreases e2 - e1,
{
    if e1 < e2 {
        lemma_pw2_increases(e1, e2 - 1);
        lemma_pw2_pos(e2 - 1);
        if e2 <= 0 {
        } else {
        }
    }
}

/// A small power of two.
fn pw2_exec(e: u64) -> (p: u64)
    requires
        e <= 16,
    ensures
        p == pw2(e as int),
        p <= 65536,
{
    proof {
        lemma_pw2_16();
        lemma_pw2_increases(e as int, 16);
    }
    let mut p: u64 = 1;
    let mut i: u64 = 0;
    while i < e
        invariant
            i <= e <= 16,
            p == pw2(i as int),
            p <= 65536,
        decreases e - i,
    {
        proof {
            lemma_pw2_increases(i as int + 1, 16);
            lemma_pw2_16();
        }
        p = p * 2;
        i = i + 1;
    }
    p
}

/// The Q16 binary logarithm of a positive value.
pub fn log2_q16_exec(m: u64) -> (l: i64)
    requires
        1 <= m,
    ensures
        l == log2_q16(m as int),
        -1048576 <= l <= 4194304,
{
    let (e, p) = ilog2_exec(m);
    proof {
        lemma_ilog2_nonneg(m as int);
        assert(e <= 63) by {
            if e >= 64 {
                lemma_pw2_increases(64, e as int);
                reveal_with_fuel(pw2, 66);
            }
        }
        lemma_norm16_range(m as int);
    }
    let x: u64 = (((m as u128) * 65536) / (p as u128)) as u64;
    let frac = log_frac_exec(x, 16);
    (e as i64 - 16) * 65536 + (frac as i64)
}

/// Quantize a Q16 magnitude to a byte under `gain` and `range` (Q16
/// dB): dB below `-gain - range` give 0, above `-gain` give 255, and
/// the window between is mapped linearly, truncating.
pub fn quantize_u8(m: i64, gain: i64, range: i64) -> (q: u8)
    requires
        -0x8000_0000_0000i64 <= m <= 0x8000_0000_0000i64,
        -0x1_0000_0000i64 <= gain <= 0x1_0000_0000i64,
        1 <= range <= 0x1_0000_0000i64,
    ensures
        q as int == quantize_spec(m as int, gain as int, range as int),
{
    let mm: u64 = if m < 1 {
        1
    } else {
        m as u64
    };
    let l = log2_q16_exec(mm);
    let db: i64 = l * DB20_PER_OCTAVE;
    let lo: i64 = (0 - gain - range) * 65536;
    let hi: i64 = (0 - gain) * 65536;
    if db < lo {
        0
    } else if db > hi {
        255
    } else {
        proof {
            lemma_div_bound((db as int - lo as int) * 255, (range as int) * 65536, 255);
        }
        ((((db - lo) as u64) * 255) / ((range as u64) * 65536)) as u8
    }
}

} // verus!
