//! Window-curve generation: a closed set of window families, each a Q16
//! weighting curve of exactly the requested length.

use vstd::prelude::*;
use crate::fixed::{
    abs_i64, cos_turn, cos_turn_spec, div_trunc, exp_neg, exp_q16, half_sine, iabs,
    lemma_cos_turn_bounds, lemma_div_bound, sin_half, tdiv, ONE,
};

verus! {

/// The supported window families. Name-based lookup falls back to `Hann`
/// for unrecognized names, so generation never fails.
#[derive(Clone, Copy, PartialEq, Eq, Structural, Debug)]
pub enum WindowKind {
    Rectangular,
    Triangular,
    Bartlett,
    BartlettHann,
    Blackman,
    Cosine,
    Gauss,
    Hamming,
    Hann,
    Lanczos,
}

/// Angle of index `i` in a curve of length `size`, in Q16 turn units:
/// `i / (size - 1)` of a full turn.
pub open spec fn angle_of(i: int, size: int) -> int {
    i * 65536 / (size - 1)
}

/// The Q16 weight of index `i` in a window of family `kind`, length
/// `size` (at least 2) and shape parameter `alpha` (Q16, `Blackman` only).
pub open spec fn window_value(kind: WindowKind, alpha: int, size: int, i: int) -> int {
    let a1 = angle_of(i, size);
    let c1 = cos_turn_spec(a1);
    let d = iabs(i * 65536 - (size - 1) * 32768);
    match kind {
        WindowKind::Rectangular => 65536,
        WindowKind::Triangular => (size * 65536 - 2 * d) / size,
        WindowKind::Bartlett => ((size - 1) * 65536 - 2 * d) / (size - 1),
        WindowKind::BartlettHann => 40632 - 31457 * iabs(a1 - 32768) / 65536 - tdiv(
            24904 * c1,
            65536,
        ),
        WindowKind::Blackman => {
            let a2 = (2 * i * 65536 / (size - 1)) % 65536;
            let c2 = cos_turn_spec(a2);
            (65536 - alpha) / 2 - tdiv(c1, 2) + tdiv(alpha * c2, 131072)
        },
        WindowKind::Cosine => half_sine(i * 32768 / (size - 1)),
        WindowKind::Gauss => {
            let d8 = d * 8 / (size - 1);
            exp_neg(d8 * d8 / 131072)
        },
        WindowKind::Hamming => 35389 - tdiv(30147 * c1, 65536),
        WindowKind::Hann => (65536 - c1) / 2,
        WindowKind::Lanczos => {
            let ax = iabs(2 * i * 65536 / (size - 1) - 65536);
            let pix = 205887 * ax / 65536;
            let s = half_sine(ax / 2);
            if pix == 0 {
                65536
            } else if s * 65536 / pix < 65536 {
                s * 65536 / pix
            } else {
                65536
            }
        },
    }
}

/// One window weight, computed in Q16 integer arithmetic.
pub fn window_sample(kind: WindowKind, alpha: i64, size: usize, i: usize) -> (v: i64)
    requires
        2 <= size <= 32768,
        i < size,
        -65536 <= alpha <= 65536,
    ensures
        v == window_value(kind, alpha as int, size as int, i as int),
        -131072 <= v <= 131072,
{
    let n1: u64 = (size - 1) as u64;
    proof {
        lemma_div_bound((i as int) * 65536, size - 1, 65536);
    }
    let a1: i64 = (((i as u64) * 65536) / n1) as i64;
    let c1: i64 = cos_turn(a1);
    let half: i64 = (n1 as i64) * 32768;
    let d: i64 = abs_i64((i as i64) * 65536 - half);
    proof {
        assert(d <= (size - 1) * 32768);
    }
    match kind {
        WindowKind::Rectangular => 65536,
        WindowKind::Triangular => {
            proof {
                lemma_div_bound(
                    (size as int) * 65536 - 2 * (d as int),
                    size as int,
                    65536,
                );
            }
            ((((size as u64) * 65536) - 2 * (d as u64)) / (size as u64)) as i64
        },
        WindowKind::Bartlett => {
            proof {
                lemma_div_bound((size - 1) * 65536 - 2 * (d as int), size - 1, 65536);
            }
            (((n1 * 65536) - 2 * (d as u64)) / n1) as i64
        },
        WindowKind::BartlettHann => {
            let dev: i64 = abs_i64(a1 - 32768);
            proof {
                lemma_div_bound(31457 * (dev as int), 65536, 31457);
            }
            let t1: i64 = (((31457u64) * (dev as u64)) / 65536u64) as i64;
            let t2: i64 = div_trunc(24904 * c1, 65536);
            40632 - t1 - t2
        },
        WindowKind::Blackman => {
            proof {
                lemma_div_bound(2 * (i as int) * 65536, size - 1, 131072);
            }
            let a2: i64 = (((2 * (i as u64) * 65536) / n1) % 65536) as i64;
            let c2: i64 = cos_turn(a2);
            let t0: i64 = (((65536 - alpha) as u64) / 2u64) as i64;
            let t1: i64 = div_trunc(c1, 2);
            proof {
                assert(-4294967296int <= (alpha as int) * (c2 as int) <= 4294967296int)
                    by (nonlinear_arith)
                    requires
                        -65536 <= alpha <= 65536,
                        -65536 <= c2 <= 65536,
                ;
            }
            let t2: i64 = div_trunc(alpha * c2, 131072);
            t0 - t1 + t2
        },
        WindowKind::Cosine => {
            proof {
                lemma_div_bound((i as int) * 32768, size - 1, 32768);
            }
            let u: i64 = (((i as u64) * 32768) / n1) as i64;
            sin_half(u)
        },
        WindowKind::Gauss => {
            proof {
                lemma_div_bound((d as int) * 8, size - 1, 262144);
            }
            let d8: i64 = (((d as u64) * 8) / n1) as i64;
            proof {
                assert((d8 as int) * (d8 as int) <= 68719476736int) by (nonlinear_arith)
                    requires
                        0 <= d8 <= 262144,
                ;
            }
            let z: i64 = (((d8 as u64) * (d8 as u64)) / 131072u64) as i64;
            exp_q16(z)
        },
        WindowKind::Hamming => {
            let t1: i64 = div_trunc(30147 * c1, 65536);
            35389 - t1
        },
        WindowKind::Hann => (((65536 - c1) as u64) / 2u64) as i64,
        WindowKind::Lanczos => {
            proof {
                lemma_div_bound(2 * (i as int) * 65536, size - 1, 131072);
            }
            let x2: i64 = ((2 * (i as u64) * 65536) / n1) as i64;
            let ax: i64 = abs_i64(x2 - 65536);
            proof {
                lemma_div_bound(205887 * (ax as int), 65536, 205887);
            }
            let pix: i64 = ((205887u64 * (ax as u64)) / 65536u64) as i64;
            let s: i64 = sin_half(((ax as u64) / 2u64) as i64);
            if pix == 0 {
                65536
            } else {
                proof {
                    assert((s as int) * 65536 <= (pix as int) * ((s as int) * 65536))
                        by (nonlinear_arith)
                        requires
                            pix >= 1,
                            s >= 0,
                    ;
                    lemma_div_bound((s as int) * 65536, pix as int, (s as int) * 65536);
                }
                let q: i64 = (((s as u64) * 65536u64) / (pix as u64)) as i64;
                if q < 65536 {
                    q
                } else {
                    65536
                }
            }
        },
    }
}

/// Generate the full window curve for a family: always exactly `size`
/// weights, each within `[-2 ONE, 2 ONE]`.
pub fn create_window(kind: WindowKind, size: usize, alpha: i64) -> (w: Vec<i64>)
    requires
        2 <= size <= 32768,
        -65536 <= alpha <= 65536,
    ensures
        w@.len() == size,
        forall|i: int|
            0 <= i < size ==> w@[i] == window_value(kind, alpha as int, size as int, i),
        forall|i: int| 0 <= i < size ==> -131072 <= #[trigger] w@[i] <= 131072,
{
    let mut w: Vec<i64> = Vec::new();
    let mut i: usize = 0;
    while i < size
        invariant
            2 <= size <= 32768,
            -65536 <= alpha <= 65536,
            i <= size,
            w@.len() == i,
            forall|j: int|
                0 <= j < i ==> w@[j] == window_value(kind, alpha as int, size as int, j),
            forall|j: int| 0 <= j < i ==> -131072 <= #[trigger] w@[j] <= 131072,
        decreases size - i,
    {
        let v = window_sample(kind, alpha, size, i);
        w.push(v);
        i += 1;
    }
    w
}

/// The cosine is exactly `ONE` at zero and at a full turn.
pub proof fn lemma_cos_turn_ends()
    ensures
        cos_turn_spec(0) == 65536,
        cos_turn_spec(65536) == 65536,
{
    assert(16384int * (32768 - 16384) == 268435456);
    assert(16 * 268435456int * 65536 == 281474976710656);
    assert(5368709120 - 4 * 268435456int == 4294967296);
    assert(281474976710656int / 4294967296int == 65536);
}

/// A rectangular window weighs every index exactly `ONE`.
pub proof fn lemma_rectangular_all_one(alpha: int, size: int, i: int)
    ensures
        window_value(WindowKind::Rectangular, alpha, size, i) == ONE,
{
}

/// Every Hann weight lies in `[0, ONE]`, and the first and last weights
/// of a curve are exactly zero.
pub proof fn lemma_hann_range_and_ends(alpha: int, size: int, i: int)
    requires
        2 <= size,
        0 <= i < size,
    ensures
        0 <= window_value(WindowKind::Hann, alpha, size, i) <= ONE,
        i == 0 ==> window_value(WindowKind::Hann, alpha, size, i) == 0,
        i == size - 1 ==> window_value(WindowKind::Hann, alpha, size, i) == 0,
{
    let a1 = angle_of(i, size);
    lemma_div_bound(i * 65536, size - 1, 65536);
    lemma_cos_turn_bounds(a1);
    lemma_cos_turn_ends();
    if i == 0 {
        vstd::arithmetic::div_mod::lemma_div_of0(size - 1);
    }
    if i == size - 1 {
        vstd::arithmetic::div_mod::lemma_div_multiples_vanish(65536, size - 1);
    }
}

/// The window family a name denotes; unrecognized names mean `Hann`.
pub open spec fn kind_of_name(s: Seq<char>) -> WindowKind {
    if s == "bartlett"@ {
        WindowKind::Bartlett
    } else if s == "bartlettHann"@ {
        WindowKind::BartlettHann
    } else if s == "blackman"@ {
        WindowKind::Blackman
    } else if s == "cosine"@ {
        WindowKind::Cosine
    } else if s == "gauss"@ {
        WindowKind::Gauss
    } else if s == "hamming"@ {
        WindowKind::Hamming
    } else if s == "hann"@ {
        WindowKind::Hann
    } else if s == "lanczos"@ {
        WindowKind::Lanczos
    } else if s == "rectangular"@ {
        WindowKind::Rectangular
    } else if s == "triangular"@ {
        WindowKind::Triangular
    } else {
        WindowKind::Hann
    }
}

/// Look a window family up by name, falling back to `Hann`.
pub fn window_kind_from_name(name: &str) -> (kind: WindowKind)
    ensures
        kind == kind_of_name(name@),
{
    let n = name.to_owned();
    if n == "bartlett".to_owned() {
        WindowKind::Bartlett
    } else if n == "bartlettHann".to_owned() {
        WindowKind::BartlettHann
    } else if n == "blackman".to_owned() {
        WindowKind::Blackman
    } else if n == "cosine".to_owned() {
        WindowKind::Cosine
    } else if n == "gauss".to_owned() {
        WindowKind::Gauss
    } else if n == "hamming".to_owned() {
        WindowKind::Hamming
    } else if n == "hann".to_owned() {
        WindowKind::Hann
    } else if n == "lanczos".to_owned() {
        WindowKind::Lanczos
    } else if n == "rectangular".to_owned() {
        WindowKind::Rectangular
    } else if n == "triangular".to_owned() {
        WindowKind::Triangular
    } else {
        WindowKind::Hann
    }
}

} // verus!
