//! Windowed discrete Fourier transform over Q16 samples: frame
//! extraction, per-bin complex sums, and one-sided magnitudes scaled by
//! `2 / size`.

use vstd::prelude::*;
use crate::fixed::{
    cos_turn, cos_turn_spec, div_trunc, iabs, is_sqrt, lemma_div_bound, lemma_tdiv_bound,
    sin_turn, sin_turn_spec, sqrt_floor, tdiv, usqrt, ONE,
};

verus! {

/// Largest magnitude a sample may carry: 1.0 in Q16.
pub const SAMPLE_MAX: i64 = 65536;

/// Largest magnitude a window weight may carry: 2.0 in Q16.
pub const WEIGHT_MAX: i64 = 131072;

/// Largest magnitude an element of a (possibly mean-corrected) windowed
/// frame may carry.
pub const FRAME_MAX: i64 = 262144;

/// Largest value a one-sided spectrum bin may carry.
pub const MAG_MAX: i64 = 1048576;

/// Element `j` of the windowed frame starting at `start`.
pub open spec fn wsample(samples: Seq<i64>, window: Seq<i64>, start: int, j: int) -> int {
    tdiv(samples[start + j] * window[j], 65536)
}

/// The whole windowed frame starting at `start`.
pub open spec fn frame_of(samples: Seq<i64>, window: Seq<i64>, start: int) -> Seq<int> {
    Seq::new(window.len(), |j: int| wsample(samples, window, start, j))
}

/// Twiddle angle of bin `k` at position `n`, in Q16 turn units:
/// `(k n mod size) / size` of a full turn.
pub open spec fn twiddle(k: int, n: int, size: int) -> int {
    ((k * n) % size) * 65536 / size
}

/// Real part of bin `k` over the first `n` elements of frame `f`.
pub open spec fn dft_re_of(f: Seq<int>, k: int, n: int) -> int
    decreases n,
{
    if n <= 0 {
        0
    } else {
        dft_re_of(f, k, n - 1) + f[n - 1] * cos_turn_spec(twiddle(k, n - 1, f.len() as int))
    }
}

/// Imaginary part of bin `k` over the first `n` elements of frame `f`.
pub open spec fn dft_im_of(f: Seq<int>, k: int, n: int) -> int
    decreases n,
{
    if n <= 0 {
        0
    } else {
        dft_im_of(f, k, n - 1) - f[n - 1] * sin_turn_spec(twiddle(k, n - 1, f.len() as int))
    }
}

/// Q16 real and imaginary parts of bin `k` of frame `f`.
pub open spec fn bin_re(f: Seq<int>, k: int) -> int {
    tdiv(dft_re_of(f, k, f.len() as int), 65536)
}

/// See `bin_re`.
pub open spec fn bin_im(f: Seq<int>, k: int) -> int {
    tdiv(dft_im_of(f, k, f.len() as int), 65536)
}

/// One-sided Q16 magnitude of bin `k` of frame `f`: `|X_k| * 2 / size`.
pub open spec fn bin_mag_of(f: Seq<int>, k: int) -> int {
    let re = bin_re(f, k);
    let im = bin_im(f, k);
    sqrt_floor(re * re + im * im) * 2 / (f.len() as int)
}

/// Magnitude of bin `k` of the frame of `samples` at `start` under
/// `window`: the engines' frame contract.
pub open spec fn frame_mag(samples: Seq<i64>, window: Seq<i64>, start: int, k: int) -> int {
    bin_mag_of(frame_of(samples, window, start), k)
}

/// Whether every element of `s` is within `bound` of zero.
pub open spec fn all_within(s: Seq<i64>, bound: int) -> bool {
    forall|i: int| 0 <= i < s.len() ==> -bound <= #[trigger] s[i] <= bound
}

/// Extract the windowed frame starting at `start`.
pub fn windowed_frame(samples: &Vec<i64>, window: &Vec<i64>, start: usize) -> (f: Vec<i64>)
    requires
        start + window@.len() <= samples@.len(),
        all_within(samples@, SAMPLE_MAX as int),
        all_within(window@, WEIGHT_MAX as int),
    ensures
        f@.len() == window@.len(),
        forall|j: int|
            0 <= j < f@.len() ==> f@[j] == wsample(samples@, window@, start as int, j),
        all_within(f@, WEIGHT_MAX as int),
{
    let total = samples.len();
    let size = window.len();
    let mut f: Vec<i64> = Vec::new();
    let mut j: usize = 0;
    while j < size
        invariant
            total == samples@.len(),
            start + size <= total,
            size == window@.len(),
            all_within(samples@, SAMPLE_MAX as int),
            all_within(window@, WEIGHT_MAX as int),
            j <= size,
            f@.len() == j,
            forall|jj: int|
                0 <= jj < j ==> f@[jj] == wsample(samples@, window@, start as int, jj),
            all_within(f@, WEIGHT_MAX as int),
        decreases size - j,
    {
        let s = samples[start + j];
        let w = window[j];
        proof {
            assert(-8589934592int <= (s as int) * (w as int) <= 8589934592int)
                by (nonlinear_arith)
                requires
                    -65536 <= s <= 65536,
                    -131072 <= w <= 131072,
            ;
            lemma_tdiv_bound((s as int) * (w as int), 65536, 131072);
        }
        let v = div_trunc(s * w, 65536);
        f.push(v);
        j += 1;
    }
    f
}

/// Element `j` of the windowed frame starting at `start`, where
/// positions past the end of the sample buffer weigh zero.
pub open spec fn wsample_padded(samples: Seq<i64>, window: Seq<i64>, start: int, j: int) -> int {
    if start + j < samples.len() {
        tdiv(samples[start + j] * window[j], 65536)
    } else {
        0
    }
}

/// The zero-padded windowed frame starting at `start`.
pub open spec fn padded_frame_of(samples: Seq<i64>, window: Seq<i64>, start: int) -> Seq<int> {
    Seq::new(window.len(), |j: int| wsample_padded(samples, window, start, j))
}

/// Magnitude of bin `k` of the zero-padded frame at `start`.
pub open spec fn padded_frame_mag(
    samples: Seq<i64>,
    window: Seq<i64>,
    start: int,
    k: int,
) -> int {
    bin_mag_of(padded_frame_of(samples, window, start), k)
}

/// Extract the windowed frame starting at `start`, padding with zeros
/// past the end of the buffer.
pub fn windowed_frame_padded(samples: &Vec<i64>, window: &Vec<i64>, start: usize) -> (f: Vec<
    i64,
>)
    requires
        all_within(samples@, SAMPLE_MAX as int),
        all_within(window@, WEIGHT_MAX as int),
    ensures
        f@.len() == window@.len(),
        forall|j: int|
            0 <= j < f@.len() ==> f@[j] == wsample_padded(samples@, window@, start as int, j),
        all_within(f@, WEIGHT_MAX as int),
{
    let total = samples.len();
    let size = window.len();
    let mut f: Vec<i64> = Vec::new();
    let mut j: usize = 0;
    while j < size
        invariant
            total == samples@.len(),
            size == window@.len(),
            all_within(samples@, SAMPLE_MAX as int),
            all_within(window@, WEIGHT_MAX as int),
            j <= size,
            f@.len() == j,
            forall|jj: int|
                0 <= jj < j ==> f@[jj] == wsample_padded(samples@, window@, start as int, jj),
            all_within(f@, WEIGHT_MAX as int),
        decreases size - j,
    {
        let v: i64 = if start < total && j < total - start {
            let s = samples[start + j];
            let w = window[j];
            proof {
                assert(-8589934592int <= (s as int) * (w as int) <= 8589934592int)
                    by (nonlinear_arith)
                    requires
                        -65536 <= s <= 65536,
                        -131072 <= w <= 131072,
                ;
                lemma_tdiv_bound((s as int) * (w as int), 65536, 131072);
            }
            div_trunc(s * w, 65536)
        } else {
            0
        };
        f.push(v);
        j += 1;
    }
    f
}

/// One-sided magnitudes of the first `nbins` bins of the zero-padded
/// frame of `samples` at `start` under `window`.
pub fn frame_magnitudes_padded(
    samples: &Vec<i64>,
    window: &Vec<i64>,
    start: usize,
    nbins: usize,
) -> (m: Vec<i64>)
    requires
        2 <= window@.len() <= 32768,
        nbins <= window@.len(),
        all_within(samples@, SAMPLE_MAX as int),
        all_within(window@, WEIGHT_MAX as int),
    ensures
        m@.len() == nbins,
        forall|k: int|
            0 <= k < nbins ==> m@[k] == padded_frame_mag(samples@, window@, start as int, k),
        all_within(m@, MAG_MAX as int),
        forall|k: int| 0 <= k < nbins ==> 0 <= #[trigger] m@[k],
{
    let f = windowed_frame_padded(samples, window, start);
    let ghost fs = f@.map_values(|v: i64| v as int);
    proof {
        assert(fs =~= padded_frame_of(samples@, window@, start as int));
    }
    let size = f.len();
    let mut m: Vec<i64> = Vec::new();
    let mut k: usize = 0;
    while k < nbins
        invariant
            2 <= size <= 32768,
            size == f@.len(),
            size == window@.len(),
            nbins <= size,
            all_within(f@, FRAME_MAX as int),
            fs == f@.map_values(|v: i64| v as int),
            fs == padded_frame_of(samples@, window@, start as int),
            k <= nbins,
            m@.len() == k,
            forall|kk: int|
                0 <= kk < k ==> m@[kk] == padded_frame_mag(
                    samples@,
                    window@,
                    start as int,
                    kk,
                ),
            all_within(m@, MAG_MAX as int),
            forall|kk: int| 0 <= kk < k ==> 0 <= #[trigger] m@[kk],
        decreases nbins - k,
    {
        let (re, im) = dft_bin(&f, k);
        proof {
            lemma_dft_sum_bounds(fs, k as int, size as int);
            assert((size as int) * 17179869184 == ((size as int) * 262144) * 65536)
                by (nonlinear_arith);
            lemma_tdiv_bound(
                dft_re_of(fs, k as int, size as int),
                65536,
                (size as int) * 262144,
            );
            lemma_tdiv_bound(
                dft_im_of(fs, k as int, size as int),
                65536,
                (size as int) * 262144,
            );
        }
        let v = bin_magnitude(re, im, size);
        m.push(v);
        k += 1;
    }
    m
}

/// A partial transform sum over elements within `FRAME_MAX` stays within
/// `n * FRAME_MAX * ONE`.
pub proof fn lemma_dft_sum_bounds(f: Seq<int>, k: int, n: int)
    requires
        0 <= n <= f.len(),
        forall|i: int| 0 <= i < f.len() ==> -262144 <= #[trigger] f[i] <= 262144,
    ensures
        -n * 17179869184 <= dft_re_of(f, k, n) <= n * 17179869184,
        -n * 17179869184 <= dft_im_of(f, k, n) <= n * 17179869184,
    decreases n,
{
    if n > 0 {
        lemma_dft_sum_bounds(f, k, n - 1);
        let a = twiddle(k, n - 1, f.len() as int);
        let c = cos_turn_spec(a);
        let s = sin_turn_spec(a);
        assert(-65536 <= c <= 65536 && -65536 <= s <= 65536) by {
            lemma_twiddle_range(k, n - 1, f.len() as int);
            crate::fixed::lemma_cos_turn_bounds(a);
            crate::fixed::lemma_sin_turn_bounds(a);
        }
        assert(-17179869184int <= f[n - 1] * c <= 17179869184int) by (nonlinear_arith)
            requires
                -262144 <= f[n - 1] <= 262144,
                -65536 <= c <= 65536,
        ;
        assert(-17179869184int <= f[n - 1] * s <= 17179869184int) by (nonlinear_arith)
            requires
                -262144 <= f[n - 1] <= 262144,
                -65536 <= s <= 65536,
        ;
    }
}

/// A twiddle angle always lies within one turn.
pub proof fn lemma_twiddle_range(k: int, n: int, size: int)
    requires
        size >= 1,
    ensures
        0 <= twiddle(k, n, size) < 65536,
        0 <= twiddle(k, n, size) <= 65536,
{
    let r = (k * n) % size;
    vstd::arithmetic::div_mod::lemma_mod_division_less_than_divisor(k * n, size);
    assert(r * 65536 <= (size - 1) * 65536) by (nonlinear_arith)
        requires
            r <= size - 1,
    ;
    lemma_div_bound(r * 65536, size, 65536);
    assert(r * 65536 < size * 65536) by (nonlinear_arith)
        requires
            r < size,
    ;
    vstd::arithmetic::div_mod::lemma_multiply_divide_lt(r * 65536, size, 65536);
}

/// Q16 real and imaginary parts of bin `k` of the frame `f`.
pub fn dft_bin(f: &Vec<i64>, k: usize) -> (r: (i64, i64))
    requires
        1 <= f@.len() <= 32768,
        k < f@.len(),
        all_within(f@, FRAME_MAX as int),
    ensures
        r.0 == bin_re(f@.map_values(|v: i64| v as int), k as int),
        r.1 == bin_im(f@.map_values(|v: i64| v as int), k as int),
        -8589934592 <= r.0 <= 8589934592,
        -8589934592 <= r.1 <= 8589934592,
{
    let ghost fs = f@.map_values(|v: i64| v as int);
    proof {
        assert(fs.len() == f@.len());
        assert(forall|i: int| 0 <= i < fs.len() ==> -262144 <= #[trigger] fs[i] <= 262144);
    }
    let size = f.len();
    let mut re: i64 = 0;
    let mut im: i64 = 0;
    let mut n: usize = 0;
    while n < size
        invariant
            1 <= size <= 32768,
            size == f@.len(),
            k < size,
            all_within(f@, FRAME_MAX as int),
            fs == f@.map_values(|v: i64| v as int),
            n <= size,
            re == dft_re_of(fs, k as int, n as int),
            im == dft_im_of(fs, k as int, n as int),
            -(n as int) * 17179869184 <= re as int <= (n as int) * 17179869184,
            -(n as int) * 17179869184 <= im as int <= (n as int) * 17179869184,
        decreases size - n,
    {
        proof {
            assert((k as int) * (n as int) <= 1073741824int) by (nonlinear_arith)
                requires
                    k < 32768,
                    n < 32768,
            ;
        }
        let kn: usize = k * n;
        let rm: usize = kn % size;
        proof {
            lemma_div_bound((rm as int) * 65536, size as int, 65536);
        }
        let a: i64 = ((((rm as u64) * 65536) / (size as u64))) as i64;
        proof {
            assert((k as int) * (n as int) >= 0) by (nonlinear_arith)
                requires
                    k >= 0,
                    n >= 0,
            ;
            assert(a == twiddle(k as int, n as int, size as int));
        }
        let c = cos_turn(a);
        let s = sin_turn(a);
        let v = f[n];
        proof {
            assert(-17179869184int <= (v as int) * (c as int) <= 17179869184int)
                by (nonlinear_arith)
                requires
                    -262144 <= v <= 262144,
                    -65536 <= c <= 65536,
            ;
            assert(-17179869184int <= (v as int) * (s as int) <= 17179869184int)
                by (nonlinear_arith)
                requires
                    -262144 <= v <= 262144,
                    -65536 <= s <= 65536,
            ;
            assert(fs[n as int] == v as int);
        }
        re = re + v * c;
        im = im - v * s;
        n += 1;
    }
    proof {
        assert((size as int) * 17179869184 <= 562949953421312int) by (nonlinear_arith)
            requires
                size <= 32768,
        ;
        lemma_tdiv_bound(re as int, 65536, 8589934592);
        lemma_tdiv_bound(im as int, 65536, 8589934592);
    }
    let re16 = div_trunc(re, 65536);
    let im16 = div_trunc(im, 65536);
    (re16, im16)
}

/// Scale a complex bin to its one-sided Q16 magnitude.
pub fn bin_magnitude(re: i64, im: i64, size: usize) -> (m: i64)
    requires
        1 <= size <= 32768,
        -8589934592 <= re <= 8589934592,
        -8589934592 <= im <= 8589934592,
    ensures
        m == sqrt_floor((re as int) * (re as int) + (im as int) * (im as int)) * 2 / (
        size as int),
        0 <= m,
        iabs(re as int) <= (size as int) * 262144 && iabs(im as int) <= (size as int) * 262144
            ==> m <= MAG_MAX,
{
    proof {
        assert((re as int) * (re as int) + (im as int) * (im as int)
            <= 0x1000_0000_0000_0000_0000int) by (nonlinear_arith)
            requires
                -8589934592 <= re <= 8589934592,
                -8589934592 <= im <= 8589934592,
        ;
        assert((re as int) * (re as int) >= 0) by (nonlinear_arith);
        assert((im as int) * (im as int) >= 0) by (nonlinear_arith);
    }
    let sq: i128 = (re as i128) * (re as i128) + (im as i128) * (im as i128);
    let root: u64 = usqrt(sq as u128);
    proof {
        let s = size as int;
        if iabs(re as int) <= s * 262144 && iabs(im as int) <= s * 262144 {
            assert((re as int) * (re as int) + (im as int) * (im as int) < (s * 524288) * (s
                * 524288)) by (nonlinear_arith)
                requires
                    iabs(re as int) <= s * 262144,
                    iabs(im as int) <= s * 262144,
                    s >= 1,
            ;
            assert(root as int <= s * 524288) by (nonlinear_arith)
                requires
                    is_sqrt(sq as int, root as int),
                    sq < (s * 524288) * (s * 524288),
                    s >= 1,
            ;
            lemma_div_bound((root as int) * 2, s, 1048576);
        }
        assert(root as int <= 0x1_0000_0000_0000int) by (nonlinear_arith)
            requires
                is_sqrt(sq as int, root as int),
                sq <= 0x1000_0000_0000_0000_0000int,
        ;
        assert((root as int) * 2 <= (size as int) * ((root as int) * 2)) by (nonlinear_arith)
            requires
                size >= 1,
                root >= 0,
        ;
        lemma_div_bound((root as int) * 2, size as int, (root as int) * 2);
    }
    ((root * 2) / (size as u64)) as i64
}

/// One-sided magnitudes of the first `nbins` bins of the frame of
/// `samples` at `start` under `window`.
pub fn frame_magnitudes(samples: &Vec<i64>, window: &Vec<i64>, start: usize, nbins: usize) -> (m:
    Vec<i64>)
    requires
        2 <= window@.len() <= 32768,
        start + window@.len() <= samples@.len(),
        nbins <= window@.len(),
        all_within(samples@, SAMPLE_MAX as int),
        all_within(window@, WEIGHT_MAX as int),
    ensures
        m@.len() == nbins,
        forall|k: int|
            0 <= k < nbins ==> m@[k] == frame_mag(samples@, window@, start as int, k),
        all_within(m@, MAG_MAX as int),
        forall|k: int| 0 <= k < nbins ==> 0 <= #[trigger] m@[k],
{
    let f = windowed_frame(samples, window, start);
    let ghost fs = f@.map_values(|v: i64| v as int);
    proof {
        assert(fs =~= frame_of(samples@, window@, start as int));
    }
    let size = f.len();
    let mut m: Vec<i64> = Vec::new();
    let mut k: usize = 0;
    while k < nbins
        invariant
            2 <= size <= 32768,
            size == f@.len(),
            size == window@.len(),
            nbins <= size,
            all_within(f@, FRAME_MAX as int),
            fs == f@.map_values(|v: i64| v as int),
            fs == frame_of(samples@, window@, start as int),
            k <= nbins,
            m@.len() == k,
            forall|kk: int|
                0 <= kk < k ==> m@[kk] == frame_mag(samples@, window@, start as int, kk),
            all_within(m@, MAG_MAX as int),
            forall|kk: int| 0 <= kk < k ==> 0 <= #[trigger] m@[kk],
        decreases nbins - k,
    {
        let (re, im) = dft_bin(&f, k);
        proof {
            lemma_dft_sum_bounds(fs, k as int, size as int);
            assert((size as int) * 17179869184 == ((size as int) * 262144) * 65536)
                by (nonlinear_arith);
            lemma_tdiv_bound(
                dft_re_of(fs, k as int, size as int),
                65536,
                (size as int) * 262144,
            );
            lemma_tdiv_bound(
                dft_im_of(fs, k as int, size as int),
                65536,
                (size as int) * 262144,
            );
        }
        let v = bin_magnitude(re, im, size);
        m.push(v);
        k += 1;
    }
    m
}

} // verus!
