//! The spectrogram engine: owns a window curve, an optional filter
//! bank, a color table and the magnitude cache of the last quantized
//! computation, and exposes linear, quantized, image and peak-query
//! operations over Q16 sample buffers.

use vstd::prelude::*;
use crate::dft::{
    all_within, frame_mag, frame_magnitudes, padded_frame_mag, MAG_MAX, SAMPLE_MAX, WEIGHT_MAX,
};
use crate::fixed::{div_trunc, lemma_div_bound, lemma_tdiv_bound, tdiv, ONE};
use crate::window::{create_window, kind_of_name, window_kind_from_name, window_value, WindowKind};
use crate::quantize::{quantize_centered_spec, quantize_spec, quantize_u8};
use vstd::arithmetic::div_mod::{lemma_div_pos_is_pos, lemma_fundamental_div_mod};

verus! {

/// Largest filter-bank weight magnitude the engine accepts, in Q16
/// (8192.0). The cap is a machine limit: it keeps every product of a
/// weight with a magnitude (within `MAG_MAX`), and every row's dot
/// product over up to 16384 bins, inside `i64` and inside the domain
/// of the dB quantizer.
pub const BANK_WEIGHT_MAX: i64 = 0x2000_0000;

/// Flat index of `(row, col)` in a row-major matrix with `cols`
/// columns.
pub open spec fn mat_idx(row: int, cols: int, col: int) -> int {
    row * cols + col
}

/// A whole row lies within a row-major matrix.
pub proof fn lemma_row_bounds(row: int, rows: int, cols: int) by (nonlinear_arith)
    requires
        0 <= row < rows,
        0 <= cols,
    ensures
        0 <= row * cols,
        row * cols + cols <= rows * cols,
{
}

/// Frame advance for an overlap request: `size - noverlap` samples,
/// clamped to at least one so stepping always moves forward.
pub open spec fn spec_step(size: int, noverlap: int) -> int {
    if noverlap < size {
        size - noverlap
    } else {
        1
    }
}

/// Number of whole frames of length `size` that fit in `len` samples
/// when advancing by `step`.
pub open spec fn spec_num_frames(len: int, size: int, step: int) -> int {
    if len >= size {
        (len - size) / step + 1
    } else {
        0
    }
}

/// Running maximum of the first `n` elements, starting from zero, in
/// scan order.
pub open spec fn seq_max_pos(s: Seq<i64>, n: int) -> int
    decreases n,
{
    if n <= 0 {
        0
    } else {
        let m = seq_max_pos(s, n - 1);
        if s[n - 1] > m {
            s[n - 1] as int
        } else {
            m
        }
    }
}

/// Index and value of the first maximum among `n` elements of the
/// frame starting at `base`, scanning from a zero floor.
pub open spec fn peak_scan(s: Seq<i64>, base: int, n: int) -> (int, int)
    decreases n,
{
    if n <= 0 {
        (0, 0)
    } else {
        let prev = peak_scan(s, base, n - 1);
        if s[base + n - 1] > prev.1 {
            (n - 1, s[base + n - 1] as int)
        } else {
            prev
        }
    }
}

/// One filter-bank row applied to a magnitude vector: the Q16 dot
/// product of row `row` (stride `cols + 1`, `cols` columns summed)
/// with the first `n` magnitudes.
pub open spec fn bank_dot(bank: Seq<i64>, mags: Seq<int>, row: int, cols: int, n: int) -> int
    decreases n,
{
    if n <= 0 {
        0
    } else {
        bank_dot(bank, mags, row, cols, n - 1) + tdiv(
            mags[n - 1] * bank[row * (cols + 1) + n - 1],
            65536,
        )
    }
}

/// Fourier-based spectrogram computation over Q16 samples, with an
/// optional filter bank, a 256-entry color table, and a cache of the
/// last quantized computation's linear magnitudes for peak queries.
pub struct SpectrogramEngine {
    pub fft_size: usize,
    pub window_kind: WindowKind,
    pub alpha: i64,
    pub window_values: Vec<i64>,
    pub filter_bank: Vec<i64>,
    pub num_filters: usize,
    pub use_filter_bank: bool,
    pub last_magnitude_buffer: Vec<i64>,
    pub last_num_frames: usize,
    pub last_global_max: i64,
    pub color_map: Vec<u32>,
    pub current_scale: String,
    pub freq_min: i64,
    pub freq_max: i64,
}

impl SpectrogramEngine {
    /// The engine's structural invariant: the window curve matches the
    /// transform size, the filter bank is a whole matrix of bounded
    /// weights, the magnitude cache is a whole frame-major matrix with
    /// its recorded maximum, and the color table is absent or full.
    pub open spec fn wf(&self) -> bool {
        &&& 2 <= self.fft_size <= 32768
        &&& self.window_values@.len() == self.fft_size
        &&& all_within(self.window_values@, WEIGHT_MAX as int)
        &&& (self.use_filter_bank ==> {
            &&& self.num_filters >= 1
            &&& self.num_filters <= 32768
            &&& self.filter_bank@.len() == self.num_filters * (self.fft_size / 2 + 1)
            &&& all_within(self.filter_bank@, BANK_WEIGHT_MAX as int)
        })
        &&& (!self.use_filter_bank ==> self.filter_bank@.len() == 0 && self.num_filters == 0)
        &&& self.last_magnitude_buffer@.len() == self.last_num_frames * (self.fft_size / 2)
        &&& all_within(self.last_magnitude_buffer@, MAG_MAX as int)
        &&& (forall|i: int|
            0 <= i < self.last_magnitude_buffer@.len() ==> 0 <= #[trigger] self
                .last_magnitude_buffer@[i])
        &&& self.last_global_max == seq_max_pos(
            self.last_magnitude_buffer@,
            self.last_magnitude_buffer@.len() as int,
        )
        &&& (self.color_map@.len() == 0 || self.color_map@.len() == 256)
    }

    /// The transform size the engine was built with.
    pub open spec fn spec_fft_size(&self) -> int {
        self.fft_size as int
    }

    /// The engine's window curve.
    pub open spec fn spec_window(&self) -> Seq<i64> {
        self.window_values@
    }

    /// The engine's filter bank, empty when filtering is off.
    pub open spec fn spec_filter_bank(&self) -> Seq<i64> {
        self.filter_bank@
    }

    /// Number of filter rows, zero when filtering is off.
    pub open spec fn spec_num_filters(&self) -> int {
        self.num_filters as int
    }

    /// Whether the filter bank is applied.
    pub open spec fn spec_filtered(&self) -> bool {
        self.use_filter_bank
    }

    /// The cached linear magnitudes of the last quantized computation.
    pub open spec fn spec_cache(&self) -> Seq<i64> {
        self.last_magnitude_buffer@
    }

    /// Frames held by the magnitude cache.
    pub open spec fn spec_cache_frames(&self) -> int {
        self.last_num_frames as int
    }

    /// The cached global maximum magnitude.
    pub open spec fn spec_global_max(&self) -> int {
        self.last_global_max as int
    }

    /// The packed color table, empty when none is set.
    pub open spec fn spec_color_map(&self) -> Seq<u32> {
        self.color_map@
    }

    /// Rows of quantized output: filter count in filtered mode, else
    /// one-sided bin count.
    pub open spec fn spec_output_bins(&self) -> int {
        if self.use_filter_bank {
            self.num_filters as int
        } else {
            self.fft_size as int / 2
        }
    }

    /// Everything but the magnitude cache is unchanged.
    pub open spec fn config_unchanged(&self, other: &Self) -> bool {
        &&& self.fft_size == other.fft_size
        &&& self.window_kind == other.window_kind
        &&& self.alpha == other.alpha
        &&& self.window_values@ == other.window_values@
        &&& self.filter_bank@ == other.filter_bank@
        &&& self.num_filters == other.num_filters
        &&& self.use_filter_bank == other.use_filter_bank
        &&& self.color_map@ == other.color_map@
        &&& self.current_scale@ == other.current_scale@
        &&& self.freq_min == other.freq_min
        &&& self.freq_max == other.freq_max
    }

    /// Build an engine: generates the window curve for the named family
    /// (unknown names mean Hann), with an empty filter bank, empty
    /// color table, empty magnitude cache, a recorded linear scale and
    /// zero frequency bounds. `alpha` is the Q16 shape parameter of the
    /// Blackman family, 0.16 when absent.
    pub fn new(fft_size: usize, window_func: String, alpha: Option<i64>) -> (engine:
        SpectrogramEngine)
        requires
            2 <= fft_size <= 32768,
            alpha matches Some(a) ==> -65536 <= a <= 65536,
        ensures
            engine.wf(),
            engine.spec_fft_size() == fft_size,
            engine.spec_window().len() == fft_size,
            forall|i: int|
                0 <= i < fft_size ==> engine.spec_window()[i] == window_value(
                    kind_of_name(window_func@),
                    match alpha {
                        Some(a) => a as int,
                        None => 10486,
                    },
                    fft_size as int,
                    i,
                ),
            !engine.spec_filtered(),
            engine.spec_cache().len() == 0,
            engine.spec_cache_frames() == 0,
            engine.spec_global_max() == 0,
            engine.spec_color_map().len() == 0,
            engine.current_scale@ == "linear"@,
            engine.freq_min == 0,
            engine.freq_max == 0,
    {
        let a: i64 = match alpha {
            Some(v) => v,
            None => 10486,
        };
        let kind = window_kind_from_name(window_func.as_str());
        let window_values = create_window(kind, fft_size, a);
        SpectrogramEngine {
            fft_size,
            window_kind: kind,
            alpha: a,
            window_values,
            filter_bank: Vec::new(),
            num_filters: 0,
            use_filter_bank: false,
            last_magnitude_buffer: Vec::new(),
            last_num_frames: 0,
            last_global_max: 0,
            color_map: Vec::new(),
            current_scale: window_scale_default(),
            freq_min: 0,
            freq_max: 0,
        }
    }

    /// The window curve, for inspection.
    pub fn get_window_values(&self) -> (w: Vec<i64>)
        ensures
            w@ == self.spec_window(),
    {
        self.window_values.clone()
    }

    /// The transform size.
    pub fn get_fft_size(&self) -> (n: usize)
        ensures
            n == self.spec_fft_size(),
    {
        self.fft_size
    }

    /// The number of filter rows.
    pub fn get_num_filters(&self) -> (n: usize)
        ensures
            n == self.spec_num_filters(),
    {
        self.num_filters
    }

    /// The number of one-sided frequency bins.
    pub fn get_freq_bins(&self) -> (n: usize)
        ensures
            n == self.spec_fft_size() / 2,
    {
        self.fft_size / 2
    }

    /// Load a filter-bank matrix: `num_filters` rows of stride
    /// `fft_size / 2 + 1`, row-major. A matrix of any other shape is
    /// rejected whole: the engine is left unchanged and `false` comes
    /// back. Weights carry any value within `±BANK_WEIGHT_MAX`
    /// (±8192.0 in Q16); one past that machine limit also rejects the
    /// matrix, so that the projection arithmetic cannot overflow.
    pub fn load_filter_bank(&mut self, flat_weights: &Vec<i64>, num_filters: usize) -> (loaded:
        bool)
        requires
            old(self).wf(),
        ensures
            final(self).wf(),
            loaded == {
                &&& 1 <= num_filters <= 32768
                &&& flat_weights@.len() == num_filters * (old(self).spec_fft_size() / 2 + 1)
                &&& all_within(flat_weights@, BANK_WEIGHT_MAX as int)
            },
            loaded ==> {
                &&& final(self).spec_filtered()
                &&& final(self).spec_filter_bank() == flat_weights@
                &&& final(self).spec_num_filters() == num_filters
            },
            !loaded ==> *final(self) == *old(self),
            final(self).spec_cache() == old(self).spec_cache(),
            final(self).spec_cache_frames() == old(self).spec_cache_frames(),
            final(self).spec_global_max() == old(self).spec_global_max(),
            final(self).spec_fft_size() == old(self).spec_fft_size(),
            final(self).spec_window() == old(self).spec_window(),
    {
        if num_filters < 1 || num_filters > 32768 {
            return false;
        }
        let row = self.fft_size / 2 + 1;
        proof {
            assert((num_filters as int) * (row as int) <= 32768 * 16385) by (nonlinear_arith)
                requires
                    num_filters <= 32768,
                    row <= 16385,
            ;
        }
        if flat_weights.len() != num_filters * row {
            return false;
        }
        if !weights_within_limit(flat_weights) {
            return false;
        }
        self.filter_bank = flat_weights.clone();
        self.num_filters = num_filters;
        self.use_filter_bank = true;
        true
    }

    /// Drop the filter bank and return to linear frequency bins.
    pub fn clear_filter_bank(&mut self)
        requires
            old(self).wf(),
        ensures
            final(self).wf(),
            !final(self).spec_filtered(),
            final(self).spec_filter_bank().len() == 0,
            final(self).spec_num_filters() == 0,
            final(self).spec_cache() == old(self).spec_cache(),
            final(self).spec_cache_frames() == old(self).spec_cache_frames(),
            final(self).spec_global_max() == old(self).spec_global_max(),
            final(self).spec_fft_size() == old(self).spec_fft_size(),
            final(self).spec_window() == old(self).spec_window(),
            final(self).spec_color_map() == old(self).spec_color_map(),
    {
        self.filter_bank = Vec::new();
        self.num_filters = 0;
        self.use_filter_bank = false;
    }

    /// Install a 256-entry RGBA color table from exactly 1024 bytes,
    /// packed one `u32` per entry. Any other length leaves the previous
    /// table untouched.
    pub fn set_color_map(&mut self, colors: &Vec<u8>)
        requires
            old(self).wf(),
        ensures
            final(self).wf(),
            colors@.len() != 1024 ==> *final(self) == *old(self),
            colors@.len() == 1024 ==> {
                &&& final(self).spec_color_map().len() == 256
                &&& forall|i: int|
                    0 <= i < 256 ==> final(self).spec_color_map()[i] == (colors@[4 * i] as int)
                        * 16777216 + (colors@[4 * i + 1] as int) * 65536 + (colors@[4 * i
                        + 2] as int) * 256 + (colors@[4 * i + 3] as int)
            },
            final(self).spec_cache() == old(self).spec_cache(),
            final(self).spec_cache_frames() == old(self).spec_cache_frames(),
            final(self).spec_global_max() == old(self).spec_global_max(),
            final(self).spec_fft_size() == old(self).spec_fft_size(),
            final(self).spec_window() == old(self).spec_window(),
            final(self).spec_filter_bank() == old(self).spec_filter_bank(),
            final(self).spec_filtered() == old(self).spec_filtered(),
    {
        if colors.len() != 1024 {
            return ;
        }
        let mut packed: Vec<u32> = Vec::new();
        let mut i: usize = 0;
        while i < 256
            invariant
                colors@.len() == 1024,
                i <= 256,
                packed@.len() == i,
                forall|j: int|
                    0 <= j < i ==> packed@[j] == (colors@[4 * j] as int) * 16777216 + (colors@[4
                        * j + 1] as int) * 65536 + (colors@[4 * j + 2] as int) * 256 + (
                    colors@[4 * j + 3] as int),
            decreases 256 - i,
        {
            let offset = i * 4;
            let r = colors[offset] as u32;
            let g = colors[offset + 1] as u32;
            let b = colors[offset + 2] as u32;
            let a = colors[offset + 3] as u32;
            packed.push(r * 16777216 + g * 65536 + b * 256 + a);
            i += 1;
        }
        self.color_map = packed;
    }

    /// Record the caller's scale name and frequency bounds (Q16 Hz).
    /// Pure bookkeeping: no computational effect.
    pub fn set_spectrum_config(&mut self, scale: String, freq_min: i64, freq_max: i64)
        requires
            old(self).wf(),
        ensures
            final(self).wf(),
            final(self).current_scale@ == scale@,
            final(self).freq_min == freq_min,
            final(self).freq_max == freq_max,
            final(self).spec_cache() == old(self).spec_cache(),
            final(self).spec_cache_frames() == old(self).spec_cache_frames(),
            final(self).spec_global_max() == old(self).spec_global_max(),
            final(self).spec_fft_size() == old(self).spec_fft_size(),
            final(self).spec_window() == old(self).spec_window(),
            final(self).spec_filter_bank() == old(self).spec_filter_bank(),
            final(self).spec_filtered() == old(self).spec_filtered(),
            final(self).spec_color_map() == old(self).spec_color_map(),
    {
        self.current_scale = scale;
        self.freq_min = freq_min;
        self.freq_max = freq_max;
    }

    /// Compute the linear-magnitude spectrogram: `fft_size / 2` bins
    /// per frame, frame-major, no dB conversion and no caching. Frames
    /// advance by `fft_size - noverlap` samples (at least one).
    pub fn compute_spectrogram(&self, audio_data: &Vec<i64>, noverlap: usize) -> (r: Vec<i64>)
        requires
            self.wf(),
            all_within(audio_data@, SAMPLE_MAX as int),
            (self.spec_fft_size() / 2) * spec_num_frames(
                audio_data@.len() as int,
                self.spec_fft_size(),
                spec_step(self.spec_fft_size(), noverlap as int),
            ) <= usize::MAX,
        ensures
            ({
                let size = self.spec_fft_size();
                let bins = size / 2;
                let step = spec_step(size, noverlap as int);
                let frames = spec_num_frames(audio_data@.len() as int, size, step);
                &&& r@.len() == bins * frames
                &&& forall|fr: int, k: int|
                    0 <= fr < frames && 0 <= k < bins ==> r@[#[trigger] mat_idx(fr, bins as int, k)]
                        == frame_mag(audio_data@, self.spec_window(), fr * step, k)
                &&& all_within(r@, MAG_MAX as int)
            }),
    {
        let size = self.fft_size;
        let bins = size / 2;
        let step: usize = if noverlap < size {
            size - noverlap
        } else {
            1
        };
        let len = audio_data.len();
        let num_frames: usize = if len >= size {
            (len - size) / step + 1
        } else {
            0
        };
        let ghost stepg = step as int;
        let ghost framesg = num_frames as int;
        proof {
            if len >= size {
                lemma_fundamental_div_mod(len as int - size as int, stepg);
                assert((framesg - 1) * stepg == stepg * ((len as int - size as int) / stepg))
                    by (nonlinear_arith)
                    requires
                        framesg - 1 == (len as int - size as int) / stepg,
                ;
                assert((framesg - 1) * stepg + size <= len);
            }
        }
        let mut r: Vec<i64> = Vec::new();
        let mut fr: usize = 0;
        while fr < num_frames
            invariant
                self.wf(),
                all_within(audio_data@, SAMPLE_MAX as int),
                size == self.spec_fft_size(),
                bins == size / 2,
                stepg == step,
                step >= 1,
                len == audio_data@.len(),
                framesg == num_frames,
                num_frames >= 1 ==> (num_frames - 1) * stepg + size <= len,
                bins * num_frames <= usize::MAX,
                fr <= num_frames,
                r@.len() == fr * bins,
                forall|f: int, k: int|
                    0 <= f < fr && 0 <= k < bins ==> r@[#[trigger] mat_idx(f, bins as int, k)]
                        == frame_mag(audio_data@, self.spec_window(), f * stepg, k),
                all_within(r@, MAG_MAX as int),
            decreases num_frames - fr,
        {
            proof {
                assert((fr as int) * stepg <= (num_frames - 1) * stepg) by (nonlinear_arith)
                    requires
                        fr < num_frames,
                        stepg >= 1,
                ;
                assert((fr as int) * bins + bins <= (num_frames as int) * bins)
                    by (nonlinear_arith)
                    requires
                        fr < num_frames,
                        bins >= 0,
                ;
                assert((fr as int) * bins >= 0) by (nonlinear_arith)
                    requires
                        fr >= 0,
                        bins >= 0,
                ;
            }
            let pos: usize = fr * step;
            let mut m = frame_magnitudes(audio_data, &self.window_values, pos, bins);
            let ghost old_r = r@;
            r.append(&mut m);
            proof {
                assert forall|f: int, k: int|
                    0 <= f < fr + 1 && 0 <= k < bins implies r@[#[trigger] mat_idx(f, bins as int, k)]
                    == frame_mag(audio_data@, self.spec_window(), f * stepg, k) by {
                    if f < fr {
                        assert(0 <= f * bins + k < old_r.len()) by (nonlinear_arith)
                            requires
                                0 <= f < fr as int,
                                0 <= k < bins,
                                old_r.len() == (fr as int) * bins,
                        ;
                        assert(r@[mat_idx(f, bins as int, k)] == old_r[mat_idx(f, bins as int, k)]);
                    } else {
                        assert(f * bins + k == old_r.len() + k) by (nonlinear_arith)
                            requires
                                f == fr as int,
                                old_r.len() == (fr as int) * bins,
                        ;
                    }
                }
                assert(((fr + 1) as int) * bins == (fr as int) * bins + bins)
                    by (nonlinear_arith);
            }
            fr += 1;
        }
        proof {
            assert((num_frames as int) * (bins as int) == (bins as int) * (num_frames as int))
                by (nonlinear_arith);
        }
        r
    }

    /// Apply the filter bank to one frame's magnitudes: each output is
    /// the Q16 dot product of one matrix row with the magnitude vector.
    fn apply_filter_bank(&self, magnitude: &Vec<i64>) -> (filtered: Vec<i64>)
        requires
            self.wf(),
            self.spec_filtered(),
            magnitude@.len() == self.spec_fft_size() / 2,
            all_within(magnitude@, MAG_MAX as int),
        ensures
            filtered@.len() == self.spec_num_filters(),
            forall|i: int|
                0 <= i < filtered@.len() ==> filtered@[i] == bank_dot(
                    self.spec_filter_bank(),
                    magnitude@.map_values(|v: i64| v as int),
                    i,
                    self.spec_fft_size() / 2,
                    self.spec_fft_size() / 2,
                ),
            all_within(filtered@, 0x8000_0000_0000int),
    {
        let ghost magsg = magnitude@.map_values(|v: i64| v as int);
        let bins = self.fft_size / 2;
        let stride = bins + 1;
        let nf = self.num_filters;
        let bank_len = self.filter_bank.len();
        let mut filtered: Vec<i64> = Vec::new();
        let mut i: usize = 0;
        while i < nf
            invariant
                self.wf(),
                self.spec_filtered(),
                magsg == magnitude@.map_values(|v: i64| v as int),
                bins == self.spec_fft_size() / 2,
                stride == bins + 1,
                nf == self.spec_num_filters(),
                bank_len == self.spec_filter_bank().len(),
                bank_len == (nf as int) * (stride as int),
                magnitude@.len() == bins,
                all_within(magnitude@, MAG_MAX as int),
                i <= nf,
                filtered@.len() == i,
                forall|ii: int|
                    0 <= ii < i ==> filtered@[ii] == bank_dot(
                        self.spec_filter_bank(),
                        magsg,
                        ii,
                        bins as int,
                        bins as int,
                    ),
                all_within(filtered@, 0x8000_0000_0000int),
            decreases nf - i,
        {
            proof {
                lemma_row_bounds(i as int, nf as int, stride as int);
            }
            let row_start: usize = i * stride;
            let mut acc: i64 = 0;
            let mut j: usize = 0;
            while j < bins
                invariant
                    self.wf(),
                    self.spec_filtered(),
                    magsg == magnitude@.map_values(|v: i64| v as int),
                    bins == self.spec_fft_size() / 2,
                    stride == bins + 1,
                    i < nf,
                    nf == self.spec_num_filters(),
                    magnitude@.len() == bins,
                    all_within(magnitude@, MAG_MAX as int),
                    row_start == i * stride,
                    bank_len == self.spec_filter_bank().len(),
                    row_start + stride <= bank_len,
                    j <= bins,
                    acc == bank_dot(self.spec_filter_bank(), magsg, i as int, bins as int, j as int),
                    -(j as int) * 8589934592 <= acc as int <= (j as int) * 8589934592,
                decreases bins - j,
            {
                let m = magnitude[j];
                let w = self.filter_bank[row_start + j];
                proof {
                    assert(-562949953421312int <= (m as int) * (w as int) <= 562949953421312int)
                        by (nonlinear_arith)
                        requires
                            -1048576 <= m <= 1048576,
                            -0x2000_0000 <= w <= 0x2000_0000,
                    ;
                    lemma_tdiv_bound((m as int) * (w as int), 65536, 8589934592);
                    assert(magsg[j as int] == m as int);
                }
                let term = div_trunc(m * w, 65536);
                acc = acc + term;
                j += 1;
            }
            proof {
                assert((bins as int) * 8589934592 <= 0x8000_0000_0000int) by (nonlinear_arith)
                    requires
                        bins <= 16384,
                ;
            }
            filtered.push(acc);
            i += 1;
        }
        filtered
    }

    /// Compute the quantized spectrogram: per frame, transform and
    /// magnitude, optional filter-bank projection, then dB conversion
    /// and byte quantization under `gain_db` and `range_db` (Q16 dB).
    /// Side effect: the unfiltered linear magnitudes of every frame and
    /// their global maximum replace the magnitude cache for later peak
    /// queries.
    pub fn compute_spectrogram_u8(
        &mut self,
        audio_data: &Vec<i64>,
        noverlap: usize,
        gain_db: i64,
        range_db: i64,
    ) -> (r: Vec<u8>)
        requires
            old(self).wf(),
            all_within(audio_data@, SAMPLE_MAX as int),
            -0x1_0000_0000i64 <= gain_db <= 0x1_0000_0000i64,
            1 <= range_db <= 0x1_0000_0000i64,
            (old(self).spec_fft_size() / 2) * spec_num_frames(
                audio_data@.len() as int,
                old(self).spec_fft_size(),
                spec_step(old(self).spec_fft_size(), noverlap as int),
            ) <= usize::MAX,
            old(self).spec_output_bins() * spec_num_frames(
                audio_data@.len() as int,
                old(self).spec_fft_size(),
                spec_step(old(self).spec_fft_size(), noverlap as int),
            ) <= usize::MAX,
        ensures
            final(self).wf(),
            final(self).config_unchanged(old(self)),
            ({
                let size = old(self).spec_fft_size();
                let bins = size / 2;
                let step = spec_step(size, noverlap as int);
                let frames = spec_num_frames(audio_data@.len() as int, size, step);
                let outbins = old(self).spec_output_bins();
                &&& r@.len() == outbins * frames
                &&& forall|fr: int, i: int|
                    0 <= fr < frames && 0 <= i < outbins ==> r@[#[trigger] mat_idx(
                        fr,
                        outbins,
                        i,
                    )] == quantize_spec(
                        spec_out_value(old(self), audio_data@, fr * step, i),
                        gain_db as int,
                        range_db as int,
                    )
                &&& final(self).spec_cache_frames() == frames
                &&& final(self).spec_cache().len() == frames * bins
                &&& forall|fr: int, k: int|
                    0 <= fr < frames && 0 <= k < bins ==> final(self).spec_cache()[#[trigger] mat_idx(
                        fr,
                        bins,
                        k,
                    )] == frame_mag(audio_data@, old(self).spec_window(), fr * step, k)
                &&& final(self).spec_global_max() == seq_max_pos(
                    final(self).spec_cache(),
                    final(self).spec_cache().len() as int,
                )
            }),
    {
        let size = self.fft_size;
        let bins = size / 2;
        let step: usize = if noverlap < size {
            size - noverlap
        } else {
            1
        };
        let len = audio_data.len();
        let num_frames: usize = if len >= size {
            (len - size) / step + 1
        } else {
            0
        };
        let outbins: usize = if self.use_filter_bank {
            self.num_filters
        } else {
            bins
        };
        let ghost stepg = step as int;
        proof {
            if len >= size {
                lemma_fundamental_div_mod(len as int - size as int, stepg);
                assert((num_frames - 1) * stepg == stepg * ((len as int - size as int) / stepg))
                    by (nonlinear_arith)
                    requires
                        num_frames - 1 == (len as int - size as int) / stepg,
                ;
            }
        }
        let mut result: Vec<u8> = Vec::new();
        let mut all_mags: Vec<i64> = Vec::new();
        let mut global_max: i64 = 0;
        let mut fr: usize = 0;
        while fr < num_frames
            invariant
                self.wf(),
                *self == *old(self),
                all_within(audio_data@, SAMPLE_MAX as int),
                -0x1_0000_0000i64 <= gain_db <= 0x1_0000_0000i64,
                1 <= range_db <= 0x1_0000_0000i64,
                size == self.spec_fft_size(),
                bins == size / 2,
                stepg == step,
                step >= 1,
                len == audio_data@.len(),
                num_frames >= 1 ==> (num_frames - 1) * stepg + size <= len,
                outbins == self.spec_output_bins(),
                bins * num_frames <= usize::MAX,
                outbins * num_frames <= usize::MAX,
                fr <= num_frames,
                result@.len() == fr * outbins,
                all_mags@.len() == fr * bins,
                forall|f: int, i: int|
                    0 <= f < fr && 0 <= i < outbins ==> result@[#[trigger] mat_idx(
                        f,
                        outbins as int,
                        i,
                    )] == quantize_spec(
                        spec_out_value(self, audio_data@, f * stepg, i),
                        gain_db as int,
                        range_db as int,
                    ),
                forall|f: int, k: int|
                    0 <= f < fr && 0 <= k < bins ==> all_mags@[#[trigger] mat_idx(
                        f,
                        bins as int,
                        k,
                    )] == frame_mag(audio_data@, self.spec_window(), f * stepg, k),
                all_within(all_mags@, MAG_MAX as int),
                forall|i: int| 0 <= i < all_mags@.len() ==> 0 <= #[trigger] all_mags@[i],
                global_max == seq_max_pos(all_mags@, all_mags@.len() as int),
            decreases num_frames - fr,
        {
            proof {
                assert((fr as int) * stepg <= (num_frames - 1) * stepg) by (nonlinear_arith)
                    requires
                        fr < num_frames,
                        stepg >= 1,
                ;
                assert((fr as int) * (bins as int) + bins <= (num_frames as int) * (
                bins as int)) by (nonlinear_arith)
                    requires
                        fr < num_frames,
                        bins >= 0,
                ;
                assert((fr as int) * (outbins as int) + outbins <= (num_frames as int) * (
                outbins as int)) by (nonlinear_arith)
                    requires
                        fr < num_frames,
                        outbins >= 0,
                ;
                assert((fr as int) * (bins as int) >= 0 && (fr as int) * (outbins as int) >= 0)
                    by (nonlinear_arith)
                    requires
                        fr >= 0,
                        bins >= 0,
                        outbins >= 0,
                ;
            }
            let pos: usize = fr * step;
            let m = frame_magnitudes(audio_data, &self.window_values, pos, bins);
            let ghost old_mags = all_mags@;
            let mut j: usize = 0;
            while j < bins
                invariant
                    bins == m@.len(),
                    forall|k: int|
                        0 <= k < bins ==> m@[k] == frame_mag(
                            audio_data@,
                            self.spec_window(),
                            (fr as int) * stepg,
                            k,
                        ),
                    all_within(m@, MAG_MAX as int),
                    forall|k: int| 0 <= k < bins ==> 0 <= #[trigger] m@[k],
                    j <= bins,
                    all_mags@ == old_mags + m@.take(j as int),
                    all_within(all_mags@, MAG_MAX as int),
                    forall|i: int| 0 <= i < all_mags@.len() ==> 0 <= #[trigger] all_mags@[i],
                    global_max == seq_max_pos(all_mags@, all_mags@.len() as int),
                decreases bins - j,
            {
                let v = m[j];
                let ghost before = all_mags@;
                all_mags.push(v);
                if v > global_max {
                    global_max = v;
                }
                proof {
                    assert(all_mags@ =~= old_mags + m@.take(j as int + 1));
                    lemma_seq_max_prefix(before, all_mags@, before.len() as int);
                    assert(all_mags@[before.len() as int] == v);
                }
                j += 1;
            }
            proof {
                assert(m@.take(bins as int) =~= m@);
                assert forall|f: int, k: int|
                    0 <= f < fr + 1 && 0 <= k < bins implies all_mags@[#[trigger] mat_idx(
                    f,
                    bins as int,
                    k,
                )] == frame_mag(audio_data@, self.spec_window(), f * stepg, k) by {
                    if f < fr {
                        assert(0 <= f * (bins as int) + k < old_mags.len())
                            by (nonlinear_arith)
                            requires
                                0 <= f < fr as int,
                                0 <= k < bins,
                                old_mags.len() == (fr as int) * (bins as int),
                        ;
                    } else {
                        assert(f * (bins as int) + k == old_mags.len() + k)
                            by (nonlinear_arith)
                            requires
                                f == fr as int,
                                old_mags.len() == (fr as int) * (bins as int),
                        ;
                    }
                }
                assert(((fr + 1) as int) * (bins as int) == (fr as int) * (bins as int) + bins)
                    by (nonlinear_arith);
            }
            let out_vals: Vec<i64> = if self.use_filter_bank {
                self.apply_filter_bank(&m)
            } else {
                m
            };
            proof {
                if self.use_filter_bank {
                    assert(m@.map_values(|v: i64| v as int) =~= mags_row(
                        audio_data@,
                        self.spec_window(),
                        (fr as int) * stepg,
                        bins as int,
                    ));
                }
                assert(forall|i: int|
                    0 <= i < outbins ==> out_vals@[i] == spec_out_value(
                        self,
                        audio_data@,
                        (fr as int) * stepg,
                        i,
                    ));
            }
            let ghost old_result = result@;
            let mut i: usize = 0;
            while i < outbins
                invariant
                    outbins == out_vals@.len(),
                    -0x1_0000_0000i64 <= gain_db <= 0x1_0000_0000i64,
                    1 <= range_db <= 0x1_0000_0000i64,
                    all_within(out_vals@, 0x8000_0000_0000int),
                    forall|ii: int|
                        0 <= ii < outbins ==> out_vals@[ii] == spec_out_value(
                            self,
                            audio_data@,
                            (fr as int) * stepg,
                            ii,
                        ),
                    i <= outbins,
                    result@ == old_result + Seq::new(
                        i as nat,
                        |ii: int| (quantize_spec(
                            spec_out_value(self, audio_data@, (fr as int) * stepg, ii),
                            gain_db as int,
                            range_db as int,
                        )) as u8,
                    ),
                decreases outbins - i,
            {
                let q = quantize_u8(out_vals[i], gain_db, range_db);
                result.push(q);
                proof {
                    assert(result@ =~= old_result + Seq::new(
                        (i + 1) as nat,
                        |ii: int| (quantize_spec(
                            spec_out_value(self, audio_data@, (fr as int) * stepg, ii),
                            gain_db as int,
                            range_db as int,
                        )) as u8,
                    ));
                }
                i += 1;
            }
            proof {
                assert forall|f: int, ii: int|
                    0 <= f < fr + 1 && 0 <= ii < outbins implies result@[#[trigger] mat_idx(
                    f,
                    outbins as int,
                    ii,
                )] == quantize_spec(
                    spec_out_value(self, audio_data@, f * stepg, ii),
                    gain_db as int,
                    range_db as int,
                ) by {
                    if f < fr {
                        assert(0 <= f * (outbins as int) + ii < old_result.len())
                            by (nonlinear_arith)
                            requires
                                0 <= f < fr as int,
                                0 <= ii < outbins,
                                old_result.len() == (fr as int) * (outbins as int),
                        ;
                    } else {
                        assert(f * (outbins as int) + ii == old_result.len() + ii)
                            by (nonlinear_arith)
                            requires
                                f == fr as int,
                                old_result.len() == (fr as int) * (outbins as int),
                        ;
                        crate::quantize::lemma_quantize_spec_range(
                            spec_out_value(self, audio_data@, f * stepg, ii),
                            gain_db as int,
                            range_db as int,
                        );
                    }
                }
                assert(((fr + 1) as int) * (outbins as int) == (fr as int) * (outbins as int)
                    + outbins) by (nonlinear_arith);
            }
            fr += 1;
        }
        proof {
            assert((num_frames as int) * (bins as int) == (bins as int) * (num_frames as int))
                by (nonlinear_arith);
            assert((num_frames as int) * (outbins as int) == (outbins as int) * (
            num_frames as int)) by (nonlinear_arith);
        }
        self.last_magnitude_buffer = all_mags;
        self.last_num_frames = num_frames;
        self.last_global_max = global_max;
        result
    }

    /// Per-frame peak bin indexes from the magnitude cache: the first
    /// bin holding the frame's maximum magnitude, or `u16::MAX` when
    /// that maximum falls below `global_max * threshold_ratio`
    /// (Q16 ratio). Empty before any quantized computation.
    pub fn get_peaks(&self, threshold_ratio: i64) -> (peaks: Vec<u16>)
        requires
            self.wf(),
            0 <= threshold_ratio <= 65536,
        ensures
            self.spec_cache().len() == 0 || self.spec_global_max() <= 0 ==> peaks@.len() == 0,
            self.spec_cache().len() > 0 && self.spec_global_max() > 0 ==> {
                let bins = self.spec_fft_size() / 2;
                let thr = self.spec_global_max() * threshold_ratio / 65536;
                &&& peaks@.len() == self.spec_cache_frames()
                &&& forall|fr: int|
                    0 <= fr < peaks@.len() ==> peaks@[fr] as int == (if peak_scan(
                        self.spec_cache(),
                        fr * bins,
                        bins,
                    ).1 >= thr {
                        peak_scan(self.spec_cache(), fr * bins, bins).0
                    } else {
                        65535int
                    })
            },
    {
        if self.last_magnitude_buffer.len() == 0 || self.last_global_max <= 0 {
            return Vec::new();
        }
        let bins = self.fft_size / 2;
        let nframes = self.last_num_frames;
        let cache_len = self.last_magnitude_buffer.len();
        proof {
            lemma_seq_max_in(self.spec_cache(), self.spec_cache().len() as int);
            assert(0 <= self.spec_global_max() * threshold_ratio <= 65536 * 1048576)
                by (nonlinear_arith)
                requires
                    0 < self.spec_global_max() <= 1048576,
                    0 <= threshold_ratio <= 65536,
            ;
            lemma_div_bound(self.spec_global_max() * threshold_ratio, 65536, 1048576);
        }
        let threshold: i64 = ((((self.last_global_max) as u64) * (threshold_ratio as u64))
            / 65536u64) as i64;
        let mut peaks: Vec<u16> = Vec::new();
        let mut fr: usize = 0;
        while fr < nframes
            invariant
                self.wf(),
                bins == self.spec_fft_size() / 2,
                nframes == self.spec_cache_frames(),
                self.spec_cache().len() == nframes * bins,
                cache_len == self.spec_cache().len(),
                threshold as int == self.spec_global_max() * threshold_ratio / 65536,
                0 <= threshold,
                fr <= nframes,
                peaks@.len() == fr,
                forall|f: int|
                    0 <= f < fr ==> peaks@[f] as int == (if peak_scan(
                        self.spec_cache(),
                        f * (bins as int),
                        bins as int,
                    ).1 >= threshold {
                        peak_scan(self.spec_cache(), f * (bins as int), bins as int).0
                    } else {
                        65535int
                    }),
            decreases nframes - fr,
        {
            proof {
                lemma_row_bounds(fr as int, nframes as int, bins as int);
            }
            let base: usize = fr * bins;
            let mut best_idx: usize = 0;
            let mut best_val: i64 = 0;
            let mut j: usize = 0;
            while j < bins
                invariant
                    self.wf(),
                    bins == self.spec_fft_size() / 2,
                    base == (fr as int) * (bins as int),
                    cache_len == self.spec_cache().len(),
                    base + bins <= cache_len,
                    j <= bins,
                    best_idx < if j == 0 {
                        1int
                    } else {
                        j as int
                    },
                    (best_idx as int, best_val as int) == peak_scan(
                        self.spec_cache(),
                        base as int,
                        j as int,
                    ),
                decreases bins - j,
            {
                let v = self.last_magnitude_buffer[base + j];
                if v > best_val {
                    best_idx = j;
                    best_val = v;
                }
                j += 1;
            }
            if best_val >= threshold {
                peaks.push(best_idx as u16);
            } else {
                peaks.push(65535u16);
            }
            fr += 1;
        }
        peaks
    }

    /// Per-frame peak magnitudes from the magnitude cache: the frame's
    /// maximum linear magnitude, or zero when it falls below
    /// `global_max * threshold_ratio` (Q16 ratio). With a zero ratio
    /// this is exactly the per-frame maximum. Empty before any
    /// quantized computation.
    pub fn get_peak_magnitudes(&self, threshold_ratio: i64) -> (mags: Vec<i64>)
        requires
            self.wf(),
            0 <= threshold_ratio <= 65536,
        ensures
            self.spec_cache().len() == 0 || self.spec_global_max() <= 0 ==> mags@.len() == 0,
            self.spec_cache().len() > 0 && self.spec_global_max() > 0 ==> {
                let bins = self.spec_fft_size() / 2;
                let thr = self.spec_global_max() * threshold_ratio / 65536;
                &&& mags@.len() == self.spec_cache_frames()
                &&& forall|fr: int|
                    0 <= fr < mags@.len() ==> mags@[fr] as int == (if peak_scan(
                        self.spec_cache(),
                        fr * bins,
                        bins,
                    ).1 >= thr {
                        peak_scan(self.spec_cache(), fr * bins, bins).1
                    } else {
                        0int
                    })
            },
    {
        if self.last_magnitude_buffer.len() == 0 || self.last_global_max <= 0 {
            return Vec::new();
        }
        let bins = self.fft_size / 2;
        let nframes = self.last_num_frames;
        let cache_len = self.last_magnitude_buffer.len();
        proof {
            lemma_seq_max_in(self.spec_cache(), self.spec_cache().len() as int);
            assert(0 <= self.spec_global_max() * threshold_ratio <= 65536 * 1048576)
                by (nonlinear_arith)
                requires
                    0 < self.spec_global_max() <= 1048576,
                    0 <= threshold_ratio <= 65536,
            ;
            lemma_div_bound(self.spec_global_max() * threshold_ratio, 65536, 1048576);
        }
        let threshold: i64 = ((((self.last_global_max) as u64) * (threshold_ratio as u64))
            / 65536u64) as i64;
        let mut mags: Vec<i64> = Vec::new();
        let mut fr: usize = 0;
        while fr < nframes
            invariant
                self.wf(),
                bins == self.spec_fft_size() / 2,
                nframes == self.spec_cache_frames(),
                self.spec_cache().len() == nframes * bins,
                cache_len == self.spec_cache().len(),
                threshold as int == self.spec_global_max() * threshold_ratio / 65536,
                0 <= threshold,
                fr <= nframes,
                mags@.len() == fr,
                forall|f: int|
                    0 <= f < fr ==> mags@[f] as int == (if peak_scan(
                        self.spec_cache(),
                        f * (bins as int),
                        bins as int,
                    ).1 >= threshold {
                        peak_scan(self.spec_cache(), f * (bins as int), bins as int).1
                    } else {
                        0int
                    }),
            decreases nframes - fr,
        {
            proof {
                lemma_row_bounds(fr as int, nframes as int, bins as int);
            }
            let base: usize = fr * bins;
            let mut best_val: i64 = 0;
            let mut j: usize = 0;
            while j < bins
                invariant
                    self.wf(),
                    bins == self.spec_fft_size() / 2,
                    base == (fr as int) * (bins as int),
                    cache_len == self.spec_cache().len(),
                    base + bins <= cache_len,
                    j <= bins,
                    best_val as int == peak_scan(self.spec_cache(), base as int, j as int).1,
                decreases bins - j,
            {
                let v = self.last_magnitude_buffer[base + j];
                if v > best_val {
                    best_val = v;
                }
                j += 1;
            }
            if best_val >= threshold {
                mags.push(best_val);
            } else {
                mags.push(0);
            }
            fr += 1;
        }
        mags
    }

    /// The cached global maximum magnitude of the last quantized
    /// computation; zero when nothing is cached.
    pub fn get_global_max(&self) -> (m: i64)
        ensures
            m == self.spec_global_max(),
    {
        self.last_global_max
    }

    /// The quantized spectrum of one zero-padded frame, as the image
    /// path samples it: magnitudes, optional filter-bank projection,
    /// then the centered dB quantizer.
    pub fn compute_frame_spectrum(
        &self,
        audio_data: &Vec<i64>,
        frame_start: usize,
        gain_db: i64,
        range_db: i64,
    ) -> (r: Vec<u8>)
        requires
            self.wf(),
            all_within(audio_data@, SAMPLE_MAX as int),
            -0x1_0000_0000i64 <= gain_db <= 0x1_0000_0000i64,
            1 <= range_db <= 0x1_0000_0000i64,
        ensures
            r@.len() == self.spec_output_bins(),
            forall|i: int|
                0 <= i < r@.len() ==> #[trigger] r@[i] as int == quantize_centered_spec(
                    spec_frame_value(self, audio_data@, frame_start as int, i),
                    gain_db as int,
                    range_db as int,
                ),
    {
        let bins = self.fft_size / 2;
        let m = crate::dft::frame_magnitudes_padded(
            audio_data,
            &self.window_values,
            frame_start,
            bins,
        );
        let out_vals: Vec<i64> = if self.use_filter_bank {
            self.apply_filter_bank(&m)
        } else {
            m
        };
        let outbins: usize = if self.use_filter_bank {
            self.num_filters
        } else {
            bins
        };
        proof {
            if self.use_filter_bank {
                assert(out_vals@.len() == outbins);
            }
            if self.use_filter_bank {
                assert(m@.map_values(|v: i64| v as int) =~= padded_mags_row(
                    audio_data@,
                    self.spec_window(),
                    frame_start as int,
                    bins as int,
                ));
            }
            assert(forall|i: int|
                0 <= i < outbins ==> out_vals@[i] == spec_frame_value(
                    self,
                    audio_data@,
                    frame_start as int,
                    i,
                ));
        }
        let mut r: Vec<u8> = Vec::new();
        let mut i: usize = 0;
        while i < outbins
            invariant
                outbins == out_vals@.len(),
                -0x1_0000_0000i64 <= gain_db <= 0x1_0000_0000i64,
                1 <= range_db <= 0x1_0000_0000i64,
                all_within(out_vals@, 0x8000_0000_0000int),
                forall|ii: int|
                    0 <= ii < outbins ==> out_vals@[ii] == spec_frame_value(
                        self,
                        audio_data@,
                        frame_start as int,
                        ii,
                    ),
                i <= outbins,
                r@.len() == i,
                forall|ii: int|
                    0 <= ii < i ==> #[trigger] r@[ii] as int == quantize_centered_spec(
                        spec_frame_value(self, audio_data@, frame_start as int, ii),
                        gain_db as int,
                        range_db as int,
                    ),
            decreases outbins - i,
        {
            let q = crate::quantize::quantize_centered_u8(out_vals[i], gain_db, range_db);
            r.push(q);
            i += 1;
        }
        r
    }

    /// One bilinear contribution of neighbor `(ti, fi)` with weights
    /// `tw` and `fw` (Q16), for the image path.
    fn img_contrib_exec(
        &self,
        audio_data: &Vec<i64>,
        fstep: usize,
        ti: usize,
        fi: usize,
        tw: i64,
        fw: i64,
        gain_db: i64,
        range_db: i64,
    ) -> (v: i64)
        requires
            self.wf(),
            all_within(audio_data@, SAMPLE_MAX as int),
            -0x1_0000_0000i64 <= gain_db <= 0x1_0000_0000i64,
            1 <= range_db <= 0x1_0000_0000i64,
            fi < self.spec_output_bins(),
            0 <= tw <= 65536,
            0 <= fw <= 65536,
            (ti as int) * (fstep as int) <= audio_data@.len(),
            audio_data@.len() <= usize::MAX,
        ensures
            v == img_contrib(
                self,
                audio_data@,
                gain_db as int,
                range_db as int,
                fstep as int,
                ti as int,
                fi as int,
                tw as int,
                fw as int,
            ),
            0 <= v <= 65536,
    {
        proof {
            assert((ti as int) * (fstep as int) >= 0) by (nonlinear_arith)
                requires
                    ti >= 0,
                    fstep >= 0,
            ;
        }
        let fs: usize = ti * fstep;
        if fs >= audio_data.len() {
            proof {
                vstd::arithmetic::div_mod::lemma_div_pos_is_pos(0, 255);
            }
            return 0;
        }
        let spec8 = self.compute_frame_spectrum(audio_data, fs, gain_db, range_db);
        let b: i64 = spec8[fi] as i64;
        proof {
            lemma_div_bound((b as int) * 65536, 255, 65536);
        }
        let val: i64 = (((b as u64) * 65536) / 255u64) as i64;
        proof {
            assert(0 <= (val as int) * (tw as int) <= 65536 * 65536) by (nonlinear_arith)
                requires
                    0 <= val <= 65536,
                    0 <= tw <= 65536,
            ;
            lemma_div_bound((val as int) * (tw as int), 65536, 65536);
        }
        let t1: i64 = ((((val as u64) * (tw as u64))) / 65536u64) as i64;
        proof {
            assert(0 <= (t1 as int) * (fw as int) <= 65536 * 65536) by (nonlinear_arith)
                requires
                    0 <= t1 <= 65536,
                    0 <= fw <= 65536,
            ;
            lemma_div_bound((t1 as int) * (fw as int), 65536, 65536);
        }
        let t2: i64 = ((((t1 as u64) * (fw as u64))) / 65536u64) as i64;
        t2
    }

    /// Compute the colorized spectrogram image: `width * height`
    /// pixels, 4 bytes each, row 0 the highest frequency. Each pixel
    /// bilinearly blends the centered-quantized spectra of its four
    /// neighboring (time, frequency) samples and looks the blend up in
    /// the color table. A zero dimension, a missing color table or too
    /// few samples for one frame yield an all-zero buffer of the
    /// requested size.
    pub fn compute_spectrogram_image(
        &self,
        audio_data: &Vec<i64>,
        width: usize,
        height: usize,
        noverlap: usize,
        gain_db: i64,
        range_db: i64,
    ) -> (out: Vec<u8>)
        requires
            self.wf(),
            all_within(audio_data@, SAMPLE_MAX as int),
            -0x1_0000_0000i64 <= gain_db <= 0x1_0000_0000i64,
            1 <= range_db <= 0x1_0000_0000i64,
            width <= 32768,
            height <= 32768,
            audio_data@.len() <= 0x4000_0000,
            (width as int) * (height as int) * 4 <= usize::MAX,
        ensures
            out@.len() == (width as int) * (height as int) * 4,
            ({
                let nf = img_frames(
                    audio_data@.len() as int,
                    self.spec_fft_size(),
                    noverlap as int,
                );
                &&& (width == 0 || height == 0 || self.spec_color_map().len() == 0 || nf == 0)
                    ==> forall|i: int| 0 <= i < out@.len() ==> out@[i] == 0
                &&& (width > 0 && height > 0 && self.spec_color_map().len() == 256 && nf > 0)
                    ==> forall|p: int, c: int|
                    0 <= p < (width as int) * (height as int) && 0 <= c < 4 ==> out@[
                        #[trigger] mat_idx(p, 4, c)
                    ] as int == img_pixel_byte(
                        self,
                        audio_data@,
                        gain_db as int,
                        range_db as int,
                        noverlap as int,
                        width as int,
                        height as int,
                        p,
                        c,
                    )
            }),
    {
        let size = self.fft_size;
        let fstep: usize = if noverlap < size {
            size - noverlap
        } else {
            1
        };
        let len = audio_data.len();
        let nov: usize = if noverlap <= len {
            noverlap
        } else {
            len
        };
        let num_frames: usize = if len >= size {
            (len - nov) / fstep
        } else {
            0
        };
        proof {
            assert((width as int) * (height as int) * 4 >= (width as int) * (height as int))
                by (nonlinear_arith);
            assert((width as int) * (height as int) >= 0) by (nonlinear_arith);
        }
        let npix: usize = width * height;
        if width == 0 || height == 0 || self.color_map.len() == 0 || num_frames == 0 {
            let mut zeros: Vec<u8> = Vec::new();
            let mut i: usize = 0;
            let total: usize = npix * 4;
            while i < total
                invariant
                    i <= total,
                    zeros@.len() == i,
                    forall|j: int| 0 <= j < i ==> zeros@[j] == 0,
                decreases total - i,
            {
                zeros.push(0);
                i += 1;
            }
            return zeros;
        }
        let spec_h: usize = if self.use_filter_bank {
            self.num_filters
        } else {
            size / 2
        };
        proof {
            lemma_fundamental_div_mod(len as int - nov as int, fstep as int);
            assert((num_frames as int) * (fstep as int) == (fstep as int) * (
            num_frames as int)) by (nonlinear_arith);
            assert((num_frames as int) * (fstep as int) <= len);
        }
        let mut out: Vec<u8> = Vec::new();
        let mut y: usize = 0;
        while y < height
            invariant
                self.wf(),
                all_within(audio_data@, SAMPLE_MAX as int),
                -0x1_0000_0000i64 <= gain_db <= 0x1_0000_0000i64,
                1 <= range_db <= 0x1_0000_0000i64,
                size == self.spec_fft_size(),
                fstep == spec_step(self.spec_fft_size(), noverlap as int),
                len == audio_data@.len(),
                len <= 0x4000_0000,
                0 < width <= 32768,
                0 < height <= 32768,
                num_frames == img_frames(len as int, self.spec_fft_size(), noverlap as int),
                num_frames >= 1,
                (num_frames as int) * (fstep as int) <= len,
                spec_h == self.spec_output_bins(),
                spec_h >= 1,
                self.spec_color_map().len() == 256,
                npix == (width as int) * (height as int),
                npix * 4 <= usize::MAX,
                y <= height,
                out@.len() == (y as int) * (width as int) * 4,
                forall|p: int, c: int|
                    0 <= p < (y as int) * (width as int) && 0 <= c < 4 ==> out@[
                        #[trigger] mat_idx(p, 4, c)
                    ] as int == img_pixel_byte(
                        self,
                        audio_data@,
                        gain_db as int,
                        range_db as int,
                        noverlap as int,
                        width as int,
                        height as int,
                        p,
                        c,
                    ),
            decreases height - y,
        {
            proof {
                assert((height as int - 1 - y as int) * (spec_h as int) * 65536 <= 32768
                    * 32768 * 65536 && 0 <= (height as int - 1 - y as int) * (
                spec_h as int) * 65536) by (nonlinear_arith)
                    requires
                        0 <= y < height <= 32768,
                        1 <= spec_h <= 32768,
                ;
                assert((height as int - 1 - y as int) * (spec_h as int) * 65536 <= (
                height as int) * ((height as int - 1 - y as int) * (spec_h as int) * 65536))
                    by (nonlinear_arith)
                    requires
                        height >= 1,
                        0 <= (height as int - 1 - y as int) * (spec_h as int) * 65536,
                ;
                lemma_div_bound(
                    (height as int - 1 - y as int) * (spec_h as int) * 65536,
                    height as int,
                    (height as int - 1 - y as int) * (spec_h as int) * 65536,
                );
            }
            let fq: u64 = (((height - 1 - y) as u64) * (spec_h as u64) * 65536) / (
            height as u64);
            let fint: u64 = fq / 65536;
            let ffrac: i64 = (fq % 65536) as i64;
            let f0: usize = if fint < (spec_h - 1) as u64 {
                fint as usize
            } else {
                spec_h - 1
            };
            let f1: usize = if fint + 1 < (spec_h - 1) as u64 {
                (fint + 1) as usize
            } else {
                spec_h - 1
            };
            let mut x: usize = 0;
            while x < width
                invariant
                    self.wf(),
                    all_within(audio_data@, SAMPLE_MAX as int),
                    -0x1_0000_0000i64 <= gain_db <= 0x1_0000_0000i64,
                    1 <= range_db <= 0x1_0000_0000i64,
                    size == self.spec_fft_size(),
                    fstep == spec_step(self.spec_fft_size(), noverlap as int),
                    len == audio_data@.len(),
                    len <= 0x4000_0000,
                    0 < width <= 32768,
                    0 < height <= 32768,
                    y < height,
                    num_frames == img_frames(
                        len as int,
                        self.spec_fft_size(),
                        noverlap as int,
                    ),
                    num_frames >= 1,
                    (num_frames as int) * (fstep as int) <= len,
                    spec_h == self.spec_output_bins(),
                    spec_h >= 1,
                    self.spec_color_map().len() == 256,
                    npix == (width as int) * (height as int),
                    npix * 4 <= usize::MAX,
                    fq == (height as int - 1 - y as int) * (spec_h as int) * 65536 / (
                    height as int),
                    fint == fq as int / 65536,
                    ffrac == fq as int % 65536,
                    0 <= ffrac <= 65535,
                    f0 as int == (if (fint as int) < spec_h as int - 1 {
                        fint as int
                    } else {
                        spec_h as int - 1
                    }),
                    f1 as int == (if (fint as int) + 1 < spec_h as int - 1 {
                        fint as int + 1
                    } else {
                        spec_h as int - 1
                    }),
                    f0 < spec_h,
                    f1 < spec_h,
                    x <= width,
                    out@.len() == ((y as int) * (width as int) + x as int) * 4,
                    forall|p: int, c: int|
                        0 <= p < (y as int) * (width as int) + x as int && 0 <= c < 4
                            ==> out@[#[trigger] mat_idx(p, 4, c)] as int == img_pixel_byte(
                            self,
                            audio_data@,
                            gain_db as int,
                            range_db as int,
                            noverlap as int,
                            width as int,
                            height as int,
                            p,
                            c,
                        ),
                decreases width - x,
            {
                proof {
                    assert(0 <= (x as int) * (num_frames as int) * 65536 && (x as int) * (
                    num_frames as int) * 65536 <= 32768 * 0x4000_0000 * 65536)
                        by (nonlinear_arith)
                        requires
                            0 <= x < width <= 32768,
                            1 <= num_frames <= 0x4000_0000,
                    ;
                    assert((x as int) * (num_frames as int) * 65536 <= (width as int) * ((
                    x as int) * (num_frames as int) * 65536)) by (nonlinear_arith)
                        requires
                            width >= 1,
                            0 <= (x as int) * (num_frames as int) * 65536,
                    ;
                    lemma_div_bound(
                        (x as int) * (num_frames as int) * 65536,
                        width as int,
                        (x as int) * (num_frames as int) * 65536,
                    );
                }
                let tq: u64 = (((x as u64) * (num_frames as u64)) * 65536) / (width as u64);
                let tint: u64 = tq / 65536;
                let tfrac: i64 = (tq % 65536) as i64;
                let t0: usize = if tint < (num_frames - 1) as u64 {
                    tint as usize
                } else {
                    num_frames - 1
                };
                let t1: usize = if tint + 1 < (num_frames - 1) as u64 {
                    (tint + 1) as usize
                } else {
                    num_frames - 1
                };
                proof {
                    assert((t0 as int) * (fstep as int) <= (num_frames as int) * (
                    fstep as int) && (t1 as int) * (fstep as int) <= (num_frames as int) * (
                    fstep as int)) by (nonlinear_arith)
                        requires
                            t0 < num_frames,
                            t1 < num_frames,
                            fstep >= 0,
                    ;
                }
                let c00 = self.img_contrib_exec(
                    audio_data,
                    fstep,
                    t0,
                    f0,
                    65536 - tfrac,
                    65536 - ffrac,
                    gain_db,
                    range_db,
                );
                let c01 = self.img_contrib_exec(
                    audio_data,
                    fstep,
                    t0,
                    f1,
                    65536 - tfrac,
                    ffrac,
                    gain_db,
                    range_db,
                );
                let c10 = self.img_contrib_exec(
                    audio_data,
                    fstep,
                    t1,
                    f0,
                    tfrac,
                    65536 - ffrac,
                    gain_db,
                    range_db,
                );
                let c11 = self.img_contrib_exec(
                    audio_data,
                    fstep,
                    t1,
                    f1,
                    tfrac,
                    ffrac,
                    gain_db,
                    range_db,
                );
                let acc: i64 = c00 + c01 + c10 + c11;
                proof {
                    lemma_div_bound((acc as int) * 255 + 32768, 65536, 1021);
                }
                let idx_raw: i64 = (((acc as u64) * 255 + 32768) / 65536u64) as i64;
                let idx: usize = if idx_raw < 255 {
                    idx_raw as usize
                } else {
                    255
                };
                let col: u32 = self.color_map[idx];
                let b0: u8 = (col / 16777216) as u8;
                let b1: u8 = ((col / 65536) % 256) as u8;
                let b2: u8 = ((col / 256) % 256) as u8;
                let b3: u8 = (col % 256) as u8;
                let ghost old_out = out@;
                let ghost p = (y as int) * (width as int) + x as int;
                proof {
                    assert(p * 4 + 4 <= npix * 4 && p < npix) by (nonlinear_arith)
                        requires
                            p == (y as int) * (width as int) + x as int,
                            0 <= y < height,
                            0 <= x < width,
                            npix == (width as int) * (height as int),
                    ;
                }
                out.push(b0);
                out.push(b1);
                out.push(b2);
                out.push(b3);
                proof {
                    vstd::arithmetic::div_mod::lemma_fundamental_div_mod_converse(
                        p,
                        width as int,
                        y as int,
                        x as int,
                    );
                    assert(img_index(
                        self,
                        audio_data@,
                        gain_db as int,
                        range_db as int,
                        noverlap as int,
                        width as int,
                        height as int,
                        x as int,
                        y as int,
                    ) == idx);
                    assert forall|pp: int, c: int|
                        0 <= pp < p + 1 && 0 <= c < 4 implies out@[#[trigger] mat_idx(
                        pp,
                        4,
                        c,
                    )] as int == img_pixel_byte(
                        self,
                        audio_data@,
                        gain_db as int,
                        range_db as int,
                        noverlap as int,
                        width as int,
                        height as int,
                        pp,
                        c,
                    ) by {
                        if pp < p {
                            assert(0 <= pp * 4 + c < old_out.len()) by (nonlinear_arith)
                                requires
                                    0 <= pp < p,
                                    0 <= c < 4,
                                    old_out.len() == p * 4,
                            ;
                            assert(out@[mat_idx(pp, 4, c)] == old_out[mat_idx(pp, 4, c)]);
                        } else {
                            assert(pp * 4 + c == old_out.len() + c) by (nonlinear_arith)
                                requires
                                    pp == p,
                                    old_out.len() == p * 4,
                            ;
                        }
                    }
                    assert((p + 1) * 4 == p * 4 + 4) by (nonlinear_arith);
                    assert(((y as int) * (width as int) + x as int + 1) * 4 == out@.len());
                }
                x += 1;
            }
            proof {
                assert(((y as int) + 1) * (width as int) == (y as int) * (width as int)
                    + width as int) by (nonlinear_arith);
                assert((((y as int) + 1) * (width as int)) * 4 == ((y as int) * (
                width as int) + width as int) * 4) by (nonlinear_arith);
            }
            y += 1;
        }
        proof {
            assert((height as int) * (width as int) * 4 == (width as int) * (height as int)
                * 4 && (height as int) * (width as int) == (width as int) * (height as int))
                by (nonlinear_arith);
            assert(out@.len() == (width as int) * (height as int) * 4) by (nonlinear_arith)
                requires
                    out@.len() == ((height as int) * (width as int)) * 4,
            ;
        }
        out
    }
}

/// An element of a nonempty scan is the maximum: the running maximum
/// is bounded by any elementwise bound.
pub proof fn lemma_seq_max_in(s: Seq<i64>, n: int)
    requires
        0 < n <= s.len(),
        forall|i: int| 0 <= i < s.len() ==> -1048576 <= #[trigger] s[i] <= 1048576,
    ensures
        seq_max_pos(s, n) <= 1048576,
    decreases n,
{
    if n > 1 {
        lemma_seq_max_in(s, n - 1);
    } else {
        assert(seq_max_pos(s, 0) == 0);
    }
}

/// Every frame's scanned peak magnitude stays within the cached global
/// maximum: with a zero threshold, `get_peak_magnitudes` reports, for
/// every frame, its true maximum, and never more than `get_global_max`.
pub proof fn lemma_peak_magnitude_within_global(e: &SpectrogramEngine, fr: int)
    requires
        e.wf(),
        0 <= fr < e.spec_cache_frames(),
    ensures
        0 <= peak_scan(e.spec_cache(), fr * (e.spec_fft_size() / 2), e.spec_fft_size() / 2).1
            <= e.spec_global_max(),
        forall|i: int|
            fr * (e.spec_fft_size() / 2) <= i < fr * (e.spec_fft_size() / 2) + e.spec_fft_size()
                / 2 ==> #[trigger] e.spec_cache()[i] <= peak_scan(
                e.spec_cache(),
                fr * (e.spec_fft_size() / 2),
                e.spec_fft_size() / 2,
            ).1,
{
    let bins = e.spec_fft_size() / 2;
    let base = fr * bins;
    let len = e.spec_cache().len() as int;
    lemma_row_bounds(fr, e.spec_cache_frames(), bins);
    lemma_peak_scan_props(e.spec_cache(), base, bins);
    lemma_seq_max_nonneg(e.spec_cache(), len);
    assert forall|i: int| base <= i < base + bins implies #[trigger] e.spec_cache()[i]
        <= seq_max_pos(e.spec_cache(), len) by {
        lemma_seq_max_ge(e.spec_cache(), len, i);
    }
    lemma_peak_scan_le(e.spec_cache(), base, bins, seq_max_pos(e.spec_cache(), len));
}

/// The spectrum row values a quantized computation feeds into the dB
/// quantizer for frame `start..start + size`: filter-bank rows in
/// filtered mode, raw one-sided magnitudes otherwise.
pub open spec fn spec_out_value(
    e: &SpectrogramEngine,
    samples: Seq<i64>,
    start: int,
    i: int,
) -> int {
    let bins = e.spec_fft_size() / 2;
    if e.spec_filtered() {
        bank_dot(e.spec_filter_bank(), mags_row(samples, e.spec_window(), start, bins), i, bins, bins)
    } else {
        frame_mag(samples, e.spec_window(), start, i)
    }
}

/// The one-sided magnitudes of one frame as a mathematical sequence.
pub open spec fn mags_row(samples: Seq<i64>, window: Seq<i64>, start: int, nbins: int) -> Seq<
    int,
> {
    Seq::new(nbins as nat, |k: int| frame_mag(samples, window, start, k))
}

/// The magnitudes of one zero-padded frame as a mathematical sequence.
pub open spec fn padded_mags_row(
    samples: Seq<i64>,
    window: Seq<i64>,
    start: int,
    nbins: int,
) -> Seq<int> {
    Seq::new(nbins as nat, |k: int| padded_frame_mag(samples, window, start, k))
}

/// The spectrum row values of the zero-padded frame at `start`, as
/// the image path sees them: filter-bank rows in filtered mode, raw
/// magnitudes otherwise.
pub open spec fn spec_frame_value(
    e: &SpectrogramEngine,
    samples: Seq<i64>,
    start: int,
    i: int,
) -> int {
    let bins = e.spec_fft_size() / 2;
    if e.spec_filtered() {
        bank_dot(
            e.spec_filter_bank(),
            padded_mags_row(samples, e.spec_window(), start, bins),
            i,
            bins,
            bins,
        )
    } else {
        padded_frame_mag(samples, e.spec_window(), start, i)
    }
}

/// The byte the image path derives for row `fi` of the frame at
/// `ti * fstep`: the centered-quantized spectrum value, normalized to
/// Q16, weighted bilinearly by `tw` and `fw`. Frames starting past the
/// end of the buffer contribute nothing.
pub open spec fn img_contrib(
    e: &SpectrogramEngine,
    samples: Seq<i64>,
    gain: int,
    range: int,
    fstep: int,
    ti: int,
    fi: int,
    tw: int,
    fw: int,
) -> int {
    let fs = ti * fstep;
    if fs < samples.len() {
        ((quantize_centered_spec(spec_frame_value(e, samples, fs, fi), gain, range) * 65536
            / 255) * tw / 65536) * fw / 65536
    } else {
        0
    }
}

/// Number of frames the image path walks.
pub open spec fn img_frames(len: int, size: int, noverlap: int) -> int {
    let fstep = spec_step(size, noverlap);
    let nov = if noverlap <= len {
        noverlap
    } else {
        len
    };
    if len >= size {
        (len - nov) / fstep
    } else {
        0
    }
}

/// The color-table index of image pixel `(x, y)`: the bilinear blend
/// of the four neighboring quantized spectrum samples, scaled to
/// `[0, 255]` with rounding to nearest, and capped.
pub open spec fn img_index(
    e: &SpectrogramEngine,
    samples: Seq<i64>,
    gain: int,
    range: int,
    noverlap: int,
    width: int,
    height: int,
    x: int,
    y: int,
) -> int {
    let size = e.spec_fft_size();
    let fstep = spec_step(size, noverlap);
    let nf = img_frames(samples.len() as int, size, noverlap);
    let spec_h = e.spec_output_bins();
    let fq = (height - 1 - y) * spec_h * 65536 / height;
    let fint = fq / 65536;
    let ffrac = fq % 65536;
    let f0 = if fint < spec_h - 1 {
        fint
    } else {
        spec_h - 1
    };
    let f1 = if fint + 1 < spec_h - 1 {
        fint + 1
    } else {
        spec_h - 1
    };
    let tq = x * nf * 65536 / width;
    let tint = tq / 65536;
    let tfrac = tq % 65536;
    let t0 = if tint < nf - 1 {
        tint
    } else {
        nf - 1
    };
    let t1 = if tint + 1 < nf - 1 {
        tint + 1
    } else {
        nf - 1
    };
    let acc = img_contrib(e, samples, gain, range, fstep, t0, f0, 65536 - tfrac, 65536 - ffrac)
        + img_contrib(e, samples, gain, range, fstep, t0, f1, 65536 - tfrac, ffrac)
        + img_contrib(e, samples, gain, range, fstep, t1, f0, tfrac, 65536 - ffrac)
        + img_contrib(e, samples, gain, range, fstep, t1, f1, tfrac, ffrac);
    let idx = (acc * 255 + 32768) / 65536;
    if idx < 255 {
        idx
    } else {
        255
    }
}

/// Byte `c` of image pixel `p` (row-major flat index): one channel of
/// the packed color the pixel's blended index selects.
pub open spec fn img_pixel_byte(
    e: &SpectrogramEngine,
    samples: Seq<i64>,
    gain: int,
    range: int,
    noverlap: int,
    width: int,
    height: int,
    p: int,
    c: int,
) -> int {
    let x = p % width;
    let y = p / width;
    let idx = img_index(e, samples, gain, range, noverlap, width, height, x, y);
    let col = (if idx < e.spec_color_map().len() {
        e.spec_color_map()[idx] as int
    } else {
        0int
    });
    if c == 0 {
        col / 16777216
    } else if c == 1 {
        (col / 65536) % 256
    } else if c == 2 {
        (col / 256) % 256
    } else {
        col % 256
    }
}

/// Running-maximum, first-peak-index and element facts of `peak_scan`.
pub proof fn lemma_peak_scan_props(s: Seq<i64>, base: int, n: int)
    requires
        0 <= base,
        base + n <= s.len(),
    ensures
        peak_scan(s, base, n).1 >= 0,
        0 <= peak_scan(s, base, n).0 < if n <= 0 {
            1int
        } else {
            n
        },
        forall|i: int| base <= i < base + n ==> #[trigger] s[i] <= peak_scan(s, base, n).1,
    decreases n,
{
    if n > 0 {
        lemma_peak_scan_props(s, base, n - 1);
    }
}

/// The scanned frame maximum never exceeds a bound that every element
/// respects.
pub proof fn lemma_peak_scan_le(s: Seq<i64>, base: int, n: int, m: int)
    requires
        0 <= base,
        base + n <= s.len(),
        m >= 0,
        forall|i: int| base <= i < base + n ==> #[trigger] s[i] <= m,
    ensures
        peak_scan(s, base, n).1 <= m,
    decreases n,
{
    if n > 0 {
        lemma_peak_scan_le(s, base, n - 1, m);
    }
}

/// Every element is bounded by the running maximum of the whole
/// sequence.
pub proof fn lemma_seq_max_ge(s: Seq<i64>, n: int, i: int)
    requires
        0 <= i < n <= s.len(),
    ensures
        s[i] <= seq_max_pos(s, n),
        seq_max_pos(s, n) >= 0,
    decreases n,
{
    if i < n - 1 {
        lemma_seq_max_ge(s, n - 1, i);
    } else {
        lemma_seq_max_nonneg(s, n - 1);
    }
}

/// The running maximum of a prefix ignores what lies beyond it.
pub proof fn lemma_seq_max_prefix(s1: Seq<i64>, s2: Seq<i64>, n: int)
    requires
        n <= s1.len(),
        n <= s2.len(),
        forall|i: int| 0 <= i < n ==> s1[i] == s2[i],
    ensures
        seq_max_pos(s1, n) == seq_max_pos(s2, n),
    decreases n,
{
    if n > 0 {
        lemma_seq_max_prefix(s1, s2, n - 1);
    }
}

/// The running maximum starts at its zero floor and never drops below.
pub proof fn lemma_seq_max_nonneg(s: Seq<i64>, n: int)
    ensures
        seq_max_pos(s, n) >= 0,
    decreases n,
{
    if n > 0 {
        lemma_seq_max_nonneg(s, n - 1);
    }
}

/// Whether every weight lies within the overflow cap
/// `±BANK_WEIGHT_MAX`.
fn weights_within_limit(v: &Vec<i64>) -> (ok: bool)
    ensures
        ok == all_within(v@, BANK_WEIGHT_MAX as int),
{
    let n = v.len();
    let mut i: usize = 0;
    while i < n
        invariant
            n == v@.len(),
            i <= n,
            forall|j: int|
                0 <= j < i ==> -BANK_WEIGHT_MAX <= #[trigger] v@[j] <= BANK_WEIGHT_MAX,
        decreases n - i,
    {
        let w = v[i];
        if w < -BANK_WEIGHT_MAX || w > BANK_WEIGHT_MAX {
            return false;
        }
        i += 1;
    }
    true
}

/// The default scale label recorded at construction.
fn window_scale_default() -> (s: String)
    ensures
        s@ == "linear"@,
{
    let s = "linear".to_owned();
    s
}

} // verus!
