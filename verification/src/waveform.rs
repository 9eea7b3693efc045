//! Waveform downsampling: per-channel sample storage and ranged
//! maximum-absolute-value peak queries for zoom and scroll rendering.

use vstd::prelude::*;
use crate::dft::{all_within, SAMPLE_MAX};
use crate::fixed::{abs_i64, iabs, lemma_div_bound};

verus! {

/// Largest absolute sample value over `[lo, hi)`, with a zero floor.
pub open spec fn abs_max_in(s: Seq<i64>, lo: int, hi: int) -> int
    decreases hi - lo,
{
    if hi <= lo {
        0
    } else {
        let m = abs_max_in(s, lo, hi - 1);
        if iabs(s[hi - 1] as int) > m {
            iabs(s[hi - 1] as int)
        } else {
            m
        }
    }
}

/// First sample of slice `i` when `len` samples are split into `n`
/// proportional slices.
pub open spec fn slice_start(i: int, len: int, n: int) -> int {
    i * len / n
}

/// One past the last sample of slice `i`: the ceiling of the
/// proportional boundary, capped at `len`.
pub open spec fn slice_end(i: int, len: int, n: int) -> int {
    let e = ((i + 1) * len + n - 1) / n;
    if e < len {
        e
    } else {
        len
    }
}

/// The absolute maximum over an all-zero range is zero, and a range
/// whose only nonzero sample sits at `p` reports exactly `|s[p]|`
/// when it covers `p`.
pub proof fn lemma_abs_max_single(s: Seq<i64>, p: int, lo: int, hi: int)
    requires
        0 <= lo,
        hi <= s.len(),
        forall|j: int| 0 <= j < s.len() && j != p ==> s[j] == 0,
    ensures
        abs_max_in(s, lo, hi) == if lo <= p < hi {
            iabs(s[p] as int)
        } else {
            0
        },
    decreases hi - lo,
{
    if hi > lo {
        lemma_abs_max_single(s, p, lo, hi - 1);
    }
}

/// The absolute maximum of any subrange of an all-zero buffer is zero.
pub proof fn lemma_abs_max_zero(s: Seq<i64>, lo: int, hi: int)
    requires
        0 <= lo,
        hi <= s.len(),
        forall|j: int| 0 <= j < s.len() ==> s[j] == 0,
    ensures
        abs_max_in(s, lo, hi) == 0,
    decreases hi - lo,
{
    if hi > lo {
        lemma_abs_max_zero(s, lo, hi - 1);
    }
}

/// Downsampling an all-zero buffer gives a zero at every point: every
/// slice's peak is zero.
pub proof fn lemma_wave_peaks_all_zero(s: Seq<i64>, n: int, i: int)
    requires
        s.len() > 0,
        0 < n,
        0 <= i < n,
        forall|j: int| 0 <= j < s.len() ==> s[j] == 0,
    ensures
        abs_max_in(
            s,
            slice_start(i, s.len() as int, n),
            slice_end(i, s.len() as int, n),
        ) == 0,
{
    let len = s.len() as int;
    vstd::arithmetic::div_mod::lemma_div_pos_is_pos(i * len, n);
    assert(i * len >= 0) by (nonlinear_arith)
        requires
            i >= 0,
            len >= 0,
    ;
    lemma_abs_max_zero(s, slice_start(i, len, n), slice_end(i, len, n));
}

/// Downsampling a buffer whose only nonzero sample sits at `p` gives
/// `|s[p]|` at every point whose slice covers `p`, and zero at every
/// other point.
pub proof fn lemma_wave_peaks_single_sample(s: Seq<i64>, p: int, n: int, i: int)
    requires
        s.len() > 0,
        0 < n,
        0 <= i < n,
        0 <= p < s.len(),
        forall|j: int| 0 <= j < s.len() && j != p ==> s[j] == 0,
    ensures
        ({
            let lo = slice_start(i, s.len() as int, n);
            let hi = slice_end(i, s.len() as int, n);
            abs_max_in(s, lo, hi) == if lo <= p < hi {
                iabs(s[p] as int)
            } else {
                0
            }
        }),
{
    let len = s.len() as int;
    vstd::arithmetic::div_mod::lemma_div_pos_is_pos(i * len, n);
    assert(i * len >= 0) by (nonlinear_arith)
        requires
            i >= 0,
            len >= 0,
    ;
    lemma_abs_max_single(s, p, slice_start(i, len, n), slice_end(i, len, n));
}

/// Scan the largest absolute value over `[lo, hi)` of `data`.
fn scan_abs_max(data: &Vec<i64>, lo: usize, hi: usize) -> (m: i64)
    requires
        lo <= hi <= data@.len(),
        all_within(data@, SAMPLE_MAX as int),
    ensures
        m == abs_max_in(data@, lo as int, hi as int),
        0 <= m <= SAMPLE_MAX,
{
    let mut m: i64 = 0;
    let mut j: usize = lo;
    while j < hi
        invariant
            lo <= j <= hi <= data@.len(),
            all_within(data@, SAMPLE_MAX as int),
            m == abs_max_in(data@, lo as int, j as int),
            0 <= m <= SAMPLE_MAX,
        decreases hi - j,
    {
        let a = abs_i64(data[j]);
        if a > m {
            m = a;
        }
        j += 1;
    }
    m
}

/// Downsample a buffer to `num_peaks` points: each point is the
/// largest absolute sample in its proportional slice of the whole
/// buffer. Empty input or zero points yield an empty result.
pub fn compute_wave_peaks(channel_data: &Vec<i64>, num_peaks: usize) -> (peaks: Vec<i64>)
    requires
        all_within(channel_data@, SAMPLE_MAX as int),
        (num_peaks as int) * (channel_data@.len() as int) + num_peaks <= usize::MAX,
    ensures
        num_peaks == 0 || channel_data@.len() == 0 ==> peaks@.len() == 0,
        num_peaks > 0 && channel_data@.len() > 0 ==> {
            &&& peaks@.len() == num_peaks
            &&& forall|i: int|
                0 <= i < num_peaks ==> peaks@[i] == abs_max_in(
                    channel_data@,
                    slice_start(i, channel_data@.len() as int, num_peaks as int),
                    slice_end(i, channel_data@.len() as int, num_peaks as int),
                )
        },
{
    let data_len = channel_data.len();
    if num_peaks == 0 || data_len == 0 {
        return Vec::new();
    }
    let mut peaks: Vec<i64> = Vec::new();
    let mut i: usize = 0;
    while i < num_peaks
        invariant
            data_len == channel_data@.len(),
            data_len > 0,
            num_peaks > 0,
            all_within(channel_data@, SAMPLE_MAX as int),
            (num_peaks as int) * (data_len as int) + num_peaks <= usize::MAX,
            i <= num_peaks,
            peaks@.len() == i,
            forall|ii: int|
                0 <= ii < i ==> peaks@[ii] == abs_max_in(
                    channel_data@,
                    slice_start(ii, data_len as int, num_peaks as int),
                    slice_end(ii, data_len as int, num_peaks as int),
                ),
        decreases num_peaks - i,
    {
        proof {
            assert((i as int) * (data_len as int) <= (i as int + 1) * (data_len as int)
                && (i as int + 1) * (data_len as int) <= (num_peaks as int) * (
            data_len as int) && 0 <= (i as int) * (data_len as int)) by (nonlinear_arith)
                requires
                    0 <= i < num_peaks,
                    data_len >= 0,
            ;
            assert((i as int) * (data_len as int) <= (num_peaks as int) * ((i as int) * (
            data_len as int))) by (nonlinear_arith)
                requires
                    num_peaks >= 1,
                    (i as int) * (data_len as int) >= 0,
            ;
            lemma_div_bound(
                (i as int) * (data_len as int),
                num_peaks as int,
                (i as int) * (data_len as int),
            );
            let en = (i as int + 1) * (data_len as int) + num_peaks - 1;
            assert(en <= (num_peaks as int) * en) by (nonlinear_arith)
                requires
                    num_peaks >= 1,
                    en >= 0,
            ;
            lemma_div_bound(en, num_peaks as int, en);
        }
        let start: usize = (i * data_len) / num_peaks;
        let e_raw: usize = ((i + 1) * data_len + (num_peaks - 1)) / num_peaks;
        let end: usize = if e_raw < data_len {
            e_raw
        } else {
            data_len
        };
        proof {
            assert((i as int) * (data_len as int) <= (num_peaks as int) * (data_len as int))
                by (nonlinear_arith)
                requires
                    i <= num_peaks,
                    data_len >= 0,
            ;
            lemma_div_bound(
                (i as int) * (data_len as int),
                num_peaks as int,
                data_len as int,
            );
            assert(slice_start(i as int, data_len as int, num_peaks as int) <= slice_end(
                i as int,
                data_len as int,
                num_peaks as int,
            )) by {
                vstd::arithmetic::div_mod::lemma_div_is_ordered(
                    (i as int) * (data_len as int),
                    (i as int + 1) * (data_len as int) + num_peaks - 1,
                    num_peaks as int,
                );
            }
        }
        let m = if start < end {
            scan_abs_max(channel_data, start, end)
        } else {
            0
        };
        proof {
            if start >= end {
                assert(abs_max_in(
                    channel_data@,
                    slice_start(i as int, data_len as int, num_peaks as int),
                    slice_end(i as int, data_len as int, num_peaks as int),
                ) == 0);
            }
        }
        peaks.push(m);
        i += 1;
    }
    peaks
}

/// The largest absolute sample value of a whole buffer; zero when the
/// buffer is empty.
pub fn find_global_max(channel_data: &Vec<i64>) -> (m: i64)
    requires
        all_within(channel_data@, SAMPLE_MAX as int),
    ensures
        m == abs_max_in(channel_data@, 0, channel_data@.len() as int),
{
    scan_abs_max(channel_data, 0, channel_data.len())
}

/// Per-channel raw sample storage answering ranged min/max-style peak
/// queries, independent of the spectrogram pipeline.
pub struct WaveformEngine {
    pub channels: Vec<Vec<i64>>,
}

impl WaveformEngine {
    /// Every stored sample lies within one Q16 unit of zero.
    pub open spec fn wf(&self) -> bool {
        forall|c: int|
            0 <= c < self.channels@.len() ==> all_within(
                #[trigger] self.channels@[c]@,
                SAMPLE_MAX as int,
            )
    }

    /// The stored channels.
    pub open spec fn spec_channels(&self) -> Seq<Seq<i64>> {
        self.channels@.map_values(|v: Vec<i64>| v@)
    }

    /// An engine with no channels.
    pub fn new() -> (engine: WaveformEngine)
        ensures
            engine.wf(),
            engine.channels@.len() == 0,
    {
        WaveformEngine { channels: Vec::new() }
    }

    /// Replace the storage with `num_channels` empty channels.
    pub fn resize(&mut self, num_channels: usize)
        ensures
            final(self).wf(),
            final(self).channels@.len() == num_channels,
            forall|c: int|
                0 <= c < num_channels ==> #[trigger] final(self).channels@[c]@.len() == 0,
    {
        self.channels = Vec::new();
        let mut c: usize = 0;
        while c < num_channels
            invariant
                c <= num_channels,
                self.channels@.len() == c,
                forall|cc: int| 0 <= cc < c ==> #[trigger] self.channels@[cc]@.len() == 0,
            decreases num_channels - c,
        {
            self.channels.push(Vec::new());
            c += 1;
        }
    }

    /// Replace one channel's samples wholesale; an out-of-range index
    /// is ignored.
    pub fn load_channel(&mut self, channel_idx: usize, data: &Vec<i64>)
        requires
            old(self).wf(),
            all_within(data@, SAMPLE_MAX as int),
        ensures
            final(self).wf(),
            final(self).channels@.len() == old(self).channels@.len(),
            channel_idx >= old(self).channels@.len() ==> *final(self) == *old(self),
            channel_idx < old(self).channels@.len() ==> {
                &&& final(self).channels@[channel_idx as int]@ == data@
                &&& forall|c: int|
                    0 <= c < old(self).channels@.len() && c != channel_idx
                        ==> #[trigger] final(self).channels@[c]@ == old(self).channels@[c]@
            },
    {
        if channel_idx >= self.channels.len() {
            return ;
        }
        self.channels[channel_idx] = data.clone();
    }

    /// Peak value of slice `i` when querying `[start, start + range)`
    /// of channel data `s` at `width` output points.
    pub open spec fn range_peak(s: Seq<i64>, start: int, range: int, width: int, i: int) -> int {
        let len = s.len() as int;
        let ps = i * range / width;
        let pe = ((i + 1) * range + width - 1) / width;
        let cs = if start + ps < len {
            start + ps
        } else {
            len
        };
        let ce = if start + pe < len {
            start + pe
        } else {
            len
        };
        if cs < ce {
            abs_max_in(s, cs, ce)
        } else {
            0
        }
    }

    /// Ranged peaks of one channel: `target_width` values, each the
    /// largest absolute sample in its proportional slice of
    /// `[start_sample, min(end_sample, len))`. Out-of-range channels,
    /// a zero width or an empty range yield all-zero results.
    pub fn get_peaks_in_range(
        &self,
        channel_idx: usize,
        start_sample: usize,
        end_sample: usize,
        target_width: usize,
    ) -> (peaks: Vec<i64>)
        requires
            self.wf(),
            channel_idx < self.channels@.len() ==> (target_width as int) * (
            self.channels@[channel_idx as int]@.len() as int) + target_width + start_sample
                <= usize::MAX,
        ensures
            channel_idx >= self.channels@.len() || target_width == 0 ==> {
                &&& peaks@.len() == (if target_width == 0 {
                    1int
                } else {
                    target_width as int
                })
                &&& forall|i: int| 0 <= i < peaks@.len() ==> peaks@[i] == 0
            },
            channel_idx < self.channels@.len() && target_width > 0 ==> {
                let s = self.channels@[channel_idx as int]@;
                let end = if end_sample <= s.len() {
                    end_sample as int
                } else {
                    s.len() as int
                };
                let range = if end > start_sample {
                    end - start_sample
                } else {
                    0
                };
                &&& peaks@.len() == target_width
                &&& range == 0 ==> forall|i: int| 0 <= i < peaks@.len() ==> peaks@[i] == 0
                &&& range > 0 ==> forall|i: int|
                    0 <= i < target_width ==> peaks@[i] == Self::range_peak(
                        s,
                        start_sample as int,
                        range,
                        target_width as int,
                        i,
                    )
            },
    {
        if channel_idx >= self.channels.len() || target_width == 0 {
            let n: usize = if target_width == 0 {
                1
            } else {
                target_width
            };
            let mut zeros: Vec<i64> = Vec::new();
            let mut i: usize = 0;
            while i < n
                invariant
                    i <= n,
                    zeros@.len() == i,
                    forall|j: int| 0 <= j < i ==> zeros@[j] == 0,
                decreases n - i,
            {
                zeros.push(0);
                i += 1;
            }
            return zeros;
        }
        let data_len = self.channels[channel_idx].len();
        let end: usize = if end_sample <= data_len {
            end_sample
        } else {
            data_len
        };
        let range: usize = if end > start_sample {
            end - start_sample
        } else {
            0
        };
        let mut peaks: Vec<i64> = Vec::new();
        if range == 0 {
            let mut i: usize = 0;
            while i < target_width
                invariant
                    i <= target_width,
                    peaks@.len() == i,
                    forall|j: int| 0 <= j < i ==> peaks@[j] == 0,
                decreases target_width - i,
            {
                peaks.push(0);
                i += 1;
            }
            return peaks;
        }
        let mut i: usize = 0;
        while i < target_width
            invariant
                self.wf(),
                channel_idx < self.channels@.len(),
                data_len == self.channels@[channel_idx as int]@.len(),
                range <= data_len,
                range >= 1,
                start_sample + range <= data_len,
                target_width >= 1,
                (target_width as int) * (data_len as int) + target_width + start_sample
                    <= usize::MAX,
                i <= target_width,
                peaks@.len() == i,
                forall|ii: int|
                    0 <= ii < i ==> peaks@[ii] == Self::range_peak(
                        self.channels@[channel_idx as int]@,
                        start_sample as int,
                        range as int,
                        target_width as int,
                        ii,
                    ),
            decreases target_width - i,
        {
            proof {
                assert(0 <= (i as int) * (range as int) && (i as int) * (range as int) <= (
                i as int + 1) * (range as int) && (i as int) * (range as int) <= (
                target_width as int) * (data_len as int) && (i as int + 1) * (range as int)
                    <= (target_width as int) * (range as int) && (target_width as int) * (
                range as int) <= (target_width as int) * (data_len as int))
                    by (nonlinear_arith)
                    requires
                        0 <= i < target_width,
                        1 <= range <= data_len,
                ;
                assert((i as int) * (range as int) <= (target_width as int) * ((i as int) * (
                range as int))) by (nonlinear_arith)
                    requires
                        target_width >= 1,
                        (i as int) * (range as int) >= 0,
                ;
                lemma_div_bound(
                    (i as int) * (range as int),
                    target_width as int,
                    (i as int) * (range as int),
                );
                let enr = (i as int + 1) * (range as int) + target_width - 1;
                assert(enr <= (target_width as int) * enr) by (nonlinear_arith)
                    requires
                        target_width >= 1,
                        enr >= 0,
                ;
                lemma_div_bound(enr, target_width as int, enr);
            }
            let pixel_start: usize = (i * range) / target_width;
            let pixel_end: usize = ((i + 1) * range + (target_width - 1)) / target_width;
            let chunk_start: usize = if start_sample + pixel_start < data_len {
                start_sample + pixel_start
            } else {
                data_len
            };
            let chunk_end: usize = if start_sample + pixel_end < data_len {
                start_sample + pixel_end
            } else {
                data_len
            };
            let m = if chunk_start < chunk_end {
                proof {
                    vstd::arithmetic::div_mod::lemma_div_is_ordered(
                        (i as int) * (range as int),
                        (i as int + 1) * (range as int) + target_width - 1,
                        target_width as int,
                    );
                }
                scan_abs_max(&self.channels[channel_idx], chunk_start, chunk_end)
            } else {
                0
            };
            peaks.push(m);
            i += 1;
        }
        peaks
    }

    /// Sample count of one channel; zero for an out-of-range index.
    pub fn get_channel_length(&self, channel_idx: usize) -> (n: usize)
        ensures
            channel_idx < self.channels@.len() ==> n == self.channels@[channel_idx as int]@.len(),
            channel_idx >= self.channels@.len() ==> n == 0,
    {
        if channel_idx < self.channels.len() {
            self.channels[channel_idx].len()
        } else {
            0
        }
    }

    /// Number of channels.
    pub fn get_num_channels(&self) -> (n: usize)
        ensures
            n == self.channels@.len(),
    {
        self.channels.len()
    }

    /// Drop all channels.
    pub fn clear(&mut self)
        ensures
            final(self).wf(),
            final(self).channels@.len() == 0,
    {
        self.channels.clear();
    }
}

/// A one-point ranged peak query reports the single largest absolute
/// value of the whole requested range.
pub proof fn lemma_range_peaks_single(s: Seq<i64>, start: int, range: int)
    requires
        0 <= start,
        1 <= range,
        start + range <= s.len(),
    ensures
        WaveformEngine::range_peak(s, start, range, 1, 0) == abs_max_in(
            s,
            start,
            start + range,
        ),
{
    let len = s.len() as int;
    assert(0int * range / 1 == 0) by {
        vstd::arithmetic::div_mod::lemma_div_of0(1);
    }
    assert((0int + 1) * range + 1 - 1 == range);
    assert(range / 1 == range) by {
        vstd::arithmetic::div_mod::lemma_div_by_self(1);
        vstd::arithmetic::div_mod::lemma_div_multiples_vanish(range, 1);
    }
}

} // verus!
