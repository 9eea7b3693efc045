//! Stateless power-spectrum estimation (averaging periodogram with
//! mean removal per frame) and sub-bin peak-frequency refinement by
//! parabolic interpolation.

use vstd::prelude::*;
use crate::dft::{all_within, bin_im, bin_re, dft_bin, windowed_frame, FRAME_MAX, SAMPLE_MAX};
use crate::fixed::{div_trunc, iabs, lemma_div_bound, lemma_tdiv_bound, sqrt_floor, tdiv, usqrt};
use crate::quantize::{log2_q16, log2_q16_exec, DB10_PER_OCTAVE};
use crate::window::{create_window, kind_of_name, window_value, WindowKind};
use vstd::arithmetic::div_mod::{lemma_div_is_ordered, lemma_fundamental_div_mod};

verus! {

/// Hop size for an overlap percentage: a quarter of the transform for
/// absent or out-of-range requests (75% overlap), else
/// `size * (100 - percent) / 100`, at least one sample.
pub open spec fn spec_hop(size: int, overlap_percent: Option<u32>) -> int {
    let h = match overlap_percent {
        Option::None => size / 4,
        Option::Some(p) => if p == 0 || p >= 100 {
            size / 4
        } else {
            size * (100 - p) / 100
        },
    };
    if h >= 1 {
        h
    } else {
        1
    }
}

/// Sum of the first `n` elements of a frame.
pub open spec fn frame_sum(f: Seq<int>, n: int) -> int
    decreases n,
{
    if n <= 0 {
        0
    } else {
        frame_sum(f, n - 1) + f[n - 1]
    }
}

/// The windowed, mean-corrected frame of `samples` at `start` under
/// the window family `kind` with shape `alpha`.
pub open spec fn power_frame(
    samples: Seq<i64>,
    kind: WindowKind,
    alpha: int,
    size: int,
    start: int,
) -> Seq<int> {
    let w = Seq::new(size as nat, |j: int| tdiv(samples[start + j] * window_value(kind, alpha, size, j), 65536));
    let mean = tdiv(frame_sum(w, size), size);
    Seq::new(size as nat, |j: int| w[j] - mean)
}

/// Q16 power of bin `k` of the frame at `start`: `|X_k|^2`.
pub open spec fn power_bin(
    samples: Seq<i64>,
    kind: WindowKind,
    alpha: int,
    size: int,
    start: int,
    k: int,
) -> int {
    let f = power_frame(samples, kind, alpha, size, start);
    let re = bin_re(f, k);
    let im = bin_im(f, k);
    (re * re + im * im) / 65536
}

/// Accumulated Q16 power of bin `k` over the first `n` frames.
pub open spec fn power_total(
    samples: Seq<i64>,
    kind: WindowKind,
    alpha: int,
    size: int,
    hop: int,
    k: int,
    n: int,
) -> int
    decreases n,
{
    if n <= 0 {
        0
    } else {
        power_total(samples, kind, alpha, size, hop, k, n - 1) + power_bin(
            samples,
            kind,
            alpha,
            size,
            (n - 1) * hop,
            k,
        )
    }
}

/// Averaged power turned into Q16 dB on the power scale:
/// `10 log10(max(rms^2 / size, one quantum))`.
pub open spec fn power_db(total: int, frames: int, size: int) -> int {
    let avg = total / frames;
    let rms = sqrt_floor(avg * 65536);
    let psd = rms * rms / (65536 * size);
    let p = if psd >= 1 {
        psd
    } else {
        1
    };
    tdiv(log2_q16(p) * 197283, 65536)
}

/// Averaged dB power spectrum of `audio_data`: frames of `fft_size`
/// samples advance by the hop the overlap request gives; each frame is
/// windowed by the named family (unknown names mean Hann), has its
/// mean removed, and contributes its squared bin magnitudes; the
/// per-bin averages come back as Q16 dB over `fft_size / 2 + 1` bins.
/// Empty input, or input shorter than one frame, yields an empty
/// result.
pub fn compute_power_spectrum(
    audio_data: &Vec<i64>,
    sample_rate: u32,
    fft_size: usize,
    window_type: &str,
    overlap_percent: Option<u32>,
) -> (spectrum: Vec<i64>)
    requires
        2 <= fft_size <= 32768,
        sample_rate >= 1,
        all_within(audio_data@, SAMPLE_MAX as int),
    ensures
        ({
            let size = fft_size as int;
            let kind = kind_of_name(window_type@);
            let hop = spec_hop(size, overlap_percent);
            let len = audio_data@.len() as int;
            let frames = if len >= size {
                (len - size) / hop + 1
            } else {
                0
            };
            &&& (audio_data@.len() == 0 || frames == 0) ==> spectrum@.len() == 0
            &&& (audio_data@.len() > 0 && frames > 0) ==> {
                &&& spectrum@.len() == size / 2 + 1
                &&& forall|k: int|
                    0 <= k < spectrum@.len() ==> spectrum@[k] == power_db(
                        power_total(audio_data@, kind, 10486, size, hop, k, frames),
                        frames,
                        size,
                    )
            }
        }),
{
    if audio_data.len() == 0 {
        return Vec::new();
    }
    let size = fft_size;
    let hop: usize = {
        let h: usize = match overlap_percent {
            Option::None => size / 4,
            Option::Some(p) => if p == 0 || p >= 100 {
                size / 4
            } else {
                proof {
                    assert((size as int) * (100 - p as int) <= 100 * (size as int)
                        && (size as int) * (100 - p as int) >= 0) by (nonlinear_arith)
                        requires
                            1 <= p < 100,
                            size >= 0,
                    ;
                    lemma_div_bound((size as int) * (100 - p as int), 100, size as int);
                }
                (size * (100 - p as usize)) / 100
            },
        };
        if h >= 1 {
            h
        } else {
            1
        }
    };
    let kind = crate::window::window_kind_from_name(window_type);
    let window = create_window(kind, size, 10486);
    let len = audio_data.len();
    let num_frames: usize = if len >= size {
        (len - size) / hop + 1
    } else {
        0
    };
    if num_frames == 0 {
        return Vec::new();
    }
    let num_bins = size / 2 + 1;
    let ghost hopg = hop as int;
    proof {
        lemma_fundamental_div_mod(len as int - size as int, hopg);
        assert((num_frames - 1) * hopg == hopg * ((len as int - size as int) / hopg))
            by (nonlinear_arith)
            requires
                num_frames - 1 == (len as int - size as int) / hopg,
        ;
    }
    let mut spectrum: Vec<u128> = Vec::new();
    let mut k0: usize = 0;
    while k0 < num_bins
        invariant
            k0 <= num_bins,
            spectrum@.len() == k0,
            forall|k: int| 0 <= k < k0 ==> spectrum@[k] == 0,
        decreases num_bins - k0,
    {
        spectrum.push(0u128);
        k0 += 1;
    }
    proof {
        assert(forall|k: int|
            0 <= k < num_bins ==> spectrum@[k] == power_total(
                audio_data@,
                kind_of_name(window_type@),
                10486,
                size as int,
                hopg,
                k,
                0,
            ));
    }
    let mut fr: usize = 0;
    while fr < num_frames
        invariant
            2 <= size <= 32768,
            size == window@.len(),
            kind == kind_of_name(window_type@),
            forall|j: int|
                0 <= j < size ==> window@[j] == window_value(kind, 10486, size as int, j),
            all_within(window@, 131072),
            all_within(audio_data@, SAMPLE_MAX as int),
            len == audio_data@.len(),
            hopg == hop,
            hop >= 1,
            num_bins == size / 2 + 1,
            num_frames >= 1,
            (num_frames - 1) * hopg + size <= len,
            fr <= num_frames,
            spectrum@.len() == num_bins,
            forall|k: int|
                0 <= k < num_bins ==> spectrum@[k] == power_total(
                    audio_data@,
                    kind,
                    10486,
                    size as int,
                    hopg,
                    k,
                    fr as int,
                ),
            forall|k: int|
                0 <= k < num_bins ==> #[trigger] spectrum@[k] <= (fr as int)
                    * 0x8_0000_0000_0000int,
        decreases num_frames - fr,
    {
        proof {
            assert((fr as int) * hopg <= (num_frames - 1) * hopg && 0 <= (fr as int) * hopg)
                by (nonlinear_arith)
                requires
                    0 <= fr < num_frames,
                    hopg >= 1,
            ;
        }
        let offset: usize = fr * hop;
        let wf = windowed_frame(audio_data, &window, offset);
        let mut sum: i64 = 0;
        let mut j: usize = 0;
        while j < size
            invariant
                size == wf@.len(),
                all_within(wf@, 131072),
                j <= size,
                size <= 32768,
                sum == frame_sum(wf@.map_values(|v: i64| v as int), j as int),
                -(j as int) * 131072 <= sum as int <= (j as int) * 131072,
            decreases size - j,
        {
            proof {
                assert(wf@.map_values(|v: i64| v as int)[j as int] == wf@[j as int]);
            }
            sum = sum + wf[j];
            j += 1;
        }
        proof {
            lemma_tdiv_bound(sum as int, size as int, 131072);
            assert((size as int) * 131072 >= iabs(sum as int)) by (nonlinear_arith)
                requires
                    -(size as int) * 131072 <= sum as int <= (size as int) * 131072,
            ;
        }
        let mean = div_trunc(sum, size as i64);
        let mut f: Vec<i64> = Vec::new();
        let mut j2: usize = 0;
        while j2 < size
            invariant
                size == wf@.len(),
                all_within(wf@, 131072),
                -131072 <= mean <= 131072,
                j2 <= size,
                f@.len() == j2,
                forall|jj: int|
                    0 <= jj < j2 ==> f@[jj] == wf@[jj] - mean,
                all_within(f@, FRAME_MAX as int),
            decreases size - j2,
        {
            f.push(wf[j2] - mean);
            j2 += 1;
        }
        let ghost pf = power_frame(
            audio_data@,
            kind,
            10486,
            size as int,
            (fr as int) * hopg,
        );
        proof {
            assert(f@.map_values(|v: i64| v as int) =~= pf) by {
                assert forall|jj: int| 0 <= jj < size implies f@.map_values(
                    |v: i64| v as int,
                )[jj] == pf[jj] by {
                    assert(wf@.map_values(|v: i64| v as int) =~= Seq::new(
                        size as nat,
                        |j: int| tdiv(
                            audio_data@[(fr as int) * hopg + j] * window_value(
                                kind,
                                10486,
                                size as int,
                                j,
                            ),
                            65536,
                        ),
                    ));
                }
            }
        }
        proof {
            assert(num_frames as int * 0x8_0000_0000_0000int
                <= 0x8_0000_0000_0000_0000_0000_0000_0000int) by (nonlinear_arith)
                requires
                    num_frames as int <= 0xffff_ffff_ffff_ffffint,
            ;
        }
        let ghost old_spectrum = spectrum@;
        let mut k: usize = 0;
        while k < num_bins
            invariant
                2 <= size <= 32768,
                num_bins == size / 2 + 1,
                size == f@.len(),
                all_within(f@, FRAME_MAX as int),
                f@.map_values(|v: i64| v as int) == pf,
                pf == power_frame(audio_data@, kind, 10486, size as int, (fr as int) * hopg),
                k <= num_bins,
                spectrum@.len() == num_bins,
                forall|kk: int| k <= kk < num_bins ==> spectrum@[kk] == old_spectrum[kk],
                forall|kk: int|
                    0 <= kk < k ==> spectrum@[kk] == old_spectrum[kk] + power_bin(
                        audio_data@,
                        kind,
                        10486,
                        size as int,
                        (fr as int) * hopg,
                        kk,
                    ),
                forall|kk: int|
                    0 <= kk < num_bins ==> old_spectrum[kk] == power_total(
                        audio_data@,
                        kind,
                        10486,
                        size as int,
                        hopg,
                        kk,
                        fr as int,
                    ),
                forall|kk: int|
                    0 <= kk < num_bins ==> #[trigger] old_spectrum[kk] <= (fr as int)
                        * 0x8_0000_0000_0000int,
                forall|kk: int|
                    0 <= kk < k ==> #[trigger] spectrum@[kk] <= (fr as int + 1)
                        * 0x8_0000_0000_0000int,
                fr < num_frames,
                num_frames as int * 0x8_0000_0000_0000int
                    <= 0x8_0000_0000_0000_0000_0000_0000_0000int,
            decreases num_bins - k,
        {
            let (re, im) = dft_bin(&f, k);
            proof {
                assert((re as int) * (re as int) + (im as int) * (im as int)
                    <= 0x8_0000_0000_0000_0000int && 0 <= (re as int) * (re as int)
                    && 0 <= (im as int) * (im as int)) by (nonlinear_arith)
                    requires
                        -8589934592 <= re <= 8589934592,
                        -8589934592 <= im <= 8589934592,
                ;
            }
            let sq: i128 = (re as i128) * (re as i128) + (im as i128) * (im as i128);
            let pw: u128 = (sq as u128) / 65536u128;
            let prev = spectrum[k];
            proof {
                assert(pw <= 0x8_0000_0000_0000u128);
                assert(old_spectrum[k as int] <= (fr as int) * 0x8_0000_0000_0000int);
                assert(prev <= (fr as int) * 0x8_0000_0000_0000int);
                assert((fr as int) * 0x8_0000_0000_0000int + 0x8_0000_0000_0000int == (
                fr as int + 1) * 0x8_0000_0000_0000int) by (nonlinear_arith);
                assert((fr as int + 1) * 0x8_0000_0000_0000int <= (num_frames as int)
                    * 0x8_0000_0000_0000int) by (nonlinear_arith)
                    requires
                        fr < num_frames,
                ;
            }
            spectrum[k] = prev + pw;
            k += 1;
        }
        proof {
            assert(forall|kk: int|
                0 <= kk < num_bins ==> spectrum@[kk] == power_total(
                    audio_data@,
                    kind,
                    10486,
                    size as int,
                    hopg,
                    kk,
                    fr as int + 1,
                ));
        }
        fr += 1;
    }
    let mut out: Vec<i64> = Vec::new();
    let mut k: usize = 0;
    while k < num_bins
        invariant
            2 <= size <= 32768,
            num_bins == size / 2 + 1,
            num_frames >= 1,
            spectrum@.len() == num_bins,
            forall|kk: int|
                0 <= kk < num_bins ==> spectrum@[kk] == power_total(
                    audio_data@,
                    kind,
                    10486,
                    size as int,
                    hopg,
                    kk,
                    num_frames as int,
                ),
            forall|kk: int|
                0 <= kk < num_bins ==> #[trigger] spectrum@[kk] <= (num_frames as int)
                    * 0x8_0000_0000_0000int,
            kind == kind_of_name(window_type@),
            hopg == hop,
            k <= num_bins,
            out@.len() == k,
            forall|kk: int|
                0 <= kk < k ==> out@[kk] == power_db(
                    power_total(
                        audio_data@,
                        kind,
                        10486,
                        size as int,
                        hopg,
                        kk,
                        num_frames as int,
                    ),
                    num_frames as int,
                    size as int,
                ),
        decreases num_bins - k,
    {
        let total = spectrum[k];
        proof {
            assert(total as int <= (num_frames as int) * 0x8_0000_0000_0000int);
            lemma_div_bound(total as int, num_frames as int, 0x8_0000_0000_0000int);
        }
        let avg: u128 = total / (num_frames as u128);
        let rms: u64 = usqrt(avg * 65536);
        proof {
            assert(rms as int <= 0x4_0000_0000int) by (nonlinear_arith)
                requires
                    (rms as int) * (rms as int) <= avg * 65536,
                    avg * 65536 <= 0x8_0000_0000_0000int * 65536,
            ;
            assert((rms as int) * (rms as int) <= 0x10_0000_0000_0000_0000int)
                by (nonlinear_arith)
                requires
                    0 <= rms <= 0x4_0000_0000int,
                ;
            assert((rms as int) * (rms as int) <= (65536 * (size as int))
                * 0x8_0000_0000_0000int) by (nonlinear_arith)
                requires
                    (rms as int) * (rms as int) <= 0x10_0000_0000_0000_0000int,
                    size >= 2,
            ;
            lemma_div_bound(
                (rms as int) * (rms as int),
                65536 * (size as int),
                0x8_0000_0000_0000int,
            );
        }
        let psd: u128 = ((rms as u128) * (rms as u128)) / (65536u128 * (size as u128));
        let p: u64 = if psd >= 1 {
            psd as u64
        } else {
            1
        };
        let l = log2_q16_exec(p);
        let db = div_trunc(l * DB10_PER_OCTAVE, 65536);
        out.push(db);
        k += 1;
    }
    out
}

/// First index of the maximum dB value over `[lo, hi]` (inclusive).
pub open spec fn db_argmax(s: Seq<i64>, lo: int, hi: int) -> int
    decreases hi - lo,
{
    if hi <= lo {
        lo
    } else {
        let p = db_argmax(s, lo, hi - 1);
        if s[hi] > s[p] {
            hi
        } else {
            p
        }
    }
}

/// The argmax lies in the range and dominates every element of it.
pub proof fn lemma_db_argmax_props(s: Seq<i64>, lo: int, hi: int)
    requires
        0 <= lo <= hi < s.len(),
    ensures
        lo <= db_argmax(s, lo, hi) <= hi,
        forall|j: int| lo <= j <= hi ==> #[trigger] s[j] <= s[db_argmax(s, lo, hi)],
    decreases hi - lo,
{
    if hi > lo {
        lemma_db_argmax_props(s, lo, hi - 1);
    }
}

/// The refined peak frequency (Q16 Hz) of a dB spectrum between
/// `flow` and `fhigh` (Q16 Hz): the maximum bin in range, shifted by
/// parabolic interpolation over its two neighbors when both lie in
/// range and the curvature is nonzero. Zero when the spectrum is
/// empty or the range holds no two distinct bins.
pub open spec fn peak_freq_spec(
    s: Seq<i64>,
    sr: int,
    size: int,
    flow: int,
    fhigh: int,
) -> int {
    let fr = sr * 65536 / size;
    let min_bin = flow / fr;
    let mb = fhigh / fr;
    let max_bin = if mb <= s.len() - 1 {
        mb
    } else {
        s.len() - 1
    };
    if s.len() == 0 || min_bin >= max_bin {
        0
    } else {
        let p = db_argmax(s, min_bin, max_bin);
        if p > min_bin && p < max_bin {
            let ssum = 2 * s[p] - s[p - 1] - s[p + 1];
            if ssum > 0 {
                let corr = tdiv((s[p + 1] - s[p - 1]) * 65536, 2 * ssum);
                p * fr + tdiv(corr * fr, 65536)
            } else {
                p * fr
            }
        } else {
            p * fr
        }
    }
}

/// Find the peak frequency of a dB spectrum by scanning the bins the
/// frequency bounds admit and refining sub-bin position by parabolic
/// interpolation.
pub fn find_peak_frequency_from_spectrum(
    spectrum: &Vec<i64>,
    sample_rate: u32,
    fft_size: usize,
    flow_hz: i64,
    fhigh_hz: i64,
) -> (freq: i64)
    requires
        2 <= fft_size <= 32768,
        1 <= sample_rate,
        0 <= flow_hz,
        0 <= fhigh_hz <= 0x4_0000_0000_0000i64,
        all_within(spectrum@, 0x2000_0000_0000i64 as int),
    ensures
        freq == peak_freq_spec(
            spectrum@,
            sample_rate as int,
            fft_size as int,
            flow_hz as int,
            fhigh_hz as int,
        ),
{
    if spectrum.len() == 0 {
        return 0;
    }
    proof {
        assert((sample_rate as int) * 65536 <= (fft_size as int) * ((sample_rate as int)
            * 65536)) by (nonlinear_arith)
            requires
                fft_size >= 1,
                sample_rate >= 1,
        ;
        lemma_div_bound((sample_rate as int) * 65536, fft_size as int, (sample_rate as int)
            * 65536);
    }
    let fr: i64 = (((sample_rate as u64) * 65536) / (fft_size as u64)) as i64;
    proof {
        assert(fr >= 1) by {
            assert((sample_rate as int) * 65536 >= fft_size as int) by (nonlinear_arith)
                requires
                    sample_rate >= 1,
                    fft_size <= 32768,
            ;
            lemma_div_is_ordered(
                fft_size as int,
                (sample_rate as int) * 65536,
                fft_size as int,
            );
            vstd::arithmetic::div_mod::lemma_div_by_self(fft_size as int);
        }
        assert(flow_hz as int <= (fr as int) * (flow_hz as int)) by (nonlinear_arith)
            requires
                fr >= 1,
                flow_hz >= 0,
        ;
        lemma_div_bound(flow_hz as int, fr as int, flow_hz as int);
        assert(fhigh_hz as int <= (fr as int) * (fhigh_hz as int)) by (nonlinear_arith)
            requires
                fr >= 1,
                fhigh_hz >= 0,
        ;
        lemma_div_bound(fhigh_hz as int, fr as int, fhigh_hz as int);
    }
    let slen = spectrum.len();
    let min_bin_w: u64 = (flow_hz as u64) / (fr as u64);
    let mb_w: u64 = (fhigh_hz as u64) / (fr as u64);
    let max_bin_w: u64 = if mb_w <= (slen - 1) as u64 {
        mb_w
    } else {
        (slen - 1) as u64
    };
    if min_bin_w >= max_bin_w {
        return 0;
    }
    let min_bin: usize = min_bin_w as usize;
    let max_bin: usize = max_bin_w as usize;
    let mut peak_bin: usize = min_bin;
    let mut peak_db: i64 = spectrum[min_bin];
    let mut i: usize = min_bin + 1;
    while i <= max_bin
        invariant
            min_bin < i <= max_bin + 1,
            max_bin < slen,
            slen == spectrum@.len(),
            min_bin <= peak_bin <= max_bin,
            peak_bin == db_argmax(spectrum@, min_bin as int, i as int - 1),
            peak_db == spectrum@[peak_bin as int],
        decreases max_bin + 1 - i,
    {
        if spectrum[i] > peak_db {
            peak_db = spectrum[i];
            peak_bin = i;
        }
        i += 1;
    }
    proof {
        lemma_db_argmax_props(spectrum@, min_bin as int, max_bin as int);
        assert((peak_bin as int) * (fr as int) <= ((fhigh_hz as int) / (fr as int)) * (
        fr as int) && 0 <= (peak_bin as int) * (fr as int)) by (nonlinear_arith)
            requires
                0 <= peak_bin <= (fhigh_hz as int) / (fr as int),
                fr >= 1,
        ;
        lemma_fundamental_div_mod(fhigh_hz as int, fr as int);
        assert(((fhigh_hz as int) / (fr as int)) * (fr as int) == (fr as int) * ((
        fhigh_hz as int) / (fr as int))) by (nonlinear_arith);
    }
    let base: i64 = (peak_bin as i64) * fr;
    if peak_bin > min_bin && peak_bin < max_bin {
        let d0 = spectrum[peak_bin - 1];
        let d1 = spectrum[peak_bin];
        let d2 = spectrum[peak_bin + 1];
        let ssum: i64 = 2 * d1 - d0 - d2;
        if ssum > 0 {
            proof {
                lemma_tdiv_bound((d2 as int - d0 as int) * 65536, 2 * (ssum as int), 32768);
                assert(iabs((d2 as int - d0 as int) * 65536) <= (2 * (ssum as int)) * 32768)
                    by (nonlinear_arith)
                    requires
                        d1 >= d0,
                        d1 >= d2,
                        ssum == 2 * (d1 as int) - d0 as int - d2 as int,
                        ssum > 0,
                ;
            }
            let corr = div_trunc((d2 - d0) * 65536, 2 * ssum);
            proof {
                assert(-32768 * (fr as int) <= (corr as int) * (fr as int) <= 32768 * (
                fr as int)) by (nonlinear_arith)
                    requires
                        -32768 <= corr <= 32768,
                        fr >= 1,
                ;
                lemma_tdiv_bound((corr as int) * (fr as int), 65536, fr as int);
                assert(iabs((corr as int) * (fr as int)) <= 65536 * (fr as int))
                    by (nonlinear_arith)
                    requires
                        -32768 <= corr <= 32768,
                        fr >= 1,
                ;
            }
            let delta = div_trunc(corr * fr, 65536);
            return base + delta;
        }
    }
    base
}

/// The refined peak frequency never strays more than one bin width
/// from the frequency of the maximum dB bin itself: the correction
/// that parabolic interpolation adds is at most half a bin (plus one
/// rounding quantum).
pub proof fn lemma_peak_freq_within_bin(s: Seq<i64>, sr: int, size: int, flow: int, fhigh: int)
    requires
        2 <= size <= 32768,
        1 <= sr,
        0 <= flow,
        0 <= fhigh,
        s.len() > 0,
        flow / (sr * 65536 / size) < (if fhigh / (sr * 65536 / size) <= s.len() - 1 {
            fhigh / (sr * 65536 / size)
        } else {
            s.len() - 1
        }),
        sr * 65536 / size >= 1,
    ensures
        ({
            let fr = sr * 65536 / size;
            let min_bin = flow / fr;
            let mb = fhigh / fr;
            let max_bin = if mb <= s.len() - 1 {
                mb
            } else {
                s.len() - 1
            };
            let p = db_argmax(s, min_bin, max_bin);
            &&& iabs(peak_freq_spec(s, sr, size, flow, fhigh) - p * fr) <= fr
            &&& (p > min_bin && p < max_bin && s[p + 1] >= s[p - 1]) ==> peak_freq_spec(
                s,
                sr,
                size,
                flow,
                fhigh,
            ) >= p * fr
            &&& (p > min_bin && p < max_bin && s[p + 1] <= s[p - 1]) ==> peak_freq_spec(
                s,
                sr,
                size,
                flow,
                fhigh,
            ) <= p * fr
        }),
{
    let fr = sr * 65536 / size;
    let min_bin = flow / fr;
    let mb = fhigh / fr;
    let max_bin = if mb <= s.len() - 1 {
        mb
    } else {
        s.len() - 1
    };
    let p = db_argmax(s, min_bin, max_bin);
    lemma_db_argmax_props(s, min_bin, max_bin);
    if p > min_bin && p < max_bin {
        let ssum = 2 * s[p] - s[p - 1] - s[p + 1];
        if ssum > 0 {
            let corr = tdiv((s[p + 1] - s[p - 1]) * 65536, 2 * ssum);
            assert(iabs((s[p + 1] - s[p - 1]) * 65536) <= (2 * ssum) * 32768)
                by (nonlinear_arith)
                requires
                    s[p] >= s[p - 1],
                    s[p] >= s[p + 1],
                    ssum == 2 * s[p] - s[p - 1] - s[p + 1],
                    ssum > 0,
            ;
            lemma_tdiv_bound((s[p + 1] - s[p - 1]) * 65536, 2 * ssum, 32768);
            assert(iabs(corr * fr) <= 32768 * fr) by (nonlinear_arith)
                requires
                    -32768 <= corr <= 32768,
                    fr >= 1,
            ;
            assert(iabs(corr * fr) <= 65536 * fr) by (nonlinear_arith)
                requires
                    -32768 <= corr <= 32768,
                    fr >= 1,
            ;
            lemma_tdiv_bound(corr * fr, 65536, fr);
            vstd::arithmetic::div_mod::lemma_div_of0(2 * ssum);
            vstd::arithmetic::div_mod::lemma_div_of0(65536);
            if s[p + 1] >= s[p - 1] {
                vstd::arithmetic::div_mod::lemma_div_pos_is_pos(
                    (s[p + 1] - s[p - 1]) * 65536,
                    2 * ssum,
                );
                assert(corr >= 0);
                assert(corr * fr >= 0) by (nonlinear_arith)
                    requires
                        corr >= 0,
                        fr >= 1,
                ;
                vstd::arithmetic::div_mod::lemma_div_pos_is_pos(corr * fr, 65536);
            }
            if s[p + 1] <= s[p - 1] {
                vstd::arithmetic::div_mod::lemma_div_pos_is_pos(
                    -((s[p + 1] - s[p - 1]) * 65536),
                    2 * ssum,
                );
                assert(corr <= 0);
                assert(corr * fr <= 0) by (nonlinear_arith)
                    requires
                        corr <= 0,
                        fr >= 1,
                ;
                vstd::arithmetic::div_mod::lemma_div_pos_is_pos(-(corr * fr), 65536);
                assert(tdiv(corr * fr, 65536) <= 0);
            }
        }
    }
}

} // verus!
