use spectrogram::engine::{SpectrogramEngine, BANK_WEIGHT_MAX};
use spectrogram::fixed::ONE;
use spectrogram::power::{compute_power_spectrum, find_peak_frequency_from_spectrum};
use spectrogram::quantize::quantize_u8;
use spectrogram::waveform::{compute_wave_peaks, find_global_max, WaveformEngine};
use spectrogram::window::{create_window, window_kind_from_name, WindowKind};

fn q(x: f64) -> i64 {
    (x * 65536.0).round() as i64
}

fn all_kinds() -> Vec<WindowKind> {
    vec![
        WindowKind::Rectangular,
        WindowKind::Triangular,
        WindowKind::Bartlett,
        WindowKind::BartlettHann,
        WindowKind::Blackman,
        WindowKind::Cosine,
        WindowKind::Gauss,
        WindowKind::Hamming,
        WindowKind::Hann,
        WindowKind::Lanczos,
    ]
}

#[test]
fn window_curves_have_requested_length() {
    for kind in all_kinds() {
        let w = create_window(kind, 16, q(0.16));
        assert_eq!(w.len(), 16);
        let w = create_window(kind, 33, q(0.16));
        assert_eq!(w.len(), 33);
        // The smallest supported curve.
        let w = create_window(kind, 2, q(0.16));
        assert_eq!(w.len(), 2);
    }
}

#[test]
fn rectangular_window_is_all_ones() {
    let w = create_window(WindowKind::Rectangular, 24, q(0.16));
    assert!(w.iter().all(|&v| v == ONE));
}

#[test]
fn hann_window_range_and_ends() {
    let w = create_window(WindowKind::Hann, 32, q(0.16));
    assert!(w.iter().all(|&v| 0 <= v && v <= ONE));
    assert_eq!(w[0], 0);
    assert_eq!(w[31], 0);
    let mid = w[16] as f64 / 65536.0;
    assert!((mid - 1.0).abs() < 0.02);
}

#[test]
fn window_name_lookup_with_fallback() {
    assert_eq!(window_kind_from_name("blackman"), WindowKind::Blackman);
    assert_eq!(window_kind_from_name("rectangular"), WindowKind::Rectangular);
    assert_eq!(window_kind_from_name("hann"), WindowKind::Hann);
    assert_eq!(window_kind_from_name("no-such-window"), WindowKind::Hann);
    assert_eq!(window_kind_from_name(""), WindowKind::Hann);
}

#[test]
fn sinusoid_peaks_at_expected_bin() {
    // 1000 Hz at 8000 Hz sampling, 64-point transform: bin 1000*64/8000 = 8.
    let sr = 8000.0;
    let n = 64usize;
    let f = 1000.0;
    let samples: Vec<i64> = (0..n)
        .map(|i| q(0.8 * (2.0 * std::f64::consts::PI * f * (i as f64) / sr).sin()))
        .collect();
    let engine = SpectrogramEngine::new(n, "hann".to_string(), None);
    let mags = engine.compute_spectrogram(&samples, 0);
    assert_eq!(mags.len(), n / 2);
    let mut best = 0usize;
    for i in 0..mags.len() {
        if mags[i] > mags[best] {
            best = i;
        }
    }
    assert_eq!(best, 8);
}

#[test]
fn quantization_is_monotone_in_magnitude() {
    let gain = 0i64;
    let range = 80 * ONE;
    let mut last = 0u8;
    let mut m: i64 = 0;
    while m < 3 * ONE {
        let v = quantize_u8(m, gain, range);
        assert!(v >= last, "byte dropped from {} to {} at m = {}", last, v, m);
        last = v;
        m += 1234;
    }
}

#[test]
fn quantization_exact_values() {
    let range = 80 * ONE;
    // A magnitude of exactly 1.0 is 0 dB, the top of the window.
    assert_eq!(quantize_u8(ONE, 0, range), 255);
    // A zero magnitude is floored far below an 80 dB window.
    assert_eq!(quantize_u8(0, 0, range), 0);
}

#[test]
fn peak_queries_before_any_computation_are_empty() {
    let engine = SpectrogramEngine::new(8, "rectangular".to_string(), None);
    assert!(engine.get_peaks(0).is_empty());
    assert!(engine.get_peak_magnitudes(0).is_empty());
    assert_eq!(engine.get_global_max(), 0);
}

#[test]
fn peak_magnitudes_match_per_frame_maxima() {
    let mut engine = SpectrogramEngine::new(8, "rectangular".to_string(), None);
    let samples: Vec<i64> = (0..16).map(|i| q(0.4 * ((i % 5) as f64 / 5.0 - 0.4))).collect();
    let linear = engine.compute_spectrogram(&samples, 0);
    let _ = engine.compute_spectrogram_u8(&samples, 0, 0, 80 * ONE);
    let peaks = engine.get_peak_magnitudes(0);
    let gmax = engine.get_global_max();
    assert_eq!(peaks.len(), 2);
    let bins = 4usize;
    for fr in 0..2usize {
        let frame_max = (0..bins).map(|k| linear[fr * bins + k]).max().unwrap();
        assert_eq!(peaks[fr], frame_max);
        assert!(peaks[fr] <= gmax);
    }
}

#[test]
fn peak_indexes_point_at_frame_maxima() {
    let sr = 8000.0;
    let n = 32usize;
    let samples: Vec<i64> = (0..n * 2)
        .map(|i| q(0.7 * (2.0 * std::f64::consts::PI * 1000.0 * (i as f64) / sr).sin()))
        .collect();
    let mut engine = SpectrogramEngine::new(n, "hann".to_string(), None);
    let _ = engine.compute_spectrogram_u8(&samples, 0, 0, 80 * ONE);
    let peaks = engine.get_peaks(q(0.4));
    assert_eq!(peaks.len(), 2);
    // 1000 Hz at 8000 Hz over 32 bins: bin 4.
    for &p in &peaks {
        assert_eq!(p, 4u16);
    }
}

#[test]
fn wave_peaks_on_all_zero_buffer() {
    let samples = vec![0i64; 10];
    let peaks = compute_wave_peaks(&samples, 5);
    assert_eq!(peaks, vec![0i64; 5]);
}

#[test]
fn wave_peaks_single_sample() {
    // Slices of a 10-sample buffer at 5 points are [2i, 2i+2).
    let mut samples = vec![0i64; 10];
    samples[7] = q(-0.5);
    let peaks = compute_wave_peaks(&samples, 5);
    assert_eq!(peaks, vec![0, 0, 0, q(0.5), 0]);
}

#[test]
fn wave_peaks_degenerate_inputs() {
    assert!(compute_wave_peaks(&vec![], 4).is_empty());
    assert!(compute_wave_peaks(&vec![q(0.1); 8], 0).is_empty());
}

#[test]
fn global_max_of_buffer() {
    let samples = vec![q(0.1), q(-0.5), q(0.3)];
    assert_eq!(find_global_max(&samples), q(0.5));
    assert_eq!(find_global_max(&vec![]), 0);
}

#[test]
fn range_peaks_single_width_is_range_maximum() {
    let mut engine = WaveformEngine::new();
    engine.resize(1);
    let ramp: Vec<i64> = (0..100).map(|i| i * 100).collect();
    engine.load_channel(0, &ramp);
    let peaks = engine.get_peaks_in_range(0, 10, 50, 1);
    assert_eq!(peaks, vec![49 * 100]);
}

#[test]
fn range_peaks_degenerate_inputs() {
    let mut engine = WaveformEngine::new();
    engine.resize(1);
    engine.load_channel(0, &vec![q(0.2); 8]);
    // Out-of-range channel: a single zero when the width is zero too.
    assert_eq!(engine.get_peaks_in_range(3, 0, 8, 0), vec![0]);
    assert_eq!(engine.get_peaks_in_range(3, 0, 8, 4), vec![0; 4]);
    // Empty range: all zeros.
    assert_eq!(engine.get_peaks_in_range(0, 6, 6, 3), vec![0; 3]);
}

#[test]
fn waveform_channel_management() {
    let mut engine = WaveformEngine::new();
    assert_eq!(engine.get_num_channels(), 0);
    engine.resize(3);
    assert_eq!(engine.get_num_channels(), 3);
    engine.load_channel(1, &vec![q(0.1), q(0.2)]);
    assert_eq!(engine.get_channel_length(1), 2);
    assert_eq!(engine.get_channel_length(0), 0);
    assert_eq!(engine.get_channel_length(9), 0);
    // Loading an out-of-range channel is ignored.
    engine.load_channel(7, &vec![q(0.3)]);
    assert_eq!(engine.get_num_channels(), 3);
    engine.clear();
    assert_eq!(engine.get_num_channels(), 0);
}

#[test]
fn color_map_of_wrong_length_is_ignored() {
    let mut engine = SpectrogramEngine::new(8, "hann".to_string(), None);
    engine.set_color_map(&vec![7u8; 1023]);
    assert_eq!(engine.color_map.len(), 0);
    engine.set_color_map(&vec![7u8; 1025]);
    assert_eq!(engine.color_map.len(), 0);
    let good: Vec<u8> = (0..1024).map(|i| (i % 4) as u8 + 1).collect();
    engine.set_color_map(&good);
    assert_eq!(engine.color_map.len(), 256);
    let packed = 1u32 * 16777216 + 2 * 65536 + 3 * 256 + 4;
    assert_eq!(engine.color_map[0], packed);
    // A later wrong-sized table leaves the previous one in place.
    engine.set_color_map(&vec![9u8; 1023]);
    assert_eq!(engine.color_map.len(), 256);
    assert_eq!(engine.color_map[0], packed);
}

#[test]
fn image_without_color_table_is_all_zero() {
    let engine = SpectrogramEngine::new(8, "hann".to_string(), None);
    let samples = vec![q(0.2); 16];
    let img = engine.compute_spectrogram_image(&samples, 3, 2, 0, 0, 80 * ONE);
    assert_eq!(img.len(), 3 * 2 * 4);
    assert!(img.iter().all(|&b| b == 0));
}

#[test]
fn image_with_uniform_table_paints_that_color() {
    let mut engine = SpectrogramEngine::new(8, "hann".to_string(), None);
    let table: Vec<u8> = (0..1024).map(|i| [10u8, 20, 30, 40][i % 4]).collect();
    engine.set_color_map(&table);
    let samples: Vec<i64> = (0..16).map(|i| q(0.5 * ((i as f64) / 8.0).sin())).collect();
    let img = engine.compute_spectrogram_image(&samples, 2, 2, 0, 0, 80 * ONE);
    assert_eq!(img.len(), 16);
    for p in 0..4 {
        assert_eq!(&img[p * 4..p * 4 + 4], &[10, 20, 30, 40]);
    }
}

#[test]
fn image_on_grid_samples_rounds_to_exact_color_index() {
    let mut engine = SpectrogramEngine::new(8, "hann".to_string(), None);
    // Table entry i carries its own index in the red channel.
    let table: Vec<u8> = (0..1024).map(|i| if i % 4 == 0 { (i / 4) as u8 } else { 0 }).collect();
    engine.set_color_map(&table);
    let samples: Vec<i64> = (0..32).map(|i| q(0.4 * ((i as f64) * 0.7).sin())).collect();
    // With width == frame count and height == bin count, every pixel
    // lands exactly on one (time, frequency) grid sample, so its color
    // index must equal that frame's quantized byte.
    let img = engine.compute_spectrogram_image(&samples, 4, 4, 0, 0, 80 * ONE);
    assert_eq!(img.len(), 4 * 4 * 4);
    let mut interior = false;
    for x in 0..4usize {
        let spec8 = engine.compute_frame_spectrum(&samples, x * 8, 0, 80 * ONE);
        for y in 0..4usize {
            let expected = spec8[3 - y];
            let p = y * 4 + x;
            assert_eq!(img[p * 4], expected);
            if expected > 0 && expected < 255 {
                interior = true;
            }
        }
    }
    // The check is vacuous unless some byte sits strictly inside the range.
    assert!(interior);
}

#[test]
fn filter_bank_loading_and_rejection() {
    let mut engine = SpectrogramEngine::new(8, "rectangular".to_string(), None);
    assert_eq!(engine.get_freq_bins(), 4);
    // Rows have stride freq_bins + 1 = 5.
    let good = vec![ONE; 2 * 5];
    assert!(engine.load_filter_bank(&good, 2));
    assert_eq!(engine.get_num_filters(), 2);
    // Wrong length is rejected whole.
    let mut other = SpectrogramEngine::new(8, "rectangular".to_string(), None);
    assert!(!other.load_filter_bank(&vec![ONE; 9], 2));
    assert_eq!(other.get_num_filters(), 0);
    // A weight above one is a valid weight and loads.
    let mut wide = vec![ONE; 10];
    wide[3] = 2 * ONE;
    assert!(other.load_filter_bank(&wide, 2));
    assert_eq!(other.get_num_filters(), 2);
    // A weight past the overflow cap is rejected whole.
    let mut third = SpectrogramEngine::new(8, "rectangular".to_string(), None);
    let mut bad = vec![ONE; 10];
    bad[3] = BANK_WEIGHT_MAX + 1;
    assert!(!third.load_filter_bank(&bad, 2));
    assert_eq!(third.get_num_filters(), 0);
}

#[test]
fn quantized_output_respects_filter_bank_shape() {
    let mut engine = SpectrogramEngine::new(8, "rectangular".to_string(), None);
    let samples = vec![q(0.3); 16];
    let plain = engine.compute_spectrogram_u8(&samples, 0, 0, 80 * ONE);
    assert_eq!(plain.len(), 4 * 2);
    assert!(engine.load_filter_bank(&vec![ONE; 3 * 5], 3));
    let filtered = engine.compute_spectrogram_u8(&samples, 0, 0, 80 * ONE);
    assert_eq!(filtered.len(), 3 * 2);
    engine.clear_filter_bank();
    let back = engine.compute_spectrogram_u8(&samples, 0, 0, 80 * ONE);
    assert_eq!(back.len(), 4 * 2);
}

#[test]
fn linear_spectrogram_frame_counts() {
    let engine = SpectrogramEngine::new(8, "hann".to_string(), None);
    assert!(engine.compute_spectrogram(&vec![q(0.1); 7], 0).is_empty());
    assert_eq!(engine.compute_spectrogram(&vec![q(0.1); 8], 0).len(), 4);
    assert_eq!(engine.compute_spectrogram(&vec![q(0.1); 20], 4).len(), 4 * 4);
    // An overlap at or past the transform size clamps the step to one.
    assert_eq!(engine.compute_spectrogram(&vec![q(0.1); 10], 8).len(), 4 * 3);
}

#[test]
fn engine_getters() {
    let engine = SpectrogramEngine::new(16, "hamming".to_string(), Some(q(0.2)));
    assert_eq!(engine.get_fft_size(), 16);
    assert_eq!(engine.get_freq_bins(), 8);
    assert_eq!(engine.get_num_filters(), 0);
    assert_eq!(engine.get_window_values().len(), 16);
}

#[test]
fn spectrum_config_is_bookkeeping_only() {
    let mut engine = SpectrogramEngine::new(8, "hann".to_string(), None);
    engine.set_spectrum_config("mel".to_string(), 0, q(8000.0));
    assert_eq!(engine.current_scale, "mel");
    assert_eq!(engine.freq_max, q(8000.0));
    let samples = vec![q(0.2); 16];
    let a = engine.compute_spectrogram(&samples, 0);
    engine.set_spectrum_config("log".to_string(), q(10.0), q(4000.0));
    let b = engine.compute_spectrogram(&samples, 0);
    assert_eq!(a, b);
}

#[test]
fn power_spectrum_of_silence() {
    let spectrum = compute_power_spectrum(&vec![0i64; 64], 8000, 32, "hann", None);
    assert_eq!(spectrum.len(), 17);
    // Silence floors every bin at one Q16 quantum: 10 log10(2^-16) dB.
    for &db in &spectrum {
        assert_eq!(db, -3156528);
    }
}

#[test]
fn power_spectrum_degenerate_inputs() {
    assert!(compute_power_spectrum(&vec![], 8000, 32, "hann", None).is_empty());
    assert!(compute_power_spectrum(&vec![q(0.1); 10], 8000, 32, "hann", None).is_empty());
}

#[test]
fn power_spectrum_overlap_default_matches_zero_percent() {
    let samples: Vec<i64> = (0..128).map(|i| q(0.5 * ((i as f64) / 7.0).sin())).collect();
    let auto = compute_power_spectrum(&samples, 8000, 32, "hann", None);
    let zero = compute_power_spectrum(&samples, 8000, 32, "hann", Some(0));
    let out_of_range = compute_power_spectrum(&samples, 8000, 32, "hann", Some(100));
    assert_eq!(auto, zero);
    assert_eq!(auto, out_of_range);
}

#[test]
fn power_spectrum_finds_a_tone() {
    let sr = 8000.0;
    let samples: Vec<i64> = (0..256)
        .map(|i| q(0.8 * (2.0 * std::f64::consts::PI * 1000.0 * (i as f64) / sr).sin()))
        .collect();
    let spectrum = compute_power_spectrum(&samples, 8000, 64, "hann", None);
    assert_eq!(spectrum.len(), 33);
    // 1000 Hz at 125 Hz per bin: bin 8 dominates.
    let mut best = 0usize;
    for i in 0..spectrum.len() {
        if spectrum[i] > spectrum[best] {
            best = i;
        }
    }
    assert_eq!(best, 8);
}

#[test]
fn peak_frequency_refines_toward_the_larger_neighbor() {
    // 100 Hz per bin; a spike at bin 10 flanked by a larger right
    // neighbor pulls the estimate above 1000 Hz by less than a bin.
    let mut spectrum = vec![-80 * ONE; 33];
    spectrum[9] = -20 * ONE;
    spectrum[10] = 0;
    spectrum[11] = -10 * ONE;
    let freq = find_peak_frequency_from_spectrum(&spectrum, 6400, 64, 200 * ONE, 3000 * ONE);
    assert_eq!(freq, 10 * 100 * ONE + 10922 * 100);
    let hz = freq as f64 / 65536.0;
    assert!(hz > 1000.0 && hz < 1100.0);
}

#[test]
fn peak_frequency_degenerate_inputs() {
    assert_eq!(find_peak_frequency_from_spectrum(&vec![], 8000, 64, 0, 4000 * ONE), 0);
    // An empty search range yields zero.
    let spectrum = vec![0i64; 33];
    assert_eq!(
        find_peak_frequency_from_spectrum(&spectrum, 6400, 64, 1000 * ONE, 1000 * ONE),
        0
    );
}

#[test]
fn peak_frequency_without_interior_peak_is_unrefined() {
    // The maximum sits at the lower range edge: no interpolation.
    let mut spectrum = vec![-60 * ONE; 33];
    spectrum[2] = 0;
    let freq = find_peak_frequency_from_spectrum(&spectrum, 6400, 64, 200 * ONE, 3000 * ONE);
    assert_eq!(freq, 2 * 100 * ONE);
}
