use aeneas_rust::errors::AlignError;
use aeneas_rust::features::rescale_coefficients;
use aeneas_rust::fixed::SCALE;
use aeneas_rust::mfcc::dct::dct;
use aeneas_rust::mfcc::mel_filter::{apply_filter_bank, create_mel_filter_bank};
use aeneas_rust::mfcc::pre_emphasis::pre_emphasis;
use aeneas_rust::mfcc::window::apply_hamming_window;
use aeneas_rust::mfcc::MfccConfig;

fn scaled(x: f64) -> i64 {
    (x * SCALE as f64).round() as i64
}

fn hamming_taper(frame_length: usize) -> Vec<i64> {
    (0..frame_length)
        .map(|i| {
            let w = 0.54
                - 0.46
                    * (2.0 * std::f64::consts::PI * i as f64 / (frame_length as f64 - 1.0)).cos();
            scaled(w)
        })
        .collect()
}

fn mel_bin_points(
    sample_rate: u32,
    num_filters: usize,
    fft_size: usize,
    low_freq: f64,
    high_freq: f64,
) -> Vec<usize> {
    let hz_to_mel = |hz: f64| 2595.0 * (1.0 + hz / 700.0).log10();
    let mel_to_hz = |mel: f64| 700.0 * (10f64.powf(mel / 2595.0) - 1.0);
    let mel_min = hz_to_mel(low_freq);
    let mel_max = hz_to_mel(high_freq);
    (0..num_filters + 2)
        .map(|i| {
            let mel = mel_min + (mel_max - mel_min) * i as f64 / (num_filters + 1) as f64;
            let hz = mel_to_hz(mel);
            (hz / (sample_rate as f64 / fft_size as f64)).floor() as usize
        })
        .collect()
}

fn dct_basis(num_coefficients: usize, len: usize) -> Vec<Vec<i64>> {
    (0..num_coefficients)
        .map(|i| {
            (0..len)
                .map(|j| {
                    let c =
                        (std::f64::consts::PI * i as f64 * (j as f64 + 0.5) / len as f64).cos();
                    scaled(c)
                })
                .collect()
        })
        .collect()
}

#[test]
fn test_pre_emphasis() {
    let signal = vec![scaled(1.0), scaled(2.0), scaled(3.0), scaled(4.0), scaled(5.0)];
    let factor = scaled(0.97);
    let expected = vec![
        scaled(1.0),
        scaled(2.0 - 0.97 * 1.0),
        scaled(3.0 - 0.97 * 2.0),
        scaled(4.0 - 0.97 * 3.0),
        scaled(5.0 - 0.97 * 4.0),
    ];
    let result = pre_emphasis(&signal, factor);
    assert_eq!(result, expected);
}

#[test]
fn test_pre_emphasis_empty() {
    let signal: Vec<i64> = vec![];
    let factor = scaled(0.97);
    let result = pre_emphasis(&signal, factor);
    assert_eq!(result, vec![]);
}

#[test]
fn test_apply_hamming_window() {
    let signal = vec![SCALE; 16000];
    let taper = hamming_taper(400);
    let frames = apply_hamming_window(&signal, &taper, 160);
    assert_eq!(frames.len(), 100);
}

#[test]
fn test_apply_hamming_window_with_partial_frame() {
    let signal = vec![SCALE; 16010];
    let taper = hamming_taper(400);
    let frames = apply_hamming_window(&signal, &taper, 160);
    assert_eq!(frames.len(), 101);
}

#[test]
fn test_window_zero_padding() {
    // Five samples, shift two, frame length four: three frames, the
    // last padded with zeros past the end of the signal.
    let signal = vec![SCALE, SCALE, SCALE, SCALE, SCALE];
    let taper = vec![SCALE, SCALE, SCALE, SCALE];
    let frames = apply_hamming_window(&signal, &taper, 2);
    assert_eq!(frames.len(), 3);
    assert_eq!(frames[0], vec![SCALE, SCALE, SCALE, SCALE]);
    assert_eq!(frames[2], vec![SCALE, 0, 0, 0]);
}

#[test]
fn test_frame_count_scenario() {
    // 16000 zero samples at 16 kHz with a 25 ms window and a 10 ms
    // shift: a 400-sample frame, a 160-sample shift, 100 frames.
    let config = MfccConfig {
        sample_rate: 16000,
        num_filters: 26,
        num_coefficients: 13,
        fft_size: 512,
        low_freq: 0,
        high_freq: 8000,
        pre_emphasis: 9700,
        window_length_us: 25000,
        window_shift_us: 10000,
    };
    let (frame_length, frame_shift) = config.frame_sizes().unwrap();
    assert_eq!(frame_length, 400);
    assert_eq!(frame_shift, 160);
    let signal = vec![0i64; 16000];
    let taper = hamming_taper(frame_length);
    let frames = apply_hamming_window(&signal, &taper, frame_shift);
    assert_eq!(frames.len(), 100);
    assert_eq!(frames[99].len(), 400);
}

#[test]
fn test_frame_sizes_rejects_bad_config() {
    let config = MfccConfig {
        sample_rate: 16000,
        num_filters: 26,
        num_coefficients: 13,
        fft_size: 512,
        low_freq: 9000,
        high_freq: 8000,
        pre_emphasis: 9700,
        window_length_us: 25000,
        window_shift_us: 10000,
    };
    assert!(config.frame_sizes().is_err());
    let config = MfccConfig {
        sample_rate: 16000,
        num_filters: 0,
        num_coefficients: 13,
        fft_size: 512,
        low_freq: 0,
        high_freq: 8000,
        pre_emphasis: 9700,
        window_length_us: 25000,
        window_shift_us: 10000,
    };
    assert!(config.frame_sizes().is_err());
}

#[test]
fn test_create_mel_filter_bank() {
    let bins = mel_bin_points(16000, 26, 512, 0.0, 8000.0);
    let filters = create_mel_filter_bank(&bins, 512 / 2 + 1);
    assert_eq!(filters.len(), 26);
}

#[test]
fn test_mel_filter_peak() {
    // A single triangular filter over bins [2, 5, 9): it rises to
    // exactly 1.0 at its center bin and vanishes outside its bounds.
    let bins = vec![2usize, 5, 9];
    let filters = create_mel_filter_bank(&bins, 12);
    assert_eq!(filters.len(), 1);
    let f = &filters[0];
    assert_eq!(f[5], SCALE);
    assert_eq!(f[0], 0);
    assert_eq!(f[1], 0);
    assert_eq!(f[2], 0);
    assert_eq!(f[3], SCALE / 3);
    assert_eq!(f[4], 2 * SCALE / 3);
    assert_eq!(f[9], 0);
    assert_eq!(f[10], 0);
    assert_eq!(f[11], 0);
}

#[test]
fn test_apply_filter_bank_shape_mismatch() {
    let power = vec![100, 200, 300];
    let filters = vec![vec![SCALE, SCALE]];
    assert_eq!(apply_filter_bank(&power, &filters), Err(AlignError::ShapeMismatch));
}

#[test]
fn test_apply_filter_bank_energies() {
    let power = vec![100, 200, 300];
    let filters = vec![vec![SCALE, 0, 0], vec![0, SCALE / 2, SCALE]];
    let energies = apply_filter_bank(&power, &filters).unwrap();
    assert_eq!(energies, vec![100 * SCALE, 200 * (SCALE / 2) + 300 * SCALE]);
}

#[test]
fn test_dct() {
    let mel = vec![scaled(1.0), scaled(2.0), scaled(3.0), scaled(4.0)];
    let basis = dct_basis(2, 4);
    let result = dct(&mel, &basis).unwrap();
    assert_eq!(result.len(), 2);
}

#[test]
fn test_dct_flat_input() {
    // A flat mel-energy vector: coefficient zero is exactly the sum of
    // the inputs (times the fixed-point unit of the all-ones basis
    // row), and the higher coefficients are near zero.
    let v = scaled(7.0);
    let mel = vec![v, v, v, v];
    let basis = dct_basis(3, 4);
    let result = dct(&mel, &basis).unwrap();
    assert_eq!(result[0], 4 * v * SCALE);
    assert!(result[1].abs() <= 2 * v);
    assert!(result[2].abs() <= 2 * v);
}

#[test]
fn test_dct_shape_mismatch() {
    let mel = vec![scaled(1.0), scaled(2.0)];
    let basis = dct_basis(2, 3);
    assert_eq!(dct(&mel, &basis), Err(AlignError::ShapeMismatch));
}

#[test]
fn test_rescale_coefficients() {
    let raw = vec![25000, -25000, 8_000_000_000_000_000_000, -8_000_000_000_000_000_000];
    let out = rescale_coefficients(&raw);
    assert_eq!(out, vec![2, -2, 3_000_000, -3_000_000]);
}
