//! Integer kernels of the MFCC feature-extraction pipeline.
//!
//! The caller supplies the transcendental tables (Hamming taper,
//! mel-spaced FFT bin points, cosine basis) and the power spectra; the
//! kernels here do the arithmetic that combines them, in fixed point.

use vstd::prelude::*;

use crate::errors::ConfigError;

pub mod dct;
pub mod mel_filter;
pub mod pre_emphasis;
pub mod window;

verus! {

/// Cap on the sample rate a configuration may carry, in Hz.
pub const MAX_SAMPLE_RATE: u32 = 1_000_000;

/// Cap on window length and shift, in microseconds (ten seconds).
pub const MAX_WINDOW_US: u64 = 10_000_000;

/// An immutable extraction configuration.  Durations are carried in
/// microseconds and the pre-emphasis factor in fixed point, so that the
/// derived frame sizes are exact integer computations.
pub struct MfccConfig {
    pub sample_rate: u32,
    pub num_filters: usize,
    pub num_coefficients: usize,
    pub fft_size: usize,
    pub low_freq: u32,
    pub high_freq: u32,
    pub pre_emphasis: i64,
    pub window_length_us: u64,
    pub window_shift_us: u64,
}

/// Number of samples that a duration of `us` microseconds covers at
/// `sample_rate`, rounded to the nearest integer.
pub open spec fn spec_samples_of_us(us: int, sample_rate: int) -> int {
    (us * sample_rate + 500_000) / 1_000_000
}

impl MfccConfig {
    /// Validity of a configuration: positive sizes, an ordered frequency
    /// range below the Nyquist frequency, positive window durations, and
    /// the machine caps on rate and duration.
    pub open spec fn wf(self) -> bool {
        &&& 1 <= self.sample_rate <= MAX_SAMPLE_RATE
        &&& self.num_filters >= 1
        &&& self.num_coefficients >= 1
        &&& self.fft_size >= 1
        &&& self.low_freq < self.high_freq
        &&& self.high_freq <= self.sample_rate / 2
        &&& 0 <= self.pre_emphasis <= crate::fixed::SCALE
        &&& 1 <= self.window_length_us <= MAX_WINDOW_US
        &&& 1 <= self.window_shift_us <= MAX_WINDOW_US
    }

    /// Frame length in samples.
    pub open spec fn spec_frame_length(self) -> int {
        spec_samples_of_us(self.window_length_us as int, self.sample_rate as int)
    }

    /// Frame shift in samples.
    pub open spec fn spec_frame_shift(self) -> int {
        spec_samples_of_us(self.window_shift_us as int, self.sample_rate as int)
    }

    /// Derives the frame length and shift in samples.  Rejects an invalid
    /// configuration, and one whose derived frame length or shift rounds
    /// to zero, before any processing.
    pub fn frame_sizes(&self) -> (r: Result<(usize, usize), ConfigError>)
        ensures
            r is Ok <==> (self.wf() && self.spec_frame_length() >= 1 && self.spec_frame_shift()
                >= 1),
            r matches Ok(p) ==> p.0 == self.spec_frame_length() && p.1 == self.spec_frame_shift(),
    {
        if !(1 <= self.sample_rate && self.sample_rate <= MAX_SAMPLE_RATE) {
            return Err(ConfigError);
        }
        if self.num_filters < 1 || self.num_coefficients < 1 || self.fft_size < 1 {
            return Err(ConfigError);
        }
        if !(self.low_freq < self.high_freq && self.high_freq <= self.sample_rate / 2) {
            return Err(ConfigError);
        }
        if self.pre_emphasis < 0 || self.pre_emphasis > crate::fixed::SCALE {
            return Err(ConfigError);
        }
        if !(1 <= self.window_length_us && self.window_length_us <= MAX_WINDOW_US) {
            return Err(ConfigError);
        }
        if !(1 <= self.window_shift_us && self.window_shift_us <= MAX_WINDOW_US) {
            return Err(ConfigError);
        }
        let length = samples_of_us(self.window_length_us, self.sample_rate);
        let shift = samples_of_us(self.window_shift_us, self.sample_rate);
        if length < 1 || shift < 1 {
            return Err(ConfigError);
        }
        Ok((length, shift))
    }
}

/// Rounded sample count for a duration in microseconds.
fn samples_of_us(us: u64, sample_rate: u32) -> (r: usize)
    requires
        us <= MAX_WINDOW_US,
        sample_rate <= MAX_SAMPLE_RATE,
    ensures
        r == spec_samples_of_us(us as int, sample_rate as int),
{
    proof {
        assert(us * sample_rate <= MAX_WINDOW_US * MAX_SAMPLE_RATE) by (nonlinear_arith)
            requires
                us <= MAX_WINDOW_US,
                sample_rate <= MAX_SAMPLE_RATE,
        ;
    }
    let n: u64 = (us * (sample_rate as u64) + 500_000) / 1_000_000;
    proof {
        vstd::arithmetic::div_mod::lemma_div_is_ordered(
            us * sample_rate + 500_000,
            10_000_000_500_000int,
            1_000_000int,
        );
        assert(n <= 10_000_000);
    }
    n as usize
}

} // verus!
