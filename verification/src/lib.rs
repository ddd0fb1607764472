//! Forced alignment of two acoustic feature sequences.
//!
//! The crate covers two pieces: the integer kernels of an MFCC
//! feature-extraction pipeline (pre-emphasis, framing, mel filter bank,
//! cosine-transform application), and a banded dynamic-time-warping engine
//! that computes a constrained optimal alignment path between two feature
//! matrices.  Everything is carried in fixed-point `i64` arithmetic; the
//! transcendental tables (Hamming taper, mel-spaced bin points, cosine
//! basis) and the Fourier transform are supplied by the caller.

pub mod dtw;
pub mod errors;
pub mod features;
pub mod fixed;
pub mod mfcc;
pub mod tts_engines;
