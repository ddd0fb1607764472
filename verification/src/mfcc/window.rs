//! Framing: slicing a signal into overlapping, tapered frames.

use vstd::prelude::*;

use crate::fixed::{trunc_div, SAMPLE_LIMIT, SCALE};

verus! {

/// Number of frames for a signal of length `len` under shift `shift`:
/// the ceiling of `len / shift`.
pub open spec fn spec_frame_count(len: int, shift: int) -> int {
    (len + shift - 1) / shift
}

/// Element `t` of frame `k`: the tapered sample at `k * shift + t`, or
/// zero where that position lies past the end of the signal, so that a
/// short final frame is zero-padded to the full frame length.
pub open spec fn spec_windowed_at(x: Seq<i64>, taper: Seq<i64>, shift: int, k: int, t: int) -> int {
    if k * shift + t < x.len() {
        trunc_div(x[k * shift + t] * taper[t], SCALE as int)
    } else {
        0
    }
}

/// Slices the signal into `ceil(len / shift)` frames of the taper's
/// length, strided by `shift`, zero-pads the final frame, and multiplies
/// each frame element-wise by the taper.
pub fn apply_hamming_window(signal: &Vec<i64>, taper: &Vec<i64>, frame_shift: usize) -> (r: Vec<
    Vec<i64>,
>)
    requires
        frame_shift >= 1,
        taper@.len() >= 1,
        signal@.len() + taper@.len() <= usize::MAX,
        signal@.len() + frame_shift <= usize::MAX,
        forall|t: int|
            0 <= t < signal@.len() ==> -SAMPLE_LIMIT <= #[trigger] signal@[t] <= SAMPLE_LIMIT,
        forall|t: int| 0 <= t < taper@.len() ==> 0 <= #[trigger] taper@[t] <= SCALE,
    ensures
        r@.len() == spec_frame_count(signal@.len() as int, frame_shift as int),
        forall|k: int| 0 <= k < r@.len() ==> (#[trigger] r@[k]@).len() == taper@.len(),
        forall|k: int, t: int|
            0 <= k < r@.len() && 0 <= t < taper@.len() ==> #[trigger] r@[k]@[t]
                == spec_windowed_at(signal@, taper@, frame_shift as int, k, t),
        forall|k: int, t: int|
            0 <= k < r@.len() && 0 <= t < taper@.len() ==> -SAMPLE_LIMIT <= #[trigger] r@[k]@[t]
                <= SAMPLE_LIMIT,
{
    let len = signal.len();
    let frame_length = taper.len();
    let num_frames = (len + frame_shift - 1) / frame_shift;
    proof {
        vstd::arithmetic::div_mod::lemma_fundamental_div_mod(
            len + frame_shift - 1,
            frame_shift as int,
        );
        vstd::arithmetic::div_mod::lemma_mod_bound(len + frame_shift - 1, frame_shift as int);
        assert(frame_shift * num_frames <= len + frame_shift - 1);
    }
    let mut frames: Vec<Vec<i64>> = Vec::new();
    let mut k: usize = 0;
    while k < num_frames
        invariant
            0 <= k <= num_frames,
            frame_shift >= 1,
            len == signal@.len(),
            frame_length == taper@.len() >= 1,
            len + frame_length <= usize::MAX,
            num_frames == spec_frame_count(len as int, frame_shift as int),
            frame_shift * num_frames <= len + frame_shift - 1,
            forall|t: int| 0 <= t < len ==> -SAMPLE_LIMIT <= #[trigger] signal@[t] <= SAMPLE_LIMIT,
            forall|t: int| 0 <= t < taper@.len() ==> 0 <= #[trigger] taper@[t] <= SCALE,
            frames@.len() == k,
            forall|p: int| 0 <= p < k ==> (#[trigger] frames@[p]@).len() == taper@.len(),
            forall|p: int, t: int|
                0 <= p < k && 0 <= t < taper@.len() ==> #[trigger] frames@[p]@[t]
                    == spec_windowed_at(signal@, taper@, frame_shift as int, p, t),
            forall|p: int, t: int|
                0 <= p < k && 0 <= t < taper@.len() ==> -SAMPLE_LIMIT <= #[trigger] frames@[p]@[t]
                    <= SAMPLE_LIMIT,
        decreases num_frames - k,
    {
        proof {
            assert(frame_shift * (k as int) <= frame_shift * (num_frames - 1)) by (nonlinear_arith)
                requires
                    k as int <= num_frames - 1,
                    frame_shift >= 1,
            ;
            assert(frame_shift * (num_frames - 1) == frame_shift * num_frames - frame_shift)
                by (nonlinear_arith);
            assert((k as int) * (frame_shift as int) == frame_shift * (k as int))
                by (nonlinear_arith);
        }
        let start = k * frame_shift;
        assert(start < len);
        let mut frame: Vec<i64> = Vec::new();
        let mut t: usize = 0;
        while t < frame_length
            invariant
                0 <= t <= frame_length,
                frame_shift >= 1,
                len == signal@.len(),
                frame_length == taper@.len(),
                len + frame_length <= usize::MAX,
                start == (k as int) * (frame_shift as int),
                start < len,
                forall|q: int| 0 <= q < len ==> -SAMPLE_LIMIT <= #[trigger] signal@[q]
                    <= SAMPLE_LIMIT,
                forall|q: int| 0 <= q < taper@.len() ==> 0 <= #[trigger] taper@[q] <= SCALE,
                frame@.len() == t,
                forall|q: int|
                    0 <= q < t ==> #[trigger] frame@[q] == spec_windowed_at(
                        signal@,
                        taper@,
                        frame_shift as int,
                        k as int,
                        q,
                    ),
                forall|q: int| 0 <= q < t ==> -SAMPLE_LIMIT <= #[trigger] frame@[q]
                    <= SAMPLE_LIMIT,
            decreases frame_length - t,
        {
            if start + t < len {
                let sample = signal[start + t];
                let w = taper[t];
                proof {
                    assert(-(SCALE * SAMPLE_LIMIT) <= sample * w <= SCALE * SAMPLE_LIMIT)
                        by (nonlinear_arith)
                        requires
                            -SAMPLE_LIMIT <= sample <= SAMPLE_LIMIT,
                            0 <= w <= SCALE,
                    ;
                }
                let v = (sample * w) / SCALE;
                proof {
                    crate::mfcc::pre_emphasis::lemma_trunc_div_symmetric_bound(
                        sample * w,
                        SCALE as int,
                        SAMPLE_LIMIT as int,
                    );
                }
                frame.push(v);
            } else {
                frame.push(0);
            }
            t += 1;
        }
        frames.push(frame);
        k += 1;
    }
    frames
}

} // verus!
