//! Triangular mel filters over FFT bins.
//!
//! The mel-spaced boundary bins are derived from the mel scale by the
//! caller; given those bins, each filter ramps from zero up to exactly
//! one at its center bin and back down to zero, and vanishes outside its
//! boundary bins.

use vstd::prelude::*;

use crate::errors::AlignError;
use crate::fixed::{spec_dot, SCALE};

verus! {

/// Cap on the one-sided spectrum length.
pub const MAX_SPECTRUM: usize = 100_000;

/// Weight of a triangular filter with boundary bins `s <= c <= e` at
/// bin `j`, in fixed point: a rising ramp on `[s, c)`, a falling ramp on
/// `[c, e)` that starts at exactly one, and zero elsewhere.
pub open spec fn spec_filter_at(s: int, c: int, e: int, j: int) -> int {
    if s <= j < c {
        SCALE * (j - s) / (c - s)
    } else if c <= j < e {
        SCALE - SCALE * (j - c) / (e - c)
    } else {
        0
    }
}

/// Builds the filter bank: one triangular filter per consecutive triple
/// of boundary bins.  Every filter peaks at exactly `SCALE` (1.0) at its
/// center bin whenever its falling ramp is non-degenerate, and is zero
/// outside the half-open interval of its boundary bins.
pub fn create_mel_filter_bank(bin_points: &Vec<usize>, spectrum_len: usize) -> (r: Vec<Vec<i64>>)
    requires
        bin_points@.len() >= 3,
        spectrum_len <= MAX_SPECTRUM,
        forall|p: int, q: int|
            0 <= p <= q < bin_points@.len() ==> #[trigger] bin_points@[p] <= #[trigger] bin_points@[q],
        forall|p: int| 0 <= p < bin_points@.len() ==> #[trigger] bin_points@[p] <= spectrum_len,
    ensures
        r@.len() == bin_points@.len() - 2,
        forall|f: int| 0 <= f < r@.len() ==> (#[trigger] r@[f]@).len() == spectrum_len,
        forall|f: int, j: int|
            0 <= f < r@.len() && 0 <= j < spectrum_len ==> #[trigger] r@[f]@[j] == spec_filter_at(
                bin_points@[f] as int,
                bin_points@[f + 1] as int,
                bin_points@[f + 2] as int,
                j,
            ),
        forall|f: int, j: int|
            0 <= f < r@.len() && 0 <= j < spectrum_len ==> 0 <= #[trigger] r@[f]@[j] <= SCALE,
        forall|f: int|
            0 <= f < r@.len() && bin_points@[f + 1] < bin_points@[f + 2] ==> r@[f]@[bin_points@[f
                + 1] as int] == SCALE,
        forall|f: int, j: int|
            0 <= f < r@.len() && 0 <= j < spectrum_len && (j < bin_points@[f] || j >= bin_points@[f
                + 2]) ==> #[trigger] r@[f]@[j] == 0,
{
    let num_filters = bin_points.len() - 2;
    let mut bank: Vec<Vec<i64>> = Vec::new();
    let mut f: usize = 0;
    while f < num_filters
        invariant
            0 <= f <= num_filters,
            num_filters == bin_points@.len() - 2,
            bin_points@.len() <= usize::MAX,
            spectrum_len <= MAX_SPECTRUM,
            forall|p: int, q: int|
                0 <= p <= q < bin_points@.len() ==> #[trigger] bin_points@[p]
                    <= #[trigger] bin_points@[q],
            forall|p: int| 0 <= p < bin_points@.len() ==> #[trigger] bin_points@[p]
                <= spectrum_len,
            bank@.len() == f,
            forall|p: int| 0 <= p < f ==> (#[trigger] bank@[p]@).len() == spectrum_len,
            forall|p: int, j: int|
                0 <= p < f && 0 <= j < spectrum_len ==> #[trigger] bank@[p]@[j] == spec_filter_at(
                    bin_points@[p] as int,
                    bin_points@[p + 1] as int,
                    bin_points@[p + 2] as int,
                    j,
                ),
            forall|p: int, j: int|
                0 <= p < f && 0 <= j < spectrum_len ==> 0 <= #[trigger] bank@[p]@[j] <= SCALE,
        decreases num_filters - f,
    {
        let s = bin_points[f];
        let c = bin_points[f + 1];
        let e = bin_points[f + 2];
        assert(s <= c && c <= e);
        let mut filter: Vec<i64> = Vec::new();
        let mut j: usize = 0;
        while j < spectrum_len
            invariant
                0 <= j <= spectrum_len,
                spectrum_len <= MAX_SPECTRUM,
                s <= c <= e <= spectrum_len,
                filter@.len() == j,
                forall|q: int|
                    0 <= q < j ==> #[trigger] filter@[q] == spec_filter_at(
                        s as int,
                        c as int,
                        e as int,
                        q,
                    ),
                forall|q: int| 0 <= q < j ==> 0 <= #[trigger] filter@[q] <= SCALE,
            decreases spectrum_len - j,
        {
            let w: i64 = if s <= j && j < c {
                let q = (10_000 * (j - s)) / (c - s);
                proof {
                    vstd::arithmetic::div_mod::lemma_div_is_ordered(
                        10_000 * ((j - s) as int),
                        10_000 * ((c - s) as int),
                        (c - s) as int,
                    );
                    vstd::arithmetic::div_mod::lemma_div_multiples_vanish(
                        10_000int,
                        (c - s) as int,
                    );
                    assert(10_000 * ((j - s) as int) <= 10_000 * ((c - s) as int))
                        by (nonlinear_arith)
                        requires
                            (j - s) as int <= (c - s) as int,
                    ;
                }
                assert(q <= 10_000);
                q as i64
            } else if c <= j && j < e {
                let q = (10_000 * (j - c)) / (e - c);
                proof {
                    vstd::arithmetic::div_mod::lemma_div_is_ordered(
                        10_000 * ((j - c) as int),
                        10_000 * ((e - c) as int),
                        (e - c) as int,
                    );
                    vstd::arithmetic::div_mod::lemma_div_multiples_vanish(
                        10_000int,
                        (e - c) as int,
                    );
                    assert(10_000 * ((j - c) as int) <= 10_000 * ((e - c) as int))
                        by (nonlinear_arith)
                        requires
                            (j - c) as int <= (e - c) as int,
                    ;
                }
                assert(q <= 10_000);
                (10_000 - q) as i64
            } else {
                0
            };
            filter.push(w);
            j += 1;
        }
        bank.push(filter);
        f += 1;
    }
    bank
}

/// Cap on the magnitude of a power-spectrum value.
pub const POWER_LIMIT: i64 = 1_000_000_000;

/// Applies a filter bank to a one-sided power spectrum: mel energy `i`
/// is the inner product of the spectrum with filter `i`.  A filter
/// whose length disagrees with the spectrum's is reported explicitly,
/// never allowed to abort the process.
pub fn apply_filter_bank(power: &Vec<i64>, filters: &Vec<Vec<i64>>) -> (r: Result<
    Vec<i64>,
    AlignError,
>)
    requires
        power@.len() <= MAX_SPECTRUM,
        forall|t: int| 0 <= t < power@.len() ==> 0 <= #[trigger] power@[t] <= POWER_LIMIT,
        forall|i: int, t: int|
            0 <= i < filters@.len() && 0 <= t < filters@[i]@.len() ==> 0
                <= #[trigger] filters@[i]@[t] <= SCALE,
    ensures
        r is Ok <==> forall|i: int|
            0 <= i < filters@.len() ==> (#[trigger] filters@[i]@).len() == power@.len(),
        r matches Ok(energies) ==> {
            &&& energies@.len() == filters@.len()
            &&& forall|i: int|
                0 <= i < energies@.len() ==> #[trigger] energies@[i] == spec_dot(
                    power@,
                    filters@[i]@,
                )
        },
        r is Err ==> r == Result::<Vec<i64>, AlignError>::Err(AlignError::ShapeMismatch),
{
    let len = power.len();
    let mut energies: Vec<i64> = Vec::new();
    let mut i: usize = 0;
    while i < filters.len()
        invariant
            0 <= i <= filters@.len(),
            len == power@.len() <= MAX_SPECTRUM,
            forall|t: int| 0 <= t < power@.len() ==> 0 <= #[trigger] power@[t] <= POWER_LIMIT,
            forall|p: int, t: int|
                0 <= p < filters@.len() && 0 <= t < filters@[p]@.len() ==> 0
                    <= #[trigger] filters@[p]@[t] <= SCALE,
            forall|p: int| 0 <= p < i ==> (#[trigger] filters@[p]@).len() == power@.len(),
            energies@.len() == i,
            forall|p: int|
                0 <= p < i ==> #[trigger] energies@[p] == spec_dot(power@, filters@[p]@),
        decreases filters@.len() - i,
    {
        let filter = &filters[i];
        if filter.len() != len {
            return Err(AlignError::ShapeMismatch);
        }
        proof {
            assert((len as int) * (POWER_LIMIT * SCALE) <= 4_000_000_000_000_000_000)
                by (nonlinear_arith)
                requires
                    len as int <= MAX_SPECTRUM,
            ;
        }
        let e = crate::fixed::dot_bounded(power, filter, POWER_LIMIT, SCALE);
        energies.push(e);
        i += 1;
    }
    Ok(energies)
}

} // verus!
