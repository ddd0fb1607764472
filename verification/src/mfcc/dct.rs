//! Application of a discrete cosine transform given its basis matrix.
//!
//! The basis rows (one per output coefficient, with entries in fixed
//! point, bounded by `SCALE`) are supplied by the caller; this kernel
//! forms the inner products.  Because the products are returned unscaled,
//! a flat input vector maps to exactly the input value times each basis
//! row's sum.

use vstd::prelude::*;

use crate::errors::AlignError;
use crate::fixed::{spec_dot, spec_sum, sum_prefix, dot_prefix, SCALE};

verus! {

/// Cap on the number of mel filters, and so on the length of a
/// log-energy vector.
pub const MAX_FILTERS: usize = 4096;

/// Cap on the magnitude of a log-compressed mel energy.
pub const MEL_LOG_LIMIT: i64 = 1_000_000_000;

/// Applies the transform: coefficient `i` is the inner product of the
/// input with basis row `i`.  Fails when some basis row's length
/// disagrees with the input's length.
pub fn dct(mel_spectrum: &Vec<i64>, basis: &Vec<Vec<i64>>) -> (r: Result<Vec<i64>, AlignError>)
    requires
        mel_spectrum@.len() <= MAX_FILTERS,
        forall|t: int|
            0 <= t < mel_spectrum@.len() ==> -MEL_LOG_LIMIT <= #[trigger] mel_spectrum@[t]
                <= MEL_LOG_LIMIT,
        forall|i: int, t: int|
            0 <= i < basis@.len() && 0 <= t < basis@[i]@.len() ==> -SCALE <= #[trigger] basis@[i]@[t]
                <= SCALE,
    ensures
        r is Ok <==> forall|i: int|
            0 <= i < basis@.len() ==> (#[trigger] basis@[i]@).len() == mel_spectrum@.len(),
        r matches Ok(c) ==> {
            &&& c@.len() == basis@.len()
            &&& forall|i: int|
                0 <= i < c@.len() ==> #[trigger] c@[i] == spec_dot(mel_spectrum@, basis@[i]@)
        },
        r is Err ==> r == Result::<Vec<i64>, AlignError>::Err(AlignError::ShapeMismatch),
{
    let len = mel_spectrum.len();
    let mut result: Vec<i64> = Vec::new();
    let mut i: usize = 0;
    while i < basis.len()
        invariant
            0 <= i <= basis@.len(),
            len == mel_spectrum@.len() <= MAX_FILTERS,
            forall|t: int|
                0 <= t < mel_spectrum@.len() ==> -MEL_LOG_LIMIT <= #[trigger] mel_spectrum@[t]
                    <= MEL_LOG_LIMIT,
            forall|p: int, t: int|
                0 <= p < basis@.len() && 0 <= t < basis@[p]@.len() ==> -SCALE
                    <= #[trigger] basis@[p]@[t] <= SCALE,
            forall|p: int| 0 <= p < i ==> (#[trigger] basis@[p]@).len() == mel_spectrum@.len(),
            result@.len() == i,
            forall|p: int|
                0 <= p < i ==> #[trigger] result@[p] == spec_dot(mel_spectrum@, basis@[p]@),
        decreases basis@.len() - i,
    {
        let row = &basis[i];
        if row.len() != len {
            return Err(AlignError::ShapeMismatch);
        }
        proof {
            assert((len as int) * (MEL_LOG_LIMIT * SCALE) <= 4_000_000_000_000_000_000)
                by (nonlinear_arith)
                requires
                    len as int <= MAX_FILTERS,
            ;
        }
        let c = crate::fixed::dot_bounded(mel_spectrum, row, MEL_LOG_LIMIT, SCALE);
        result.push(c);
        i += 1;
    }
    Ok(result)
}

/// A transform of a flat (constant) input: every coefficient is exactly
/// the constant times the sum of its basis row.  In particular, for a
/// basis whose first row is all ones (as a type-II cosine basis has),
/// coefficient zero is proportional to the sum of the input.
pub proof fn lemma_dct_flat(mel: Seq<i64>, row: Seq<i64>, v: i64)
    requires
        row.len() == mel.len(),
        forall|t: int| 0 <= t < mel.len() ==> #[trigger] mel[t] == v,
    ensures
        spec_dot(mel, row) == v * spec_sum(row),
{
    lemma_dct_flat_prefix(mel, row, v, mel.len() as int);
}

proof fn lemma_dct_flat_prefix(mel: Seq<i64>, row: Seq<i64>, v: i64, k: int)
    requires
        row.len() == mel.len(),
        k <= mel.len(),
        forall|t: int| 0 <= t < mel.len() ==> #[trigger] mel[t] == v,
    ensures
        dot_prefix(mel, row, k) == v * sum_prefix(row, k),
    decreases k,
{
    if k <= 0 {
        assert(v * sum_prefix(row, k) == 0) by (nonlinear_arith)
            requires
                sum_prefix(row, k) == 0,
        ;
    } else {
        lemma_dct_flat_prefix(mel, row, v, k - 1);
        assert(v * sum_prefix(row, k) == v * sum_prefix(row, k - 1) + v * row[k - 1])
            by (nonlinear_arith)
            requires
                sum_prefix(row, k) == sum_prefix(row, k - 1) + row[k - 1],
        ;
    }
}

} // verus!
