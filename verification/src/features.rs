//! Feature matrices: per-frame coefficient vectors stacked as columns.

use vstd::prelude::*;

use crate::errors::AlignError;
use crate::fixed::{trunc_div, FEAT_LIMIT, MAX_COEFFS, SCALE};

verus! {

/// A raw coefficient divided down by one fixed-point unit and clamped
/// into the feature range.
pub open spec fn spec_rescaled(v: int) -> int {
    let w = trunc_div(v, SCALE as int);
    if w < -FEAT_LIMIT {
        -FEAT_LIMIT as int
    } else if w > FEAT_LIMIT {
        FEAT_LIMIT as int
    } else {
        w
    }
}

/// Rescales one frame's raw cosine-transform coefficients (which carry
/// a squared fixed-point scale) into the bounded feature range that
/// `FeatureMatrix` columns hold.
pub fn rescale_coefficients(raw: &Vec<i64>) -> (r: Vec<i64>)
    ensures
        r@.len() == raw@.len(),
        forall|t: int| 0 <= t < r@.len() ==> #[trigger] r@[t] == spec_rescaled(raw@[t] as int),
        forall|t: int| 0 <= t < r@.len() ==> -FEAT_LIMIT <= #[trigger] r@[t] <= FEAT_LIMIT,
{
    let mut out: Vec<i64> = Vec::new();
    let mut t: usize = 0;
    while t < raw.len()
        invariant
            0 <= t <= raw@.len(),
            out@.len() == t,
            forall|p: int|
                0 <= p < t ==> #[trigger] out@[p] == spec_rescaled(raw@[p] as int),
            forall|p: int| 0 <= p < t ==> -FEAT_LIMIT <= #[trigger] out@[p] <= FEAT_LIMIT,
        decreases raw@.len() - t,
    {
        let v = raw[t];
        let w: i64 = if v == i64::MIN {
            proof {
                assert(trunc_div(i64::MIN as int, SCALE as int) == -((-(i64::MIN as int))
                    / (SCALE as int)));
                assert((-(i64::MIN as int)) / (SCALE as int) > FEAT_LIMIT);
            }
            -FEAT_LIMIT
        } else {
            let q = v / SCALE;
            if q < -FEAT_LIMIT {
                -FEAT_LIMIT
            } else if q > FEAT_LIMIT {
                FEAT_LIMIT
            } else {
                q
            }
        };
        out.push(w);
        t += 1;
    }
    out
}

/// An owned, read-only-after-construction matrix of shape
/// coefficients (rows) x frames (columns), stored column by column.
/// Entries are fixed-point feature values bounded by `FEAT_LIMIT`.
pub struct FeatureMatrix {
    rows: usize,
    cols: Vec<Vec<i64>>,
}

impl FeatureMatrix {
    /// The coefficient dimension.
    pub closed spec fn spec_rows(self) -> int {
        self.rows as int
    }

    /// The number of frames.
    pub closed spec fn spec_cols(self) -> int {
        self.cols@.len() as int
    }

    /// Column `i` as a sequence of fixed-point values.
    pub closed spec fn col(self, i: int) -> Seq<i64> {
        self.cols@[i]@
    }

    /// Well-formedness: every column has the coefficient dimension as its
    /// length, and every entry is bounded by `FEAT_LIMIT`.
    pub open spec fn wf(self) -> bool {
        &&& 1 <= self.spec_rows() <= MAX_COEFFS
        &&& forall|i: int|
            0 <= i < self.spec_cols() ==> (#[trigger] self.col(i)).len() == self.spec_rows()
        &&& forall|i: int, k: int|
            0 <= i < self.spec_cols() && 0 <= k < self.spec_rows() ==> -FEAT_LIMIT
                <= #[trigger] self.col(i)[k] <= FEAT_LIMIT
    }

    /// Builds a matrix from per-frame coefficient vectors, one column per
    /// frame.  Fails when a column's length disagrees with the declared
    /// coefficient dimension, when that dimension is zero or above
    /// `MAX_COEFFS`, or when an entry exceeds `FEAT_LIMIT` in magnitude.
    pub fn from_columns(rows: usize, cols: Vec<Vec<i64>>) -> (r: Result<FeatureMatrix, AlignError>)
        ensures
            r is Ok <==> {
                &&& 1 <= rows <= MAX_COEFFS
                &&& forall|i: int|
                    0 <= i < cols@.len() ==> (#[trigger] cols@[i]@).len() == rows
                &&& forall|i: int, k: int|
                    0 <= i < cols@.len() && 0 <= k < rows ==> -FEAT_LIMIT
                        <= #[trigger] cols@[i]@[k] <= FEAT_LIMIT
            },
            r matches Ok(fm) ==> {
                &&& fm.wf()
                &&& fm.spec_rows() == rows
                &&& fm.spec_cols() == cols@.len()
                &&& forall|i: int| 0 <= i < cols@.len() ==> #[trigger] fm.col(i) == cols@[i]@
            },
            r is Err ==> r == Result::<FeatureMatrix, AlignError>::Err(AlignError::ShapeMismatch),
    {
        if rows < 1 || rows > MAX_COEFFS {
            return Err(AlignError::ShapeMismatch);
        }
        let mut i: usize = 0;
        while i < cols.len()
            invariant
                0 <= i <= cols@.len(),
                forall|p: int| 0 <= p < i ==> (#[trigger] cols@[p]@).len() == rows,
                forall|p: int, k: int|
                    0 <= p < i && 0 <= k < rows ==> -FEAT_LIMIT <= #[trigger] cols@[p]@[k]
                        <= FEAT_LIMIT,
            decreases cols@.len() - i,
        {
            if cols[i].len() != rows {
                return Err(AlignError::ShapeMismatch);
            }
            let mut k: usize = 0;
            while k < rows
                invariant
                    0 <= k <= rows,
                    i < cols@.len(),
                    cols@[i as int]@.len() == rows,
                    forall|q: int| 0 <= q < k ==> -FEAT_LIMIT <= #[trigger] cols@[i as int]@[q]
                        <= FEAT_LIMIT,
                decreases rows - k,
            {
                let v = cols[i][k];
                if v < -FEAT_LIMIT || v > FEAT_LIMIT {
                    return Err(AlignError::ShapeMismatch);
                }
                k += 1;
            }
            i += 1;
        }
        Ok(FeatureMatrix { rows, cols })
    }

    /// The coefficient dimension.
    pub fn num_rows(&self) -> (r: usize)
        ensures
            r == self.spec_rows(),
    {
        self.rows
    }

    /// The number of frames.
    pub fn num_cols(&self) -> (r: usize)
        ensures
            r == self.spec_cols(),
    {
        self.cols.len()
    }

    /// Column `i` of the matrix.
    pub fn column(&self, i: usize) -> (r: &Vec<i64>)
        requires
            0 <= i < self.spec_cols(),
        ensures
            r@ == self.col(i as int),
    {
        &self.cols[i]
    }
}

} // verus!
