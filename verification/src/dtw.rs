//! Banded dynamic time warping between two feature matrices.
//!
//! The band descriptor maps every row (frame of the first source) to a
//! left edge on the second source's frame axis; costs are cosine
//! distances restricted to that band; a forward dynamic-programming pass
//! turns them into accumulated minimal costs in place, and a backtracking
//! pass reconstructs the optimal alignment path.

use vstd::prelude::*;

use crate::errors::AlignError;
use crate::features::FeatureMatrix;
use crate::fixed::{
    dot_bounded, is_isqrt, isqrt, lemma_isqrt_unique, lemma_self_dot_nonneg, spec_argmin3,
    spec_dot, spec_isqrt, spec_min3, trunc_div, FEAT_LIMIT, INF_COST, MAX_COEFFS, MAX_COST, SCALE,
};

verus! {

/// One cell of an alignment path: global frame indices into the first
/// and the second source.
#[derive(Debug, Clone, Copy, PartialEq, Eq, Structural)]
pub struct PathCell {
    pub i: usize,
    pub j: usize,
}

/// Move code: to the previous row, same global column.
pub const MOVE0: usize = 0;

/// Move code: same row, previous global column.
pub const MOVE1: usize = 1;

/// Move code: to the previous row and the previous global column.
pub const MOVE2: usize = 2;

/// The difference `center_j - half_delta`, floored at zero.
pub fn _nonnegative_difference(center_j: usize, half_delta: usize) -> (r: usize)
    ensures
        r == if center_j >= half_delta {
            center_j - half_delta
        } else {
            0
        },
{
    if center_j >= half_delta {
        center_j - half_delta
    } else {
        0
    }
}

/// Minimum of three costs; `INF_COST` marks an absent candidate.
pub fn _three_way_min(cost0: i64, cost1: i64, cost2: i64) -> (r: i64)
    ensures
        r == spec_min3(cost0 as int, cost1 as int, cost2 as int),
{
    if cost0 <= cost1 && cost0 <= cost2 {
        cost0
    } else if cost1 <= cost2 {
        cost1
    } else {
        cost2
    }
}

/// Arg-minimum of three costs with the tie-break priority
/// `MOVE0` over `MOVE1` over `MOVE2`.
pub fn _three_way_argmin(cost0: i64, cost1: i64, cost2: i64) -> (r: usize)
    ensures
        r == spec_argmin3(cost0 as int, cost1 as int, cost2 as int),
{
    if cost0 <= cost1 && cost0 <= cost2 {
        MOVE0
    } else if cost1 <= cost2 {
        MOVE1
    } else {
        MOVE2
    }
}

/// The L2 norm of each column, rounded down to an integer.
pub open spec fn spec_norm(f: FeatureMatrix, i: int) -> int {
    spec_isqrt(spec_dot(f.col(i), f.col(i)))
}

/// Column norms of a feature matrix: the integer square root of each
/// column's dot product with itself.
pub fn _compute_norm2(mfcc: &FeatureMatrix) -> (r: Vec<i64>)
    requires
        mfcc.wf(),
    ensures
        r@.len() == mfcc.spec_cols(),
        forall|i: int| 0 <= i < r@.len() ==> #[trigger] r@[i] == spec_norm(*mfcc, i),
        forall|i: int| 0 <= i < r@.len() ==> 0 <= #[trigger] r@[i] <= 1_600_000_000,
{
    let n = mfcc.num_cols();
    let mut norms: Vec<i64> = Vec::new();
    let mut i: usize = 0;
    while i < n
        invariant
            0 <= i <= n,
            mfcc.wf(),
            n == mfcc.spec_cols(),
            norms@.len() == i,
            forall|p: int| 0 <= p < i ==> #[trigger] norms@[p] == spec_norm(*mfcc, p),
            forall|p: int| 0 <= p < i ==> 0 <= #[trigger] norms@[p] <= 1_600_000_000,
        decreases n - i,
    {
        let col = mfcc.column(i);
        proof {
            assert((col@.len() as int) * (FEAT_LIMIT * FEAT_LIMIT) <= 2_304_000_000_000_000_000)
                by (nonlinear_arith)
                requires
                    col@.len() <= MAX_COEFFS,
            ;
        }
        let d = dot_bounded(col, col, FEAT_LIMIT, FEAT_LIMIT);
        proof {
            lemma_self_dot_nonneg(col@);
        }
        let s = isqrt(d);
        proof {
            assert(1_600_000_000i64 * 1_600_000_000i64 >= d) by (nonlinear_arith)
                requires
                    d <= 2_500_000_000_000_000_000i64,
            ;
            assert(s <= 1_600_000_000) by (nonlinear_arith)
                requires
                    is_isqrt(d as int, s as int),
                    1_600_000_000i64 * 1_600_000_000i64 >= d,
            ;
        }
        norms.push(s);
        i += 1;
    }
    norms
}

/// The center of the band in row `i`: the second source's frame at the
/// same relative progress, `floor(m * i / n)`.
pub open spec fn spec_center(m: int, n: int, i: int) -> int {
    m * i / n
}

/// The left edge of the band in row `i`: the center pulled back by half
/// the band width, floored at zero.
pub open spec fn spec_left_edge(m: int, n: int, delta: int, i: int) -> int {
    let c = spec_center(m, n, i);
    let h = delta / 2;
    if c >= h {
        c - h
    } else {
        0
    }
}

/// Left edges are non-decreasing in the row index.
pub proof fn lemma_left_edge_monotone(m: int, n: int, delta: int, i1: int, i2: int)
    requires
        n >= 1,
        m >= 0,
        delta >= 0,
        0 <= i1 <= i2,
    ensures
        spec_left_edge(m, n, delta, i1) <= spec_left_edge(m, n, delta, i2),
{
    assert(m * i1 <= m * i2) by (nonlinear_arith)
        requires
            m >= 0,
            i1 <= i2,
    ;
    vstd::arithmetic::div_mod::lemma_div_is_ordered(m * i1, m * i2, n);
}

/// Left edges stay strictly below `m`, so every row of the band holds at
/// least one real column.
pub proof fn lemma_left_edge_below(m: int, n: int, delta: int, i: int)
    requires
        n >= 1,
        m >= 1,
        delta >= 0,
        0 <= i < n,
    ensures
        0 <= spec_left_edge(m, n, delta, i) <= m - 1,
{
    assert(m * i <= (m - 1) * n + (n - 1)) by (nonlinear_arith)
        requires
            0 <= i <= n - 1,
            m >= 1,
            n >= 1,
    ;
    vstd::arithmetic::div_mod::lemma_div_is_ordered(m * i, (m - 1) * n + (n - 1), n);
    vstd::arithmetic::div_mod::lemma_fundamental_div_mod_converse((m - 1) * n + (n - 1), n, m - 1, n - 1);
    assert(m * i >= 0) by (nonlinear_arith)
        requires
            m >= 0,
            i >= 0,
    ;
    vstd::arithmetic::div_mod::lemma_div_pos_is_pos(m * i, n);
}

/// A cost clamped into the valid range of cosine distances.
pub open spec fn clamp_cost(c: int) -> int {
    if c < 0 {
        0
    } else if c > MAX_COST {
        MAX_COST as int
    } else {
        c
    }
}

/// The cost stored at row `i`, local band column `j`: one minus the
/// cosine similarity of the two frames, in fixed point, clamped into
/// `[0, MAX_COST]`.  A zero-norm (silent) frame has no direction, so its
/// cosine distance is undefined; the maximal distance is substituted.
/// Band cells past the last real column also carry the maximal distance;
/// no predecessor of a real cell ever lies there.
#[verifier::opaque]
pub open spec fn spec_cost_cell(f1: FeatureMatrix, f2: FeatureMatrix, delta: int, i: int, j: int) -> int {
    let m = f2.spec_cols();
    let gj = spec_left_edge(m, f1.spec_cols(), delta, i) + j;
    if gj < m {
        let d = spec_dot(f1.col(i), f2.col(gj));
        let n1 = spec_isqrt(spec_dot(f1.col(i), f1.col(i)));
        let n2 = spec_isqrt(spec_dot(f2.col(gj), f2.col(gj)));
        if n1 == 0 || n2 == 0 {
            MAX_COST as int
        } else {
            clamp_cost(SCALE - trunc_div(SCALE * d, n1 * n2))
        }
    } else {
        MAX_COST as int
    }
}

/// Builds the banded cost matrix of shape `(n, delta)` and the per-row
/// left edges of the band.
pub fn _compute_cost_matrix(mfcc1: &FeatureMatrix, mfcc2: &FeatureMatrix, delta: usize) -> (r: (
    Vec<Vec<i64>>,
    Vec<usize>,
))
    requires
        mfcc1.wf(),
        mfcc2.wf(),
        mfcc1.spec_rows() == mfcc2.spec_rows(),
        mfcc1.spec_cols() >= 1,
        mfcc2.spec_cols() >= 1,
        1 <= delta <= mfcc2.spec_cols(),
        mfcc1.spec_cols() * mfcc2.spec_cols() <= usize::MAX,
        2 * mfcc2.spec_cols() <= usize::MAX,
    ensures
        r.0@.len() == mfcc1.spec_cols(),
        forall|i: int| 0 <= i < r.0@.len() ==> (#[trigger] r.0@[i]@).len() == delta,
        forall|i: int, j: int|
            0 <= i < r.0@.len() && 0 <= j < delta ==> #[trigger] r.0@[i]@[j] == spec_cost_cell(
                *mfcc1,
                *mfcc2,
                delta as int,
                i,
                j,
            ),
        forall|i: int, j: int|
            0 <= i < r.0@.len() && 0 <= j < delta ==> 0 <= #[trigger] r.0@[i]@[j] <= MAX_COST,
        r.1@.len() == mfcc1.spec_cols(),
        forall|i: int|
            0 <= i < r.1@.len() ==> #[trigger] r.1@[i] == spec_left_edge(
                mfcc2.spec_cols(),
                mfcc1.spec_cols(),
                delta as int,
                i,
            ),
        forall|i: int| 0 <= i < r.1@.len() ==> #[trigger] r.1@[i] <= mfcc2.spec_cols() - 1,
        forall|i: int, p: int| 0 <= i <= p < r.1@.len() ==> #[trigger] r.1@[i] <= #[trigger] r.1@[p],
    {
    let n = mfcc1.num_cols();
    let m = mfcc2.num_cols();
    let norm1 = _compute_norm2(mfcc1);
    let norm2 = _compute_norm2(mfcc2);
    let half = delta / 2;
    let mut cost: Vec<Vec<i64>> = Vec::new();
    let mut left_edges: Vec<usize> = Vec::new();
    let mut i: usize = 0;
    while i < n
        invariant
            0 <= i <= n,
            mfcc1.wf(),
            mfcc2.wf(),
            mfcc1.spec_rows() == mfcc2.spec_rows(),
            n == mfcc1.spec_cols() >= 1,
            m == mfcc2.spec_cols() >= 1,
            1 <= delta <= m,
            half == delta / 2,
            n * m <= usize::MAX,
            2 * m <= usize::MAX,
            norm1@.len() == n,
            norm2@.len() == m,
            forall|p: int| 0 <= p < n ==> #[trigger] norm1@[p] == spec_norm(*mfcc1, p),
            forall|p: int| 0 <= p < m ==> #[trigger] norm2@[p] == spec_norm(*mfcc2, p),
            forall|p: int| 0 <= p < n ==> 0 <= #[trigger] norm1@[p] <= 1_600_000_000,
            forall|p: int| 0 <= p < m ==> 0 <= #[trigger] norm2@[p] <= 1_600_000_000,
            cost@.len() == i,
            forall|p: int| 0 <= p < i ==> (#[trigger] cost@[p]@).len() == delta,
            forall|p: int, j: int|
                0 <= p < i && 0 <= j < delta ==> #[trigger] cost@[p]@[j] == spec_cost_cell(
                    *mfcc1,
                    *mfcc2,
                    delta as int,
                    p,
                    j,
                ),
            forall|p: int, j: int|
                0 <= p < i && 0 <= j < delta ==> 0 <= #[trigger] cost@[p]@[j] <= MAX_COST,
            left_edges@.len() == i,
            forall|p: int|
                0 <= p < i ==> #[trigger] left_edges@[p] == spec_left_edge(
                    m as int,
                    n as int,
                    delta as int,
                    p,
                ),
            forall|p: int| 0 <= p < i ==> #[trigger] left_edges@[p] <= m - 1,
        decreases n - i,
    {
        proof {
            assert(m * i <= m * n && m * i >= 0) by (nonlinear_arith)
                requires
                    0 <= i <= n,
                    m >= 0,
            ;
            assert(m * n == n * m) by (nonlinear_arith);
        }
        let center = (m * i) / n;
        let left = _nonnegative_difference(center, half);
        proof {
            lemma_left_edge_below(m as int, n as int, delta as int, i as int);
        }
        let mut row: Vec<i64> = Vec::new();
        let mut j: usize = 0;
        while j < delta
            invariant
                0 <= j <= delta,
                mfcc1.wf(),
                mfcc2.wf(),
                mfcc1.spec_rows() == mfcc2.spec_rows(),
                i < n,
                n == mfcc1.spec_cols(),
                m == mfcc2.spec_cols() >= 1,
                1 <= delta <= m,
                2 * m <= usize::MAX,
                left == spec_left_edge(m as int, n as int, delta as int, i as int),
                left <= m - 1,
                norm1@.len() == n,
                norm2@.len() == m,
                forall|p: int| 0 <= p < n ==> #[trigger] norm1@[p] == spec_norm(*mfcc1, p),
                forall|p: int| 0 <= p < m ==> #[trigger] norm2@[p] == spec_norm(*mfcc2, p),
                forall|p: int| 0 <= p < n ==> 0 <= #[trigger] norm1@[p] <= 1_600_000_000,
                forall|p: int| 0 <= p < m ==> 0 <= #[trigger] norm2@[p] <= 1_600_000_000,
                row@.len() == j,
                forall|q: int|
                    0 <= q < j ==> #[trigger] row@[q] == spec_cost_cell(
                        *mfcc1,
                        *mfcc2,
                        delta as int,
                        i as int,
                        q,
                    ),
                forall|q: int| 0 <= q < j ==> 0 <= #[trigger] row@[q] <= MAX_COST,
            decreases delta - j,
        {
            let gj = left + j;
            let c: i64 = if gj < m {
                let n1 = norm1[i];
                let n2 = norm2[gj];
                if n1 == 0 || n2 == 0 {
                    MAX_COST
                } else {
                    proof {
                        assert((mfcc1.col(i as int).len() as int) * (FEAT_LIMIT * FEAT_LIMIT)
                            <= 2_304_000_000_000_000_000) by (nonlinear_arith)
                            requires
                                mfcc1.col(i as int).len() <= MAX_COEFFS,
                        ;
                    }
                    let d = dot_bounded(mfcc1.column(i), mfcc2.column(gj), FEAT_LIMIT, FEAT_LIMIT);
                    let numer: i128 = (d as i128) * (SCALE as i128);
                    proof {
                        assert(1 <= (n1 as int) * (n2 as int) <= 2_560_000_000_000_000_000)
                            by (nonlinear_arith)
                            requires
                                1 <= n1 <= 1_600_000_000,
                                1 <= n2 <= 1_600_000_000,
                        ;
                    }
                    let denom: i128 = (n1 as i128) * (n2 as i128);
                    let ratio: i128 = numer / denom;
                    let raw: i128 = (SCALE as i128) - ratio;
                    let clamped: i64 = if raw < 0 {
                        0
                    } else if raw > (MAX_COST as i128) {
                        MAX_COST
                    } else {
                        raw as i64
                    };
                    clamped
                }
            } else {
                MAX_COST
            };
            proof {
                reveal(spec_cost_cell);
            }
            assert(c == spec_cost_cell(*mfcc1, *mfcc2, delta as int, i as int, j as int));
            row.push(c);
            j += 1;
        }
        cost.push(row);
        left_edges.push(left);
        i += 1;
    }
    proof {
        assert forall|p: int, q: int| 0 <= p <= q < left_edges@.len() implies left_edges@[p]
            <= left_edges@[q] by {
            lemma_left_edge_monotone(m as int, n as int, delta as int, p, q);
        }
    }
    (cost, left_edges)
}

/// The rows of an owned matrix as a sequence of sequences.
pub open spec fn rows_view(m: Seq<Vec<i64>>) -> Seq<Seq<i64>> {
    Seq::new(m.len(), |i: int| m[i]@)
}

/// The accumulated minimal cost at row `i`, local band column `j`, for
/// the original cost matrix `c` and the band's left edges.  Row zero is
/// a prefix sum (only a leftward predecessor exists); later rows add the
/// cheapest of the three predecessors, where a predecessor whose
/// translated local column falls outside `[0, delta)` counts as
/// `INF_COST`.
#[verifier::opaque]
pub open spec fn spec_acc(c: Seq<Seq<i64>>, edges: Seq<usize>, delta: int, i: int, j: int) -> int
    decreases i, j,
{
    if i <= 0 {
        if j <= 0 {
            c[0][0] as int
        } else {
            spec_acc(c, edges, delta, i, j - 1) + c[0][j]
        }
    } else {
        let off = edges[i] - edges[i - 1];
        let up = if j + off < delta {
            spec_acc(c, edges, delta, i - 1, j + off)
        } else {
            INF_COST as int
        };
        let left = if j >= 1 {
            spec_acc(c, edges, delta, i, j - 1)
        } else {
            INF_COST as int
        };
        let diag = if 1 <= j + off && j + off <= delta {
            spec_acc(c, edges, delta, i - 1, j + off - 1)
        } else {
            INF_COST as int
        };
        c[i][j] + spec_min3(up, left, diag)
    }
}

/// Shape and range conditions under which the accumulation is defined:
/// a non-empty rectangular matrix of clamped costs, and left edges that
/// are non-decreasing with gaps of at most the band width.
pub open spec fn acc_input_wf(c: Seq<Seq<i64>>, edges: Seq<usize>, delta: int) -> bool {
    &&& delta >= 1
    &&& c.len() >= 1
    &&& edges.len() == c.len()
    &&& forall|p: int| 0 <= p < c.len() ==> (#[trigger] c[p]).len() == delta
    &&& forall|p: int, q: int|
        0 <= p < c.len() && 0 <= q < delta ==> 0 <= #[trigger] c[p][q] <= MAX_COST
    &&& forall|p: int, q: int|
        1 <= p < c.len() && q == p - 1 ==> #[trigger] edges[q] <= #[trigger] edges[p] && edges[p]
            <= edges[q] + delta
}

/// Every accumulated cost is non-negative and bounded by the number of
/// cells times the maximal cost, so the band-exterior marker is never
/// stored and no finite sum can reach it.
pub proof fn lemma_acc_bound(c: Seq<Seq<i64>>, edges: Seq<usize>, delta: int, i: int, j: int)
    requires
        acc_input_wf(c, edges, delta),
        0 <= i < c.len(),
        0 <= j < delta,
    ensures
        0 <= spec_acc(c, edges, delta, i, j) <= (i * delta + j + 1) * MAX_COST,
    decreases i, j,
{
    reveal(spec_acc);
    if i == 0 {
        if j == 0 {
            assert(spec_acc(c, edges, delta, 0, 0) == c[0][0]);
            assert((0 * delta + 0 + 1) * MAX_COST == MAX_COST) by (nonlinear_arith);
        } else {
            lemma_acc_bound(c, edges, delta, 0, j - 1);
            assert((j + 1) * MAX_COST == j * MAX_COST + MAX_COST) by (nonlinear_arith);
        }
    } else {
        let off = edges[i] - edges[i - 1];
        assert(0 <= off <= delta);
        let up = if j + off < delta {
            spec_acc(c, edges, delta, i - 1, j + off)
        } else {
            INF_COST as int
        };
        let left = if j >= 1 {
            spec_acc(c, edges, delta, i, j - 1)
        } else {
            INF_COST as int
        };
        let diag = if 1 <= j + off && j + off <= delta {
            spec_acc(c, edges, delta, i - 1, j + off - 1)
        } else {
            INF_COST as int
        };
        if j + off < delta {
            lemma_acc_bound(c, edges, delta, i - 1, j + off);
        }
        if j >= 1 {
            lemma_acc_bound(c, edges, delta, i, j - 1);
        }
        if 1 <= j + off && j + off <= delta {
            lemma_acc_bound(c, edges, delta, i - 1, j + off - 1);
        }
        assert(up >= 0 && left >= 0 && diag >= 0);
        let m3 = spec_min3(up, left, diag);
        assert(m3 >= 0);
        if j >= 1 {
            assert(left <= ((i * delta + j) * MAX_COST));
            assert(m3 <= left);
            assert((i * delta + j) * MAX_COST + MAX_COST == (i * delta + j + 1) * MAX_COST)
                by (nonlinear_arith);
        } else if off < delta {
            assert(up == spec_acc(c, edges, delta, i - 1, off));
            assert(up <= ((i - 1) * delta + off + 1) * MAX_COST);
            assert(m3 <= up);
            assert(((i - 1) * delta + off + 1) * MAX_COST + MAX_COST <= (i * delta + 0 + 1)
                * MAX_COST) by (nonlinear_arith)
                requires
                    off <= delta - 1,
            ;
        } else {
            assert(off == delta);
            assert(diag == spec_acc(c, edges, delta, i - 1, delta - 1));
            assert(diag <= ((i - 1) * delta + delta) * MAX_COST);
            assert(m3 <= diag);
            assert(((i - 1) * delta + delta) * MAX_COST + MAX_COST <= (i * delta + 0 + 1)
                * MAX_COST) by (nonlinear_arith);
        }
    }
}

/// The forward dynamic-programming pass: overwrites the banded cost
/// matrix, in place and row by row, with accumulated minimal costs, as
/// `spec_acc` states them over the original costs.
pub fn _compute_accumulated_cost_matrix_in_place(
    cost_matrix: &mut Vec<Vec<i64>>,
    left_edges: &Vec<usize>,
)
    requires
        old(cost_matrix)@.len() == left_edges@.len(),
        old(cost_matrix)@.len() >= 1,
        old(cost_matrix)@[0]@.len() >= 1,
        acc_input_wf(
            rows_view(old(cost_matrix)@),
            left_edges@,
            old(cost_matrix)@[0]@.len() as int,
        ),
        (old(cost_matrix)@.len() as int) * (old(cost_matrix)@[0]@.len() as int)
            <= 400_000_000_000_000,
        2 * old(cost_matrix)@[0]@.len() <= usize::MAX,
    ensures
        final(cost_matrix)@.len() == old(cost_matrix)@.len(),
        forall|p: int|
            0 <= p < final(cost_matrix)@.len() ==> (#[trigger] final(cost_matrix)@[p]@).len()
                == old(cost_matrix)@[0]@.len(),
        forall|p: int, q: int|
            0 <= p < final(cost_matrix)@.len() && 0 <= q < old(cost_matrix)@[0]@.len()
                ==> #[trigger] final(cost_matrix)@[p]@[q] == spec_acc(
                rows_view(old(cost_matrix)@),
                left_edges@,
                old(cost_matrix)@[0]@.len() as int,
                p,
                q,
            ),
        forall|p: int, q: int|
            0 <= p < final(cost_matrix)@.len() && 0 <= q < old(cost_matrix)@[0]@.len() ==> 0
                <= #[trigger] final(cost_matrix)@[p]@[q] < INF_COST,
{
    let ghost c0 = rows_view(old(cost_matrix)@);
    let n = cost_matrix.len();
    let delta = cost_matrix[0].len();
    proof {
        assert forall|p: int| 0 <= p < n implies (#[trigger] cost_matrix@[p]@).len() == delta by {
            assert(c0[p] == cost_matrix@[p]@);
            assert(c0[0] == cost_matrix@[0]@);
        }
        assert((n as int) * (delta as int) * MAX_COST <= 8_000_000_000_000_000_000)
            by (nonlinear_arith)
            requires
                (n as int) * (delta as int) <= 400_000_000_000_000,
        ;
        reveal(spec_acc);
    }
    let mut j: usize = 1;
    while j < delta
        invariant
            1 <= j <= delta,
            n == cost_matrix@.len(),
            delta == c0[0].len(),
            c0 == rows_view(old(cost_matrix)@),
            acc_input_wf(c0, left_edges@, delta as int),
            (n as int) * (delta as int) <= 400_000_000_000_000,
            left_edges@.len() == n,
            forall|p: int| 0 <= p < n ==> (#[trigger] cost_matrix@[p]@).len() == delta,
            forall|p: int, q: int|
                1 <= p < n && 0 <= q < delta ==> #[trigger] cost_matrix@[p]@[q] == c0[p][q],
            forall|q: int|
                j <= q < delta ==> #[trigger] cost_matrix@[0]@[q] == c0[0][q],
            forall|q: int|
                0 <= q < j ==> #[trigger] cost_matrix@[0]@[q] == spec_acc(
                    c0,
                    left_edges@,
                    delta as int,
                    0,
                    q,
                ),
        decreases delta - j,
    {
        proof {
            reveal(spec_acc);
            lemma_acc_bound(c0, left_edges@, delta as int, 0, j - 1);
            lemma_acc_bound(c0, left_edges@, delta as int, 0, j as int);
            assert((0 * (delta as int) + j + 1) * MAX_COST <= (n as int) * (delta as int)
                * MAX_COST) by (nonlinear_arith)
                requires
                    j + 1 <= delta as int,
                    1 <= n as int,
                    1 <= delta as int,
            ;
        }
        let prev = cost_matrix[0][j - 1];
        let cur = cost_matrix[0][j];
        cost_matrix[0][j] = prev + cur;
        j += 1;
    }
    let mut i: usize = 1;
    while i < n
        invariant
            1 <= i <= n,
            n == cost_matrix@.len(),
            delta == c0[0].len(),
            c0 == rows_view(old(cost_matrix)@),
            acc_input_wf(c0, left_edges@, delta as int),
            (n as int) * (delta as int) <= 400_000_000_000_000,
            2 * delta <= usize::MAX,
            left_edges@.len() == n,
            forall|p: int| 0 <= p < n ==> (#[trigger] cost_matrix@[p]@).len() == delta,
            forall|p: int, q: int|
                i <= p < n && 0 <= q < delta ==> #[trigger] cost_matrix@[p]@[q] == c0[p][q],
            forall|p: int, q: int|
                0 <= p < i && 0 <= q < delta ==> #[trigger] cost_matrix@[p]@[q] == spec_acc(
                    c0,
                    left_edges@,
                    delta as int,
                    p,
                    q,
                ),
        decreases n - i,
    {
        let off = left_edges[i] - left_edges[i - 1];
        assert(0 <= off <= delta);
        let mut j: usize = 0;
        while j < delta
            invariant
                0 <= j <= delta,
                1 <= i < n,
                n == cost_matrix@.len(),
                delta == c0[0].len(),
                c0 == rows_view(old(cost_matrix)@),
                acc_input_wf(c0, left_edges@, delta as int),
                (n as int) * (delta as int) <= 400_000_000_000_000,
                2 * delta <= usize::MAX,
                left_edges@.len() == n,
                off == left_edges@[i as int] - left_edges@[i as int - 1],
                0 <= off <= delta,
                forall|p: int| 0 <= p < n ==> (#[trigger] cost_matrix@[p]@).len() == delta,
                forall|p: int, q: int|
                    i < p < n && 0 <= q < delta ==> #[trigger] cost_matrix@[p]@[q] == c0[p][q],
                forall|q: int|
                    j <= q < delta ==> #[trigger] cost_matrix@[i as int]@[q] == c0[i as int][q],
                forall|p: int, q: int|
                    0 <= p < i && 0 <= q < delta ==> #[trigger] cost_matrix@[p]@[q] == spec_acc(
                        c0,
                        left_edges@,
                        delta as int,
                        p,
                        q,
                    ),
                forall|q: int|
                    0 <= q < j ==> #[trigger] cost_matrix@[i as int]@[q] == spec_acc(
                        c0,
                        left_edges@,
                        delta as int,
                        i as int,
                        q,
                    ),
            decreases delta - j,
        {
            let c0v = if j + off < delta {
                cost_matrix[i - 1][j + off]
            } else {
                INF_COST
            };
            let c1v = if j > 0 {
                cost_matrix[i][j - 1]
            } else {
                INF_COST
            };
            let c2v = if j + off >= 1 && j + off - 1 < delta {
                cost_matrix[i - 1][j + off - 1]
            } else {
                INF_COST
            };
            let m3 = _three_way_min(c0v, c1v, c2v);
            proof {
                reveal(spec_acc);
                lemma_acc_bound(c0, left_edges@, delta as int, i as int, j as int);
                if j + off < delta {
                    lemma_acc_bound(c0, left_edges@, delta as int, i as int - 1, j + off);
                }
                if j >= 1 {
                    lemma_acc_bound(c0, left_edges@, delta as int, i as int, j as int - 1);
                }
                if 1 <= j + off && j + off <= delta {
                    lemma_acc_bound(c0, left_edges@, delta as int, i as int - 1, j + off - 1);
                }
                assert(((i as int) * (delta as int) + j + 1) * MAX_COST <= (n as int) * (delta
                    as int) * MAX_COST) by (nonlinear_arith)
                    requires
                        i as int <= (n as int) - 1,
                        j as int <= (delta as int) - 1,
                        1 <= delta as int,
                        MAX_COST == 20_000,
                ;
                assert((n as int) * (delta as int) * MAX_COST <= 8_000_000_000_000_000_000)
                    by (nonlinear_arith)
                    requires
                        (n as int) * (delta as int) <= 400_000_000_000_000,
                ;
            }
            let orig = cost_matrix[i][j];
            cost_matrix[i][j] = orig + m3;
            j += 1;
        }
        i += 1;
    }
    proof {
        assert forall|p: int, q: int|
            0 <= p < cost_matrix@.len() && 0 <= q < delta implies 0
            <= #[trigger] cost_matrix@[p]@[q] < INF_COST by {
            lemma_acc_bound(c0, left_edges@, delta as int, p, q);
            assert((p * (delta as int) + q + 1) * MAX_COST <= (n as int) * (delta as int)
                * MAX_COST) by (nonlinear_arith)
                requires
                    p <= (n as int) - 1,
                    q <= (delta as int) - 1,
                    1 <= delta as int,
                    MAX_COST == 20_000,
            ;
            assert((n as int) * (delta as int) * MAX_COST <= 8_000_000_000_000_000_000)
                by (nonlinear_arith)
                requires
                    (n as int) * (delta as int) <= 400_000_000_000_000,
            ;
        }
    }
}

/// The predecessor that backtracking picks from global cell `(i, j)`.
/// On the boundary rows the move is forced; elsewhere the cheapest of
/// the three accumulated predecessors wins, with ties broken up, then
/// left, then diagonally.
pub open spec fn spec_step(acc: Seq<Seq<i64>>, edges: Seq<usize>, delta: int, i: int, j: int) -> (
    int,
    int,
) {
    if i <= 0 {
        (i, j - 1)
    } else if j <= 0 {
        (i - 1, j)
    } else {
        let off = edges[i] - edges[i - 1];
        let r_j = j - edges[i];
        let c0 = if r_j + off < delta {
            acc[i - 1][r_j + off] as int
        } else {
            INF_COST as int
        };
        let c1 = if r_j >= 1 {
            acc[i][r_j - 1] as int
        } else {
            INF_COST as int
        };
        let c2 = if 1 <= r_j + off && r_j + off <= delta {
            acc[i - 1][r_j + off - 1] as int
        } else {
            INF_COST as int
        };
        if c0 <= c1 && c0 <= c2 {
            (i - 1, j)
        } else if c1 <= c2 {
            (i, j - 1)
        } else {
            (i - 1, j - 1)
        }
    }
}

/// Termination measure of a backtracking walk.
pub open spec fn path_measure(i: int, j: int) -> int {
    (if i > 0 {
        i
    } else {
        0
    }) + (if j > 0 {
        j
    } else {
        0
    })
}

/// One alignment step: the second cell advances the row, the column,
/// or both by exactly one.
pub open spec fn is_unit_step(a: (int, int), b: (int, int)) -> bool {
    ||| (b.0 - a.0 == 1 && b.1 - a.1 == 0)
    ||| (b.0 - a.0 == 0 && b.1 - a.1 == 1)
    ||| (b.0 - a.0 == 1 && b.1 - a.1 == 1)
}

/// One alignment step between stored path cells.
pub open spec fn is_unit_step_cell(a: PathCell, b: PathCell) -> bool {
    is_unit_step((a.i as int, a.j as int), (b.i as int, b.j as int))
}

/// The alignment path from `(0, 0)` to global cell `(i, j)`, in
/// increasing order, as backtracking reconstructs it.
#[verifier::opaque]
pub open spec fn spec_path_to(
    acc: Seq<Seq<i64>>,
    edges: Seq<usize>,
    delta: int,
    i: int,
    j: int,
) -> Seq<(int, int)>
    decreases path_measure(i, j),
{
    if i <= 0 && j <= 0 {
        seq![(i, j)]
    } else {
        let prev = spec_step(acc, edges, delta, i, j);
        spec_path_to(acc, edges, delta, prev.0, prev.1).push((i, j))
    }
}

/// Path validity: a backtracked path starts at `(0, 0)`, ends at its
/// terminal cell, and every step advances the row, the column, or both
/// by exactly one.
pub proof fn lemma_path_valid(acc: Seq<Seq<i64>>, edges: Seq<usize>, delta: int, i: int, j: int)
    requires
        i >= 0,
        j >= 0,
    ensures
        spec_path_to(acc, edges, delta, i, j).len() >= 1,
        spec_path_to(acc, edges, delta, i, j)[0] == (0int, 0int),
        spec_path_to(acc, edges, delta, i, j).last() == (i, j),
        forall|k: int|
            0 <= k < spec_path_to(acc, edges, delta, i, j).len() ==> (0 <= (
            #[trigger] spec_path_to(acc, edges, delta, i, j)[k]).0 <= i && 0 <= spec_path_to(
                acc,
                edges,
                delta,
                i,
                j,
            )[k].1 <= j),
        forall|k: int|
            0 <= k < spec_path_to(acc, edges, delta, i, j).len() - 1 ==> #[trigger] is_unit_step(
                spec_path_to(acc, edges, delta, i, j)[k],
                spec_path_to(acc, edges, delta, i, j)[k + 1],
            ),
    decreases path_measure(i, j),
{
    reveal(spec_step);
    reveal(spec_path_to);
    let p = spec_path_to(acc, edges, delta, i, j);
    if i <= 0 && j <= 0 {
        assert(p =~= seq![(0int, 0int)]);
    } else {
        let prev = spec_step(acc, edges, delta, i, j);
        assert(prev.0 >= 0 && prev.1 >= 0 && ((i - prev.0 == 1 && j - prev.1 == 0) || (i - prev.0
            == 0 && j - prev.1 == 1) || (i - prev.0 == 1 && j - prev.1 == 1)));
        lemma_path_valid(acc, edges, delta, prev.0, prev.1);
        let q = spec_path_to(acc, edges, delta, prev.0, prev.1);
        assert(p == q.push((i, j)));
        assert(p.last() == (i, j));
        assert(p[0] == q[0]);
        assert forall|k: int| 0 <= k < p.len() - 1 implies #[trigger] is_unit_step(
            p[k],
            p[k + 1],
        ) by {
            if k < q.len() - 1 {
                assert(p[k] == q[k]);
                assert(p[k + 1] == q[k + 1]);
                assert(is_unit_step(q[k], q[k + 1]));
            } else {
                assert(p[k] == q.last());
                assert(q.last() == prev);
                assert(p[k + 1] == (i, j));
            }
        }
    }
}

/// Reconstructs the optimal alignment path from the accumulated cost
/// matrix: from the terminal cell `(n - 1, m - 1)` back to `(0, 0)`,
/// then reversed into increasing order.
pub fn _compute_best_path(
    accumulated: &Vec<Vec<i64>>,
    left_edges: &Vec<usize>,
    n: usize,
    delta: usize,
    m: usize,
) -> (r: Vec<PathCell>)
    requires
        n >= 1,
        m >= 1,
        delta >= 1,
        2 * delta <= usize::MAX,
        accumulated@.len() == n,
        left_edges@.len() == n,
        forall|p: int| 0 <= p < n ==> (#[trigger] accumulated@[p]@).len() == delta,
        forall|p: int, q: int|
            0 <= p < n && 0 <= q < delta ==> 0 <= #[trigger] accumulated@[p]@[q] < INF_COST,
        forall|p: int, q: int|
            1 <= p < n && q == p - 1 ==> #[trigger] left_edges@[q] <= #[trigger] left_edges@[p]
                && left_edges@[p] <= left_edges@[q] + delta,
        left_edges@[0] == 0,
        left_edges@[n - 1] <= m - 1,
        left_edges@[n - 1] + delta >= m,
    ensures
        r@.len() == spec_path_to(
            rows_view(accumulated@),
            left_edges@,
            delta as int,
            n as int - 1,
            m as int - 1,
        ).len(),
        forall|k: int|
            0 <= k < r@.len() ==> (#[trigger] r@[k]).i == spec_path_to(
                rows_view(accumulated@),
                left_edges@,
                delta as int,
                n as int - 1,
                m as int - 1,
            )[k].0 && r@[k].j == spec_path_to(
                rows_view(accumulated@),
                left_edges@,
                delta as int,
                n as int - 1,
                m as int - 1,
            )[k].1,
        r@.len() >= 1,
        r@[0].i == 0 && r@[0].j == 0,
        r@[r@.len() - 1].i == n - 1 && r@[r@.len() - 1].j == m - 1,
        forall|k: int|
            0 <= k < r@.len() - 1 ==> #[trigger] is_unit_step_cell(r@[k], r@[k + 1]),
{
    let ghost accv = rows_view(accumulated@);
    let ghost full = spec_path_to(accv, left_edges@, delta as int, n as int - 1, m as int - 1);
    proof {
        lemma_path_valid(accv, left_edges@, delta as int, n as int - 1, m as int - 1);
        assert forall|p: int, q: int| 0 <= p < n && 0 <= q < delta implies 0 <= #[trigger] accv[p][q]
            < INF_COST by {
            assert(accv[p] == accumulated@[p]@);
        }
        assert forall|p: int| 0 <= p < n implies (#[trigger] accv[p]).len() == delta by {
            assert(accv[p] == accumulated@[p]@);
        }
    }
    let mut best_path: Vec<PathCell> = Vec::new();
    let mut i: usize = n - 1;
    let mut j: usize = m - 1;
    proof {
        assert forall|p: int| 0 <= p <= n - 1 implies left_edges@[n - 1] >= #[trigger] left_edges@[p] by {
            lemma_edges_monotone_chain(left_edges@, delta as int, p, n as int - 1);
        }
    }
    while i > 0 || j > 0
        invariant
            n >= 1,
            m >= 1,
            delta >= 1,
            2 * delta <= usize::MAX,
            accumulated@.len() == n,
            left_edges@.len() == n,
            accv == rows_view(accumulated@),
            full == spec_path_to(accv, left_edges@, delta as int, n as int - 1, m as int - 1),
            forall|p: int| 0 <= p < n ==> (#[trigger] accv[p]).len() == delta,
            forall|p: int| 0 <= p < n ==> (#[trigger] accumulated@[p]@).len() == delta,
            forall|p: int, q: int|
                0 <= p < n && 0 <= q < delta ==> 0 <= #[trigger] accv[p][q] < INF_COST,
            forall|p: int, q: int|
                0 <= p < n && 0 <= q < delta ==> 0 <= #[trigger] accumulated@[p]@[q] < INF_COST,
            forall|p: int, q: int|
                1 <= p < n && q == p - 1 ==> #[trigger] left_edges@[q] <= #[trigger] left_edges@[p]
                    && left_edges@[p] <= left_edges@[q] + delta,
            left_edges@[0] == 0,
            i < n,
            j < m,
            left_edges@[i as int] <= j,
            j - left_edges@[i as int] < delta,
            spec_path_to(accv, left_edges@, delta as int, i as int, j as int).len()
                + best_path@.len() == full.len(),
            spec_path_to(accv, left_edges@, delta as int, i as int, j as int) == full.take(
                full.len() - best_path@.len(),
            ),
            forall|k: int|
                0 <= k < best_path@.len() ==> ((#[trigger] best_path@[k]).i as int,
                best_path@[k].j as int) == full[full.len() - 1 - k],
        decreases i + j,
    {
        let ghost i0 = i as int;
        let ghost j0 = j as int;
        let ghost cur_path = spec_path_to(accv, left_edges@, delta as int, i0, j0);
        proof {
            lemma_path_valid(accv, left_edges@, delta as int, i0, j0);
        }
        best_path.push(PathCell { i, j });
        if i == 0 {
            j -= 1;
        } else if j == 0 {
            i -= 1;
        } else {
            let off = left_edges[i] - left_edges[i - 1];
            let r_j = j - left_edges[i];
            let cost0 = if r_j + off < delta {
                accumulated[i - 1][r_j + off]
            } else {
                INF_COST
            };
            let cost1 = if r_j > 0 {
                accumulated[i][r_j - 1]
            } else {
                INF_COST
            };
            let cost2 = if r_j + off >= 1 && r_j + off - 1 < delta {
                accumulated[i - 1][r_j + off - 1]
            } else {
                INF_COST
            };
            let mv = _three_way_argmin(cost0, cost1, cost2);
            if mv == MOVE0 {
                proof {
                    if !(r_j + off < delta) {
                        assert(cost0 == INF_COST);
                        assert(cost1 == INF_COST);
                        assert(r_j == 0);
                        assert(cost2 == INF_COST);
                        assert(!(1 <= off && off <= delta));
                        assert(off <= delta);
                        assert(off == 0);
                        assert(false);
                    }
                }
                i -= 1;
            } else if mv == MOVE1 {
                proof {
                    assert(cost1 < INF_COST);
                    assert(r_j >= 1);
                }
                j -= 1;
            } else {
                proof {
                    assert(cost2 < INF_COST);
                    assert(1 <= r_j + off && r_j + off <= delta);
                }
                i -= 1;
                j -= 1;
            }
        }
        proof {
            reveal(spec_step);
            reveal(spec_path_to);
            assert((i as int, j as int) == spec_step(accv, left_edges@, delta as int, i0, j0));
            assert(cur_path == spec_path_to(accv, left_edges@, delta as int, i as int, j as int)
                .push((i0, j0)));
            lemma_path_valid(accv, left_edges@, delta as int, i as int, j as int);
            let cnt0 = full.len() - best_path@.len();
            assert(cur_path == full.take(cnt0 + 1));
            assert(spec_path_to(accv, left_edges@, delta as int, i as int, j as int) =~= full.take(
                cnt0,
            ));
            assert(best_path@[best_path@.len() - 1] == PathCell {
                i: i0 as usize,
                j: j0 as usize,
            });
            assert(full[cnt0] == cur_path[cnt0]);
            assert(cur_path.last() == (i0, j0));
        }
    }
    proof {
        reveal(spec_path_to);
        assert(spec_path_to(accv, left_edges@, delta as int, 0, 0) =~= seq![(0int, 0int)]);
        assert(full.take(full.len() - best_path@.len()).len() == 1);
        assert(full[0] == full.take(1)[0]);
    }
    best_path.push(PathCell { i: 0, j: 0 });
    let total = best_path.len();
    let mut path: Vec<PathCell> = Vec::new();
    let mut t: usize = 0;
    while t < total
        invariant
            0 <= t <= total,
            total == best_path@.len() == full.len(),
            forall|k: int|
                0 <= k < best_path@.len() ==> ((#[trigger] best_path@[k]).i as int,
                best_path@[k].j as int) == full[full.len() - 1 - k],
            path@.len() == t,
            forall|k: int|
                0 <= k < t ==> ((#[trigger] path@[k]).i as int, path@[k].j as int) == full[k],
        decreases total - t,
    {
        path.push(best_path[total - 1 - t]);
        t += 1;
    }
    proof {
        lemma_path_valid(accv, left_edges@, delta as int, n as int - 1, m as int - 1);
        assert forall|k: int| 0 <= k < path@.len() - 1 implies #[trigger] is_unit_step_cell(
            path@[k],
            path@[k + 1],
        ) by {
            assert((path@[k].i as int, path@[k].j as int) == full[k]);
            assert((path@[k + 1].i as int, path@[k + 1].j as int) == full[k + 1]);
            assert(is_unit_step(full[k], full[k + 1]));
        }
    }
    path
}

/// The band width actually used: the requested width clamped to the
/// second source's frame count.
pub open spec fn spec_delta(band_width: int, m: int) -> int {
    if band_width <= m {
        band_width
    } else {
        m
    }
}

/// The per-row left edges of the band as a sequence.
#[verifier::opaque]
pub open spec fn spec_edge_seq(n: int, m: int, delta: int) -> Seq<usize> {
    Seq::new(n as nat, |i: int| spec_left_edge(m, n, delta, i) as usize)
}

/// The banded cost matrix as a sequence of rows.
#[verifier::opaque]
pub open spec fn spec_cost_matrix(f1: FeatureMatrix, f2: FeatureMatrix, delta: int) -> Seq<
    Seq<i64>,
> {
    Seq::new(
        f1.spec_cols() as nat,
        |i: int| Seq::new(delta as nat, |j: int| spec_cost_cell(f1, f2, delta, i, j) as i64),
    )
}

/// The accumulated cost matrix as a sequence of rows.
#[verifier::opaque]
pub open spec fn spec_acc_matrix(c: Seq<Seq<i64>>, edges: Seq<usize>, delta: int, n: int) -> Seq<
    Seq<i64>,
> {
    Seq::new(
        n as nat,
        |i: int| Seq::new(delta as nat, |j: int| spec_acc(c, edges, delta, i, j) as i64),
    )
}

/// Whether the band suffices for an alignment of `n` by `m` frames:
/// consecutive rows of the band overlap, and the last row reaches the
/// terminal column `m - 1`.
pub open spec fn spec_band_ok(n: int, m: int, delta: int) -> bool {
    &&& forall|i: int, i2: int|
        1 <= i < n && i2 == i - 1 ==> #[trigger] spec_left_edge(m, n, delta, i)
            <= #[trigger] spec_left_edge(m, n, delta, i2) + delta
    &&& spec_left_edge(m, n, delta, n - 1) + delta >= m
}

/// The alignment path that `align` returns, as a pure function of its
/// inputs.
#[verifier::opaque]
pub open spec fn spec_align_path(f1: FeatureMatrix, f2: FeatureMatrix, band_width: int) -> Seq<
    (int, int),
> {
    let n = f1.spec_cols();
    let m = f2.spec_cols();
    let delta = spec_delta(band_width, m);
    let c = spec_cost_matrix(f1, f2, delta);
    let edges = spec_edge_seq(n, m, delta);
    let acc = spec_acc_matrix(c, edges, delta, n);
    spec_path_to(acc, edges, delta, n - 1, m - 1)
}

/// Aligns two feature matrices inside a diagonal band of the requested
/// width (clamped to the second source's frame count).  Returns the
/// optimal alignment path from `(0, 0)` to `(n - 1, m - 1)`, a monotone
/// staircase with unit steps; fails when the coefficient dimensions
/// disagree, and when the band cannot connect consecutive rows or reach
/// the terminal cell.  The path is a function of the inputs alone, so
/// identical inputs always yield the identical path.
/// Runs the forward dynamic-programming pass on an owned banded cost
/// matrix and backtracks the optimal path out of it.
#[verifier::rlimit(100)]
fn accumulate_and_backtrack(
    cost: Vec<Vec<i64>>,
    left_edges: &Vec<usize>,
    n: usize,
    delta: usize,
    m: usize,
) -> (r: Vec<PathCell>)
    requires
        n >= 1,
        m >= 1,
        delta >= 1,
        2 * delta <= usize::MAX,
        (n as int) * (delta as int) <= 400_000_000_000_000,
        cost@.len() == n,
        left_edges@.len() == n,
        forall|p: int| 0 <= p < n ==> (#[trigger] cost@[p]@).len() == delta,
        forall|p: int, q: int|
            0 <= p < n && 0 <= q < delta ==> 0 <= #[trigger] cost@[p]@[q] <= MAX_COST,
        forall|p: int, q: int|
            0 <= p <= q < n ==> #[trigger] left_edges@[p] <= #[trigger] left_edges@[q],
        forall|p: int, q: int|
            1 <= p < n && q == p - 1 ==> #[trigger] left_edges@[p] <= #[trigger] left_edges@[q]
                + delta,
        left_edges@[0] == 0,
        left_edges@[n - 1] <= m - 1,
        left_edges@[n - 1] + delta >= m,
    ensures
        ({
            let path = spec_path_to(
                spec_acc_matrix(rows_view(cost@), left_edges@, delta as int, n as int),
                left_edges@,
                delta as int,
                n as int - 1,
                m as int - 1,
            );
            &&& r@.len() == path.len()
            &&& forall|k: int|
                0 <= k < r@.len() ==> (#[trigger] r@[k]).i == path[k].0 && r@[k].j == path[k].1
        }),
        r@.len() >= 1,
        r@[0].i == 0 && r@[0].j == 0,
        r@[r@.len() - 1].i == n - 1 && r@[r@.len() - 1].j == m - 1,
        forall|k: int|
            0 <= k < r@.len() - 1 ==> #[trigger] is_unit_step_cell(r@[k], r@[k + 1]),
{
    let ghost pre_cost = rows_view(cost@);
    let mut acc = cost;
    proof {
        lemma_acc_input_wf(acc@, left_edges@, delta as int);
        assert(acc@[0]@.len() == delta);
    }
    _compute_accumulated_cost_matrix_in_place(&mut acc, left_edges);
    proof {
        lemma_acc_views(pre_cost, left_edges@, delta as int, n as int, acc@);
    }
    let path = _compute_best_path(&acc, left_edges, n, delta, m);
    path
}

/// Ties a built cost matrix and edge vector to their spec-level forms.
proof fn lemma_built_views(
    f1: FeatureMatrix,
    f2: FeatureMatrix,
    delta: int,
    cost: Seq<Vec<i64>>,
    edges: Seq<usize>,
)
    requires
        f1.spec_cols() >= 1,
        f2.spec_cols() >= 1,
        delta >= 0,
        cost.len() == f1.spec_cols(),
        forall|i: int| 0 <= i < cost.len() ==> (#[trigger] cost[i]@).len() == delta,
        forall|i: int, j: int|
            0 <= i < cost.len() && 0 <= j < delta ==> #[trigger] cost[i]@[j] == spec_cost_cell(
                f1,
                f2,
                delta,
                i,
                j,
            ),
        edges.len() == f1.spec_cols(),
        forall|i: int|
            0 <= i < edges.len() ==> #[trigger] edges[i] == spec_left_edge(
                f2.spec_cols(),
                f1.spec_cols(),
                delta,
                i,
            ),
    ensures
        rows_view(cost) == spec_cost_matrix(f1, f2, delta),
        edges == spec_edge_seq(f1.spec_cols(), f2.spec_cols(), delta),
{
    let n = f1.spec_cols();
    let m = f2.spec_cols();
    reveal(spec_edge_seq);
    reveal(spec_cost_matrix);
    assert forall|i: int| 0 <= i < n implies #[trigger] spec_edge_seq(n, m, delta)[i] == edges[i] by {
        lemma_left_edge_below(m, n, delta, i);
    }
    assert(spec_edge_seq(n, m, delta) =~= edges);
    assert forall|i: int| 0 <= i < n implies #[trigger] spec_cost_matrix(f1, f2, delta)[i]
        =~= rows_view(cost)[i] by {
        assert(rows_view(cost)[i] == cost[i]@);
        assert forall|j: int| 0 <= j < delta implies #[trigger] spec_cost_matrix(f1, f2, delta)[i][j]
            == cost[i]@[j] by {
            assert(cost[i]@[j] == spec_cost_cell(f1, f2, delta, i, j));
        }
    }
    assert(spec_cost_matrix(f1, f2, delta) =~~= rows_view(cost));
}

/// Ties an accumulated matrix to its spec-level form.
proof fn lemma_acc_views(
    pre: Seq<Seq<i64>>,
    edges: Seq<usize>,
    delta: int,
    n: int,
    acc: Seq<Vec<i64>>,
)
    requires
        acc.len() == n,
        forall|p: int| 0 <= p < n ==> (#[trigger] acc[p]@).len() == delta,
        forall|p: int, q: int|
            0 <= p < n && 0 <= q < delta ==> #[trigger] acc[p]@[q] == spec_acc(
                pre,
                edges,
                delta,
                p,
                q,
            ),
    ensures
        rows_view(acc) == spec_acc_matrix(pre, edges, delta, n),
{
    reveal(spec_acc_matrix);
    assert forall|p: int| 0 <= p < n implies #[trigger] spec_acc_matrix(pre, edges, delta, n)[p]
        =~= rows_view(acc)[p] by {
        assert(rows_view(acc)[p] == acc[p]@);
        assert forall|q: int| 0 <= q < delta implies #[trigger] spec_acc_matrix(
            pre,
            edges,
            delta,
            n,
        )[p][q] == acc[p]@[q] by {
            assert(acc[p]@[q] == spec_acc(pre, edges, delta, p, q));
        }
    }
    assert(spec_acc_matrix(pre, edges, delta, n) =~~= rows_view(acc));
}

/// Well-formedness of the accumulation's input, lifted over the view.
proof fn lemma_acc_input_wf(cost: Seq<Vec<i64>>, edges: Seq<usize>, delta: int)
    requires
        delta >= 1,
        cost.len() >= 1,
        edges.len() == cost.len(),
        forall|p: int| 0 <= p < cost.len() ==> (#[trigger] cost[p]@).len() == delta,
        forall|p: int, q: int|
            0 <= p < cost.len() && 0 <= q < delta ==> 0 <= #[trigger] cost[p]@[q] <= MAX_COST,
        forall|p: int, q: int|
            0 <= p <= q < edges.len() ==> #[trigger] edges[p] <= #[trigger] edges[q],
        forall|p: int, q: int|
            1 <= p < edges.len() && q == p - 1 ==> #[trigger] edges[p] <= #[trigger] edges[q]
                + delta,
    ensures
        acc_input_wf(rows_view(cost), edges, delta),
{
    let c = rows_view(cost);
    assert forall|p: int| 0 <= p < c.len() implies (#[trigger] c[p]).len() == delta by {
        assert(c[p] == cost[p]@);
    }
    assert forall|p: int, q: int|
        0 <= p < c.len() && 0 <= q < delta implies 0 <= #[trigger] c[p][q] <= MAX_COST by {
        assert(c[p] == cost[p]@);
    }
}

/// The band's left edge in the first row is zero.
proof fn lemma_left_edge_zero(m: int, n: int, delta: int)
    requires
        n >= 1,
        m >= 0,
        delta >= 0,
    ensures
        spec_left_edge(m, n, delta, 0) == 0,
{
    assert(m * 0 == 0) by (nonlinear_arith);
    assert(spec_center(m, n, 0) == 0int / n);
}

/// Unfolds `spec_align_path` onto concrete model sequences.
proof fn lemma_align_path_eq(
    f1: FeatureMatrix,
    f2: FeatureMatrix,
    band_width: int,
    pre: Seq<Seq<i64>>,
    edges: Seq<usize>,
    accv: Seq<Seq<i64>>,
)
    requires
        pre == spec_cost_matrix(f1, f2, spec_delta(band_width, f2.spec_cols())),
        edges == spec_edge_seq(
            f1.spec_cols(),
            f2.spec_cols(),
            spec_delta(band_width, f2.spec_cols()),
        ),
        accv == spec_acc_matrix(
            pre,
            edges,
            spec_delta(band_width, f2.spec_cols()),
            f1.spec_cols(),
        ),
    ensures
        spec_align_path(f1, f2, band_width) == spec_path_to(
            accv,
            edges,
            spec_delta(band_width, f2.spec_cols()),
            f1.spec_cols() - 1,
            f2.spec_cols() - 1,
        ),
{
    reveal(spec_align_path);
}

/// Aligns two feature matrices inside a diagonal band of the requested
/// width (clamped to the second source's frame count).  Returns the
/// optimal alignment path from `(0, 0)` to `(n - 1, m - 1)`, a monotone
/// staircase with unit steps; fails when the coefficient dimensions
/// disagree, and when the band cannot connect consecutive rows or reach
/// the terminal cell.  The path is a function of the inputs alone, so
/// identical inputs always yield the identical path.
#[verifier::rlimit(100)]
pub fn align(f1: &FeatureMatrix, f2: &FeatureMatrix, band_width: usize) -> (r: Result<
    Vec<PathCell>,
    AlignError,
>)
    requires
        f1.wf(),
        f2.wf(),
        f1.spec_cols() >= 1,
        f2.spec_cols() >= 1,
        band_width >= 1,
        f1.spec_cols() * f2.spec_cols() <= usize::MAX,
        2 * f2.spec_cols() <= usize::MAX,
        f1.spec_cols() * spec_delta(band_width as int, f2.spec_cols()) <= 400_000_000_000_000,
    ensures
        r is Ok <==> (f1.spec_rows() == f2.spec_rows() && spec_band_ok(
            f1.spec_cols(),
            f2.spec_cols(),
            spec_delta(band_width as int, f2.spec_cols()),
        )),
        f1.spec_rows() != f2.spec_rows() ==> r == Result::<Vec<PathCell>, AlignError>::Err(
            AlignError::ShapeMismatch,
        ),
        (f1.spec_rows() == f2.spec_rows() && !spec_band_ok(
            f1.spec_cols(),
            f2.spec_cols(),
            spec_delta(band_width as int, f2.spec_cols()),
        )) ==> r == Result::<Vec<PathCell>, AlignError>::Err(AlignError::BandTooNarrow),
        r matches Ok(path) ==> {
            &&& path@.len() == spec_align_path(*f1, *f2, band_width as int).len()
            &&& forall|k: int|
                0 <= k < path@.len() ==> (#[trigger] path@[k]).i == spec_align_path(
                    *f1,
                    *f2,
                    band_width as int,
                )[k].0 && path@[k].j == spec_align_path(*f1, *f2, band_width as int)[k].1
            &&& path@.len() >= 1
            &&& path@[0].i == 0 && path@[0].j == 0
            &&& path@[path@.len() - 1].i == f1.spec_cols() - 1 && path@[path@.len() - 1].j
                == f2.spec_cols() - 1
            &&& forall|k: int|
                0 <= k < path@.len() - 1 ==> #[trigger] is_unit_step_cell(path@[k], path@[k + 1])
        },
{
    let n = f1.num_cols();
    let m = f2.num_cols();
    if f1.num_rows() != f2.num_rows() {
        return Err(AlignError::ShapeMismatch);
    }
    let delta = if band_width < m {
        band_width
    } else {
        m
    };
    assert(delta == spec_delta(band_width as int, f2.spec_cols()));
    let (cost, left_edges) = _compute_cost_matrix(f1, f2, delta);
    proof {
        lemma_built_views(*f1, *f2, delta as int, cost@, left_edges@);
    }
    let ghost pre_cost = rows_view(cost@);
    let mut band_ok = true;
    let mut i: usize = 1;
    while i < n
        invariant
            1 <= i <= n,
            n == left_edges@.len(),
            delta >= 1,
            2 * m <= usize::MAX,
            delta <= m,
            forall|p: int| 0 <= p < n ==> #[trigger] left_edges@[p] <= m - 1,
            forall|p: int, q: int|
                0 <= p <= q < n ==> #[trigger] left_edges@[p] <= #[trigger] left_edges@[q],
            n == f1.spec_cols(),
            m == f2.spec_cols(),
            forall|p: int|
                0 <= p < n ==> #[trigger] left_edges@[p] == spec_left_edge(
                    m as int,
                    n as int,
                    delta as int,
                    p,
                ),
            band_ok <==> (forall|p: int, q: int|
                1 <= p < i && q == p - 1 ==> #[trigger] spec_left_edge(
                    m as int,
                    n as int,
                    delta as int,
                    p,
                ) <= #[trigger] spec_left_edge(m as int, n as int, delta as int, q) + delta),
        decreases n - i,
    {
        let gap_bad = left_edges[i] > left_edges[i - 1] + delta;
        proof {
            assert(left_edges@[i as int] == spec_left_edge(
                m as int,
                n as int,
                delta as int,
                i as int,
            ));
            assert(left_edges@[i as int - 1] == spec_left_edge(
                m as int,
                n as int,
                delta as int,
                i as int - 1,
            ));
        }
        if gap_bad {
            band_ok = false;
        }
        i += 1;
    }
    if !band_ok {
        proof {
            assert(!spec_band_ok(n as int, m as int, delta as int));
        }
        return Err(AlignError::BandTooNarrow);
    }
    proof {
        assert(left_edges@[n - 1] == spec_left_edge(m as int, n as int, delta as int, n as int
            - 1));
    }
    if left_edges[n - 1] + delta < m {
        proof {
            assert(!spec_band_ok(n as int, m as int, delta as int));
        }
        return Err(AlignError::BandTooNarrow);
    }
    proof {
        assert(spec_band_ok(n as int, m as int, delta as int));
        lemma_left_edge_zero(m as int, n as int, delta as int);
        assert(left_edges@[0] == 0);
    }
    let path = accumulate_and_backtrack(cost, &left_edges, n, delta, m);
    proof {
        lemma_align_path_eq(
            *f1,
            *f2,
            band_width as int,
            pre_cost,
            left_edges@,
            spec_acc_matrix(pre_cost, left_edges@, delta as int, n as int),
        );
    }
    Ok(path)
}

/// Identical inputs always yield an identical path: the path that
/// `align` returns is fixed by `spec_align_path`, a pure function of
/// the two matrices and the band width, so two successful calls on
/// equal inputs return equal paths.
pub proof fn lemma_align_deterministic(
    p1: Seq<PathCell>,
    p2: Seq<PathCell>,
    f1: FeatureMatrix,
    f2: FeatureMatrix,
    band_width: int,
)
    requires
        p1.len() == spec_align_path(f1, f2, band_width).len(),
        forall|k: int|
            0 <= k < p1.len() ==> (#[trigger] p1[k]).i == spec_align_path(f1, f2, band_width)[k].0
                && p1[k].j == spec_align_path(f1, f2, band_width)[k].1,
        p2.len() == spec_align_path(f1, f2, band_width).len(),
        forall|k: int|
            0 <= k < p2.len() ==> (#[trigger] p2[k]).i == spec_align_path(f1, f2, band_width)[k].0
                && p2[k].j == spec_align_path(f1, f2, band_width)[k].1,
    ensures
        p1 =~= p2,
{
    assert forall|k: int| 0 <= k < p1.len() implies p1[k] == p2[k] by {
        assert(p1[k].i == p2[k].i && p1[k].j == p2[k].j);
    }
}

/// The least accumulated cost among the first `k` band columns of row
/// `i`.
pub open spec fn spec_row_min_upto(
    c: Seq<Seq<i64>>,
    edges: Seq<usize>,
    delta: int,
    i: int,
    k: int,
) -> int
    decreases k,
{
    if k <= 1 {
        spec_acc(c, edges, delta, i, 0)
    } else {
        let rest = spec_row_min_upto(c, edges, delta, i, k - 1);
        let last = spec_acc(c, edges, delta, i, k - 1);
        if rest <= last {
            rest
        } else {
            last
        }
    }
}

/// The least accumulated cost reachable in row `i`.
pub open spec fn spec_row_min(c: Seq<Seq<i64>>, edges: Seq<usize>, delta: int, i: int) -> int {
    spec_row_min_upto(c, edges, delta, i, delta)
}

/// The row minimum lies below every cell of its row.
pub proof fn lemma_row_min_le(c: Seq<Seq<i64>>, edges: Seq<usize>, delta: int, i: int, k: int, q: int)
    requires
        0 <= q < k,
        k <= delta,
    ensures
        spec_row_min_upto(c, edges, delta, i, k) <= spec_acc(c, edges, delta, i, q),
    decreases k,
{
    if k > 1 && q < k - 1 {
        lemma_row_min_le(c, edges, delta, i, k - 1, q);
    }
}

/// Monotonic accumulation: the accumulated cost of any band cell in row
/// `i` is never less than the minimum accumulated cost reachable in row
/// `i - 1`, because every cell adds a non-negative cost to the cheapest
/// of its predecessors, and every predecessor chain passes through row
/// `i - 1`.
pub proof fn lemma_monotonic_accumulation(
    c: Seq<Seq<i64>>,
    edges: Seq<usize>,
    delta: int,
    i: int,
    j: int,
)
    requires
        acc_input_wf(c, edges, delta),
        (c.len() as int) * delta <= 400_000_000_000_000,
        1 <= i < c.len(),
        0 <= j < delta,
    ensures
        spec_acc(c, edges, delta, i, j) >= spec_row_min(c, edges, delta, i - 1),
    decreases j,
{
    reveal(spec_acc);
    let rmin = spec_row_min(c, edges, delta, i - 1);
    lemma_acc_bound(c, edges, delta, i - 1, 0);
    lemma_row_min_le(c, edges, delta, i - 1, delta, 0);
    assert(((i - 1) * delta + 1) * MAX_COST < INF_COST) by (nonlinear_arith)
        requires
            1 <= i < c.len(),
            1 <= delta,
            (c.len() as int) * delta <= 400_000_000_000_000,
            MAX_COST == 20_000,
            INF_COST == i64::MAX,
    ;
    assert(rmin < INF_COST);
    let off = edges[i] - edges[i - 1];
    assert(0 <= off <= delta);
    let up = if j + off < delta {
        spec_acc(c, edges, delta, i - 1, j + off)
    } else {
        INF_COST as int
    };
    let left = if j >= 1 {
        spec_acc(c, edges, delta, i, j - 1)
    } else {
        INF_COST as int
    };
    let diag = if 1 <= j + off && j + off <= delta {
        spec_acc(c, edges, delta, i - 1, j + off - 1)
    } else {
        INF_COST as int
    };
    if j + off < delta {
        lemma_row_min_le(c, edges, delta, i - 1, delta, j + off);
    }
    if j >= 1 {
        lemma_monotonic_accumulation(c, edges, delta, i, j - 1);
    }
    if 1 <= j + off && j + off <= delta {
        lemma_row_min_le(c, edges, delta, i - 1, delta, j + off - 1);
    }
    assert(spec_min3(up, left, diag) >= rmin);
    assert(spec_acc(c, edges, delta, i, j) == c[i][j] + spec_min3(up, left, diag));
}

/// Every cost cell lies in the valid range of clamped cosine distances.
pub proof fn lemma_cost_cell_range(f1: FeatureMatrix, f2: FeatureMatrix, delta: int, i: int, j: int)
    ensures
        0 <= spec_cost_cell(f1, f2, delta, i, j) <= MAX_COST,
{
    reveal(spec_cost_cell);
}

/// A frame scored against itself costs exactly zero: its dot product
/// with itself dominates the square of its rounded-down norm, so the
/// fixed-point cosine similarity reaches at least one and the clamped
/// distance vanishes.
pub proof fn lemma_cost_diag_zero(f: FeatureMatrix, delta: int, i: int)
    requires
        0 <= i < f.spec_cols(),
        spec_dot(f.col(i), f.col(i)) >= 1,
        spec_left_edge(f.spec_cols(), f.spec_cols(), delta, i) <= i,
    ensures
        spec_cost_cell(f, f, delta, i, i - spec_left_edge(f.spec_cols(), f.spec_cols(), delta, i))
            == 0,
{
    reveal(spec_cost_cell);
    let d = spec_dot(f.col(i), f.col(i));
    crate::fixed::lemma_isqrt_exists(d);
    let r = spec_isqrt(d);
    assert(is_isqrt(d, r));
    if r == 0 {
        assert(d < (r + 1) * (r + 1));
        assert((r + 1) * (r + 1) == 1) by (nonlinear_arith)
            requires
                r == 0,
        ;
        assert(false);
    }
    assert(r >= 1);
    assert(1 <= r * r) by (nonlinear_arith)
        requires
            1 <= r,
    ;
    let nn = r * r;
    assert(1 <= nn <= d);
    assert(SCALE * nn <= SCALE * d) by (nonlinear_arith)
        requires
            1 <= nn <= d,
            SCALE == 10_000,
    ;
    vstd::arithmetic::div_mod::lemma_div_is_ordered(SCALE * nn, SCALE * d, nn);
    vstd::arithmetic::div_mod::lemma_div_multiples_vanish(SCALE as int, nn);
    assert(SCALE * nn / nn == SCALE);
    assert(trunc_div(SCALE * d, nn) >= SCALE);
}

/// Accumulated costs along the global diagonal stay at zero when every
/// diagonal cost cell is zero and the band contains the diagonal.
pub proof fn lemma_acc_diag_zero(c: Seq<Seq<i64>>, edges: Seq<usize>, delta: int, i: int)
    requires
        acc_input_wf(c, edges, delta),
        0 <= i < c.len(),
        forall|p: int| 0 <= p < c.len() ==> #[trigger] edges[p] <= p && p < edges[p] + delta,
        forall|p: int| 0 <= p < c.len() ==> #[trigger] c[p][p - edges[p]] == 0,
    ensures
        spec_acc(c, edges, delta, i, i - edges[i]) == 0,
    decreases i,
{
    reveal(spec_acc);
    if i == 0 {
        assert(edges[0] <= 0);
        assert(spec_acc(c, edges, delta, 0, 0) == c[0][0]);
    } else {
        lemma_acc_diag_zero(c, edges, delta, i - 1);
        let ld = i - edges[i];
        let off = edges[i] - edges[i - 1];
        assert(1 <= ld + off && ld + off <= delta);
        let diag = spec_acc(c, edges, delta, i - 1, ld + off - 1);
        assert(ld + off - 1 == (i - 1) - edges[i - 1]);
        assert(diag == 0);
        if ld + off < delta {
            lemma_acc_bound(c, edges, delta, i - 1, ld + off);
        }
        if ld >= 1 {
            lemma_acc_bound(c, edges, delta, i, ld - 1);
        }
        assert(spec_acc(c, edges, delta, i, ld) == 0);
    }
}

/// An accumulated cost off the global diagonal is strictly positive
/// when its own cost cell is.
pub proof fn lemma_acc_offdiag_pos(c: Seq<Seq<i64>>, edges: Seq<usize>, delta: int, i: int, j: int)
    requires
        acc_input_wf(c, edges, delta),
        0 <= i < c.len(),
        0 <= j < delta,
        c[i][j] >= 1,
    ensures
        spec_acc(c, edges, delta, i, j) >= 1,
{
    reveal(spec_acc);
    if i == 0 {
        if j >= 1 {
            lemma_acc_bound(c, edges, delta, 0, j - 1);
        }
    } else {
        let off = edges[i] - edges[i - 1];
        if j + off < delta {
            lemma_acc_bound(c, edges, delta, i - 1, j + off);
        }
        if j >= 1 {
            lemma_acc_bound(c, edges, delta, i, j - 1);
        }
        if 1 <= j + off && j + off <= delta {
            lemma_acc_bound(c, edges, delta, i - 1, j + off - 1);
        }
        assert(0 <= off <= delta);
    }
}

/// Backtracking follows the global diagonal exactly when every diagonal
/// cell carries accumulated cost zero and every other cell a positive
/// one: at each diagonal cell the diagonal predecessor is the unique
/// minimum, so no tie-break can leave the diagonal.
pub proof fn lemma_diagonal_path(acc: Seq<Seq<i64>>, edges: Seq<usize>, delta: int, n: int, k: int)
    requires
        n >= 1,
        delta >= 1,
        acc.len() == n,
        edges.len() == n,
        forall|p: int| 0 <= p < n ==> (#[trigger] acc[p]).len() == delta,
        forall|p: int| 0 <= p < n ==> #[trigger] edges[p] <= p && p < edges[p] + delta,
        forall|p: int| 0 <= p < n ==> #[trigger] acc[p][p - edges[p]] == 0,
        forall|p: int, q: int|
            0 <= p < n && 0 <= q < delta && edges[p] + q != p ==> #[trigger] acc[p][q] >= 1,
        0 <= k < n,
    ensures
        spec_path_to(acc, edges, delta, k, k) =~= Seq::new((k + 1) as nat, |t: int| (t, t)),
    decreases k,
{
    reveal(spec_path_to);
    if k == 0 {
        assert(spec_path_to(acc, edges, delta, 0, 0) =~= Seq::new(1nat, |t: int| (t, t)));
    } else {
        let off = edges[k] - edges[k - 1];
        let r_j = k - edges[k];
        assert(1 <= r_j + off && r_j + off <= delta) by {
            assert(edges[k - 1] <= k - 1 && k - 1 < edges[k - 1] + delta);
        }
        assert(acc[k - 1][r_j + off - 1] == 0) by {
            assert(r_j + off - 1 == (k - 1) - edges[k - 1]);
        }
        if r_j + off < delta {
            assert(edges[k - 1] + (r_j + off) != k - 1);
            assert(acc[k - 1][r_j + off] >= 1);
        }
        if r_j >= 1 {
            assert(edges[k] + (r_j - 1) != k);
            assert(acc[k][r_j - 1] >= 1);
        }
        assert(spec_step(acc, edges, delta, k, k) == (k - 1, k - 1));
        lemma_diagonal_path(acc, edges, delta, n, k - 1);
        assert(spec_path_to(acc, edges, delta, k, k) =~= Seq::new((k + 1) as nat, |t: int| (t, t)));
    }
}

/// For a self-alignment the band always contains the global diagonal:
/// the center of row `p` is `p` itself, so the left edge stays at most
/// `p` and the diagonal cell lies within the band width.
pub proof fn lemma_self_band(n: int, delta: int, p: int)
    requires
        n >= 1,
        delta >= 1,
        0 <= p < n,
    ensures
        0 <= spec_left_edge(n, n, delta, p) <= p,
        p < spec_left_edge(n, n, delta, p) + delta,
        p >= 1 ==> spec_left_edge(n, n, delta, p) <= spec_left_edge(n, n, delta, p - 1) + delta,
{
    assert(n * p == p * n) by (nonlinear_arith);
    vstd::arithmetic::div_mod::lemma_div_multiples_vanish(p, n);
    assert(spec_center(n, n, p) == p);
    let h = delta / 2;
    vstd::arithmetic::div_mod::lemma_fundamental_div_mod(delta, 2);
    vstd::arithmetic::div_mod::lemma_mod_bound(delta, 2);
    assert(0 <= h <= delta - 1);
    if p >= 1 {
        assert(n * (p - 1) == (p - 1) * n) by (nonlinear_arith);
        vstd::arithmetic::div_mod::lemma_div_multiples_vanish(p - 1, n);
        assert(spec_center(n, n, p - 1) == p - 1);
    }
}

/// Self-alignment: aligning a feature matrix against an identical copy,
/// with no silent frame and with frames at distinct positions strictly
/// apart in cosine distance, yields the exact diagonal `i == j` at every
/// step, for every band width.  (Without the strict-apartness premise
/// the law can fail: when two matrices with all-equal columns are
/// aligned, every cell costs zero and the up-first tie-break walks off
/// the diagonal.)
pub proof fn lemma_self_alignment(f: FeatureMatrix, band_width: int)
    requires
        f.wf(),
        1 <= f.spec_cols() <= usize::MAX,
        band_width >= 1,
        f.spec_cols() * spec_delta(band_width, f.spec_cols()) <= 400_000_000_000_000,
        forall|i: int|
            0 <= i < f.spec_cols() ==> spec_dot(#[trigger] f.col(i), f.col(i)) >= 1,
        forall|i: int, jl: int|
            0 <= i < f.spec_cols() && 0 <= jl < spec_delta(band_width, f.spec_cols())
                && spec_left_edge(
                f.spec_cols(),
                f.spec_cols(),
                spec_delta(band_width, f.spec_cols()),
                i,
            ) + jl < f.spec_cols() && spec_left_edge(
                f.spec_cols(),
                f.spec_cols(),
                spec_delta(band_width, f.spec_cols()),
                i,
            ) + jl != i ==> #[trigger] spec_cost_cell(
                f,
                f,
                spec_delta(band_width, f.spec_cols()),
                i,
                jl,
            ) >= 1,
    ensures
        spec_align_path(f, f, band_width) =~= Seq::new(
            f.spec_cols() as nat,
            |k: int| (k, k),
        ),
{
    reveal(spec_align_path);
    reveal(spec_edge_seq);
    reveal(spec_cost_matrix);
    reveal(spec_acc_matrix);
    let n = f.spec_cols();
    let delta = spec_delta(band_width, n);
    let c = spec_cost_matrix(f, f, delta);
    let edges = spec_edge_seq(n, n, delta);
    let accm = spec_acc_matrix(c, edges, delta, n);
    assert forall|p: int| 0 <= p < n implies {
        &&& #[trigger] edges[p] == spec_left_edge(n, n, delta, p)
        &&& edges[p] <= p
        &&& p < edges[p] + delta
    } by {
        lemma_self_band(n, delta, p);
    }
    assert forall|p: int, q: int| 0 <= p <= q < n implies #[trigger] edges[p]
        <= #[trigger] edges[q] by {
        lemma_self_band(n, delta, p);
        lemma_self_band(n, delta, q);
        lemma_left_edge_monotone(n, n, delta, p, q);
    }
    assert forall|p: int, q: int| 1 <= p < n && q == p - 1 implies #[trigger] edges[q]
        <= #[trigger] edges[p] && edges[p] <= edges[q] + delta by {
        lemma_self_band(n, delta, p);
        lemma_self_band(n, delta, q);
        lemma_left_edge_monotone(n, n, delta, q, p);
    }
    assert forall|p: int, q: int|
        0 <= p < n && 0 <= q < delta implies 0 <= #[trigger] c[p][q] <= MAX_COST by {
        lemma_cost_cell_range(f, f, delta, p, q);
    }
    assert(acc_input_wf(c, edges, delta));
    assert forall|p: int| 0 <= p < n implies #[trigger] c[p][p - edges[p]] == 0 by {
        lemma_self_band(n, delta, p);
        lemma_cost_diag_zero(f, delta, p);
    }
    assert forall|p: int, q: int|
        0 <= p < n && 0 <= q < delta && edges[p] + q != p implies #[trigger] c[p][q] >= 1 by {
        assert(edges[p] == spec_left_edge(n, n, delta, p));
        assert(c[p][q] == spec_cost_cell(f, f, delta, p, q) as i64);
        lemma_cost_cell_range(f, f, delta, p, q);
        if edges[p] + q < n {
            assert(spec_left_edge(n, n, delta, p) + q < n);
            assert(spec_left_edge(n, n, delta, p) + q != p);
            assert(spec_cost_cell(f, f, delta, p, q) >= 1);
        } else {
            reveal(spec_cost_cell);
            assert(spec_left_edge(n, n, delta, p) + q >= n);
            assert(spec_cost_cell(f, f, delta, p, q) == MAX_COST);
        }
    }
    assert forall|p: int| 0 <= p < n implies #[trigger] accm[p][p - edges[p]] == 0 by {
        lemma_acc_diag_zero(c, edges, delta, p);
    }
    assert forall|p: int, q: int|
        0 <= p < n && 0 <= q < delta && edges[p] + q != p implies #[trigger] accm[p][q] >= 1 by {
        lemma_acc_offdiag_pos(c, edges, delta, p, q);
        lemma_acc_bound(c, edges, delta, p, q);
        assert((p * delta + q + 1) * MAX_COST < INF_COST) by (nonlinear_arith)
            requires
                0 <= p < n,
                0 <= q < delta,
                1 <= delta,
                n * delta <= 400_000_000_000_000,
                MAX_COST == 20_000,
                INF_COST == i64::MAX,
        ;
    }
    lemma_diagonal_path(accm, edges, delta, n, n - 1);
}

/// Non-decreasing left edges compare across any pair of rows.
pub proof fn lemma_edges_monotone_chain(edges: Seq<usize>, delta: int, p: int, q: int)
    requires
        forall|t: int, u: int|
            1 <= t < edges.len() && u == t - 1 ==> #[trigger] edges[u] <= #[trigger] edges[t]
                && edges[t] <= edges[u] + delta,
        0 <= p <= q < edges.len(),
    ensures
        edges[p] <= edges[q],
    decreases q - p,
{
    if p < q {
        lemma_edges_monotone_chain(edges, delta, p, q - 1);
        assert(edges[q - 1] <= edges[q]);
    }
}

} // verus!
