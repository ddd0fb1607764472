//! Fixed-point arithmetic for the alignment engine.
//!
//! All fractional quantities (samples, taper weights, filter weights,
//! cosine-distance costs) are carried as `i64` values scaled by `SCALE`,
//! so that `SCALE` stands for the real value 1.0.  Division rounds toward
//! zero, exactly as Rust's `/` does on signed integers.

use vstd::prelude::*;

verus! {

/// The fixed-point unit: this value stands for 1.0.
pub const SCALE: i64 = 10_000;

/// The maximal cosine distance, 2.0 in fixed point: the substitute cost for
/// zero-norm (silent) frames and the clamp ceiling for every cost cell.
pub const MAX_COST: i64 = 20_000;

/// Marker that a dynamic-programming predecessor lies outside the band.
/// It compares strictly above every stored cost, and is never stored itself.
pub const INF_COST: i64 = i64::MAX;

/// Bound on the magnitude of a feature-matrix entry.
pub const FEAT_LIMIT: i64 = 3_000_000;

/// Bound on the coefficient dimension (rows) of a feature matrix.
pub const MAX_COEFFS: usize = 256;

/// Bound on the magnitude of a raw sample handed to the framer.
pub const SAMPLE_LIMIT: i64 = 100_000_000_000_000;

/// Truncating division (rounds toward zero), the semantics of `/` on `i64`.
pub open spec fn trunc_div(a: int, b: int) -> int {
    if a >= 0 {
        a / b
    } else {
        -((-a) / b)
    }
}

/// Minimum of three candidates; `INF_COST` acts as "no candidate".
pub open spec fn spec_min3(c0: int, c1: int, c2: int) -> int {
    if c0 <= c1 && c0 <= c2 {
        c0
    } else if c1 <= c2 {
        c1
    } else {
        c2
    }
}

/// Arg-minimum of three candidates with the fixed tie-break priority
/// up (0) over left (1) over diagonal (2).
pub open spec fn spec_argmin3(c0: int, c1: int, c2: int) -> int {
    if c0 <= c1 && c0 <= c2 {
        0
    } else if c1 <= c2 {
        1
    } else {
        2
    }
}

/// Dot product of the first `k` entries of two sequences.
pub open spec fn dot_prefix(a: Seq<i64>, b: Seq<i64>, k: int) -> int
    decreases k,
{
    if k <= 0 {
        0
    } else {
        dot_prefix(a, b, k - 1) + a[k - 1] * b[k - 1]
    }
}

/// Dot product of two equal-length sequences.
pub open spec fn spec_dot(a: Seq<i64>, b: Seq<i64>) -> int {
    dot_prefix(a, b, a.len() as int)
}

/// Sum of the first `k` entries of a sequence.
pub open spec fn sum_prefix(a: Seq<i64>, k: int) -> int
    decreases k,
{
    if k <= 0 {
        0
    } else {
        sum_prefix(a, k - 1) + a[k - 1]
    }
}

/// Sum of a sequence.
pub open spec fn spec_sum(a: Seq<i64>) -> int {
    sum_prefix(a, a.len() as int)
}

/// Dot product of two equal-length sequences of bounded entries, with a
/// bound on the result that rules out overflow.
pub fn dot_bounded(a: &Vec<i64>, b: &Vec<i64>, abound: i64, bbound: i64) -> (r: i64)
    requires
        a@.len() == b@.len(),
        0 <= abound,
        0 <= bbound,
        (a@.len() as int) * (abound * bbound) <= 4_000_000_000_000_000_000,
        forall|k: int| 0 <= k < a@.len() ==> -abound <= #[trigger] a@[k] <= abound,
        forall|k: int| 0 <= k < b@.len() ==> -bbound <= #[trigger] b@[k] <= bbound,
    ensures
        r == spec_dot(a@, b@),
        -((a@.len() as int) * (abound * bbound)) <= r <= (a@.len() as int) * (abound * bbound),
{
    let n = a.len();
    let mut sum: i64 = 0;
    let mut k: usize = 0;
    while k < n
        invariant
            0 <= k <= n,
            n == a@.len() == b@.len(),
            0 <= abound,
            0 <= bbound,
            (n as int) * (abound * bbound) <= 4_000_000_000_000_000_000,
            forall|p: int| 0 <= p < a@.len() ==> -abound <= #[trigger] a@[p] <= abound,
            forall|p: int| 0 <= p < b@.len() ==> -bbound <= #[trigger] b@[p] <= bbound,
            sum == dot_prefix(a@, b@, k as int),
            -((k as int) * (abound * bbound)) <= sum <= (k as int) * (abound * bbound),
        decreases n - k,
    {
        let x = a[k];
        let y = b[k];
        proof {
            assert(-(abound * bbound) <= x * y <= abound * bbound) by (nonlinear_arith)
                requires
                    -abound <= x <= abound,
                    -bbound <= y <= bbound,
                    0 <= abound,
                    0 <= bbound,
            ;
            assert((k as int + 1) * (abound * bbound) == (k as int) * (abound * bbound) + abound
                * bbound) by (nonlinear_arith);
            assert((k as int + 1) * (abound * bbound) <= (n as int) * (abound * bbound))
                by (nonlinear_arith)
                requires
                    k as int + 1 <= n as int,
                    0 <= abound * bbound,
            ;
        }
        sum = sum + x * y;
        k += 1;
    }
    sum
}

/// A dot product of a sequence with itself is non-negative.
pub proof fn lemma_self_dot_nonneg(a: Seq<i64>)
    ensures
        forall|k: int| 0 <= k <= a.len() ==> #[trigger] dot_prefix(a, a, k) >= 0,
        spec_dot(a, a) >= 0,
{
    assert forall|k: int| 0 <= k <= a.len() implies #[trigger] dot_prefix(a, a, k) >= 0 by {
        lemma_self_dot_prefix_nonneg(a, k);
    }
}

proof fn lemma_self_dot_prefix_nonneg(a: Seq<i64>, k: int)
    ensures
        dot_prefix(a, a, k) >= 0,
    decreases k,
{
    if k > 0 {
        lemma_self_dot_prefix_nonneg(a, k - 1);
        assert(a[k - 1] * a[k - 1] >= 0) by (nonlinear_arith);
    }
}

/// `r` is the integer square root of `x`.
pub open spec fn is_isqrt(x: int, r: int) -> bool {
    0 <= r && r * r <= x && x < (r + 1) * (r + 1)
}

/// The integer square root as a spec-level function.
pub open spec fn spec_isqrt(x: int) -> int {
    choose|r: int| is_isqrt(x, r)
}

/// The integer square root is unique, so any witness equals `spec_isqrt`.
pub proof fn lemma_isqrt_unique(x: int, r: int)
    requires
        is_isqrt(x, r),
    ensures
        spec_isqrt(x) == r,
{
    let w = choose|w: int| is_isqrt(x, w);
    assert(is_isqrt(x, w));
    if w < r {
        assert((w + 1) * (w + 1) <= r * r) by (nonlinear_arith)
            requires
                0 <= w,
                0 <= r,
                w < r,
        ;
        assert(false);
    }
    if r < w {
        assert((r + 1) * (r + 1) <= w * w) by (nonlinear_arith)
            requires
                0 <= r,
                0 <= w,
                r < w,
        ;
        assert(false);
    }
}

/// Every non-negative integer has an integer square root, so
/// `spec_isqrt` satisfies its defining property.
pub proof fn lemma_isqrt_exists(x: int)
    requires
        x >= 0,
    ensures
        is_isqrt(x, spec_isqrt(x)),
    decreases x,
{
    if x == 0 {
        assert(is_isqrt(0, 0));
    } else {
        lemma_isqrt_exists(x - 1);
        let r = spec_isqrt(x - 1);
        if (r + 1) * (r + 1) <= x {
            assert(x - 1 < (r + 1) * (r + 1));
            assert(x == (r + 1) * (r + 1));
            assert((r + 2) * (r + 2) > x) by (nonlinear_arith)
                requires
                    x == (r + 1) * (r + 1),
                    r >= 0,
            ;
            assert(is_isqrt(x, r + 1));
        } else {
            assert(is_isqrt(x, r));
        }
    }
}

/// Integer square root by bisection.
pub fn isqrt(x: i64) -> (r: i64)
    requires
        0 <= x <= 2_500_000_000_000_000_000,
    ensures
        is_isqrt(x as int, r as int),
        r == spec_isqrt(x as int),
{
    let mut lo: i64 = 0;
    let mut hi: i64 = 1_600_000_000;
    assert(hi * hi > x) by (nonlinear_arith)
        requires
            hi == 1_600_000_000,
            x <= 2_500_000_000_000_000_000,
    ;
    while hi - lo > 1
        invariant
            0 <= lo < hi <= 1_600_000_000,
            lo * lo <= x,
            x < hi * hi,
        decreases hi - lo,
    {
        let mid: i64 = lo + (hi - lo) / 2;
        assert(lo < mid < hi);
        assert(mid * mid <= 1_600_000_000i64 * 1_600_000_000i64) by (nonlinear_arith)
            requires
                0 <= mid <= 1_600_000_000i64,
        ;
        if mid * mid <= x {
            lo = mid;
        } else {
            hi = mid;
        }
    }
    proof {
        lemma_isqrt_unique(x as int, lo as int);
    }
    lo
}

} // verus!
