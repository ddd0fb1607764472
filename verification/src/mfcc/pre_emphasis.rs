//! Pre-emphasis: a first-order high-pass difference filter.

use vstd::prelude::*;

use crate::fixed::{trunc_div, SAMPLE_LIMIT, SCALE};

verus! {

/// The pre-emphasized value at position `t`: the first sample is left
/// unchanged; afterwards the scaled previous sample is subtracted.
pub open spec fn spec_pre_emphasis_at(x: Seq<i64>, factor: int, t: int) -> int {
    if t == 0 {
        x[0] as int
    } else {
        x[t] - trunc_div(factor * x[t - 1], SCALE as int)
    }
}

/// Applies pre-emphasis to a whole signal.  The output has the length of
/// the input (so an empty input yields an empty output), its first sample
/// equals the input's first sample, and every later sample follows the
/// difference formula.
pub fn pre_emphasis(signal: &Vec<i64>, pre_emphasis_factor: i64) -> (r: Vec<i64>)
    requires
        0 <= pre_emphasis_factor <= SCALE,
        forall|t: int|
            0 <= t < signal@.len() ==> -SAMPLE_LIMIT <= #[trigger] signal@[t] <= SAMPLE_LIMIT,
    ensures
        r@.len() == signal@.len(),
        forall|t: int|
            0 <= t < r@.len() ==> #[trigger] r@[t] == spec_pre_emphasis_at(
                signal@,
                pre_emphasis_factor as int,
                t,
            ),
        signal@.len() > 0 ==> r@[0] == signal@[0],
        forall|t: int| 0 <= t < r@.len() ==> -2 * SAMPLE_LIMIT <= #[trigger] r@[t] <= 2
            * SAMPLE_LIMIT,
{
    let mut emphasized: Vec<i64> = Vec::new();
    if signal.len() == 0 {
        return emphasized;
    }
    emphasized.push(signal[0]);
    let mut t: usize = 1;
    while t < signal.len()
        invariant
            1 <= t <= signal@.len(),
            0 <= pre_emphasis_factor <= SCALE,
            forall|p: int|
                0 <= p < signal@.len() ==> -SAMPLE_LIMIT <= #[trigger] signal@[p] <= SAMPLE_LIMIT,
            emphasized@.len() == t,
            forall|p: int|
                0 <= p < t ==> #[trigger] emphasized@[p] == spec_pre_emphasis_at(
                    signal@,
                    pre_emphasis_factor as int,
                    p,
                ),
            forall|p: int| 0 <= p < t ==> -2 * SAMPLE_LIMIT <= #[trigger] emphasized@[p] <= 2
                * SAMPLE_LIMIT,
        decreases signal@.len() - t,
    {
        let prev = signal[t - 1];
        proof {
            assert(-(SCALE * SAMPLE_LIMIT) <= pre_emphasis_factor * prev <= SCALE * SAMPLE_LIMIT)
                by (nonlinear_arith)
                requires
                    0 <= pre_emphasis_factor <= SCALE,
                    -SAMPLE_LIMIT <= prev <= SAMPLE_LIMIT,
            ;
        }
        let scaled = (pre_emphasis_factor * prev) / SCALE;
        proof {
            lemma_trunc_div_symmetric_bound(
                pre_emphasis_factor * prev,
                SCALE as int,
                SAMPLE_LIMIT as int,
            );
        }
        emphasized.push(signal[t] - scaled);
        t += 1;
    }
    emphasized
}

/// Truncating division by a positive divisor keeps a symmetric bound.
pub proof fn lemma_trunc_div_symmetric_bound(a: int, b: int, m: int)
    requires
        b > 0,
        m >= 0,
        -(b * m) <= a <= b * m,
    ensures
        -m <= trunc_div(a, b) <= m,
{
    if a >= 0 {
        vstd::arithmetic::div_mod::lemma_div_is_ordered(a, b * m, b);
        vstd::arithmetic::div_mod::lemma_div_multiples_vanish(m, b);
        vstd::arithmetic::div_mod::lemma_div_pos_is_pos(a, b);
    } else {
        vstd::arithmetic::div_mod::lemma_div_is_ordered(-a, b * m, b);
        vstd::arithmetic::div_mod::lemma_div_multiples_vanish(m, b);
        vstd::arithmetic::div_mod::lemma_div_pos_is_pos(-a, b);
    }
}

} // verus!
