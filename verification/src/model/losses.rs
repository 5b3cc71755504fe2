use vstd::prelude::*;

use crate::linalg::{bounded_seq, DIM_MAX, VAL_MAX};

verus! {

/// Sum of squared differences between two bounded rows.
pub open spec fn spec_sq_err_sum(p: Seq<i64>, t: Seq<i64>) -> int
    decreases p.len(),
{
    if p.len() == 0 {
        0
    } else {
        spec_sq_err_sum(p.drop_last(), t.drop_last()) + (p.last() as int - t.last() as int) * (
        p.last() as int - t.last() as int)
    }
}

/// Mean squared error, floored: the regression loss on one prediction
/// row against its target row.
pub open spec fn spec_regression_loss(p: Seq<i64>, t: Seq<i64>) -> int {
    spec_sq_err_sum(p, t) / p.len() as int
}

/// Exact floored mean squared error between a prediction row and a
/// target row of the same width.
pub fn regression_loss(predictions: &Vec<i64>, targets: &Vec<i64>) -> (r: i64)
    requires
        predictions@.len() == targets@.len(),
        1 <= predictions@.len() <= DIM_MAX,
        bounded_seq(predictions@),
        bounded_seq(targets@),
    ensures
        r as int == spec_regression_loss(predictions@, targets@),
        r >= 0,
{
    let n = predictions.len();
    let mut acc: i64 = 0;
    let mut i: usize = 0;
    while i < n
        invariant
            i <= n,
            n == predictions@.len(),
            n == targets@.len(),
            1 <= n <= DIM_MAX,
            bounded_seq(predictions@),
            bounded_seq(targets@),
            acc as int == spec_sq_err_sum(predictions@.take(i as int), targets@.take(i as int)),
            0 <= acc as int <= (i as int) * (4 * VAL_MAX as int * VAL_MAX as int),
        decreases n - i,
    {
        let d = predictions[i] - targets[i];
        proof {
            let dv = predictions@[i as int] as int - targets@[i as int] as int;
            assert(0 <= dv * dv <= 4 * VAL_MAX as int * VAL_MAX as int) by (nonlinear_arith)
                requires
                    -2 * VAL_MAX as int <= dv <= 2 * VAL_MAX as int,
                    VAL_MAX as int > 0,
            ;
            assert((i as int) * (4 * VAL_MAX as int * VAL_MAX as int) + 4 * VAL_MAX as int
                * VAL_MAX as int == (i as int + 1) * (4 * VAL_MAX as int * VAL_MAX as int))
                by (nonlinear_arith);
            assert((i as int + 1) * (4 * VAL_MAX as int * VAL_MAX as int) <= (n as int) * (4
                * VAL_MAX as int * VAL_MAX as int)) by (nonlinear_arith)
                requires
                    i as int + 1 <= n as int,
                    VAL_MAX as int > 0,
            ;
            assert((n as int) * (4 * VAL_MAX as int * VAL_MAX as int) <= 4_000_000_000_000_000_000)
                by (nonlinear_arith)
                requires
                    0 <= n as int <= 1_000_000,
                    VAL_MAX == 1_000_000,
            ;
            assert(predictions@.take(i as int + 1).drop_last() =~= predictions@.take(i as int));
            assert(targets@.take(i as int + 1).drop_last() =~= targets@.take(i as int));
        }
        let sq = d * d;
        acc = acc + sq;
        i = i + 1;
    }
    proof {
        assert(predictions@.take(n as int) =~= predictions@);
        assert(targets@.take(n as int) =~= targets@);
        vstd::arithmetic::div_mod::lemma_div_pos_is_pos(acc as int, n as int);
        vstd::arithmetic::div_mod::lemma_div_nonincreasing(acc as int, n as int);
    }
    (acc as u64 / n as u64) as i64
}

} // verus!
