use vstd::prelude::*;

use vstd::assert_seqs_equal;
use vstd::seq_lib::group_to_multiset_ensures;

use crate::error::MorError;
use crate::linalg::{
    bounded_seq, floor_div, in_val_range, lemma_div_bound_both, lemma_prefix_sum_le, lin_out_dim,
    lin_wf, matrix_wf, spec_affine_checked, spec_sum, LinearLayer, LinearV, DIM_MAX, SCALE,
    VAL_MAX,
};

verus! {

/// The integration layer: scales each expert's output by that
/// example's gate probability, sums across experts, and applies one
/// final affine projection to the task's output dimensionality.
pub struct IntegrationLayer {
    pub linear: LinearLayer,
}

impl View for IntegrationLayer {
    type V = LinearV;

    open spec fn view(&self) -> LinearV {
        self.linear@
    }
}

/// A valid gate row: non-negative fixed-point weights summing to one.
pub open spec fn gate_row_valid(w: Seq<i64>) -> bool {
    &&& spec_sum(w) == SCALE
    &&& forall|i: int| 0 <= i < w.len() ==> #[trigger] w[i] >= 0
}

/// The weighted sum of the experts' outputs at coordinate `j`,
/// in expert order.
pub open spec fn spec_weighted_sum(outs: Seq<Seq<i64>>, w: Seq<i64>, j: int) -> int
    decreases outs.len(),
{
    if outs.len() == 0 {
        0
    } else {
        spec_weighted_sum(outs.drop_last(), w.drop_last(), j) + (w.last() as int)
            * (outs.last()[j] as int)
    }
}

/// The soft-mixture combination before the projection: each
/// coordinate is the weighted sum scaled back down by `SCALE`.
pub open spec fn spec_combined(outs: Seq<Seq<i64>>, w: Seq<i64>, dim: int) -> Seq<i64> {
    Seq::new(dim as nat, |j: int| ((spec_weighted_sum(outs, w, j)) / (SCALE as int)) as i64)
}

/// The full integration step: soft mixture, then affine projection.
pub open spec fn spec_combine_checked(
    l: LinearV,
    outs: Seq<Seq<i64>>,
    w: Seq<i64>,
    dim: int,
) -> Option<Seq<i64>> {
    spec_affine_checked(l, spec_combined(outs, w, dim))
}

impl IntegrationLayer {
    /// Zero-initialised projection from the mixture's feature width to
    /// the task's output width.
    pub fn new(input_dim: usize, output_dim: usize) -> (r: IntegrationLayer)
        requires
            1 <= input_dim <= DIM_MAX,
            1 <= output_dim <= DIM_MAX,
        ensures
            lin_wf(r@, input_dim as int),
            lin_out_dim(r@) == output_dim as int,
    {
        IntegrationLayer { linear: LinearLayer::zeros(output_dim, input_dim) }
    }

    /// The final affine projection on one combined feature row.
    pub fn forward(&self, input: &Vec<i64>) -> (r: Result<Vec<i64>, MorError>)
        requires
            lin_wf(self@, input@.len() as int),
            bounded_seq(input@),
        ensures
            match r {
                Ok(y) => {
                    &&& spec_affine_checked(self@, input@) == Some(y@)
                    &&& y@.len() == lin_out_dim(self@)
                    &&& bounded_seq(y@)
                },
                Err(e) => {
                    &&& spec_affine_checked(self@, input@) is None
                    &&& e == MorError::Numeric
                },
            },
    {
        self.linear.forward(input)
    }

    /// Combines the expert output set under the routing distribution:
    /// per coordinate its weighted sum over all experts, scaled
    /// back by `SCALE`, then the final projection. Because a valid
    /// row sums to `SCALE`, the mixture itself never overflows; only
    /// the projection can fail numerically.
    pub fn combine_expert_outputs(&self, inputs: &Vec<Vec<i64>>, weights: &Vec<i64>) -> (r: Result<
        Vec<i64>,
        MorError,
    >)
        requires
            1 <= inputs@.len() <= DIM_MAX,
            weights@.len() == inputs@.len(),
            gate_row_valid(weights@),
            matrix_wf(inputs@.map_values(|v: Vec<i64>| v@), self@.weight[0].len() as int),
            lin_wf(self@, self@.weight[0].len() as int),
        ensures
            match r {
                Ok(y) => {
                    &&& spec_combine_checked(
                        self@,
                        inputs@.map_values(|v: Vec<i64>| v@),
                        weights@,
                        self@.weight[0].len() as int,
                    ) == Some(y@)
                    &&& y@.len() == lin_out_dim(self@)
                    &&& bounded_seq(y@)
                },
                Err(e) => {
                    &&& spec_combine_checked(
                        self@,
                        inputs@.map_values(|v: Vec<i64>| v@),
                        weights@,
                        self@.weight[0].len() as int,
                    ) is None
                    &&& e == MorError::Numeric
                },
            },
    {
        let ghost os = inputs@.map_values(|v: Vec<i64>| v@);
        let dim = self.linear.weight[0].len();
        let n = inputs.len();
        let mut combined: Vec<i64> = Vec::new();
        let mut j: usize = 0;
        while j < dim
            invariant
                j <= dim,
                1 <= dim <= DIM_MAX,
                dim as int == self@.weight[0].len() as int,
                1 <= n <= DIM_MAX,
                n == inputs@.len(),
                weights@.len() == n as int,
                gate_row_valid(weights@),
                os == inputs@.map_values(|v: Vec<i64>| v@),
                matrix_wf(os, dim as int),
                combined@.len() == j as int,
                forall|k: int|
                    0 <= k < j as int ==> #[trigger] combined@[k] == spec_combined(
                        os,
                        weights@,
                        dim as int,
                    )[k],
                bounded_seq(combined@),
            decreases dim - j,
        {
            let mut acc: i64 = 0;
            let mut e: usize = 0;
            while e < n
                invariant
                    e <= n,
                    j < dim,
                    1 <= n <= DIM_MAX,
                    n == inputs@.len(),
                    weights@.len() == n as int,
                    gate_row_valid(weights@),
                    os == inputs@.map_values(|v: Vec<i64>| v@),
                    matrix_wf(os, dim as int),
                    acc as int == spec_weighted_sum(os.take(e as int), weights@.take(e as int),
                        j as int),
                    -(spec_sum(weights@.take(e as int)) * VAL_MAX as int) <= acc as int <= spec_sum(
                        weights@.take(e as int),
                    ) * VAL_MAX as int,
                    0 <= spec_sum(weights@.take(e as int)) <= SCALE as int,
                decreases n - e,
            {
                proof {
                    lemma_prefix_sum_le(weights@, e as int);
                    lemma_prefix_sum_le(weights@, e as int + 1);
                    assert(os[e as int] == inputs@[e as int]@);
                    assert(in_val_range(os[e as int][j as int] as int));
                    assert(weights@.take(e as int + 1).drop_last() =~= weights@.take(e as int));
                    assert(os.take(e as int + 1).drop_last() =~= os.take(e as int));
                    let wv = weights@[e as int] as int;
                    let ov = os[e as int][j as int] as int;
                    assert(-(wv * VAL_MAX as int) <= wv * ov <= wv * VAL_MAX as int)
                        by (nonlinear_arith)
                        requires
                            wv >= 0,
                            -VAL_MAX <= ov <= VAL_MAX,
                    ;
                    assert(spec_sum(weights@.take(e as int)) * VAL_MAX as int + wv * VAL_MAX as int
                        == spec_sum(weights@.take(e as int + 1)) * VAL_MAX as int)
                        by (nonlinear_arith)
                        requires
                            spec_sum(weights@.take(e as int + 1)) == spec_sum(weights@.take(
                                e as int,
                            )) + wv,
                    ;
                    assert(spec_sum(weights@.take(e as int + 1)) * VAL_MAX as int <= SCALE as int
                        * VAL_MAX as int) by (nonlinear_arith)
                        requires
                            spec_sum(weights@.take(e as int + 1)) <= SCALE as int,
                            VAL_MAX as int > 0,
                    ;
                    assert(spec_sum(weights@.take(e as int)) * VAL_MAX as int <= SCALE as int
                        * VAL_MAX as int) by (nonlinear_arith)
                        requires
                            spec_sum(weights@.take(e as int)) <= SCALE as int,
                            VAL_MAX as int > 0,
                    ;
                }
                let p = weights[e] * inputs[e][j];
                acc = acc + p;
                e = e + 1;
            }
            proof {
                assert(weights@.take(n as int) =~= weights@);
                assert(os.take(n as int) =~= os);
                lemma_div_bound_both(acc as int, SCALE as int, VAL_MAX as int);
                assert(SCALE as int * VAL_MAX as int == 10_000_000_000int) by (nonlinear_arith);
            }
            let c = floor_div(acc, SCALE);
            combined.push(c);
            j = j + 1;
        }
        proof {
            assert(combined@ =~= spec_combined(os, weights@, dim as int));
        }
        self.linear.forward(&combined)
    }
}

/// One (gate weight, expert output) contribution list.
pub open spec fn zip_gate(w: Seq<i64>, outs: Seq<Seq<i64>>) -> Seq<(i64, Seq<i64>)> {
    Seq::new(w.len(), |i: int| (w[i], outs[i]))
}

/// The weighted sum over an explicit contribution list.
pub open spec fn spec_pair_wsum(ps: Seq<(i64, Seq<i64>)>, j: int) -> int
    decreases ps.len(),
{
    if ps.len() == 0 {
        0
    } else {
        spec_pair_wsum(ps.drop_last(), j) + (ps.last().0 as int) * (ps.last().1[j] as int)
    }
}

/// The in-order weighted sum is the contribution-list sum.
pub proof fn lemma_zip_wsum(w: Seq<i64>, outs: Seq<Seq<i64>>, j: int)
    requires
        w.len() == outs.len(),
    ensures
        spec_weighted_sum(outs, w, j) == spec_pair_wsum(zip_gate(w, outs), j),
    decreases w.len(),
{
    if w.len() > 0 {
        lemma_zip_wsum(w.drop_last(), outs.drop_last(), j);
        assert(zip_gate(w, outs).drop_last() =~= zip_gate(w.drop_last(), outs.drop_last()));
    }
}

/// Removing one contribution removes exactly its term.
proof fn lemma_pair_wsum_remove(ps: Seq<(i64, Seq<i64>)>, k: int, j: int)
    requires
        0 <= k < ps.len(),
    ensures
        spec_pair_wsum(ps.remove(k), j) == spec_pair_wsum(ps, j) - (ps[k].0 as int) * (
        ps[k].1[j] as int),
    decreases ps.len(),
{
    if k == ps.len() - 1 {
        assert(ps.remove(k) =~= ps.drop_last());
    } else {
        lemma_pair_wsum_remove(ps.drop_last(), k, j);
        assert(ps.remove(k).drop_last() =~= ps.drop_last().remove(k));
        assert(ps.remove(k).last() == ps.last());
    }
}

/// Integration commutativity: two contribution lists that hold the
/// same (gate weight, expert output) pairs — in any order — have the
/// same weighted sum at every coordinate. Summing the expert outputs
/// in a permuted order before the final projection does not change
/// the result.
pub proof fn lemma_pair_wsum_permutation(pa: Seq<(i64, Seq<i64>)>, pb: Seq<(i64, Seq<i64>)>, j: int)
    requires
        pa.to_multiset() == pb.to_multiset(),
    ensures
        spec_pair_wsum(pa, j) == spec_pair_wsum(pb, j),
    decreases pa.len(),
{
    broadcast use group_to_multiset_ensures;

    pa.to_multiset_ensures();
    pb.to_multiset_ensures();
    if pa.len() == 0 {
        assert(pb.to_multiset().len() == 0);
        assert(pb.len() == 0);
    } else {
        let x = pa.last();
        assert(pa.contains(x));
        assert(pa.to_multiset().count(x) > 0);
        assert(pb.to_multiset().count(x) > 0);
        assert(pb.contains(x));
        let k = choose|k: int| 0 <= k < pb.len() && pb[k] == x;
        assert(pa.drop_last() =~= pa.remove(pa.len() - 1));
        assert(pa.remove(pa.len() - 1).to_multiset() =~= pa.to_multiset().remove(x));
        assert(pb.remove(k).to_multiset() =~= pb.to_multiset().remove(x));
        assert(pa.drop_last().to_multiset() == pb.remove(k).to_multiset());
        lemma_pair_wsum_permutation(pa.drop_last(), pb.remove(k), j);
        lemma_pair_wsum_remove(pb, k, j);
    }
}

/// The public face of integration commutativity over a gate row and the
/// expert output set: permuting the experts (carrying each one's gate
/// weight with it) leaves every coordinate of the soft mixture, and
/// therefore the integrated output, unchanged.
pub proof fn lemma_integration_commutes(
    l: LinearV,
    outs1: Seq<Seq<i64>>,
    w1: Seq<i64>,
    outs2: Seq<Seq<i64>>,
    w2: Seq<i64>,
    dim: int,
)
    requires
        w1.len() == outs1.len(),
        w2.len() == outs2.len(),
        zip_gate(w1, outs1).to_multiset() == zip_gate(w2, outs2).to_multiset(),
    ensures
        spec_combined(outs1, w1, dim) == spec_combined(outs2, w2, dim),
        spec_combine_checked(l, outs1, w1, dim) == spec_combine_checked(l, outs2, w2, dim),
{
    assert_seqs_equal!(spec_combined(outs1, w1, dim) == spec_combined(outs2, w2, dim), j => {
        lemma_zip_wsum(w1, outs1, j);
        lemma_zip_wsum(w2, outs2, j);
        lemma_pair_wsum_permutation(zip_gate(w1, outs1), zip_gate(w2, outs2), j);
    });
}

} // verus!
