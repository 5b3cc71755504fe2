use vstd::prelude::*;

use crate::error::MorError;
use crate::linalg::{
    bounded_seq, copy_row, lin_out_dim, lin_wf, matrix_wf, mean_rows, relu_vec, spec_affine_checked,
    spec_mean_rows, spec_relu, LinearLayer, LinearV, DIM_MAX,
};

verus! {

/// One reflection expert: a self-contained feed-forward transform,
/// `reflection_depth` square affine layers with a rectifier between
/// consecutive layers, applied to every position of the embedded
/// representation, then mean-pooled to one feature row. Experts do not
/// share parameters or communicate with each other.
pub struct ReflectionModule {
    pub layers: Vec<LinearLayer>,
}

impl View for ReflectionModule {
    type V = Seq<LinearV>;

    open spec fn view(&self) -> Seq<LinearV> {
        self.layers@.map_values(|l: LinearLayer| l@)
    }
}

/// A well-formed expert over feature width `dim`: at least one layer,
/// every layer square over `dim`.
pub open spec fn expert_wf(layers: Seq<LinearV>, dim: int) -> bool {
    &&& 1 <= layers.len() <= DIM_MAX
    &&& forall|i: int|
        0 <= i < layers.len() ==> lin_wf(#[trigger] layers[i], dim) && lin_out_dim(layers[i])
            == dim
}

/// The layer stack on one position: affine, rectify, affine, ...,
/// ending on a plain affine. `None` is a numeric failure in some
/// layer.
pub open spec fn spec_ff_stack(layers: Seq<LinearV>, x: Seq<i64>) -> Option<Seq<i64>>
    decreases layers.len(),
{
    if layers.len() == 0 {
        Some(x)
    } else {
        match spec_affine_checked(layers[0], x) {
            Option::None => Option::None,
            Option::Some(y) => if layers.len() == 1 {
                Option::Some(y)
            } else {
                spec_ff_stack(layers.drop_first(), spec_relu(y))
            },
        }
    }
}

/// The stack applied to every position, in order.
pub open spec fn spec_expert_positions(layers: Seq<LinearV>, rows: Seq<Seq<i64>>) -> Option<
    Seq<Seq<i64>>,
>
    decreases rows.len(),
{
    if rows.len() == 0 {
        Some(Seq::empty())
    } else {
        match (
            spec_expert_positions(layers, rows.drop_last()),
            spec_ff_stack(layers, rows.last()),
        ) {
            (Some(ts), Some(y)) => Some(ts.push(y)),
            _ => None,
        }
    }
}

/// The expert's full output: per-position transform, then mean pool.
pub open spec fn spec_expert_forward(layers: Seq<LinearV>, rows: Seq<Seq<i64>>) -> Option<
    Seq<i64>,
> {
    match spec_expert_positions(layers, rows) {
        Option::None => Option::None,
        Option::Some(ts) => Option::Some(spec_mean_rows(ts, lin_out_dim(layers.last()))),
    }
}

impl ReflectionModule {
    /// Zero-initialised expert of the given width and depth:
    /// `reflection_depth` is the knob for per-expert internal depth.
    pub fn new(embedding_dim: usize, reflection_depth: usize) -> (r: ReflectionModule)
        requires
            1 <= embedding_dim <= DIM_MAX,
            1 <= reflection_depth <= DIM_MAX,
        ensures
            expert_wf(r@, embedding_dim as int),
            r@.len() == reflection_depth as int,
    {
        let mut layers: Vec<LinearLayer> = Vec::new();
        let mut l: usize = 0;
        while l < reflection_depth
            invariant
                l <= reflection_depth,
                1 <= embedding_dim <= DIM_MAX,
                layers@.len() == l as int,
                forall|k: int|
                    0 <= k < l as int ==> lin_wf((#[trigger] layers@[k])@, embedding_dim as int)
                        && lin_out_dim(layers@[k]@) == embedding_dim as int,
            decreases reflection_depth - l,
        {
            let layer = LinearLayer::zeros(embedding_dim, embedding_dim);
            layers.push(layer);
            l = l + 1;
        }
        ReflectionModule { layers }
    }

    /// Runs the layer stack on one position.
    fn apply_stack(&self, x: &Vec<i64>, dim: usize) -> (r: Result<Vec<i64>, MorError>)
        requires
            expert_wf(self@, dim as int),
            x@.len() == dim as int,
            bounded_seq(x@),
        ensures
            match r {
                Ok(y) => {
                    &&& spec_ff_stack(self@, x@) == Some(y@)
                    &&& y@.len() == dim as int
                    &&& bounded_seq(y@)
                },
                Err(e) => {
                    &&& spec_ff_stack(self@, x@) is None
                    &&& e == MorError::Numeric
                },
            },
    {
        let depth = self.layers.len();
        let mut cur = copy_row(x);
        let mut l: usize = 0;
        proof {
            assert(self@.skip(0) =~= self@);
        }
        while l < depth
            invariant
                l < depth || (depth == 0 && l == 0),
                depth == self@.len(),
                expert_wf(self@, dim as int),
                cur@.len() == dim as int,
                bounded_seq(cur@),
                spec_ff_stack(self@, x@) == spec_ff_stack(self@.skip(l as int), cur@),
            decreases depth - l,
        {
            proof {
                assert(self@.skip(l as int)[0] == self@[l as int]);
                assert(self@[l as int] == self.layers@[l as int]@);
            }
            let y = match self.layers[l].forward(&cur) {
                Ok(y) => y,
                Err(err) => {
                    return Err(err);
                },
            };
            if l + 1 == depth {
                proof {
                    assert(self@.skip(l as int).len() == 1);
                }
                return Ok(y);
            }
            cur = relu_vec(&y);
            proof {
                assert(self@.skip(l as int).drop_first() =~= self@.skip(l as int + 1));
            }
            l = l + 1;
        }
        proof {
            assert(false);
        }
        Err(MorError::Numeric)
    }

    /// The expert's output on the embedded representation: exact, or
    /// `Numeric` when some position's transform overflows.
    pub fn forward(&self, input: &Vec<Vec<i64>>) -> (r: Result<Vec<i64>, MorError>)
        requires
            expert_wf(self@, self@[0].weight.len() as int),
            1 <= input@.len() <= DIM_MAX,
            matrix_wf(input@.map_values(|v: Vec<i64>| v@), self@[0].weight.len() as int),
        ensures
            match r {
                Ok(y) => {
                    &&& spec_expert_forward(self@, input@.map_values(|v: Vec<i64>| v@)) == Some(
                        y@,
                    )
                    &&& y@.len() == self@[0].weight.len() as int
                    &&& bounded_seq(y@)
                },
                Err(e) => {
                    &&& spec_expert_forward(self@, input@.map_values(|v: Vec<i64>| v@)) is None
                    &&& e == MorError::Numeric
                },
            },
    {
        let ghost rs = input@.map_values(|v: Vec<i64>| v@);
        let dim = self.layers[0].weight.len();
        let n = input.len();
        let mut ts: Vec<Vec<i64>> = Vec::new();
        let mut i: usize = 0;
        while i < n
            invariant
                i <= n,
                n == input@.len(),
                1 <= n <= DIM_MAX,
                dim as int == self@[0].weight.len() as int,
                expert_wf(self@, dim as int),
                rs == input@.map_values(|v: Vec<i64>| v@),
                matrix_wf(rs, dim as int),
                ts@.len() == i as int,
                spec_expert_positions(self@, rs.take(i as int)) == Some(
                    ts@.map_values(|v: Vec<i64>| v@),
                ),
                matrix_wf(ts@.map_values(|v: Vec<i64>| v@), dim as int),
            decreases n - i,
        {
            proof {
                assert(rs[i as int] == input@[i as int]@);
            }
            let y = match self.apply_stack(&input[i], dim) {
                Ok(y) => y,
                Err(err) => {
                    proof {
                        lemma_expert_positions_none(self@, rs, i as int);
                    }
                    return Err(err);
                },
            };
            ts.push(y);
            proof {
                assert(rs.take(i as int + 1).drop_last() =~= rs.take(i as int));
                assert(rs.take(i as int + 1).last() == rs[i as int]);
                assert(ts@.map_values(|v: Vec<i64>| v@) =~= ts@.map_values(
                    |v: Vec<i64>| v@,
                ).drop_last().push(ts@.last()@));
            }
            i = i + 1;
        }
        proof {
            assert(rs.take(n as int) =~= rs);
            assert(lin_out_dim(self@.last()) == dim as int);
        }
        let pooled = mean_rows(&ts, dim);
        Ok(pooled)
    }
}

/// If the stack fails on any position, the whole per-position map
/// fails.
proof fn lemma_expert_positions_none(layers: Seq<LinearV>, rows: Seq<Seq<i64>>, i: int)
    requires
        0 <= i < rows.len(),
        spec_ff_stack(layers, rows[i]) is None,
    ensures
        spec_expert_positions(layers, rows) is None,
    decreases rows.len(),
{
    if i < rows.len() - 1 {
        lemma_expert_positions_none(layers, rows.drop_last(), i);
    }
}

} // verus!
