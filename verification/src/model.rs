use vstd::prelude::*;

pub mod embeddings;
pub mod evaluate;
pub mod expert_selector;
pub mod integration_layer;
pub mod losses;
pub mod params;
pub mod reflection_module;
pub mod train;

use crate::error::MorError;
use crate::linalg::{
    bounded_seq, lin_out_dim, matrix_wf, mean_rows, spec_mean_rows, DIM_MAX,
};
use crate::model::embeddings::{emb_wf, spec_embed, EmbeddingLayer};
use crate::model::expert_selector::{sel_wf, spec_selector_forward, ExpertSelector, SelectorV};
use crate::model::integration_layer::{spec_combine_checked, IntegrationLayer};
use crate::model::reflection_module::{expert_wf, spec_expert_forward, ReflectionModule};
use crate::linalg::LinearV;

verus! {

/// The full parameter tree: embedding table, gate, expert pool and
/// integrator, explicitly owned and passed by reference through the
/// training and evaluation entry points.
pub struct MorModel {
    pub embeddings: EmbeddingLayer,
    pub selector: ExpertSelector,
    pub experts: Vec<ReflectionModule>,
    pub integrator: IntegrationLayer,
}

/// Mathematical content of the parameter tree.
#[verifier::ext_equal]
pub struct ModelV {
    pub embeddings: Seq<Seq<i64>>,
    pub selector: SelectorV,
    pub experts: Seq<Seq<LinearV>>,
    pub integrator: LinearV,
}

impl View for MorModel {
    type V = ModelV;

    open spec fn view(&self) -> ModelV {
        ModelV {
            embeddings: self.embeddings@,
            selector: self.selector@,
            experts: self.experts@.map_values(|e: ReflectionModule| e@),
            integrator: self.integrator@,
        }
    }
}

/// The feature width every component agrees on.
pub open spec fn model_dim(m: ModelV) -> int {
    m.embeddings[0].len() as int
}

pub open spec fn model_num_experts(m: ModelV) -> int {
    m.experts.len() as int
}

pub open spec fn model_depth(m: ModelV) -> int {
    m.experts[0].len() as int
}

pub open spec fn model_out_dim(m: ModelV) -> int {
    lin_out_dim(m.integrator)
}

/// Well-formedness of the whole tree: a non-empty bounded embedding
/// table; a gate over the same feature width whose output width is the
/// number of experts; a non-empty expert pool of uniform depth, each
/// expert square over the feature width; and an integrator consuming
/// that width.
pub open spec fn model_wf(m: ModelV) -> bool {
    &&& emb_wf(m.embeddings)
    &&& sel_wf(m.selector, model_dim(m))
    &&& lin_out_dim(m.selector.linear2) == model_num_experts(m)
    &&& 1 <= m.experts.len() <= DIM_MAX
    &&& forall|e: int|
        0 <= e < m.experts.len() ==> expert_wf(#[trigger] m.experts[e], model_dim(m))
    &&& forall|e: int|
        0 <= e < m.experts.len() ==> (#[trigger] m.experts[e]).len() == model_depth(m)
    &&& crate::linalg::lin_wf(m.integrator, model_dim(m))
}

/// Tokens a forward pass accepts: a non-empty sequence of indices into
/// the embedding table, short enough to pool.
pub open spec fn tokens_ok(m: ModelV, tokens: Seq<usize>) -> bool {
    &&& 1 <= tokens.len() <= DIM_MAX
    &&& forall|i: int| 0 <= i < tokens.len() ==> (#[trigger] tokens[i]) < m.embeddings.len()
}

/// Outputs of the whole expert pool on one embedded input, every
/// expert evaluated exactly once, in pool order (dense routing).
pub open spec fn spec_expert_outputs(experts: Seq<Seq<LinearV>>, rows: Seq<Seq<i64>>) -> Option<
    Seq<Seq<i64>>,
>
    decreases experts.len(),
{
    if experts.len() == 0 {
        Some(Seq::empty())
    } else {
        match (
            spec_expert_outputs(experts.drop_last(), rows),
            spec_expert_forward(experts.last(), rows),
        ) {
            (Some(outs), Some(y)) => Some(outs.push(y)),
            _ => None,
        }
    }
}

/// The complete forward computation: embed, pool, gate, run every
/// expert on the unpooled representation, then integrate under the
/// gate's distribution. `None` is a numeric failure in some stage.
pub open spec fn spec_model_forward(m: ModelV, tokens: Seq<usize>) -> Option<Seq<i64>> {
    let rows = spec_embed(m.embeddings, tokens);
    let pooled = spec_mean_rows(rows, model_dim(m));
    match spec_selector_forward(m.selector, pooled) {
        Option::None => Option::None,
        Option::Some(gate) => match spec_expert_outputs(m.experts, rows) {
            Option::None => Option::None,
            Option::Some(outs) => spec_combine_checked(m.integrator, outs, gate, model_dim(m)),
        },
    }
}

impl MorModel {
    /// Builds the zero-initialised parameter tree for the given
    /// topology; the numeric engine supplies its own initialisation
    /// before training, or `load_params` restores a persisted one.
    pub fn new(
        vocab_size: usize,
        embedding_dim: usize,
        hidden_dim: usize,
        output_dim: usize,
        num_experts: usize,
        reflection_depth: usize,
    ) -> (r: MorModel)
        requires
            1 <= vocab_size <= DIM_MAX,
            1 <= embedding_dim <= DIM_MAX,
            1 <= hidden_dim <= DIM_MAX,
            1 <= output_dim <= DIM_MAX,
            1 <= num_experts <= DIM_MAX,
            1 <= reflection_depth <= DIM_MAX,
        ensures
            model_wf(r@),
            r@.embeddings.len() == vocab_size as int,
            model_dim(r@) == embedding_dim as int,
            model_num_experts(r@) == num_experts as int,
            model_depth(r@) == reflection_depth as int,
            model_out_dim(r@) == output_dim as int,
    {
        let embeddings = EmbeddingLayer::new(vocab_size, embedding_dim);
        let selector = ExpertSelector::new(embedding_dim, hidden_dim, num_experts);
        let mut experts: Vec<ReflectionModule> = Vec::new();
        let mut e: usize = 0;
        while e < num_experts
            invariant
                e <= num_experts,
                1 <= embedding_dim <= DIM_MAX,
                1 <= reflection_depth <= DIM_MAX,
                experts@.len() == e as int,
                forall|k: int|
                    0 <= k < e as int ==> expert_wf(
                        (#[trigger] experts@[k])@,
                        embedding_dim as int,
                    ) && experts@[k]@.len() == reflection_depth as int,
            decreases num_experts - e,
        {
            let ex = ReflectionModule::new(embedding_dim, reflection_depth);
            experts.push(ex);
            e = e + 1;
        }
        let integrator = IntegrationLayer::new(embedding_dim, output_dim);
        MorModel { embeddings, selector, experts, integrator }
    }

    /// Runs every expert on the embedded representation, in pool
    /// order. Dense routing: the result always holds one output per
    /// expert; no expert is skipped, whatever its gate weight.
    pub fn expert_outputs(&self, rows: &Vec<Vec<i64>>) -> (r: Result<Vec<Vec<i64>>, MorError>)
        requires
            model_wf(self@),
            1 <= rows@.len() <= DIM_MAX,
            matrix_wf(rows@.map_values(|v: Vec<i64>| v@), model_dim(self@)),
        ensures
            match r {
                Ok(outs) => {
                    &&& spec_expert_outputs(self@.experts, rows@.map_values(|v: Vec<i64>| v@))
                        == Some(outs@.map_values(|v: Vec<i64>| v@))
                    &&& outs@.len() == model_num_experts(self@)
                    &&& forall|e: int|
                        0 <= e < outs@.len() ==> spec_expert_forward(
                            self@.experts[e],
                            rows@.map_values(|v: Vec<i64>| v@),
                        ) == Some((#[trigger] outs@[e])@)
                    &&& matrix_wf(outs@.map_values(|v: Vec<i64>| v@), model_dim(self@))
                },
                Err(e) => {
                    &&& spec_expert_outputs(self@.experts, rows@.map_values(|v: Vec<i64>| v@))
                        is None
                    &&& e == MorError::Numeric
                },
            },
    {
        let ghost rs = rows@.map_values(|v: Vec<i64>| v@);
        let n = self.experts.len();
        let mut outs: Vec<Vec<i64>> = Vec::new();
        let mut e: usize = 0;
        while e < n
            invariant
                e <= n,
                n == self.experts@.len(),
                model_wf(self@),
                1 <= rows@.len() <= DIM_MAX,
                rs == rows@.map_values(|v: Vec<i64>| v@),
                matrix_wf(rs, model_dim(self@)),
                outs@.len() == e as int,
                spec_expert_outputs(self@.experts.take(e as int), rs) == Some(
                    outs@.map_values(|v: Vec<i64>| v@),
                ),
                forall|k: int|
                    0 <= k < e as int ==> spec_expert_forward(self@.experts[k], rs) == Some(
                        (#[trigger] outs@[k])@,
                    ),
                forall|k: int|
                    0 <= k < e as int ==> (#[trigger] outs@[k])@.len() == model_dim(self@)
                        && bounded_seq(outs@[k]@),
            decreases n - e,
        {
            proof {
                assert(self@.experts[e as int] == self.experts@[e as int]@);
            }
            let y = match self.experts[e].forward(rows) {
                Ok(y) => y,
                Err(err) => {
                    proof {
                        lemma_expert_outputs_none(self@.experts, rs, e as int);
                    }
                    return Err(err);
                },
            };
            outs.push(y);
            proof {
                assert(self@.experts.take(e as int + 1).drop_last() =~= self@.experts.take(
                    e as int,
                ));
                assert(self@.experts.take(e as int + 1).last() == self@.experts[e as int]);
                assert(outs@.map_values(|v: Vec<i64>| v@) =~= outs@.map_values(
                    |v: Vec<i64>| v@,
                ).drop_last().push(outs@.last()@));
            }
            e = e + 1;
        }
        proof {
            assert(self@.experts.take(n as int) =~= self@.experts);
        }
        Ok(outs)
    }

    /// One forward pass: gating, per-expert transformation, weighted
    /// integration. Exact; `Numeric` when an intermediate leaves the
    /// representable range.
    pub fn forward(&self, tokens: &Vec<usize>) -> (r: Result<Vec<i64>, MorError>)
        requires
            model_wf(self@),
            tokens_ok(self@, tokens@),
        ensures
            match r {
                Ok(y) => {
                    &&& spec_model_forward(self@, tokens@) == Some(y@)
                    &&& y@.len() == model_out_dim(self@)
                    &&& bounded_seq(y@)
                },
                Err(e) => {
                    &&& spec_model_forward(self@, tokens@) is None
                    &&& e == MorError::Numeric
                },
            },
    {
        let rows = self.embeddings.forward(tokens);
        let ghost rs = rows@.map_values(|v: Vec<i64>| v@);
        let dim = self.embeddings.dim();
        let pooled = mean_rows(&rows, dim);
        let gate = match self.selector.forward(&pooled) {
            Ok(g) => g,
            Err(err) => {
                return Err(err);
            },
        };
        let outs = match self.expert_outputs(&rows) {
            Ok(o) => o,
            Err(err) => {
                return Err(err);
            },
        };
        self.integrator.combine_expert_outputs(&outs, &gate)
    }
}

/// Dense routing: whenever the pool output exists, it holds exactly
/// one output per expert, and the output at position `e` is expert
/// `e`'s own transform of the input — every expert is evaluated
/// exactly once per forward pass, whatever its gate weight.
pub proof fn lemma_dense_routing(experts: Seq<Seq<LinearV>>, rows: Seq<Seq<i64>>, outs: Seq<Seq<i64>>)
    requires
        spec_expert_outputs(experts, rows) == Some(outs),
    ensures
        outs.len() == experts.len(),
        forall|e: int|
            0 <= e < experts.len() ==> spec_expert_forward(#[trigger] experts[e], rows) == Some(
                outs[e],
            ),
    decreases experts.len(),
{
    if experts.len() > 0 {
        let prev = spec_expert_outputs(experts.drop_last(), rows);
        lemma_dense_routing(experts.drop_last(), rows, prev.unwrap());
        assert forall|e: int|
            0 <= e < experts.len() implies spec_expert_forward(#[trigger] experts[e], rows)
            == Some(outs[e]) by {
            if e < experts.len() - 1 {
                assert(experts.drop_last()[e] == experts[e]);
                assert(prev.unwrap()[e] == outs[e]);
            }
        }
    }
}

/// If one expert's transform fails numerically, the whole pool output
/// fails.
proof fn lemma_expert_outputs_none(experts: Seq<Seq<LinearV>>, rows: Seq<Seq<i64>>, i: int)
    requires
        0 <= i < experts.len(),
        spec_expert_forward(experts[i], rows) is None,
    ensures
        spec_expert_outputs(experts, rows) is None,
    decreases experts.len(),
{
    if i < experts.len() - 1 {
        lemma_expert_outputs_none(experts.drop_last(), rows, i);
    }
}

} // verus!
