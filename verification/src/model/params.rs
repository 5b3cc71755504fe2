use vstd::prelude::*;

use crate::error::MorError;
use crate::linalg::{
    bounded_seq, check_bounded, check_matrix, copy_matrix, copy_row, lin_out_dim, matrix_wf,
    LinearLayer, LinearV,
};
use crate::model::embeddings::EmbeddingLayer;
use crate::model::expert_selector::ExpertSelector;
use crate::model::integration_layer::IntegrationLayer;
use crate::model::reflection_module::ReflectionModule;
use crate::model::{model_dim, model_num_experts, model_out_dim, model_wf, ModelV, MorModel};

verus! {

/// Address of one parameter tensor in the persisted store, partitioned
/// by component: the embedding table, the two gate transforms, layer
/// `l` of expert `e`, or the integrator's projection.
#[derive(PartialEq, Eq, Structural, Clone, Copy, Debug)]
pub enum ParamKey {
    Embeddings,
    SelectorLinear1,
    SelectorLinear2,
    Expert(usize, usize),
    Integrator,
}

/// One named parameter tensor: a weight matrix and a bias row (empty
/// for the embedding table, which has no bias).
pub struct ParamEntry {
    pub key: ParamKey,
    pub weight: Vec<Vec<i64>>,
    pub bias: Vec<i64>,
}

/// Mathematical content of one entry.
#[verifier::ext_equal]
pub struct EntryV {
    pub key: ParamKey,
    pub weight: Seq<Seq<i64>>,
    pub bias: Seq<i64>,
}

impl View for ParamEntry {
    type V = EntryV;

    open spec fn view(&self) -> EntryV {
        EntryV {
            key: self.key,
            weight: self.weight@.map_values(|r: Vec<i64>| r@),
            bias: self.bias@,
        }
    }
}

/// The flat, path-addressable form of the whole parameter tree.
pub struct ParamStore {
    pub entries: Vec<ParamEntry>,
}

impl View for ParamStore {
    type V = Seq<EntryV>;

    open spec fn view(&self) -> Seq<EntryV> {
        self.entries@.map_values(|e: ParamEntry| e@)
    }
}

pub open spec fn lin_entry(key: ParamKey, l: LinearV) -> EntryV {
    EntryV { key, weight: l.weight, bias: l.bias }
}

pub open spec fn entry_lin(en: EntryV) -> LinearV {
    LinearV { weight: en.weight, bias: en.bias }
}

/// Entries of one expert, layer by layer.
pub open spec fn one_expert_entries(layers: Seq<LinearV>, e: int) -> Seq<EntryV> {
    Seq::new(layers.len(), |l: int| lin_entry(ParamKey::Expert(e as usize, l as usize), layers[l]))
}

/// Entries of the whole expert pool, expert by expert.
pub open spec fn expert_entries(experts: Seq<Seq<LinearV>>) -> Seq<EntryV>
    decreases experts.len(),
{
    if experts.len() == 0 {
        Seq::empty()
    } else {
        expert_entries(experts.drop_last()) + one_expert_entries(
            experts.last(),
            experts.len() - 1,
        )
    }
}

/// How many entries the experts before expert `e` occupy.
pub open spec fn expert_offset(experts: Seq<Seq<LinearV>>, e: int) -> int
    decreases e,
{
    if e <= 0 {
        0
    } else {
        expert_offset(experts, e - 1) + experts[e - 1].len()
    }
}

/// The canonical persisted form of the parameter tree: the embedding
/// table, the two gate transforms, every expert's layers in pool and
/// layer order, then the integrator.
pub open spec fn spec_save(m: ModelV) -> Seq<EntryV> {
    seq![
        EntryV { key: ParamKey::Embeddings, weight: m.embeddings, bias: Seq::empty() },
        lin_entry(ParamKey::SelectorLinear1, m.selector.linear1),
        lin_entry(ParamKey::SelectorLinear2, m.selector.linear2),
    ] + expert_entries(m.experts) + seq![lin_entry(ParamKey::Integrator, m.integrator)]
}

/// One stored entry fits one live affine layer's place: right key,
/// right shape, all values in range.
pub open spec fn entry_matches_lin(en: EntryV, key: ParamKey, out_dim: int, in_dim: int) -> bool {
    &&& en.key == key
    &&& en.weight.len() == out_dim
    &&& matrix_wf(en.weight, in_dim)
    &&& en.bias.len() == out_dim
    &&& bounded_seq(en.bias)
}

/// Exact structural match between a store and a live parameter tree:
/// the same partitioning, the same keys, the same shapes, values in
/// range. Restoration succeeds precisely on matching stores.
pub open spec fn store_matches(st: Seq<EntryV>, m: ModelV) -> bool {
    let dim = model_dim(m);
    let hidden = lin_out_dim(m.selector.linear1);
    let ne = m.experts.len() as int;
    &&& st.len() == 4 + expert_offset(m.experts, ne)
    &&& st[0].key == ParamKey::Embeddings
    &&& st[0].weight.len() == m.embeddings.len()
    &&& matrix_wf(st[0].weight, dim)
    &&& st[0].bias.len() == 0
    &&& entry_matches_lin(st[1], ParamKey::SelectorLinear1, hidden, dim)
    &&& entry_matches_lin(st[2], ParamKey::SelectorLinear2, model_num_experts(m), hidden)
    &&& forall|e: int, l: int|
        0 <= e < ne && 0 <= l < m.experts[e].len() ==> entry_matches_lin(
            #[trigger] st[3 + expert_offset(m.experts, e) + l],
            ParamKey::Expert(e as usize, l as usize),
            dim,
            dim,
        )
    &&& entry_matches_lin(
        st[3 + expert_offset(m.experts, ne)],
        ParamKey::Integrator,
        model_out_dim(m),
        dim,
    )
}

/// The tree a matching store restores into the topology of `m`.
pub open spec fn spec_restore(m: ModelV, st: Seq<EntryV>) -> ModelV {
    ModelV {
        embeddings: st[0].weight,
        selector: crate::model::expert_selector::SelectorV {
            linear1: entry_lin(st[1]),
            linear2: entry_lin(st[2]),
        },
        experts: Seq::new(
            m.experts.len(),
            |e: int|
                Seq::new(
                    m.experts[e].len(),
                    |l: int| entry_lin(st[3 + expert_offset(m.experts, e) + l]),
                ),
        ),
        integrator: entry_lin(st[3 + expert_offset(m.experts, m.experts.len() as int)]),
    }
}

proof fn lemma_expert_offset_mono(experts: Seq<Seq<LinearV>>, e1: int, e2: int)
    requires
        0 <= e1 <= e2,
    ensures
        expert_offset(experts, e1) <= expert_offset(experts, e2),
    decreases e2 - e1,
{
    if e1 < e2 {
        lemma_expert_offset_mono(experts, e1, e2 - 1);
    }
}

proof fn lemma_expert_entries_len(experts: Seq<Seq<LinearV>>)
    ensures
        expert_entries(experts).len() == expert_offset(experts, experts.len() as int),
    decreases experts.len(),
{
    if experts.len() > 0 {
        lemma_expert_entries_len(experts.drop_last());
        assert forall|e: int| 0 <= e < experts.len() implies #[trigger] expert_offset(
            experts.drop_last(),
            e,
        ) == expert_offset(experts, e) by {
            lemma_expert_offset_same_prefix(experts, e);
        }
    }
}

/// The offset of expert `e` only depends on the experts before it.
proof fn lemma_expert_offset_same_prefix(experts: Seq<Seq<LinearV>>, e: int)
    requires
        0 <= e < experts.len(),
    ensures
        expert_offset(experts.drop_last(), e) == expert_offset(experts, e),
    decreases e,
{
    if e > 0 {
        lemma_expert_offset_same_prefix(experts, e - 1);
    }
}

/// Within the flattened expert block, layer `l` of expert `e` sits at
/// `expert_offset(e) + l`, holding exactly that layer under its key.
proof fn lemma_expert_entries_index(experts: Seq<Seq<LinearV>>, e: int, l: int)
    requires
        0 <= e < experts.len(),
        0 <= l < experts[e].len(),
    ensures
        0 <= expert_offset(experts, e) + l < expert_entries(experts).len(),
        expert_entries(experts)[expert_offset(experts, e) + l] == lin_entry(
            ParamKey::Expert(e as usize, l as usize),
            experts[e][l],
        ),
    decreases experts.len(),
{
    lemma_expert_entries_len(experts);
    lemma_expert_offset_mono(experts, 0, e);
    lemma_expert_offset_mono(experts, e + 1, experts.len() as int);
    if e == experts.len() - 1 {
        lemma_expert_entries_len(experts.drop_last());
        lemma_expert_offset_same_prefix(experts, e);
    } else {
        lemma_expert_entries_index(experts.drop_last(), e, l);
        lemma_expert_offset_same_prefix(experts, e);
        lemma_expert_entries_len(experts.drop_last());
        lemma_expert_offset_mono(experts.drop_last(), e + 1, experts.len() - 1);
    }
}

/// Builds the flat store for the live tree.
pub fn save_params(model: &MorModel) -> (r: ParamStore)
    requires
        model_wf(model@),
    ensures
        r@ == spec_save(model@),
{
    let mut entries: Vec<ParamEntry> = Vec::new();
    let emb_weight = copy_matrix(&model.embeddings.table);
    let empty_bias: Vec<i64> = Vec::new();
    entries.push(ParamEntry { key: ParamKey::Embeddings, weight: emb_weight, bias: empty_bias });
    entries.push(save_lin(ParamKey::SelectorLinear1, &model.selector.linear1));
    entries.push(save_lin(ParamKey::SelectorLinear2, &model.selector.linear2));
    let ne = model.experts.len();
    let mut e: usize = 0;
    while e < ne
        invariant
            e <= ne,
            ne == model.experts@.len(),
            model_wf(model@),
            entries@.len() == 3 + expert_offset(model@.experts, e as int),
            entries@.map_values(|en: ParamEntry| en@) =~= spec_save(model@).take(
                entries@.len() as int,
            ),
        decreases ne - e,
    {
        let d = model.experts[e].layers.len();
        let mut l: usize = 0;
        while l < d
            invariant
                l <= d,
                e < ne,
                ne == model.experts@.len(),
                d == model.experts@[e as int].layers@.len(),
                model_wf(model@),
                entries@.len() == 3 + expert_offset(model@.experts, e as int) + l as int,
                entries@.map_values(|en: ParamEntry| en@) =~= spec_save(model@).take(
                    entries@.len() as int,
                ),
            decreases d - l,
        {
            proof {
                assert(model@.experts[e as int] == model.experts@[e as int]@);
                assert(model@.experts[e as int][l as int] == model.experts@[e as int].layers@[
                    l as int]@);
                lemma_expert_entries_index(model@.experts, e as int, l as int);
                lemma_expert_entries_len(model@.experts);
                lemma_expert_offset_mono(model@.experts, e as int + 1, ne as int);
            }
            let en = save_lin_indexed(e, l, &model.experts[e].layers[l]);
            entries.push(en);
            proof {
                let prev = entries@.drop_last().map_values(|en0: ParamEntry| en0@);
                assert(entries@.map_values(|en0: ParamEntry| en0@) =~= prev.push(
                    entries@.last()@,
                ));
                assert(spec_save(model@).take(entries@.len() as int) =~= spec_save(model@).take(
                    entries@.len() - 1,
                ).push(spec_save(model@)[entries@.len() - 1]));
                assert(spec_save(model@)[entries@.len() - 1] == expert_entries(model@.experts)[
                    expert_offset(model@.experts, e as int) + l as int]);
            }
            l = l + 1;
        }
        e = e + 1;
    }
    proof {
        lemma_expert_entries_len(model@.experts);
    }
    let ghost before = entries@;
    entries.push(save_lin(ParamKey::Integrator, &model.integrator.linear));
    proof {
        assert(entries@.map_values(|en0: ParamEntry| en0@) =~= before.map_values(
            |en0: ParamEntry| en0@,
        ).push(entries@.last()@));
        assert(entries@.map_values(|en0: ParamEntry| en0@) =~= spec_save(model@));
    }
    ParamStore { entries }
}

fn save_lin(key: ParamKey, l: &LinearLayer) -> (r: ParamEntry)
    ensures
        r@ == lin_entry(key, l@),
{
    ParamEntry { key, weight: copy_matrix(&l.weight), bias: copy_row(&l.bias) }
}

fn save_lin_indexed(e: usize, l: usize, layer: &LinearLayer) -> (r: ParamEntry)
    ensures
        r@ == lin_entry(ParamKey::Expert(e, l), layer@),
{
    ParamEntry {
        key: ParamKey::Expert(e, l),
        weight: copy_matrix(&layer.weight),
        bias: copy_row(&layer.bias),
    }
}

/// Checks one stored entry against one live layer's place.
fn check_lin_entry(en: &ParamEntry, key: ParamKey, out_dim: usize, in_dim: usize) -> (r: bool)
    ensures
        r == entry_matches_lin(en@, key, out_dim as int, in_dim as int),
{
    if !(en.key == key) {
        return false;
    }
    if en.weight.len() != out_dim {
        return false;
    }
    if !check_matrix(&en.weight, in_dim) {
        return false;
    }
    if en.bias.len() != out_dim {
        return false;
    }
    check_bounded(&en.bias)
}

fn lin_from_entry(en: &ParamEntry) -> (r: LinearLayer)
    ensures
        r@ == entry_lin(en@),
{
    LinearLayer { weight: copy_matrix(&en.weight), bias: copy_row(&en.bias) }
}

/// Restores a persisted store into the live tree. Succeeds exactly
/// when the store structurally matches the tree's topology (same
/// keys, same shapes, values in range); on a mismatch the tree is
/// left untouched and `StoreMismatch` is reported.
pub fn load_params(store: &ParamStore, model: &mut MorModel) -> (r: Result<(), MorError>)
    requires
        model_wf(old(model)@),
    ensures
        match r {
            Ok(()) => {
                &&& store_matches(store@, old(model)@)
                &&& final(model)@ == spec_restore(old(model)@, store@)
                &&& model_wf(final(model)@)
            },
            Err(e) => {
                &&& !store_matches(store@, old(model)@)
                &&& e == MorError::StoreMismatch
                &&& *final(model) == *old(model)
            },
        },
{
    let ghost mv = old(model)@;
    let st = &store.entries;
    let n = st.len();
    proof {
        lemma_expert_offset_mono(mv.experts, 0, mv.experts.len() as int);
    }
    if n < 4 {
        proof {
            assert(4 + expert_offset(mv.experts, mv.experts.len() as int) > n as int);
            assert(!store_matches(store@, mv));
        }
        return Err(MorError::StoreMismatch);
    }
    let dim = model.embeddings.dim();
    let vocab = model.embeddings.table.len();
    let hidden = model.selector.linear1.weight.len();
    let ne = model.experts.len();
    let out_dim = model.integrator.linear.weight.len();
    // embedding entry
    let e0 = &st[0];
    if !(e0.key == ParamKey::Embeddings) || e0.weight.len() != vocab || e0.bias.len() != 0
        || !check_matrix(&e0.weight, dim) {
        return Err(MorError::StoreMismatch);
    }
    if !check_lin_entry(&st[1], ParamKey::SelectorLinear1, hidden, dim) {
        return Err(MorError::StoreMismatch);
    }
    if !check_lin_entry(&st[2], ParamKey::SelectorLinear2, ne, hidden) {
        return Err(MorError::StoreMismatch);
    }
    let mut idx: usize = 3;
    let mut e: usize = 0;
    while e < ne
        invariant
            e <= ne,
            ne == model.experts@.len(),
            mv == model@,
            model_wf(mv),
            model == old(model),
            4 <= n == st@.len(),
            st == store.entries,
            dim as int == model_dim(mv),
            idx as int == 3 + expert_offset(mv.experts, e as int),
            idx <= n,
            forall|e0: int, l0: int|
                0 <= e0 < e as int && 0 <= l0 < mv.experts[e0].len() ==> entry_matches_lin(
                    #[trigger] store@[3 + expert_offset(mv.experts, e0) + l0],
                    ParamKey::Expert(e0 as usize, l0 as usize),
                    dim as int,
                    dim as int,
                ),
        decreases ne - e,
    {
        let d = model.experts[e].layers.len();
        let mut l: usize = 0;
        while l < d
            invariant
                l <= d,
                e < ne,
                ne == model.experts@.len(),
                mv == model@,
                model_wf(mv),
                model == old(model),
                4 <= n == st@.len(),
                st == store.entries,
                dim as int == model_dim(mv),
                d as int == mv.experts[e as int].len(),
                idx as int == 3 + expert_offset(mv.experts, e as int) + l as int,
                idx <= n,
                forall|e0: int, l0: int|
                    0 <= e0 < e as int && 0 <= l0 < mv.experts[e0].len() ==> entry_matches_lin(
                        #[trigger] store@[3 + expert_offset(mv.experts, e0) + l0],
                        ParamKey::Expert(e0 as usize, l0 as usize),
                        dim as int,
                        dim as int,
                    ),
                forall|l0: int|
                    0 <= l0 < l as int ==> entry_matches_lin(
                        #[trigger] store@[3 + expert_offset(mv.experts, e as int) + l0],
                        ParamKey::Expert(e as usize, l0 as usize),
                        dim as int,
                        dim as int,
                    ),
            decreases d - l,
        {
            proof {
                assert(mv.experts[e as int] == model.experts@[e as int]@);
                lemma_expert_offset_mono(mv.experts, e as int + 1, ne as int);
            }
            if idx >= n - 1 {
                // too few entries for this topology
                proof {
                    assert(expert_offset(mv.experts, e as int + 1) == expert_offset(
                        mv.experts,
                        e as int,
                    ) + mv.experts[e as int].len());
                    assert(4 + expert_offset(mv.experts, ne as int) > n as int);
                }
                return Err(MorError::StoreMismatch);
            }
            if !check_lin_entry(&st[idx], ParamKey::Expert(e, l), dim, dim) {
                proof {
                    assert(store@[idx as int] == st@[idx as int]@);
                }
                return Err(MorError::StoreMismatch);
            }
            proof {
                assert(store@[idx as int] == st@[idx as int]@);
            }
            idx = idx + 1;
            l = l + 1;
        }
        e = e + 1;
    }
    if idx != n - 1 {
        proof {
            assert(idx as int == 3 + expert_offset(mv.experts, ne as int));
        }
        return Err(MorError::StoreMismatch);
    }
    if !check_lin_entry(&st[idx], ParamKey::Integrator, out_dim, dim) {
        proof {
            assert(store@[idx as int] == st@[idx as int]@);
            assert(idx as int == 3 + expert_offset(mv.experts, ne as int));
        }
        return Err(MorError::StoreMismatch);
    }
    proof {
        assert(store@[idx as int] == st@[idx as int]@);
        assert(store_matches(store@, mv));
    }
    // the store matches: rebuild every component from it
    let embeddings = EmbeddingLayer { table: copy_matrix(&st[0].weight) };
    let selector = ExpertSelector {
        linear1: lin_from_entry(&st[1]),
        linear2: lin_from_entry(&st[2]),
    };
    let mut experts: Vec<ReflectionModule> = Vec::new();
    let mut idx2: usize = 3;
    let mut e2: usize = 0;
    while e2 < ne
        invariant
            e2 <= ne,
            ne == model.experts@.len(),
            mv == model@,
            model_wf(mv),
            model == old(model),
            4 <= n == st@.len(),
            st == store.entries,
            store_matches(store@, mv),
            dim as int == model_dim(mv),
            idx2 as int == 3 + expert_offset(mv.experts, e2 as int),
            experts@.len() == e2 as int,
            forall|e0: int|
                0 <= e0 < e2 as int ==> (#[trigger] experts@[e0])@ =~= Seq::new(
                    mv.experts[e0].len(),
                    |l0: int| entry_lin(store@[3 + expert_offset(mv.experts, e0) + l0]),
                ),
        decreases ne - e2,
    {
        let d = model.experts[e2].layers.len();
        let mut layers: Vec<LinearLayer> = Vec::new();
        let mut l: usize = 0;
        while l < d
            invariant
                l <= d,
                e2 < ne,
                ne == model.experts@.len(),
                mv == model@,
                model_wf(mv),
                model == old(model),
                4 <= n == st@.len(),
                st == store.entries,
                store_matches(store@, mv),
                dim as int == model_dim(mv),
                d as int == mv.experts[e2 as int].len(),
                idx2 as int == 3 + expert_offset(mv.experts, e2 as int) + l as int,
                layers@.len() == l as int,
                forall|l0: int|
                    0 <= l0 < l as int ==> (#[trigger] layers@[l0])@ == entry_lin(
                        store@[3 + expert_offset(mv.experts, e2 as int) + l0],
                    ),
            decreases d - l,
        {
            proof {
                assert(mv.experts[e2 as int] == model.experts@[e2 as int]@);
                lemma_expert_offset_mono(mv.experts, e2 as int + 1, ne as int);
                assert(idx2 < n);
                assert(store@[idx2 as int] == st@[idx2 as int]@);
            }
            let layer = lin_from_entry(&st[idx2]);
            layers.push(layer);
            idx2 = idx2 + 1;
            l = l + 1;
        }
        experts.push(ReflectionModule { layers });
        proof {
            assert(experts@.last()@ =~= Seq::new(
                mv.experts[e2 as int].len(),
                |l0: int| entry_lin(store@[3 + expert_offset(mv.experts, e2 as int) + l0]),
            ));
        }
        e2 = e2 + 1;
    }
    let integrator = IntegrationLayer { linear: lin_from_entry(&st[idx]) };
    let loaded = MorModel { embeddings, selector, experts, integrator };
    proof {
        assert(loaded@.experts =~= spec_restore(mv, store@).experts);
        assert(loaded@ =~= spec_restore(mv, store@));
        lemma_restored_wf(mv, store@);
    }
    *model = loaded;
    Ok(())
}

/// A matching store restores to a well-formed tree with the same
/// topology.
proof fn lemma_restored_wf(m: ModelV, st: Seq<EntryV>)
    requires
        model_wf(m),
        store_matches(st, m),
    ensures
        model_wf(spec_restore(m, st)),
        model_dim(spec_restore(m, st)) == model_dim(m),
        model_num_experts(spec_restore(m, st)) == model_num_experts(m),
        crate::model::model_depth(spec_restore(m, st)) == crate::model::model_depth(m),
        model_out_dim(spec_restore(m, st)) == model_out_dim(m),
{
    let r = spec_restore(m, st);
    assert(r.embeddings[0].len() == model_dim(m));
    assert forall|e: int| 0 <= e < r.experts.len() implies crate::model::reflection_module::expert_wf(
        #[trigger] r.experts[e],
        model_dim(r),
    ) && r.experts[e].len() == crate::model::model_depth(r) by {
        assert(r.experts[e].len() == m.experts[e].len());
        assert forall|l: int| 0 <= l < r.experts[e].len() implies crate::linalg::lin_wf(
            #[trigger] r.experts[e][l],
            model_dim(r),
        ) && lin_out_dim(r.experts[e][l]) == model_dim(r) by {
            assert(entry_matches_lin(
                st[3 + expert_offset(m.experts, e) + l],
                ParamKey::Expert(e as usize, l as usize),
                model_dim(m),
                model_dim(m),
            ));
        }
        assert(m.experts[0].len() == crate::model::model_depth(m));
    }
}

/// Save/load round trip: the canonical store of a well-formed tree
/// matches that tree, and restoring it yields the very same tree — so
/// evaluating after a save and restore computes on identical
/// parameters and yields identical predictions.
pub proof fn lemma_save_load_round_trip(m: ModelV)
    requires
        model_wf(m),
    ensures
        store_matches(spec_save(m), m),
        spec_restore(m, spec_save(m)) == m,
{
    let st = spec_save(m);
    let ne = m.experts.len() as int;
    lemma_expert_entries_len(m.experts);
    assert forall|e: int, l: int|
        0 <= e < ne && 0 <= l < m.experts[e].len() implies entry_matches_lin(
        #[trigger] st[3 + expert_offset(m.experts, e) + l],
        ParamKey::Expert(e as usize, l as usize),
        model_dim(m),
        model_dim(m),
    ) by {
        lemma_expert_entries_index(m.experts, e, l);
        assert(st[3 + expert_offset(m.experts, e) + l] == expert_entries(m.experts)[expert_offset(
            m.experts,
            e,
        ) + l]);
    }
    assert(st[3 + expert_offset(m.experts, ne)] == lin_entry(ParamKey::Integrator, m.integrator));
    assert(store_matches(st, m));
    let r = spec_restore(m, st);
    assert forall|e: int| 0 <= e < ne implies #[trigger] r.experts[e] =~= m.experts[e] by {
        assert forall|l: int| 0 <= l < m.experts[e].len() implies #[trigger] r.experts[e][l]
            =~= m.experts[e][l] by {
            lemma_expert_entries_index(m.experts, e, l);
        }
    }
    assert(r.experts =~= m.experts);
    assert(r =~= m);
}

} // verus!
