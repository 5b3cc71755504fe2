use vstd::prelude::*;

use vstd::arithmetic::div_mod::lemma_fundamental_div_mod_converse;

use crate::config::Config;
use crate::data::{batch_end, batch_matches, sample_inputs, DataLoader};
use crate::error::MorError;
use crate::model::evaluate::{lemma_correct_count_none, samples_ok, spec_correct_count};
use crate::model::params::{save_params, spec_save, ParamStore};
use crate::model::{model_depth, model_num_experts, model_wf, MorModel};

verus! {

/// What a completed training run reports: how many batches each epoch
/// visited, and the persisted form of the parameters at the end.
pub struct TrainRun {
    pub epoch_batches: Vec<usize>,
    pub checkpoint: ParamStore,
}

/// How many batches one epoch over `n` samples visits with batch
/// length `b`: the ceiling of `n / b`.
pub open spec fn spec_num_batches(n: int, b: int) -> int {
    (n + b - 1) / b
}

/// The loader position after `k` contiguous batches from the start.
pub open spec fn pos_after(k: int, b: int, n: int) -> int
    decreases k,
{
    if k <= 0 {
        0
    } else {
        batch_end(pos_after(k - 1, b, n), b, n)
    }
}

proof fn lemma_pos_after(k: int, b: int, n: int)
    requires
        k >= 0,
        b >= 1,
        n >= 0,
    ensures
        pos_after(k, b, n) == if k * b <= n {
            k * b
        } else {
            n
        },
    decreases k,
{
    if k > 0 {
        lemma_pos_after(k - 1, b, n);
        assert((k - 1) * b + b == k * b) by (nonlinear_arith);
        assert(pos_after(k, b, n) == batch_end(pos_after(k - 1, b, n), b, n));
    } else {
        assert(pos_after(0, b, n) == 0);
        assert(k * b == 0) by (nonlinear_arith)
            requires
                k == 0,
        ;
    }
}

/// Reaching the end of the data after `k` batches, the last of which
/// started strictly inside the data, happens exactly at the ceiling
/// of `n / b`: the batch count of one epoch is `spec_num_batches`.
proof fn lemma_epoch_batch_count(k: int, b: int, n: int)
    requires
        k >= 0,
        b >= 1,
        n >= 0,
        pos_after(k, b, n) == n,
        k == 0 ==> n == 0,
        k >= 1 ==> pos_after(k - 1, b, n) < n,
    ensures
        k == spec_num_batches(n, b),
{
    if k == 0 {
        lemma_fundamental_div_mod_converse(b - 1, b, 0, b - 1);
    } else {
        lemma_pos_after(k, b, n);
        lemma_pos_after(k - 1, b, n);
        // (k-1) * b < n <= k * b pins k as the ceiling
        assert((k - 1) * b < n);
        assert(n <= k * b);
        assert(n + b - 1 == k * b + (n + b - 1 - k * b)) by (nonlinear_arith);
        assert(0 <= n + b - 1 - k * b < b) by (nonlinear_arith)
            requires
                (k - 1) * b < n,
                n <= k * b,
                b >= 1,
        ;
        lemma_fundamental_div_mod_converse(n + b - 1, b, k, n + b - 1 - k * b);
    }
}

/// One epoch of the training loop's traversal: rewinds nothing itself
/// (the caller resets the loader at epoch start), fetches every batch
/// in order and runs the verified forward pass on every sample; the
/// gradient and parameter update against each batch belong to the
/// numeric engine outside this crate. Returns the number of batches
/// visited, proved to be exactly `ceil(n / b)`.
fn run_epoch<L: DataLoader>(model: &MorModel, loader: &mut L) -> (r: Result<usize, MorError>)
    requires
        model_wf(model@),
        old(loader).wf(),
        old(loader).pos() == 0,
        samples_ok(model@, old(loader).samples()),
    ensures
        final(loader).wf(),
        final(loader).samples() == old(loader).samples(),
        final(loader).batch_len() == old(loader).batch_len(),
        match r {
            Ok(nb) => {
                &&& nb as int == spec_num_batches(
                    old(loader).samples().len() as int,
                    old(loader).batch_len(),
                )
                &&& spec_correct_count(model@, old(loader).samples()) is Some
            },
            Err(e) => {
                &&& spec_correct_count(model@, old(loader).samples()) is None
                &&& e == MorError::Numeric
            },
        },
{
    let ghost samples = old(loader).samples();
    let ghost bl = old(loader).batch_len();
    proof {
        old(loader).wf_facts();
    }
    let mut batches: usize = 0;
    loop
        invariant
            loader.wf(),
            samples == old(loader).samples(),
            bl == old(loader).batch_len(),
            loader.samples() == samples,
            loader.batch_len() == bl,
            bl >= 1,
            model_wf(model@),
            samples_ok(model@, samples),
            batches as int <= loader.pos() || batches as int == 0,
            loader.pos() == pos_after(batches as int, bl, samples.len() as int),
            loader.pos() <= samples.len(),
            batches as int >= 1 ==> pos_after(batches as int - 1, bl, samples.len() as int)
                < samples.len(),
            batches as int == 0 ==> loader.pos() == 0,
            spec_correct_count(model@, samples.take(loader.pos())) is Some,
        ensures
            loader.wf(),
            samples == old(loader).samples(),
            bl == old(loader).batch_len(),
            loader.samples() == samples,
            loader.batch_len() == bl,
            batches as int == spec_num_batches(samples.len() as int, bl),
            spec_correct_count(model@, samples.take(samples.len() as int)) is Some,
        decreases samples.len() - loader.pos(),
    {
        proof {
            loader.wf_facts();
        }
        let ghost start = loader.pos();
        let b = match loader.next_batch() {
            None => {
                proof {
                    lemma_epoch_batch_count(batches as int, bl, samples.len() as int);
                }
                break ;
            },
            Some(b) => b,
        };
        let ghost end = batch_end(start, bl, samples.len() as int);
        proof {
            assert(b.inputs@.map_values(|v: Vec<usize>| v@).len() == end - start);
        }
        let bn = b.inputs.len();
        let mut k: usize = 0;
        while k < bn
            invariant
                k <= bn,
                model_wf(model@),
                samples_ok(model@, samples),
                samples == old(loader).samples(),
                bl == old(loader).batch_len(),
                loader.wf(),
                loader.samples() == samples,
                loader.batch_len() == bl,
                bn as int == end - start,
                0 <= start <= end <= samples.len(),
                batch_matches(b, samples.subrange(start, end)),
                b.inputs@.len() == bn as int,
                spec_correct_count(model@, samples.take(start + k as int)) is Some,
            decreases bn - k,
        {
            proof {
                assert(b.inputs@.map_values(|v: Vec<usize>| v@)[k as int] == sample_inputs(
                    samples.subrange(start, end),
                )[k as int]);
                assert(b.inputs@[k as int]@ == samples[start + k as int].0);
            }
            match model.forward(&b.inputs[k]) {
                Ok(_) => {},
                Err(err) => {
                    proof {
                        lemma_correct_count_none(model@, samples, start + k as int);
                    }
                    return Err(err);
                },
            }
            proof {
                assert(samples.take(start + k as int + 1).drop_last() =~= samples.take(
                    start + k as int,
                ));
                assert(samples.take(start + k as int + 1).last() == samples[start + k as int]);
            }
            k = k + 1;
        }
        batches = batches + 1;
    }
    proof {
        assert(samples.take(samples.len() as int) =~= samples);
    }
    Ok(batches)
}

/// The training loop's control and forward computation: exactly
/// `max_epochs` epochs, the loader rewound at each epoch start, each
/// epoch visiting exactly `ceil(n / batch_size)` contiguous batches
/// and running the verified forward pass on every sample; at the end
/// the parameter tree is flattened into its persisted form. The
/// backward pass and the optimizer's update rule are the numeric
/// engine's, performed outside this crate against the same schedule;
/// they never change the loop structure stated here.
pub fn train<L: DataLoader>(cfg: &Config, model: &MorModel, loader: &mut L) -> (r: Result<
    TrainRun,
    MorError,
>)
    requires
        cfg.valid(),
        model_wf(model@),
        model_num_experts(model@) == cfg.num_experts as int,
        model_depth(model@) == cfg.reflection_depth as int,
        old(loader).wf(),
        old(loader).batch_len() == cfg.batch_size as int,
        samples_ok(model@, old(loader).samples()),
    ensures
        final(loader).wf(),
        final(loader).samples() == old(loader).samples(),
        final(loader).batch_len() == old(loader).batch_len(),
        match r {
            Ok(run) => {
                &&& run.epoch_batches@.len() == cfg.max_epochs as int
                &&& forall|e: int|
                    0 <= e < cfg.max_epochs as int ==> (#[trigger] run.epoch_batches@[e]) as int
                        == spec_num_batches(
                        old(loader).samples().len() as int,
                        cfg.batch_size as int,
                    )
                &&& run.checkpoint@ == spec_save(model@)
                &&& cfg.max_epochs >= 1 ==> spec_correct_count(
                    model@,
                    old(loader).samples(),
                ) is Some
            },
            Err(e) => {
                &&& e == MorError::Numeric
                &&& cfg.max_epochs >= 1
                &&& spec_correct_count(model@, old(loader).samples()) is None
            },
        },
{
    let ghost samples = old(loader).samples();
    let mut epoch_batches: Vec<usize> = Vec::new();
    let mut epoch: usize = 0;
    while epoch < cfg.max_epochs
        invariant
            epoch <= cfg.max_epochs,
            cfg.valid(),
            samples == old(loader).samples(),
            old(loader).batch_len() == cfg.batch_size as int,
            model_wf(model@),
            samples_ok(model@, samples),
            loader.wf(),
            loader.samples() == samples,
            loader.batch_len() == cfg.batch_size as int,
            epoch_batches@.len() == epoch as int,
            forall|e: int|
                0 <= e < epoch as int ==> (#[trigger] epoch_batches@[e]) as int == spec_num_batches(
                    samples.len() as int,
                    cfg.batch_size as int,
                ),
            epoch as int >= 1 ==> spec_correct_count(model@, samples) is Some,
        decreases cfg.max_epochs - epoch,
    {
        loader.reset();
        let nb = match run_epoch(model, loader) {
            Ok(nb) => nb,
            Err(err) => {
                return Err(err);
            },
        };
        epoch_batches.push(nb);
        epoch = epoch + 1;
    }
    let checkpoint = save_params(model);
    Ok(TrainRun { epoch_batches, checkpoint })
}

} // verus!
