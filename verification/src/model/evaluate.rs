use vstd::prelude::*;

use vstd::arithmetic::div_mod::{
    lemma_div_is_ordered, lemma_div_pos_is_pos, lemma_fundamental_div_mod_converse,
};

use crate::data::{batch_end, batch_matches, sample_inputs, sample_targets, DataLoader};
use crate::error::MorError;
use crate::model::{model_wf, spec_model_forward, tokens_ok, ModelV, MorModel};

verus! {

/// The smallest index of a maximal entry: the predicted class of one
/// output row.
pub open spec fn spec_argmax(v: Seq<i64>) -> int
    decreases v.len(),
{
    if v.len() <= 1 {
        0
    } else {
        let r = spec_argmax(v.drop_last());
        if v.last() > v[r] {
            v.len() - 1
        } else {
            r
        }
    }
}

/// Top-1 class of one prediction row.
pub fn argmax(v: &Vec<i64>) -> (r: usize)
    requires
        v@.len() >= 1,
    ensures
        r as int == spec_argmax(v@),
        r < v@.len(),
{
    let mut best: usize = 0;
    let mut i: usize = 1;
    while i < v.len()
        invariant
            1 <= i <= v@.len(),
            best < i,
            best as int == spec_argmax(v@.take(i as int)),
        decreases v@.len() - i,
    {
        proof {
            assert(v@.take(i as int + 1).drop_last() =~= v@.take(i as int));
            assert(v@.take(i as int + 1).last() == v@[i as int]);
        }
        if v[i] > v[best] {
            best = i;
        }
        i = i + 1;
    }
    proof {
        assert(v@.take(v@.len() as int) =~= v@);
    }
    best
}

/// Every sample's token sequence is admissible for the model.
pub open spec fn samples_ok(m: ModelV, samples: Seq<(Seq<usize>, usize)>) -> bool {
    forall|i: int| 0 <= i < samples.len() ==> tokens_ok(m, (#[trigger] samples[i]).0)
}

/// How many samples the model classifies correctly, over a full pass
/// in order; `None` when some forward pass fails numerically.
pub open spec fn spec_correct_count(m: ModelV, samples: Seq<(Seq<usize>, usize)>) -> Option<int>
    decreases samples.len(),
{
    if samples.len() == 0 {
        Some(0)
    } else {
        match (
            spec_correct_count(m, samples.drop_last()),
            spec_model_forward(m, samples.last().0),
        ) {
            (Some(c), Some(y)) => Some(
                c + if spec_argmax(y) == samples.last().1 as int {
                    1int
                } else {
                    0int
                },
            ),
            _ => None,
        }
    }
}

/// If one sample's forward pass fails, the whole pass fails.
pub proof fn lemma_correct_count_none(m: ModelV, samples: Seq<(Seq<usize>, usize)>, i: int)
    requires
        0 <= i < samples.len(),
        spec_model_forward(m, samples[i].0) is None,
    ensures
        spec_correct_count(m, samples) is None,
    decreases samples.len(),
{
    if i < samples.len() - 1 {
        lemma_correct_count_none(m, samples.drop_last(), i);
    }
}

/// Accuracy in hundredths of a percent, rounded to nearest: the value
/// the evaluation loop reports.
pub open spec fn spec_accuracy_centi(correct: int, total: int) -> int {
    (correct * 10_000 + total / 2) / total
}

/// Rounded accuracy in hundredths of a percent (`6667` is `66.67%`).
pub fn accuracy_centi_percent(correct: usize, total: usize) -> (r: u64)
    requires
        1 <= total,
        correct <= total,
    ensures
        r as int == spec_accuracy_centi(correct as int, total as int),
        r <= 10_000,
{
    let c = correct as u128;
    let t = total as u128;
    let num = c * 10_000 + t / 2;
    let q = num / t;
    proof {
        let ci = correct as int;
        let ti = total as int;
        assert(ci * 10_000 <= ti * 10_000) by (nonlinear_arith)
            requires
                0 <= ci <= ti,
        ;
        assert(ci * 10_000 + ti / 2 <= ti * 10_000 + ti * 1) by (nonlinear_arith)
            requires
                ci * 10_000 <= ti * 10_000,
                0 <= ti / 2 <= ti,
        ;
        assert(ti * 10_000 + ti * 1 == 10_001 * ti + 0) by (nonlinear_arith);
        lemma_div_is_ordered(ci * 10_000 + ti / 2, 10_001 * ti, ti);
        lemma_fundamental_div_mod_converse(10_001 * ti, ti, 10_001, 0);
        lemma_div_pos_is_pos(ci * 10_000 + ti / 2, ti);
        if q as int > 10_000 {
            // a full score is total * 10_000 + total / 2, still under
            // (10_000 + 1) * total, so the quotient caps at 10_000
            assert(ci * 10_000 + ti / 2 < (10_000 + 1) * ti) by (nonlinear_arith)
                requires
                    0 <= ci <= ti,
                    0 <= ti / 2 < ti,
                    ti >= 1,
            ;
            lemma_fundamental_div_mod_converse((10_000 + 1) * ti, ti, 10_001, 0);
            lemma_div_is_ordered(ci * 10_000 + ti / 2, 10_001 * ti - 1, ti);
            lemma_fundamental_div_mod_converse(10_001 * ti - 1, ti, 10_000, ti - 1);
        }
    }
    q as u64
}

/// One full evaluation pass: classifies every sample with the verified
/// forward computation, accumulating `(correct, total)` — no
/// parameter mutation, ever. `Numeric` exactly when some sample's
/// forward pass overflows.
pub fn evaluate<L: DataLoader>(model: &MorModel, loader: &mut L) -> (r: Result<
    (usize, usize),
    MorError,
>)
    requires
        model_wf(model@),
        old(loader).wf(),
        old(loader).pos() == 0,
        samples_ok(model@, old(loader).samples()),
    ensures
        final(loader).wf(),
        final(loader).samples() == old(loader).samples(),
        final(loader).batch_len() == old(loader).batch_len(),
        match r {
            Ok((correct, total)) => {
                &&& total as int == old(loader).samples().len()
                &&& spec_correct_count(model@, old(loader).samples()) == Some(correct as int)
                &&& correct <= total
            },
            Err(e) => {
                &&& spec_correct_count(model@, old(loader).samples()) is None
                &&& e == MorError::Numeric
            },
        },
{
    let ghost samples = old(loader).samples();
    let mut correct: usize = 0;
    let mut total: usize = 0;
    loop
        invariant
            loader.wf(),
            samples == old(loader).samples(),
            loader.samples() == samples,
            loader.batch_len() == old(loader).batch_len(),
            model_wf(model@),
            samples_ok(model@, samples),
            loader.pos() == total as int,
            total as int <= samples.len(),
            spec_correct_count(model@, samples.take(total as int)) == Some(correct as int),
            correct <= total,
        ensures
            loader.wf(),
            samples == old(loader).samples(),
            loader.samples() == samples,
            loader.batch_len() == old(loader).batch_len(),
            total as int == samples.len(),
            spec_correct_count(model@, samples.take(total as int)) == Some(correct as int),
            correct <= total,
        decreases samples.len() - loader.pos(),
    {
        proof {
            loader.wf_facts();
        }
        let b = match loader.next_batch() {
            None => {
                break ;
            },
            Some(b) => b,
        };
        let ghost start = total as int;
        let ghost end = batch_end(start, loader.batch_len(), samples.len() as int);
        proof {
            assert(b.inputs@.map_values(|v: Vec<usize>| v@).len() == end - start);
            assert(b.targets@.len() == end - start);
        }
        let bn = b.inputs.len();
        let mut k: usize = 0;
        while k < bn
            invariant
                k <= bn,
                model_wf(model@),
                samples_ok(model@, samples),
                samples == old(loader).samples(),
                samples.len() <= usize::MAX,
                loader.wf(),
                loader.samples() == samples,
                loader.batch_len() == old(loader).batch_len(),
                bn as int == end - start,
                start == total as int,
                0 <= start <= end <= samples.len(),
                batch_matches(b, samples.subrange(start, end)),
                b.inputs@.len() == bn as int,
                b.targets@.len() == bn as int,
                spec_correct_count(model@, samples.take(start + k as int)) == Some(
                    correct as int,
                ),
                correct as int <= start + k as int,
            decreases bn - k,
        {
            proof {
                assert(b.inputs@.map_values(|v: Vec<usize>| v@)[k as int] == sample_inputs(
                    samples.subrange(start, end),
                )[k as int]);
                assert(b.inputs@[k as int]@ == samples[start + k as int].0);
                assert(b.targets@[k as int] == sample_targets(samples.subrange(start, end))[
                    k as int]);
                assert(b.targets@[k as int] == samples[start + k as int].1);
            }
            let y = match model.forward(&b.inputs[k]) {
                Ok(y) => y,
                Err(err) => {
                    proof {
                        lemma_correct_count_none(model@, samples, start + k as int);
                    }
                    return Err(err);
                },
            };
            proof {
                assert(y@.len() >= 1);
            }
            let pred = argmax(&y);
            proof {
                assert(samples.take(start + k as int + 1).drop_last() =~= samples.take(
                    start + k as int,
                ));
                assert(samples.take(start + k as int + 1).last() == samples[start + k as int]);
            }
            if pred == b.targets[k] {
                correct = correct + 1;
            }
            k = k + 1;
        }
        total = total + bn;
    }
    proof {
        assert(total as int == samples.len());
        assert(samples.take(samples.len() as int) =~= samples);
    }
    Ok((correct, total))
}

} // verus!
