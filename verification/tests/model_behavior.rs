use mor::config::Config;
use mor::data::dataset::ExampleDataLoader;
use mor::data::DataLoader;
use mor::error::MorError;
use mor::linalg::LinearLayer;
use mor::model::embeddings::EmbeddingLayer;
use mor::model::evaluate::{accuracy_centi_percent, argmax, evaluate};
use mor::model::expert_selector::ExpertSelector;
use mor::model::integration_layer::IntegrationLayer;
use mor::model::losses::regression_loss;
use mor::model::params::{load_params, save_params};
use mor::model::reflection_module::ReflectionModule;
use mor::model::train::train;
use mor::model::MorModel;

const SCALE: i64 = 10_000;

fn linear(weight: Vec<Vec<i64>>, bias: Vec<i64>) -> LinearLayer {
    LinearLayer { weight, bias }
}

fn identity(dim: usize) -> LinearLayer {
    let mut weight = Vec::new();
    for j in 0..dim {
        let mut row = vec![0i64; dim];
        row[j] = 1;
        weight.push(row);
    }
    linear(weight, vec![0i64; dim])
}

/// A model whose prediction for token `t` is the embedding row of `t`:
/// one expert, identity layers everywhere.
fn passthrough_model(table: Vec<Vec<i64>>) -> MorModel {
    let dim = table[0].len();
    MorModel {
        embeddings: EmbeddingLayer { table },
        selector: ExpertSelector {
            linear1: linear(vec![vec![0i64; dim]], vec![0]),
            linear2: linear(vec![vec![0i64]], vec![0]),
        },
        experts: vec![ReflectionModule { layers: vec![identity(dim)] }],
        integrator: IntegrationLayer { linear: identity(dim) },
    }
}

fn demo_config(batch_size: usize, max_epochs: usize) -> Config {
    Config {
        learning_rate_micro: 1_000,
        batch_size,
        reflection_depth: 1,
        num_experts: 1,
        max_epochs,
        data_path: String::from("demo-data"),
        model_save_path: String::from("demo-model"),
    }
}

#[test]
fn gate_rows_are_distributions_when_uniform() {
    let selector = ExpertSelector::new(3, 2, 4);
    let gate = selector.forward(&vec![5, -7, 11]).unwrap();
    assert_eq!(gate.len(), 4);
    assert_eq!(gate.iter().sum::<i64>(), SCALE);
    assert!(gate.iter().all(|&g| g >= 0 && g <= SCALE));
    // zero weights give equal scores, so the split is uniform
    assert_eq!(gate, vec![2500, 2500, 2500, 2500]);
}

#[test]
fn gate_rows_follow_scores_exactly() {
    let selector = ExpertSelector {
        linear1: identity(2),
        linear2: identity(2),
    };
    // logits [6, 2] become positive scores [7, 3]
    let gate = selector.forward(&vec![6, 2]).unwrap();
    assert_eq!(gate, vec![7000, 3000]);
    assert_eq!(gate.iter().sum::<i64>(), SCALE);
}

#[test]
fn gate_row_sums_to_scale_on_skewed_scores() {
    let selector = ExpertSelector {
        linear1: identity(3),
        linear2: identity(3),
    };
    // scores [1, 2, 4]: shares do not divide evenly, the first entry
    // absorbs the remainder and the row still sums to SCALE
    let gate = selector.forward(&vec![0, 1, 3]).unwrap();
    assert_eq!(gate.iter().sum::<i64>(), SCALE);
    assert!(gate.iter().all(|&g| g >= 0));
    assert_eq!(gate[1], 2 * SCALE / 7);
    assert_eq!(gate[2], 4 * SCALE / 7);
}

#[test]
fn dense_routing_runs_every_expert() {
    let dim = 2;
    let mut experts = Vec::new();
    for e in 0..3i64 {
        let w = vec![vec![e + 1, 0], vec![0, e + 1]];
        experts.push(ReflectionModule { layers: vec![linear(w, vec![0, 0])] });
    }
    let model = MorModel {
        embeddings: EmbeddingLayer { table: vec![vec![100, 200]] },
        selector: ExpertSelector {
            linear1: linear(vec![vec![0i64; dim]], vec![0]),
            linear2: linear(vec![vec![0i64], vec![0i64], vec![0i64]], vec![0, 0, 0]),
        },
        experts,
        integrator: IntegrationLayer { linear: identity(dim) },
    };
    let rows = vec![vec![100i64, 200]];
    let outs = model.expert_outputs(&rows).unwrap();
    assert_eq!(outs.len(), 3);
    for (e, out) in outs.iter().enumerate() {
        let direct = model.experts[e].forward(&rows).unwrap();
        assert_eq!(*out, direct);
        assert_eq!(*out, vec![(e as i64 + 1) * 100, (e as i64 + 1) * 200]);
    }
}

#[test]
fn integration_matches_manual_linear_combination() {
    // two experts, embedding_dim 4, gate rows [[0.7, 0.3], [0.4, 0.6]]
    let integrator = IntegrationLayer { linear: identity(4) };
    let e0_x0 = vec![1000i64, 2000, 3000, 4000];
    let e1_x0 = vec![2000i64, 4000, 6000, 8000];
    let out0 = integrator
        .combine_expert_outputs(&vec![e0_x0.clone(), e1_x0.clone()], &vec![7000, 3000])
        .unwrap();
    // 0.7 * e0 + 0.3 * e1, computed by hand
    assert_eq!(out0, vec![1300, 2600, 3900, 5200]);
    let out1 = integrator
        .combine_expert_outputs(&vec![e0_x0, e1_x0], &vec![4000, 6000])
        .unwrap();
    assert_eq!(out1, vec![1600, 3200, 4800, 6400]);
}

#[test]
fn integration_is_order_independent() {
    let integrator = IntegrationLayer { linear: identity(3) };
    let a = vec![11i64, -22, 33];
    let b = vec![-5i64, 40, 7];
    let c = vec![900i64, 1, -3];
    let forward = integrator
        .combine_expert_outputs(&vec![a.clone(), b.clone(), c.clone()], &vec![5000, 3000, 2000])
        .unwrap();
    let permuted = integrator
        .combine_expert_outputs(&vec![c, a, b], &vec![2000, 5000, 3000])
        .unwrap();
    assert_eq!(forward, permuted);
}

#[test]
fn loader_batches_are_contiguous_and_last_is_short() {
    let data: Vec<(Vec<usize>, usize)> = (0..10).map(|i| (vec![i], i)).collect();
    let mut loader = ExampleDataLoader::new(data, 3);
    assert_eq!(loader.len(), 10);
    let mut sizes = Vec::new();
    let mut seen = Vec::new();
    while let Some(batch) = loader.next_batch() {
        sizes.push(batch.targets.len());
        assert_eq!(batch.inputs.len(), batch.targets.len());
        seen.extend(batch.targets);
    }
    assert_eq!(sizes, vec![3, 3, 3, 1]);
    assert_eq!(seen, (0..10).collect::<Vec<usize>>());
    assert!(loader.next_batch().is_none());
    loader.reset();
    let again = loader.next_batch().unwrap();
    assert_eq!(again.targets, vec![0, 1, 2]);
}

#[test]
fn training_visits_every_epoch_and_every_batch() {
    let table = vec![vec![1, 5], vec![9, 2], vec![0, 3]];
    let model = passthrough_model(table);
    let data: Vec<(Vec<usize>, usize)> = (0..10).map(|i| (vec![i % 3], 1)).collect();
    let mut loader = ExampleDataLoader::new(data, 3);
    let cfg = demo_config(3, 2);
    let run = train(&cfg, &model, &mut loader).unwrap();
    // 2 epochs of ceil(10 / 3) = 4 batches each, loader rewound each time
    assert_eq!(run.epoch_batches, vec![4, 4]);
    // the checkpoint is the canonical flat store: embeddings, two gate
    // transforms, one expert layer, integrator
    assert_eq!(run.checkpoint.entries.len(), 5);
}

#[test]
fn zero_epoch_training_only_persists() {
    let model = passthrough_model(vec![vec![1, 5]]);
    let mut loader = ExampleDataLoader::new(vec![(vec![0], 0)], 1);
    let run = train(&demo_config(1, 0), &model, &mut loader).unwrap();
    assert!(run.epoch_batches.is_empty());
    assert_eq!(run.checkpoint.entries.len(), 5);
}

#[test]
fn save_load_round_trip_preserves_predictions() {
    let table = vec![vec![1, 5], vec![9, 2], vec![0, 3]];
    let model = passthrough_model(table);
    let store = save_params(&model);
    // a freshly zeroed tree of the same topology restores to the
    // saved parameters
    let mut restored = MorModel::new(3, 2, 1, 2, 1, 1);
    load_params(&store, &mut restored).unwrap();

    let tokens = vec![0usize];
    assert_eq!(model.forward(&tokens).unwrap(), restored.forward(&tokens).unwrap());

    let data: Vec<(Vec<usize>, usize)> = vec![(vec![0], 1), (vec![1], 1), (vec![2], 1)];
    let mut loader_a = ExampleDataLoader::new(data.clone(), 2);
    let mut loader_b = ExampleDataLoader::new(data, 2);
    let before = evaluate(&model, &mut loader_a).unwrap();
    let after = evaluate(&restored, &mut loader_b).unwrap();
    assert_eq!(before, after);
}

#[test]
fn load_rejects_mismatched_topology() {
    let model = passthrough_model(vec![vec![1, 5], vec![9, 2]]);
    let store = save_params(&model);
    // two experts live, one expert stored: structural mismatch
    let mut other = MorModel::new(2, 2, 1, 2, 2, 1);
    let err = load_params(&store, &mut other).unwrap_err();
    assert!(matches!(err, MorError::StoreMismatch));
    // the mismatch left the live tree untouched
    assert_eq!(other.experts.len(), 2);
}

#[test]
fn load_rejects_tampered_store() {
    let model = passthrough_model(vec![vec![1, 5]]);
    let mut store = save_params(&model);
    store.entries[1].bias.push(7);
    let mut target = passthrough_model(vec![vec![0, 0]]);
    let err = load_params(&store, &mut target).unwrap_err();
    assert!(matches!(err, MorError::StoreMismatch));
    assert_eq!(target.embeddings.table, vec![vec![0, 0]]);
}

#[test]
fn accuracy_reports_two_thirds_as_66_67_percent() {
    // predicted classes [1, 0, 1] against targets [1, 1, 1]
    assert_eq!(accuracy_centi_percent(2, 3), 6667);
    assert_eq!(accuracy_centi_percent(0, 5), 0);
    assert_eq!(accuracy_centi_percent(5, 5), 10_000);
}

#[test]
fn evaluation_counts_correct_predictions() {
    // rows are the predictions: classes argmax[1,5]=1, argmax[9,2]=0,
    // argmax[0,3]=1 against targets [1, 1, 1]
    let table = vec![vec![1, 5], vec![9, 2], vec![0, 3]];
    let model = passthrough_model(table);
    let data: Vec<(Vec<usize>, usize)> = vec![(vec![0], 1), (vec![1], 1), (vec![2], 1)];
    let mut loader = ExampleDataLoader::new(data, 2);
    let (correct, total) = evaluate(&model, &mut loader).unwrap();
    assert_eq!((correct, total), (2, 3));
    assert_eq!(accuracy_centi_percent(correct, total), 6667);
}

#[test]
fn argmax_takes_the_first_maximum() {
    assert_eq!(argmax(&vec![5, 7, 7]), 1);
    assert_eq!(argmax(&vec![-5]), 0);
    assert_eq!(argmax(&vec![3, 3, 3]), 0);
}

#[test]
fn affine_overflow_is_a_numeric_error() {
    let layer = linear(vec![vec![1_000_000, 1_000_000]], vec![0]);
    let err = layer.forward(&vec![1_000_000, 1_000_000]).unwrap_err();
    assert!(matches!(err, MorError::Numeric));
}

#[test]
fn forward_propagates_numeric_failure() {
    let mut model = passthrough_model(vec![vec![1_000_000, 1_000_000]]);
    model.experts[0].layers[0] = linear(vec![vec![1_000_000, 0], vec![0, 1]], vec![0, 0]);
    let err = model.forward(&vec![0usize]).unwrap_err();
    assert!(matches!(err, MorError::Numeric));
}

#[test]
fn regression_loss_is_exact_floored_mse() {
    assert_eq!(regression_loss(&vec![3, 5], &vec![1, 2]), 6);
    assert_eq!(regression_loss(&vec![4], &vec![4]), 0);
    assert_eq!(regression_loss(&vec![-2, 2], &vec![2, -2]), 16);
}

#[test]
fn embedding_forward_looks_rows_up() {
    let table = vec![vec![10, 20], vec![30, 40]];
    let emb = EmbeddingLayer { table };
    let rows = emb.forward(&vec![1, 0, 1]);
    assert_eq!(rows, vec![vec![30, 40], vec![10, 20], vec![30, 40]]);
}

#[test]
fn zeroed_model_forward_is_uniform_and_zero() {
    let model = MorModel::new(4, 2, 3, 2, 2, 2);
    let gate = model.selector.forward(&vec![0, 0]).unwrap();
    assert_eq!(gate, vec![5000, 5000]);
    let y = model.forward(&vec![0, 3]).unwrap();
    assert_eq!(y, vec![0, 0]);
}

#[test]
fn config_validity_checks_positivity() {
    let cfg = demo_config(3, 2);
    assert!(cfg.is_valid());
    let mut bad = demo_config(3, 2);
    bad.num_experts = 0;
    assert!(!bad.is_valid());
    let mut bad2 = demo_config(3, 2);
    bad2.learning_rate_micro = 0;
    assert!(!bad2.is_valid());
    let mut bad3 = demo_config(3, 2);
    bad3.reflection_depth = 0;
    assert!(!bad3.is_valid());
}
