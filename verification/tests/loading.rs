use fbmx_runtime::text::decimal_text;
use fbmx_runtime::{
    one, FbmxError, FbmxModel, PerformerHparams, PerformerRuntime, Tensor, ACCENT_MODEL_TYPE,
    PERFORMER_MODEL_TYPE,
};

fn tensor(name: &str, shape: &[usize]) -> Tensor<f32> {
    let count = shape.iter().product();
    let values = (0..count).map(|i| i as f32 + name.len() as f32).collect();
    Tensor::new(name.to_string(), shape.to_vec(), values).expect("filled")
}

fn hparams(bidirectional: bool) -> PerformerHparams {
    PerformerHparams {
        hidden_size: 2,
        num_layers: one(),
        bidirectional,
        input_size: 3,
        output_size: 12,
        rnn: "gru".to_string(),
    }
}

fn model(model_type: &str, bidirectional: bool) -> FbmxModel<f32> {
    let mut tensors = vec![tensor("input_mean", &[3]), tensor("input_std", &[3])];
    let suffixes: &[&str] = if bidirectional { &["", "_reverse"] } else { &[""] };
    for suffix in suffixes {
        tensors.push(tensor(&format!("rnn.weight_ih_l0{suffix}"), &[6, 3]));
        tensors.push(tensor(&format!("rnn.weight_hh_l0{suffix}"), &[6, 2]));
        tensors.push(tensor(&format!("rnn.bias_ih_l0{suffix}"), &[6]));
        tensors.push(tensor(&format!("rnn.bias_hh_l0{suffix}"), &[6]));
    }
    let trunk = if bidirectional { 4 } else { 2 };
    for index in 0..12 {
        tensors.push(tensor(&format!("heads.{index}.weight"), &[1, trunk]));
        tensors.push(tensor(&format!("heads.{index}.bias"), &[1]));
    }
    FbmxModel {
        model_type: model_type.to_string(),
        hparams: Ok(hparams(bidirectional)),
        tensors,
    }
}

fn remove(model: &mut FbmxModel<f32>, name: &str) {
    let mut kept = Vec::new();
    for tensor in model.tensors.drain(..) {
        let held = FbmxModel {
            model_type: String::new(),
            hparams: Err(String::new()),
            tensors: vec![tensor],
        };
        if held.tensor(name).is_err() {
            kept.extend(held.tensors);
        }
    }
    model.tensors = kept;
}

fn architecture_error(hparams: PerformerHparams) -> String {
    let mut model = model(PERFORMER_MODEL_TYPE, true);
    model.hparams = Ok(hparams);
    match PerformerRuntime::load(&model) {
        Err(FbmxError::UnsupportedArchitecture(message)) => message,
        other => panic!("unexpected {:?}", other),
    }
}

fn missing(model: &FbmxModel<f32>) -> String {
    match PerformerRuntime::load(model) {
        Err(FbmxError::MissingTensor(name)) => name,
        other => panic!("unexpected {:?}", other),
    }
}

#[test]
fn a_complete_model_loads_with_its_own_weights() {
    let runtime = model(PERFORMER_MODEL_TYPE, true)
        .instantiate_performer()
        .expect("complete");
    assert_eq!(runtime.input_size(), 3);
    assert_eq!(runtime.output_size(), 12);
    assert_eq!(runtime.hidden_size, 2);
    assert!(runtime.is_bidirectional());
    let ramp = |name: &str, count: usize| -> Vec<f32> {
        (0..count).map(|i| i as f32 + name.len() as f32).collect()
    };
    assert_eq!(runtime.forward.weight_ih, ramp("rnn.weight_ih_l0", 18));
    assert_eq!(runtime.forward.weight_hh, ramp("rnn.weight_hh_l0", 12));
    assert_eq!(runtime.forward.bias_ih, ramp("rnn.bias_ih_l0", 6));
    assert_eq!(runtime.forward.bias_hh, ramp("rnn.bias_hh_l0", 6));
    let backward = runtime.backward.expect("bidirectional");
    assert_eq!(backward.weight_ih, ramp("rnn.weight_ih_l0_reverse", 18));
    assert_eq!(backward.bias_hh, ramp("rnn.bias_hh_l0_reverse", 6));
    assert_eq!(runtime.head_weights[11], ramp("heads.11.weight", 4));
    assert_eq!(runtime.head_biases[11], 13.0);
    assert_eq!(runtime.input_mean, ramp("input_mean", 3));
    assert_eq!(runtime.input_std, ramp("input_std", 3));
}

#[test]
fn a_unidirectional_model_needs_no_backward_weights() {
    let runtime = PerformerRuntime::load(&model(PERFORMER_MODEL_TYPE, false)).expect("complete");
    assert!(!runtime.is_bidirectional());
    assert!(runtime.backward.is_none());
    assert_eq!(runtime.head_weights[0].len(), 2);
}

#[test]
fn a_model_loads_as_its_own_type_only() {
    let performer = model(PERFORMER_MODEL_TYPE, true);
    let accent = model(ACCENT_MODEL_TYPE, true);
    assert!(performer.instantiate_performer().is_ok());
    assert!(accent.instantiate_accent_analyzer().is_ok());
    match performer.instantiate_accent_analyzer() {
        Err(FbmxError::UnsupportedModelType(found)) => assert_eq!(found, "performer-gru"),
        other => panic!("unexpected {:?}", other),
    }
    match accent.instantiate_performer() {
        Err(FbmxError::UnsupportedModelType(found)) => assert_eq!(found, "accent-gru"),
        other => panic!("unexpected {:?}", other),
    }
    assert!(PerformerRuntime::load_typed(&model("other", true), "other").is_ok());
}

#[test]
fn the_model_type_only_selects() {
    let performer = model(PERFORMER_MODEL_TYPE, true)
        .instantiate_performer()
        .expect("complete");
    let accent = model(ACCENT_MODEL_TYPE, true)
        .instantiate_accent_analyzer()
        .expect("complete");
    assert_eq!(performer.forward.weight_ih, accent.forward.weight_ih);
    assert_eq!(performer.head_weights, accent.head_weights);
    assert_eq!(performer.input_std, accent.input_std);
}

#[test]
fn unreadable_hyperparameters_are_reported_after_the_type() {
    let mut broken = model(PERFORMER_MODEL_TYPE, true);
    broken.hparams = Err("missing field `hidden_size`".to_string());
    match broken.instantiate_performer() {
        Err(FbmxError::Hparams(message)) => assert_eq!(message, "missing field `hidden_size`"),
        other => panic!("unexpected {:?}", other),
    }
    assert!(matches!(
        broken.instantiate_accent_analyzer(),
        Err(FbmxError::UnsupportedModelType(_))
    ));
}

#[test]
fn other_cells_are_refused() {
    let mut hp = hparams(true);
    hp.rnn = "lstm".to_string();
    assert_eq!(
        architecture_error(hp),
        "performer rnn = \"lstm\"; only gru is implemented"
    );
    let mut hp = hparams(true);
    hp.rnn = "a\"b\\c\n".to_string();
    assert_eq!(
        architecture_error(hp),
        "performer rnn = \"a\\\"b\\\\c\\n\"; only gru is implemented"
    );
}

#[test]
fn an_unnamed_cell_is_a_gru() {
    let mut unnamed = model(PERFORMER_MODEL_TYPE, true);
    let mut hp = hparams(true);
    hp.rnn = String::new();
    unnamed.hparams = Ok(hp);
    assert!(unnamed.instantiate_performer().is_ok());
}

#[test]
fn other_layer_counts_are_refused() {
    for layers in [0, 2, 1234567890] {
        let mut hp = hparams(true);
        hp.num_layers = layers;
        assert_eq!(
            architecture_error(hp),
            format!("performer num_layers = {layers}; only a single layer is implemented")
        );
    }
}

#[test]
fn hidden_sizes_outside_the_range_are_refused() {
    for size in [0, 1025, usize::MAX] {
        let mut hp = hparams(true);
        hp.hidden_size = size;
        assert_eq!(
            architecture_error(hp),
            format!("hidden_size = {size} is outside the supported range 1..=1024")
        );
    }
    let mut largest = model(PERFORMER_MODEL_TYPE, true);
    let mut hp = hparams(true);
    hp.hidden_size = 1024;
    largest.hparams = Ok(hp);
    match largest.instantiate_performer() {
        Err(FbmxError::ShapeMismatch { name, expected, found }) => {
            assert_eq!(name, "rnn.weight_ih_l0");
            assert_eq!(expected, vec![3072, 3]);
            assert_eq!(found, vec![6, 3]);
        }
        other => panic!("unexpected {:?}", other),
    }
}

#[test]
fn the_first_missing_tensor_is_named() {
    let mut partial = model(PERFORMER_MODEL_TYPE, true);
    remove(&mut partial, "input_std");
    assert_eq!(missing(&partial), "input_std");
    remove(&mut partial, "input_mean");
    assert_eq!(missing(&partial), "input_mean");
    remove(&mut partial, "heads.10.bias");
    assert_eq!(missing(&partial), "heads.10.bias");
    remove(&mut partial, "heads.10.weight");
    assert_eq!(missing(&partial), "heads.10.weight");
    remove(&mut partial, "heads.2.bias");
    assert_eq!(missing(&partial), "heads.2.bias");
    remove(&mut partial, "rnn.bias_hh_l0_reverse");
    assert_eq!(missing(&partial), "rnn.bias_hh_l0_reverse");
    remove(&mut partial, "rnn.weight_ih_l0_reverse");
    assert_eq!(missing(&partial), "rnn.weight_ih_l0_reverse");
    remove(&mut partial, "rnn.bias_hh_l0");
    assert_eq!(missing(&partial), "rnn.bias_hh_l0");
    remove(&mut partial, "rnn.weight_hh_l0");
    assert_eq!(missing(&partial), "rnn.weight_hh_l0");
}

#[test]
fn a_tensor_of_another_shape_is_refused() {
    let mut bent = model(PERFORMER_MODEL_TYPE, false);
    remove(&mut bent, "heads.3.weight");
    bent.tensors.push(tensor("heads.3.weight", &[2, 1]));
    match bent.instantiate_performer() {
        Err(FbmxError::ShapeMismatch { name, expected, found }) => {
            assert_eq!(name, "heads.3.weight");
            assert_eq!(expected, vec![1, 2]);
            assert_eq!(found, vec![2, 1]);
        }
        other => panic!("unexpected {:?}", other),
    }
}

#[test]
fn a_tensor_holds_as_many_values_as_its_shape_calls_for() {
    let make = |shape: &[usize], count: usize| {
        Tensor::new("t".to_string(), shape.to_vec(), vec![0.0_f32; count])
    };
    assert!(make(&[2, 3], 6).is_some());
    assert!(make(&[2, 3], 5).is_none());
    assert!(make(&[], 1).is_some());
    assert!(make(&[4, 0], 0).is_some());
    assert!(make(&[usize::MAX, 2, 0], 0).is_some());
    assert!(make(&[usize::MAX, 2], 0).is_none());
    let t = make(&[2, 3], 6).expect("filled");
    assert_eq!(t.expect_shape(&[2, 3]).expect("same").len(), 6);
    assert!(t.expect_shape(&[6]).is_err());
}

#[test]
fn numbers_are_written_in_decimal() {
    for n in [0, 9, 10, 105, 65536, usize::MAX] {
        assert_eq!(decimal_text(n), n.to_string());
    }
}
