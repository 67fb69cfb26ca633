//! Loading a runtime from a container: which tensors a model must hold, in what
//! shapes, and what is reported of the first that is wrong.
use crate::container;
use crate::container::FbmxModel;
use crate::container::PerformerHparams;
use crate::error;
use crate::error::FbmxError;
use crate::error::FbmxErrorView;
use crate::gru::Direction;
use crate::gru::GATES;
use crate::performer;
use crate::performer::PerformerRuntime;
use crate::performer::{ACCENT_MODEL_TYPE, MAX_HIDDEN_SIZE, PERFORMER_MODEL_TYPE};
use crate::text;
use vstd::prelude::*;
use vstd::string::*;

verus! {

/// The first of two faults, the second being looked for only without the first.
pub open spec fn first_fault(
    a: Option<FbmxErrorView>,
    b: Option<FbmxErrorView>,
) -> Option<FbmxErrorView> {
    if a is Some {
        a
    } else {
        b
    }
}

/// What is wrong with the tensor of that name, where that shape is needed.
pub open spec fn tensor_fault<T>(
    model: FbmxModel<T>,
    name: Seq<char>,
    shape: Seq<usize>,
) -> Option<FbmxErrorView> {
    match container::find(model.tensors@, name) {
        None => Some(FbmxErrorView::MissingTensor(name)),
        Some(tensor) => if tensor.shape == shape {
            None
        } else {
            Some(FbmxErrorView::ShapeMismatch { name, expected: shape, found: tensor.shape })
        },
    }
}

/// The values of the tensor of that name.
pub open spec fn tensor_values<T>(model: FbmxModel<T>, name: Seq<char>) -> Seq<T> {
    container::find(model.tensors@, name)->0.values
}

/// What is wrong with the hyperparameters themselves.
pub open spec fn hparams_fault(hparams: PerformerHparams) -> Option<FbmxErrorView> {
    if hparams.rnn@.len() != 0 && hparams.rnn@ != "gru"@ {
        Some(error::unsupported_rnn_view(text::debug_text(hparams.rnn@)))
    } else if hparams.num_layers != 1 {
        Some(error::unsupported_layers_view(hparams.num_layers))
    } else if hparams.hidden_size == 0 || hparams.hidden_size > MAX_HIDDEN_SIZE {
        Some(error::unsupported_hidden_view(hparams.hidden_size))
    } else {
        None
    }
}

/// What is wrong with one direction's weights. The names of the backward ones
/// end in a suffix.
pub open spec fn direction_fault<T>(
    model: FbmxModel<T>,
    hparams: PerformerHparams,
    suffix: Seq<char>,
) -> Option<FbmxErrorView> {
    let gates = (GATES * hparams.hidden_size) as usize;
    first_fault(
        tensor_fault(model, "rnn.weight_ih_l0"@ + suffix, seq![gates, hparams.input_size]),
        first_fault(
            tensor_fault(model, "rnn.weight_hh_l0"@ + suffix, seq![gates, hparams.hidden_size]),
            first_fault(
                tensor_fault(model, "rnn.bias_ih_l0"@ + suffix, seq![gates]),
                tensor_fault(model, "rnn.bias_hh_l0"@ + suffix, seq![gates]),
            ),
        ),
    )
}

/// One direction's weights are the model's.
pub open spec fn direction_loaded<T>(
    model: FbmxModel<T>,
    suffix: Seq<char>,
    direction: Direction<T>,
) -> bool {
    &&& direction.weight_ih@ == tensor_values(model, "rnn.weight_ih_l0"@ + suffix)
    &&& direction.weight_hh@ == tensor_values(model, "rnn.weight_hh_l0"@ + suffix)
    &&& direction.bias_ih@ == tensor_values(model, "rnn.bias_ih_l0"@ + suffix)
    &&& direction.bias_hh@ == tensor_values(model, "rnn.bias_hh_l0"@ + suffix)
}

/// The name of a tensor of head `index`.
pub open spec fn head_name(index: nat, kind: Seq<char>) -> Seq<char> {
    "heads."@ + text::decimal(index) + kind
}

/// What is wrong with the first `count` heads.
pub open spec fn heads_fault<T>(
    model: FbmxModel<T>,
    trunk: usize,
    count: nat,
) -> Option<FbmxErrorView>
    decreases count,
{
    if count == 0 {
        None
    } else {
        let index = (count - 1) as nat;
        first_fault(
            heads_fault(model, trunk, index),
            first_fault(
                tensor_fault(model, head_name(index, ".weight"@), seq![1usize, trunk]),
                tensor_fault(model, head_name(index, ".bias"@), seq![1usize]),
            ),
        )
    }
}

/// The first fault of a model whose hyperparameters could be read.
pub open spec fn model_fault<T>(
    model: FbmxModel<T>,
    hparams: PerformerHparams,
) -> Option<FbmxErrorView> {
    let trunk = performer::trunk_size(hparams.hidden_size, hparams.bidirectional) as usize;
    first_fault(
        hparams_fault(hparams),
        first_fault(
            direction_fault(model, hparams, ""@),
            first_fault(
                if hparams.bidirectional {
                    direction_fault(model, hparams, "_reverse"@)
                } else {
                    None
                },
                first_fault(
                    heads_fault(model, trunk, hparams.output_size as nat),
                    first_fault(
                        tensor_fault(model, "input_mean"@, seq![hparams.input_size]),
                        tensor_fault(model, "input_std"@, seq![hparams.input_size]),
                    ),
                ),
            ),
        ),
    )
}

/// The first fault for which a model is refused where the given type is
/// expected; none if it loads.
pub open spec fn load_fault<T>(
    model: FbmxModel<T>,
    expected_type: Seq<char>,
) -> Option<FbmxErrorView> {
    if model.model_type@ != expected_type {
        Some(FbmxErrorView::UnsupportedModelType(model.model_type@))
    } else {
        match model.hparams {
            Err(message) => Some(FbmxErrorView::Hparams(message@)),
            Ok(hparams) => model_fault(model, hparams),
        }
    }
}

/// The runtime has the sizes and the weights of the model.
pub open spec fn loaded<T>(
    model: FbmxModel<T>,
    hparams: PerformerHparams,
    runtime: PerformerRuntime<T>,
) -> bool {
    &&& runtime.input_size == hparams.input_size
    &&& runtime.hidden_size == hparams.hidden_size
    &&& runtime.output_size == hparams.output_size
    &&& runtime.bidirectional == hparams.bidirectional
    &&& direction_loaded(model, ""@, runtime.forward)
    &&& runtime.backward is Some <==> hparams.bidirectional
    &&& runtime.backward matches Some(backward) ==> direction_loaded(
        model,
        "_reverse"@,
        backward,
    )
    &&& runtime.head_weights@.len() == hparams.output_size
    &&& runtime.head_biases@.len() == hparams.output_size
    &&& forall|o: int|
        0 <= o < hparams.output_size ==> head_loaded(
            model,
            o as nat,
            (#[trigger] runtime.head_weights@[o])@,
            runtime.head_biases@[o],
        )
    &&& runtime.input_mean@ == tensor_values(model, "input_mean"@)
    &&& runtime.input_std@ == tensor_values(model, "input_std"@)
}

/// The weights and the bias of head `index` are the model's.
pub open spec fn head_loaded<T>(
    model: FbmxModel<T>,
    index: nat,
    weights: Seq<T>,
    bias: T,
) -> bool {
    &&& weights == tensor_values(model, head_name(index, ".weight"@))
    &&& bias == tensor_values(model, head_name(index, ".bias"@))[0]
}

/// A fault among the first heads is the fault of them all.
proof fn lemma_heads_fault_stays<T>(model: FbmxModel<T>, trunk: usize, few: nat, many: nat)
    requires
        few <= many,
        heads_fault(model, trunk, few) is Some,
    ensures
        heads_fault(model, trunk, many) == heads_fault(model, trunk, few),
    decreases many,
{
    if few < many {
        lemma_heads_fault_stays(model, trunk, few, (many - 1) as nat);
    }
}

/// A tensor found by name has that name.
proof fn lemma_found_name<T>(tensors: Seq<container::Tensor<T>>, name: Seq<char>)
    ensures
        container::find(tensors, name) matches Some(tensor) ==> tensor.name == name,
    decreases tensors.len(),
{
    if tensors.len() > 0 && tensors[0]@.name != name {
        lemma_found_name(tensors.drop_first(), name);
    }
}

/// How many values the shapes in use hold.
proof fn lemma_counts(a: usize, b: usize)
    ensures
        container::element_count(seq![a]) == a,
        container::element_count(seq![a, b]) == a * b,
{
    assert(seq![a].drop_last() =~= Seq::empty());
    assert(seq![a, b].drop_last() =~= seq![a]);
    assert(container::element_count(Seq::<usize>::empty()) == 1);
    vstd::arithmetic::mul::lemma_mul_basics(a as int);
    assert(container::element_count(seq![a]) == a);
}

/// The values of the tensor of that name, if it has that shape.
fn load_tensor<T: Copy>(model: &FbmxModel<T>, name: &str, shape: &[usize]) -> (result: Result<
    Vec<T>,
    FbmxError,
>)
    ensures
        match result {
            Ok(values) => {
                &&& tensor_fault(*model, name@, shape@) is None
                &&& values@ == tensor_values(*model, name@)
                &&& values@.len() == container::element_count(shape@)
            },
            Err(error) => tensor_fault(*model, name@, shape@) == Some(error@),
        },
{
    proof {
        lemma_found_name(model.tensors@, name@);
    }
    match model.tensor(name) {
        Err(error) => Err(error),
        Ok(tensor) => match tensor.expect_shape(shape) {
            Err(error) => Err(error),
            Ok(values) => Ok(vstd::slice::slice_to_vec(values)),
        },
    }
}

/// A vector of that many values.
fn load_vector<T: Copy>(model: &FbmxModel<T>, name: &str, size: usize) -> (result: Result<
    Vec<T>,
    FbmxError,
>)
    ensures
        match result {
            Ok(values) => {
                &&& tensor_fault(*model, name@, seq![size]) is None
                &&& values@ == tensor_values(*model, name@)
                &&& values@.len() == size
            },
            Err(error) => tensor_fault(*model, name@, seq![size]) == Some(error@),
        },
{
    let shape: [usize; 1] = [size];
    proof {
        lemma_counts(size, 0);
        assert(shape@ =~= seq![size]);
    }
    load_tensor(model, name, &shape)
}

/// A matrix of that many rows and columns.
fn load_matrix<T: Copy>(model: &FbmxModel<T>, name: &str, rows: usize, columns: usize) -> (result:
    Result<Vec<T>, FbmxError>)
    ensures
        match result {
            Ok(values) => {
                &&& tensor_fault(*model, name@, seq![rows, columns]) is None
                &&& values@ == tensor_values(*model, name@)
                &&& values@.len() == rows * columns
            },
            Err(error) => tensor_fault(*model, name@, seq![rows, columns]) == Some(error@),
        },
{
    let shape: [usize; 2] = [rows, columns];
    proof {
        lemma_counts(rows, columns);
        assert(shape@ =~= seq![rows, columns]);
    }
    load_tensor(model, name, &shape)
}

/// One direction's weights.
fn load_direction<T: Copy>(
    model: &FbmxModel<T>,
    hparams: &PerformerHparams,
    suffix: &str,
) -> (result: Result<Direction<T>, FbmxError>)
    requires
        hparams.hidden_size <= MAX_HIDDEN_SIZE,
    ensures
        match result {
            Ok(direction) => {
                &&& direction_fault(*model, *hparams, suffix@) is None
                &&& direction_loaded(*model, suffix@, direction)
                &&& direction.wf(hparams.input_size as nat, hparams.hidden_size as nat)
            },
            Err(error) => direction_fault(*model, *hparams, suffix@) == Some(error@),
        },
{
    let gates: usize = GATES * hparams.hidden_size;
    let name: String = text::appended("rnn.weight_ih_l0", suffix);
    let weight_ih: Vec<T> = match load_matrix(model, name.as_str(), gates, hparams.input_size) {
        Ok(values) => values,
        Err(error) => return Err(error),
    };
    let name: String = text::appended("rnn.weight_hh_l0", suffix);
    let weight_hh: Vec<T> = match load_matrix(model, name.as_str(), gates, hparams.hidden_size) {
        Ok(values) => values,
        Err(error) => return Err(error),
    };
    let name: String = text::appended("rnn.bias_ih_l0", suffix);
    let bias_ih: Vec<T> = match load_vector(model, name.as_str(), gates) {
        Ok(values) => values,
        Err(error) => return Err(error),
    };
    let name: String = text::appended("rnn.bias_hh_l0", suffix);
    let bias_hh: Vec<T> = match load_vector(model, name.as_str(), gates) {
        Ok(values) => values,
        Err(error) => return Err(error),
    };
    Ok(Direction { weight_ih, weight_hh, bias_ih, bias_hh })
}

/// Every head's weights and bias.
fn load_heads<T: Copy>(model: &FbmxModel<T>, trunk: usize, count: usize) -> (result: Result<
    (Vec<Vec<T>>, Vec<T>),
    FbmxError,
>)
    ensures
        match result {
            Ok((weights, biases)) => {
                &&& heads_fault(*model, trunk, count as nat) is None
                &&& weights@.len() == count
                &&& biases@.len() == count
                &&& forall|o: int|
                    0 <= o < count ==> {
                        &&& head_loaded(
                            *model,
                            o as nat,
                            (#[trigger] weights@[o])@,
                            biases@[o],
                        )
                        &&& weights@[o]@.len() == trunk
                    }
            },
            Err(error) => heads_fault(*model, trunk, count as nat) == Some(error@),
        },
{
    let mut weights: Vec<Vec<T>> = Vec::new();
    let mut biases: Vec<T> = Vec::new();
    for index in 0..count
        invariant
            heads_fault(*model, trunk, index as nat) is None,
            weights@.len() == index,
            biases@.len() == index,
            forall|o: int|
                0 <= o < index ==> {
                    &&& head_loaded(*model, o as nat, (#[trigger] weights@[o])@, biases@[o])
                    &&& weights@[o]@.len() == trunk
                },
    {
        let number: String = text::decimal_text(index);
        let name: String = text::joined("heads.", number.as_str(), ".weight");
        let weight: Vec<T> = match load_matrix(model, name.as_str(), 1, trunk) {
            Ok(values) => values,
            Err(error) => {
                proof {
                    lemma_heads_fault_stays(*model, trunk, index as nat + 1, count as nat);
                }
                return Err(error);
            },
        };
        let name: String = text::joined("heads.", number.as_str(), ".bias");
        let bias: Vec<T> = match load_vector(model, name.as_str(), 1) {
            Ok(values) => values,
            Err(error) => {
                proof {
                    lemma_heads_fault_stays(*model, trunk, index as nat + 1, count as nat);
                }
                return Err(error);
            },
        };
        weights.push(weight);
        biases.push(bias[0]);
    }
    Ok((weights, biases))
}

/// Refuses hyperparameters that the runtime does not implement.
fn check_hparams(hparams: &PerformerHparams) -> (result: Result<(), FbmxError>)
    ensures
        match result {
            Ok(_) => hparams_fault(*hparams) is None,
            Err(error) => hparams_fault(*hparams) == Some(error@),
        },
{
    let rnn: &str = hparams.rnn.as_str();
    if !rnn.is_empty() && !text::same_text(rnn, "gru") {
        let quoted: String = text::quoted(rnn);
        return Err(FbmxError::unsupported_rnn(quoted.as_str()));
    }
    if hparams.num_layers != 1 {
        return Err(FbmxError::unsupported_layers(hparams.num_layers));
    }
    if hparams.hidden_size == 0 || hparams.hidden_size > MAX_HIDDEN_SIZE {
        return Err(FbmxError::unsupported_hidden(hparams.hidden_size));
    }
    Ok(())
}

impl<T: Copy> PerformerRuntime<T> {
    /// Loads a Performer.
    pub fn load(model: &FbmxModel<T>) -> (result: Result<Self, FbmxError>)
        ensures
            match result {
                Ok(runtime) => {
                    &&& load_fault(*model, PERFORMER_MODEL_TYPE@) is None
                    &&& loaded(*model, model.hparams->Ok_0, runtime)
                    &&& runtime.wf()
                },
                Err(error) => load_fault(*model, PERFORMER_MODEL_TYPE@) == Some(error@),
            },
    {
        Self::load_typed(model, PERFORMER_MODEL_TYPE)
    }

    /// Loads a note-sequence model of a stated type.
    pub fn load_typed(model: &FbmxModel<T>, expected_type: &str) -> (result: Result<
        Self,
        FbmxError,
    >)
        ensures
            match result {
                Ok(runtime) => {
                    &&& load_fault(*model, expected_type@) is None
                    &&& loaded(*model, model.hparams->Ok_0, runtime)
                    &&& runtime.wf()
                },
                Err(error) => load_fault(*model, expected_type@) == Some(error@),
            },
    {
        if !text::same_text(model.model_type.as_str(), expected_type) {
            return Err(FbmxError::UnsupportedModelType(model.model_type.clone()));
        }
        let hparams: &PerformerHparams = match &model.hparams {
            Ok(hparams) => hparams,
            Err(message) => return Err(FbmxError::Hparams(message.clone())),
        };
        if let Err(error) = check_hparams(hparams) {
            return Err(error);
        }
        let forward: Direction<T> = match load_direction(model, hparams, "") {
            Ok(direction) => direction,
            Err(error) => return Err(error),
        };
        let backward: Option<Direction<T>> = if hparams.bidirectional {
            match load_direction(model, hparams, "_reverse") {
                Ok(direction) => Some(direction),
                Err(error) => return Err(error),
            }
        } else {
            None
        };
        let trunk: usize = hparams.hidden_size * if hparams.bidirectional {
            2
        } else {
            1
        };
        let (head_weights, head_biases) = match load_heads(model, trunk, hparams.output_size) {
            Ok(heads) => heads,
            Err(error) => return Err(error),
        };
        let input_mean: Vec<T> = match load_vector(model, "input_mean", hparams.input_size) {
            Ok(values) => values,
            Err(error) => return Err(error),
        };
        let input_std: Vec<T> = match load_vector(model, "input_std", hparams.input_size) {
            Ok(values) => values,
            Err(error) => return Err(error),
        };
        Ok(
            PerformerRuntime {
                input_size: hparams.input_size,
                hidden_size: hparams.hidden_size,
                output_size: hparams.output_size,
                bidirectional: hparams.bidirectional,
                forward,
                backward,
                head_weights,
                head_biases,
                input_mean,
                input_std,
            },
        )
    }
}

impl<T: Copy> FbmxModel<T> {
    /// Builds a Performer from this container.
    pub fn instantiate_performer(&self) -> (result: Result<PerformerRuntime<T>, FbmxError>)
        ensures
            match result {
                Ok(runtime) => {
                    &&& load_fault(*self, PERFORMER_MODEL_TYPE@) is None
                    &&& loaded(*self, self.hparams->Ok_0, runtime)
                    &&& runtime.wf()
                },
                Err(error) => load_fault(*self, PERFORMER_MODEL_TYPE@) == Some(error@),
            },
    {
        PerformerRuntime::load(self)
    }

    /// Builds an Accent Analyzer from this container.
    ///
    /// The runtime is the same, the model type is not: see
    /// [`ACCENT_MODEL_TYPE`].
    pub fn instantiate_accent_analyzer(&self) -> (result: Result<PerformerRuntime<T>, FbmxError>)
        ensures
            match result {
                Ok(runtime) => {
                    &&& load_fault(*self, ACCENT_MODEL_TYPE@) is None
                    &&& loaded(*self, self.hparams->Ok_0, runtime)
                    &&& runtime.wf()
                },
                Err(error) => load_fault(*self, ACCENT_MODEL_TYPE@) == Some(error@),
            },
    {
        PerformerRuntime::load_typed(self, ACCENT_MODEL_TYPE)
    }
}

} // verus!
