//! A model as it comes out of its container: a type, hyperparameters and named
//! tensors.
use crate::error::FbmxError;
use crate::error::FbmxErrorView;
use crate::text;
use vstd::prelude::*;

verus! {

/// The number of layers of a model whose header does not say.
pub fn one() -> (layers: usize)
    ensures
        layers == 1,
{
    1
}

/// The hyperparameters of a note-sequence model.
#[derive(Debug, Clone)]
pub struct PerformerHparams {
    pub hidden_size: usize,
    pub num_layers: usize,
    pub bidirectional: bool,
    pub input_size: usize,
    pub output_size: usize,
    /// The recurrent cell; empty where the header does not say.
    pub rnn: String,
}

/// How many values a tensor of the given shape holds.
pub open spec fn element_count(shape: Seq<usize>) -> nat
    decreases shape.len(),
{
    if shape.len() == 0 {
        1
    } else {
        element_count(shape.drop_last()) * shape.last() as nat
    }
}

/// A shape with a dimension of zero holds nothing.
proof fn lemma_empty_dimension(shape: Seq<usize>, i: int)
    requires
        0 <= i < shape.len(),
        shape[i] == 0,
    ensures
        element_count(shape) == 0,
    decreases shape.len(),
{
    if i < shape.len() - 1 {
        lemma_empty_dimension(shape.drop_last(), i);
    }
    assert(element_count(shape.drop_last()) * shape.last() as nat == 0) by (nonlinear_arith)
        requires
            element_count(shape.drop_last()) == 0 || shape.last() == 0,
    ;
}

/// Without a zero among the dimensions, every further one keeps the count or
/// raises it.
proof fn lemma_count_grows(shape: Seq<usize>, i: int)
    requires
        0 <= i <= shape.len(),
        forall|j: int| 0 <= j < shape.len() ==> shape[j] > 0,
    ensures
        element_count(shape.take(i)) <= element_count(shape),
    decreases shape.len(),
{
    if i < shape.len() {
        lemma_count_grows(shape.drop_last(), i);
        assert(shape.drop_last().take(i) =~= shape.take(i));
        assert(element_count(shape.drop_last()) <= element_count(shape.drop_last())
            * shape.last() as nat) by (nonlinear_arith)
            requires
                shape.last() >= 1,
        ;
    } else {
        assert(shape.take(i) =~= shape);
    }
}

/// How many values a tensor of the given shape holds, unless that overflows.
fn count_elements(shape: &[usize]) -> (count: Option<usize>)
    ensures
        match count {
            Some(n) => n == element_count(shape@),
            None => element_count(shape@) > usize::MAX,
        },
{
    let rank: usize = shape.len();
    for i in 0..rank
        invariant
            rank == shape@.len(),
            forall|j: int| 0 <= j < i ==> shape@[j] > 0,
    {
        if shape[i] == 0 {
            proof {
                lemma_empty_dimension(shape@, i as int);
            }
            return Some(0);
        }
    }
    let mut count: usize = 1;
    for i in 0..rank
        invariant
            rank == shape@.len(),
            forall|j: int| 0 <= j < rank ==> shape@[j] > 0,
            count == element_count(shape@.take(i as int)),
    {
        proof {
            assert(shape@.take(i + 1).drop_last() =~= shape@.take(i as int));
            assert(element_count(shape@.take(i + 1)) == count as nat * shape@[i as int] as nat);
        }
        match count.checked_mul(shape[i]) {
            Some(next) => {
                count = next;
            },
            None => {
                proof {
                    lemma_count_grows(shape@, i + 1);
                }
                return None;
            },
        }
    }
    assert(shape@.take(rank as int) =~= shape@);
    Some(count)
}

/// A named tensor, its values in row-major order.
#[derive(Debug)]
pub struct Tensor<T> {
    name: String,
    shape: Vec<usize>,
    values: Vec<T>,
}

/// What a [`Tensor`] holds.
pub struct TensorView<T> {
    pub name: Seq<char>,
    pub shape: Seq<usize>,
    pub values: Seq<T>,
}

impl<T> View for Tensor<T> {
    type V = TensorView<T>;

    closed spec fn view(&self) -> TensorView<T> {
        TensorView { name: self.name@, shape: self.shape@, values: self.values@ }
    }
}

impl<T> Tensor<T> {
    /// A tensor holds as many values as its shape calls for.
    #[verifier::type_invariant]
    spec fn shape_is_filled(self) -> bool {
        self.values@.len() == element_count(self.shape@)
    }

    /// A tensor of the given shape, if there are as many values as that calls
    /// for.
    pub fn new(name: String, shape: Vec<usize>, values: Vec<T>) -> (tensor: Option<Tensor<T>>)
        ensures
            tensor is Some <==> values@.len() == element_count(shape@),
            tensor matches Some(t) ==> t@ == (TensorView {
                name: name@,
                shape: shape@,
                values: values@,
            }),
    {
        let held: usize = values.len();
        match count_elements(shape.as_slice()) {
            Some(count) => {
                if count == held {
                    Some(Tensor { name, shape, values })
                } else {
                    None
                }
            },
            None => None,
        }
    }

    /// The values, if the tensor has exactly the given shape.
    pub fn expect_shape(&self, shape: &[usize]) -> (result: Result<&[T], FbmxError>)
        ensures
            match result {
                Ok(values) => {
                    &&& self@.shape == shape@
                    &&& values@ == self@.values
                    &&& values@.len() == element_count(shape@)
                },
                Err(error) => {
                    &&& self@.shape != shape@
                    &&& error@ == (FbmxErrorView::ShapeMismatch {
                        name: self@.name,
                        expected: shape@,
                        found: self@.shape,
                    })
                },
            },
    {
        proof {
            use_type_invariant(self);
        }
        if same_shape(self.shape.as_slice(), shape) {
            Ok(self.values.as_slice())
        } else {
            Err(
                FbmxError::ShapeMismatch {
                    name: self.name.clone(),
                    expected: vstd::slice::slice_to_vec(shape),
                    found: vstd::slice::slice_to_vec(self.shape.as_slice()),
                },
            )
        }
    }
}

/// Whether two shapes are equal.
fn same_shape(a: &[usize], b: &[usize]) -> (same: bool)
    ensures
        same == (a@ == b@),
{
    let rank: usize = a.len();
    if rank != b.len() {
        return false;
    }
    for i in 0..rank
        invariant
            rank == a@.len(),
            rank == b@.len(),
            forall|j: int| 0 <= j < i ==> a@[j] == b@[j],
    {
        if a[i] != b[i] {
            return false;
        }
    }
    assert(a@ =~= b@);
    true
}

/// The first tensor of that name.
pub open spec fn find<T>(tensors: Seq<Tensor<T>>, name: Seq<char>) -> Option<TensorView<T>>
    decreases tensors.len(),
{
    if tensors.len() == 0 {
        None
    } else if tensors[0]@.name == name {
        Some(tensors[0]@)
    } else {
        find(tensors.drop_first(), name)
    }
}

/// A parsed container.
#[derive(Debug)]
pub struct FbmxModel<T> {
    /// What kind of model this is.
    pub model_type: String,
    /// The hyperparameters, or why they could not be read from the header.
    pub hparams: Result<PerformerHparams, String>,
    pub tensors: Vec<Tensor<T>>,
}

impl<T> FbmxModel<T> {
    /// The tensor of the given name.
    pub fn tensor(&self, name: &str) -> (result: Result<&Tensor<T>, FbmxError>)
        ensures
            match result {
                Ok(tensor) => find(self.tensors@, name@) == Some(tensor@),
                Err(error) => {
                    &&& find(self.tensors@, name@) is None
                    &&& error@ == FbmxErrorView::MissingTensor(name@)
                },
            },
    {
        let length: usize = self.tensors.len();
        assert(self.tensors@.skip(0) =~= self.tensors@);
        for i in 0..length
            invariant
                length == self.tensors@.len(),
                find(self.tensors@, name@) == find(self.tensors@.skip(i as int), name@),
        {
            let tensor: &Tensor<T> = &self.tensors[i];
            if text::same_text(tensor.name.as_str(), name) {
                return Ok(tensor);
            }
            assert(self.tensors@.skip(i as int).drop_first() =~= self.tensors@.skip(i + 1));
        }
        Err(FbmxError::MissingTensor(name.to_owned()))
    }
}

} // verus!
