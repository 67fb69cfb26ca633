//! Which models load, into what, and for which reason others do not.
use crate::container;
use crate::container::FbmxModel;
use crate::container::PerformerHparams;
use crate::container::Tensor;
use crate::container::TensorView;
use crate::error;
use crate::error::FbmxErrorView;
use crate::loader;
use crate::performer::PerformerRuntime;
use crate::text;
use vstd::prelude::*;

verus! {

/// No dimension, one value; one dimension, as many values as it says; and the
/// dimensions of two shapes together, the product of their counts.
pub proof fn law_dimensions_multiply(n: usize, a: Seq<usize>, b: Seq<usize>)
    ensures
        container::element_count(Seq::empty()) == 1,
        container::element_count(seq![n]) == n,
        container::element_count(a + b) == container::element_count(a)
            * container::element_count(b),
    decreases b.len(),
{
    assert(container::element_count(Seq::<usize>::empty()) == 1);
    assert(seq![n].drop_last() =~= Seq::empty());
    vstd::arithmetic::mul::lemma_mul_basics(n as int);
    let whole = container::element_count(a) as int;
    if b.len() == 0 {
        assert(a + b =~= a);
        vstd::arithmetic::mul::lemma_mul_basics(whole);
    } else {
        law_dimensions_multiply(n, a, b.drop_last());
        assert((a + b).drop_last() =~= a + b.drop_last());
        vstd::arithmetic::mul::lemma_mul_is_associative(
            whole,
            container::element_count(b.drop_last()) as int,
            b.last() as int,
        );
    }
}

/// Tensor `i` is the first of its name.
pub open spec fn is_first<T>(tensors: Seq<Tensor<T>>, i: int) -> bool {
    &&& 0 <= i < tensors.len()
    &&& forall|j: int| 0 <= j < i ==> (#[trigger] tensors[j])@.name != tensors[i]@.name
}

/// Looking up a name finds the first tensor that bears it, and nothing exactly
/// when none does.
pub proof fn law_lookup_finds_the_first<T>(tensors: Seq<Tensor<T>>, name: Seq<char>, i: int)
    ensures
        is_first(tensors, i) && tensors[i]@.name == name ==> container::find(tensors, name)
            == Some(tensors[i]@),
        container::find(tensors, name) is None <==> forall|j: int|
            0 <= j < tensors.len() ==> (#[trigger] tensors[j])@.name != name,
        container::find(tensors, name) matches Some(found) ==> exists|j: int| #[trigger]
            is_first(tensors, j) && tensors[j]@ == found && found.name == name,
    decreases tensors.len(),
{
    if tensors.len() > 0 {
        let rest = tensors.drop_first();
        law_lookup_finds_the_first(rest, name, i - 1);
        if tensors[0]@.name == name {
            assert(is_first(tensors, 0) && tensors[0]@ == tensors[0]@);
            if is_first(tensors, i) && tensors[i]@.name == name {
                assert(i == 0);
            }
        } else {
            if is_first(tensors, i) && tensors[i]@.name == name {
                assert(i > 0);
                assert(rest[i - 1] == tensors[i]);
                assert forall|j: int| 0 <= j < i - 1 implies (#[trigger] rest[j])@.name
                    != rest[i - 1]@.name by {
                    assert(rest[j] == tensors[j + 1]);
                }
            }
            if container::find(tensors, name) is Some {
                let found = container::find(tensors, name)->0;
                let j = choose|j: int| #[trigger]
                    is_first(rest, j) && rest[j]@ == found && found.name == name;
                assert(tensors[j + 1] == rest[j]);
                assert forall|k: int| 0 <= k < j + 1 implies (#[trigger] tensors[k])@.name
                    != tensors[j + 1]@.name by {
                    if k > 0 {
                        assert(tensors[k] == rest[k - 1]);
                    }
                }
                assert(is_first(tensors, j + 1));
            } else {
                assert forall|j: int| 0 <= j < tensors.len() implies (#[trigger] tensors[j])@.name
                    != name by {
                    if j > 0 {
                        assert(tensors[j] == rest[j - 1]);
                    }
                }
            }
            if forall|j: int| 0 <= j < tensors.len() ==> (#[trigger] tensors[j])@.name != name {
                assert forall|j: int| 0 <= j < rest.len() implies (#[trigger] rest[j])@.name
                    != name by {
                    assert(rest[j] == tensors[j + 1]);
                }
            }
        }
    }
}

/// The first tensor of that name in the model has that shape and those values.
pub open spec fn holds<T>(
    model: FbmxModel<T>,
    name: Seq<char>,
    shape: Seq<usize>,
    values: Seq<T>,
) -> bool {
    exists|i: int| #[trigger]
        is_first(model.tensors@, i) && model.tensors@[i]@ == (TensorView { name, shape, values })
}

/// The first tensor of that name in the model has room for one value, and that
/// is it.
pub open spec fn holds_one<T>(model: FbmxModel<T>, name: Seq<char>, value: T) -> bool {
    exists|values: Seq<T>|
        values[0] == value && #[trigger] holds(model, name, seq![1usize], values)
}

/// A tensor without fault is held, with the values that are loaded of it.
proof fn lemma_held<T>(model: FbmxModel<T>, name: Seq<char>, shape: Seq<usize>)
    requires
        loader::tensor_fault(model, name, shape) is None,
    ensures
        holds(model, name, shape, loader::tensor_values(model, name)),
{
    law_lookup_finds_the_first(model.tensors@, name, 0);
    let found = container::find(model.tensors@, name)->0;
    let j = choose|j: int| #[trigger]
        is_first(model.tensors@, j) && model.tensors@[j]@ == found && found.name == name;
    assert(is_first(model.tensors@, j) && model.tensors@[j]@ == (TensorView {
        name,
        shape,
        values: loader::tensor_values(model, name),
    }));
}

/// The names of the weights, written out.
proof fn lemma_names()
    ensures
        "rnn.weight_ih_l0"@ + ""@ == "rnn.weight_ih_l0"@,
        "rnn.weight_hh_l0"@ + ""@ == "rnn.weight_hh_l0"@,
        "rnn.bias_ih_l0"@ + ""@ == "rnn.bias_ih_l0"@,
        "rnn.bias_hh_l0"@ + ""@ == "rnn.bias_hh_l0"@,
        "rnn.weight_ih_l0"@ + "_reverse"@ == "rnn.weight_ih_l0_reverse"@,
        "rnn.weight_hh_l0"@ + "_reverse"@ == "rnn.weight_hh_l0_reverse"@,
        "rnn.bias_ih_l0"@ + "_reverse"@ == "rnn.bias_ih_l0_reverse"@,
        "rnn.bias_hh_l0"@ + "_reverse"@ == "rnn.bias_hh_l0_reverse"@,
{
    reveal_strlit("");
    reveal_strlit("_reverse");
    reveal_strlit("rnn.weight_ih_l0");
    reveal_strlit("rnn.weight_hh_l0");
    reveal_strlit("rnn.bias_ih_l0");
    reveal_strlit("rnn.bias_hh_l0");
    reveal_strlit("rnn.weight_ih_l0_reverse");
    reveal_strlit("rnn.weight_hh_l0_reverse");
    reveal_strlit("rnn.bias_ih_l0_reverse");
    reveal_strlit("rnn.bias_hh_l0_reverse");
    assert("rnn.weight_ih_l0"@ + ""@ =~= "rnn.weight_ih_l0"@);
    assert("rnn.weight_hh_l0"@ + ""@ =~= "rnn.weight_hh_l0"@);
    assert("rnn.bias_ih_l0"@ + ""@ =~= "rnn.bias_ih_l0"@);
    assert("rnn.bias_hh_l0"@ + ""@ =~= "rnn.bias_hh_l0"@);
    assert("rnn.weight_ih_l0"@ + "_reverse"@ =~= "rnn.weight_ih_l0_reverse"@);
    assert("rnn.weight_hh_l0"@ + "_reverse"@ =~= "rnn.weight_hh_l0_reverse"@);
    assert("rnn.bias_ih_l0"@ + "_reverse"@ =~= "rnn.bias_ih_l0_reverse"@);
    assert("rnn.bias_hh_l0"@ + "_reverse"@ =~= "rnn.bias_hh_l0_reverse"@);
}

/// How many states a head reads: one for each unit of each direction.
pub open spec fn states_read(hparams: PerformerHparams) -> usize {
    if hparams.bidirectional {
        (hparams.hidden_size + hparams.hidden_size) as usize
    } else {
        hparams.hidden_size
    }
}

/// Every weight of a loaded runtime is that of the tensor named for its place.
pub proof fn law_every_tensor_has_its_place<T>(
    model: FbmxModel<T>,
    expected_type: Seq<char>,
    hparams: PerformerHparams,
    runtime: PerformerRuntime<T>,
)
    requires
        loader::load_fault(model, expected_type) is None,
        model.hparams == Ok::<PerformerHparams, String>(hparams),
        loader::loaded(model, hparams, runtime),
    ensures
        runtime.input_size == hparams.input_size,
        runtime.hidden_size == hparams.hidden_size,
        runtime.output_size == hparams.output_size,
        runtime.bidirectional == hparams.bidirectional,
        ({
            let gates = (3 * hparams.hidden_size) as usize;
            let forward = runtime.forward;
            &&& holds(
                model,
                "rnn.weight_ih_l0"@,
                seq![gates, hparams.input_size],
                forward.weight_ih@,
            )
            &&& holds(
                model,
                "rnn.weight_hh_l0"@,
                seq![gates, hparams.hidden_size],
                forward.weight_hh@,
            )
            &&& holds(model, "rnn.bias_ih_l0"@, seq![gates], forward.bias_ih@)
            &&& holds(model, "rnn.bias_hh_l0"@, seq![gates], forward.bias_hh@)
        }),
        hparams.bidirectional <==> runtime.backward is Some,
        runtime.backward matches Some(backward) ==> {
            let gates = (3 * hparams.hidden_size) as usize;
            &&& holds(
                model,
                "rnn.weight_ih_l0_reverse"@,
                seq![gates, hparams.input_size],
                backward.weight_ih@,
            )
            &&& holds(
                model,
                "rnn.weight_hh_l0_reverse"@,
                seq![gates, hparams.hidden_size],
                backward.weight_hh@,
            )
            &&& holds(model, "rnn.bias_ih_l0_reverse"@, seq![gates], backward.bias_ih@)
            &&& holds(model, "rnn.bias_hh_l0_reverse"@, seq![gates], backward.bias_hh@)
        },
        runtime.head_weights@.len() == hparams.output_size,
        runtime.head_biases@.len() == hparams.output_size,
        forall|o: int|
            0 <= o < hparams.output_size ==> holds(
                model,
                "heads."@ + text::decimal(o as nat) + ".weight"@,
                seq![1usize, states_read(hparams)],
                (#[trigger] runtime.head_weights@[o])@,
            ),
        forall|o: int|
            0 <= o < hparams.output_size ==> holds_one(
                model,
                "heads."@ + text::decimal(o as nat) + ".bias"@,
                #[trigger] runtime.head_biases@[o],
            ),
        holds(model, "input_mean"@, seq![hparams.input_size], runtime.input_mean@),
        holds(model, "input_std"@, seq![hparams.input_size], runtime.input_std@),
{
    let gates = (3 * hparams.hidden_size) as usize;
    lemma_names();
    lemma_held(model, "rnn.weight_ih_l0"@, seq![gates, hparams.input_size]);
    lemma_held(model, "rnn.weight_hh_l0"@, seq![gates, hparams.hidden_size]);
    lemma_held(model, "rnn.bias_ih_l0"@, seq![gates]);
    lemma_held(model, "rnn.bias_hh_l0"@, seq![gates]);
    if hparams.bidirectional {
        lemma_held(model, "rnn.weight_ih_l0_reverse"@, seq![gates, hparams.input_size]);
        lemma_held(model, "rnn.weight_hh_l0_reverse"@, seq![gates, hparams.hidden_size]);
        lemma_held(model, "rnn.bias_ih_l0_reverse"@, seq![gates]);
        lemma_held(model, "rnn.bias_hh_l0_reverse"@, seq![gates]);
    }
    let trunk = states_read(hparams);
    assert forall|o: int| 0 <= o < hparams.output_size implies holds(
        model,
        "heads."@ + text::decimal(o as nat) + ".weight"@,
        seq![1usize, trunk],
        (#[trigger] runtime.head_weights@[o])@,
    ) by {
        lemma_heads_sound(model, trunk, hparams.output_size as nat, o as nat);
        lemma_held(
            model,
            "heads."@ + text::decimal(o as nat) + ".weight"@,
            seq![1usize, trunk],
        );
        lemma_head_loaded(model, hparams, runtime, o);
    }
    assert forall|o: int| 0 <= o < hparams.output_size implies holds_one(
        model,
        "heads."@ + text::decimal(o as nat) + ".bias"@,
        #[trigger] runtime.head_biases@[o],
    ) by {
        lemma_heads_sound(model, trunk, hparams.output_size as nat, o as nat);
        lemma_held(model, "heads."@ + text::decimal(o as nat) + ".bias"@, seq![1usize]);
        lemma_head_loaded(model, hparams, runtime, o);
    }
    lemma_held(model, "input_mean"@, seq![hparams.input_size]);
    lemma_held(model, "input_std"@, seq![hparams.input_size]);
}

/// Where the heads have no fault, no head has one.
proof fn lemma_heads_sound<T>(model: FbmxModel<T>, trunk: usize, count: nat, index: nat)
    requires
        loader::heads_fault(model, trunk, count) is None,
        index < count,
    ensures
        loader::tensor_fault(
            model,
            "heads."@ + text::decimal(index) + ".weight"@,
            seq![1usize, trunk],
        ) is None,
        loader::tensor_fault(
            model,
            "heads."@ + text::decimal(index) + ".bias"@,
            seq![1usize],
        ) is None,
    decreases count,
{
    if index < count - 1 {
        lemma_heads_sound(model, trunk, (count - 1) as nat, index);
    }
}

/// The two models have the same tensors but for those of one name.
pub open spec fn differ_in<T>(a: FbmxModel<T>, b: FbmxModel<T>, name: Seq<char>) -> bool {
    &&& a.tensors@.len() == b.tensors@.len()
    &&& forall|i: int|
        0 <= i < a.tensors@.len() ==> {
            ||| (#[trigger] a.tensors@[i])@ == b.tensors@[i]@
            ||| a.tensors@[i]@.name == name && b.tensors@[i]@.name == name
        }
}

/// A tensor of another name is found alike in both.
proof fn lemma_others_found_alike<T>(
    a: Seq<Tensor<T>>,
    b: Seq<Tensor<T>>,
    name: Seq<char>,
    other: Seq<char>,
)
    requires
        a.len() == b.len(),
        forall|i: int|
            0 <= i < a.len() ==> (#[trigger] a[i])@ == b[i]@ || (a[i]@.name == name && b[i]@.name
                == name),
        other != name,
    ensures
        container::find(a, other) == container::find(b, other),
    decreases a.len(),
{
    if a.len() > 0 {
        assert(a[0]@ == b[0]@ || (a[0]@.name == name && b[0]@.name == name));
        let (ra, rb) = (a.drop_first(), b.drop_first());
        assert forall|i: int| 0 <= i < ra.len() implies (#[trigger] ra[i])@ == rb[i]@ || (
        ra[i]@.name == name && rb[i]@.name == name) by {
            assert(ra[i] == a[i + 1]);
        }
        lemma_others_found_alike(ra, rb, name, other);
    }
}

/// A tensor goes to one place: loaded models that differ in the tensor of one
/// name alone differ in nothing but the weights named so.
pub proof fn law_a_tensor_goes_to_one_place<T>(
    a: FbmxModel<T>,
    b: FbmxModel<T>,
    name: Seq<char>,
    hparams: PerformerHparams,
    ra: PerformerRuntime<T>,
    rb: PerformerRuntime<T>,
)
    requires
        differ_in(a, b, name),
        loader::loaded(a, hparams, ra),
        loader::loaded(b, hparams, rb),
    ensures
        name != "rnn.weight_ih_l0"@ ==> ra.forward.weight_ih@ == rb.forward.weight_ih@,
        name != "rnn.weight_hh_l0"@ ==> ra.forward.weight_hh@ == rb.forward.weight_hh@,
        name != "rnn.bias_ih_l0"@ ==> ra.forward.bias_ih@ == rb.forward.bias_ih@,
        name != "rnn.bias_hh_l0"@ ==> ra.forward.bias_hh@ == rb.forward.bias_hh@,
        hparams.bidirectional && name != "rnn.weight_ih_l0_reverse"@
            ==> ra.backward->0.weight_ih@ == rb.backward->0.weight_ih@,
        hparams.bidirectional && name != "rnn.weight_hh_l0_reverse"@
            ==> ra.backward->0.weight_hh@ == rb.backward->0.weight_hh@,
        hparams.bidirectional && name != "rnn.bias_ih_l0_reverse"@ ==> ra.backward->0.bias_ih@
            == rb.backward->0.bias_ih@,
        hparams.bidirectional && name != "rnn.bias_hh_l0_reverse"@ ==> ra.backward->0.bias_hh@
            == rb.backward->0.bias_hh@,
        forall|o: int|
            0 <= o < hparams.output_size && name != "heads."@ + text::decimal(o as nat)
                + ".weight"@ ==> (#[trigger] ra.head_weights@[o])@ == rb.head_weights@[o]@,
        forall|o: int|
            0 <= o < hparams.output_size && name != "heads."@ + text::decimal(o as nat)
                + ".bias"@ ==> #[trigger] ra.head_biases@[o] == rb.head_biases@[o],
        name != "input_mean"@ ==> ra.input_mean@ == rb.input_mean@,
        name != "input_std"@ ==> ra.input_std@ == rb.input_std@,
{
    lemma_names();
    assert forall|other: Seq<char>| other != name implies #[trigger] container::find(
        a.tensors@,
        other,
    ) == container::find(b.tensors@, other) by {
        lemma_others_found_alike(a.tensors@, b.tensors@, name, other);
    }
    assert forall|other: Seq<char>| other != name implies #[trigger] loader::tensor_values(a, other)
        == loader::tensor_values(b, other) by {
    }
    assert forall|o: int|
        0 <= o < hparams.output_size && name != "heads."@ + text::decimal(o as nat)
            + ".weight"@ implies (#[trigger] ra.head_weights@[o])@ == rb.head_weights@[o]@ by {
        lemma_head_loaded(a, hparams, ra, o);
        lemma_head_loaded(b, hparams, rb, o);
    }
    assert forall|o: int|
        0 <= o < hparams.output_size && name != "heads."@ + text::decimal(o as nat)
            + ".bias"@ implies #[trigger] ra.head_biases@[o] == rb.head_biases@[o] by {
        lemma_head_loaded(a, hparams, ra, o);
        lemma_head_loaded(b, hparams, rb, o);
    }
}

/// What a loaded runtime has for head `o`.
proof fn lemma_head_loaded<T>(
    model: FbmxModel<T>,
    hparams: PerformerHparams,
    runtime: PerformerRuntime<T>,
    o: int,
)
    requires
        loader::loaded(model, hparams, runtime),
        0 <= o < hparams.output_size,
    ensures
        runtime.head_weights@[o]@ == loader::tensor_values(
            model,
            "heads."@ + text::decimal(o as nat) + ".weight"@,
        ),
        runtime.head_biases@[o] == loader::tensor_values(
            model,
            "heads."@ + text::decimal(o as nat) + ".bias"@,
        )[0],
{
    assert(loader::head_loaded(
        model,
        o as nat,
        runtime.head_weights@[o]@,
        runtime.head_biases@[o],
    ));
}

/// How many tensors a model needs.
pub open spec fn needed_count(hparams: PerformerHparams) -> int {
    (if hparams.bidirectional {
        8int
    } else {
        4int
    }) + 2 * hparams.output_size + 2
}

/// The tensors that a model needs, in the order in which they are asked for:
/// name and shape of number `k`.
pub open spec fn needed(hparams: PerformerHparams, k: int) -> (Seq<char>, Seq<usize>) {
    let gates = (3 * hparams.hidden_size) as usize;
    let recurrent = if hparams.bidirectional {
        8int
    } else {
        4int
    };
    let trunk = states_read(hparams);
    let j = k - recurrent;
    if k == 0 {
        ("rnn.weight_ih_l0"@, seq![gates, hparams.input_size])
    } else if k == 1 {
        ("rnn.weight_hh_l0"@, seq![gates, hparams.hidden_size])
    } else if k == 2 {
        ("rnn.bias_ih_l0"@, seq![gates])
    } else if k == 3 {
        ("rnn.bias_hh_l0"@, seq![gates])
    } else if k < recurrent && k == 4 {
        ("rnn.weight_ih_l0_reverse"@, seq![gates, hparams.input_size])
    } else if k < recurrent && k == 5 {
        ("rnn.weight_hh_l0_reverse"@, seq![gates, hparams.hidden_size])
    } else if k < recurrent && k == 6 {
        ("rnn.bias_ih_l0_reverse"@, seq![gates])
    } else if k < recurrent {
        ("rnn.bias_hh_l0_reverse"@, seq![gates])
    } else if j < 2 * hparams.output_size {
        if j % 2 == 0 {
            ("heads."@ + text::decimal((j / 2) as nat) + ".weight"@, seq![1usize, trunk])
        } else {
            ("heads."@ + text::decimal((j / 2) as nat) + ".bias"@, seq![1usize])
        }
    } else if j == 2 * hparams.output_size {
        ("input_mean"@, seq![hparams.input_size])
    } else {
        ("input_std"@, seq![hparams.input_size])
    }
}

/// The model holds needed tensor `k`, in its shape.
pub open spec fn has_needed<T>(model: FbmxModel<T>, hparams: PerformerHparams, k: int) -> bool {
    exists|values: Seq<T>| #[trigger]
        holds(model, needed(hparams, k).0, needed(hparams, k).1, values)
}

/// A tensor has no fault exactly when it is held in its shape.
proof fn lemma_fault_is_absence<T>(model: FbmxModel<T>, name: Seq<char>, shape: Seq<usize>)
    ensures
        loader::tensor_fault(model, name, shape) is None <==> exists|values: Seq<T>| #[trigger]
            holds(model, name, shape, values),
        loader::tensor_fault(model, name, shape) matches Some(fault) ==> {
            ||| {
                &&& fault == FbmxErrorView::MissingTensor(name)
                &&& forall|j: int|
                    0 <= j < model.tensors@.len() ==> (#[trigger] model.tensors@[j])@.name != name
            }
            ||| exists|i: int|
                {
                    &&& #[trigger] is_first(model.tensors@, i)
                    &&& model.tensors@[i]@.name == name
                    &&& fault == (FbmxErrorView::ShapeMismatch {
                        name,
                        expected: shape,
                        found: model.tensors@[i]@.shape,
                    })
                }
        },
{
    law_lookup_finds_the_first(model.tensors@, name, 0);
    if loader::tensor_fault(model, name, shape) is None {
        lemma_held(model, name, shape);
    }
    if exists|values: Seq<T>| #[trigger] holds(model, name, shape, values) {
        let values = choose|values: Seq<T>| #[trigger] holds(model, name, shape, values);
        let i = choose|i: int| #[trigger]
            is_first(model.tensors@, i) && model.tensors@[i]@ == (TensorView {
                name,
                shape,
                values,
            });
        law_lookup_finds_the_first(model.tensors@, name, i);
    }
}

/// What is wrong with needed tensor `k`.
spec fn fault_at<T>(model: FbmxModel<T>, hparams: PerformerHparams, k: int) -> Option<
    FbmxErrorView,
> {
    loader::tensor_fault(model, needed(hparams, k).0, needed(hparams, k).1)
}

/// What is wrong with the needed tensors from `k` on.
spec fn fault_from<T>(model: FbmxModel<T>, hparams: PerformerHparams, k: int) -> Option<
    FbmxErrorView,
>
    decreases needed_count(hparams) - k,
{
    if k >= needed_count(hparams) {
        None
    } else {
        loader::first_fault(fault_at(model, hparams, k), fault_from(model, hparams, k + 1))
    }
}

/// The first faulty one is what is wrong with them all.
proof fn lemma_fault_from<T>(model: FbmxModel<T>, hparams: PerformerHparams, k: int, first: int)
    requires
        0 <= k <= first <= needed_count(hparams),
        forall|j: int| k <= j < first ==> #[trigger] fault_at(model, hparams, j) is None,
        first < needed_count(hparams) ==> fault_at(model, hparams, first) is Some,
    ensures
        first == needed_count(hparams) ==> fault_from(model, hparams, k) is None,
        first < needed_count(hparams) ==> fault_from(model, hparams, k) == fault_at(
            model,
            hparams,
            first,
        ),
    decreases first - k,
{
    if k < first {
        assert(fault_at(model, hparams, k) is None);
        lemma_fault_from(model, hparams, k + 1, first);
    }
}

/// The heads' faults, one after the other.
proof fn lemma_heads_in_order<T>(
    model: FbmxModel<T>,
    hparams: PerformerHparams,
    trunk: usize,
    count: nat,
)
    requires
        count <= hparams.output_size,
        trunk == states_read(hparams),
    ensures
        loader::first_fault(
            loader::heads_fault(model, trunk, count),
            fault_from(
                model,
                hparams,
                (if hparams.bidirectional {
                    8int
                } else {
                    4int
                }) + 2 * count,
            ),
        ) == fault_from(
            model,
            hparams,
            if hparams.bidirectional {
                8int
            } else {
                4int
            },
        ),
    decreases count,
{
    let recurrent = if hparams.bidirectional {
        8int
    } else {
        4int
    };
    if count > 0 {
        let index = (count - 1) as nat;
        let k = recurrent + 2 * index;
        lemma_heads_in_order(model, hparams, trunk, index);
        assert(needed(hparams, k) == (
            "heads."@ + text::decimal(index) + ".weight"@,
            seq![1usize, trunk],
        ));
        assert(needed(hparams, k + 1) == (
            "heads."@ + text::decimal(index) + ".bias"@,
            seq![1usize],
        ));
        assert(fault_from(model, hparams, k) == loader::first_fault(
            fault_at(model, hparams, k),
            fault_from(model, hparams, k + 1),
        ));
        assert(fault_from(model, hparams, k + 1) == loader::first_fault(
            fault_at(model, hparams, k + 1),
            fault_from(model, hparams, k + 2),
        ));
    }
}

/// All needed tensors, in order.
proof fn lemma_tensors_in_order<T>(model: FbmxModel<T>, hparams: PerformerHparams)
    requires
        loader::hparams_fault(hparams) is None,
        hparams.hidden_size <= 1024,
    ensures
        loader::model_fault(model, hparams) == fault_from(model, hparams, 0),
{
    let trunk = states_read(hparams);
    let recurrent = if hparams.bidirectional {
        8int
    } else {
        4int
    };
    let mean = recurrent + 2 * hparams.output_size;
    lemma_names();
    lemma_heads_in_order(model, hparams, trunk, hparams.output_size as nat);
    reveal_with_fuel(fault_from, 10);
    assert(needed(hparams, mean) == ("input_mean"@, seq![hparams.input_size]));
    assert(needed(hparams, mean + 1) == ("input_std"@, seq![hparams.input_size]));
    assert(fault_from(model, hparams, mean + 2) is None);
    assert(fault_from(model, hparams, mean) == loader::first_fault(
        fault_at(model, hparams, mean),
        fault_from(model, hparams, mean + 1),
    ));
    assert(fault_from(model, hparams, mean + 1) == loader::first_fault(
        fault_at(model, hparams, mean + 1),
        fault_from(model, hparams, mean + 2),
    ));
}

/// A model loads exactly when its type is the one asked for, its hyperparameters
/// were read and ask for one layer of a GRU with 1 to 1024 units, and it holds
/// every needed tensor in its shape.
pub proof fn law_what_loads<T>(model: FbmxModel<T>, expected_type: Seq<char>)
    ensures
        loader::load_fault(model, expected_type) is None <==> {
            &&& model.model_type@ == expected_type
            &&& model.hparams is Ok
            &&& model.hparams->Ok_0.rnn@ == ""@ || model.hparams->Ok_0.rnn@ == "gru"@
            &&& model.hparams->Ok_0.num_layers == 1
            &&& 1 <= model.hparams->Ok_0.hidden_size <= 1024
            &&& forall|k: int|
                0 <= k < needed_count(model.hparams->Ok_0) ==> #[trigger] has_needed(
                    model,
                    model.hparams->Ok_0,
                    k,
                )
        },
{
    reveal_strlit("");
    if let Ok(hparams) = model.hparams {
        if hparams.rnn@.len() == 0 {
            assert(hparams.rnn@ =~= ""@);
        }
        if loader::hparams_fault(hparams) is None {
            lemma_tensors_in_order(model, hparams);
            assert forall|k: int| true implies (#[trigger] has_needed(model, hparams, k)
                <==> fault_at(model, hparams, k) is None) by {
                lemma_fault_is_absence(model, needed(hparams, k).0, needed(hparams, k).1);
            }
            if forall|k: int|
                0 <= k < needed_count(hparams) ==> #[trigger] has_needed(model, hparams, k) {
                assert forall|k: int| 0 <= k < needed_count(hparams) implies #[trigger] fault_at(
                    model,
                    hparams,
                    k,
                ) is None by {
                    assert(has_needed(model, hparams, k));
                }
                lemma_fault_from(model, hparams, 0, needed_count(hparams));
            } else {
                let k = choose|k: int|
                    0 <= k < needed_count(hparams) && !#[trigger] has_needed(model, hparams, k);
                lemma_some_fault(model, hparams, 0, k);
            }
        }
    }
}

/// One faulty tensor is enough.
proof fn lemma_some_fault<T>(model: FbmxModel<T>, hparams: PerformerHparams, k: int, faulty: int)
    requires
        0 <= k <= faulty < needed_count(hparams),
        fault_at(model, hparams, faulty) is Some,
    ensures
        fault_from(model, hparams, k) is Some,
    decreases faulty - k,
{
    if k < faulty {
        lemma_some_fault(model, hparams, k + 1, faulty);
    }
}

/// A model that does not load is refused for the first of these that holds:
/// another type, unread hyperparameters, another cell, another number of layers,
/// a size out of range, and the first needed tensor `k` that is absent or of
/// another shape.
pub proof fn law_why_a_model_is_refused<T>(model: FbmxModel<T>, expected_type: Seq<char>, k: int)
    ensures
        model.model_type@ != expected_type ==> loader::load_fault(model, expected_type) == Some(
            FbmxErrorView::UnsupportedModelType(model.model_type@),
        ),
        model.model_type@ == expected_type ==> match model.hparams {
            Err(message) => loader::load_fault(model, expected_type) == Some(
                FbmxErrorView::Hparams(message@),
            ),
            Ok(hparams) => {
                let cell = hparams.rnn@ == ""@ || hparams.rnn@ == "gru"@;
                let range = 1 <= hparams.hidden_size <= 1024;
                &&& !cell ==> loader::load_fault(model, expected_type) == Some(
                    error::unsupported_rnn_view(text::debug_text(hparams.rnn@)),
                )
                &&& cell && hparams.num_layers != 1 ==> loader::load_fault(model, expected_type)
                    == Some(error::unsupported_layers_view(hparams.num_layers))
                &&& cell && hparams.num_layers == 1 && !range ==> loader::load_fault(
                    model,
                    expected_type,
                ) == Some(error::unsupported_hidden_view(hparams.hidden_size))
                &&& {
                    &&& cell
                    &&& hparams.num_layers == 1
                    &&& range
                    &&& 0 <= k < needed_count(hparams)
                    &&& !has_needed(model, hparams, k)
                    &&& forall|j: int| 0 <= j < k ==> #[trigger] has_needed(model, hparams, j)
                } ==> {
                    let (name, shape) = needed(hparams, k);
                    &&& (forall|j: int|
                        0 <= j < model.tensors@.len() ==> (#[trigger] model.tensors@[j])@.name
                            != name) ==> loader::load_fault(model, expected_type) == Some(
                        FbmxErrorView::MissingTensor(name),
                    )
                    &&& forall|i: int|
                        #[trigger] is_first(model.tensors@, i) && model.tensors@[i]@.name == name
                            ==> loader::load_fault(model, expected_type) == Some(
                            FbmxErrorView::ShapeMismatch {
                                name,
                                expected: shape,
                                found: model.tensors@[i]@.shape,
                            },
                        )
                }
            },
        },
{
    reveal_strlit("");
    if let Ok(hparams) = model.hparams {
        if hparams.rnn@.len() == 0 {
            assert(hparams.rnn@ =~= ""@);
        }
        let cell = hparams.rnn@ == ""@ || hparams.rnn@ == "gru"@;
        if model.model_type@ == expected_type && cell && hparams.num_layers == 1 && 1
            <= hparams.hidden_size <= 1024 && 0 <= k < needed_count(hparams) && !has_needed(model, hparams, k) && (forall|j: int|
            0 <= j < k ==> #[trigger] has_needed(model, hparams, j)) {
            let (name, shape) = needed(hparams, k);
            lemma_tensors_in_order(model, hparams);
            lemma_fault_is_absence(model, name, shape);
            assert forall|j: int| 0 <= j < k implies #[trigger] fault_at(model, hparams, j)
                is None by {
                assert(has_needed(model, hparams, j));
                lemma_fault_is_absence(model, needed(hparams, j).0, needed(hparams, j).1);
            }
            lemma_fault_from(model, hparams, 0, k);
            assert forall|i: int|
                #[trigger] is_first(model.tensors@, i) && model.tensors@[i]@.name
                    == name implies loader::load_fault(model, expected_type) == Some(
                FbmxErrorView::ShapeMismatch {
                    name,
                    expected: shape,
                    found: model.tensors@[i]@.shape,
                },
            ) by {
                law_lookup_finds_the_first(model.tensors@, name, i);
            }
            law_lookup_finds_the_first(model.tensors@, name, 0);
        }
    }
}

} // verus!
