//! What holds of the library as a whole.
use crate::arithmetic;
use crate::arithmetic::Arithmetic;
use crate::container::FbmxModel;
use crate::container::PerformerHparams;
use crate::gru;
use crate::gru::Direction;
use crate::layout;
use crate::layout::Layout;
use crate::loader;
use crate::performer;
use crate::performer::PerformerRuntime;
use crate::performer::{ACCENT_MODEL_TYPE, PERFORMER_MODEL_TYPE};
use crate::uniqueness;
use vstd::prelude::*;

verus! {

/// No container loads both as a Performer and as an Accent Analyzer.
pub proof fn law_model_types_exclude_each_other<T>(model: FbmxModel<T>)
    ensures
        loader::load_fault(model, PERFORMER_MODEL_TYPE@) is Some || loader::load_fault(
            model,
            ACCENT_MODEL_TYPE@,
        ) is Some,
{
    reveal_strlit("performer-gru");
    reveal_strlit("accent-gru");
    assert(PERFORMER_MODEL_TYPE@.len() != ACCENT_MODEL_TYPE@.len());
}

/// The heads' fault does not depend on the model type.
proof fn lemma_heads_fault_ignores_type<T>(
    a: FbmxModel<T>,
    b: FbmxModel<T>,
    trunk: usize,
    count: nat,
)
    requires
        a.tensors == b.tensors,
    ensures
        loader::heads_fault(a, trunk, count) == loader::heads_fault(b, trunk, count),
    decreases count,
{
    if count > 0 {
        lemma_heads_fault_ignores_type(a, b, trunk, (count - 1) as nat);
    }
}

/// The model type decides whether a container is loaded, never how: containers
/// that differ in their type alone, each asked for by its own, load into the
/// same runtimes or are refused for the same reason.
pub proof fn law_model_type_only_selects<T>(a: FbmxModel<T>, b: FbmxModel<T>)
    requires
        a.hparams == b.hparams,
        a.tensors == b.tensors,
    ensures
        loader::load_fault(a, a.model_type@) == loader::load_fault(b, b.model_type@),
        forall|hparams: PerformerHparams, runtime: PerformerRuntime<T>|
            loader::loaded(a, hparams, runtime) == loader::loaded(b, hparams, runtime),
{
    if let Ok(hparams) = a.hparams {
        let trunk = performer::trunk_size(hparams.hidden_size, hparams.bidirectional) as usize;
        lemma_heads_fault_ignores_type(a, b, trunk, hparams.output_size as nat);
    }
    assert forall|hparams: PerformerHparams, runtime: PerformerRuntime<T>|
        loader::loaded(a, hparams, runtime) == loader::loaded(b, hparams, runtime) by {
        if loader::loaded(a, hparams, runtime) {
            assert forall|o: int| 0 <= o < hparams.output_size implies loader::head_loaded(
                b,
                o as nat,
                (#[trigger] runtime.head_weights@[o])@,
                runtime.head_biases@[o],
            ) by {
                assert(loader::head_loaded(
                    a,
                    o as nat,
                    runtime.head_weights@[o]@,
                    runtime.head_biases@[o],
                ));
            }
        }
        if loader::loaded(b, hparams, runtime) {
            assert forall|o: int| 0 <= o < hparams.output_size implies loader::head_loaded(
                a,
                o as nat,
                (#[trigger] runtime.head_weights@[o])@,
                runtime.head_biases@[o],
            ) by {
                assert(loader::head_loaded(
                    b,
                    o as nat,
                    runtime.head_weights@[o]@,
                    runtime.head_biases@[o],
                ));
            }
        }
    }
}

/// A backward pass is a forward pass over the reversed notes, its states in
/// reverse.
pub proof fn law_backward_mirrors_forward<T: Arithmetic>(
    direction: Direction<T>,
    units: nat,
    notes: Seq<Seq<T>>,
    states: Seq<Seq<T>>,
)
    ensures
        gru::pass(direction, units, notes, states, true) <==> gru::pass(
            direction,
            units,
            notes.reverse(),
            states.reverse(),
            false,
        ),
{
    let n = notes.len();
    let (m, s) = (notes.reverse(), states.reverse());
    if gru::pass(direction, units, notes, states, true) {
        assert forall|i: int| 0 <= i < n implies (#[trigger] s[i]).len() == units by {
            assert(s[i] == states[n - 1 - i]);
        }
        assert forall|t: int| #![trigger gru::position(n, t, false)] 1 <= t < n implies gru::step(
            direction,
            m[gru::position(n, t, false)],
            s[gru::position(n, t - 1, false)],
            s[gru::position(n, t, false)],
        ) by {
            assert(gru::position(n, t, true) == n - 1 - t);
        }
    }
    if gru::pass(direction, units, m, s, false) {
        assert forall|i: int| 0 <= i < n implies (#[trigger] states[i]).len() == units by {
            assert(s[n - 1 - i] == states[i]);
        }
        assert forall|t: int| #![trigger gru::position(n, t, true)] 1 <= t < n implies gru::step(
            direction,
            notes[gru::position(n, t, true)],
            states[gru::position(n, t - 1, true)],
            states[gru::position(n, t, true)],
        ) by {
            assert(gru::position(n, t, false) == t);
        }
    }
}

/// A single note is read alike in both directions.
pub proof fn law_a_single_note_has_no_direction<T: Arithmetic>(
    direction: Direction<T>,
    units: nat,
    notes: Seq<Seq<T>>,
    states: Seq<Seq<T>>,
)
    requires
        notes.len() == 1,
    ensures
        gru::pass(direction, units, notes, states, true) <==> gru::pass(
            direction,
            units,
            notes,
            states,
            false,
        ),
{
}

/// A note whose features are the means behaves like a zero input: where a
/// feature's mean cancels against itself, and zero divided by its deviation is
/// zero, the feature is standardized to zero.
pub proof fn law_the_mean_is_a_zero_input<T: Arithmetic>(
    runtime: PerformerRuntime<T>,
    note: Seq<T>,
    x: Seq<T>,
    f: int,
)
    requires
        performer::standardized_note(runtime, note, x),
        0 <= f < note.len(),
        note[f] == runtime.input_mean@[f],
        arithmetic::cancels(runtime.input_mean@[f]),
        arithmetic::divides_zero(runtime.input_std@[f]),
    ensures
        arithmetic::literal(0, x[f]),
{
    assert(performer::standardized(
        note[f],
        runtime.input_mean@[f],
        runtime.input_std@[f],
        x[f],
    ));
}

/// A forward pass reads no note ahead: its states on the first notes are those
/// of a pass over these notes alone.
pub proof fn law_forward_pass_is_causal<T: Arithmetic>(
    direction: Direction<T>,
    units: nat,
    notes: Seq<Seq<T>>,
    states: Seq<Seq<T>>,
    count: int,
)
    requires
        gru::pass(direction, units, notes, states, false),
        0 <= count <= notes.len(),
    ensures
        gru::pass(direction, units, notes.take(count), states.take(count), false),
{
    let n = notes.len();
    let (m, s) = (notes.take(count), states.take(count));
    assert forall|t: int|
        #![trigger gru::position(m.len(), t, false)]
        1 <= t < m.len() implies gru::step(
        direction,
        m[gru::position(m.len(), t, false)],
        s[gru::position(m.len(), t - 1, false)],
        s[gru::position(m.len(), t, false)],
    ) by {
        assert(gru::position(n, t, false) == t);
    }
}

/// A backward pass reads no note behind: its states on the last notes are those
/// of a pass over these notes alone, so on the final note it has seen nothing
/// else.
pub proof fn law_backward_pass_starts_at_the_end<T: Arithmetic>(
    direction: Direction<T>,
    units: nat,
    notes: Seq<Seq<T>>,
    states: Seq<Seq<T>>,
    start: int,
)
    requires
        gru::pass(direction, units, notes, states, true),
        0 <= start <= notes.len(),
    ensures
        gru::pass(direction, units, notes.skip(start), states.skip(start), true),
        notes.len() > 0 ==> gru::first_step(direction, units, notes.last(), states.last()),
{
    let n = notes.len();
    let (m, s) = (notes.skip(start), states.skip(start));
    assert forall|t: int|
        #![trigger gru::position(m.len(), t, true)]
        1 <= t < m.len() implies gru::step(
        direction,
        m[gru::position(m.len(), t, true)],
        s[gru::position(m.len(), t - 1, true)],
        s[gru::position(m.len(), t, true)],
    ) by {
        assert(gru::position(n, t, true) == n - 1 - t);
    }
}

/// Without a backward direction, the performance of the first notes does not
/// depend on those that follow.
pub proof fn law_unidirectional_performance_is_causal<T: Arithmetic>(
    runtime: PerformerRuntime<T>,
    notes: Seq<Seq<T>>,
    out: Seq<Seq<T>>,
    count: int,
)
    requires
        runtime.wf(),
        !runtime.bidirectional,
        performer::performance(runtime, notes, out),
        0 <= count <= notes.len(),
    ensures
        performer::performance(runtime, notes.take(count), out.take(count)),
{
    let units = runtime.hidden_size as nat;
    let (x, trunk) = choose|x: Seq<Seq<T>>, trunk: Seq<Seq<T>>|
        performer::performed(runtime, notes, x, trunk, out);
    law_forward_pass_is_causal(
        runtime.forward,
        units,
        x,
        performer::part(trunk, 0, units),
        count,
    );
    assert(performer::part(trunk, 0, units).take(count) =~= performer::part(
        trunk.take(count),
        0,
        units,
    ));
    assert(performer::performed(
        runtime,
        notes.take(count),
        x.take(count),
        trunk.take(count),
        out.take(count),
    ));
}

/// The states of a pass depend on the weights and the notes alone: where the
/// arithmetic gives one result per operation, two passes of a direction over
/// the same notes have the same states.
pub proof fn law_states_are_determined<T: Arithmetic>(
    direction: Direction<T>,
    units: nat,
    notes: Seq<Seq<T>>,
    a: Seq<Seq<T>>,
    b: Seq<Seq<T>>,
    reverse: bool,
)
    requires
        arithmetic::deterministic::<T>(),
        gru::pass(direction, units, notes, a, reverse),
        gru::pass(direction, units, notes, b, reverse),
    ensures
        a == b,
{
    uniqueness::lemma_pass_unique(direction, units, notes, a, b, reverse);
}

/// What a pass writes does not depend on what the buffer held, nor on the
/// offset or the stride of its slots.
pub proof fn law_states_ignore_the_buffer<T: Arithmetic>(
    direction: Direction<T>,
    notes: Seq<Seq<T>>,
    reverse: bool,
    layout_a: Layout,
    before_a: Seq<T>,
    after_a: Seq<T>,
    layout_b: Layout,
    before_b: Seq<T>,
    after_b: Seq<T>,
)
    requires
        arithmetic::deterministic::<T>(),
        layout_a.units == layout_b.units,
        layout::written(direction, notes, reverse, layout_a, before_a, after_a),
        layout::written(direction, notes, reverse, layout_b, before_b, after_b),
    ensures
        layout_a.slots(after_a, notes.len()) == layout_b.slots(after_b, notes.len()),
{
    uniqueness::lemma_pass_unique(
        direction,
        layout_a.units,
        notes,
        layout_a.slots(after_a, notes.len()),
        layout_b.slots(after_b, notes.len()),
        reverse,
    );
}

/// Reading notes in reverse writes to the slot of each note what reading the
/// reversed notes forwards writes to the slot of its mirror image.
pub proof fn law_backward_writes_the_mirror_image<T: Arithmetic>(
    direction: Direction<T>,
    notes: Seq<Seq<T>>,
    layout_a: Layout,
    before_a: Seq<T>,
    after_a: Seq<T>,
    layout_b: Layout,
    before_b: Seq<T>,
    after_b: Seq<T>,
)
    requires
        arithmetic::deterministic::<T>(),
        layout_a.units == layout_b.units,
        layout::written(direction, notes, true, layout_a, before_a, after_a),
        layout::written(direction, notes.reverse(), false, layout_b, before_b, after_b),
    ensures
        forall|i: int|
            0 <= i < notes.len() ==> #[trigger] layout_a.slot(after_a, i) == layout_b.slot(
                after_b,
                notes.len() - 1 - i,
            ),
{
    let n = notes.len();
    let (a, b) = (layout_a.slots(after_a, n), layout_b.slots(after_b, n));
    law_backward_mirrors_forward(direction, layout_a.units, notes, a);
    uniqueness::lemma_pass_unique(
        direction,
        layout_a.units,
        notes.reverse(),
        a.reverse(),
        b,
        false,
    );
    assert forall|i: int| 0 <= i < n implies #[trigger] layout_a.slot(after_a, i)
        == layout_b.slot(after_b, n - 1 - i) by {
        assert(a.reverse()[n - 1 - i] == b[n - 1 - i]);
    }
}

/// A pass writes of the notes it has read nothing that depends on those it has
/// not: forward states depend on no later note, backward states on no earlier
/// one. The two scores agree up to note `m`, or from it on where they are read
/// in reverse.
pub proof fn law_states_ignore_unread_notes<T: Arithmetic>(
    direction: Direction<T>,
    x: Seq<Seq<T>>,
    y: Seq<Seq<T>>,
    m: int,
    reverse: bool,
    layout_a: Layout,
    before_a: Seq<T>,
    after_a: Seq<T>,
    layout_b: Layout,
    before_b: Seq<T>,
    after_b: Seq<T>,
)
    requires
        arithmetic::deterministic::<T>(),
        layout_a.units == layout_b.units,
        x.len() == y.len(),
        0 <= m < x.len(),
        forall|i: int|
            (if reverse {
                m <= i < x.len()
            } else {
                0 <= i <= m
            }) ==> #[trigger] x[i] == y[i],
        layout::written(direction, x, reverse, layout_a, before_a, after_a),
        layout::written(direction, y, reverse, layout_b, before_b, after_b),
    ensures
        forall|i: int|
            (if reverse {
                m <= i < x.len()
            } else {
                0 <= i <= m
            }) ==> #[trigger] layout_a.slot(after_a, i) == layout_b.slot(after_b, i),
{
    let n = x.len();
    let (a, b) = (layout_a.slots(after_a, n), layout_b.slots(after_b, n));
    assert forall|i: int|
        (if reverse {
            m <= i < n
        } else {
            0 <= i <= m
        }) implies #[trigger] layout_a.slot(after_a, i) == layout_b.slot(after_b, i) by {
        let t = gru::position(n, i, reverse);
        uniqueness::lemma_state_unique(direction, layout_a.units, x, y, a, b, reverse, t);
        assert(gru::position(n, t, reverse) == i);
        assert(a[i] == b[i]);
    }
}

/// The slots of the forward states in a buffer that both passes share.
pub open spec fn front_half(units: nat) -> Layout {
    Layout { offset: 0, stride: 2 * units, units }
}

/// The slots of the backward states in a buffer that both passes share.
pub open spec fn back_half(units: nat) -> Layout {
    Layout { offset: units, stride: 2 * units, units }
}

/// Two passes share one buffer, in whichever order they run: neither changes
/// the half that the other writes, so in the end each half holds the states of
/// its own pass, and the halves leave no position out.
pub proof fn law_passes_fill_both_halves<T: Arithmetic>(
    forward: Direction<T>,
    backward: Direction<T>,
    units: nat,
    notes: Seq<Seq<T>>,
    backward_first: bool,
    before: Seq<T>,
    between: Seq<T>,
    after: Seq<T>,
)
    requires
        before.len() == notes.len() * (2 * units),
        if backward_first {
            &&& layout::written(backward, notes, true, back_half(units), before, between)
            &&& layout::written(forward, notes, false, front_half(units), between, after)
        } else {
            &&& layout::written(forward, notes, false, front_half(units), before, between)
            &&& layout::written(backward, notes, true, back_half(units), between, after)
        },
    ensures
        gru::pass(forward, units, notes, front_half(units).slots(after, notes.len()), false),
        gru::pass(backward, units, notes, back_half(units).slots(after, notes.len()), true),
        backward_first ==> {
            &&& front_half(units).slots(between, notes.len()) == front_half(units).slots(
                before,
                notes.len(),
            )
            &&& back_half(units).slots(after, notes.len()) == back_half(units).slots(
                between,
                notes.len(),
            )
        },
        !backward_first ==> {
            &&& back_half(units).slots(between, notes.len()) == back_half(units).slots(
                before,
                notes.len(),
            )
            &&& front_half(units).slots(after, notes.len()) == front_half(units).slots(
                between,
                notes.len(),
            )
        },
        forall|p: int|
            0 <= p < after.len() ==> #[trigger] front_half(units).covers(p, notes.len())
                || back_half(units).covers(p, notes.len()),
{
    let n = notes.len();
    let (front, back) = (front_half(units), back_half(units));
    layout::lemma_rows_fit(front, n);
    layout::lemma_rows_fit(back, n);
    if backward_first {
        layout::lemma_other_slots_kept(front, back, n, before, between);
        layout::lemma_other_slots_kept(back, front, n, between, after);
    } else {
        layout::lemma_other_slots_kept(back, front, n, before, between);
        layout::lemma_other_slots_kept(front, back, n, between, after);
    }
    assert forall|p: int| 0 <= p < after.len() implies #[trigger] front.covers(p, n)
        || back.covers(p, n) by {
        gru::lemma_position_in_row(p, (2 * units) as int, n as int);
        let i = p / (2 * units) as int;
        if p % (2 * units) as int >= units {
            assert(back.start(i) <= p < back.start(i) + units);
        } else {
            assert(front.start(i) <= p < front.start(i) + units);
        }
    }
}

/// The order of the two passes is free, and so is what the buffer held: both
/// orders leave the same values.
pub proof fn law_order_of_passes_is_free<T: Arithmetic>(
    forward: Direction<T>,
    backward: Direction<T>,
    units: nat,
    notes: Seq<Seq<T>>,
    before_a: Seq<T>,
    between_a: Seq<T>,
    after_a: Seq<T>,
    before_b: Seq<T>,
    between_b: Seq<T>,
    after_b: Seq<T>,
)
    requires
        arithmetic::deterministic::<T>(),
        before_a.len() == notes.len() * (2 * units),
        before_b.len() == notes.len() * (2 * units),
        layout::written(forward, notes, false, front_half(units), before_a, between_a),
        layout::written(backward, notes, true, back_half(units), between_a, after_a),
        layout::written(backward, notes, true, back_half(units), before_b, between_b),
        layout::written(forward, notes, false, front_half(units), between_b, after_b),
    ensures
        after_a == after_b,
{
    let n = notes.len();
    let (front, back) = (front_half(units), back_half(units));
    law_passes_fill_both_halves(
        forward,
        backward,
        units,
        notes,
        false,
        before_a,
        between_a,
        after_a,
    );
    law_passes_fill_both_halves(
        forward,
        backward,
        units,
        notes,
        true,
        before_b,
        between_b,
        after_b,
    );
    let (fa, fb) = (front.slots(after_a, n), front.slots(after_b, n));
    let (ba, bb) = (back.slots(after_a, n), back.slots(after_b, n));
    uniqueness::lemma_pass_unique(forward, units, notes, fa, fb, false);
    uniqueness::lemma_pass_unique(backward, units, notes, ba, bb, true);
    layout::lemma_rows_fit(front, n);
    layout::lemma_rows_fit(back, n);
    assert forall|p: int| 0 <= p < after_a.len() implies after_a[p] == after_b[p] by {
        gru::lemma_position_in_row(p, (2 * units) as int, n as int);
        let (i, k) = (p / (2 * units) as int, p % (2 * units) as int);
        layout::lemma_slot_fits(front, after_a.len(), n, i);
        layout::lemma_slot_fits(back, after_a.len(), n, i);
        if k >= units {
            assert(ba[i][k - units] == after_a[p]);
            assert(bb[i][k - units] == after_b[p]);
        } else {
            assert(fa[i][k] == after_a[p]);
            assert(fb[i][k] == after_b[p]);
        }
    }
    assert(after_a =~= after_b);
}

/// A run keeps nothing for the next: where the arithmetic gives one result per
/// operation, two runs of a model over the same notes return the same values.
pub proof fn law_run_is_determined<T: Arithmetic>(
    runtime: PerformerRuntime<T>,
    notes: Seq<T>,
    a: Seq<T>,
    b: Seq<T>,
)
    requires
        runtime.wf(),
        arithmetic::deterministic::<T>(),
        performer::ran(runtime, notes, a),
        performer::ran(runtime, notes, b),
    ensures
        a == b,
{
    let count = runtime.note_count(notes.len());
    let outputs = runtime.output_size as nat;
    uniqueness::lemma_performance_unique(
        runtime,
        gru::rows(notes, runtime.input_size as nat, count),
        gru::rows(a, outputs, count),
        gru::rows(b, outputs, count),
    );
    gru::lemma_rows_determine(a, b, outputs, count);
}

/// Without a backward direction a longer score keeps the outputs of its
/// beginning: later notes never change them, and every run starts at rest.
pub proof fn law_unidirectional_run_extends<T: Arithmetic>(
    runtime: PerformerRuntime<T>,
    notes: Seq<T>,
    more: Seq<T>,
    out: Seq<T>,
    longer: Seq<T>,
)
    requires
        runtime.wf(),
        arithmetic::deterministic::<T>(),
        !runtime.bidirectional,
        performer::ran(runtime, notes, out),
        performer::ran(runtime, notes + more, longer),
    ensures
        out.len() <= longer.len(),
        longer.take(out.len() as int) == out,
{
    let width = runtime.input_size as nat;
    let outputs = runtime.output_size as nat;
    let all = notes + more;
    let (few, many) = (runtime.note_count(notes.len()), runtime.note_count(all.len()));
    vstd::arithmetic::div_mod::lemma_div_is_ordered(
        notes.len() as int,
        all.len() as int,
        width as int,
    );
    lemma_whole_notes(runtime, notes.len());
    vstd::arithmetic::mul::lemma_mul_inequality(few as int, many as int, outputs as int);
    let head = longer.take(out.len() as int);
    law_unidirectional_performance_is_causal(
        runtime,
        gru::rows(all, width, many),
        gru::rows(longer, outputs, many),
        few as int,
    );
    let (x, y) = (gru::rows(all, width, many).take(few as int), gru::rows(notes, width, few));
    assert forall|i: int| 0 <= i < few implies x[i] =~= #[trigger] y[i] by {
        gru::lemma_row_fits(i, few as int, width as int);
    }
    assert(x =~= y);
    let (a, b) = (gru::rows(longer, outputs, many).take(few as int), gru::rows(head, outputs, few));
    assert forall|i: int| 0 <= i < few implies a[i] =~= #[trigger] b[i] by {
        gru::lemma_row_fits(i, few as int, outputs as int);
    }
    assert(a =~= b);
    uniqueness::lemma_performance_unique(runtime, y, b, gru::rows(out, outputs, few));
    gru::lemma_rows_determine(head, out, outputs, few);
}

/// A buffer of whole notes is as long as its notes together.
proof fn lemma_whole_notes<T>(runtime: PerformerRuntime<T>, length: nat)
    requires
        runtime.divides(length),
    ensures
        runtime.note_count(length) * runtime.input_size == length,
{
    let width = runtime.input_size as int;
    vstd::arithmetic::div_mod::lemma_fundamental_div_mod(length as int, width);
    vstd::arithmetic::mul::lemma_mul_is_commutative(width, length as int / width);
}

/// Each feature is standardized once, by its own mean and deviation, and
/// nothing else depends on them: running notes gives what the same model with
/// means of zero and deviations of one gives for the standardized notes.
pub proof fn law_run_standardizes_once<T: Arithmetic>(
    runtime: PerformerRuntime<T>,
    neutral: PerformerRuntime<T>,
    notes: Seq<T>,
    scaled: Seq<T>,
    a: Seq<T>,
    b: Seq<T>,
)
    requires
        runtime.wf(),
        neutral.wf(),
        arithmetic::deterministic::<T>(),
        performer::neutral_scaling::<T>(),
        runtime.same_network(&neutral),
        runtime.same_heads(&neutral),
        forall|f: int|
            0 <= f < neutral.input_size ==> arithmetic::literal(0, #[trigger] neutral.input_mean@[f]),
        forall|f: int|
            0 <= f < neutral.input_size ==> arithmetic::literal(1, #[trigger] neutral.input_std@[f]),
        scaled.len() == notes.len(),
        forall|k: int|
            0 <= k < notes.len() ==> performer::standardized(
                notes[k],
                runtime.input_mean@[k % runtime.input_size as int],
                runtime.input_std@[k % runtime.input_size as int],
                #[trigger] scaled[k],
            ),
        performer::ran(runtime, notes, a),
        performer::ran(neutral, scaled, b),
    ensures
        a == b,
{
    let width = runtime.input_size as nat;
    let outputs = runtime.output_size as nat;
    let count = runtime.note_count(notes.len());
    let (raw, plain) = (gru::rows(notes, width, count), gru::rows(scaled, width, count));
    let (oa, ob) = (gru::rows(a, outputs, count), gru::rows(b, outputs, count));
    let (xa, ta) = choose|x: Seq<Seq<T>>, trunk: Seq<Seq<T>>|
        performer::performed(runtime, raw, x, trunk, oa);
    let (xb, tb) = choose|x: Seq<Seq<T>>, trunk: Seq<Seq<T>>|
        performer::performed(neutral, plain, x, trunk, ob);
    lemma_whole_notes(runtime, notes.len());
    assert forall|i: int| 0 <= i < count implies xa[i] == #[trigger] plain[i] by {
        gru::lemma_row_fits(i, count as int, width as int);
        assert(performer::standardized_note(runtime, raw[i], xa[i]));
        assert forall|f: int| 0 <= f < width implies performer::standardized(
            raw[i][f],
            runtime.input_mean@[f],
            runtime.input_std@[f],
            #[trigger] plain[i][f],
        ) by {
            vstd::arithmetic::div_mod::lemma_fundamental_div_mod_converse_mod(
                i * width + f,
                width as int,
                i,
                f,
            );
            assert(plain[i][f] == scaled[i * width + f]);
        }
        assert(performer::standardized_note(runtime, raw[i], plain[i]));
        uniqueness::lemma_standardized_note_unique(runtime, raw[i], xa[i], plain[i]);
    }
    assert(xa =~= plain);
    assert forall|i: int| 0 <= i < count implies xb[i] == #[trigger] plain[i] by {
        gru::lemma_row_fits(i, count as int, width as int);
        assert(performer::standardized_note(neutral, plain[i], xb[i]));
        assert forall|f: int| 0 <= f < width implies xb[i][f] == plain[i][f] by {
            assert(performer::standardized(
                plain[i][f],
                neutral.input_mean@[f],
                neutral.input_std@[f],
                xb[i][f],
            ));
        }
        assert(xb[i] =~= plain[i]);
    }
    assert(xb =~= plain);
    performer::lemma_same_network_same_encoding(runtime, neutral, plain, ta);
    uniqueness::lemma_encoding_unique(neutral, plain, ta, tb);
    assert forall|i: int| 0 <= i < count implies oa[i] == #[trigger] ob[i] by {
        assert(performer::readout(runtime, ta[i], oa[i]));
        assert forall|o: int| 0 <= o < outputs implies arithmetic::affine(
            neutral.head_biases@[o],
            neutral.head_weights@[o]@,
            ta[i],
            #[trigger] oa[i][o],
        ) by {
            assert(runtime.head_weights@[o]@ == neutral.head_weights@[o]@);
        }
        assert(performer::readout(neutral, ta[i], oa[i]));
        uniqueness::lemma_readout_unique(neutral, ta[i], oa[i], ob[i]);
    }
    assert(oa =~= ob);
    gru::lemma_rows_determine(a, b, outputs, count);
}

/// There is one head per output, and an output depends on no other head: a
/// model whose heads are those of another in a different arrangement returns
/// the outputs of the other in that arrangement.
pub proof fn law_heads_permute_outputs<T: Arithmetic>(
    runtime: PerformerRuntime<T>,
    arranged: PerformerRuntime<T>,
    arrangement: spec_fn(int) -> int,
    notes: Seq<T>,
    a: Seq<T>,
    b: Seq<T>,
)
    requires
        runtime.wf(),
        arranged.wf(),
        arithmetic::deterministic::<T>(),
        runtime.same_network(&arranged),
        runtime.same_scaling(&arranged),
        runtime.output_size == arranged.output_size,
        forall|o: int|
            0 <= o < runtime.output_size ==> 0 <= #[trigger] arrangement(o) < runtime.output_size,
        forall|o: int|
            0 <= o < runtime.output_size ==> (#[trigger] arranged.head_weights@[o])@
                == runtime.head_weights@[arrangement(o)]@,
        forall|o: int|
            0 <= o < runtime.output_size ==> #[trigger] arranged.head_biases@[o]
                == runtime.head_biases@[arrangement(o)],
        performer::ran(runtime, notes, a),
        performer::ran(arranged, notes, b),
    ensures
        b.len() == a.len(),
        forall|k: int, o: int|
            0 <= k < runtime.note_count(notes.len()) && 0 <= o < runtime.output_size
                ==> #[trigger] gru::entry(b, runtime.output_size as nat, k, o) == gru::entry(
                a,
                runtime.output_size as nat,
                k,
                arrangement(o),
            ),
{
    let width = runtime.input_size as nat;
    let outputs = runtime.output_size as nat;
    let count = runtime.note_count(notes.len());
    let raw = gru::rows(notes, width, count);
    let (oa, ob) = (gru::rows(a, outputs, count), gru::rows(b, outputs, count));
    let (xa, ta) = choose|x: Seq<Seq<T>>, trunk: Seq<Seq<T>>|
        performer::performed(runtime, raw, x, trunk, oa);
    let (xb, tb) = choose|x: Seq<Seq<T>>, trunk: Seq<Seq<T>>|
        performer::performed(arranged, raw, x, trunk, ob);
    assert forall|i: int| 0 <= i < count implies xa[i] == #[trigger] xb[i] by {
        assert(performer::standardized_note(arranged, raw[i], xb[i]));
        assert(performer::standardized_note(runtime, raw[i], xa[i]));
        assert(performer::standardized_note(runtime, raw[i], xb[i]));
        uniqueness::lemma_standardized_note_unique(runtime, raw[i], xa[i], xb[i]);
    }
    assert(xa =~= xb);
    performer::lemma_same_network_same_encoding(runtime, arranged, xa, ta);
    uniqueness::lemma_encoding_unique(arranged, xa, ta, tb);
    assert forall|k: int, o: int|
        0 <= k < count && 0 <= o < outputs implies #[trigger] gru::entry(b, outputs, k, o)
        == gru::entry(a, outputs, k, arrangement(o)) by {
        gru::lemma_row_fits(k, count as int, outputs as int);
        let p = arrangement(o);
        assert(performer::readout(runtime, ta[k], oa[k]));
        assert(performer::readout(arranged, ta[k], ob[k]));
        assert(oa[k][p] == a[k * outputs + p]);
        assert(ob[k][o] == b[k * outputs + o]);
        assert(arranged.head_biases@[o] == runtime.head_biases@[p]);
        assert(arranged.head_weights@[o]@ == runtime.head_weights@[p]@);
        uniqueness::lemma_affine_unique(
            runtime.head_biases@[p],
            runtime.head_weights@[p]@,
            ta[k],
            oa[k][p],
            ob[k][o],
        );
    }
}

} // verus!
