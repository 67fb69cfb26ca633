//! What a pass and a run compute, held against values worked out by hand and
//! against each other.
use crate::arithmetic;
use crate::arithmetic::Arithmetic;
use crate::gru;
use crate::gru::Direction;
use crate::layout;
use crate::layout::Layout;
use crate::performer;
use crate::performer::PerformerRuntime;
use crate::sum_laws;
use crate::uniqueness;
use vstd::prelude::*;

verus! {

/// The next state `y` of one cell, worked out by hand from the contributions of
/// the input and of the hidden state to its reset, update and new gate, and from
/// its last state.
pub open spec fn cell_by_hand<T: Arithmetic>(
    reset_in: T,
    reset_hidden: T,
    update_in: T,
    update_hidden: T,
    new_in: T,
    new_hidden: T,
    last: T,
    y: T,
) -> bool {
    exists|rs: T, r: T, zs: T, z: T, p: T, ns: T, n: T, one: T, c: T, d: T, e: T|
        #![trigger arithmetic::logistic(rs, r), arithmetic::logistic(zs, z), arithmetic::product(r, new_hidden, p), arithmetic::tangent(ns, n), arithmetic::difference(one, z, c), arithmetic::product(c, n, d), arithmetic::product(z, last, e)]
        {
            &&& arithmetic::sum(reset_in, reset_hidden, rs)
            &&& arithmetic::logistic(rs, r)
            &&& arithmetic::sum(update_in, update_hidden, zs)
            &&& arithmetic::logistic(zs, z)
            &&& arithmetic::product(r, new_hidden, p)
            &&& arithmetic::sum(new_in, p, ns)
            &&& arithmetic::tangent(ns, n)
            &&& arithmetic::literal(1, one)
            &&& arithmetic::difference(one, z, c)
            &&& arithmetic::product(c, n, d)
            &&& arithmetic::product(z, last, e)
            &&& arithmetic::sum(d, e, y)
        }
}

/// Each unit has gates of its own: unit `u` moves as a single cell does on rows
/// `u`, `units + u` and `2 * units + u` of the stacked gates.
pub proof fn law_a_unit_is_a_cell_of_its_own<T: Arithmetic>(
    input: Seq<T>,
    hidden: Seq<T>,
    units: nat,
    u: int,
    last: T,
    y: T,
)
    ensures
        gru::unit_step(input, hidden, units, u, last, y) <==> cell_by_hand(
            input[u],
            hidden[u],
            input[units + u],
            hidden[units + u],
            input[2 * units + u],
            hidden[2 * units + u],
            last,
            y,
        ),
{
    if gru::unit_step(input, hidden, units, u, last, y) {
        let (r, z, n) = choose|reset: T, update: T, new: T|
            #![trigger gru::gate(input[u], hidden[u], reset), gru::blend(update, new, last, y)]
            {
                &&& gru::gate(input[u], hidden[u], reset)
                &&& gru::gate(input[units + u], hidden[units + u], update)
                &&& gru::candidate(input[2 * units + u], reset, hidden[2 * units + u], new)
                &&& gru::blend(update, new, last, y)
            };
        assert(cell_by_hand(
            input[u],
            hidden[u],
            input[units + u],
            hidden[units + u],
            input[2 * units + u],
            hidden[2 * units + u],
            last,
            y,
        ));
    }
    if cell_by_hand(
        input[u],
        hidden[u],
        input[units + u],
        hidden[units + u],
        input[2 * units + u],
        hidden[2 * units + u],
        last,
        y,
    ) {
        let (iu, hu, iz, hz, ic, hc) = (
            input[u],
            hidden[u],
            input[units + u],
            hidden[units + u],
            input[2 * units + u],
            hidden[2 * units + u],
        );
        let (rs, r, zs, z, p, ns, n, one, c, d, e) = choose|
            rs: T,
            r: T,
            zs: T,
            z: T,
            p: T,
            ns: T,
            n: T,
            one: T,
            c: T,
            d: T,
            e: T,
        |
            #![trigger arithmetic::logistic(rs, r), arithmetic::logistic(zs, z), arithmetic::product(r, hc, p), arithmetic::tangent(ns, n), arithmetic::difference(one, z, c), arithmetic::product(c, n, d), arithmetic::product(z, last, e)]
            {
                &&& arithmetic::sum(iu, hu, rs)
                &&& arithmetic::logistic(rs, r)
                &&& arithmetic::sum(iz, hz, zs)
                &&& arithmetic::logistic(zs, z)
                &&& arithmetic::product(r, hc, p)
                &&& arithmetic::sum(ic, p, ns)
                &&& arithmetic::tangent(ns, n)
                &&& arithmetic::literal(1, one)
                &&& arithmetic::difference(one, z, c)
                &&& arithmetic::product(c, n, d)
                &&& arithmetic::product(z, last, e)
                &&& arithmetic::sum(d, e, y)
            };
        assert(gru::gate(iu, hu, r));
        assert(gru::gate(iz, hz, z));
        assert(gru::candidate(ic, r, hc, n));
        assert(gru::blend(z, n, last, y));
    }
}

/// Renaming the units renames their next states alike: where the rows of every
/// gate block and the last states are rearranged in one way, so is what comes
/// of them.
pub proof fn law_renaming_units_renames_states<T: Arithmetic>(
    units: nat,
    renaming: spec_fn(int) -> int,
    input: Seq<T>,
    hidden: Seq<T>,
    last: Seq<T>,
    next: Seq<T>,
    renamed_input: Seq<T>,
    renamed_hidden: Seq<T>,
    renamed_last: Seq<T>,
    renamed_next: Seq<T>,
)
    requires
        arithmetic::deterministic::<T>(),
        forall|u: int| 0 <= u < units ==> 0 <= #[trigger] renaming(u) < units,
        forall|u: int|
            #![trigger renaming(u)]
            0 <= u < units ==> {
                &&& renamed_input[u] == input[renaming(u)]
                &&& renamed_input[units + u] == input[units + renaming(u)]
                &&& renamed_input[2 * units + u] == input[2 * units + renaming(u)]
                &&& renamed_hidden[u] == hidden[renaming(u)]
                &&& renamed_hidden[units + u] == hidden[units + renaming(u)]
                &&& renamed_hidden[2 * units + u] == hidden[2 * units + renaming(u)]
                &&& renamed_last[u] == last[renaming(u)]
            },
        forall|u: int|
            0 <= u < units ==> gru::unit_step(
                input,
                hidden,
                units,
                u,
                last[u],
                #[trigger] next[u],
            ),
        forall|u: int|
            0 <= u < units ==> gru::unit_step(
                renamed_input,
                renamed_hidden,
                units,
                u,
                renamed_last[u],
                #[trigger] renamed_next[u],
            ),
    ensures
        forall|u: int| 0 <= u < units ==> #[trigger] renamed_next[u] == next[renaming(u)],
{
    assert forall|u: int| 0 <= u < units implies #[trigger] renamed_next[u] == next[renaming(u)] by {
        let v = renaming(u);
        assert(gru::unit_step(input, hidden, units, v, last[v], next[v]));
        law_a_unit_is_a_cell_of_its_own(input, hidden, units, v, last[v], next[v]);
        law_a_unit_is_a_cell_of_its_own(
            renamed_input,
            renamed_hidden,
            units,
            u,
            renamed_last[u],
            next[v],
        );
        uniqueness::lemma_unit_step_unique(
            renamed_input,
            renamed_hidden,
            units,
            u,
            renamed_last[u],
            renamed_next[u],
            next[v],
        );
    }
}

/// A pass is what is worked out by hand, for every number of notes and units:
/// row by row the gates' contributions of the note at hand and of the last
/// state, unit by unit the next state, from a state of zeros on, through the
/// notes in order or in reverse.
///
/// At step `t`, `input[t]` and `hidden[t]` are the contributions and `next[t]`
/// the state that follows.
pub proof fn law_a_pass_by_hand<T: Arithmetic>(
    direction: Direction<T>,
    inputs: nat,
    units: nat,
    notes: Seq<Seq<T>>,
    reverse: bool,
    rest: Seq<T>,
    input: Seq<Seq<T>>,
    hidden: Seq<Seq<T>>,
    next: Seq<Seq<T>>,
    states: Seq<Seq<T>>,
)
    requires
        arithmetic::deterministic::<T>(),
        direction.bias_ih@.len() == 3 * units,
        direction.bias_hh@.len() == 3 * units,
        forall|i: int| 0 <= i < notes.len() ==> (#[trigger] notes[i]).len() == inputs,
        rest.len() == units,
        forall|u: int| 0 <= u < units ==> arithmetic::literal(0, #[trigger] rest[u]),
        input.len() == notes.len(),
        hidden.len() == notes.len(),
        next.len() == notes.len(),
        forall|t: int| 0 <= t < notes.len() ==> (#[trigger] input[t]).len() == 3 * units,
        forall|t: int| 0 <= t < notes.len() ==> (#[trigger] hidden[t]).len() == 3 * units,
        forall|t: int| 0 <= t < notes.len() ==> (#[trigger] next[t]).len() == units,
        forall|t: int, g: int|
            0 <= t < notes.len() && 0 <= g < 3 * units ==> arithmetic::affine(
                direction.bias_ih@[g],
                direction.weight_ih@.subrange(g * inputs, g * inputs + inputs),
                notes[if reverse {
                    notes.len() - 1 - t
                } else {
                    t
                }],
                #[trigger] input[t][g],
            ),
        forall|t: int, g: int|
            0 <= t < notes.len() && 0 <= g < 3 * units ==> arithmetic::affine(
                direction.bias_hh@[g],
                direction.weight_hh@.subrange(g * units, g * units + units),
                if t == 0 {
                    rest
                } else {
                    next[t - 1]
                },
                #[trigger] hidden[t][g],
            ),
        forall|t: int, u: int|
            0 <= t < notes.len() && 0 <= u < units ==> cell_by_hand(
                input[t][u],
                hidden[t][u],
                input[t][units + u],
                hidden[t][units + u],
                input[t][2 * units + u],
                hidden[t][2 * units + u],
                if t == 0 {
                    rest[u]
                } else {
                    next[t - 1][u]
                },
                #[trigger] next[t][u],
            ),
        gru::pass(direction, units, notes, states, reverse),
    ensures
        states.len() == notes.len(),
        forall|t: int|
            0 <= t < notes.len() ==> states[if reverse {
                notes.len() - 1 - t
            } else {
                t
            }] == #[trigger] next[t],
{
    assert forall|t: int| 0 <= t < notes.len() implies states[if reverse {
        notes.len() - 1 - t
    } else {
        t
    }] == #[trigger] next[t] by {
        lemma_pass_by_hand(
            direction,
            inputs,
            units,
            notes,
            reverse,
            rest,
            input,
            hidden,
            next,
            states,
            t,
        );
    }
}

/// [`law_a_pass_by_hand`], of one step.
proof fn lemma_pass_by_hand<T: Arithmetic>(
    direction: Direction<T>,
    inputs: nat,
    units: nat,
    notes: Seq<Seq<T>>,
    reverse: bool,
    rest: Seq<T>,
    input: Seq<Seq<T>>,
    hidden: Seq<Seq<T>>,
    next: Seq<Seq<T>>,
    states: Seq<Seq<T>>,
    t: int,
)
    requires
        arithmetic::deterministic::<T>(),
        direction.bias_ih@.len() == 3 * units,
        direction.bias_hh@.len() == 3 * units,
        forall|i: int| 0 <= i < notes.len() ==> (#[trigger] notes[i]).len() == inputs,
        rest.len() == units,
        forall|u: int| 0 <= u < units ==> arithmetic::literal(0, #[trigger] rest[u]),
        forall|s: int| 0 <= s < notes.len() ==> (#[trigger] input[s]).len() == 3 * units,
        forall|s: int| 0 <= s < notes.len() ==> (#[trigger] hidden[s]).len() == 3 * units,
        forall|s: int| 0 <= s < notes.len() ==> (#[trigger] next[s]).len() == units,
        forall|s: int, g: int|
            0 <= s < notes.len() && 0 <= g < 3 * units ==> arithmetic::affine(
                direction.bias_ih@[g],
                direction.weight_ih@.subrange(g * inputs, g * inputs + inputs),
                notes[if reverse {
                    notes.len() - 1 - s
                } else {
                    s
                }],
                #[trigger] input[s][g],
            ),
        forall|s: int, g: int|
            0 <= s < notes.len() && 0 <= g < 3 * units ==> arithmetic::affine(
                direction.bias_hh@[g],
                direction.weight_hh@.subrange(g * units, g * units + units),
                if s == 0 {
                    rest
                } else {
                    next[s - 1]
                },
                #[trigger] hidden[s][g],
            ),
        forall|s: int, u: int|
            0 <= s < notes.len() && 0 <= u < units ==> cell_by_hand(
                input[s][u],
                hidden[s][u],
                input[s][units + u],
                hidden[s][units + u],
                input[s][2 * units + u],
                hidden[s][2 * units + u],
                if s == 0 {
                    rest[u]
                } else {
                    next[s - 1][u]
                },
                #[trigger] next[s][u],
            ),
        gru::pass(direction, units, notes, states, reverse),
        0 <= t < notes.len(),
    ensures
        states[if reverse {
            notes.len() - 1 - t
        } else {
            t
        }] == next[t],
    decreases t,
{
    let n = notes.len();
    let i = gru::position(n, t, reverse);
    let last = if t == 0 {
        rest
    } else {
        next[t - 1]
    };
    let (x, gi, gh) = (notes[i], input[t], hidden[t]);
    assert forall|g: int| 0 <= g < gi.len() implies arithmetic::affine(
        direction.bias_ih@[g],
        gru::row(direction.weight_ih@, x.len(), g),
        x,
        #[trigger] gi[g],
    ) by {
        assert(input[t][g] == gi[g]);
    }
    assert forall|g: int| 0 <= g < gh.len() implies arithmetic::affine(
        direction.bias_hh@[g],
        gru::row(direction.weight_hh@, last.len(), g),
        last,
        #[trigger] gh[g],
    ) by {
        assert(hidden[t][g] == gh[g]);
    }
    assert(gru::preactivation(direction.weight_ih@, direction.bias_ih@, x, gi));
    assert(gru::preactivation(direction.weight_hh@, direction.bias_hh@, last, gh));
    assert forall|u: int| 0 <= u < units implies gru::unit_step(
        gi,
        gh,
        units,
        u,
        last[u],
        #[trigger] next[t][u],
    ) by {
        law_a_unit_is_a_cell_of_its_own(gi, gh, units, u, last[u], next[t][u]);
    }
    assert(gru::step(direction, x, last, next[t]));
    if t == 0 {
        let h = choose|h: Seq<T>|
            #![trigger gru::at_rest(h, units)]
            gru::at_rest(h, units) && gru::step(direction, x, h, states[i]);
        assert forall|u: int| 0 <= u < units implies h[u] == rest[u] by {
            assert(arithmetic::literal(0, h[u]) && arithmetic::literal(0, rest[u]));
        }
        assert(h =~= rest);
        uniqueness::lemma_step_unique(direction, x, rest, states[i], next[t]);
    } else {
        lemma_pass_by_hand(
            direction,
            inputs,
            units,
            notes,
            reverse,
            rest,
            input,
            hidden,
            next,
            states,
            t - 1,
        );
        assert(states[gru::position(n, t - 1, reverse)] == last);
        uniqueness::lemma_step_unique(direction, x, last, states[i], next[t]);
    }
}

/// A direction treats every note alike, early or late: wherever two passes are
/// in the same state and read the same note next, they move to the same state.
pub proof fn law_steps_are_alike_at_all_times<T: Arithmetic>(
    direction: Direction<T>,
    units: nat,
    x: Seq<Seq<T>>,
    a: Seq<Seq<T>>,
    i: int,
    y: Seq<Seq<T>>,
    b: Seq<Seq<T>>,
    j: int,
)
    requires
        arithmetic::deterministic::<T>(),
        gru::pass(direction, units, x, a, false),
        gru::pass(direction, units, y, b, false),
        1 <= i < x.len(),
        1 <= j < y.len(),
        a[i - 1] == b[j - 1],
        x[i] == y[j],
    ensures
        a[i] == b[j],
{
    assert(gru::position(x.len(), i, false) == i);
    assert(gru::position(y.len(), j, false) == j);
    assert(gru::step(direction, x[i], a[i - 1], a[i]));
    assert(gru::step(direction, y[j], b[j - 1], b[j]));
    uniqueness::lemma_step_unique(direction, x[i], a[i - 1], a[i], b[j]);
}

/// Returning to a state of zeros is starting again: the note that follows it
/// has the state of a first note.
pub proof fn law_a_zero_state_is_a_fresh_start<T: Arithmetic>(
    direction: Direction<T>,
    units: nat,
    x: Seq<Seq<T>>,
    a: Seq<Seq<T>>,
    i: int,
    y: Seq<Seq<T>>,
    b: Seq<Seq<T>>,
)
    requires
        arithmetic::deterministic::<T>(),
        gru::pass(direction, units, x, a, false),
        gru::pass(direction, units, y, b, false),
        1 <= i < x.len(),
        0 < y.len(),
        forall|u: int| 0 <= u < units ==> arithmetic::literal(0, #[trigger] a[i - 1][u]),
        x[i] == y[0],
    ensures
        a[i] == b[0],
{
    assert(gru::position(x.len(), i, false) == i);
    assert(gru::position(y.len(), 0, false) == 0);
    assert(gru::step(direction, x[i], a[i - 1], a[i]));
    let h = choose|h: Seq<T>|
        #![trigger gru::at_rest(h, units)]
        gru::at_rest(h, units) && gru::step(direction, y[0], h, b[0]);
    assert(a[i - 1].len() == units);
    assert forall|u: int| 0 <= u < units implies h[u] == a[i - 1][u] by {
        assert(arithmetic::literal(0, h[u]));
    }
    assert(h =~= a[i - 1]);
    uniqueness::lemma_step_unique(direction, x[i], h, a[i], b[0]);
}

/// A pass leaves the state on note `i` at `i * stride + offset` and what follows,
/// and a position `p` that holds no state as it was.
pub proof fn law_a_pass_writes_where_it_is_told<T: Arithmetic>(
    direction: Direction<T>,
    notes: Seq<Seq<T>>,
    reverse: bool,
    offset: nat,
    stride: nat,
    units: nat,
    before: Seq<T>,
    after: Seq<T>,
    states: Seq<Seq<T>>,
    p: int,
)
    requires
        arithmetic::deterministic::<T>(),
        units <= stride,
        notes.len() == 0 || (notes.len() - 1) * stride + offset + units <= after.len(),
        layout::written(
            direction,
            notes,
            reverse,
            (Layout { offset, stride, units }),
            before,
            after,
        ),
        gru::pass(direction, units, notes, states, reverse),
        0 <= p < after.len(),
    ensures
        after.len() == before.len(),
        forall|i: int, u: int|
            0 <= i < notes.len() && 0 <= u < units ==> after[i * stride + offset + u]
                == #[trigger] states[i][u],
        after[p] == before[p] || exists|i: int, u: int|
            #![trigger states[i][u]]
            0 <= i < notes.len() && 0 <= u < units && p == i * stride + offset + u,
{
    let n = notes.len();
    let slots = Layout { offset, stride, units };
    uniqueness::lemma_pass_unique(direction, units, notes, slots.slots(after, n), states, reverse);
    assert forall|i: int, u: int| 0 <= i < n && 0 <= u < units implies after[i * stride + offset
        + u] == #[trigger] states[i][u] by {
        layout::lemma_slot_fits(slots, after.len(), n, i);
        assert(slots.slots(after, n)[i][u] == states[i][u]);
    }
    if slots.covers(p, n) {
        let i = choose|i: int| 0 <= i < n && #[trigger] slots.start(i) <= p < slots.start(i) + units;
        let u = p - slots.start(i);
        let state = states[i][u];
        assert(0 <= u < units && p == i * stride + offset + u);
    }
}

/// A buffer is a whole number of notes exactly when some number of notes fills
/// it, and then that is the number counted.
pub proof fn law_notes_fill_their_buffer<T>(runtime: PerformerRuntime<T>, length: nat)
    ensures
        runtime.divides(length) <==> runtime.input_size > 0 && exists|count: nat|
            #[trigger] (count * runtime.input_size as nat) == length,
        runtime.divides(length) ==> runtime.note_count(length) * runtime.input_size as nat
            == length,
{
    let width = runtime.input_size as int;
    if runtime.divides(length) {
        vstd::arithmetic::div_mod::lemma_fundamental_div_mod(length as int, width);
        vstd::arithmetic::mul::lemma_mul_is_commutative(width, length as int / width);
        assert(runtime.note_count(length) * runtime.input_size as nat == length);
    }
    if runtime.input_size > 0 && exists|count: nat|
        #[trigger] (count * runtime.input_size as nat) == length {
        let count = choose|count: nat| #[trigger] (count * runtime.input_size as nat) == length;
        vstd::arithmetic::div_mod::lemma_mod_multiples_basic(count as int, width);
    }
}

/// A run is what is worked out by hand, for every size of model and score: every
/// feature less its mean and divided by its deviation; the states of a forward
/// pass of the forward weights and, in a bidirectional model, of a backward pass
/// of the backward weights; and per output its bias plus its weights times all
/// of a note's states, the forward ones first.
pub proof fn law_a_run_by_hand<T: Arithmetic>(
    runtime: PerformerRuntime<T>,
    notes: Seq<T>,
    count: nat,
    x: Seq<Seq<T>>,
    forward: Seq<Seq<T>>,
    backward: Seq<Seq<T>>,
    out: Seq<T>,
)
    requires
        arithmetic::deterministic::<T>(),
        1 <= runtime.hidden_size <= 1024,
        runtime.forward.weight_ih@.len() == 3 * runtime.hidden_size * runtime.input_size,
        runtime.forward.weight_hh@.len() == 3 * runtime.hidden_size * runtime.hidden_size,
        runtime.forward.bias_ih@.len() == 3 * runtime.hidden_size,
        runtime.forward.bias_hh@.len() == 3 * runtime.hidden_size,
        runtime.bidirectional <==> runtime.backward is Some,
        runtime.backward matches Some(b) ==> {
            &&& b.weight_ih@.len() == 3 * runtime.hidden_size * runtime.input_size
            &&& b.weight_hh@.len() == 3 * runtime.hidden_size * runtime.hidden_size
            &&& b.bias_ih@.len() == 3 * runtime.hidden_size
            &&& b.bias_hh@.len() == 3 * runtime.hidden_size
        },
        runtime.head_weights@.len() == runtime.output_size,
        runtime.head_biases@.len() == runtime.output_size,
        forall|o: int|
            0 <= o < runtime.output_size ==> (#[trigger] runtime.head_weights@[o])@.len() == if runtime.bidirectional {
                runtime.hidden_size + runtime.hidden_size
            } else {
                runtime.hidden_size as int
            },
        runtime.input_mean@.len() == runtime.input_size,
        runtime.input_std@.len() == runtime.input_size,
        runtime.input_size > 0,
        notes.len() == count * runtime.input_size,
        x.len() == count,
        forall|i: int| 0 <= i < count ==> (#[trigger] x[i]).len() == runtime.input_size,
        forall|i: int, f: int|
            0 <= i < count && 0 <= f < runtime.input_size ==> exists|shifted: T| #[trigger]
                arithmetic::difference(
                    notes[i * runtime.input_size + f],
                    runtime.input_mean@[f],
                    shifted,
                ) && arithmetic::quotient(shifted, runtime.input_std@[f], #[trigger] x[i][f]),
        gru::pass(runtime.forward, runtime.hidden_size as nat, x, forward, false),
        runtime.backward matches Some(b) ==> gru::pass(
            b,
            runtime.hidden_size as nat,
            x,
            backward,
            true,
        ),
        performer::ran(runtime, notes, out),
    ensures
        out.len() == count * runtime.output_size,
        forall|i: int, o: int|
            0 <= i < count && 0 <= o < runtime.output_size ==> arithmetic::affine(
                runtime.head_biases@[o],
                runtime.head_weights@[o]@,
                if runtime.bidirectional {
                    forward[i] + backward[i]
                } else {
                    forward[i]
                },
                #[trigger] gru::entry(out, runtime.output_size as nat, i, o),
            ),
{
    let width = runtime.input_size as nat;
    let units = runtime.hidden_size as nat;
    let outputs = runtime.output_size as nat;
    assert(runtime.wf());
    assert(runtime.note_count(notes.len()) == count) by {
        vstd::arithmetic::div_mod::lemma_div_by_multiple(count as int, width as int);
    }
    let raw = gru::rows(notes, width, count);
    let rows = gru::rows(out, outputs, count);
    let (y, trunk) = choose|y: Seq<Seq<T>>, trunk: Seq<Seq<T>>|
        performer::performed(runtime, raw, y, trunk, rows);
    assert forall|i: int| 0 <= i < count implies y[i] == #[trigger] x[i] by {
        gru::lemma_row_fits(i, count as int, width as int);
        assert(performer::standardized_note(runtime, raw[i], y[i]));
        assert forall|f: int| 0 <= f < width implies performer::standardized(
            raw[i][f],
            runtime.input_mean@[f],
            runtime.input_std@[f],
            #[trigger] x[i][f],
        ) by {
            assert(raw[i][f] == notes[i * width + f]);
        }
        uniqueness::lemma_standardized_note_unique(runtime, raw[i], y[i], x[i]);
    }
    assert(y =~= x);
    let front = performer::part(trunk, 0, units);
    let back = performer::part(trunk, units, units);
    uniqueness::lemma_pass_unique(runtime.forward, units, x, front, forward, false);
    if let Some(b) = runtime.backward {
        uniqueness::lemma_pass_unique(b, units, x, back, backward, true);
    }
    assert forall|i: int, o: int| 0 <= i < count && 0 <= o < outputs implies arithmetic::affine(
        runtime.head_biases@[o],
        runtime.head_weights@[o]@,
        if runtime.bidirectional {
            forward[i] + backward[i]
        } else {
            forward[i]
        },
        #[trigger] gru::entry(out, outputs, i, o),
    ) by {
        gru::lemma_row_fits(i, count as int, outputs as int);
        assert(performer::readout(runtime, trunk[i], rows[i]));
        assert(rows[i][o] == gru::entry(out, outputs, i, o));
        assert(front[i] == forward[i]);
        if runtime.bidirectional {
            assert(back[i] == backward[i]);
            assert(trunk[i] =~= forward[i] + backward[i]);
        } else {
            assert(trunk[i] =~= forward[i]);
        }
    }
}

/// The value at `i * width + k` of a row-major matrix is value `k` of row `i`,
/// whatever follows the last row.
pub proof fn law_entries_stand_row_by_row<T>(flat: Seq<T>, width: nat, count: nat, i: int, k: int)
    requires
        flat.len() >= count * width,
        0 <= i < count,
        0 <= k < width,
    ensures
        gru::entry(flat, width, i, k) == flat[i * width + k],
        gru::rows(flat, width, count).len() == count,
        gru::rows(flat, width, count)[i].len() == width,
        gru::rows(flat, width, count)[i][k] == flat[i * width + k],
{
    gru::lemma_row_fits(i, count as int, width as int);
}

/// The forward half of a bidirectional model works alone: with heads whose
/// weights are zero on the backward states, it returns what a unidirectional
/// model with the same forward weights and the rest of the heads returns.
pub proof fn law_the_forward_half_works_alone<T: Arithmetic>(
    both: PerformerRuntime<T>,
    single: PerformerRuntime<T>,
    notes: Seq<T>,
    a: Seq<T>,
    b: Seq<T>,
)
    requires
        arithmetic::deterministic::<T>(),
        sum_laws::zero_absorbs::<T>(),
        sum_laws::zero_adds_nothing::<T>(),
        both.wf(),
        single.wf(),
        both.bidirectional,
        !single.bidirectional,
        both.input_size == single.input_size,
        both.hidden_size == single.hidden_size,
        both.output_size == single.output_size,
        both.forward.same(&single.forward),
        both.same_scaling(&single),
        both.head_biases@ == single.head_biases@,
        forall|o: int, k: int|
            0 <= o < both.output_size && 0 <= k < both.hidden_size
                ==> #[trigger] both.head_weights@[o]@[k] == single.head_weights@[o]@[k],
        forall|o: int, k: int|
            0 <= o < both.output_size && both.hidden_size <= k < both.hidden_size
                + both.hidden_size ==> arithmetic::literal(
                0,
                #[trigger] both.head_weights@[o]@[k],
            ),
        performer::ran(both, notes, a),
        performer::ran(single, notes, b),
    ensures
        a == b,
{
    let width = both.input_size as nat;
    let units = both.hidden_size as nat;
    let outputs = both.output_size as nat;
    let count = both.note_count(notes.len());
    let raw = gru::rows(notes, width, count);
    let (oa, ob) = (gru::rows(a, outputs, count), gru::rows(b, outputs, count));
    let (xa, ta) = choose|x: Seq<Seq<T>>, trunk: Seq<Seq<T>>|
        performer::performed(both, raw, x, trunk, oa);
    let (xb, tb) = choose|x: Seq<Seq<T>>, trunk: Seq<Seq<T>>|
        performer::performed(single, raw, x, trunk, ob);
    assert forall|i: int| 0 <= i < count implies xa[i] == #[trigger] xb[i] by {
        assert(performer::standardized_note(single, raw[i], xb[i]));
        assert(performer::standardized_note(both, raw[i], xa[i]));
        assert(performer::standardized_note(both, raw[i], xb[i]));
        uniqueness::lemma_standardized_note_unique(both, raw[i], xa[i], xb[i]);
    }
    assert(xa =~= xb);
    let (fa, fb) = (performer::part(ta, 0, units), performer::part(tb, 0, units));
    gru::lemma_same_weights_same_pass(both.forward, single.forward, units, xa, fa, false);
    uniqueness::lemma_pass_unique(single.forward, units, xa, fa, fb, false);
    assert forall|i: int| 0 <= i < count implies oa[i] == #[trigger] ob[i] by {
        assert(performer::readout(both, ta[i], oa[i]));
        assert(performer::readout(single, tb[i], ob[i]));
        assert(fa[i] == fb[i]);
        assert(tb[i] =~= fb[i]);
        let rest = ta[i].subrange(units as int, (2 * units) as int);
        assert(ta[i] =~= tb[i] + rest);
        assert forall|o: int| 0 <= o < outputs implies oa[i][o] == ob[i][o] by {
            let (w, v) = (both.head_weights@[o]@, single.head_weights@[o]@);
            let zeros = w.subrange(units as int, (2 * units) as int);
            assert(w =~= v + zeros) by {
                assert forall|k: int| 0 <= k < units implies w[k] == v[k] by {
                    assert(both.head_weights@[o]@[k] == single.head_weights@[o]@[k]);
                }
            }
            let bias = both.head_biases@[o];
            sum_laws::law_a_sum_continues(bias, v, tb[i], zeros, rest, oa[i][o]);
            let partial = choose|partial: T|
                {
                    &&& #[trigger] arithmetic::affine(bias, v, tb[i], partial)
                    &&& arithmetic::affine(partial, zeros, rest, oa[i][o])
                };
            assert forall|k: int| 0 <= k < zeros.len() implies arithmetic::literal(
                0,
                #[trigger] zeros[k],
            ) by {
                assert(zeros[k] == both.head_weights@[o]@[units + k]);
            }
            sum_laws::law_zero_weights_read_nothing(partial, zeros, rest, oa[i][o]);
            uniqueness::lemma_affine_unique(bias, v, tb[i], partial, ob[i][o]);
        }
        assert(oa[i] =~= ob[i]);
    }
    assert(oa =~= ob);
    gru::lemma_rows_determine(a, b, outputs, count);
}

/// The backward half of a bidirectional model works alone: with heads whose
/// weights are zero on the forward states, its outputs are, in reverse, those of
/// a unidirectional model that has the backward weights for its forward ones,
/// run over the reversed score. Which forward weights there are is all the same.
pub proof fn law_the_backward_half_works_alone<T: Arithmetic>(
    both: PerformerRuntime<T>,
    single: PerformerRuntime<T>,
    notes: Seq<T>,
    reversed: Seq<T>,
    a: Seq<T>,
    b: Seq<T>,
)
    requires
        arithmetic::deterministic::<T>(),
        sum_laws::zero_absorbs::<T>(),
        sum_laws::zero_adds_nothing::<T>(),
        both.wf(),
        single.wf(),
        both.bidirectional,
        !single.bidirectional,
        both.input_size == single.input_size,
        both.hidden_size == single.hidden_size,
        both.output_size == single.output_size,
        both.backward->0.same(&single.forward),
        both.same_scaling(&single),
        both.head_biases@ == single.head_biases@,
        forall|o: int, k: int|
            0 <= o < both.output_size && 0 <= k < both.hidden_size ==> arithmetic::literal(
                0,
                #[trigger] both.head_weights@[o]@[k],
            ),
        forall|o: int, k: int|
            0 <= o < both.output_size && 0 <= k < both.hidden_size
                ==> both.head_weights@[o]@[both.hidden_size + k]
                == #[trigger] single.head_weights@[o]@[k],
        reversed.len() == notes.len(),
        forall|i: int, f: int|
            0 <= i < both.note_count(notes.len()) && 0 <= f < both.input_size
                ==> #[trigger] gru::entry(reversed, both.input_size as nat, i, f) == gru::entry(
                notes,
                both.input_size as nat,
                both.note_count(notes.len()) - 1 - i,
                f,
            ),
        performer::ran(both, notes, a),
        performer::ran(single, reversed, b),
    ensures
        a.len() == b.len(),
        forall|i: int, o: int|
            0 <= i < both.note_count(notes.len()) && 0 <= o < both.output_size
                ==> #[trigger] gru::entry(a, both.output_size as nat, i, o) == gru::entry(
                b,
                both.output_size as nat,
                both.note_count(notes.len()) - 1 - i,
                o,
            ),
{
    let width = both.input_size as nat;
    let units = both.hidden_size as nat;
    let outputs = both.output_size as nat;
    let count = both.note_count(notes.len());
    let backward = both.backward->0;
    law_notes_fill_their_buffer(both, notes.len());
    let (raw, mirror) = (gru::rows(notes, width, count), gru::rows(reversed, width, count));
    let (oa, ob) = (gru::rows(a, outputs, count), gru::rows(b, outputs, count));
    let (xa, ta) = choose|x: Seq<Seq<T>>, trunk: Seq<Seq<T>>|
        performer::performed(both, raw, x, trunk, oa);
    let (xb, tb) = choose|x: Seq<Seq<T>>, trunk: Seq<Seq<T>>|
        performer::performed(single, mirror, x, trunk, ob);
    assert forall|i: int| 0 <= i < count implies xa.reverse()[i] == #[trigger] xb[i] by {
        let j = count - 1 - i;
        gru::lemma_row_fits(i, count as int, width as int);
        gru::lemma_row_fits(j, count as int, width as int);
        assert forall|f: int| 0 <= f < width implies mirror[i][f] == raw[j][f] by {
            assert(gru::entry(reversed, width, i, f) == gru::entry(notes, width, j, f));
        }
        assert(mirror[i] =~= raw[j]);
        assert(performer::standardized_note(single, mirror[i], xb[i]));
        assert(performer::standardized_note(both, raw[j], xa[j]));
        assert(performer::standardized_note(both, raw[j], xb[i]));
        uniqueness::lemma_standardized_note_unique(both, raw[j], xa[j], xb[i]);
    }
    assert(xa.reverse() =~= xb);
    let (ba, fb) = (performer::part(ta, units, units), performer::part(tb, 0, units));
    gru::lemma_same_weights_same_pass(backward, single.forward, units, xa, ba, true);
    crate::laws::law_backward_mirrors_forward(single.forward, units, xa, ba);
    uniqueness::lemma_pass_unique(single.forward, units, xb, ba.reverse(), fb, false);
    assert forall|i: int, o: int| 0 <= i < count && 0 <= o < outputs implies #[trigger] gru::entry(
        a,
        outputs,
        i,
        o,
    ) == gru::entry(b, outputs, count - 1 - i, o) by {
        let j = count - 1 - i;
        gru::lemma_row_fits(i, count as int, outputs as int);
        gru::lemma_row_fits(j, count as int, outputs as int);
        assert(performer::readout(both, ta[i], oa[i]));
        assert(performer::readout(single, tb[j], ob[j]));
        assert(oa[i][o] == gru::entry(a, outputs, i, o));
        assert(ob[j][o] == gru::entry(b, outputs, j, o));
        assert(ba.reverse()[j] == fb[j]);
        assert(ba.reverse()[j] == ba[i]);
        let front = ta[i].subrange(0, units as int);
        assert(tb[j] =~= fb[j]);
        assert(ta[i] =~= front + tb[j]);
        let (w, v) = (both.head_weights@[o]@, single.head_weights@[o]@);
        let zeros = w.subrange(0, units as int);
        assert(w =~= zeros + v) by {
            assert forall|k: int| 0 <= k < units implies w[units + k] == #[trigger] v[k] by {
                assert(both.head_weights@[o]@[both.hidden_size + k]
                    == single.head_weights@[o]@[k]);
            }
            assert forall|k: int| units <= k < 2 * units implies w[k] == v[k - units] by {
                assert(w[units + (k - units)] == v[k - units]);
            }
        }
        let bias = both.head_biases@[o];
        sum_laws::law_a_sum_continues(bias, zeros, front, v, tb[j], oa[i][o]);
        let partial = choose|partial: T|
            {
                &&& #[trigger] arithmetic::affine(bias, zeros, front, partial)
                &&& arithmetic::affine(partial, v, tb[j], oa[i][o])
            };
        assert forall|k: int| 0 <= k < zeros.len() implies arithmetic::literal(
            0,
            #[trigger] zeros[k],
        ) by {
            assert(zeros[k] == both.head_weights@[o]@[k]);
        }
        sum_laws::law_zero_weights_read_nothing(bias, zeros, front, partial);
        uniqueness::lemma_affine_unique(bias, v, tb[j], oa[i][o], ob[j][o]);
    }
}

} // verus!
