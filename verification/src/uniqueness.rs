//! Where every operation has one result, so has everything built from them.
use crate::arithmetic;
use crate::arithmetic::Arithmetic;
use crate::gru;
use crate::gru::Direction;
use crate::lcg;
use crate::performer;
use crate::performer::PerformerRuntime;
use vstd::prelude::*;

verus! {

/// The logistic function has one result.
pub(crate) proof fn lemma_logistic_unique<T: Arithmetic>(x: T, a: T, b: T)
    requires
        arithmetic::deterministic::<T>(),
        arithmetic::logistic(x, a),
        arithmetic::logistic(x, b),
    ensures
        a == b,
{
}

/// A weighted sum has one result.
pub(crate) proof fn lemma_affine_unique<T: Arithmetic>(
    bias: T,
    weights: Seq<T>,
    values: Seq<T>,
    a: T,
    b: T,
)
    requires
        arithmetic::deterministic::<T>(),
        arithmetic::affine(bias, weights, values, a),
        arithmetic::affine(bias, weights, values, b),
    ensures
        a == b,
    decreases weights.len(),
{
    if weights.len() > 0 {
        let (w, v) = (weights.drop_last(), values.drop_last());
        let (p, s) = choose|partial: T, term: T|
            #![trigger arithmetic::sum(partial, term, a)]
            {
                &&& arithmetic::affine(bias, w, v, partial)
                &&& arithmetic::product(weights.last(), values.last(), term)
                &&& arithmetic::sum(partial, term, a)
            };
        let (q, t) = choose|partial: T, term: T|
            #![trigger arithmetic::sum(partial, term, b)]
            {
                &&& arithmetic::affine(bias, w, v, partial)
                &&& arithmetic::product(weights.last(), values.last(), term)
                &&& arithmetic::sum(partial, term, b)
            };
        lemma_affine_unique(bias, w, v, p, q);
        assert(s == t);
    }
}

/// The gates' contributions are fixed by the values.
pub(crate) proof fn lemma_preactivation_unique<T: Arithmetic>(
    weights: Seq<T>,
    bias: Seq<T>,
    values: Seq<T>,
    a: Seq<T>,
    b: Seq<T>,
)
    requires
        arithmetic::deterministic::<T>(),
        gru::preactivation(weights, bias, values, a),
        gru::preactivation(weights, bias, values, b),
    ensures
        a == b,
{
    assert forall|g: int| 0 <= g < a.len() implies a[g] == b[g] by {
        lemma_affine_unique(bias[g], gru::row(weights, values.len(), g), values, a[g], b[g]);
    }
    assert(a =~= b);
}

/// A gate has one result.
pub(crate) proof fn lemma_gate_unique<T: Arithmetic>(input: T, hidden: T, a: T, b: T)
    requires
        arithmetic::deterministic::<T>(),
        gru::gate(input, hidden, a),
        gru::gate(input, hidden, b),
    ensures
        a == b,
{
    let p = choose|total: T|
        #![trigger arithmetic::sum(input, hidden, total)]
        arithmetic::sum(input, hidden, total) && arithmetic::logistic(total, a);
    let q = choose|total: T|
        #![trigger arithmetic::sum(input, hidden, total)]
        arithmetic::sum(input, hidden, total) && arithmetic::logistic(total, b);
    assert(p == q);
    lemma_logistic_unique(p, a, b);
}

/// A unit has one next state.
pub(crate) proof fn lemma_unit_step_unique<T: Arithmetic>(
    input: Seq<T>,
    hidden: Seq<T>,
    units: nat,
    u: int,
    old_state: T,
    a: T,
    b: T,
)
    requires
        arithmetic::deterministic::<T>(),
        gru::unit_step(input, hidden, units, u, old_state, a),
        gru::unit_step(input, hidden, units, u, old_state, b),
    ensures
        a == b,
{
    let (ra, za, na) = choose|reset: T, update: T, new: T|
        #![trigger gru::gate(input[u], hidden[u], reset), gru::blend(update, new, old_state, a)]
        {
            &&& gru::gate(input[u], hidden[u], reset)
            &&& gru::gate(input[units + u], hidden[units + u], update)
            &&& gru::candidate(input[2 * units + u], reset, hidden[2 * units + u], new)
            &&& gru::blend(update, new, old_state, a)
        };
    let (rb, zb, nb) = choose|reset: T, update: T, new: T|
        #![trigger gru::gate(input[u], hidden[u], reset), gru::blend(update, new, old_state, b)]
        {
            &&& gru::gate(input[u], hidden[u], reset)
            &&& gru::gate(input[units + u], hidden[units + u], update)
            &&& gru::candidate(input[2 * units + u], reset, hidden[2 * units + u], new)
            &&& gru::blend(update, new, old_state, b)
        };
    lemma_gate_unique(input[u], hidden[u], ra, rb);
    lemma_gate_unique(input[units + u], hidden[units + u], za, zb);
    assert(na == nb);
}

/// A step has one next state.
pub(crate) proof fn lemma_step_unique<T: Arithmetic>(
    direction: Direction<T>,
    x: Seq<T>,
    h: Seq<T>,
    a: Seq<T>,
    b: Seq<T>,
)
    requires
        arithmetic::deterministic::<T>(),
        gru::step(direction, x, h, a),
        gru::step(direction, x, h, b),
    ensures
        a == b,
{
    let (ia, ha) = choose|input: Seq<T>, hidden: Seq<T>|
        #![trigger gru::preactivation(direction.weight_ih@, direction.bias_ih@, x, input), gru::preactivation(direction.weight_hh@, direction.bias_hh@, h, hidden)]
        {
            &&& gru::preactivation(direction.weight_ih@, direction.bias_ih@, x, input)
            &&& gru::preactivation(direction.weight_hh@, direction.bias_hh@, h, hidden)
            &&& a.len() == h.len()
            &&& forall|u: int|
                0 <= u < a.len() ==> gru::unit_step(
                    input,
                    hidden,
                    h.len(),
                    u,
                    h[u],
                    #[trigger] a[u],
                )
        };
    let (ib, hb) = choose|input: Seq<T>, hidden: Seq<T>|
        #![trigger gru::preactivation(direction.weight_ih@, direction.bias_ih@, x, input), gru::preactivation(direction.weight_hh@, direction.bias_hh@, h, hidden)]
        {
            &&& gru::preactivation(direction.weight_ih@, direction.bias_ih@, x, input)
            &&& gru::preactivation(direction.weight_hh@, direction.bias_hh@, h, hidden)
            &&& b.len() == h.len()
            &&& forall|u: int|
                0 <= u < b.len() ==> gru::unit_step(
                    input,
                    hidden,
                    h.len(),
                    u,
                    h[u],
                    #[trigger] b[u],
                )
        };
    lemma_preactivation_unique(direction.weight_ih@, direction.bias_ih@, x, ia, ib);
    lemma_preactivation_unique(direction.weight_hh@, direction.bias_hh@, h, ha, hb);
    assert forall|u: int| 0 <= u < a.len() implies a[u] == b[u] by {
        lemma_unit_step_unique(ia, ha, h.len(), u, h[u], a[u], b[u]);
    }
    assert(a =~= b);
}

/// Two passes that have read the same notes so far are in the same state.
pub(crate) proof fn lemma_state_unique<T: Arithmetic>(
    direction: Direction<T>,
    units: nat,
    x: Seq<Seq<T>>,
    y: Seq<Seq<T>>,
    a: Seq<Seq<T>>,
    b: Seq<Seq<T>>,
    reverse: bool,
    t: int,
)
    requires
        arithmetic::deterministic::<T>(),
        gru::pass(direction, units, x, a, reverse),
        gru::pass(direction, units, y, b, reverse),
        x.len() == y.len(),
        0 <= t < x.len(),
        forall|s: int|
            0 <= s <= t ==> x[#[trigger] gru::position(x.len(), s, reverse)] == y[gru::position(
                x.len(),
                s,
                reverse,
            )],
    ensures
        a[gru::position(x.len(), t, reverse)] == b[gru::position(x.len(), t, reverse)],
    decreases t,
{
    let n = x.len();
    let i = gru::position(n, t, reverse);
    if t == 0 {
        let g = choose|h: Seq<T>|
            #![trigger gru::at_rest(h, units)]
            gru::at_rest(h, units) && gru::step(direction, x[i], h, a[i]);
        let h = choose|h: Seq<T>|
            #![trigger gru::at_rest(h, units)]
            gru::at_rest(h, units) && gru::step(direction, y[i], h, b[i]);
        assert forall|u: int| 0 <= u < units implies g[u] == h[u] by {
            assert(arithmetic::literal(0, g[u]) && arithmetic::literal(0, h[u]));
        }
        assert(g =~= h);
        lemma_step_unique(direction, x[i], g, a[i], b[i]);
    } else {
        lemma_state_unique(direction, units, x, y, a, b, reverse, t - 1);
        lemma_step_unique(
            direction,
            x[i],
            a[gru::position(n, t - 1, reverse)],
            a[i],
            b[i],
        );
    }
}

/// A pass over given notes has one sequence of states.
pub(crate) proof fn lemma_pass_unique<T: Arithmetic>(
    direction: Direction<T>,
    units: nat,
    notes: Seq<Seq<T>>,
    a: Seq<Seq<T>>,
    b: Seq<Seq<T>>,
    reverse: bool,
)
    requires
        arithmetic::deterministic::<T>(),
        gru::pass(direction, units, notes, a, reverse),
        gru::pass(direction, units, notes, b, reverse),
    ensures
        a == b,
{
    let n = notes.len();
    assert forall|i: int| 0 <= i < n implies a[i] == #[trigger] b[i] by {
        let t = gru::position(n, i, reverse);
        lemma_state_unique(direction, units, notes, notes, a, b, reverse, t);
        assert(gru::position(n, t, reverse) == i);
    }
    assert(a =~= b);
}

/// Standardized notes have one encoding.
pub(crate) proof fn lemma_encoding_unique<T: Arithmetic>(
    runtime: PerformerRuntime<T>,
    x: Seq<Seq<T>>,
    a: Seq<Seq<T>>,
    b: Seq<Seq<T>>,
)
    requires
        runtime.wf(),
        arithmetic::deterministic::<T>(),
        performer::encoding(runtime, x, a),
        performer::encoding(runtime, x, b),
    ensures
        a == b,
{
    let n = x.len();
    let units = runtime.hidden_size as nat;
    let (fa, fb) = (performer::part(a, 0, units), performer::part(b, 0, units));
    let (ba, bb) = (performer::part(a, units, units), performer::part(b, units, units));
    lemma_pass_unique(runtime.forward, units, x, fa, fb, false);
    if let Some(backward) = runtime.backward {
        lemma_pass_unique(backward, units, x, ba, bb, true);
    }
    assert forall|i: int| 0 <= i < n implies a[i] == #[trigger] b[i] by {
        assert forall|k: int| 0 <= k < units implies a[i][k] == b[i][k] by {
            assert(fa[i][k] == a[i][k]);
            assert(fb[i][k] == b[i][k]);
        }
        if runtime.bidirectional {
            assert forall|k: int| units <= k < 2 * units implies a[i][k] == b[i][k] by {
                assert(ba[i][k - units] == a[i][k]);
                assert(bb[i][k - units] == b[i][k]);
            }
        }
        assert(a[i] =~= b[i]);
    }
    assert(a =~= b);
}

/// A note is standardized in one way.
pub(crate) proof fn lemma_standardized_note_unique<T: Arithmetic>(
    runtime: PerformerRuntime<T>,
    note: Seq<T>,
    a: Seq<T>,
    b: Seq<T>,
)
    requires
        arithmetic::deterministic::<T>(),
        performer::standardized_note(runtime, note, a),
        performer::standardized_note(runtime, note, b),
    ensures
        a == b,
{
    assert forall|f: int| 0 <= f < a.len() implies a[f] == b[f] by {
        let (mean, deviation) = (runtime.input_mean@[f], runtime.input_std@[f]);
        assert(performer::standardized(note[f], mean, deviation, a[f]));
        assert(performer::standardized(note[f], mean, deviation, b[f]));
    }
    assert(a =~= b);
}

/// An encoded note has one reading.
pub(crate) proof fn lemma_readout_unique<T: Arithmetic>(
    runtime: PerformerRuntime<T>,
    trunk: Seq<T>,
    a: Seq<T>,
    b: Seq<T>,
)
    requires
        arithmetic::deterministic::<T>(),
        performer::readout(runtime, trunk, a),
        performer::readout(runtime, trunk, b),
    ensures
        a == b,
{
    assert forall|o: int| 0 <= o < a.len() implies a[o] == b[o] by {
        lemma_affine_unique(
            runtime.head_biases@[o],
            runtime.head_weights@[o]@,
            trunk,
            a[o],
            b[o],
        );
    }
    assert(a =~= b);
}

/// Notes have one performance.
pub(crate) proof fn lemma_performance_unique<T: Arithmetic>(
    runtime: PerformerRuntime<T>,
    notes: Seq<Seq<T>>,
    a: Seq<Seq<T>>,
    b: Seq<Seq<T>>,
)
    requires
        runtime.wf(),
        arithmetic::deterministic::<T>(),
        performer::performance(runtime, notes, a),
        performer::performance(runtime, notes, b),
    ensures
        a == b,
{
    let (xa, ta) = choose|x: Seq<Seq<T>>, trunk: Seq<Seq<T>>|
        performer::performed(runtime, notes, x, trunk, a);
    let (xb, tb) = choose|x: Seq<Seq<T>>, trunk: Seq<Seq<T>>|
        performer::performed(runtime, notes, x, trunk, b);
    assert forall|i: int| 0 <= i < notes.len() implies xa[i] == #[trigger] xb[i] by {
        assert(performer::standardized_note(runtime, notes[i], xa[i]));
        lemma_standardized_note_unique(runtime, notes[i], xa[i], xb[i]);
    }
    assert(xa =~= xb);
    lemma_encoding_unique(runtime, xa, ta, tb);
    assert forall|i: int| 0 <= i < notes.len() implies a[i] == #[trigger] b[i] by {
        lemma_readout_unique(runtime, ta[i], a[i], b[i]);
    }
    assert(a =~= b);
}

/// The bits fix the number drawn.
pub(crate) proof fn lemma_centered_unique<T: Arithmetic>(bits: u32, a: T, b: T)
    requires
        arithmetic::deterministic::<T>(),
        lcg::centered(bits, a),
        lcg::centered(bits, b),
    ensures
        a == b,
{
}

} // verus!
