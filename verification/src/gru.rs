//! One step of a gated recurrent unit, and what a pass over a sequence is.
use crate::arithmetic;
use crate::arithmetic::Arithmetic;
use vstd::prelude::*;

verus! {

/// Gates per step, in this order: reset, update, new.
pub const GATES: usize = 3;

/// One direction's weights, the three gates' rows stacked.
#[derive(Debug, Clone)]
pub struct Direction<T> {
    pub weight_ih: Vec<T>,
    pub weight_hh: Vec<T>,
    pub bias_ih: Vec<T>,
    pub bias_hh: Vec<T>,
}

impl<T> Direction<T> {
    /// The weights belong to a cell of these sizes.
    pub open spec fn wf(&self, input_size: nat, hidden_size: nat) -> bool {
        &&& self.weight_ih@.len() == GATES * hidden_size * input_size
        &&& self.weight_hh@.len() == GATES * hidden_size * hidden_size
        &&& self.bias_ih@.len() == GATES * hidden_size
        &&& self.bias_hh@.len() == GATES * hidden_size
    }

    /// Two directions have the same weights.
    pub open spec fn same(&self, other: &Direction<T>) -> bool {
        &&& self.weight_ih@ == other.weight_ih@
        &&& self.weight_hh@ == other.weight_hh@
        &&& self.bias_ih@ == other.bias_ih@
        &&& self.bias_hh@ == other.bias_hh@
    }
}

/// Value `k` of row `i` of a row-major matrix with rows of `width` values.
pub open spec fn entry<T>(flat: Seq<T>, width: nat, i: int, k: int) -> T {
    flat[i * width + k]
}

/// Row `i` of a row-major matrix with rows of `width` values.
pub open spec fn row<T>(flat: Seq<T>, width: nat, i: int) -> Seq<T> {
    flat.subrange(i * width, i * width + width)
}

/// The rows of a row-major matrix.
pub open spec fn rows<T>(flat: Seq<T>, width: nat, count: nat) -> Seq<Seq<T>> {
    Seq::new(count, |i: int| row(flat, width, i))
}

/// `out[g]` is `bias[g]` plus row `g` of the weights times `values`.
pub open spec fn preactivation<T: Arithmetic>(
    weights: Seq<T>,
    bias: Seq<T>,
    values: Seq<T>,
    out: Seq<T>,
) -> bool {
    &&& out.len() == bias.len()
    &&& forall|g: int|
        0 <= g < out.len() ==> arithmetic::affine(
            bias[g],
            row(weights, values.len(), g),
            values,
            #[trigger] out[g],
        )
}

/// `y` is the logistic function of `input + hidden`: the reset gate and the
/// update gate.
pub open spec fn gate<T: Arithmetic>(input: T, hidden: T, y: T) -> bool {
    exists|total: T|
        #![trigger arithmetic::sum(input, hidden, total)]
        arithmetic::sum(input, hidden, total) && arithmetic::logistic(total, y)
}

/// `y` is `tanh(input + reset * hidden)`: the new gate, whose hidden
/// contribution, bias included, is scaled by the reset gate.
pub open spec fn candidate<T: Arithmetic>(input: T, reset: T, hidden: T, y: T) -> bool {
    exists|scaled: T, total: T|
        #![trigger arithmetic::product(reset, hidden, scaled), arithmetic::sum(input, scaled, total)]
        {
            &&& arithmetic::product(reset, hidden, scaled)
            &&& arithmetic::sum(input, scaled, total)
            &&& arithmetic::tangent(total, y)
        }
}

/// `y` is `(1 - update) * new + update * old`.
pub open spec fn blend<T: Arithmetic>(update: T, new: T, old_state: T, y: T) -> bool {
    exists|one: T, rest: T, fresh: T, kept: T|
        #![trigger arithmetic::difference(one, update, rest), arithmetic::sum(fresh, kept, y)]
        {
            &&& arithmetic::literal(1, one)
            &&& arithmetic::difference(one, update, rest)
            &&& arithmetic::product(rest, new, fresh)
            &&& arithmetic::product(update, old_state, kept)
            &&& arithmetic::sum(fresh, kept, y)
        }
}

/// The next state `y` of unit `u`, from the gates' contributions of the input
/// and of the hidden state and from the unit's own last state.
pub open spec fn unit_step<T: Arithmetic>(
    input: Seq<T>,
    hidden: Seq<T>,
    units: nat,
    u: int,
    old_state: T,
    y: T,
) -> bool {
    exists|reset: T, update: T, new: T|
        #![trigger gate(input[u], hidden[u], reset), blend(update, new, old_state, y)]
        {
            &&& gate(input[u], hidden[u], reset)
            &&& gate(input[units + u], hidden[units + u], update)
            &&& candidate(input[2 * units + u], reset, hidden[2 * units + u], new)
            &&& blend(update, new, old_state, y)
        }
}

/// One step: from state `h` on input `x` to state `next`.
pub open spec fn step<T: Arithmetic>(
    direction: Direction<T>,
    x: Seq<T>,
    h: Seq<T>,
    next: Seq<T>,
) -> bool {
    exists|input: Seq<T>, hidden: Seq<T>|
        #![trigger preactivation(direction.weight_ih@, direction.bias_ih@, x, input), preactivation(direction.weight_hh@, direction.bias_hh@, h, hidden)]
        {
            &&& preactivation(direction.weight_ih@, direction.bias_ih@, x, input)
            &&& preactivation(direction.weight_hh@, direction.bias_hh@, h, hidden)
            &&& next.len() == h.len()
            &&& forall|u: int|
                0 <= u < next.len() ==> unit_step(input, hidden, h.len(), u, h[u], #[trigger] next[u])
        }
}

/// A state of `units` zeros.
pub open spec fn at_rest<T: Arithmetic>(h: Seq<T>, units: nat) -> bool {
    &&& h.len() == units
    &&& forall|u: int| 0 <= u < units ==> arithmetic::literal(0, #[trigger] h[u])
}

/// A step out of the state at rest.
pub open spec fn first_step<T: Arithmetic>(
    direction: Direction<T>,
    units: nat,
    x: Seq<T>,
    next: Seq<T>,
) -> bool {
    exists|h: Seq<T>| #[trigger] at_rest(h, units) && step(direction, x, h, next)
}

/// The note that is read at step `t` of `count`.
pub open spec fn position(count: nat, t: int, reverse: bool) -> int {
    if reverse {
        count - 1 - t
    } else {
        t
    }
}

/// `states[i]` is the state on reading note `i`, where the notes are read one
/// after the other, from the first or in reverse from the last, starting at
/// rest.
pub open spec fn pass<T: Arithmetic>(
    direction: Direction<T>,
    units: nat,
    notes: Seq<Seq<T>>,
    states: Seq<Seq<T>>,
    reverse: bool,
) -> bool {
    let n = notes.len();
    &&& states.len() == n
    &&& forall|i: int| 0 <= i < n ==> (#[trigger] states[i]).len() == units
    &&& n > 0 ==> {
        let i = position(n, 0, reverse);
        first_step(direction, units, notes[i], states[i])
    }
    &&& forall|t: int|
        #![trigger position(n, t, reverse)]
        1 <= t < n ==> step(
            direction,
            notes[position(n, t, reverse)],
            states[position(n, t - 1, reverse)],
            states[position(n, t, reverse)],
        )
}

/// A pass in progress: after `steps` steps the notes read so far have their
/// states, and the last of these is `h`.
pub(crate) closed spec fn reading<T: Arithmetic>(
    direction: Direction<T>,
    notes: Seq<Seq<T>>,
    states: Seq<Seq<T>>,
    reverse: bool,
    steps: int,
    h: Seq<T>,
) -> bool {
    let n = notes.len();
    &&& states.len() == n
    &&& steps == 0 ==> at_rest(h, h.len())
    &&& steps > 0 ==> {
        let i = position(n, 0, reverse);
        &&& h == states[position(n, steps - 1, reverse)]
        &&& first_step(direction, h.len(), notes[i], states[i])
    }
    &&& forall|t: int|
        #![trigger position(n, t, reverse)]
        1 <= t < steps ==> step(
            direction,
            notes[position(n, t, reverse)],
            states[position(n, t - 1, reverse)],
            states[position(n, t, reverse)],
        )
}

/// A pass begins at rest.
pub(crate) proof fn lemma_reading_begins<T: Arithmetic>(
    direction: Direction<T>,
    notes: Seq<Seq<T>>,
    states: Seq<Seq<T>>,
    reverse: bool,
    h: Seq<T>,
)
    requires
        states.len() == notes.len(),
        at_rest(h, h.len()),
    ensures
        reading(direction, notes, states, reverse, 0, h),
{
}

/// One more step extends a pass.
pub(crate) proof fn lemma_reading_extends<T: Arithmetic>(
    direction: Direction<T>,
    notes: Seq<Seq<T>>,
    states: Seq<Seq<T>>,
    reverse: bool,
    steps: int,
    h: Seq<T>,
    next: Seq<T>,
)
    requires
        0 <= steps < notes.len(),
        reading(direction, notes, states, reverse, steps, h),
        step(direction, notes[position(notes.len(), steps, reverse)], h, next),
    ensures
        reading(
            direction,
            notes,
            states.update(position(notes.len(), steps, reverse), next),
            reverse,
            steps + 1,
            next,
        ),
{
    let n = notes.len();
    let here = position(n, steps, reverse);
    let extended = states.update(here, next);
    assert(next.len() == h.len());
    let i = position(n, 0, reverse);
    if steps == 0 {
        assert(first_step(direction, h.len(), notes[i], extended[i]));
    } else {
        assert(extended[i] == states[i]);
    }
    assert forall|t: int|
        #![trigger position(n, t, reverse)]
        1 <= t < steps + 1 implies step(
        direction,
        notes[position(n, t, reverse)],
        extended[position(n, t - 1, reverse)],
        extended[position(n, t, reverse)],
    ) by {
        assert(extended[position(n, t - 1, reverse)] == states[position(n, t - 1, reverse)]);
        if t < steps {
            assert(extended[position(n, t, reverse)] == states[position(n, t, reverse)]);
        }
    }
}

/// A pass that has read every note is complete.
pub(crate) proof fn lemma_reading_ends<T: Arithmetic>(
    direction: Direction<T>,
    notes: Seq<Seq<T>>,
    states: Seq<Seq<T>>,
    reverse: bool,
    h: Seq<T>,
)
    requires
        reading(direction, notes, states, reverse, notes.len() as int, h),
        forall|i: int| 0 <= i < notes.len() ==> (#[trigger] states[i]).len() == h.len(),
    ensures
        pass(direction, h.len(), notes, states, reverse),
{
}

/// Every gate's contribution from one vector of values.
fn preactivate<T: Arithmetic>(weights: &[T], bias: &[T], values: &[T]) -> (out: Vec<T>)
    requires
        weights@.len() == bias@.len() * values@.len(),
    ensures
        preactivation(weights@, bias@, values@, out@),
{
    let count: usize = bias.len();
    let width: usize = values.len();
    let total: usize = weights.len();
    let mut out: Vec<T> = Vec::new();
    for g in 0..count
        invariant
            total == weights@.len(),
            count == bias@.len(),
            width == values@.len(),
            weights@.len() == count * width,
            out@.len() == g,
            forall|k: int|
                0 <= k < g ==> arithmetic::affine(
                    bias@[k],
                    row(weights@, width as nat, k),
                    values@,
                    #[trigger] out@[k],
                ),
    {
        proof {
            lemma_row_fits(g as int, count as int, width as int);
        }
        let start: usize = g * width;
        let weights_of_gate: &[T] = &weights[start..start + width];
        out.push(arithmetic::weighted_sum(bias[g], weights_of_gate, values));
    }
    out
}

/// Nothing but the weights of a direction decides what it computes.
pub(crate) proof fn lemma_same_weights_same_pass<T: Arithmetic>(
    a: Direction<T>,
    b: Direction<T>,
    units: nat,
    notes: Seq<Seq<T>>,
    states: Seq<Seq<T>>,
    reverse: bool,
)
    requires
        a.same(&b),
        pass(a, units, notes, states, reverse),
    ensures
        pass(b, units, notes, states, reverse),
{
    assert forall|x: Seq<T>, h: Seq<T>, next: Seq<T>| #[trigger] step(a, x, h, next) implies step(
        b,
        x,
        h,
        next,
    ) by {
    }
    if notes.len() > 0 {
        let i = position(notes.len(), 0, reverse);
        let h = choose|h: Seq<T>| #[trigger] at_rest(h, units) && step(a, notes[i], h, states[i]);
        assert(at_rest(h, units) && step(b, notes[i], h, states[i]));
    }
}

/// Matrices with the same rows are equal.
pub(crate) proof fn lemma_rows_determine<T>(a: Seq<T>, b: Seq<T>, width: nat, count: nat)
    requires
        a.len() == count * width,
        b.len() == count * width,
        rows(a, width, count) == rows(b, width, count),
    ensures
        a == b,
{
    let (ra, rb) = (rows(a, width, count), rows(b, width, count));
    assert forall|j: int| 0 <= j < a.len() implies a[j] == b[j] by {
        lemma_position_in_row(j, width as int, count as int);
        let (i, k) = (j / width as int, j % width as int);
        assert(ra[i] == rb[i]);
        assert(ra[i][k] == a[j]);
        assert(rb[i][k] == b[j]);
    }
    assert(a =~= b);
}

/// Every position of a matrix belongs to a row.
pub(crate) proof fn lemma_position_in_row(j: int, width: int, count: int)
    requires
        0 <= width,
        0 <= count,
        0 <= j < count * width,
    ensures
        0 < width,
        0 <= j / width < count,
        0 <= j % width < width,
        j == (j / width) * width + j % width,
        (j / width) * width + width <= count * width,
{
    assert(width > 0) by (nonlinear_arith)
        requires
            0 <= j < count * width,
            0 <= width,
    ;
    vstd::arithmetic::div_mod::lemma_fundamental_div_mod(j, width);
    vstd::arithmetic::mul::lemma_mul_is_commutative(count, width);
    vstd::arithmetic::div_mod::lemma_multiply_divide_lt(j, width, count);
    vstd::arithmetic::div_mod::lemma_div_pos_is_pos(j, width);
    vstd::arithmetic::mul::lemma_mul_is_commutative(j / width, width);
    lemma_row_fits(j / width, count, width);
}

/// A row lies within its matrix.
pub(crate) proof fn lemma_row_fits(i: int, count: int, width: int)
    requires
        0 <= i < count,
        0 <= width,
    ensures
        0 <= i * width,
        i * width + width <= count * width,
        i * width + width == (i + 1) * width,
{
    assert(i * width + width == (i + 1) * width) by (nonlinear_arith);
    assert((i + 1) * width <= count * width) by (nonlinear_arith)
        requires
            i + 1 <= count,
            0 <= width,
    ;
    assert(0 <= i * width) by (nonlinear_arith)
        requires
            0 <= i,
            0 <= width,
    ;
}

/// The next state of one unit.
fn advance_unit<T: Arithmetic>(
    input: &Vec<T>,
    hidden: &Vec<T>,
    units: usize,
    u: usize,
    old_state: T,
) -> (y: T)
    requires
        u < units <= usize::MAX / GATES,
        input@.len() == GATES * units,
        hidden@.len() == GATES * units,
    ensures
        unit_step(input@, hidden@, units as nat, u as int, old_state, y),
{
    let reset_total = input[u].plus(hidden[u]);
    assert(arithmetic::sum(input@[u as int], hidden@[u as int], reset_total));
    let reset = arithmetic::sigmoid(reset_total);
    let update_total = input[units + u].plus(hidden[units + u]);
    assert(arithmetic::sum(input@[units + u], hidden@[units + u], update_total));
    let update = arithmetic::sigmoid(update_total);
    let scaled = reset.times(hidden[2 * units + u]);
    assert(arithmetic::product(reset, hidden@[2 * units + u], scaled));
    let new_total = input[2 * units + u].plus(scaled);
    assert(arithmetic::sum(input@[2 * units + u], scaled, new_total));
    let new = new_total.tanh();
    assert(arithmetic::tangent(new_total, new));
    let one = T::number(1);
    assert(arithmetic::literal(1, one));
    let rest = one.minus(update);
    assert(arithmetic::difference(one, update, rest));
    let fresh = rest.times(new);
    assert(arithmetic::product(rest, new, fresh));
    let kept = update.times(old_state);
    assert(arithmetic::product(update, old_state, kept));
    let y = fresh.plus(kept);
    assert(arithmetic::sum(fresh, kept, y));
    assert(gate(input@[u as int], hidden@[u as int], reset));
    assert(blend(update, new, old_state, y));
    y
}

/// One step of the recurrence.
pub(crate) fn advance<T: Arithmetic>(direction: &Direction<T>, x: &[T], h: &[T]) -> (next: Vec<T>)
    requires
        h@.len() <= usize::MAX / GATES,
        direction.wf(x@.len(), h@.len()),
    ensures
        step(*direction, x@, h@, next@),
        next@.len() == h@.len(),
{
    let units: usize = h.len();
    let input: Vec<T> = preactivate(
        direction.weight_ih.as_slice(),
        direction.bias_ih.as_slice(),
        x,
    );
    let hidden: Vec<T> = preactivate(
        direction.weight_hh.as_slice(),
        direction.bias_hh.as_slice(),
        h,
    );
    let mut next: Vec<T> = Vec::new();
    for u in 0..units
        invariant
            units == h@.len(),
            units <= usize::MAX / GATES,
            input@.len() == GATES * units,
            hidden@.len() == GATES * units,
            next@.len() == u,
            forall|k: int|
                0 <= k < u ==> unit_step(
                    input@,
                    hidden@,
                    units as nat,
                    k,
                    h@[k],
                    #[trigger] next@[k],
                ),
    {
        next.push(advance_unit(&input, &hidden, units, u, h[u]));
    }
    next
}

} // verus!
