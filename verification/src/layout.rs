//! Where the states of a pass stand in a buffer that it may share with others.
use crate::arithmetic::Arithmetic;
use crate::gru;
use crate::gru::Direction;
use vstd::prelude::*;

verus! {

/// Evenly spaced slots: the state on note `i` takes `units` values from
/// `i * stride + offset` on.
pub struct Layout {
    pub offset: nat,
    pub stride: nat,
    pub units: nat,
}

impl Layout {
    /// Where slot `i` begins.
    pub open spec fn start(self, i: int) -> int {
        i * self.stride + self.offset
    }

    /// What slot `i` of a buffer holds.
    pub open spec fn slot<T>(self, buffer: Seq<T>, i: int) -> Seq<T> {
        buffer.subrange(self.start(i), self.start(i) + self.units)
    }

    /// What the first `count` slots of a buffer hold.
    pub open spec fn slots<T>(self, buffer: Seq<T>, count: nat) -> Seq<Seq<T>> {
        Seq::new(count, |i: int| self.slot(buffer, i))
    }

    /// The first `count` slots do not overlap and lie within `length` values.
    pub open spec fn fits(self, length: nat, count: nat) -> bool {
        &&& self.units <= self.stride
        &&& count == 0 || (count - 1) * self.stride + self.offset + self.units <= length
    }

    /// Position `p` belongs to one of the first `count` slots.
    pub open spec fn covers(self, p: int, count: nat) -> bool {
        exists|i: int|
            0 <= i < count && #[trigger] self.start(i) <= p < self.start(i) + self.units
    }
}

/// A pass turned the contents `before` of a buffer into `after`: the slots hold
/// its states, and every position outside them is as it was.
pub open spec fn written<T: Arithmetic>(
    direction: Direction<T>,
    notes: Seq<Seq<T>>,
    reverse: bool,
    layout: Layout,
    before: Seq<T>,
    after: Seq<T>,
) -> bool {
    &&& after.len() == before.len()
    &&& gru::pass(direction, layout.units, notes, layout.slots(after, notes.len()), reverse)
    &&& forall|p: int|
        0 <= p < after.len() && !layout.covers(p, notes.len()) ==> #[trigger] after[p] == before[p]
}

/// A slot that fits lies within the buffer.
pub(crate) proof fn lemma_slot_fits(layout: Layout, length: nat, count: nat, i: int)
    requires
        layout.fits(length, count),
        0 <= i < count,
    ensures
        0 <= i * layout.stride,
        layout.offset <= layout.start(i),
        layout.start(i) + layout.units <= length,
{
    let stride = layout.stride as int;
    assert(0 <= i * stride <= (count - 1) * stride) by (nonlinear_arith)
        requires
            0 <= i <= count - 1,
            0 <= stride,
    ;
}

/// Values of different rows stand at different positions.
pub(crate) proof fn lemma_rows_disjoint(i: int, a: int, j: int, b: int, width: int)
    requires
        0 <= a < width,
        0 <= b < width,
        i != j,
    ensures
        i * width + a != j * width + b,
{
    if i < j {
        assert(i * width + width <= j * width) by (nonlinear_arith)
            requires
                i + 1 <= j,
                0 < width,
        ;
    } else {
        assert(j * width + width <= i * width) by (nonlinear_arith)
            requires
                j + 1 <= i,
                0 < width,
        ;
    }
}

/// Writing one state into its slot changes that slot and nothing else.
pub(crate) proof fn lemma_slot_written<T>(
    layout: Layout,
    count: nat,
    before: Seq<T>,
    after: Seq<T>,
    state: Seq<T>,
    index: int,
)
    requires
        after.len() == before.len(),
        layout.fits(after.len(), count),
        state.len() == layout.units,
        0 <= index < count,
        forall|p: int|
            0 <= p < after.len() ==> #[trigger] after[p] == if layout.start(index) <= p
                < layout.start(index) + layout.units {
                state[p - layout.start(index)]
            } else {
                before[p]
            },
    ensures
        layout.slots(after, count) == layout.slots(before, count).update(index, state),
        forall|p: int|
            0 <= p < after.len() && !layout.covers(p, count) ==> #[trigger] after[p] == before[p],
{
    let slots = layout.slots(after, count);
    let expected = layout.slots(before, count).update(index, state);
    lemma_slot_fits(layout, after.len(), count, index);
    assert forall|i: int| 0 <= i < count implies slots[i] =~= #[trigger] expected[i] by {
        lemma_slot_fits(layout, after.len(), count, i);
        assert forall|m: int| 0 <= m < layout.units implies slots[i][m] == #[trigger] expected[i][m] by {
            let p = layout.start(i) + m;
            if i != index && layout.start(index) <= p < layout.start(index) + layout.units {
                lemma_rows_disjoint(i, m, index, p - layout.start(index), layout.stride as int);
            }
        }
    }
    assert(slots =~= expected);
}

/// Slots of two layouts that share a stride, at offsets that keep them apart,
/// have no position in common.
pub(crate) proof fn lemma_layouts_apart(a: Layout, b: Layout, i: int, m: int, count: nat)
    requires
        a.stride == b.stride,
        a.offset + a.units <= a.stride,
        b.offset + b.units <= b.stride,
        a.offset + a.units <= b.offset || b.offset + b.units <= a.offset,
        0 <= m < a.units,
    ensures
        !b.covers(a.start(i) + m, count),
{
    let p = a.start(i) + m;
    if b.covers(p, count) {
        let j = choose|j: int| 0 <= j < count && #[trigger] b.start(j) <= p < b.start(j) + b.units;
        if i != j {
            lemma_rows_disjoint(i, a.offset + m, j, p - j * b.stride, a.stride as int);
        }
    }
}

/// What is written to the slots of one layout leaves those of another as they
/// were.
pub(crate) proof fn lemma_other_slots_kept<T>(
    kept: Layout,
    other: Layout,
    count: nat,
    before: Seq<T>,
    after: Seq<T>,
)
    requires
        kept.stride == other.stride,
        kept.offset + kept.units <= kept.stride,
        other.offset + other.units <= other.stride,
        kept.offset + kept.units <= other.offset || other.offset + other.units <= kept.offset,
        after.len() == before.len(),
        kept.fits(after.len(), count),
        forall|p: int|
            0 <= p < after.len() && !other.covers(p, count) ==> #[trigger] after[p] == before[p],
    ensures
        kept.slots(after, count) == kept.slots(before, count),
{
    let (a, b) = (kept.slots(after, count), kept.slots(before, count));
    assert forall|i: int| 0 <= i < count implies a[i] =~= #[trigger] b[i] by {
        lemma_slot_fits(kept, after.len(), count, i);
        assert forall|m: int| 0 <= m < kept.units implies a[i][m] == #[trigger] b[i][m] by {
            lemma_layouts_apart(kept, other, i, m, count);
            assert(after[kept.start(i) + m] == before[kept.start(i) + m]);
        }
    }
    assert(a =~= b);
}

/// Rows of `stride` values hold every slot whose offset keeps it within a row.
pub(crate) proof fn lemma_rows_fit(layout: Layout, count: nat)
    requires
        layout.offset + layout.units <= layout.stride,
    ensures
        layout.fits(count * layout.stride, count),
{
    if count > 0 {
        gru::lemma_row_fits(count - 1, count as int, layout.stride as int);
    }
}

} // verus!
