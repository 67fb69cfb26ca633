//! Runtime for note-sequence networks: a score in, a way of playing it out.
//!
//! A runtime takes a whole sequence of notes and returns one performance vector
//! per note. A bidirectional pass cannot start until the last note is known.
use crate::arithmetic;
use crate::arithmetic::Arithmetic;
use crate::error;
use crate::error::FbmxError;
use crate::gru;
use crate::gru::Direction;
use crate::layout;
use crate::layout::Layout;
use vstd::prelude::*;

verus! {

/// Container model type of the Performer.
pub const PERFORMER_MODEL_TYPE: &'static str = "performer-gru";

/// Container model type of the Accent Analyzer.
///
/// A distinct type for a distinct model. The two share an architecture and so
/// share this runtime; what differs is the features they read and what their
/// outputs mean. Sharing the type as well would let a host load one where the
/// other belongs.
pub const ACCENT_MODEL_TYPE: &'static str = "accent-gru";

/// The largest hidden state that is supported.
pub const MAX_HIDDEN_SIZE: usize = 1024;

/// A loaded model, ready to run over note sequences.
#[derive(Debug, Clone)]
pub struct PerformerRuntime<T> {
    pub input_size: usize,
    pub hidden_size: usize,
    pub output_size: usize,
    pub bidirectional: bool,
    pub forward: Direction<T>,
    pub backward: Option<Direction<T>>,
    /// One row of trunk weights per output.
    pub head_weights: Vec<Vec<T>>,
    /// One bias per output.
    pub head_biases: Vec<T>,
    pub input_mean: Vec<T>,
    pub input_std: Vec<T>,
}

/// The number of values that encode one note.
pub open spec fn trunk_size(hidden_size: usize, bidirectional: bool) -> nat {
    if bidirectional {
        2 * hidden_size as nat
    } else {
        hidden_size as nat
    }
}

impl<T> PerformerRuntime<T> {
    /// All weights have the sizes that the runtime states.
    pub open spec fn wf(&self) -> bool {
        &&& 1 <= self.hidden_size <= MAX_HIDDEN_SIZE
        &&& self.forward.wf(self.input_size as nat, self.hidden_size as nat)
        &&& self.bidirectional <==> self.backward is Some
        &&& self.backward matches Some(backward) ==> backward.wf(
            self.input_size as nat,
            self.hidden_size as nat,
        )
        &&& self.head_weights@.len() == self.output_size
        &&& forall|o: int|
            0 <= o < self.output_size ==> (#[trigger] self.head_weights@[o])@.len()
                == self.trunk()
        &&& self.head_biases@.len() == self.output_size
        &&& self.input_mean@.len() == self.input_size
        &&& self.input_std@.len() == self.input_size
    }

    /// The number of values that encode one note.
    pub open spec fn trunk(&self) -> nat {
        trunk_size(self.hidden_size, self.bidirectional)
    }

    /// Two runtimes read notes of the same size with the same recurrent weights.
    pub open spec fn same_network(&self, other: &PerformerRuntime<T>) -> bool {
        &&& self.input_size == other.input_size
        &&& self.hidden_size == other.hidden_size
        &&& self.bidirectional == other.bidirectional
        &&& self.forward.same(&other.forward)
        &&& match (self.backward, other.backward) {
            (Some(a), Some(b)) => a.same(&b),
            (None, None) => true,
            _ => false,
        }
    }

    /// Two runtimes have the same heads.
    pub open spec fn same_heads(&self, other: &PerformerRuntime<T>) -> bool {
        &&& self.output_size == other.output_size
        &&& self.head_biases@ == other.head_biases@
        &&& forall|o: int|
            0 <= o < self.output_size ==> (#[trigger] self.head_weights@[o])@
                == other.head_weights@[o]@
    }

    /// Two runtimes standardize notes alike.
    pub open spec fn same_scaling(&self, other: &PerformerRuntime<T>) -> bool {
        &&& self.input_mean@ == other.input_mean@
        &&& self.input_std@ == other.input_std@
    }

    /// How many features a note has.
    pub fn input_size(&self) -> (size: usize)
        ensures
            size == self.input_size,
    {
        self.input_size
    }

    /// How many outputs there are per note.
    pub fn output_size(&self) -> (size: usize)
        ensures
            size == self.output_size,
    {
        self.output_size
    }

    /// Whether the model also reads the notes in reverse.
    pub fn is_bidirectional(&self) -> (bidirectional: bool)
        ensures
            bidirectional == self.bidirectional,
    {
        self.bidirectional
    }

    /// A buffer of that many values is a whole number of notes.
    pub open spec fn divides(&self, length: nat) -> bool {
        self.input_size != 0 && length % (self.input_size as nat) == 0
    }

    /// How many notes a buffer of that many values holds.
    pub open spec fn note_count(&self, length: nat) -> nat {
        length / (self.input_size as nat)
    }
}

/// `y` is `(value - mean) / deviation`.
pub open spec fn standardized<T: Arithmetic>(value: T, mean: T, deviation: T, y: T) -> bool {
    exists|offset: T|
        #![trigger arithmetic::difference(value, mean, offset)]
        arithmetic::difference(value, mean, offset) && arithmetic::quotient(offset, deviation, y)
}

/// Standardizing by a mean of zero and a deviation of one returns the value
/// itself.
pub open spec fn neutral_scaling<T: Arithmetic>() -> bool {
    forall|value: T, zero: T, one: T, y: T|
        arithmetic::literal(0, zero) && arithmetic::literal(1, one) && #[trigger] standardized(
            value,
            zero,
            one,
            y,
        ) ==> y == value
}

/// `x` is a note with every feature standardized by its own mean and deviation.
pub open spec fn standardized_note<T: Arithmetic>(
    runtime: PerformerRuntime<T>,
    note: Seq<T>,
    x: Seq<T>,
) -> bool {
    &&& x.len() == note.len()
    &&& forall|f: int|
        0 <= f < x.len() ==> standardized(
            note[f],
            runtime.input_mean@[f],
            runtime.input_std@[f],
            #[trigger] x[f],
        )
}

/// The values `offset..offset + units` of every row.
pub open spec fn part<T>(trunk: Seq<Seq<T>>, offset: nat, units: nat) -> Seq<Seq<T>> {
    Seq::new(trunk.len(), |i: int| trunk[i].subrange(offset as int, (offset + units) as int))
}

/// `trunk[i]` encodes note `i` of `x`: the state of the forward pass, followed
/// by that of the backward pass where there is one.
pub open spec fn encoding<T: Arithmetic>(
    runtime: PerformerRuntime<T>,
    x: Seq<Seq<T>>,
    trunk: Seq<Seq<T>>,
) -> bool {
    let units = runtime.hidden_size as nat;
    &&& trunk.len() == x.len()
    &&& forall|i: int| 0 <= i < trunk.len() ==> (#[trigger] trunk[i]).len() == runtime.trunk()
    &&& gru::pass(runtime.forward, units, x, part(trunk, 0, units), false)
    &&& runtime.backward matches Some(backward) ==> gru::pass(
        backward,
        units,
        x,
        part(trunk, units, units),
        true,
    )
}

/// `out` holds one linear reading of an encoded note per head.
pub open spec fn readout<T: Arithmetic>(
    runtime: PerformerRuntime<T>,
    trunk: Seq<T>,
    out: Seq<T>,
) -> bool {
    &&& out.len() == runtime.output_size
    &&& forall|o: int|
        0 <= o < out.len() ==> arithmetic::affine(
            runtime.head_biases@[o],
            runtime.head_weights@[o]@,
            trunk,
            #[trigger] out[o],
        )
}

/// `out[i]` is what the model makes of note `i`: the notes are standardized,
/// encoded and read out.
pub open spec fn performance<T: Arithmetic>(
    runtime: PerformerRuntime<T>,
    notes: Seq<Seq<T>>,
    out: Seq<Seq<T>>,
) -> bool {
    exists|x: Seq<Seq<T>>, trunk: Seq<Seq<T>>| #[trigger] performed(runtime, notes, x, trunk, out)
}

/// [`performance`], with its standardized notes and its encoding.
pub open spec fn performed<T: Arithmetic>(
    runtime: PerformerRuntime<T>,
    notes: Seq<Seq<T>>,
    x: Seq<Seq<T>>,
    trunk: Seq<Seq<T>>,
    out: Seq<Seq<T>>,
) -> bool {
    &&& x.len() == notes.len()
    &&& forall|i: int|
        0 <= i < notes.len() ==> standardized_note(runtime, notes[i], #[trigger] x[i])
    &&& encoding(runtime, x, trunk)
    &&& out.len() == notes.len()
    &&& forall|i: int| 0 <= i < notes.len() ==> readout(runtime, trunk[i], #[trigger] out[i])
}

/// `out` is what a run over `notes` returns: one row of outputs per note.
pub open spec fn ran<T: Arithmetic>(
    runtime: PerformerRuntime<T>,
    notes: Seq<T>,
    out: Seq<T>,
) -> bool {
    let count = runtime.note_count(notes.len());
    &&& runtime.divides(notes.len())
    &&& out.len() == count * runtime.output_size
    &&& performance(
        runtime,
        gru::rows(notes, runtime.input_size as nat, count),
        gru::rows(out, runtime.output_size as nat, count),
    )
}

/// Nothing but the recurrent weights decides how notes are encoded.
pub(crate) proof fn lemma_same_network_same_encoding<T: Arithmetic>(
    a: PerformerRuntime<T>,
    b: PerformerRuntime<T>,
    x: Seq<Seq<T>>,
    trunk: Seq<Seq<T>>,
)
    requires
        a.same_network(&b),
        encoding(a, x, trunk),
    ensures
        encoding(b, x, trunk),
{
    let units = a.hidden_size as nat;
    gru::lemma_same_weights_same_pass(
        a.forward,
        b.forward,
        units,
        x,
        part(trunk, 0, units),
        false,
    );
    if let (Some(backward), Some(other)) = (a.backward, b.backward) {
        gru::lemma_same_weights_same_pass(
            backward,
            other,
            units,
            x,
            part(trunk, units, units),
            true,
        );
    }
}

/// Slots that stay within their rows are a part of these rows.
proof fn lemma_slots_are_parts<T>(slots: Layout, buffer: Seq<T>, count: nat)
    requires
        slots.offset + slots.units <= slots.stride,
        buffer.len() == count * slots.stride,
    ensures
        slots.slots(buffer, count) == part(
            gru::rows(buffer, slots.stride, count),
            slots.offset,
            slots.units,
        ),
{
    let parts = part(gru::rows(buffer, slots.stride, count), slots.offset, slots.units);
    assert forall|i: int| 0 <= i < count implies slots.slots(buffer, count)[i]
        =~= #[trigger] parts[i] by {
        gru::lemma_row_fits(i, count as int, slots.stride as int);
    }
    assert(slots.slots(buffer, count) =~= parts);
}

/// Copies `state` into `out`, starting at `start`.
fn write_state<T: Copy>(out: &mut [T], start: usize, state: &Vec<T>)
    requires
        start + state@.len() <= old(out)@.len(),
    ensures
        final(out)@.len() == old(out)@.len(),
        forall|j: int|
            0 <= j < final(out)@.len() ==> #[trigger] final(out)@[j] == if start <= j < start
                + state@.len() {
                state@[j - start]
            } else {
                old(out)@[j]
            },
{
    let length: usize = state.len();
    let total: usize = out.len();
    let ghost before = out@;
    for k in 0..length
        invariant
            length == state@.len(),
            total == before.len(),
            out@.len() == total,
            start + length <= total,
            forall|j: int|
                0 <= j < total ==> #[trigger] out@[j] == if start <= j < start + k {
                    state@[j - start]
                } else {
                    before[j]
                },
    {
        out[start + k] = state[k];
    }
}

impl<T: Arithmetic> PerformerRuntime<T> {
    /// Runs one direction over the whole sequence.
    ///
    /// The state on note `i` goes to `out[i * stride + offset..]`, so the
    /// forward and the backward pass can share one interleaved buffer.
    pub fn run_direction(
        &self,
        direction: &Direction<T>,
        normalized: &[T],
        notes: usize,
        out: &mut [T],
        offset: usize,
        stride: usize,
        reverse: bool,
    )
        requires
            direction.wf(self.input_size as nat, self.hidden_size as nat),
            normalized@.len() >= notes * self.input_size,
            self.hidden_size <= stride,
            notes == 0 || (notes - 1) * stride + offset + self.hidden_size <= old(out)@.len(),
        ensures
            layout::written(
                *direction,
                gru::rows(normalized@, self.input_size as nat, notes as nat),
                reverse,
                (Layout {
                    offset: offset as nat,
                    stride: stride as nat,
                    units: self.hidden_size as nat,
                }),
                old(out)@,
                final(out)@,
            ),
            notes == 0 ==> final(out)@ == old(out)@,
    {
        let width: usize = self.input_size;
        let total: usize = normalized.len();
        let room: usize = out.len();
        let gates: usize = direction.bias_ih.len();
        let ghost before = out@;
        let ghost n = notes as nat;
        let ghost x = gru::rows(normalized@, width as nat, n);
        let ghost slots = Layout {
            offset: offset as nat,
            stride: stride as nat,
            units: self.hidden_size as nat,
        };
        let zero = T::number(0);
        assert(arithmetic::literal(0, zero));
        let mut h: Vec<T> = arithmetic::filled(zero, self.hidden_size);
        let ghost mut states = slots.slots(out@, n);
        proof {
            gru::lemma_reading_begins(*direction, x, states, reverse, h@);
        }
        for step in 0..notes
            invariant
                width == self.input_size,
                n == notes,
                slots == (Layout {
                    offset: offset as nat,
                    stride: stride as nat,
                    units: self.hidden_size as nat,
                }),
                slots.fits(room as nat, n),
                direction.wf(width as nat, slots.units),
                gates == direction.bias_ih@.len(),
                total == normalized@.len(),
                total >= notes * width,
                x == gru::rows(normalized@, width as nat, n),
                room == out@.len(),
                room == before.len(),
                h@.len() == slots.units,
                states == slots.slots(out@, n),
                gru::reading(*direction, x, states, reverse, step as int, h@),
                forall|p: int|
                    0 <= p < room && !slots.covers(p, n) ==> #[trigger] out@[p] == before[p],
        {
            let index: usize = if reverse {
                notes - 1 - step
            } else {
                step
            };
            proof {
                gru::lemma_row_fits(index as int, notes as int, width as int);
                layout::lemma_slot_fits(slots, room as nat, n, index as int);
            }
            let start: usize = index * width;
            let note: &[T] = &normalized[start..start + width];
            assert(note@ =~= x[index as int]);
            let next: Vec<T> = gru::advance(direction, note, h.as_slice());
            let ghost earlier = out@;
            write_state(out, index * stride + offset, &next);
            proof {
                layout::lemma_slot_written(slots, n, earlier, out@, next@, index as int);
                gru::lemma_reading_extends(
                    *direction,
                    x,
                    states,
                    reverse,
                    step as int,
                    h@,
                    next@,
                );
                states = slots.slots(out@, n);
            }
            h = next;
        }
        proof {
            assert forall|i: int| 0 <= i < n implies (#[trigger] states[i]).len()
                == slots.units by {
                layout::lemma_slot_fits(slots, room as nat, n, i);
            }
            gru::lemma_reading_ends(*direction, x, states, reverse, h@);
            if notes == 0 {
                assert(out@ =~= before);
            }
        }
    }

    /// Standardizes every feature of every note.
    fn normalize(&self, notes: &[T], count: usize) -> (normalized: Vec<T>)
        requires
            self.wf(),
            self.input_size > 0,
            notes@.len() == count * self.input_size,
        ensures
            normalized@.len() == notes@.len(),
            forall|i: int|
                0 <= i < count ==> standardized_note(
                    *self,
                    #[trigger] gru::row(notes@, self.input_size as nat, i),
                    gru::row(normalized@, self.input_size as nat, i),
                ),
    {
        let width: usize = self.input_size;
        let length: usize = notes.len();
        let mut normalized: Vec<T> = Vec::new();
        for index in 0..length
            invariant
                self.wf(),
                width == self.input_size,
                width > 0,
                length == notes@.len(),
                normalized@.len() == index,
                forall|j: int|
                    0 <= j < index ==> standardized(
                        notes@[j],
                        self.input_mean@[j % width as int],
                        self.input_std@[j % width as int],
                        #[trigger] normalized@[j],
                    ),
        {
            let feature: usize = index % width;
            let shifted = notes[index].minus(self.input_mean[feature]);
            let scaled = shifted.over(self.input_std[feature]);
            proof {
                assert(arithmetic::difference(
                    notes@[index as int],
                    self.input_mean@[feature as int],
                    shifted,
                ));
                assert(arithmetic::quotient(shifted, self.input_std@[feature as int], scaled));
            }
            normalized.push(scaled);
        }
        proof {
            assert forall|i: int| 0 <= i < count implies standardized_note(
                *self,
                #[trigger] gru::row(notes@, width as nat, i),
                gru::row(normalized@, width as nat, i),
            ) by {
                gru::lemma_row_fits(i, count as int, width as int);
                let x = gru::row(normalized@, width as nat, i);
                assert forall|f: int| 0 <= f < width implies standardized(
                    gru::row(notes@, width as nat, i)[f],
                    self.input_mean@[f],
                    self.input_std@[f],
                    #[trigger] x[f],
                ) by {
                    let j = i * width + f;
                    vstd::arithmetic::div_mod::lemma_fundamental_div_mod_converse_mod(
                        j,
                        width as int,
                        i,
                        f,
                    );
                    assert(x[f] == normalized@[j]);
                }
            }
        }
        normalized
    }

    /// Reads every head off one encoded note.
    fn read_note(&self, trunk: &[T]) -> (out: Vec<T>)
        requires
            self.wf(),
            trunk@.len() == self.trunk(),
        ensures
            readout(*self, trunk@, out@),
    {
        let mut out: Vec<T> = Vec::new();
        for output in 0..self.output_size
            invariant
                self.wf(),
                trunk@.len() == self.trunk(),
                out@.len() == output,
                forall|o: int|
                    0 <= o < output ==> arithmetic::affine(
                        self.head_biases@[o],
                        self.head_weights@[o]@,
                        trunk@,
                        #[trigger] out@[o],
                    ),
        {
            out.push(
                arithmetic::weighted_sum(
                    self.head_biases[output],
                    self.head_weights[output].as_slice(),
                    trunk,
                ),
            );
        }
        out
    }

    /// Reads every head off every encoded note.
    fn read_out(&self, encoded: &Vec<T>, count: usize) -> (out: Vec<T>)
        requires
            self.wf(),
            encoded@.len() == count * self.trunk(),
            count * self.output_size <= usize::MAX,
        ensures
            out@.len() == count * self.output_size,
            forall|i: int|
                0 <= i < count ==> readout(
                    *self,
                    gru::row(encoded@, self.trunk(), i),
                    #[trigger] gru::row(out@, self.output_size as nat, i),
                ),
    {
        let trunk: usize = self.trunk_width();
        let total: usize = encoded.len();
        let ghost outputs = self.output_size as nat;
        let mut out: Vec<T> = Vec::new();
        proof {
            vstd::arithmetic::mul::lemma_mul_basics(outputs as int);
        }
        for note in 0..count
            invariant
                self.wf(),
                trunk == self.trunk(),
                total == encoded@.len(),
                total == count * trunk,
                outputs == self.output_size,
                out@.len() == note * outputs,
                forall|i: int|
                    0 <= i < note ==> readout(
                        *self,
                        gru::row(encoded@, trunk as nat, i),
                        #[trigger] gru::row(out@, outputs, i),
                    ),
        {
            proof {
                gru::lemma_row_fits(note as int, count as int, trunk as int);
                gru::lemma_row_fits(note as int, count as int, outputs as int);
            }
            let start: usize = note * trunk;
            let mut read: Vec<T> = self.read_note(&encoded[start..start + trunk]);
            let ghost before = out@;
            let ghost reading = read@;
            out.append(&mut read);
            proof {
                assert forall|i: int| 0 <= i < note + 1 implies readout(
                    *self,
                    gru::row(encoded@, trunk as nat, i),
                    #[trigger] gru::row(out@, outputs, i),
                ) by {
                    if i < note {
                        gru::lemma_row_fits(i, note as int, outputs as int);
                        assert(gru::row(out@, outputs, i) =~= gru::row(before, outputs, i));
                    } else {
                        assert(gru::row(out@, outputs, i) =~= reading);
                    }
                }
            }
        }
        out
    }

    /// The number of values that encode one note.
    fn trunk_width(&self) -> (width: usize)
        requires
            self.hidden_size <= MAX_HIDDEN_SIZE,
        ensures
            width == self.trunk(),
    {
        self.hidden_size * if self.bidirectional {
            2
        } else {
            1
        }
    }

    /// Predicts a performance for a sequence of notes.
    ///
    /// `notes` holds the features of one note after the other, in score order.
    /// The result holds the outputs for one note after the other, in the same
    /// order. A buffer that is no whole number of notes is refused.
    pub fn run(&self, notes: &[T]) -> (result: Result<Vec<T>, FbmxError>)
        requires
            self.wf(),
            self.divides(notes@.len()) ==> {
                &&& self.note_count(notes@.len()) * self.trunk() <= usize::MAX
                &&& self.note_count(notes@.len()) * self.output_size <= usize::MAX
            },
        ensures
            match result {
                Ok(out) => ran(*self, notes@, out@),
                Err(error) => {
                    &&& !self.divides(notes@.len())
                    &&& error@ == error::broken_notes_view(
                        notes@.len() as usize,
                        self.input_size,
                    )
                },
            },
    {
        let length: usize = notes.len();
        let width: usize = self.input_size;
        if width == 0 || length % width != 0 {
            return Err(FbmxError::broken_notes(length, width));
        }
        let count: usize = length / width;
        proof {
            vstd::arithmetic::div_mod::lemma_fundamental_div_mod(length as int, width as int);
            assert(length == count * width) by (nonlinear_arith)
                requires
                    length == width * (length as int / width as int) + length as int % width as int,
                    length as int % width as int == 0,
                    count == length as int / width as int,
            ;
        }
        if count == 0 {
            let out: Vec<T> = Vec::new();
            proof {
                vstd::arithmetic::mul::lemma_mul_basics(self.output_size as int);
                let none: Seq<Seq<T>> = Seq::empty();
                assert(gru::rows(notes@, width as nat, 0) =~= none);
                assert(gru::rows(out@, self.output_size as nat, 0) =~= none);
                assert(performed(*self, none, none, none, none));
            }
            return Ok(out);
        }
        let normalized: Vec<T> = self.normalize(notes, count);
        let trunk: usize = self.trunk_width();
        let zero = T::number(0);
        let mut encoded: Vec<T> = arithmetic::filled(zero, count * trunk);
        let ghost units = self.hidden_size as nat;
        let ghost front = Layout { offset: 0, stride: trunk as nat, units };
        let ghost back = Layout { offset: units, stride: trunk as nat, units };
        proof {
            layout::lemma_rows_fit(front, count as nat);
            if self.bidirectional {
                layout::lemma_rows_fit(back, count as nat);
            }
        }
        self.run_direction(
            &self.forward,
            normalized.as_slice(),
            count,
            encoded.as_mut_slice(),
            0,
            trunk,
            false,
        );
        let ghost forward_only = encoded@;
        if let Some(backward) = &self.backward {
            self.run_direction(
                backward,
                normalized.as_slice(),
                count,
                encoded.as_mut_slice(),
                self.hidden_size,
                trunk,
                true,
            );
            proof {
                layout::lemma_other_slots_kept(front, back, count as nat, forward_only, encoded@);
            }
        }
        proof {
            let states = gru::rows(encoded@, trunk as nat, count as nat);
            lemma_slots_are_parts(front, encoded@, count as nat);
            if self.bidirectional {
                lemma_slots_are_parts(back, encoded@, count as nat);
            }
            assert forall|i: int| 0 <= i < count implies (#[trigger] states[i]).len() == trunk by {
                gru::lemma_row_fits(i, count as int, trunk as int);
            }
        }
        let out: Vec<T> = self.read_out(&encoded, count);
        proof {
            let x = gru::rows(normalized@, width as nat, count as nat);
            let states = gru::rows(encoded@, trunk as nat, count as nat);
            assert(performed(
                *self,
                gru::rows(notes@, width as nat, count as nat),
                x,
                states,
                gru::rows(out@, self.output_size as nat, count as nat),
            ));
        }
        Ok(out)
    }
}

} // verus!
