# fbmx_runtime

A verified runtime for note-sequence networks. A container of named tensors goes
in, a `PerformerRuntime` comes out, and running it over a score returns one
performance vector per note.

- `src/arithmetic.rs`: the number type's operations, as relations, and the sums
  and activations built from them
- `src/gru.rs`: one step of a gated recurrent unit, and a pass over a sequence
- `src/layout.rs`: where the states of a pass stand in a shared buffer
- `src/container.rs`, `src/loader.rs`: tensors, models, and loading a runtime
- `src/performer.rs`: running a runtime over notes
- `src/lcg.rs`: reproducible note sequences
- `src/text.rs`, `src/error.rs`: names, messages and errors
- `src/laws.rs`, `src/generator_laws.rs`: what holds of the library as a whole
- `src/uniqueness.rs`: the lemmas for arithmetic with one result per operation
- `app/`: a program that runs a model over a generated sequence and prints the
  result, with single-precision numbers

The library is generic over its number type. Nothing is assumed of the
operations, so every contract holds whatever they round to; a contract says
which operations are applied, to which values and in which order.
