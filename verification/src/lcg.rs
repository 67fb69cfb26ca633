//! A deterministic source of note sequences, for comparing runtimes.
//!
//! A comparison whose two sides disagree about the input measures nothing, so
//! the sequence follows from its seed by a rule that is easy to repeat exactly
//! in any language.
use crate::arithmetic;
use crate::arithmetic::Arithmetic;
use vstd::prelude::*;

verus! {

/// The factor of the generator.
pub const MULTIPLIER: u64 = 6_364_136_223_846_793_005;

/// The summand of the generator.
pub const INCREMENT: u64 = 1_442_695_040_888_963_407;

/// A 64-bit linear congruential generator.
///
/// Chosen for being trivially reproducible, not for statistical quality.
#[derive(Debug, Clone)]
pub struct Lcg(pub u64);

/// The state after `state`.
pub open spec fn next_state(state: u64) -> u64 {
    ((state * MULTIPLIER + INCREMENT) % 0x1_0000_0000_0000_0000) as u64
}

/// The state `steps` steps after `seed`.
pub open spec fn state_after(seed: u64, steps: nat) -> u64
    decreases steps,
{
    if steps == 0 {
        seed
    } else {
        next_state(state_after(seed, (steps - 1) as nat))
    }
}

/// The top 24 bits of a state.
pub open spec fn top_bits(state: u64) -> u32 {
    (state / 0x100_0000_0000) as u32
}

/// `y` is `bits / 2^24 * 2 - 1`, computed in that order.
pub open spec fn centered<T: Arithmetic>(bits: u32, y: T) -> bool {
    exists|numerator: T, denominator: T, fraction: T, two: T, doubled: T, one: T|
        #![trigger arithmetic::quotient(numerator, denominator, fraction), arithmetic::product(fraction, two, doubled), arithmetic::difference(doubled, one, y)]
        {
            &&& arithmetic::literal(bits, numerator)
            &&& arithmetic::literal(16_777_216, denominator)
            &&& arithmetic::quotient(numerator, denominator, fraction)
            &&& arithmetic::literal(2, two)
            &&& arithmetic::product(fraction, two, doubled)
            &&& arithmetic::literal(1, one)
            &&& arithmetic::difference(doubled, one, y)
        }
}

impl Lcg {
    /// Advances the generator and returns its new state.
    pub fn next_u64(&mut self) -> (state: u64)
        ensures
            state == next_state(old(self).0),
            final(self).0 == state,
    {
        self.0 = self.0.wrapping_mul(MULTIPLIER).wrapping_add(INCREMENT);
        self.0
    }

    /// Advances the generator and returns the top 24 bits of its new state.
    pub fn next_bits(&mut self) -> (bits: u32)
        ensures
            final(self).0 == next_state(old(self).0),
            bits == top_bits(final(self).0),
            bits < 0x100_0000,
    {
        let state: u64 = self.next_u64();
        proof {
            assert(state >> 40u64 == state / 0x100_0000_0000) by (bit_vector);
            assert(state >> 40u64 < 0x100_0000) by (bit_vector);
        }
        (state >> 40) as u32
    }

    /// Advances the generator and returns a number from `-1` inclusive to `1`
    /// exclusive, with 24 bits of mantissa.
    pub fn next_f32<T: Arithmetic>(&mut self) -> (value: T)
        ensures
            final(self).0 == next_state(old(self).0),
            centered(top_bits(final(self).0), value),
    {
        let bits: u32 = self.next_bits();
        let numerator = T::number(bits);
        let denominator = T::number(16_777_216);
        let fraction = numerator.over(denominator);
        let two = T::number(2);
        let doubled = fraction.times(two);
        let one = T::number(1);
        let value = doubled.minus(one);
        assert(arithmetic::literal(bits, numerator));
        assert(arithmetic::literal(16_777_216, denominator));
        assert(arithmetic::quotient(numerator, denominator, fraction));
        assert(arithmetic::literal(2, two));
        assert(arithmetic::product(fraction, two, doubled));
        assert(arithmetic::literal(1, one));
        assert(arithmetic::difference(doubled, one, value));
        value
    }

    /// The next `length` numbers.
    pub fn sequence<T: Arithmetic>(&mut self, length: usize) -> (values: Vec<T>)
        ensures
            final(self).0 == state_after(old(self).0, length as nat),
            values@.len() == length,
            forall|i: int|
                0 <= i < length ==> centered(
                    top_bits(state_after(old(self).0, (i + 1) as nat)),
                    #[trigger] values@[i],
                ),
    {
        let ghost seed = self.0;
        let mut values: Vec<T> = Vec::new();
        for n in 0..length
            invariant
                self.0 == state_after(seed, n as nat),
                values@.len() == n,
                forall|i: int|
                    0 <= i < n ==> centered(
                        top_bits(state_after(seed, (i + 1) as nat)),
                        #[trigger] values@[i],
                    ),
        {
            let value: T = self.next_f32();
            values.push(value);
        }
        values
    }
}

} // verus!
