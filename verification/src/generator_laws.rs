//! What holds of the generator of note sequences.
use crate::arithmetic;
use crate::arithmetic::Arithmetic;
use crate::lcg;
use crate::uniqueness;
use vstd::arithmetic::div_mod::*;
use vstd::arithmetic::mul::*;
use vstd::arithmetic::power2::*;
use vstd::prelude::*;

verus! {

/// A sequence may be drawn in pieces: the state after `first` and then `second`
/// steps is that after all of them.
pub proof fn law_sequence_continues(seed: u64, first: nat, second: nat)
    ensures
        lcg::state_after(lcg::state_after(seed, first), second) == lcg::state_after(
            seed,
            first + second,
        ),
    decreases second,
{
    if second > 0 {
        law_sequence_continues(seed, first, (second - 1) as nat);
    }
}

/// A seed fixes its sequence: where the arithmetic gives one result per
/// operation, a sequence drawn from the same seed agrees with a longer one as
/// far as it goes.
pub proof fn law_sequence_is_determined<T: Arithmetic>(seed: u64, a: Seq<T>, b: Seq<T>)
    requires
        arithmetic::deterministic::<T>(),
        a.len() <= b.len(),
        forall|i: int|
            0 <= i < a.len() ==> lcg::centered(
                lcg::top_bits(lcg::state_after(seed, (i + 1) as nat)),
                #[trigger] a[i],
            ),
        forall|i: int|
            0 <= i < b.len() ==> lcg::centered(
                lcg::top_bits(lcg::state_after(seed, (i + 1) as nat)),
                #[trigger] b[i],
            ),
    ensures
        a == b.take(a.len() as int),
{
    assert forall|i: int| 0 <= i < a.len() implies a[i] == b[i] by {
        uniqueness::lemma_centered_unique(
            lcg::top_bits(lcg::state_after(seed, (i + 1) as nat)),
            a[i],
            b[i],
        );
    }
    assert(a =~= b.take(a.len() as int));
}

/// The bits drawn are the top 24 of the state: with 40 more they would be all
/// of it.
pub proof fn law_the_top_bits_are_drawn(state: u64)
    ensures
        lcg::top_bits(state) * 0x100_0000_0000 <= state,
        state < (lcg::top_bits(state) + 1) * 0x100_0000_0000,
{
}

/// Two steps differ by the multiple of what their states differed by, modulo
/// `2^64`, and a state of zero moves to the summand.
pub proof fn law_steps_scale_differences(a: u64, b: u64)
    ensures
        (lcg::next_state(a) - lcg::next_state(b) - 6_364_136_223_846_793_005 * (a - b))
            % 0x1_0000_0000_0000_0000 == 0,
        lcg::next_state(0) == 1_442_695_040_888_963_407,
{
    let m: int = 0x1_0000_0000_0000_0000;
    let (sa, sb) = (
        a * 6_364_136_223_846_793_005 + 1_442_695_040_888_963_407,
        b * 6_364_136_223_846_793_005 + 1_442_695_040_888_963_407,
    );
    lemma_fundamental_div_mod(sa, m);
    lemma_fundamental_div_mod(sb, m);
    let q = sb / m - sa / m;
    assert(lcg::next_state(a) - lcg::next_state(b) - 6_364_136_223_846_793_005 * (a - b) == q
        * m);
    lemma_mod_multiples_basic(q, m);
}

/// No step leaves a state where it is, and one step is the next state.
pub proof fn law_steps_are_counted(seed: u64)
    ensures
        lcg::state_after(seed, 0) == seed,
        lcg::state_after(seed, 1) == lcg::next_state(seed),
{
    assert(lcg::state_after(seed, 0) == seed);
}

/// Whoever divides the bits by `2^24`, doubles the result and subtracts one has
/// the number drawn.
pub proof fn law_a_draw_by_hand<T: Arithmetic>(
    bits: u32,
    numerator: T,
    denominator: T,
    fraction: T,
    two: T,
    doubled: T,
    one: T,
    by_hand: T,
    y: T,
)
    requires
        arithmetic::deterministic::<T>(),
        arithmetic::literal(bits, numerator),
        arithmetic::literal(16_777_216, denominator),
        arithmetic::quotient(numerator, denominator, fraction),
        arithmetic::literal(2, two),
        arithmetic::product(fraction, two, doubled),
        arithmetic::literal(1, one),
        arithmetic::difference(doubled, one, by_hand),
        lcg::centered(bits, y),
    ensures
        y == by_hand,
{
}

/// With `b` for the top 24 bits, `b / 2^24 * 2 - 1` lies from `-1` inclusive to
/// `1` exclusive; both sides are multiplied by `2^24` here.
pub proof fn law_centered_bits_span_the_unit_interval(state: u64)
    ensures
        -0x100_0000 <= lcg::top_bits(state) * 2 - 0x100_0000 < 0x100_0000,
{
}

/// The generator does not merge states: each has one successor and, among all,
/// one predecessor.
pub proof fn law_steps_are_reversible(a: u64, b: u64)
    ensures
        lcg::next_state(a) == lcg::next_state(b) <==> a == b,
{
    if lcg::next_state(a) == lcg::next_state(b) {
        lemma_previous_state(a);
        lemma_previous_state(b);
    }
}

/// The inverse of the multiplier modulo `2^64`.
spec fn inverse() -> int {
    13877824140714322085
}

/// A state follows from the next.
proof fn lemma_previous_state(state: u64)
    ensures
        ((lcg::next_state(state) - lcg::INCREMENT) * inverse()) % 0x1_0000_0000_0000_0000
            == state,
{
    let m: int = 0x1_0000_0000_0000_0000;
    let scaled = state * lcg::MULTIPLIER;
    let sum = scaled + lcg::INCREMENT;
    let next = lcg::next_state(state) as int;
    let undone = next - lcg::INCREMENT;
    assert(undone % m == scaled % m) by {
        lemma_sub_mod_noop(sum, lcg::INCREMENT as int, m);
        lemma_sub_mod_noop(next, lcg::INCREMENT as int, m);
    }
    assert((undone * inverse()) % m == (scaled * inverse()) % m) by {
        lemma_mul_mod_noop_left(undone, inverse(), m);
        lemma_mul_mod_noop_left(scaled, inverse(), m);
    }
    assert(scaled * inverse() == state * (lcg::MULTIPLIER * inverse())) by {
        lemma_mul_is_associative(state as int, lcg::MULTIPLIER as int, inverse());
    }
    assert(lcg::MULTIPLIER * inverse() == m * 4787856489426250814 + 1);
    let quotient: int = state * 4787856489426250814;
    assert(scaled * inverse() == m * quotient + state);
    lemma_mod_multiples_vanish(quotient, state as int, m);
}

/// Every step flips the lowest bit of the state.
#[verifier::spinoff_prover]
pub proof fn law_steps_flip_the_lowest_bit(state: u64)
    ensures
        (lcg::next_state(state) ^ state) & 1 == 1,
{
    let next = lcg::next_state(state);
    let sum = state * lcg::MULTIPLIER + lcg::INCREMENT;
    let half = state * 3_182_068_111_923_396_502 + 721_347_520_444_481_703;
    let wraps = sum / 0x1_0000_0000_0000_0000;
    assert(sum == 2 * half + state + 1);
    lemma_fundamental_div_mod(sum, 0x1_0000_0000_0000_0000);
    assert(next == 2 * (half - 0x8000_0000_0000_0000 * wraps) + state + 1);
    assert((next ^ state) & 1 == 1) by (bit_vector)
        requires
            next % 2 != state % 2,
    ;
}

/// The generator has full period: a run of fewer than `2^64` steps never
/// returns to its start, so in particular no state is its own successor.
pub proof fn law_generator_has_full_period(seed: u64, steps: nat)
    requires
        1 <= steps < 0x1_0000_0000_0000_0000,
    ensures
        lcg::state_after(seed, steps) != seed,
{
    if lcg::state_after(seed, steps) == seed {
        let m: int = 0x1_0000_0000_0000_0000;
        let drift = (lcg::MULTIPLIER - 1) * seed + lcg::INCREMENT;
        let sum = powers_sum(steps);
        lemma_state_is_unbounded_state(seed, steps);
        lemma_drift(seed, steps);
        assert((sum * drift) % m == 0) by {
            lemma_mod_equivalence(unbounded_state(seed, steps), seed as int, m);
        }
        lemma2_to64();
        assert(pow2(64) == m) by {
            lemma_pow2_adds(32, 32);
        }
        let half = drift / 2;
        assert(drift == 2 * half + 1);
        lemma_odd_factor(sum as int, half, 64);
        lemma_powers_sum_divides(steps, 64);
        lemma_small_mod(steps, 0x1_0000_0000_0000_0000);
    }
}

/// The state after some steps, were it not reduced.
spec fn unbounded_state(seed: u64, steps: nat) -> int
    decreases steps,
{
    if steps == 0 {
        seed as int
    } else {
        unbounded_state(seed, (steps - 1) as nat) * lcg::MULTIPLIER + lcg::INCREMENT
    }
}

/// `1 + m + m^2 + ...`, with `count` terms, for the multiplier `m`.
spec fn powers_sum(count: nat) -> nat
    decreases count,
{
    if count == 0 {
        0
    } else {
        powers_sum((count - 1) as nat) * lcg::MULTIPLIER as nat + 1
    }
}

/// The multiplier to a power.
spec fn multiplier_power(exponent: nat) -> nat
    decreases exponent,
{
    if exponent == 0 {
        1
    } else {
        multiplier_power((exponent - 1) as nat) * lcg::MULTIPLIER as nat
    }
}

/// A state is the unreduced one modulo `2^64`.
proof fn lemma_state_is_unbounded_state(seed: u64, steps: nat)
    ensures
        lcg::state_after(seed, steps) == unbounded_state(seed, steps) % 0x1_0000_0000_0000_0000,
    decreases steps,
{
    let m: int = 0x1_0000_0000_0000_0000;
    if steps == 0 {
        lemma_small_mod(seed as nat, m as nat);
    } else {
        let before = (steps - 1) as nat;
        lemma_state_is_unbounded_state(seed, before);
        let state = unbounded_state(seed, before);
        let factor = lcg::MULTIPLIER as int;
        let summand = lcg::INCREMENT as int;
        lemma_mul_mod_noop_left(state, factor, m);
        lemma_add_mod_noop(state * factor, summand, m);
        lemma_add_mod_noop((state % m) * factor, summand, m);
    }
}

/// How far the unreduced state moves.
proof fn lemma_drift(seed: u64, steps: nat)
    ensures
        unbounded_state(seed, steps) - seed == powers_sum(steps) * ((lcg::MULTIPLIER - 1) * seed
            + lcg::INCREMENT),
    decreases steps,
{
    let drift = (lcg::MULTIPLIER - 1) * seed + lcg::INCREMENT;
    if steps == 0 {
        lemma_mul_basics(drift);
    } else {
        let before = (steps - 1) as nat;
        lemma_drift(seed, before);
        let sum = powers_sum(before) as int;
        let factor = lcg::MULTIPLIER as int;
        let state = unbounded_state(seed, before);
        assert(state * factor == seed * factor + (sum * drift) * factor) by (nonlinear_arith)
            requires
                state == seed + sum * drift,
        ;
        assert((sum * factor + 1) * drift == (sum * drift) * factor + drift) by (nonlinear_arith);
        assert((factor - 1) * seed == seed * factor - seed) by (nonlinear_arith);
    }
}

/// An odd factor takes no power of two.
proof fn lemma_odd_factor(x: int, half: int, exponent: nat)
    requires
        (x * (2 * half + 1)) % (pow2(exponent) as int) == 0,
    ensures
        x % (pow2(exponent) as int) == 0,
    decreases exponent,
{
    let odd = 2 * half + 1;
    lemma_pow2_pos(exponent);
    if exponent == 0 {
        lemma2_to64();
    } else {
        let less = (exponent - 1) as nat;
        let small = pow2(less) as int;
        lemma_pow2_pos(less);
        lemma_pow2_unfold(exponent);
        lemma_fundamental_div_mod(x * odd, 2 * small);
        let q = (x * odd) / (2 * small);
        assert(x * odd == 2 * (small * q)) by (nonlinear_arith)
            requires
                x * odd == (2 * small) * q,
        ;
        assert(x * odd == 2 * (x * half) + x) by (nonlinear_arith)
            requires
                odd == 2 * half + 1,
        ;
        let y = small * q - x * half;
        assert(x == 2 * y);
        assert(y * odd == small * q) by (nonlinear_arith)
            requires
                x == 2 * y,
                x * odd == 2 * (small * q),
        ;
        lemma_mod_multiples_basic(q, small);
        lemma_mul_is_commutative(q, small);
        lemma_odd_factor(y, half, less);
        lemma_doubled_mod(y, small);
    }
}

/// Doubling keeps divisibility, one power of two up.
proof fn lemma_doubled_mod(y: int, small: int)
    requires
        small > 0,
        y % small == 0,
    ensures
        (2 * y) % (2 * small) == 0,
{
    lemma_fundamental_div_mod(y, small);
    let q = y / small;
    assert(2 * y == q * (2 * small)) by (nonlinear_arith)
        requires
            y == small * q,
    ;
    lemma_mod_multiples_basic(q, 2 * small);
}

/// Powers of the multiplier leave one when divided by four.
proof fn lemma_power_mod_four(exponent: nat)
    ensures
        multiplier_power(exponent) % 4 == 1,
    decreases exponent,
{
    if exponent > 0 {
        let before = (exponent - 1) as nat;
        lemma_power_mod_four(before);
        lemma_mul_mod_noop_left(
            multiplier_power(before) as int,
            lcg::MULTIPLIER as int,
            4,
        );
    }
}

/// A sum of powers in two pieces.
proof fn lemma_powers_sum_adds(a: nat, b: nat)
    ensures
        powers_sum(a + b) == powers_sum(a) * multiplier_power(b) + powers_sum(b),
    decreases b,
{
    if b == 0 {
        lemma_mul_basics(powers_sum(a) as int);
    } else {
        let before = (b - 1) as nat;
        lemma_powers_sum_adds(a, before);
        let (x, p, y) = (
            powers_sum(a) as int,
            multiplier_power(before) as int,
            powers_sum(before) as int,
        );
        let factor = lcg::MULTIPLIER as int;
        assert((x * p + y) * factor + 1 == x * (p * factor) + (y * factor + 1))
            by (nonlinear_arith);
    }
}

/// A sum of powers is odd exactly when it has an odd number of terms.
proof fn lemma_powers_sum_parity(count: nat)
    ensures
        powers_sum(count) % 2 == count % 2,
    decreases count,
{
    if count > 0 {
        lemma_powers_sum_parity((count - 1) as nat);
    }
}

/// A power of two that divides a sum of powers divides its number of terms.
proof fn lemma_powers_sum_divides(count: nat, exponent: nat)
    requires
        powers_sum(count) % pow2(exponent) == 0,
    ensures
        count % pow2(exponent) == 0,
    decreases exponent,
{
    lemma_pow2_pos(exponent);
    if exponent == 0 {
        lemma2_to64();
    } else {
        let less = (exponent - 1) as nat;
        let small = pow2(less) as int;
        lemma_pow2_pos(less);
        lemma_pow2_unfold(exponent);
        let sum = powers_sum(count) as int;
        lemma_fundamental_div_mod(sum, 2 * small);
        let q = sum / (2 * small);
        assert(sum == 2 * (small * q)) by (nonlinear_arith)
            requires
                sum == (2 * small) * q,
        ;
        lemma_powers_sum_parity(count);
        let half = count / 2;
        assert(count == half + half);
        lemma_powers_sum_adds(half, half);
        lemma_power_mod_four(half);
        let part = powers_sum(half) as int;
        let power = multiplier_power(half) as int;
        let quarter = power / 4;
        assert(power + 1 == 2 * (2 * quarter + 1));
        assert(part * power + part == 2 * (part * (2 * quarter + 1))) by (nonlinear_arith)
            requires
                power + 1 == 2 * (2 * quarter + 1),
        ;
        assert(part * (2 * quarter + 1) == small * q);
        lemma_mod_multiples_basic(q, small);
        lemma_mul_is_commutative(q, small);
        lemma_odd_factor(part, quarter, less);
        lemma_powers_sum_divides(half, less);
        lemma_doubled_mod(half as int, small);
    }
}

} // verus!
