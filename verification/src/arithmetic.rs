//! The number type of a network, and the sums and activations built from it.
//!
//! Each operation is read as a relation between its operands and its result:
//! `sum(a, b, c)` says that `c` is something `a.plus(b)` may return. Rounding
//! is therefore never assumed away, nor is it assumed that an operation returns
//! the same value twice.
use vstd::prelude::*;

verus! {

/// The operations that a network performs on its numbers.
///
/// No method promises anything of its result: what is proved of a function that
/// is generic over this trait holds for every implementation.
pub trait Arithmetic: Copy {
    /// The number `n`.
    fn number(n: u32) -> Self;

    /// `self + rhs`.
    fn plus(self, rhs: Self) -> Self;

    /// `self - rhs`.
    fn minus(self, rhs: Self) -> Self;

    /// `self * rhs`.
    fn times(self, rhs: Self) -> Self;

    /// `self / rhs`.
    fn over(self, rhs: Self) -> Self;

    /// `-self`.
    fn negated(self) -> Self;

    /// `e` to the power `self`.
    fn exp(self) -> Self;

    /// The hyperbolic tangent of `self`.
    fn tanh(self) -> Self;
}

/// `x` is a value of the literal `n`.
pub open spec fn literal<T: Arithmetic>(n: u32, x: T) -> bool {
    call_ensures(T::number, (n,), x)
}

/// `c` is a result of `a + b`.
pub open spec fn sum<T: Arithmetic>(a: T, b: T, c: T) -> bool {
    call_ensures(T::plus, (a, b), c)
}

/// `c` is a result of `a - b`.
pub open spec fn difference<T: Arithmetic>(a: T, b: T, c: T) -> bool {
    call_ensures(T::minus, (a, b), c)
}

/// `c` is a result of `a * b`.
pub open spec fn product<T: Arithmetic>(a: T, b: T, c: T) -> bool {
    call_ensures(T::times, (a, b), c)
}

/// `c` is a result of `a / b`.
pub open spec fn quotient<T: Arithmetic>(a: T, b: T, c: T) -> bool {
    call_ensures(T::over, (a, b), c)
}

/// `b` is a result of `-a`.
pub open spec fn negation<T: Arithmetic>(a: T, b: T) -> bool {
    call_ensures(T::negated, (a,), b)
}

/// `b` is a result of `exp(a)`.
pub open spec fn exponential<T: Arithmetic>(a: T, b: T) -> bool {
    call_ensures(T::exp, (a,), b)
}

/// `b` is a result of `tanh(a)`.
pub open spec fn tangent<T: Arithmetic>(a: T, b: T) -> bool {
    call_ensures(T::tanh, (a,), b)
}

/// Every operation has at most one result on given operands.
pub open spec fn deterministic<T: Arithmetic>() -> bool {
    &&& forall|n: u32, x: T, y: T| #[trigger] literal(n, x) && #[trigger] literal(n, y) ==> x == y
    &&& forall|a: T, b: T, c: T, d: T| #[trigger]
        sum(a, b, c) && #[trigger] sum(a, b, d) ==> c == d
    &&& forall|a: T, b: T, c: T, d: T| #[trigger]
        difference(a, b, c) && #[trigger] difference(a, b, d) ==> c == d
    &&& forall|a: T, b: T, c: T, d: T| #[trigger]
        product(a, b, c) && #[trigger] product(a, b, d) ==> c == d
    &&& forall|a: T, b: T, c: T, d: T| #[trigger]
        quotient(a, b, c) && #[trigger] quotient(a, b, d) ==> c == d
    &&& forall|a: T, b: T, c: T| #[trigger] negation(a, b) && #[trigger] negation(a, c) ==> b == c
    &&& forall|a: T, b: T, c: T| #[trigger]
        exponential(a, b) && #[trigger] exponential(a, c) ==> b == c
    &&& forall|a: T, b: T, c: T| #[trigger] tangent(a, b) && #[trigger] tangent(a, c) ==> b == c
}

/// Whatever `x - x` returns is zero.
pub open spec fn cancels<T: Arithmetic>(x: T) -> bool {
    forall|d: T| #[trigger] difference(x, x, d) ==> literal(0, d)
}

/// Whatever `0 / x` returns is zero.
pub open spec fn divides_zero<T: Arithmetic>(x: T) -> bool {
    forall|z: T, q: T| literal(0, z) && #[trigger] quotient(z, x, q) ==> literal(0, q)
}

/// `y` is `1 / (1 + exp(-x))`, computed in that order.
pub open spec fn logistic<T: Arithmetic>(x: T, y: T) -> bool {
    exists|one: T, negative: T, power: T, denominator: T|
        #![trigger negation(x, negative), exponential(negative, power), sum(one, power, denominator)]
        {
            &&& literal(1, one)
            &&& negation(x, negative)
            &&& exponential(negative, power)
            &&& sum(one, power, denominator)
            &&& quotient(one, denominator, y)
        }
}

/// `y` is `bias + weights[0] * values[0] + weights[1] * values[1] + ...`,
/// accumulated from the left.
pub open spec fn affine<T: Arithmetic>(bias: T, weights: Seq<T>, values: Seq<T>, y: T) -> bool
    recommends
        weights.len() == values.len(),
    decreases weights.len(),
{
    if weights.len() == 0 {
        y == bias
    } else {
        exists|partial: T, term: T|
            #![trigger sum(partial, term, y)]
            {
                &&& affine(bias, weights.drop_last(), values.drop_last(), partial)
                &&& product(weights.last(), values.last(), term)
                &&& sum(partial, term, y)
            }
    }
}

/// The logistic function.
pub fn sigmoid<T: Arithmetic>(x: T) -> (y: T)
    ensures
        logistic(x, y),
{
    let one = T::number(1);
    let negative = x.negated();
    let power = negative.exp();
    let denominator = one.plus(power);
    let y = one.over(denominator);
    assert(literal(1, one));
    assert(negation(x, negative));
    assert(exponential(negative, power));
    assert(sum(one, power, denominator));
    assert(quotient(one, denominator, y));
    y
}

/// The weighted sum of `values`, starting from `bias`.
pub fn weighted_sum<T: Arithmetic>(bias: T, weights: &[T], values: &[T]) -> (y: T)
    requires
        weights@.len() == values@.len(),
    ensures
        affine(bias, weights@, values@, y),
{
    let mut y: T = bias;
    let length: usize = weights.len();
    for i in 0..length
        invariant
            length == weights@.len(),
            length == values@.len(),
            affine(bias, weights@.take(i as int), values@.take(i as int), y),
    {
        let term = weights[i].times(values[i]);
        let next = y.plus(term);
        proof {
            assert(weights@.take(i + 1).drop_last() =~= weights@.take(i as int));
            assert(values@.take(i + 1).drop_last() =~= values@.take(i as int));
            assert(product(weights@[i as int], values@[i as int], term));
            assert(sum(y, term, next));
        }
        y = next;
    }
    proof {
        assert(weights@.take(length as int) =~= weights@);
        assert(values@.take(length as int) =~= values@);
    }
    y
}

/// `length` copies of `value`.
pub(crate) fn filled<T: Copy>(value: T, length: usize) -> (values: Vec<T>)
    ensures
        values@ == Seq::new(length as nat, |i: int| value),
{
    let mut values: Vec<T> = Vec::new();
    for i in 0..length
        invariant
            values@ == Seq::new(i as nat, |j: int| value),
    {
        values.push(value);
    }
    values
}

} // verus!
