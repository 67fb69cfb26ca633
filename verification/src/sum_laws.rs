//! What a weighted sum and the logistic function are, whatever the arithmetic.
use crate::arithmetic;
use crate::arithmetic::Arithmetic;
use vstd::prelude::*;

verus! {

/// Each relation is that of one operation, on the operands as they stand.
pub proof fn law_relations_are_those_of_the_operations<T: Arithmetic>(n: u32, a: T, b: T, c: T)
    ensures
        arithmetic::literal(n, a) <==> call_ensures(T::number, (n,), a),
        arithmetic::sum(a, b, c) <==> call_ensures(T::plus, (a, b), c),
        arithmetic::difference(a, b, c) <==> call_ensures(T::minus, (a, b), c),
        arithmetic::product(a, b, c) <==> call_ensures(T::times, (a, b), c),
        arithmetic::quotient(a, b, c) <==> call_ensures(T::over, (a, b), c),
        arithmetic::negation(a, b) <==> call_ensures(T::negated, (a,), b),
        arithmetic::exponential(a, b) <==> call_ensures(T::exp, (a,), b),
        arithmetic::tangent(a, b) <==> call_ensures(T::tanh, (a,), b),
{
}

/// A weighted sum of nothing is its bias.
pub proof fn law_an_empty_sum_is_its_bias<T: Arithmetic>(bias: T, y: T)
    ensures
        arithmetic::affine(bias, Seq::empty(), Seq::empty(), y) <==> y == bias,
{
}

/// A weighted sum of one value adds the weight times the value to the bias.
pub proof fn law_a_sum_of_one_term<T: Arithmetic>(bias: T, weight: T, value: T, y: T)
    ensures
        arithmetic::affine(bias, seq![weight], seq![value], y) <==> exists|term: T| #[trigger]
            arithmetic::product(weight, value, term) && arithmetic::sum(bias, term, y),
{
    let (w, v) = (seq![weight], seq![value]);
    assert(w.drop_last() =~= Seq::empty());
    assert(v.drop_last() =~= Seq::empty());
    if arithmetic::affine(bias, w, v, y) {
        let (partial, term) = choose|partial: T, term: T|
            #![trigger arithmetic::sum(partial, term, y)]
            {
                &&& arithmetic::affine(bias, w.drop_last(), v.drop_last(), partial)
                &&& arithmetic::product(w.last(), v.last(), term)
                &&& arithmetic::sum(partial, term, y)
            };
        law_an_empty_sum_is_its_bias(bias, partial);
        assert(arithmetic::product(weight, value, term) && arithmetic::sum(bias, term, y));
    }
    if exists|term: T| #[trigger]
        arithmetic::product(weight, value, term) && arithmetic::sum(bias, term, y) {
        let term = choose|term: T| #[trigger]
            arithmetic::product(weight, value, term) && arithmetic::sum(bias, term, y);
        law_an_empty_sum_is_its_bias(bias, bias);
        assert(arithmetic::affine(bias, w.drop_last(), v.drop_last(), bias));
        assert(arithmetic::sum(bias, term, y));
    }
}

/// A weighted sum may be computed in pieces: the values that follow are added to
/// the sum of those that went before.
pub proof fn law_a_sum_continues<T: Arithmetic>(
    bias: T,
    weights: Seq<T>,
    values: Seq<T>,
    more_weights: Seq<T>,
    more_values: Seq<T>,
    y: T,
)
    requires
        weights.len() == values.len(),
        more_weights.len() == more_values.len(),
    ensures
        arithmetic::affine(bias, weights + more_weights, values + more_values, y) <==> exists|
            partial: T,
        |
            {
                &&& #[trigger] arithmetic::affine(bias, weights, values, partial)
                &&& arithmetic::affine(partial, more_weights, more_values, y)
            },
    decreases more_weights.len(),
{
    let (w, v) = (weights + more_weights, values + more_values);
    if more_weights.len() == 0 {
        assert(w =~= weights);
        assert(v =~= values);
        assert(forall|p: T| #[trigger] arithmetic::affine(p, more_weights, more_values, y) <==> y == p);
        if arithmetic::affine(bias, w, v, y) {
            assert(arithmetic::affine(bias, weights, values, y));
            assert(arithmetic::affine(y, more_weights, more_values, y));
        }
    } else {
        let (mw, mv) = (more_weights.drop_last(), more_values.drop_last());
        assert(w.drop_last() =~= weights + mw);
        assert(v.drop_last() =~= values + mv);
        if arithmetic::affine(bias, w, v, y) {
            let (q, term) = choose|partial: T, term: T|
                #![trigger arithmetic::sum(partial, term, y)]
                {
                    &&& arithmetic::affine(bias, w.drop_last(), v.drop_last(), partial)
                    &&& arithmetic::product(w.last(), v.last(), term)
                    &&& arithmetic::sum(partial, term, y)
                };
            law_a_sum_continues(bias, weights, values, mw, mv, q);
            let p = choose|partial: T|
                {
                    &&& #[trigger] arithmetic::affine(bias, weights, values, partial)
                    &&& arithmetic::affine(partial, mw, mv, q)
                };
            assert(arithmetic::sum(q, term, y));
            assert(arithmetic::affine(p, more_weights, more_values, y));
            assert(arithmetic::affine(bias, weights, values, p));
        }
        if exists|partial: T|
            {
                &&& #[trigger] arithmetic::affine(bias, weights, values, partial)
                &&& arithmetic::affine(partial, more_weights, more_values, y)
            } {
            let p = choose|partial: T|
                {
                    &&& #[trigger] arithmetic::affine(bias, weights, values, partial)
                    &&& arithmetic::affine(partial, more_weights, more_values, y)
                };
            let (q, term) = choose|partial: T, term: T|
                #![trigger arithmetic::sum(partial, term, y)]
                {
                    &&& arithmetic::affine(p, mw, mv, partial)
                    &&& arithmetic::product(more_weights.last(), more_values.last(), term)
                    &&& arithmetic::sum(partial, term, y)
                };
            law_a_sum_continues(bias, weights, values, mw, mv, q);
            assert(arithmetic::affine(bias, weights, values, p));
            assert(arithmetic::affine(bias, w.drop_last(), v.drop_last(), q));
            assert(arithmetic::sum(q, term, y));
        }
    }
}

/// Zero times anything is zero.
pub open spec fn zero_absorbs<T: Arithmetic>() -> bool {
    forall|zero: T, x: T, y: T|
        arithmetic::literal(0, zero) && #[trigger] arithmetic::product(zero, x, y)
            ==> arithmetic::literal(0, y)
}

/// Adding zero changes nothing.
pub open spec fn zero_adds_nothing<T: Arithmetic>() -> bool {
    forall|x: T, zero: T, y: T|
        arithmetic::literal(0, zero) && #[trigger] arithmetic::sum(x, zero, y) ==> y == x
}

/// Where zero absorbs and adds nothing, values with a weight of zero have no
/// part in a weighted sum.
pub proof fn law_zero_weights_read_nothing<T: Arithmetic>(
    bias: T,
    weights: Seq<T>,
    values: Seq<T>,
    y: T,
)
    requires
        zero_absorbs::<T>(),
        zero_adds_nothing::<T>(),
        weights.len() == values.len(),
        forall|k: int| 0 <= k < weights.len() ==> arithmetic::literal(0, #[trigger] weights[k]),
        arithmetic::affine(bias, weights, values, y),
    ensures
        y == bias,
    decreases weights.len(),
{
    if weights.len() > 0 {
        let (w, v) = (weights.drop_last(), values.drop_last());
        let (partial, term) = choose|partial: T, term: T|
            #![trigger arithmetic::sum(partial, term, y)]
            {
                &&& arithmetic::affine(bias, w, v, partial)
                &&& arithmetic::product(weights.last(), values.last(), term)
                &&& arithmetic::sum(partial, term, y)
            };
        law_zero_weights_read_nothing(bias, w, v, partial);
        assert(arithmetic::literal(0, weights.last()));
    }
}

/// Whoever negates, raises, adds one and divides one by the result has the
/// logistic function.
pub proof fn law_the_logistic_function_by_hand<T: Arithmetic>(
    x: T,
    one: T,
    negative: T,
    power: T,
    denominator: T,
    by_hand: T,
    y: T,
)
    requires
        arithmetic::deterministic::<T>(),
        arithmetic::literal(1, one),
        arithmetic::negation(x, negative),
        arithmetic::exponential(negative, power),
        arithmetic::sum(one, power, denominator),
        arithmetic::quotient(one, denominator, by_hand),
        arithmetic::logistic(x, y),
    ensures
        y == by_hand,
{
}

} // verus!
