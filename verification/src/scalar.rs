//! The arithmetic a network computes with.
//!
//! The network never looks inside a number. It is handed a type that can
//! add, subtract, multiply, divide and exponentiate, and everything it
//! promises is phrased as "this value is what that operation returned on
//! those operands". Nothing is assumed about the operations themselves: they
//! need not be exact, associative, or even repeatable.

use vstd::prelude::*;

verus! {

/// A number the network can compute with.
///
/// The methods carry no contract. What the library states about a result is
/// that it came out of a given call, written with the predicates below.
pub trait Scalar: Copy {
    /// The number that stands for the integer `value`.
    fn from_i32(value: i32) -> Self;

    /// The number that stands for the count `value`.
    fn from_usize(value: usize) -> Self;

    /// `self + rhs`.
    fn plus(self, rhs: Self) -> Self;

    /// `self - rhs`.
    fn minus(self, rhs: Self) -> Self;

    /// `self * rhs`.
    fn times(self, rhs: Self) -> Self;

    /// `self / rhs`.
    fn over(self, rhs: Self) -> Self;

    /// Euler's number raised to `self`.
    fn exp(self) -> Self;
}

/// A source of initial weights; each call is expected to draw one value
/// uniformly from the unit interval. Nothing is known of what it returns.
pub trait Sampler<S> {
    /// Draws the next value.
    fn sample(&mut self) -> S;
}

/// `k` is one of the first `n` indices.
pub open spec fn is_index(k: int, n: int) -> bool {
    0 <= k < n
}

/// `r` is a value that `S::from_i32` can return for the integer `value`.
#[verifier::inline]
pub open spec fn is_int<S: Scalar>(value: int, r: S) -> bool
    recommends
        i32::MIN <= value <= i32::MAX,
{
    call_ensures(S::from_i32, (value as i32,), r)
}

/// `r` is a value that `S::from_usize(value)` can return.
#[verifier::inline]
pub open spec fn is_count<S: Scalar>(value: usize, r: S) -> bool {
    call_ensures(S::from_usize, (value,), r)
}

/// `r` is a value that `a.plus(b)` can return.
#[verifier::inline]
pub open spec fn is_sum<S: Scalar>(a: S, b: S, r: S) -> bool {
    call_ensures(S::plus, (a, b), r)
}

/// `r` is a value that `a.minus(b)` can return.
#[verifier::inline]
pub open spec fn is_difference<S: Scalar>(a: S, b: S, r: S) -> bool {
    call_ensures(S::minus, (a, b), r)
}

/// `r` is a value that `a.times(b)` can return.
#[verifier::inline]
pub open spec fn is_product<S: Scalar>(a: S, b: S, r: S) -> bool {
    call_ensures(S::times, (a, b), r)
}

/// `r` is a value that `a.over(b)` can return.
#[verifier::inline]
pub open spec fn is_quotient<S: Scalar>(a: S, b: S, r: S) -> bool {
    call_ensures(S::over, (a, b), r)
}

/// `r` is a value that `a.exp()` can return.
#[verifier::inline]
pub open spec fn is_exp<S: Scalar>(a: S, r: S) -> bool {
    call_ensures(S::exp, (a,), r)
}

/// `r` is `-1 * x`: the product of the number for -1 with `x`.
pub open spec fn is_negation<S: Scalar>(x: S, r: S) -> bool {
    exists|minus_one: S| is_int(-1, minus_one) && is_product(minus_one, x, r)
}

/// `r` is the logistic sigmoid of `x`, computed as `1 / (1 + exp(-x))`.
pub open spec fn is_sigmoid<S: Scalar>(x: S, r: S) -> bool {
    exists|negated: S, power: S, one: S, denominator: S|
        is_negation(x, negated) && is_exp(negated, power) && is_int(1, one) && is_sum(
            one,
            power,
            denominator,
        ) && is_quotient(one, denominator, r)
}

/// `partial` lists the running totals of adding `terms`, in order, onto
/// `start`: it begins with `start` and each entry is the one before plus the
/// next term.
pub open spec fn is_running_sum<S: Scalar>(start: S, terms: Seq<S>, partial: Seq<S>) -> bool {
    &&& partial.len() == terms.len() + 1
    &&& partial[0] == start
    &&& forall|i: int|
        0 <= i < terms.len() ==> is_sum(partial[i], terms[i], #[trigger] partial[i + 1])
}

/// `r` is `start + terms[0] + terms[1] + ...`, added left to right.
pub open spec fn is_total<S: Scalar>(start: S, terms: Seq<S>, r: S) -> bool {
    exists|partial: Seq<S>| #[trigger] is_running_sum(start, terms, partial) && partial.last() == r
}

/// `r` is the arithmetic mean of `terms`: they are added left to right
/// onto the number for 0 and the total is divided by the number for their
/// count.
pub open spec fn is_mean<S: Scalar>(terms: Seq<S>, r: S) -> bool {
    exists|zero: S, total: S, count: S|
        is_int(0, zero) && is_total(zero, terms, total) && is_count(terms.len() as usize, count)
            && is_quotient(total, count, r)
}

/// Draws one value from `sampler`: the result is what the call of `sample`
/// returned that took the sampler from its old state to its new one.
pub fn draw<S, R: Sampler<S>>(sampler: &mut R) -> (value: S)
    ensures
        exists|m: &mut R|
            mut_ref_current(m) == *old(sampler) && mut_ref_future(m) == *final(sampler)
                && #[trigger] call_ensures(R::sample, (m,), value),
{
    sampler.sample()
}

/// Computes `-1 * x`.
pub fn negate<S: Scalar>(x: S) -> (r: S)
    ensures
        is_negation(x, r),
{
    let minus_one = S::from_i32(-1);
    minus_one.times(x)
}

/// The logistic sigmoid `1 / (1 + exp(-x))`.
pub fn sigmoid<S: Scalar>(x: S) -> (r: S)
    ensures
        is_sigmoid(x, r),
{
    let negated = negate(x);
    let power = negated.exp();
    let one = S::from_i32(1);
    let denominator = one.plus(power);
    one.over(denominator)
}

/// The arithmetic mean of `terms`.
pub fn mean<S: Scalar>(terms: &Vec<S>) -> (r: S)
    ensures
        is_mean(terms@, r),
{
    let zero = S::from_i32(0);
    let mut total = zero;
    let ghost mut partial: Seq<S> = seq![zero];
    let mut i: usize = 0;
    while i < terms.len()
        invariant
            i <= terms.len(),
            is_running_sum(zero, terms@.take(i as int), partial),
            partial.last() == total,
        decreases terms.len() - i,
    {
        let next = total.plus(terms[i]);
        proof {
            let longer = partial.push(next);
            assert(terms@.take(i + 1) == terms@.take(i as int).push(terms@[i as int]));
            assert forall|k: int| 0 <= k < i + 1 implies is_sum(
                longer[k],
                terms@.take(i + 1)[k],
                #[trigger] longer[k + 1],
            ) by {
                if k < i {
                    assert(longer[k + 1] == partial[k + 1]);
                }
            }
            partial = longer;
        }
        total = next;
        i += 1;
    }
    let count = S::from_usize(terms.len());
    let r = total.over(count);
    proof {
        assert(terms@.take(i as int) == terms@);
        assert(is_running_sum(zero, terms@, partial));
        assert(is_total(zero, terms@, total));
        assert(terms@.len() as usize == terms.len());
        assert(is_int(0, zero) && is_total(zero, terms@, total) && is_count(
            terms@.len() as usize,
            count,
        ) && is_quotient(total, count, r));
    }
    r
}

} // verus!
