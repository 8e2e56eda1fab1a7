//! What holds of the sieve and the generator together, and of every state
//! of the generator.

use crate::generator::{lemma_remaining_by_steps, PrimeGenView};
use crate::primality::{
    as_ints, is_prime, lemma_as_ints_injective, lemma_least_prime_in, lemma_no_primes_below_two,
    lemma_prime_list_unique, lemma_primes_below_lists, lemma_primes_below_then_from,
    lists_primes_below, primes_below, primes_from,
};
use crate::sieve::PrimeSieve;
use vstd::prelude::*;

verus! {

/// A fresh generator with a bound, run to its end, lists what the sieve
/// lists for that bound.
pub proof fn lemma_fresh_generator_lists_primes_below(bound: u32)
    ensures
        PrimeGenView::fresh(Some(bound)).remaining() == primes_below(bound as int),
{
    lemma_no_primes_below_two();
    if bound >= 2 {
        lemma_primes_below_then_from(2, bound as int);
        assert(Seq::<int>::empty() + primes_from(2, bound as int) == primes_from(2, bound as int));
    } else {
        assert(primes_from(2, bound as int) == Seq::<int>::empty());
    }
}

/// The sieve's answer for a bound and what a fresh generator with that bound
/// yields when run to its end are the same list, element for element.
pub proof fn lemma_sieve_equals_collected_generator(
    bound: u32,
    sieve: PrimeSieve,
    collected: Vec<u32>,
)
    requires
        sieve@ == primes_below(bound as int),
        as_ints(collected@) == PrimeGenView::fresh(Some(bound)).remaining(),
    ensures
        sieve.0@ == collected@,
{
    lemma_fresh_generator_lists_primes_below(bound);
    lemma_as_ints_injective(sieve.0@, collected@);
}

/// Sieving twice with one bound gives one list: what the sieve promises
/// leaves no choice.
pub proof fn lemma_sieve_is_deterministic(bound: u32, first: PrimeSieve, second: PrimeSieve)
    requires
        lists_primes_below(first@, bound as int),
        lists_primes_below(second@, bound as int),
    ensures
        first.0@ == second.0@,
{
    lemma_prime_list_unique(first@, bound as int);
    lemma_prime_list_unique(second@, bound as int);
    lemma_as_ints_injective(first.0@, second.0@);
}

/// In every state of the generator what it has produced is strictly
/// ascending and holds only primes, all below its limit; and it holds every
/// prime up to the most recent one.
pub proof fn lemma_produced_is_ascending_primes(state: PrimeGenView)
    requires
        state.wf(),
    ensures
        lists_primes_below(state.produced, state.horizon()),
        forall|i: int|
            0 <= i < state.produced.len() ==> #[trigger] state.produced[i] < state.limit(),
{
    lemma_primes_below_lists(state.horizon());
}

/// Each step yields a prime below the limit that is larger than everything
/// produced before, and skips no prime on the way.
pub proof fn lemma_steps_ascend_without_gaps(state: PrimeGenView, p: int)
    requires
        state.wf(),
        state.upcoming() == Some(p),
    ensures
        is_prime(p),
        p < state.limit(),
        forall|i: int| 0 <= i < state.produced.len() ==> #[trigger] state.produced[i] < p,
        forall|k: int| state.horizon() <= k < p ==> !is_prime(k),
{
    lemma_least_prime_in(state.horizon(), state.limit());
    lemma_primes_below_lists(state.horizon());
}

/// A generator that has run out stays run out: the step that yields nothing
/// leaves the state as it was, and nothing is still to come.
pub proof fn lemma_exhausted_for_good(state: PrimeGenView)
    requires
        state.upcoming() is None,
    ensures
        state.advanced() == state,
        state.advanced().upcoming() is None,
        state.remaining() == Seq::<int>::empty(),
{
    lemma_remaining_by_steps(state);
}

} // verus!
