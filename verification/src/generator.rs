//! The incremental generator: one prime per step, found by trial division
//! against the primes already produced.

use crate::primality::{
    as_ints, divides, is_prime, least_prime_in, lemma_even_not_prime, lemma_least_prime_in,
    lemma_least_prime_is, lemma_least_prime_none, lemma_no_primes_below_two,
    lemma_prime_by_trial_division, lemma_primes_below_gap, lemma_primes_below_lists,
    lemma_primes_from_by_least, lists_primes_below, primes_below, primes_from,
};
use vstd::prelude::*;

verus! {

/// A source of primes in ascending order, optionally up to (but not
/// including) a bound.
///
/// It keeps every prime it has produced; the most recent one is the last of
/// them. Once it has answered `None` it answers `None` for good.
#[derive(Debug)]
pub struct PrimeGen {
    below: Option<u32>,
    primes: Vec<u32>,
}

/// What a generator is, mathematically: its bound and what it has produced.
pub struct PrimeGenView {
    /// The exclusive upper bound, if there is one.
    pub bound: Option<u32>,
    /// The primes produced so far, oldest first.
    pub produced: Seq<int>,
}

impl PrimeGenView {
    /// The state before the first step.
    pub open spec fn fresh(bound: Option<u32>) -> Self {
        PrimeGenView { bound, produced: Seq::empty() }
    }

    /// One more than the largest value that can be produced: the bound, or
    /// where `u32` ends.
    pub open spec fn limit(self) -> int {
        match self.bound {
            Some(b) => b as int,
            None => 0x1_0000_0000,
        }
    }

    /// The first number not yet decided: two at the start, afterwards one
    /// more than the most recent prime.
    pub open spec fn horizon(self) -> int {
        if self.produced.len() == 0 {
            2
        } else {
            self.produced.last() + 1
        }
    }

    /// The states a generator can be in: it has produced exactly the primes
    /// up to the most recent one, and that one lies below the bound.
    pub open spec fn wf(self) -> bool {
        &&& self.produced == primes_below(self.horizon())
        &&& self.produced.len() > 0 ==> self.horizon() <= self.limit()
    }

    /// The prime that the next step produces, if any: the least one that is
    /// not yet decided and lies below the limit.
    pub open spec fn upcoming(self) -> Option<int> {
        least_prime_in(self.horizon(), self.limit())
    }

    /// The state after the next step: the upcoming prime joins what was
    /// produced; with none upcoming nothing changes.
    pub open spec fn advanced(self) -> Self {
        match self.upcoming() {
            Some(p) => PrimeGenView { bound: self.bound, produced: self.produced.push(p) },
            None => self,
        }
    }

    /// Everything that is still to come, in order.
    pub open spec fn remaining(self) -> Seq<int> {
        primes_from(self.horizon(), self.limit())
    }
}

impl View for PrimeGen {
    type V = PrimeGenView;

    closed spec fn view(&self) -> PrimeGenView {
        PrimeGenView { bound: self.below, produced: as_ints(self.primes@) }
    }
}

impl PrimeGen {
    #[verifier::type_invariant]
    spec fn inv(&self) -> bool {
        self@.wf()
    }

    /// A generator that has produced nothing yet.
    pub fn new(below: Option<u32>) -> (generator: Self)
        ensures
            generator@ == PrimeGenView::fresh(below),
            generator@.wf(),
    {
        let primes: Vec<u32> = Vec::new();
        proof {
            lemma_no_primes_below_two();
            assert(as_ints(primes@) == Seq::<int>::empty());
        }
        PrimeGen { below, primes }
    }

    /// Whether one of the recorded primes up to the candidate's square root
    /// divides it, which is to say whether the candidate is composite.
    fn has_recorded_divisor(&self, candidate: u32) -> (found: bool)
        requires
            2 <= candidate,
            self@.produced == primes_below(candidate as int),
        ensures
            found == !is_prime(candidate as int),
    {
        proof {
            lemma_primes_below_lists(candidate as int);
        }
        let ghost recorded = self@.produced;
        let mut i: usize = 0;
        while i < self.primes.len()
            invariant
                2 <= candidate,
                i <= self.primes.len(),
                recorded == as_ints(self.primes@),
                lists_primes_below(recorded, candidate as int),
                forall|j: int|
                    0 <= j < i ==> !divides(#[trigger] recorded[j], candidate as int),
            ensures
                i <= self.primes.len(),
                forall|j: int|
                    0 <= j < i ==> !divides(#[trigger] recorded[j], candidate as int),
                i < self.primes.len() ==> recorded[i as int] * recorded[i as int] > candidate,
            decreases self.primes.len() - i,
        {
            let p = self.primes[i];
            proof {
                assert(p == recorded[i as int]);
                assert(is_prime(p as int));
                assert(p * p <= 0xffff_ffff * 0xffff_ffff) by (nonlinear_arith)
                    requires
                        0 <= p <= 0xffff_ffff,
                ;
            }
            if (p as u64) * (p as u64) > candidate as u64 {
                break ;
            }
            if candidate % p == 0 {
                proof {
                    assert(p < candidate) by (nonlinear_arith)
                        requires
                            p * p <= candidate,
                            2 <= p,
                    ;
                    assert(divides(p as int, candidate as int));
                }
                return true;
            }
            i = i + 1;
        }
        proof {
            assert forall|q: int| is_prime(q) && q * q <= candidate implies !#[trigger] divides(
                q,
                candidate as int,
            ) by {
                assert(q < candidate) by (nonlinear_arith)
                    requires
                        q * q <= candidate,
                        2 <= q,
                ;
                assert(recorded.contains(q));
                let j = choose|j: int| 0 <= j < recorded.len() && recorded[j] == q;
                if j >= i {
                    assert(recorded[i as int] <= q);
                    let r = recorded[i as int];
                    assert(r * r <= q * q) by (nonlinear_arith)
                        requires
                            0 <= r <= q,
                    ;
                }
            }
            lemma_prime_by_trial_division(candidate as int);
        }
        false
    }

    /// Appends a newly found prime to the history.
    fn record(&mut self, prime: u32)
        requires
            old(self)@.upcoming() == Some(prime as int),
        ensures
            final(self)@ == old(self)@.advanced(),
    {
        proof {
            use_type_invariant(&*self);
            lemma_advanced_wf(self@);
        }
        let mut primes: Vec<u32> = Vec::new();
        proof {
            lemma_no_primes_below_two();
            assert(as_ints(primes@) == primes_below(2));
        }
        std::mem::swap(&mut primes, &mut self.primes);
        primes.push(prime);
        proof {
            assert(as_ints(primes@) == as_ints(old(self).primes@).push(prime as int));
        }
        self.primes = primes;
    }

    /// Produces the next prime, or `None` when no further prime lies below
    /// the bound (or, without a bound, fits in `u32`).
    ///
    /// The first prime is two. After that only odd candidates are tried, from
    /// two past the most recent prime upwards; a candidate that no recorded
    /// prime up to its square root divides is the next prime. The square-root
    /// test is the exact integer comparison `p * p <= candidate`.
    pub fn next(&mut self) -> (next: Option<u32>)
        ensures
            match next {
                Some(p) => old(self)@.upcoming() == Some(p as int),
                None => old(self)@.upcoming() is None,
            },
            final(self)@ == old(self)@.advanced(),
            final(self)@.wf(),
    {
        proof {
            use_type_invariant(&*self);
            lemma_advanced_wf(self@);
            lemma_primes_below_lists(self@.horizon());
        }
        let count = self.primes.len();
        let mut candidate: u32 = 2;
        if count > 0 {
            let last = self.primes[count - 1];
            proof {
                assert(last == self@.produced[count - 1]);
                if last % 2 == 0 && last != 2 {
                    lemma_even_not_prime(last as int);
                }
            }
            if last == 2 {
                candidate = 3;
            } else {
                match last.checked_add(2) {
                    Some(c) => {
                        proof {
                            lemma_even_not_prime(last + 1);
                        }
                        candidate = c;
                    },
                    None => {
                        proof {
                            lemma_least_prime_none(self@.horizon(), self@.limit());
                        }
                        return None;
                    },
                }
            }
        }
        loop
            invariant
                *self == *old(self),
                self@.wf(),
                2 <= self@.horizon() <= candidate,
                candidate == 2 || candidate % 2 == 1,
                forall|k: int| self@.horizon() <= k < candidate ==> !is_prime(k),
            decreases u32::MAX - candidate,
        {
            if let Some(bound) = self.below {
                if bound <= candidate {
                    proof {
                        lemma_least_prime_none(self@.horizon(), self@.limit());
                    }
                    return None;
                }
            }
            proof {
                lemma_primes_below_gap(self@.horizon(), candidate as int);
            }
            if !self.has_recorded_divisor(candidate) {
                proof {
                    lemma_least_prime_is(self@.horizon(), self@.limit(), candidate as int);
                }
                self.record(candidate);
                return Some(candidate);
            }
            match candidate.checked_add(2) {
                Some(c) => {
                    proof {
                        lemma_even_not_prime(candidate + 1);
                    }
                    candidate = c;
                },
                None => {
                    proof {
                        lemma_least_prime_none(self@.horizon(), self@.limit());
                    }
                    return None;
                },
            }
        }
    }

    /// Runs the generator to its end and returns what it produced on the
    /// way, in order. Without a bound that is every remaining prime that
    /// fits in `u32`.
    pub fn collect_all(self) -> (rest: Vec<u32>)
        ensures
            as_ints(rest@) == self@.remaining(),
    {
        let mut source = self;
        let mut rest: Vec<u32> = Vec::new();
        proof {
            assert(as_ints(rest@) + source@.remaining() == self@.remaining());
        }
        loop
            invariant
                as_ints(rest@) + source@.remaining() == self@.remaining(),
            decreases source@.limit() - source@.horizon(),
        {
            let ghost before = source@;
            let ghost collected = as_ints(rest@);
            proof {
                lemma_least_prime_in(before.horizon(), before.limit());
                lemma_remaining_by_steps(before);
            }
            match source.next() {
                Some(p) => {
                    rest.push(p);
                    proof {
                        assert(as_ints(rest@) == collected.push(p as int));
                        let ahead = source@.remaining();
                        assert(collected.push(p as int) + ahead == collected + (seq![p as int]
                            + ahead));
                    }
                },
                None => {
                    proof {
                        assert(collected + before.remaining() == collected);
                    }
                    return rest;
                },
            }
        }
    }
}

/// A step keeps the generator in a state it can be in.
pub proof fn lemma_advanced_wf(state: PrimeGenView)
    requires
        state.wf(),
    ensures
        state.advanced().wf(),
{
    lemma_least_prime_in(state.horizon(), state.limit());
    if let Some(p) = state.upcoming() {
        lemma_primes_below_gap(state.horizon(), p);
        assert(primes_below(p + 1) == primes_below(p).push(p));
    }
}

/// What is still to come is the upcoming prime followed by what is still to
/// come after the step; with none upcoming, nothing is.
pub proof fn lemma_remaining_by_steps(state: PrimeGenView)
    ensures
        state.remaining() == match state.upcoming() {
            Some(p) => seq![p] + state.advanced().remaining(),
            None => Seq::empty(),
        },
{
    lemma_primes_from_by_least(state.horizon(), state.limit());
}

} // verus!
