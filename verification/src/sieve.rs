//! The batch sieve: all primes below a bound in one call.

use crate::primality::{
    as_ints, divides, is_prime, lemma_cofactor, lemma_divides_transitive,
    lemma_no_primes_below_two, lemma_primes_below_lists, lists_primes_below, primes_below,
};
use vstd::arithmetic::div_mod::{
    lemma_fundamental_div_mod, lemma_fundamental_div_mod_converse,
    lemma_mod_add_multiples_vanish, lemma_mod_multiples_basic,
};
use vstd::prelude::*;

verus! {

/// The primes below a bound, ascending. Wraps a `Vec`, so that the list is at hand as `.0`.
#[derive(Debug)]
pub struct PrimeSieve(pub Vec<u32>);

impl View for PrimeSieve {
    type V = Seq<int>;

    open spec fn view(&self) -> Seq<int> {
        as_ints(self.0@)
    }
}

/// What a marker says while the sieve runs: `k` is at least two, and nothing
/// in `2 .. done` that is smaller than `k` divides it.
spec fn unstruck(k: int, done: int) -> bool {
    &&& 2 <= k
    &&& forall|d: int| 2 <= d < done && d < k ==> !#[trigger] divides(d, k)
}

/// Striking the multiples of `i` from `i * i` on takes the markers from
/// "nothing below `i` divides" to "nothing below `i + 1` divides": a smaller
/// multiple of `i` has a cofactor below `i` and was struck before.
proof fn lemma_strike_from_square(k: int, i: int)
    requires
        2 <= i,
    ensures
        unstruck(k, i + 1) == (unstruck(k, i) && !(i * i <= k && divides(i, k))),
{
    assert(i * i > i) by (nonlinear_arith)
        requires
            2 <= i,
    ;
    if unstruck(k, i) && i < k && divides(i, k) {
        lemma_cofactor(i, k);
        let q = k / i;
        assert(q >= i || i * i > k) by (nonlinear_arith)
            requires
                k == i * q,
                0 < i,
        ;
        if i * i > k {
            assert(2 <= q < i) by (nonlinear_arith)
                requires
                    k == i * q,
                    i * i > k,
                    i < k,
                    0 < q,
                    2 <= i,
            ;
            assert(q < k);
            assert(divides(q, k));
            assert(false);
        }
    }
}

/// A number that is not prime has nothing to strike: each of its multiples
/// is a multiple of something smaller.
proof fn lemma_nothing_to_strike(k: int, i: int)
    requires
        0 <= i,
        !is_prime(i),
    ensures
        unstruck(k, i + 1) == unstruck(k, i),
{
    if 2 <= i && unstruck(k, i) && i < k && divides(i, k) {
        let d = choose|d: int| 1 < d < i && #[trigger] divides(d, i);
        lemma_divides_transitive(d, i, k);
        assert(false);
    }
}

/// Between one multiple of `i` and the next there is none.
proof fn lemma_next_multiple(i: int, j: int, k: int)
    requires
        0 < i,
        0 <= j,
        divides(i, j),
        j < k < j + i,
    ensures
        !divides(i, k),
        divides(i, j + i),
{
    lemma_cofactor_or_zero(i, j);
    lemma_fundamental_div_mod_converse(k, i, j / i, k - j);
    lemma_mod_add_multiples_vanish(j, i);
}

/// A non-negative multiple of `i` is `i` times its quotient.
proof fn lemma_cofactor_or_zero(i: int, j: int)
    requires
        0 < i,
        0 <= j,
        divides(i, j),
    ensures
        j == (j / i) * i,
{
    lemma_fundamental_div_mod(j, i);
    assert(i * (j / i) == (j / i) * i) by (nonlinear_arith);
}

impl PrimeSieve {
    /// Sieves out the primes below `below`.
    ///
    /// A marker per number starts as "candidate" for everything from two on.
    /// Walking upwards, a number whose marker still stands is a prime; it is
    /// recorded, and its multiples from its square on are struck. Squares are
    /// computed in 64 bits, so no bound overflows.
    pub fn new(below: u32) -> (sieve: Self)
        ensures
            sieve@ == primes_below(below as int),
            lists_primes_below(sieve@, below as int),
    {
        proof {
            lemma_primes_below_lists(below as int);
        }
        let mut primes: Vec<u32> = Vec::new();
        if below <= 2 {
            proof {
                lemma_no_primes_below_two();
                assert(as_ints(primes@) == primes_below(below as int));
            }
            return PrimeSieve(primes);
        }
        let n: usize = below as usize;
        let mut marks: Vec<bool> = vec![true; n];
        marks.set(0, false);
        marks.set(1, false);
        proof {
            assert(as_ints(primes@) == primes_below(0));
        }
        let mut idx: usize = 0;
        while idx < n
            invariant
                n == below,
                marks.len() == n,
                idx <= n,
                forall|k: int| 0 <= k < n ==> marks@[k] == unstruck(k, idx as int),
                as_ints(primes@) == primes_below(idx as int),
            decreases n - idx,
        {
            let ghost before = marks@;
            assert(unstruck(idx as int, idx as int) == is_prime(idx as int));
            if marks[idx] {
                proof {
                    assert(idx * idx <= 0xffff_ffff * 0xffff_ffff) by (nonlinear_arith)
                        requires
                            0 <= idx <= 0xffff_ffff,
                    ;
                    lemma_mod_multiples_basic(idx as int, idx as int);
                }
                let square: u64 = (idx as u64) * (idx as u64);
                let mut at: u64 = square;
                while at < n as u64
                    invariant
                        n == below,
                        marks.len() == n,
                        2 <= idx < n,
                        before.len() == n,
                        square == idx * idx,
                        square <= at,
                        divides(idx as int, at as int),
                        forall|k: int| 0 <= k < n ==> marks@[k] == (before[k] && !(square <= k < at
                            && divides(idx as int, k))),
                    decreases n + idx - at,
                {
                    let ghost struck = at;
                    marks.set(at as usize, false);
                    at = at + idx as u64;
                    proof {
                        assert forall|k: int| 0 <= k < n implies marks@[k] == (before[k] && !(square
                            <= k < at && divides(idx as int, k))) by {
                            if struck < k < at {
                                lemma_next_multiple(idx as int, struck as int, k);
                            }
                        }
                        lemma_next_multiple(idx as int, struck as int, struck + 1);
                    }
                }
                proof {
                    assert forall|k: int| 0 <= k < n implies marks@[k] == unstruck(
                        k,
                        idx + 1,
                    ) by {
                        lemma_strike_from_square(k, idx as int);
                    }
                    assert(as_ints(primes@.push(idx as u32)) == as_ints(primes@).push(idx as int));
                }
                primes.push(idx as u32);
            } else {
                proof {
                    assert forall|k: int| 0 <= k < n implies marks@[k] == unstruck(
                        k,
                        idx + 1,
                    ) by {
                        lemma_nothing_to_strike(k, idx as int);
                    }
                }
            }
            idx = idx + 1;
        }
        PrimeSieve(primes)
    }
}

} // verus!
