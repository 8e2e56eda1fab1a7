//! The mathematical model: divisibility, primality, and the ascending list of
//! the primes below a bound, with the facts the sieve and the generator rest on.

use vstd::arithmetic::div_mod::{lemma_fundamental_div_mod, lemma_fundamental_div_mod_converse};
use vstd::prelude::*;

verus! {

/// `d` divides `n` without remainder.
pub open spec fn divides(d: int, n: int) -> bool {
    d != 0 && n % d == 0
}

/// `n` is prime: greater than one, and nothing strictly between one and `n` divides it.
pub open spec fn is_prime(n: int) -> bool {
    &&& 1 < n
    &&& forall|d: int| 1 < d < n ==> !#[trigger] divides(d, n)
}

/// The primes strictly below `bound`, in ascending order.
pub open spec fn primes_below(bound: int) -> Seq<int>
    decreases bound,
{
    if bound <= 0 {
        Seq::empty()
    } else if is_prime(bound - 1) {
        primes_below(bound - 1).push(bound - 1)
    } else {
        primes_below(bound - 1)
    }
}

/// `s` is strictly ascending, holds only primes below `bound`, and misses none of them.
pub open spec fn lists_primes_below(s: Seq<int>, bound: int) -> bool {
    &&& forall|i: int, j: int| 0 <= i < j < s.len() ==> s[i] < s[j]
    &&& forall|i: int| 0 <= i < s.len() ==> #[trigger] s[i] < bound && is_prime(s[i])
    &&& forall|p: int| is_prime(p) && p < bound ==> s.contains(p)
}

/// The least prime `p` with `lo <= p < hi`, if there is one.
pub open spec fn least_prime_in(lo: int, hi: int) -> Option<int>
    decreases hi - lo,
{
    if lo >= hi {
        None
    } else if is_prime(lo) {
        Some(lo)
    } else {
        least_prime_in(lo + 1, hi)
    }
}

/// The primes `p` with `lo <= p < hi`, in ascending order.
pub open spec fn primes_from(lo: int, hi: int) -> Seq<int>
    decreases hi - lo,
{
    if lo >= hi {
        Seq::empty()
    } else if is_prime(lo) {
        seq![lo] + primes_from(lo + 1, hi)
    } else {
        primes_from(lo + 1, hi)
    }
}

/// A list of machine integers read as mathematical integers.
pub open spec fn as_ints(s: Seq<u32>) -> Seq<int> {
    s.map_values(|p: u32| p as int)
}

/// Reading as mathematical integers loses nothing: lists that read the same are the same.
pub proof fn lemma_as_ints_injective(a: Seq<u32>, b: Seq<u32>)
    requires
        as_ints(a) == as_ints(b),
    ensures
        a == b,
{
    assert(a.len() == as_ints(a).len());
    assert(b.len() == as_ints(b).len());
    assert forall|i: int| 0 <= i < a.len() implies a[i] == b[i] by {
        assert(as_ints(a)[i] == a[i] as int);
        assert(as_ints(b)[i] == b[i] as int);
    }
    assert(a =~= b);
}

/// A multiple of `d` is `d` times its quotient, and the quotient divides it too.
pub proof fn lemma_cofactor(d: int, n: int)
    requires
        0 < d,
        0 < n,
        divides(d, n),
    ensures
        n == d * (n / d),
        0 < n / d <= n,
        divides(n / d, n),
{
    let q = n / d;
    lemma_fundamental_div_mod(n, d);
    assert(n == d * q);
    assert(0 < q <= n) by (nonlinear_arith)
        requires
            n == d * q,
            0 < d,
            0 < n,
    ;
    lemma_fundamental_div_mod_converse(n, q, d, 0);
}

/// Divisibility is transitive.
pub proof fn lemma_divides_transitive(a: int, b: int, c: int)
    requires
        0 < a,
        0 < b,
        0 < c,
        divides(a, b),
        divides(b, c),
    ensures
        divides(a, c),
{
    lemma_cofactor(a, b);
    lemma_cofactor(b, c);
    let x = b / a;
    let y = c / b;
    assert(c == (y * x) * a) by (nonlinear_arith)
        requires
            c == b * y,
            b == a * x,
    ;
    lemma_fundamental_div_mod_converse(c, a, y * x, 0);
}

/// Among the numbers in `from ..= n` the least divisor of `n`, when nothing in
/// `2 .. from` divides it.
proof fn lemma_least_divisor(n: int, from: int) -> (d: int)
    requires
        2 <= from <= n,
        forall|j: int| 2 <= j < from ==> !#[trigger] divides(j, n),
    ensures
        from <= d <= n,
        divides(d, n),
        forall|j: int| 2 <= j < d ==> !#[trigger] divides(j, n),
    decreases n - from,
{
    if divides(from, n) {
        from
    } else {
        assert(from < n) by {
            lemma_fundamental_div_mod_converse(n, n, 1, 0);
        }
        lemma_least_divisor(n, from + 1)
    }
}

/// A composite number has a prime factor no larger than its square root.
pub proof fn lemma_small_prime_factor(n: int) -> (p: int)
    requires
        1 < n,
        !is_prime(n),
    ensures
        is_prime(p),
        divides(p, n),
        p * p <= n,
{
    let p = lemma_least_divisor(n, 2);
    let witness = choose|d: int| 1 < d < n && #[trigger] divides(d, n);
    assert(p <= witness);
    assert forall|d: int| 1 < d < p implies !#[trigger] divides(d, p) by {
        if divides(d, p) {
            lemma_divides_transitive(d, p, n);
        }
    }
    lemma_cofactor(p, n);
    let q = n / p;
    assert(q != 1) by (nonlinear_arith)
        requires
            n == p * q,
            p < n,
    ;
    assert(q >= p);
    assert(p * p <= n) by (nonlinear_arith)
        requires
            n == p * q,
            q >= p,
            p > 0,
    ;
    p
}

/// A number above one that no prime up to its square root divides is prime.
pub proof fn lemma_prime_by_trial_division(n: int)
    requires
        1 < n,
        forall|p: int| is_prime(p) && p * p <= n ==> !#[trigger] divides(p, n),
    ensures
        is_prime(n),
{
    if !is_prime(n) {
        let p = lemma_small_prime_factor(n);
        assert(divides(p, n));
    }
}

/// An even number above two is not prime.
pub proof fn lemma_even_not_prime(n: int)
    requires
        2 < n,
        n % 2 == 0,
    ensures
        !is_prime(n),
{
    assert(divides(2, n));
}

/// Two is the least prime: below it the list is empty.
pub proof fn lemma_no_primes_below_two()
    ensures
        primes_below(2) == Seq::<int>::empty(),
        primes_below(1) == Seq::<int>::empty(),
        primes_below(0) == Seq::<int>::empty(),
{
    reveal_with_fuel(primes_below, 3);
    assert(!is_prime(1));
    assert(!is_prime(0));
}

/// `primes_below(bound)` is strictly ascending, holds only primes below
/// `bound`, and holds every one of them.
pub proof fn lemma_primes_below_lists(bound: int)
    ensures
        lists_primes_below(primes_below(bound), bound),
    decreases bound,
{
    if bound > 0 {
        lemma_primes_below_lists(bound - 1);
        let rest = primes_below(bound - 1);
        let all = primes_below(bound);
        assert forall|p: int| is_prime(p) && p < bound implies all.contains(p) by {
            if p < bound - 1 {
                let i = choose|i: int| 0 <= i < rest.len() && rest[i] == p;
                assert(all[i] == p);
            } else {
                assert(all[all.len() - 1] == p);
            }
        }
    }
}

/// Raising the bound across a stretch without primes changes nothing.
pub proof fn lemma_primes_below_gap(lo: int, hi: int)
    requires
        lo <= hi,
        forall|k: int| lo <= k < hi ==> !is_prime(k),
    ensures
        primes_below(hi) == primes_below(lo),
    decreases hi - lo,
{
    if lo < hi {
        lemma_primes_below_gap(lo, hi - 1);
    }
}

/// Only one list is strictly ascending, holds only primes below `bound` and
/// holds all of them.
pub proof fn lemma_prime_list_unique(s: Seq<int>, bound: int)
    requires
        lists_primes_below(s, bound),
    ensures
        s == primes_below(bound),
    decreases bound,
{
    if bound <= 0 {
        if s.len() > 0 {
            assert(is_prime(s[0]));
        }
        assert(s == Seq::<int>::empty());
    } else if is_prime(bound - 1) {
        assert(s.contains(bound - 1));
        let at = choose|i: int| 0 <= i < s.len() && s[i] == bound - 1;
        if at < s.len() - 1 {
            assert(s[at] < s[s.len() - 1]);
        }
        let front = s.drop_last();
        assert forall|p: int| is_prime(p) && p < bound - 1 implies front.contains(p) by {
            let i = choose|i: int| 0 <= i < s.len() && s[i] == p;
            assert(front[i] == p);
        }
        lemma_prime_list_unique(front, bound - 1);
        assert(s == front.push(bound - 1));
    } else {
        assert forall|i: int| 0 <= i < s.len() implies #[trigger] s[i] < bound - 1 by {
            assert(is_prime(s[i]));
        }
        lemma_prime_list_unique(s, bound - 1);
    }
}

/// `least_prime_in` is what its name says: a prime of the range with no
/// prime of the range before it, or nothing if the range holds no prime.
pub proof fn lemma_least_prime_in(lo: int, hi: int)
    ensures
        match least_prime_in(lo, hi) {
            Some(p) => lo <= p < hi && is_prime(p) && forall|k: int| lo <= k < p ==> !is_prime(k),
            None => forall|k: int| lo <= k < hi ==> !is_prime(k),
        },
    decreases hi - lo,
{
    if lo < hi && !is_prime(lo) {
        lemma_least_prime_in(lo + 1, hi);
    }
}

/// A prime of the range with no prime of the range before it is the least one.
pub proof fn lemma_least_prime_is(lo: int, hi: int, p: int)
    requires
        lo <= p < hi,
        is_prime(p),
        forall|k: int| lo <= k < p ==> !is_prime(k),
    ensures
        least_prime_in(lo, hi) == Some(p),
    decreases p - lo,
{
    if lo < p {
        lemma_least_prime_is(lo + 1, hi, p);
    }
}

/// A range without primes has no least prime.
pub proof fn lemma_least_prime_none(lo: int, hi: int)
    requires
        forall|k: int| lo <= k < hi ==> !is_prime(k),
    ensures
        least_prime_in(lo, hi) is None,
    decreases hi - lo,
{
    if lo < hi {
        lemma_least_prime_none(lo + 1, hi);
    }
}

/// Listing the primes of a range is taking the least one, again and again.
pub proof fn lemma_primes_from_by_least(lo: int, hi: int)
    ensures
        primes_from(lo, hi) == match least_prime_in(lo, hi) {
            Some(p) => seq![p] + primes_from(p + 1, hi),
            None => Seq::empty(),
        },
    decreases hi - lo,
{
    if lo < hi && !is_prime(lo) {
        lemma_primes_from_by_least(lo + 1, hi);
    }
}

/// The primes below `lo`, followed by those from `lo` up to `hi`, are the primes below `hi`.
pub proof fn lemma_primes_below_then_from(lo: int, hi: int)
    requires
        lo <= hi,
    ensures
        primes_below(lo) + primes_from(lo, hi) == primes_below(hi),
    decreases hi - lo,
{
    if lo < hi {
        lemma_primes_below_then_from(lo + 1, hi);
        let rest = primes_from(lo + 1, hi);
        if is_prime(lo) {
            assert(primes_below(lo + 1) == primes_below(lo).push(lo));
            assert(primes_below(lo).push(lo) + rest == primes_below(lo) + (seq![lo] + rest));
        } else {
            assert(primes_below(lo + 1) == primes_below(lo));
        }
    } else {
        assert(primes_below(lo) + primes_from(lo, hi) == primes_below(lo));
    }
}

} // verus!
