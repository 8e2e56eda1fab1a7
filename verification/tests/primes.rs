use primetools::{PrimeGen, PrimeSieve};

const BELOW_100: [u32; 25] = [
    2, 3, 5, 7, 11, 13, 17, 19, 23, 29, 31, 37, 41, 43, 47, 53, 59, 61, 67, 71, 73, 79, 83, 89, 97,
];

fn is_prime_by_definition(n: u32) -> bool {
    n > 1 && (2..n).all(|d| n % d != 0)
}

/// Trial division whose divisor bound is a truncated single-precision square root.
fn primes_by_float_bound(below: u32) -> Vec<u32> {
    let mut found: Vec<u32> = Vec::new();
    let mut candidate: u32 = 2;
    while candidate < below {
        let root: u32 = (candidate as f32).sqrt() as u32;
        if !found.iter().filter(|&p| *p <= root).any(|&p| candidate % p == 0) {
            found.push(candidate);
        }
        candidate += if candidate == 2 { 1 } else { 2 };
    }
    found
}

#[test]
fn test_primegen() {
    assert_eq!(
        PrimeGen::new(Some(20)).collect_all(),
        [2, 3, 5, 7, 11, 13, 17, 19],
    );
}

#[test]
fn test_primesieve() {
    assert_eq!(PrimeSieve::new(20).0, [2, 3, 5, 7, 11, 13, 17, 19],);
}

#[test]
fn sieve_of_seven() {
    assert_eq!(PrimeSieve::new(7).0, [2, 3, 5]);
}

#[test]
fn sieve_below_first_prime_is_empty() {
    assert_eq!(PrimeSieve::new(0).0, Vec::<u32>::new());
    assert_eq!(PrimeSieve::new(1).0, Vec::<u32>::new());
    assert_eq!(PrimeSieve::new(2).0, Vec::<u32>::new());
}

#[test]
fn sieve_bound_is_exclusive() {
    assert_eq!(PrimeSieve::new(3).0, [2]);
    assert_eq!(PrimeSieve::new(4).0, [2, 3]);
    assert_eq!(PrimeSieve::new(5).0, [2, 3]);
    assert_eq!(PrimeSieve::new(6).0, [2, 3, 5]);
    assert_eq!(PrimeSieve::new(97).0, BELOW_100[..24]);
    assert_eq!(PrimeSieve::new(98).0, BELOW_100);
}

#[test]
fn sieve_below_one_hundred() {
    assert_eq!(PrimeSieve::new(100).0, BELOW_100);
}

#[test]
fn sieve_strikes_squares_of_primes() {
    assert_eq!(PrimeSieve::new(10).0, [2, 3, 5, 7]);
    assert_eq!(PrimeSieve::new(9).0, [2, 3, 5, 7]);
    assert_eq!(PrimeSieve::new(26).0, [2, 3, 5, 7, 11, 13, 17, 19, 23]);
    let found = PrimeSieve::new(130).0;
    assert!(!found.contains(&49));
    assert!(!found.contains(&121));
    assert!(found.contains(&127));
}

#[test]
fn sieve_is_ascending_sound_and_complete() {
    let bound: u32 = 2000;
    let found = PrimeSieve::new(bound).0;
    assert!(found.windows(2).all(|w| w[0] < w[1]));
    assert!(found.iter().all(|&p| p < bound && is_prime_by_definition(p)));
    assert!((0..bound).all(|n| !is_prime_by_definition(n) || found.contains(&n)));
}

#[test]
fn sieve_counts() {
    assert_eq!(PrimeSieve::new(1_000).0.len(), 168);
    assert_eq!(PrimeSieve::new(10_000).0.len(), 1_229);
    assert_eq!(PrimeSieve::new(1_000_000).0.len(), 78_498);
    assert_eq!(PrimeSieve::new(1_000_000).0.last(), Some(&999_983));
}

#[test]
fn sieve_beyond_sixteen_bits() {
    let found = PrimeSieve::new(70_000).0;
    assert_eq!(found.len(), 6_935);
    assert!(found.contains(&65_521));
    assert!(found.contains(&65_537));
    assert_eq!(found.last(), Some(&69_997));
}

#[test]
fn sieve_twice_is_the_same() {
    for bound in [0u32, 1, 2, 3, 20, 23, 1_000] {
        assert_eq!(PrimeSieve::new(bound).0, PrimeSieve::new(bound).0);
    }
}

#[test]
fn sieve_agrees_with_generator() {
    for bound in 0u32..400 {
        assert_eq!(PrimeSieve::new(bound).0, PrimeGen::new(Some(bound)).collect_all());
    }
    assert_eq!(PrimeSieve::new(50_000).0, PrimeGen::new(Some(50_000)).collect_all());
}

#[test]
fn generator_first_steps() {
    let mut primes = PrimeGen::new(None);
    assert_eq!(primes.next(), Some(2));
    assert_eq!(primes.next(), Some(3));
    assert_eq!(primes.next(), Some(5));
    assert_eq!(primes.next(), Some(7));
    assert_eq!(primes.next(), Some(11));
}

#[test]
fn generator_of_seven() {
    assert_eq!(PrimeGen::new(Some(7)).collect_all(), [2, 3, 5]);
}

#[test]
fn generator_below_first_prime_is_empty() {
    assert_eq!(PrimeGen::new(Some(0)).collect_all(), Vec::<u32>::new());
    assert_eq!(PrimeGen::new(Some(1)).collect_all(), Vec::<u32>::new());
    assert_eq!(PrimeGen::new(Some(2)).collect_all(), Vec::<u32>::new());
    assert_eq!(PrimeGen::new(Some(2)).next(), None);
}

#[test]
fn generator_bound_is_exclusive() {
    assert_eq!(PrimeGen::new(Some(3)).collect_all(), [2]);
    assert_eq!(PrimeGen::new(Some(4)).collect_all(), [2, 3]);
    assert_eq!(
        PrimeGen::new(Some(23)).collect_all(),
        [2, 3, 5, 7, 11, 13, 17, 19],
    );
    assert_eq!(
        PrimeGen::new(Some(24)).collect_all(),
        [2, 3, 5, 7, 11, 13, 17, 19, 23],
    );
}

#[test]
fn generator_below_one_hundred() {
    assert_eq!(PrimeGen::new(Some(100)).collect_all(), BELOW_100);
}

#[test]
fn generator_skips_squares_of_primes() {
    let found = PrimeGen::new(Some(400)).collect_all();
    for square in [4u32, 9, 25, 49, 121, 169, 289, 361] {
        assert!(!found.contains(&square));
    }
    assert_eq!(found.len(), 78);
}

#[test]
fn generator_stays_exhausted() {
    let mut primes = PrimeGen::new(Some(6));
    assert_eq!(primes.next(), Some(2));
    assert_eq!(primes.next(), Some(3));
    assert_eq!(primes.next(), Some(5));
    assert_eq!(primes.next(), None);
    assert_eq!(primes.next(), None);
    assert_eq!(primes.next(), None);
    assert_eq!(primes.collect_all(), Vec::<u32>::new());
}

#[test]
fn generator_collects_what_is_left() {
    let mut primes = PrimeGen::new(Some(30));
    assert_eq!(primes.next(), Some(2));
    assert_eq!(primes.next(), Some(3));
    assert_eq!(primes.next(), Some(5));
    assert_eq!(primes.collect_all(), [7, 11, 13, 17, 19, 23, 29]);
}

#[test]
fn generator_without_bound_keeps_going() {
    let mut primes = PrimeGen::new(None);
    let mut last: u32 = 0;
    for _ in 0..10_000 {
        let p = primes.next().unwrap();
        assert!(p > last);
        last = p;
    }
    assert_eq!(last, 104_729);
}

#[test]
fn generator_is_ascending_sound_and_complete() {
    let bound: u32 = 2000;
    let found = PrimeGen::new(Some(bound)).collect_all();
    assert!(found.windows(2).all(|w| w[0] < w[1]));
    assert!(found.iter().all(|&p| p < bound && is_prime_by_definition(p)));
    assert!((0..bound).all(|n| !is_prime_by_definition(n) || found.contains(&n)));
}

#[test]
fn generator_agrees_with_float_bounded_trial_division() {
    assert_eq!(PrimeGen::new(Some(200_000)).collect_all(), primes_by_float_bound(200_000));
}

#[test]
fn float_root_never_falls_short_of_integer_root() {
    for root in 1u64..65_536 {
        let square: u32 = (root * root) as u32;
        assert!(((square as f32).sqrt() as u64) >= root);
    }
}
