//! Prime numbers below a bound, two ways: a batch sieve of Eratosthenes and an
//! incremental generator that finds each prime by trial division against the
//! primes it has already found.
//!
//! Both are specified against one mathematical model, [`primality::primes_below`].

pub mod primality;
pub mod generator;
pub mod laws;
pub mod sieve;

pub use generator::{PrimeGen, PrimeGenView};
pub use sieve::PrimeSieve;
