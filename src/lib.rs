//! An unbounded, incremental sieve that hands out the primes one at a time,
//! in increasing order.

mod heap;
mod primes;
mod sieve;
mod wire;

pub use primes::{
    divides, is_nth_prime, is_prime, is_prime_run, lemma_first_prime, lemma_nth_prime_increasing,
    lemma_nth_prime_unique, lemma_prime_count_monotonic, lemma_runs_agree,
    lemma_run_increasing, prime_count,
};
pub use sieve::{Siev, LIMIT};
pub use wire::Wire;

