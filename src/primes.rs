//! The table of primes that the enumeration draws from.

use vstd::prelude::*;

use crate::model::{is_prime, prime_table};

verus! {

/// Relies on primal's `Sieve::new(limit)` and `Sieve::primes_from(0)`: every
/// prime from 2 to the end of the sieve, in ascending order, where the sieve
/// ends at `limit` or beyond.
#[verifier::external_body]
fn sieve_primes(limit: usize) -> (r: Vec<usize>)
    ensures
        forall|i: int| 0 <= i < r@.len() ==> is_prime(#[trigger] r@[i] as int),
        forall|i: int, j: int| 0 <= i < j < r@.len() ==> #[trigger] r@[i] < #[trigger] r@[j],
        forall|n: int|
            #![trigger is_prime(n)]
            is_prime(n) && (n <= limit || (r@.len() > 0 && n <= r@.last())) ==> r@.contains(
                n as usize,
            ),
{
    primal::Sieve::new(limit).primes_from(0).collect()
}

/// The first primes, ascending, up to `limit` at least: a prime table that
/// holds every prime not above `limit`.
pub fn first_primes(limit: usize) -> (r: Vec<u64>)
    ensures
        prime_table(r@),
        forall|n: int| #![trigger is_prime(n)] is_prime(n) && n <= limit ==> r@.contains(n as u64),
{
    let ps = sieve_primes(limit);
    let mut r: Vec<u64> = Vec::new();
    let mut i: usize = 0;
    while i < ps.len()
        invariant
            i <= ps@.len(),
            r@.len() == i,
            forall|j: int| 0 <= j < i ==> #[trigger] r@[j] == ps@[j] as u64,
        decreases ps@.len() - i,
    {
        r.push(ps[i] as u64);
        i = i + 1;
    }
    proof {
        assert forall|n: int|
            #![trigger is_prime(n)]
            is_prime(n) && (n <= limit || (r@.len() > 0 && n <= r@.last())) implies r@.contains(
            n as u64,
        ) by {
            assert(ps@.contains(n as usize));
            let k = choose|k: int| 0 <= k < ps@.len() && ps@[k] == n as usize;
            assert(r@[k] == n as u64);
        }
        assert forall|i: int| 0 <= i < r@.len() implies is_prime(#[trigger] r@[i] as int) by {
            assert(is_prime(ps@[i] as int));
        }
        assert forall|i: int, j: int| 0 <= i < j < r@.len() implies #[trigger] r@[i]
            < #[trigger] r@[j] by {
            assert(ps@[i] < ps@[j]);
        }
    }
    r
}

} // verus!
