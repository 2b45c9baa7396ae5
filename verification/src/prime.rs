//! Prime generation: a probable prime strictly above a given bound, found by
//! bounded resampling of random 64-bit primes.

use vstd::prelude::*;
use crate::numtheory::is_prime;

verus! {

/// How many fresh primes are drawn before giving up.
pub const MAX_PRIME_ITER: usize = 1000;

/// Relies on `crypto_primes::random_prime` (`Flavor::Any`, 64 bits): a random
/// 64-bit prime with its most significant bit set, by the crate's
/// Baillie-PSW primality testing (probable primality with no known
/// counterexample).
#[verifier::external_body]
fn random_prime_64() -> (r: u64)
    ensures
        is_prime(r as nat),
        r >= 0x8000000000000000u64,
{
    let p: crypto_bigint::U64 = crypto_primes::random_prime(
        &mut rand::rng(),
        crypto_primes::Flavor::Any,
        64,
    );
    p.to_words()[0]
}

/// Draws fresh 64-bit primes until one exceeds `bound`, giving up after the
/// fixed retry budget. A returned prime is strictly above the bound; the
/// search can only come up empty when the bound itself needs the top bit.
pub fn generate_min(bound: u64) -> (r: Option<u64>)
    ensures
        match r {
            Some(p) => p > bound && is_prime(p as nat) && p >= 0x8000000000000000u64,
            None => bound >= 0x8000000000000000u64,
        },
{
    let mut i: usize = 0;
    while i < MAX_PRIME_ITER
        invariant
            i <= MAX_PRIME_ITER,
            i > 0 ==> bound >= 0x8000000000000000u64,
        decreases MAX_PRIME_ITER - i,
    {
        let p = random_prime_64();
        if p > bound {
            return Some(p);
        }
        i = i + 1;
    }
    None
}

/// The first of the first `MAX_PRIME_ITER` candidates, scanning from index
/// `k`, that exceeds the bound.
pub open spec fn first_over(cands: Seq<u64>, bound: u64, k: int) -> Option<u64>
    decreases cands.len() + 1000 - k,
{
    if k < 0 || k >= cands.len() || k >= 1000 {
        None
    } else if cands[k] > bound {
        Some(cands[k])
    } else {
        first_over(cands, bound, k + 1)
    }
}

/// The same bounded search against a fixed, caller-supplied source of
/// candidate primes: the first of the first `MAX_PRIME_ITER` candidates that
/// exceeds the bound, and exhaustion exactly when none of them does.
pub fn generate_min_from(candidates: &Vec<u64>, bound: u64) -> (r: Option<u64>)
    ensures
        r == first_over(candidates@, bound, 0),
        r is None ==> forall|k: int|
            0 <= k < candidates@.len() && k < 1000 ==> #[trigger] candidates@[k] <= bound,
{
    let mut i: usize = 0;
    let n = candidates.len();
    while i < n && i < MAX_PRIME_ITER
        invariant
            n == candidates@.len(),
            i <= n,
            i <= MAX_PRIME_ITER,
            first_over(candidates@, bound, 0) == first_over(candidates@, bound, i as int),
            forall|k: int| 0 <= k < i ==> #[trigger] candidates@[k] <= bound,
        decreases n - i,
    {
        let c = candidates[i];
        if c > bound {
            return Some(c);
        }
        i = i + 1;
    }
    None
}

} // verus!
