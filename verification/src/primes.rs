use vstd::prelude::*;

use crate::is_prime;

verus! {

/// Whether `m` is prime, by trial division.
pub fn is_prime_exec(m: u64) -> (r: bool)
    ensures
        r == is_prime(m as int),
{
    proof {
        reveal(is_prime);
    }
    if m < 2 {
        proof {
            reveal(is_prime);
        }
        return false;
    }
    let mut d: u64 = 2;
    while d < m
        invariant
            2 <= d <= m,
            forall|e: int| 2 <= e < d ==> #[trigger] ((m as int) % e) != 0,
        decreases m - d,
    {
        if m % d == 0 {
            proof {
                reveal(is_prime);
            }
            return false;
        }
        d += 1;
    }
    proof {
        reveal(is_prime);
    }
    true
}

/// All primes up to `n`, in increasing order: the sequence of exactly those
/// integers in `[2, n]` that are prime.
pub fn sieve_of_eratosthenes(n: usize) -> (r: Vec<usize>)
    requires
        n < 0xFFFF_FFFF,
    ensures
        forall|i: int, j: int| 0 <= i < j < r@.len() ==> r@[i] < r@[j],
        forall|i: int| 0 <= i < r@.len() ==> 2 <= #[trigger] r@[i] <= n && is_prime(r@[i] as int),
        forall|p: int| 2 <= p <= n && is_prime(p) ==> r@.contains(p as usize),
{
    let mut r: Vec<usize> = Vec::new();
    if n < 2 {
        proof {
            reveal(is_prime);
        }
        return r;
    }
    let mut m: usize = 2;
    while m <= n
        invariant
            2 <= m <= n + 1,
            n < 0xFFFF_FFFF,
            forall|i: int, j: int| 0 <= i < j < r@.len() ==> r@[i] < r@[j],
            forall|i: int| 0 <= i < r@.len() ==> 2 <= #[trigger] r@[i] < m && is_prime(r@[i] as int),
            forall|p: int| 2 <= p < m && is_prime(p) ==> r@.contains(p as usize),
        decreases n + 1 - m,
    {
        let ghost before = r@;
        if is_prime_exec(m as u64) {
            r.push(m);
            proof {
                assert(r@[r@.len() - 1] == m);
                assert forall|p: int| 2 <= p < m + 1 && is_prime(p) implies r@.contains(
                    p as usize,
                ) by {
                    if p < m {
                        let k = choose|k: int| 0 <= k < before.len() && before[k] == p as usize;
                        assert(r@[k] == p as usize);
                    } else {
                        assert(r@[r@.len() - 1] == p as usize);
                    }
                }
            }
        } else {
            proof {
                assert forall|p: int| 2 <= p < m + 1 && is_prime(p) implies r@.contains(
                    p as usize,
                ) by {
                    if p < m {
                        let k = choose|k: int| 0 <= k < before.len() && before[k] == p as usize;
                        assert(r@[k] == p as usize);
                    }
                }
            }
        }
        m += 1;
    }
    r
}

/// All primes up to `limit`, in increasing order.
pub fn small_primes_up_to(limit: usize) -> (r: Vec<usize>)
    requires
        limit < 0xFFFF_FFFF,
    ensures
        forall|i: int, j: int| 0 <= i < j < r@.len() ==> r@[i] < r@[j],
        forall|i: int|
            0 <= i < r@.len() ==> 2 <= #[trigger] r@[i] <= limit && is_prime(r@[i] as int),
        forall|p: int| 2 <= p <= limit && is_prime(p) ==> r@.contains(p as usize),
{
    sieve_of_eratosthenes(limit)
}

} // verus!
