pub mod candidates;
pub mod fingerprint;
pub mod primes;
pub mod tokenizer;
pub mod trials;

use vstd::prelude::*;

verus! {

/// A prime number: at least 2, with no divisor strictly between 1 and itself.
#[verifier::opaque]
pub open spec fn is_prime(p: int) -> bool {
    p >= 2 && forall|d: int| 2 <= d < p ==> #[trigger] (p % d) != 0
}

} // verus!
