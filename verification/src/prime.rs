//! Prime sizing: the smallest prime at or above a requested capacity, found
//! by trial division.  Bucket arrays are given prime lengths to reduce
//! clustering from keys that share factors with the array length.

use vstd::arithmetic::div_mod::lemma_fundamental_div_mod;
use vstd::arithmetic::div_mod::lemma_mod_multiples_basic;
use vstd::prelude::*;

verus! {

/// Largest input the prime search accepts.  The bound is itself prime, so
/// every search that starts at or below it also ends at or below it, which
/// keeps the candidate arithmetic inside `usize`.
pub const PRIME_BOUND: usize = 65521;

/// `d` divides `n` evenly.
pub open spec fn is_factor(d: int, n: int) -> bool {
    n % d == 0
}

/// Primality by trial division: at least 2, and no divisor in `[2, n)`.
pub open spec fn spec_is_prime(n: int) -> bool {
    &&& 2 <= n
    &&& forall|d: int| 2 <= d < n ==> !is_factor(d, n)
}

/// `p` is the smallest prime at or above `n`.
pub open spec fn is_next_prime(n: int, p: int) -> bool {
    &&& spec_is_prime(p)
    &&& n <= p
    &&& forall|q: int| n <= q < p ==> !spec_is_prime(q)
}

/// The search bound is prime.  Divisors below 256 are ruled out as a
/// bit-vector fact; a divisor at or above 256 would pair with a cofactor
/// below 256, which the same fact rules out.
pub proof fn lemma_prime_bound_is_prime()
    ensures
        spec_is_prime(PRIME_BOUND as int),
{
    assert forall|d: int| 2 <= d < 65521 implies !is_factor(d, 65521) by {
        if d < 256 {
            let dd = d as u32;
            assert(65521u32 % dd != 0) by (bit_vector)
                requires
                    2 <= dd < 256,
            ;
        } else if 65521int % d == 0 {
            lemma_fundamental_div_mod(65521, d);
            let c = 65521int / d;
            assert(d * c == 65521);
            assert(2 <= c <= 255) by (nonlinear_arith)
                requires
                    256 <= d < 65521,
                    d * c == 65521,
            ;
            lemma_mod_multiples_basic(d, c);
            let cc = c as u32;
            assert(65521u32 % cc != 0) by (bit_vector)
                requires
                    2 <= cc < 256,
            ;
            assert(false);
        }
    }
}

/// The smallest prime at or above `number`: test divisors from 2 upward; on
/// the first one that divides evenly, move to the next candidate; if none
/// divides, the candidate itself is prime.
pub fn make_prime(number: usize) -> (p: usize)
    requires
        number <= PRIME_BOUND,
    ensures
        is_next_prime(number as int, p as int),
        p <= PRIME_BOUND,
    decreases PRIME_BOUND - number,
{
    if number <= 2 {
        return 2;
    }
    let mut count: usize = 2;
    loop
        invariant
            3 <= number <= PRIME_BOUND,
            2 <= count < number,
            forall|d: int| 2 <= d < count ==> !is_factor(d, number as int),
        decreases number - count,
    {
        if number % count == 0 {
            proof {
                assert(!spec_is_prime(number as int)) by {
                    assert(is_factor(count as int, number as int));
                }
                lemma_prime_bound_is_prime();
                assert(number < PRIME_BOUND);
            }
            return make_prime(number + 1);
        }
        count = count + 1;
        if count == number {
            return number;
        }
    }
}

} // verus!
