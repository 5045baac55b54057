//! Primality and the sweep of small primes used by the factoring engine.
use vstd::prelude::*;

verus! {

/// `n` is a prime number: at least 2 and with no divisor strictly between 1 and itself.
pub open spec fn prime_number(n: int) -> bool {
    n >= 2 && forall|d: int| 2 <= d < n ==> #[trigger] (n % d) != 0
}

/// Some prime strictly below `bound` divides `n`.
pub open spec fn has_prime_factor_below(n: int, bound: int) -> bool {
    exists|q: int| #![trigger n % q] prime_number(q) && q < bound && n % q == 0
}

/// Relies on `primes::is_prime`: trial division by 2 and the odd numbers up to
/// the square root, true exactly when `n` is prime. The bound keeps the
/// squares it forms far from `u64` overflow.
pub assume_specification[ primes::is_prime ](n: u64) -> (r: bool)
    requires
        n < 0x1_0000_0000,
    ensures
        r == prime_number(n as int),
;

/// Whether some prime strictly smaller than `bound` divides `n`. Every
/// prime divides 0, so for 0 that is whether `bound` exceeds 2. The bound
/// keeps each candidate inside the range that the primality test takes.
pub(crate) fn divisible_by_prime_less_than(n: u64, bound: u64) -> (r: bool)
    requires
        bound <= 0x1_0000_0000,
    ensures
        r == has_prime_factor_below(n as int, bound as int),
{
    if n == 0 {
        proof {
            if bound > 2 {
                assert(prime_number(2) && 2 < bound && 0int % 2 == 0);
            }
        }
        return bound > 2;
    }
    // A prime that divides a positive `n` is at most `n`.
    let mut q: u64 = 2;
    while q < bound && q <= n
        invariant
            2 <= q,
            bound <= 0x1_0000_0000,
            1 <= n,
            forall|d: int| 2 <= d < q ==> !(prime_number(d) && #[trigger] (n as int % d) == 0),
        decreases bound - q,
    {
        if n % q == 0 && primes::is_prime(q) {
            return true;
        }
        q = q + 1;
    }
    proof {
        assert forall|d: int| #![trigger (n as int % d)] prime_number(d) && d < bound implies (n as int % d) != 0 by {
            if d >= q {
                assert(d > n);
                vstd::arithmetic::div_mod::lemma_small_mod(n as nat, d as nat);
            }
        }
    }
    false
}

/// Every prime up to and including `ceiling`, in increasing order.
pub fn primes_up_to(ceiling: u64) -> (r: Vec<u64>)
    requires
        ceiling < 0x1_0000_0000,
    ensures
        forall|i: int| 0 <= i < r.len() ==> prime_number(#[trigger] r[i] as int) && r[i] <= ceiling,
        forall|i: int, j: int| 0 <= i < j < r.len() ==> r[i] < r[j],
        forall|q: int| prime_number(q) && q <= ceiling ==> r@.contains(q as u64),
{
    let mut r: Vec<u64> = Vec::new();
    let mut n: u64 = 0;
    while n <= ceiling
        invariant
            ceiling < 0x1_0000_0000,
            n <= ceiling + 1,
            forall|i: int| 0 <= i < r.len() ==> prime_number(#[trigger] r[i] as int) && r[i] < n,
            forall|i: int, j: int| 0 <= i < j < r.len() ==> r[i] < r[j],
            forall|q: int| prime_number(q) && q < n ==> r@.contains(q as u64),
        decreases ceiling + 1 - n,
    {
        if primes::is_prime(n) {
            let ghost before = r@;
            r.push(n);
            proof {
                assert(r@ == before.push(n));
                assert(r[r.len() - 1] == n);
                assert forall|q: int| prime_number(q) && q < n + 1 implies r@.contains(q as u64) by {
                    if q == n {
                        assert(r[r.len() - 1] == q as u64);
                    } else {
                        assert(before.contains(q as u64));
                        let k = choose|k: int| 0 <= k < before.len() && before[k] == q as u64;
                        assert(r[k] == q as u64);
                    }
                }
            }
        }
        n = n + 1;
    }
    r
}

} // verus!
