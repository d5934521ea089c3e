//! Sample-data generation: the primes below a bound, in increasing
//! order, as the driver feeds them to the builder.

use vstd::prelude::*;
use crate::builder::lemma_push_contains;

verus! {

/// `p` is prime: at least 2 and without a proper divisor.
pub open spec fn is_prime(p: int) -> bool {
    p >= 2 && forall|d: int| 2 <= d < p ==> #[trigger] (p % d) != 0
}

/// Trial-division primality test.
fn check_prime(k: u32) -> (r: bool)
    ensures
        r == is_prime(k as int),
{
    if k < 2 {
        return false;
    }
    let mut d: u32 = 2;
    while d < k
        invariant
            2 <= d <= k,
            k >= 2,
            forall|e: int| 2 <= e < d ==> #[trigger] ((k as int) % e) != 0,
        decreases k - d,
    {
        if k % d == 0 {
            proof {
                assert(2 <= (d as int) && (d as int) < (k as int) && (k as int) % (d as int)
                    == 0);
            }
            return false;
        }
        d = d + 1;
    }
    true
}

/// All primes strictly below `n`, in increasing order.
pub fn sieve(n: usize) -> (r: Vec<u32>)
    requires
        n <= 0xffff_ffff,
    ensures
        forall|x: int|
            0 <= x < r@.len() ==> is_prime(#[trigger] r@[x] as int) && (r@[x] as int) < n as int,
        forall|x: int, y: int| 0 <= x < y < r@.len() ==> r@[x] < r@[y],
        forall|k: u32| (k as int) < n as int && is_prime(k as int) ==> r@.contains(k),
{
    let mut r: Vec<u32> = Vec::new();
    let mut i: usize = 2;
    while i < n
        invariant
            2 <= i,
            n <= 0xffff_ffff,
            i as int <= if n as int >= 2 {
                n as int
            } else {
                2int
            },
            forall|x: int|
                0 <= x < r@.len() ==> is_prime(#[trigger] r@[x] as int) && (r@[x] as int) < i as int,
            forall|x: int, y: int| 0 <= x < y < r@.len() ==> r@[x] < r@[y],
            forall|k: u32| (k as int) < i as int && is_prime(k as int) ==> r@.contains(k),
        decreases n - i,
    {
        let k = i as u32;
        let ghost r0 = r@;
        if check_prime(k) {
            r.push(k);
        }
        proof {
            assert forall|kk: u32| (kk as int) < i + 1 && is_prime(kk as int) implies r@.contains(
                kk,
            ) by {
                lemma_push_contains(r0, k, kk);
                if (kk as int) < i as int {
                    let w = choose|w: int| 0 <= w < r0.len() && r0[w] == kk;
                    assert(r@[w] == kk);
                }
            }
        }
        i = i + 1;
    }
    proof {
        assert forall|k: u32| (k as int) < n as int && is_prime(k as int) implies r@.contains(
            k,
        ) by {
            if n <= 2 {
                assert(k < 2);
            }
        }
    }
    r
}

} // verus!
