//! Primality by trial division.
//!
//! The service answers whether a request's number is prime. Primality is
//! specified directly: a prime is at least two and has no divisor strictly
//! between one and itself. The executable check divides by every candidate
//! up to the square root, with the bound computed exactly in integers, and
//! is proved equivalent to the specification.

use vstd::prelude::*;

verus! {

use vstd::arithmetic::div_mod::{lemma_fundamental_div_mod, lemma_mod_multiples_basic};

/// `n` is a prime number: at least two, with no divisor strictly between
/// one and itself.
pub open spec fn spec_is_prime(n: int) -> bool {
    2 <= n && forall|d: int| 2 <= d < n ==> #[trigger] (n % d) != 0
}

/// A value of at most one is never prime.
pub proof fn lemma_small_not_prime(n: int)
    requires
        n <= 1,
    ensures
        !spec_is_prime(n),
{
}

/// Trial division: divides `n` by every candidate `d` while `d <= n / d`
/// (that is, while `d * d <= n`), so no composite is missed and no
/// divisor beyond the square root is ever tried.
pub fn is_prime_u64(n: u64) -> (r: bool)
    ensures
        r == spec_is_prime(n as int),
{
    if n < 2 {
        return false;
    }
    let mut d: u64 = 2;
    while d <= n / d
        invariant
            2 <= d,
            2 <= n,
            d <= n,
            forall|k: int| 2 <= k < d ==> #[trigger] ((n as int) % k) != 0,
        decreases n - d,
    {
        proof {
            let q = (n as int) / (d as int);
            let r = (n as int) % (d as int);
            lemma_fundamental_div_mod(n as int, d as int);
            assert((d as int) * (d as int) <= n as int && (d as int) < (n as int))
                by (nonlinear_arith)
                requires
                    n as int == (d as int) * q + r,
                    0 <= r < d as int,
                    d as int <= q,
                    2 <= d as int,
            ;
        }
        if n % d == 0 {
            assert(!spec_is_prime(n as int));
            return false;
        }
        d = d + 1;
    }
    proof {
        let q = (n as int) / (d as int);
        let rem = (n as int) % (d as int);
        lemma_fundamental_div_mod(n as int, d as int);
        assert((n as int) < (d as int) * (d as int)) by (nonlinear_arith)
            requires
                n as int == (d as int) * q + rem,
                0 <= rem < d as int,
                q < d as int,
                2 <= d as int,
        ;
        assert forall|k: int| 2 <= k < n as int implies #[trigger] ((n as int) % k) != 0 by {
            if k >= d as int && (n as int) % k == 0 {
                let kq = (n as int) / k;
                lemma_fundamental_div_mod(n as int, k);
                assert(n as int == k * kq);
                assert(2 <= kq && kq < d as int) by (nonlinear_arith)
                    requires
                        n as int == k * kq,
                        d as int <= k < n as int,
                        (n as int) < (d as int) * (d as int),
                        2 <= d as int,
                        2 <= n as int,
                ;
                lemma_mod_multiples_basic(k, kq);
                assert((n as int) % kq == 0);
                assert(false);
            }
        }
    }
    true
}

} // verus!
