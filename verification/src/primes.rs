//! The mathematical notion of primality, and the facts about divisors that
//! justify trial division by primes up to the square root.

use vstd::prelude::*;
use vstd::arithmetic::div_mod::{
    lemma_fundamental_div_mod, lemma_mod_multiples_basic, lemma_mod_self_0,
};

verus! {

/// `n` is prime: at least 2, with no divisor strictly between 1 and `n`.
pub open spec fn is_prime_spec(n: int) -> bool {
    n >= 2 && forall|d: int| 2 <= d < n ==> #[trigger] (n % d) != 0
}

/// Divisibility is transitive: if `d` divides `n` and `p` divides `d`,
/// then `p` divides `n`.
pub proof fn lemma_mod_transitive(n: int, d: int, p: int)
    requires
        n >= 0,
        d >= 1,
        p >= 1,
        n % d == 0,
        d % p == 0,
    ensures
        n % p == 0,
{
    let q = n / d;
    let r = d / p;
    lemma_fundamental_div_mod(n, d);
    lemma_fundamental_div_mod(d, p);
    assert(n == (r * q) * p) by (nonlinear_arith)
        requires
            n == d * q,
            d == p * r,
    {}
    lemma_mod_multiples_basic(r * q, p);
}

/// Every integer at least 2 has a prime factor.
pub proof fn lemma_has_prime_factor(n: int)
    requires
        n >= 2,
    ensures
        exists|p: int| is_prime_spec(p) && p <= n && #[trigger] (n % p) == 0,
    decreases n,
{
    if is_prime_spec(n) {
        lemma_mod_self_0(n);
        assert(is_prime_spec(n) && n <= n && n % n == 0);
    } else {
        let d = choose|d: int| 2 <= d < n && #[trigger] (n % d) == 0;
        lemma_has_prime_factor(d);
        let p = choose|p: int| is_prime_spec(p) && p <= d && #[trigger] (d % p) == 0;
        lemma_mod_transitive(n, d, p);
        assert(is_prime_spec(p) && p <= n && n % p == 0);
    }
}

/// A composite number has a prime factor no larger than its square root.
pub proof fn lemma_composite_has_small_prime_factor(n: int)
    requires
        n >= 2,
        !is_prime_spec(n),
    ensures
        exists|p: int|
            is_prime_spec(p) && p < n && p * p <= n && #[trigger] (n % p) == 0,
{
    let d = choose|d: int| 2 <= d < n && #[trigger] (n % d) == 0;
    let e = n / d;
    lemma_fundamental_div_mod(n, d);
    assert(e >= 2) by (nonlinear_arith)
        requires
            n == d * e,
            2 <= d,
            d < n,
    {}
    let c = if d <= e { d } else { e };
    assert(c * c <= d * e) by (nonlinear_arith)
        requires
            d >= 2,
            e >= 2,
            c == d || c == e,
            c <= d,
            c <= e,
    {}
    if c == e {
        lemma_mod_multiples_basic(d, e);
        assert(n % e == 0);
    }
    assert(2 <= c < n && n % c == 0);
    lemma_has_prime_factor(c);
    let p = choose|p: int| is_prime_spec(p) && p <= c && #[trigger] (c % p) == 0;
    lemma_mod_transitive(n, c, p);
    assert(p * p <= c * c) by (nonlinear_arith)
        requires
            2 <= p,
            p <= c,
    {}
    assert(is_prime_spec(p) && p < n && p * p <= n && n % p == 0);
}

} // verus!
