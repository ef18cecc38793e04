//! The prime cache: an ordered, append-only sequence that is always a prefix
//! of the infinite sequence of primes, and the query that grows it on demand.

use vstd::prelude::*;
use crate::primes::{
    is_prime_spec, lemma_composite_has_small_prime_factor,
};

verus! {

/// `q` occurs among the elements of `s`.
pub open spec fn in_cache(s: Seq<usize>, q: int) -> bool {
    exists|i: int| 0 <= i < s.len() && s[i] == q
}

/// Every prime strictly below `b` occurs in `s`.
pub open spec fn complete_to(s: Seq<usize>, b: int) -> bool {
    forall|q: int| 2 <= q < b && is_prime_spec(q) ==> #[trigger] in_cache(s, q)
}

/// `s` is a prefix of the infinite sequence of primes: non-empty, starting
/// at 2, strictly increasing, every element prime, and gapless (no prime up
/// to the last element is missing).
pub open spec fn prime_prefix(s: Seq<usize>) -> bool {
    &&& s.len() > 0
    &&& s[0] == 2
    &&& forall|i: int| 0 <= i < s.len() ==> is_prime_spec(#[trigger] s[i] as int)
    &&& forall|i: int, j: int| 0 <= i < j < s.len() ==> s[i] < s[j]
    &&& complete_to(s, s.last() as int + 1)
}

/// `p` is the prime of rank `n` (0-indexed): some prime prefix reaches past
/// index `n` and holds `p` there. By `lemma_nth_prime_unique` this determines
/// `p` completely.
pub open spec fn is_nth_prime(n: int, p: usize) -> bool {
    exists|s: Seq<usize>| #[trigger] prime_prefix(s) && 0 <= n < s.len() && s[n] == p
}

/// There are at most `n` primes representable in `usize` at all: some prime
/// prefix holds every one of them and still has no more than `n` entries.
pub open spec fn primes_exhausted(n: int) -> bool {
    exists|s: Seq<usize>|
        #[trigger] prime_prefix(s) && complete_to(s, usize::MAX as int + 1) && s.len() <= n
}

/// Raised when answering a query would need a prime beyond `usize::MAX`.
#[derive(Clone, Copy, Debug, PartialEq, Eq, Structural)]
pub enum PrimeError {
    Overflow,
}

/// The memoized cache of primes discovered so far.
pub struct PrimeCache {
    primes: Vec<usize>,
}

impl View for PrimeCache {
    type V = Seq<usize>;

    closed spec fn view(&self) -> Seq<usize> {
        self.primes@
    }
}

/// Every element of a prime prefix is bounded by the last one.
proof fn lemma_le_last(s: Seq<usize>, i: int)
    requires
        prime_prefix(s),
        0 <= i < s.len(),
    ensures
        s[i] <= s.last(),
{
    if i < s.len() - 1 {
        assert(s[i] < s[s.len() - 1]);
    }
}

/// The seed cache, holding only the smallest prime, is a prime prefix.
pub proof fn lemma_seed_prime_prefix()
    ensures
        prime_prefix(seq![2usize]),
{
    let s = seq![2usize];
    assert(is_prime_spec(2));
    assert forall|q: int| 2 <= q < 3 && is_prime_spec(q) implies #[trigger] in_cache(s, q) by {
        assert(s[0] == q);
    }
}

/// No prime falls strictly between two adjacent entries of a prime prefix.
proof fn lemma_no_prime_between(s: Seq<usize>, i: int, q: int)
    requires
        prime_prefix(s),
        1 <= i < s.len(),
        (s[i - 1] as int) < q,
        q < s[i] as int,
    ensures
        !is_prime_spec(q),
{
    if is_prime_spec(q) {
        lemma_le_last(s, i);
        assert(2 <= q && q < s.last() as int + 1);
        assert(in_cache(s, q));
        let j = choose|j: int| 0 <= j < s.len() && s[j] == q;
        if j < i - 1 {
            assert(s[j] < s[i - 1]);
        }
        if j > i - 1 {
            assert(s[i] <= s[j]) by {
                if i < j {
                    assert(s[i] < s[j]);
                }
            }
        }
        assert(false);
    }
}

/// Any two prime prefixes agree wherever both are defined: the sequence of
/// primes the cache approximates is unique.
pub proof fn lemma_prime_prefix_agree(s1: Seq<usize>, s2: Seq<usize>, i: int)
    requires
        prime_prefix(s1),
        prime_prefix(s2),
        0 <= i,
        i < s1.len(),
        i < s2.len(),
    ensures
        s1[i] == s2[i],
    decreases i,
{
    if i > 0 {
        lemma_prime_prefix_agree(s1, s2, i - 1);
        assert(s1[i - 1] < s1[i]);
        assert(s2[i - 1] < s2[i]);
        if s1[i] < s2[i] {
            assert(is_prime_spec(s1[i] as int));
            lemma_no_prime_between(s2, i, s1[i] as int);
            assert(false);
        }
        if s2[i] < s1[i] {
            assert(is_prime_spec(s2[i] as int));
            lemma_no_prime_between(s1, i, s2[i] as int);
            assert(false);
        }
    }
}

/// Two prime prefixes of the same length are the same sequence.
pub proof fn lemma_prime_prefix_eq(s1: Seq<usize>, s2: Seq<usize>)
    requires
        prime_prefix(s1),
        prime_prefix(s2),
        s1.len() == s2.len(),
    ensures
        s1 == s2,
{
    assert forall|i: int| 0 <= i < s1.len() implies s1[i] == s2[i] by {
        lemma_prime_prefix_agree(s1, s2, i);
    }
    assert(s1 =~= s2);
}

/// The rank pins the prime: repeated queries for the same rank can only ever
/// see one value, whichever caller computed it.
pub proof fn lemma_nth_prime_unique(n: int, p1: usize, p2: usize)
    requires
        is_nth_prime(n, p1),
        is_nth_prime(n, p2),
    ensures
        p1 == p2,
{
    let s1 = choose|s: Seq<usize>| #[trigger] prime_prefix(s) && 0 <= n < s.len() && s[n] == p1;
    let s2 = choose|s: Seq<usize>| #[trigger] prime_prefix(s) && 0 <= n < s.len() && s[n] == p2;
    lemma_prime_prefix_agree(s1, s2, n);
}

/// A rank that carries a prime does not lie beyond every representable one.
/// With the query's contract this makes the outcome exact: success is owed
/// precisely when rank `n` still has a prime that fits in `usize`.
pub proof fn lemma_answer_exclusive(n: int, p: usize)
    requires
        is_nth_prime(n, p),
    ensures
        !primes_exhausted(n),
{
    if primes_exhausted(n) {
        let s1 = choose|s: Seq<usize>|
            #[trigger] prime_prefix(s) && 0 <= n < s.len() && s[n] == p;
        let s2 = choose|s: Seq<usize>|
            #[trigger] prime_prefix(s) && complete_to(s, usize::MAX as int + 1) && s.len() <= n;
        let k = s2.len() as int;
        lemma_prime_prefix_agree(s1, s2, k - 1);
        assert(is_prime_spec(s1[k] as int));
        assert(in_cache(s2, s1[k] as int));
        let j = choose|j: int| 0 <= j < s2.len() && s2[j] == s1[k];
        lemma_le_last(s2, j);
        assert(s1[k - 1] < s1[k]);
        assert(false);
    }
}

/// Monotonicity of the cache: every entry is prime, and each entry is
/// strictly smaller than the next.
pub proof fn lemma_cache_sorted_primes(s: Seq<usize>)
    requires
        prime_prefix(s),
    ensures
        forall|i: int| 0 <= i < s.len() ==> is_prime_spec(#[trigger] s[i] as int),
        forall|i: int| 0 <= i && i + 1 < s.len() ==> s[i] < #[trigger] s[i + 1],
{
}

impl PrimeCache {
    /// The cache invariant: the contents are a prefix of the primes.
    pub open spec fn wf(&self) -> bool {
        prime_prefix(self@)
    }

    /// A fresh cache, seeded with the first prime.
    pub fn new() -> (c: Self)
        ensures
            c.wf(),
            c@ == seq![2usize],
    {
        let mut v: Vec<usize> = Vec::new();
        v.push(2);
        let c = PrimeCache { primes: v };
        proof {
            assert(c@ =~= seq![2usize]);
            lemma_seed_prime_prefix();
        }
        c
    }

    /// How many primes are cached so far.
    pub fn len(&self) -> (l: usize)
        ensures
            l == self@.len(),
    {
        self.primes.len()
    }

    /// The cached prime at index `i`.
    pub fn get(&self, i: usize) -> (p: usize)
        requires
            i < self@.len(),
        ensures
            p == self@[i as int],
    {
        self.primes[i]
    }

    /// Trial division of `n` by the cached primes, in ascending order,
    /// stopping early once the divisor passes the square root of `n`.
    ///
    /// Sound only in the situation the extension loop creates: `n` lies
    /// beyond the largest cached prime and every prime below `n` is cached.
    pub fn is_prime(&self, n: usize) -> (r: bool)
        requires
            self.wf(),
            n as int > self@.last() as int,
            complete_to(self@, n as int),
        ensures
            r == is_prime_spec(n as int),
    {
        let ghost s = self@;
        proof {
            assert(is_prime_spec(s.last() as int));
        }
        let len = self.primes.len();
        let mut i: usize = 0;
        while i < len
            invariant
                self.wf(),
                s == self@,
                n as int > s.last() as int,
                complete_to(s, n as int),
                len == s.len(),
                i <= len,
                is_prime_spec(s.last() as int),
                forall|j: int| 0 <= j < i ==> (n as int) % (#[trigger] s[j] as int) != 0,
            decreases len - i,
        {
            let p = self.primes[i];
            proof {
                assert(is_prime_spec(s[i as int] as int));
                lemma_le_last(s, i as int);
            }
            let d = n / p;
            let m = n % p;
            if m == 0 {
                proof {
                    assert(2 <= (p as int) && (p as int) < (n as int) && (n as int) % (
                    p as int) == 0);
                    assert(!is_prime_spec(n as int));
                }
                return false;
            }
            if d < p {
                proof {
                    vstd::arithmetic::div_mod::lemma_fundamental_div_mod(n as int, p as int);
                    assert((n as int) < (p as int) * (p as int)) by (nonlinear_arith)
                        requires
                            n as int == (p as int) * (d as int) + (m as int),
                            0 <= m as int,
                            (m as int) < (p as int),
                            (d as int) < (p as int),
                            p as int >= 2,
                    {}
                    if !is_prime_spec(n as int) {
                        lemma_composite_has_small_prime_factor(n as int);
                        let q = choose|q: int|
                            is_prime_spec(q) && q < n as int && q * q <= n as int && #[trigger] (
                            (n as int) % q) == 0;
                        assert(q < p as int) by (nonlinear_arith)
                            requires
                                q * q <= n as int,
                                (n as int) < (p as int) * (p as int),
                                q >= 2,
                                p as int >= 2,
                        {}
                        assert(in_cache(s, q));
                        let j = choose|j: int| 0 <= j < s.len() && s[j] == q;
                        assert(j < i as int) by {
                            if j > i as int {
                                assert(s[i as int] < s[j]);
                            }
                        }
                        assert((n as int) % (s[j] as int) != 0);
                        assert(false);
                    }
                }
                return true;
            }
            i = i + 1;
        }
        proof {
            if !is_prime_spec(n as int) {
                lemma_composite_has_small_prime_factor(n as int);
                let q = choose|q: int|
                    is_prime_spec(q) && q < n as int && q * q <= n as int && #[trigger] ((
                    n as int) % q) == 0;
                assert(in_cache(s, q));
                let j = choose|j: int| 0 <= j < s.len() && s[j] == q;
                assert((n as int) % (s[j] as int) != 0);
                assert(false);
            }
        }
        true
    }

    /// Commits one freshly discovered prime: the next candidate beyond the
    /// last entry that passed the primality test, with no prime skipped in
    /// between. The single push is the only write the cache ever needs.
    pub fn push_prime(&mut self, candidate: usize)
        requires
            old(self).wf(),
            candidate as int > old(self)@.last() as int,
            is_prime_spec(candidate as int),
            complete_to(old(self)@, candidate as int),
        ensures
            final(self).wf(),
            final(self)@ == old(self)@.push(candidate),
    {
        let ghost pre = self@;
        self.primes.push(candidate);
        proof {
            let s = self@;
            assert(s == pre.push(candidate));
            assert(s.last() == candidate);
            assert forall|i: int, j: int| 0 <= i < j < s.len() implies s[i] < s[j] by {
                if j == s.len() - 1 {
                    lemma_le_last(pre, i);
                }
            }
            assert forall|q: int|
                2 <= q < candidate as int + 1 && is_prime_spec(q) implies #[trigger] in_cache(
                s,
                q,
            ) by {
                if q < candidate as int {
                    assert(in_cache(pre, q));
                    let k = choose|k: int| 0 <= k < pre.len() && pre[k] == q;
                    assert(s[k] == q);
                } else {
                    assert(s[s.len() - 1] == q);
                }
            }
            assert(prime_prefix(s));
        }
    }

    /// The query: the prime of rank `n`, extending the cache first if it does
    /// not reach that far. Committed entries are never recomputed or changed
    /// (the old contents stay a prefix of the new). The only failure is
    /// running out of representable candidates, and then the cache holds
    /// every prime that fits in `usize` and still has at most `n` entries.
    pub fn nth_prime(&mut self, n: usize) -> (r: Result<usize, PrimeError>)
        requires
            old(self).wf(),
        ensures
            final(self).wf(),
            old(self)@.is_prefix_of(final(self)@),
            (r matches Ok(p) ==> n < final(self)@.len() && final(self)@[n as int] == p),
            (r matches Ok(p) ==> is_nth_prime(n as int, p)),
            (r is Err ==> complete_to(final(self)@, usize::MAX as int + 1) && final(self)@.len()
                <= n),
    {
        if n < self.primes.len() {
            let p = self.primes[n];
            proof {
                assert(prime_prefix(self@) && (n as int) < self@.len() && self@[n as int] == p);
            }
            return Ok(p);
        }
        let last = self.primes[self.primes.len() - 1];
        if last == usize::MAX {
            proof {
                assert(complete_to(self@, usize::MAX as int + 1));
            }
            return Err(PrimeError::Overflow);
        }
        // A capacity hint only: one slot per rank up to the request.
        self.primes.reserve(n - self.primes.len());
        let mut candidate: usize = last + 1;
        while self.primes.len() <= n
            invariant
                self.wf(),
                old(self)@.is_prefix_of(self@),
                complete_to(self@, candidate as int),
                self@.len() <= n ==> candidate as int > self@.last() as int,
            decreases n as int + 1 - self@.len() as int, usize::MAX as int - candidate as int,
        {
            if self.is_prime(candidate) {
                self.push_prime(candidate);
            } else {
                proof {
                    assert forall|q: int|
                        2 <= q < candidate as int + 1 && is_prime_spec(q) implies #[trigger]
                    in_cache(self@, q) by {
                        assert(q != candidate as int);
                    }
                }
            }
            if self.primes.len() <= n {
                if candidate == usize::MAX {
                    proof {
                        assert(complete_to(self@, usize::MAX as int + 1));
                    }
                    return Err(PrimeError::Overflow);
                }
                candidate = candidate + 1;
            }
        }
        let p = self.primes[n];
        proof {
            assert(prime_prefix(self@) && (n as int) < self@.len() && self@[n as int] == p);
        }
        Ok(p)
    }
}

} // verus!
