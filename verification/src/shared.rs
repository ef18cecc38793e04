//! The shared cache: a reader/writer lock around [`PrimeCache`] whose lock
//! invariant is the cache's well-formedness, and a separate single-owner
//! extension permit. Readers answer queries from committed entries at any
//! time; the permit holder grows the cache one short-held append at a time,
//! so an extension never keeps readers out for its whole duration.

use vstd::prelude::*;
use vstd::rwlock::{RwLock, RwLockPredicate};
use crate::cache::{
    complete_to, in_cache, is_nth_prime, lemma_prime_prefix_eq, lemma_seed_prime_prefix,
    prime_prefix, primes_exhausted, PrimeCache, PrimeError,
};
use crate::primes::is_prime_spec;

verus! {

/// The lock invariant: whatever is stored behind the lock is a well-formed
/// prime cache.
pub struct CacheInv;

impl RwLockPredicate<PrimeCache> for CacheInv {
    open spec fn inv(self, v: PrimeCache) -> bool {
        v.wf()
    }
}

/// The extension permit carries no data; holding its write side is what
/// makes a caller the single extender.
pub struct PermitInv;

impl RwLockPredicate<()> for PermitInv {
    open spec fn inv(self, v: ()) -> bool {
        true
    }
}

/// How many optimistic rounds an extender restarts from a cache that moved
/// under it before it falls back to extending under the exclusive data lock.
/// With the permit held nothing else appends, so the budget is never spent
/// in practice; it exists so every loop provably terminates.
const RESYNC_BUDGET: usize = 16;

/// The prime cache extender: the append-only cache together with the
/// extension permit, shared by reference among any number of callers.
pub struct SharedPrimeCache {
    data: RwLock<PrimeCache, CacheInv>,
    permit: RwLock<(), PermitInv>,
}

impl SharedPrimeCache {
    /// A fresh shared cache, seeded with the first prime.
    pub fn new() -> (c: Self) {
        SharedPrimeCache {
            data: RwLock::new(PrimeCache::new(), Ghost(CacheInv)),
            permit: RwLock::new((), Ghost(PermitInv)),
        }
    }

    /// The prime of rank `n`, read directly when rank `n` is already
    /// committed (the fast path never touches the permit) and computed under
    /// the extension permit otherwise. Whichever caller answers, the answer
    /// is the one prime of that rank; failure means the primes representable
    /// in `usize` ran out before rank `n` was reached.
    pub fn nth_prime(&self, n: usize) -> (r: Result<usize, PrimeError>)
        ensures
            (r matches Ok(p) ==> is_nth_prime(n as int, p)),
            (r is Err ==> primes_exhausted(n as int)),
    {
        let read_handle = self.data.acquire_read();
        let cache = read_handle.borrow();
        if n < cache.len() {
            let p = cache.get(n);
            proof {
                assert(prime_prefix(cache@) && (n as int) < cache@.len() && cache@[n as int]
                    == p);
            }
            read_handle.release_read();
            return Ok(p);
        }
        read_handle.release_read();
        let (permit, permit_handle) = self.permit.acquire_write();
        let r = match self.extend_stepwise(n) {
            Some(answer) => answer,
            None => self.extend_exclusive(n),
        };
        permit_handle.release_write(permit);
        r
    }

    /// Grows the cache up to rank `n` while taking the data lock's write
    /// side only for each single append, so concurrent readers keep going
    /// throughout. Facts learned from one snapshot carry to the next because
    /// equal-length prime prefixes are equal; if the cache's length moves
    /// between snapshots more often than the resync budget allows, the
    /// caller must finish by other means (`None`).
    fn extend_stepwise(&self, n: usize) -> (r: Option<Result<usize, PrimeError>>)
        ensures
            (r matches Some(answer) ==> {
                &&& (answer matches Ok(p) ==> is_nth_prime(n as int, p))
                &&& (answer is Err ==> primes_exhausted(n as int))
            }),
    {
        let ghost mut s: Seq<usize> = seq![2usize];
        let mut len: usize = 1;
        let mut candidate: usize = 3;
        let mut budget: usize = RESYNC_BUDGET;
        proof {
            lemma_seed_prime_prefix();
        }
        loop
            invariant
                prime_prefix(s),
                s.len() == len as int,
                len as int <= n as int + 1,
                complete_to(s, candidate as int),
                len <= n ==> candidate as int > s.last() as int,
            decreases
                budget,
                n as int + 1 - len as int,
                usize::MAX as int - candidate as int,
        {
            let read_handle = self.data.acquire_read();
            let snapshot = read_handle.borrow();
            if n < snapshot.len() {
                let p = snapshot.get(n);
                proof {
                    assert(prime_prefix(snapshot@) && (n as int) < snapshot@.len()
                        && snapshot@[n as int] == p);
                }
                read_handle.release_read();
                return Some(Ok(p));
            }
            if snapshot.len() != len {
                if budget == 0 {
                    read_handle.release_read();
                    return None;
                }
                budget = budget - 1;
                len = snapshot.len();
                let last = snapshot.get(len - 1);
                proof {
                    s = snapshot@;
                }
                if last == usize::MAX {
                    proof {
                        assert(complete_to(s, usize::MAX as int + 1));
                        assert(prime_prefix(s) && s.len() <= n as int);
                    }
                    read_handle.release_read();
                    return Some(Err(PrimeError::Overflow));
                }
                candidate = last + 1;
            } else {
                proof {
                    lemma_prime_prefix_eq(snapshot@, s);
                }
            }
            let candidate_is_prime = snapshot.is_prime(candidate);
            read_handle.release_read();
            if candidate_is_prime {
                let (mut cache, write_handle) = self.data.acquire_write();
                if cache.len() == len {
                    if len == usize::MAX {
                        // The length bookkeeping cannot follow one more
                        // append; finish under the exclusive lock instead.
                        write_handle.release_write(cache);
                        return None;
                    }
                    proof {
                        lemma_prime_prefix_eq(cache@, s);
                    }
                    cache.push_prime(candidate);
                    proof {
                        s = cache@;
                        assert(s.last() == candidate);
                        assert(complete_to(s, candidate as int + 1));
                    }
                    write_handle.release_write(cache);
                    len = len + 1;
                    if len <= n {
                        if candidate == usize::MAX {
                            proof {
                                assert(complete_to(s, usize::MAX as int + 1));
                                assert(prime_prefix(s) && s.len() <= n as int);
                            }
                            return Some(Err(PrimeError::Overflow));
                        }
                        candidate = candidate + 1;
                    }
                } else {
                    write_handle.release_write(cache);
                    if budget == 0 {
                        return None;
                    }
                    budget = budget - 1;
                }
            } else {
                proof {
                    assert forall|q: int|
                        2 <= q < candidate as int + 1 && is_prime_spec(q) implies
                    #[trigger] in_cache(s, q) by {
                        assert(q != candidate as int);
                    }
                }
                if candidate == usize::MAX {
                    proof {
                        assert(complete_to(s, usize::MAX as int + 1));
                        assert(prime_prefix(s) && s.len() <= n as int);
                    }
                    return Some(Err(PrimeError::Overflow));
                }
                candidate = candidate + 1;
            }
        }
    }

    /// Grows the cache up to rank `n` while holding the data lock's write
    /// side for the whole extension. Always answers; only reachable when the
    /// stepwise extender ran out of resync budget.
    fn extend_exclusive(&self, n: usize) -> (r: Result<usize, PrimeError>)
        ensures
            (r matches Ok(p) ==> is_nth_prime(n as int, p)),
            (r is Err ==> primes_exhausted(n as int)),
    {
        let (mut cache, write_handle) = self.data.acquire_write();
        let r = cache.nth_prime(n);
        proof {
            if r is Err {
                assert(prime_prefix(cache@) && complete_to(cache@, usize::MAX as int + 1)
                    && cache@.len() <= n as int);
            }
        }
        write_handle.release_write(cache);
        r
    }

    /// The cached prime of rank `n`, if rank `n` is already committed; never
    /// blocks on or waits for an extension.
    pub fn cached(&self, n: usize) -> (r: Option<usize>)
        ensures
            (r matches Some(p) ==> is_nth_prime(n as int, p)),
    {
        let read_handle = self.data.acquire_read();
        let cache = read_handle.borrow();
        let r = if n < cache.len() {
            let p = cache.get(n);
            proof {
                assert(prime_prefix(cache@) && (n as int) < cache@.len() && cache@[n as int]
                    == p);
            }
            Some(p)
        } else {
            None
        };
        read_handle.release_read();
        r
    }
}

} // verus!
