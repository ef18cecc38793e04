use prime_cache::cache::PrimeCache;
use prime_cache::shared::SharedPrimeCache;

/// Trial division from scratch, independent of the library's cache.
fn naive_is_prime(n: usize) -> bool {
    if n < 2 {
        return false;
    }
    let mut d: usize = 2;
    while d * d <= n {
        if n % d == 0 {
            return false;
        }
        d += 1;
    }
    true
}

#[test]
fn test_0() {
    let cache = SharedPrimeCache::new();
    assert_eq!(cache.nth_prime(0), Ok(2));
}

#[test]
fn test_1() {
    let cache = SharedPrimeCache::new();
    assert_eq!(cache.nth_prime(1), Ok(3));
}

#[test]
fn test_2() {
    let cache = SharedPrimeCache::new();
    assert_eq!(cache.nth_prime(2), Ok(5));
}

#[test]
fn test_50() {
    let cache = SharedPrimeCache::new();
    assert_eq!(cache.nth_prime(50), Ok(233));
}

#[test]
fn test_999() {
    let cache = SharedPrimeCache::new();
    assert_eq!(cache.nth_prime(999), Ok(7919));
}

#[test]
fn test_9999() {
    let cache = SharedPrimeCache::new();
    assert_eq!(cache.nth_prime(9999), Ok(104729));
}

#[test]
fn test_99999() {
    let cache = SharedPrimeCache::new();
    assert_eq!(cache.nth_prime(99999), Ok(1299709));
}

#[test]
fn boundary_first_call_is_seeded() {
    // Rank 0 is answered from the seed alone, before any extension.
    let cache = SharedPrimeCache::new();
    assert_eq!(cache.cached(0), Some(2));
    assert_eq!(cache.nth_prime(0), Ok(2));
}

#[test]
fn idempotent_repeated_queries() {
    let cache = SharedPrimeCache::new();
    let first = cache.nth_prime(123);
    for _ in 0..5 {
        assert_eq!(cache.nth_prime(123), first);
    }
    // A later, smaller query still sees the same committed entry.
    let small = cache.nth_prime(7);
    assert_eq!(small, Ok(19));
    assert_eq!(cache.nth_prime(123), first);
}

#[test]
fn committed_entries_never_change() {
    let cache = SharedPrimeCache::new();
    let mut before: Vec<usize> = Vec::new();
    for i in 0..30 {
        before.push(cache.nth_prime(i).unwrap());
    }
    // Extending far past the recorded range must leave it untouched.
    cache.nth_prime(2000).unwrap();
    for i in 0..30 {
        assert_eq!(cache.nth_prime(i).unwrap(), before[i]);
    }
}

#[test]
fn monotone_and_prime() {
    let cache = SharedPrimeCache::new();
    let mut prev = 0usize;
    for i in 0..500 {
        let p = cache.nth_prime(i).unwrap();
        assert!(p > prev);
        assert!(naive_is_prime(p));
        prev = p;
    }
}

#[test]
fn far_request_completes() {
    // A request far beyond the current cache length still finishes.
    let cache = SharedPrimeCache::new();
    assert_eq!(cache.nth_prime(5000), Ok(48619));
}

#[test]
fn cached_does_not_extend() {
    let cache = SharedPrimeCache::new();
    assert_eq!(cache.cached(3), None);
    assert_eq!(cache.nth_prime(3), Ok(7));
    assert_eq!(cache.cached(3), Some(7));
    assert_eq!(cache.cached(4), None);
}

#[test]
fn direct_cache_queries() {
    let mut cache = PrimeCache::new();
    assert_eq!(cache.len(), 1);
    assert_eq!(cache.get(0), 2);
    assert_eq!(cache.nth_prime(9), Ok(29));
    // One call grows the cache just far enough to cover the rank.
    assert_eq!(cache.len(), 10);
    assert_eq!(cache.get(9), 29);
    assert_eq!(cache.nth_prime(4), Ok(11));
}

#[test]
fn trial_division_rejects_composites() {
    let mut cache = PrimeCache::new();
    cache.nth_prime(5).unwrap();
    // The cache now ends at 13, so 14 and upward are legitimate candidates.
    assert!(!cache.is_prime(14));
    assert!(!cache.is_prime(15));
    assert!(cache.is_prime(17));
}
