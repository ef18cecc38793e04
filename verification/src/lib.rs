//! A memoized prime-number service: `nth_prime` answers 0-indexed ranks from
//! a shared, growable, append-only cache of primes. The cache is always a
//! prefix of the infinite sequence of primes; queries past its end grow it
//! under a single-owner extension permit while concurrent readers keep
//! answering from committed entries.

pub mod cache;
pub mod primes;
pub mod shared;
