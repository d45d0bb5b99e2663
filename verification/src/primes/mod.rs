//! A service that tells which numbers are prime.
//!
//! `primes` tests numbers, `large` shows that there are always more of them to
//! be found, and `request` holds what is asked and answered.

pub mod large;
pub mod primes;
pub mod request;
