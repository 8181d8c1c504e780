//! Incremental enumeration of smooth numbers up to a fixed bound, each with
//! its divisor count, kept in an ordered index with range queries.

pub mod composite;
pub mod divisors;
pub mod factor;
pub mod model;
pub mod primes;
pub mod smooths;
