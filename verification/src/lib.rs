//! An employee-salary hash table keyed by Jenkins' one-at-a-time hash,
//! together with the command language that drives it and the log it keeps.

pub mod commands;
pub mod hashing;
pub mod line;
pub mod listing;
pub mod logging;
pub mod map;
pub mod primes;
pub mod sort;
pub mod text;
