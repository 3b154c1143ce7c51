//! A count-min sketch that estimates how often a key has been seen, in
//! memory that does not grow with the number of keys.

pub mod estimator;
pub mod hashing;
pub mod sketch;
pub mod theorems;
