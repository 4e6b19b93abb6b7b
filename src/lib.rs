//! Finds the dictionary words that can be spelled from a subset of given
//! letters, ranked longest first and then alphabetically.
pub mod signature;
pub mod index;
pub mod search;
pub mod candidates;
