//! Case-insensitive strings and byte strings.
//!
//! Three wrappers are offered:
//! - [`ascii::CaseFold`] compares, orders and hashes bytes after ASCII upper-casing;
//! - [`unicode::CaseFold`] does the same on the full Unicode upper-case mapping of the text;
//! - [`CaseFold`] remembers whether its text is ASCII and takes the fast ASCII path when
//!   both sides are ASCII, and the Unicode path otherwise, with the same results.
use vstd::prelude::*;

pub mod source;
pub mod hashing;
pub mod order;
pub mod ascii;
pub mod unicode;
pub mod laws;
pub mod map;
mod case_fold;

pub use case_fold::{CaseFold, CaseFoldMap, text_key};

verus! {

/// Number of bytes gathered before they are handed to a hasher in one write.
pub const HASH_BUF_SIZE: usize = 16;

} // verus!
