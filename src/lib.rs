//! Named groups with an owner and a bounded member set, and a per-group
//! commit-reveal protocol that picks a winning masked hash from the members'
//! commitments and an outside randomness seed.
//!
//! `calculator` is a small, separate helper for a letter-coded arithmetic
//! notation.

pub mod types;
pub mod hashing;
pub mod order;
pub mod selector;
pub mod pallet;
pub mod calculator;
