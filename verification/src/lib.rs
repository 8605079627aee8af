//! A custody vault: funds are held at a program-derived address that only
//! program logic can authorize to move. Per owner, a small record fixes the
//! two derivation nonces at creation; every later operation re-derives the
//! addresses and validates the stored nonces before any value moves.

pub mod derivation;
pub mod error;
pub mod laws;
pub mod ledger;
