use vstd::prelude::*;

verus! {

/// The failures the vault operations report. Every operation either commits
/// in full or fails with one of these before any state changes.
#[derive(Clone, Copy, Debug, PartialEq, Eq, Structural)]
pub enum VaultError {
    /// A stored nonce no longer reproduces the derived address, the record
    /// is missing, or no nonce in the one-byte search space yields a valid
    /// program-derived address.
    InvalidDerivation,
    /// `initialize` found a record already allocated for this owner.
    AlreadyInitialized,
    /// A transfer would overdraw its source, or a withdrawal would leave
    /// the vault below the reserve floor.
    InsufficientFunds,
}

} // verus!
