//! The per-transition call contexts: the identities and addresses a caller
//! supplies when invoking one of the three instructions. The runtime is
//! assumed to have verified the caller's signature for the identity named as
//! the signer (`initializer` for `Initialize` / `Cancel`, `taker` for
//! `Exchange`) before the transition runs.

use vstd::prelude::*;

verus! {

/// The call context of `initialize`: who deposits, under which seed, and
/// which asset pair the offer is over.
#[derive(Clone, Copy, PartialEq, Eq, Structural, Debug)]
pub struct Initialize {
    /// The depositor (signer); pays the deposit and becomes the record's
    /// `initializer`.
    pub initializer: u64,
    /// Caller-supplied uniqueness salt; determines the record's address and
    /// its custody authority.
    pub random_seed: u64,
    /// The asset type being deposited.
    pub offering_mint: u64,
    /// The asset type wanted in return.
    pub asking_mint: u64,
    /// The runtime's clock reading, recorded on the new record.
    pub now: u64,
}

/// The call context of `cancel`: who asks, and which record.
#[derive(Clone, Copy, PartialEq, Eq, Structural, Debug)]
pub struct Cancel {
    /// The caller (signer); must be the record's initializer.
    pub initializer: u64,
    /// The seed of the record being cancelled.
    pub random_seed: u64,
}

/// The call context of `exchange`: who takes, and which record.
#[derive(Clone, Copy, PartialEq, Eq, Structural, Debug)]
pub struct Exchange {
    /// The taker (signer): any party paying the ask.
    pub taker: u64,
    /// The seed of the record being settled.
    pub random_seed: u64,
}

} // verus!
