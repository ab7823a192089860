//! The data model: authorities, asset holdings, and the escrow record.
//!
//! Identities, asset types (mints) and seeds are plain 64-bit identifiers:
//! they stand for the opaque addresses of the underlying ledger runtime, whose
//! only role in the state machine is to be compared for equality.

use vstd::prelude::*;

verus! {

/// Who controls an asset holding: an ordinary party (a key somebody can sign
/// for), or the authority derived from an escrow record's seed. No key exists
/// for a derived authority, so only the state machine itself can move funds
/// out of a custody holding.
#[derive(Clone, Copy, PartialEq, Eq, Structural, Debug)]
pub enum Authority {
    Party { key: u64 },
    Derived { seed: u64 },
}

/// One fungible-asset holding: `amount` units of the asset type `mint`,
/// controlled by `owner`. Holdings are keyed by `(owner, mint)`: a ledger
/// never carries two holdings with the same owner and mint (associated-account
/// semantics), so the asset type of every holding a transition touches matches
/// the record's declared mints structurally.
#[derive(Clone, Copy, PartialEq, Eq, Structural, Debug)]
pub struct Holding {
    pub owner: Authority,
    pub mint: u64,
    pub amount: u64,
}

/// One open swap offer. All fields are written once by `initialize` and never
/// mutated; the record is destroyed by whichever of `cancel` / `exchange`
/// commits first.
#[derive(Clone, Copy, PartialEq, Eq, Structural, Debug)]
pub struct Escrow {
    /// Caller-supplied uniqueness salt; together with the namespace tag it
    /// determines the record's address and its custody authority.
    pub random_seed: u64,
    /// The depositor; sole authority for `cancel`.
    pub initializer: u64,
    /// The asset type deposited into custody.
    pub offering_mint: u64,
    /// The deposited quantity; held in custody in full while the record is open.
    pub offering_amount: u64,
    /// The asset type the initializer wants in return.
    pub asking_mint: u64,
    /// The quantity required to satisfy the offer.
    pub asking_amount: u64,
    /// When the record was created; informational only.
    pub initialize_date: u64,
}

impl Escrow {
    /// The fixed namespace tag under which record addresses are derived:
    /// the bytes of `"escrow"`.
    pub fn seed() -> (r: Vec<u8>)
        ensures
            r@ =~= seq![101u8, 115u8, 99u8, 114u8, 111u8, 119u8],
    {
        let mut r: Vec<u8> = Vec::new();
        r.push(101u8);
        r.push(115u8);
        r.push(99u8);
        r.push(114u8);
        r.push(111u8);
        r.push(119u8);
        r
    }
}

/// Why a transition was rejected. Every rejection leaves the ledger unchanged.
#[derive(Clone, Copy, PartialEq, Eq, Structural, Debug)]
pub enum EscrowError {
    /// `initialize`: a record already occupies the address for this seed.
    RecordExists,
    /// `cancel` / `exchange`: no record exists for this seed (already settled
    /// or never created).
    RecordNotFound,
    /// `initialize`: the offered or asked quantity is zero.
    InvalidAmount,
    /// The paying holding does not cover the required quantity.
    InsufficientBalance,
    /// `cancel`: the initializer has no holding for the offered asset to
    /// receive the refund into.
    MissingHolding,
    /// `cancel`: the caller is not the record's initializer.
    Unauthorized,
    /// Crediting the destination holding would overflow its 64-bit balance.
    BalanceOverflow,
}

} // verus!
