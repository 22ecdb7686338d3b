//! Ledgers: the accounts that operations act on.
use vstd::prelude::*;

verus! {

/// Identifies a ledger.
pub type LedgerId = u64;

/// Identifies the party that owns a ledger or sends a transaction.
pub type OwnerId = u64;

/// An account with an owner, a baseline sequence number and a balance.
#[derive(Clone, Copy, Debug, PartialEq, Eq)]
pub struct Ledger {
    pub id: LedgerId,
    pub owner: OwnerId,
    pub seq_no: u64,
    pub balance: u64,
}

impl Ledger {
    /// A ledger with the given identity, baseline sequence number and opening balance.
    pub fn new(id: LedgerId, owner: OwnerId, seq_no: u64, balance: u64) -> (ledger: Ledger)
        ensures
            ledger == (Ledger { id, owner, seq_no, balance }),
    {
        Ledger { id, owner, seq_no, balance }
    }

    /// The ledger's id.
    pub fn id(&self) -> (id: LedgerId)
        ensures
            id == self.id,
    {
        self.id
    }

    /// The ledger's owner.
    pub fn owner(&self) -> (owner: OwnerId)
        ensures
            owner == self.owner,
    {
        self.owner
    }

    /// The sequence number the ledger had when it was registered.
    pub fn seq_no(&self) -> (seq_no: u64)
        ensures
            seq_no == self.seq_no,
    {
        self.seq_no
    }

    /// The ledger's balance.
    pub fn balance(&self) -> (balance: u64)
        ensures
            balance == self.balance,
    {
        self.balance
    }
}

} // verus!
