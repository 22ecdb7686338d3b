//! Operations: the atomic mutations that transactions carry.
use vstd::prelude::*;
use crate::ledger::{Ledger, LedgerId};

verus! {

/// What an operation does to the balance of its ledger.
#[derive(Clone, Copy, Debug, PartialEq, Eq)]
pub enum OperationKind {
    Credit,
    Debit,
}

/// Why an operation cannot be applied to a ledger.
#[derive(Clone, Copy, Debug, PartialEq, Eq)]
pub enum OperationError {
    /// The operation targets another ledger.
    WrongLedger,
    /// A debit exceeds the balance.
    InsufficientBalance,
    /// A credit would take the balance past the largest representable amount.
    BalanceOverflow,
}

/// An atomic mutation of one ledger, tagged with that ledger's id.
#[derive(Clone, Copy, Debug, PartialEq, Eq)]
pub struct Operation {
    pub ledger_id: LedgerId,
    pub kind: OperationKind,
    pub amount: u64,
}

impl Operation {
    /// The verdict of this operation on a ledger: the first rule it breaks, if any.
    pub open spec fn check(self, ledger: Ledger) -> Result<(), OperationError> {
        if self.ledger_id != ledger.id {
            Err(OperationError::WrongLedger)
        } else {
            match self.kind {
                OperationKind::Credit => if ledger.balance + self.amount > u64::MAX {
                    Err(OperationError::BalanceOverflow)
                } else {
                    Ok(())
                },
                OperationKind::Debit => if self.amount > ledger.balance {
                    Err(OperationError::InsufficientBalance)
                } else {
                    Ok(())
                },
            }
        }
    }

    /// Whether the operation may be applied to the ledger.
    pub open spec fn valid_on(self, ledger: Ledger) -> bool {
        self.check(ledger) is Ok
    }

    /// The ledger after the operation; meaningful where the operation is valid.
    pub open spec fn applied_to(self, ledger: Ledger) -> Ledger {
        match self.kind {
            OperationKind::Credit => Ledger {
                balance: (ledger.balance + self.amount) as u64,
                ..ledger
            },
            OperationKind::Debit => Ledger {
                balance: (ledger.balance - self.amount) as u64,
                ..ledger
            },
        }
    }

    /// A credit of `amount` to the ledger `ledger_id`.
    pub fn credit(ledger_id: LedgerId, amount: u64) -> (op: Operation)
        ensures
            op == (Operation { ledger_id, kind: OperationKind::Credit, amount }),
    {
        Operation { ledger_id, kind: OperationKind::Credit, amount }
    }

    /// A debit of `amount` from the ledger `ledger_id`.
    pub fn debit(ledger_id: LedgerId, amount: u64) -> (op: Operation)
        ensures
            op == (Operation { ledger_id, kind: OperationKind::Debit, amount }),
    {
        Operation { ledger_id, kind: OperationKind::Debit, amount }
    }

    /// The id of the ledger this operation targets.
    pub fn ledger_id(&self) -> (id: LedgerId)
        ensures
            id == self.ledger_id,
    {
        self.ledger_id
    }

    /// Checks the operation against a ledger without changing it.
    pub fn validate(&self, ledger: &Ledger) -> (res: Result<(), OperationError>)
        ensures
            res == self.check(*ledger),
    {
        if self.ledger_id != ledger.id {
            return Err(OperationError::WrongLedger);
        }
        match self.kind {
            OperationKind::Credit => {
                if self.amount > u64::MAX - ledger.balance {
                    Err(OperationError::BalanceOverflow)
                } else {
                    Ok(())
                }
            },
            OperationKind::Debit => {
                if self.amount > ledger.balance {
                    Err(OperationError::InsufficientBalance)
                } else {
                    Ok(())
                }
            },
        }
    }

    /// Applies the operation to a ledger. An invalid operation leaves the ledger as it was.
    pub fn apply(&self, ledger: &mut Ledger) -> (res: Result<(), OperationError>)
        ensures
            res == self.check(*old(ledger)),
            res is Ok ==> *final(ledger) == self.applied_to(*old(ledger)),
            res is Err ==> *final(ledger) == *old(ledger),
    {
        match self.validate(ledger) {
            Err(e) => Err(e),
            Ok(()) => {
                match self.kind {
                    OperationKind::Credit => {
                        ledger.balance = ledger.balance + self.amount;
                    },
                    OperationKind::Debit => {
                        ledger.balance = ledger.balance - self.amount;
                    },
                }
                Ok(())
            },
        }
    }
}

} // verus!
