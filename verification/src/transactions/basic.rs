//! Basic transactions: operations applied directly to the canonical histories.
use vstd::prelude::*;
use crate::history::state::{MultiLedgerState, StateView};
use crate::ledger::OwnerId;
use crate::transactions::base::{
    admissible,
    distinct_ledgers,
    has_distinct_ledgers,
    applicable,
    committed,
    is_admissible,
    operation_ledger_ids,
    operation_ledgers,
    referenced_ledger_ids,
    lemma_committed_none,
    lemma_committed_step,
    stage,
    LedgerIds,
    Operations,
    SequenceNumbers,
    TransactionId,
    TransactionMetadata,
    TransactionView,
};

verus! {

/// Why a basic transaction is refused.
#[derive(Clone, Copy, Debug, PartialEq, Eq)]
pub enum Error {
    /// The transaction as a whole is not acceptable: an operation names a ledger
    /// without a sequence assertion, a ledger with a sequence assertion is not
    /// registered or not owned by the sender, or a sequence assertion does not
    /// hold.
    InvalidTransaction,
    /// One of the operations cannot be applied when its turn comes.
    InvalidOperation,
}

/// The verdict on a basic transaction: the first rule it breaks, if any.
pub open spec fn verdict(state: StateView, tx: TransactionView) -> Result<(), Error> {
    if !admissible(state, tx.sender, tx.seq_nos, tx.operations) {
        Err(Error::InvalidTransaction)
    } else if !applicable(state, tx.seq_nos, tx.operations) {
        Err(Error::InvalidOperation)
    } else {
        Ok(())
    }
}

/// The state after an accepted basic transaction: on every ledger with a sequence
/// assertion, the canonical history with the transaction's operations applied.
pub open spec fn applied(state: StateView, tx: TransactionView) -> StateView {
    committed(state, tx.seq_nos, tx.operations, 0)
}

/// A transaction whose operations are applied directly to the canonical histories
/// of the ledgers it names.
pub struct BasicTransaction {
    id: TransactionId,
    sender: OwnerId,
    seq_nos: SequenceNumbers,
    metadata: Option<TransactionMetadata>,
    operations: Operations,
}

impl BasicTransaction {
    /// No ledger has two sequence assertions.
    #[verifier::type_invariant]
    spec fn distinct(self) -> bool {
        distinct_ledgers(self.seq_nos@)
    }
}

impl View for BasicTransaction {
    type V = TransactionView;

    closed spec fn view(&self) -> TransactionView {
        TransactionView {
            id: self.id,
            sender: self.sender,
            seq_nos: self.seq_nos@,
            metadata: match self.metadata {
                Some(bytes) => Some(bytes@),
                None => None,
            },
            operations: self.operations@,
        }
    }
}

impl BasicTransaction {
    /// A basic transaction made of the given parts.
    pub fn new(
        id: TransactionId,
        sender: OwnerId,
        seq_nos: SequenceNumbers,
        metadata: Option<TransactionMetadata>,
        operations: Operations,
    ) -> (tx: Option<BasicTransaction>)
        ensures
            tx is Some <==> distinct_ledgers(seq_nos@),
            tx is Some ==> tx->0@ == (TransactionView {
                id,
                sender,
                seq_nos: seq_nos@,
                metadata: match metadata {
                    Some(bytes) => Some(bytes@),
                    None => None,
                },
                operations: operations@,
            }),
    {
        if has_distinct_ledgers(&seq_nos) {
            Some(BasicTransaction { id, sender, seq_nos, metadata, operations })
        } else {
            None
        }
    }

    /// The transaction's id.
    pub fn id(&self) -> (id: TransactionId)
        ensures
            id == self@.id,
    {
        self.id
    }

    /// The party that sent the transaction.
    pub fn sender(&self) -> (sender: OwnerId)
        ensures
            sender == self@.sender,
    {
        self.sender
    }

    /// The sequence numbers the transaction asserts.
    pub fn seq_nos(&self) -> (seq_nos: &SequenceNumbers)
        ensures
            seq_nos@ == self@.seq_nos,
            distinct_ledgers(seq_nos@),
    {
        proof {
            use_type_invariant(self);
        }
        &self.seq_nos
    }

    /// The operations the transaction carries.
    pub fn operations(&self) -> (operations: Option<&Operations>)
        ensures
            operations is Some,
            operations->0@ == self@.operations,
    {
        Some(&self.operations)
    }

    /// The bytes attached to the transaction, if any.
    pub fn metadata(&self) -> (metadata: Option<&TransactionMetadata>)
        ensures
            metadata is Some <==> self@.metadata is Some,
            metadata is Some ==> metadata->0@ == self@.metadata->0,
    {
        self.metadata.as_ref()
    }

    /// The ledgers that the operations target, each once.
    pub fn operation_ledger_ids(&self) -> (ids: LedgerIds)
        ensures
            ids@ == operation_ledgers(self@.operations),
            ids@.no_duplicates(),
    {
        operation_ledger_ids(&self.operations)
    }

    /// Every ledger the transaction mentions, each once: those of its sequence
    /// assertions, then those of its operations.
    pub fn required_ledger_ids(&self) -> (ids: Option<LedgerIds>)
        ensures
            ids is Some,
            ids->0@ == self@.referenced_ledgers(),
            ids->0@.no_duplicates(),
    {
        Some(referenced_ledger_ids(&self.seq_nos, &self.operations))
    }

    /// Tells whether the transaction would be accepted, without changing the
    /// state.
    pub fn validate(&self, state: &MultiLedgerState) -> (res: Result<(), Error>)
        requires
            state.wf(),
        ensures
            res == verdict(state@, self@),
    {
        if !is_admissible(self.sender, &self.seq_nos, &self.operations, state) {
            return Err(Error::InvalidTransaction);
        }
        match stage(&self.seq_nos, &self.operations, state) {
            None => Err(Error::InvalidOperation),
            Some(_) => Ok(()),
        }
    }

    /// Validates the transaction and, if it is acceptable, applies its operations
    /// to the canonical history of every ledger it names. A transaction that is
    /// refused changes nothing.
    pub fn validate_and_apply(&self, state: &mut MultiLedgerState) -> (res: Result<(), Error>)
        requires
            old(state).wf(),
        ensures
            final(state).wf(),
            res == verdict(old(state)@, self@),
            res is Ok ==> final(state)@ == applied(old(state)@, self@),
            res is Err ==> final(state)@ == old(state)@,
    {
        if !is_admissible(self.sender, &self.seq_nos, &self.operations, state) {
            return Err(Error::InvalidTransaction);
        }
        let mut staged = match stage(&self.seq_nos, &self.operations, state) {
            None => {
                return Err(Error::InvalidOperation);
            },
            Some(staged) => staged,
        };
        let ghost before = state@;
        let mut n: usize = self.seq_nos.len();
        proof {
            lemma_committed_none(before, self@.seq_nos, self@.operations);
        }
        while n > 0
            invariant
                state.wf(),
                n <= self.seq_nos.len(),
                staged.len() == n,
                forall|i: int| 0 <= i < self.seq_nos.len() ==> before.knows((#[trigger] self@.seq_nos[i]).0),
                forall|i: int|
                    0 <= i < n ==> (#[trigger] staged@[i])@ == before.canonical(
                        self@.seq_nos[i].0,
                    ).applied_all(self@.operations)->0 && staged@[i]@.ledger.id
                        == self@.seq_nos[i].0,
                state@ == committed(before, self@.seq_nos, self@.operations, n as int),
            decreases n,
        {
            let history = staged.pop().unwrap();
            n = n - 1;
            let ledger_id = self.seq_nos[n].0;
            proof {
                assert(before.knows(self@.seq_nos[n as int].0));
                lemma_committed_step(before, self@.seq_nos, self@.operations, n + 1);
            }
            state.commit(ledger_id, history);
        }
        Ok(())
    }
}

} // verus!
