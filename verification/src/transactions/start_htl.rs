//! Transactions that start a hash-time-lock: they fork the ledgers they name.
use vstd::prelude::*;
use crate::history::state::{MultiLedgerState, StateView};
use crate::history::forest::BranchView;
use crate::ledger::{LedgerId, OwnerId};
use crate::operations::Operation;
use crate::transactions::base::{
    admissible,
    distinct_ledgers,
    has_distinct_ledgers,
    applicable,
    is_admissible,
    operation_ledger_ids,
    operation_ledgers,
    referenced_ledger_ids,
    lemma_names_from_step,
    names_from,
    stage,
    LedgerIds,
    Operations,
    SequenceNumbers,
    TransactionId,
    TransactionMetadata,
    TransactionView,
};

verus! {

/// Why a transaction that starts a hash-time-lock is refused.
#[derive(Clone, Copy, Debug, PartialEq, Eq)]
pub enum Error {
    /// The transaction as a whole is not acceptable: an operation names a ledger
    /// without a sequence assertion, a ledger with a sequence assertion is not
    /// registered or not owned by the sender, a sequence assertion does not hold,
    /// or a ledger already carries a branch under this transaction's id.
    InvalidTransaction,
    /// One of the operations cannot be applied when its turn comes.
    InvalidOperation,
}

/// No ledger with a sequence assertion carries a branch keyed by `id`.
pub open spec fn unopened(state: StateView, id: TransactionId, seq_nos: Seq<(LedgerId, u64)>) -> bool {
    forall|i: int| 0 <= i < seq_nos.len() ==> !state.has_branch((#[trigger] seq_nos[i]).0, id)
}

/// The branch that the transaction `id` opens on a registered ledger: a copy of
/// the canonical history with the operations applied, forked from the canonical
/// history.
pub open spec fn opened(
    state: StateView,
    id: TransactionId,
    operations: Seq<Operation>,
    ledger: LedgerId,
) -> BranchView {
    BranchView {
        htl_id: id,
        parent: None,
        history: state.canonical(ledger).applied_all(operations)->0,
    }
}

/// The state after the branch of the transaction `id` was opened on every
/// registered ledger that has a sequence assertion from the `from`-th on.
pub open spec fn forked(
    state: StateView,
    id: TransactionId,
    seq_nos: Seq<(LedgerId, u64)>,
    operations: Seq<Operation>,
    from: int,
) -> StateView {
    StateView {
        ledgers: Map::new(
            |ledger: LedgerId| state.knows(ledger),
            |ledger: LedgerId|
                if names_from(seq_nos, from, ledger) {
                    state.ledgers[ledger].with_branch(opened(state, id, operations, ledger))
                } else {
                    state.ledgers[ledger]
                },
        ),
        ..state
    }
}

/// The verdict on a transaction that starts a hash-time-lock: the first rule it
/// breaks, if any.
pub open spec fn verdict(state: StateView, tx: TransactionView) -> Result<(), Error> {
    if !admissible(state, tx.sender, tx.seq_nos, tx.operations) {
        Err(Error::InvalidTransaction)
    } else if !unopened(state, tx.id, tx.seq_nos) {
        Err(Error::InvalidTransaction)
    } else if !applicable(state, tx.seq_nos, tx.operations) {
        Err(Error::InvalidOperation)
    } else {
        Ok(())
    }
}

/// The state after an accepted transaction that starts a hash-time-lock: every
/// ledger with a sequence assertion carries one more branch, keyed by the
/// transaction's id; the canonical histories are as before.
pub open spec fn applied(state: StateView, tx: TransactionView) -> StateView {
    forked(state, tx.id, tx.seq_nos, tx.operations, 0)
}

/// With no sequence assertion left, no branch is opened.
pub proof fn lemma_forked_none(
    state: StateView,
    id: TransactionId,
    seq_nos: Seq<(LedgerId, u64)>,
    operations: Seq<Operation>,
)
    ensures
        forked(state, id, seq_nos, operations, seq_nos.len() as int) == state,
{
    assert(forked(state, id, seq_nos, operations, seq_nos.len() as int).ledgers =~= state.ledgers);
}

/// Opening the branch on the ledger of one more sequence assertion: a ledger that
/// a later assertion names has it already.
pub proof fn lemma_forked_step(
    state: StateView,
    id: TransactionId,
    seq_nos: Seq<(LedgerId, u64)>,
    operations: Seq<Operation>,
    n: int,
)
    requires
        0 < n <= seq_nos.len(),
        state.knows(seq_nos[n - 1].0),
        unopened(state, id, seq_nos),
    ensures
        forked(state, id, seq_nos, operations, n).knows(seq_nos[n - 1].0),
        forked(state, id, seq_nos, operations, n).has_branch(seq_nos[n - 1].0, id) == names_from(
            seq_nos,
            n,
            seq_nos[n - 1].0,
        ),
        forked(state, id, seq_nos, operations, n - 1) == if names_from(
            seq_nos,
            n,
            seq_nos[n - 1].0,
        ) {
            forked(state, id, seq_nos, operations, n)
        } else {
            forked(state, id, seq_nos, operations, n).branching(
                seq_nos[n - 1].0,
                opened(state, id, operations, seq_nos[n - 1].0),
            )
        },
{
    let ledger = seq_nos[n - 1].0;
    let before = forked(state, id, seq_nos, operations, n);
    let after = forked(state, id, seq_nos, operations, n - 1);
    let branch = opened(state, id, operations, ledger);
    assert(!state.has_branch(seq_nos[n - 1].0, id));
    lemma_names_from_step(seq_nos, n);
    if names_from(seq_nos, n, ledger) {
        let pushed = state.ledgers[ledger].branches.push(branch);
        assert(pushed[pushed.len() - 1].htl_id == id);
        assert(after.ledgers =~= before.ledgers);
    } else {
        assert(before.branching(ledger, branch).ledgers =~= after.ledgers);
    }
}

/// A transaction that forks every ledger it names: its operations are applied to
/// the forks, which are kept as branches keyed by the transaction's id, and the
/// canonical histories stay as they are.
pub struct StartHTLTransaction {
    id: TransactionId,
    sender: OwnerId,
    seq_nos: SequenceNumbers,
    metadata: Option<TransactionMetadata>,
    operations: Operations,
}

impl StartHTLTransaction {
    /// No ledger has two sequence assertions.
    #[verifier::type_invariant]
    spec fn distinct(self) -> bool {
        distinct_ledgers(self.seq_nos@)
    }
}

impl View for StartHTLTransaction {
    type V = TransactionView;

    closed spec fn view(&self) -> TransactionView {
        TransactionView {
            id: self.id,
            sender: self.sender,
            seq_nos: self.seq_nos@,
            metadata: match self.metadata {
                Some(bytes) => Some(bytes@),
                None => None,
            },
            operations: self.operations@,
        }
    }
}

impl StartHTLTransaction {
    /// A transaction that starts a hash-time-lock, made of the given parts.
    pub fn new(
        id: TransactionId,
        sender: OwnerId,
        seq_nos: SequenceNumbers,
        metadata: Option<TransactionMetadata>,
        operations: Operations,
    ) -> (tx: Option<StartHTLTransaction>)
        ensures
            tx is Some <==> distinct_ledgers(seq_nos@),
            tx is Some ==> tx->0@ == (TransactionView {
                id,
                sender,
                seq_nos: seq_nos@,
                metadata: match metadata {
                    Some(bytes) => Some(bytes@),
                    None => None,
                },
                operations: operations@,
            }),
    {
        if has_distinct_ledgers(&seq_nos) {
            Some(StartHTLTransaction { id, sender, seq_nos, metadata, operations })
        } else {
            None
        }
    }

    /// The transaction's id, which is also the key of the branches it opens.
    pub fn id(&self) -> (id: TransactionId)
        ensures
            id == self@.id,
    {
        self.id
    }

    /// The party that sent the transaction.
    pub fn sender(&self) -> (sender: OwnerId)
        ensures
            sender == self@.sender,
    {
        self.sender
    }

    /// The sequence numbers the transaction asserts.
    pub fn seq_nos(&self) -> (seq_nos: &SequenceNumbers)
        ensures
            seq_nos@ == self@.seq_nos,
            distinct_ledgers(seq_nos@),
    {
        proof {
            use_type_invariant(self);
        }
        &self.seq_nos
    }

    /// The operations the transaction carries.
    pub fn operations(&self) -> (operations: Option<&Operations>)
        ensures
            operations is Some,
            operations->0@ == self@.operations,
    {
        Some(&self.operations)
    }

    /// The bytes attached to the transaction, if any.
    pub fn metadata(&self) -> (metadata: Option<&TransactionMetadata>)
        ensures
            metadata is Some <==> self@.metadata is Some,
            metadata is Some ==> metadata->0@ == self@.metadata->0,
    {
        self.metadata.as_ref()
    }

    /// The ledgers that the operations target, each once.
    pub fn operation_ledger_ids(&self) -> (ids: LedgerIds)
        ensures
            ids@ == operation_ledgers(self@.operations),
            ids@.no_duplicates(),
    {
        operation_ledger_ids(&self.operations)
    }

    /// Every ledger the transaction mentions, each once: those of its sequence
    /// assertions, then those of its operations.
    pub fn required_ledger_ids(&self) -> (ids: Option<LedgerIds>)
        ensures
            ids is Some,
            ids->0@ == self@.referenced_ledgers(),
            ids->0@.no_duplicates(),
    {
        Some(referenced_ledger_ids(&self.seq_nos, &self.operations))
    }

    /// Whether no ledger with a sequence assertion carries a branch under this
    /// transaction's id yet.
    fn is_unopened(&self, state: &MultiLedgerState) -> (ok: bool)
        requires
            state.wf(),
        ensures
            ok == unopened(state@, self@.id, self@.seq_nos),
    {
        let mut i: usize = 0;
        while i < self.seq_nos.len()
            invariant
                state.wf(),
                i <= self.seq_nos.len(),
                forall|j: int|
                    0 <= j < i ==> !state@.has_branch((#[trigger] self@.seq_nos[j]).0, self@.id),
            decreases self.seq_nos.len() - i,
        {
            if state.has_branch(self.seq_nos[i].0, self.id) {
                return false;
            }
            i = i + 1;
        }
        true
    }

    /// Tells whether the transaction would be accepted, without changing the
    /// state.
    pub fn validate(&self, state: &MultiLedgerState) -> (res: Result<(), Error>)
        requires
            state.wf(),
        ensures
            res == verdict(state@, self@),
    {
        if !is_admissible(self.sender, &self.seq_nos, &self.operations, state) {
            return Err(Error::InvalidTransaction);
        }
        if !self.is_unopened(state) {
            return Err(Error::InvalidTransaction);
        }
        match stage(&self.seq_nos, &self.operations, state) {
            None => Err(Error::InvalidOperation),
            Some(_) => Ok(()),
        }
    }

    /// Validates the transaction and, if it is acceptable, forks every ledger it
    /// names: a copy of the canonical history with the operations applied becomes
    /// a branch keyed by the transaction's id. Either all ledgers are forked or,
    /// where the transaction is refused, nothing changes.
    pub fn validate_and_apply(&self, state: &mut MultiLedgerState) -> (res: Result<(), Error>)
        requires
            old(state).wf(),
        ensures
            final(state).wf(),
            res == verdict(old(state)@, self@),
            res is Ok ==> final(state)@ == applied(old(state)@, self@),
            res is Err ==> final(state)@ == old(state)@,
    {
        if !is_admissible(self.sender, &self.seq_nos, &self.operations, state) {
            return Err(Error::InvalidTransaction);
        }
        if !self.is_unopened(state) {
            return Err(Error::InvalidTransaction);
        }
        let mut staged = match stage(&self.seq_nos, &self.operations, state) {
            None => {
                return Err(Error::InvalidOperation);
            },
            Some(staged) => staged,
        };
        let ghost before = state@;
        let mut n: usize = self.seq_nos.len();
        proof {
            lemma_forked_none(before, self@.id, self@.seq_nos, self@.operations);
        }
        while n > 0
            invariant
                state.wf(),
                n <= self.seq_nos.len(),
                staged.len() == n,
                unopened(before, self@.id, self@.seq_nos),
                forall|i: int|
                    0 <= i < self.seq_nos.len() ==> before.knows((#[trigger] self@.seq_nos[i]).0),
                forall|i: int|
                    0 <= i < n ==> (#[trigger] staged@[i])@ == before.canonical(
                        self@.seq_nos[i].0,
                    ).applied_all(self@.operations)->0 && staged@[i]@.ledger.id
                        == self@.seq_nos[i].0,
                state@ == forked(before, self@.id, self@.seq_nos, self@.operations, n as int),
            decreases n,
        {
            let history = staged.pop().unwrap();
            n = n - 1;
            let ledger_id = self.seq_nos[n].0;
            proof {
                assert(before.knows(self@.seq_nos[n as int].0));
                lemma_forked_step(before, self@.id, self@.seq_nos, self@.operations, n + 1);
            }
            if !state.has_branch(ledger_id, self.id) {
                state.open_branch(ledger_id, self.id, None, history);
            }
        }
        Ok(())
    }
}

} // verus!
