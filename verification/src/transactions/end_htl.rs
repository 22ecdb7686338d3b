//! Transactions that end a hash-time-lock: they prune its branches or promote them.
use vstd::prelude::*;
use crate::history::state::{MultiLedgerState, StateView};
use crate::history::tree::TreeView;
use crate::ledger::{LedgerId, OwnerId};
use crate::transactions::base::{
    append_ids,
    distinct_ledgers,
    has_distinct_ledgers,
    ledgers_targeted,
    lemma_names_from_step,
    lemma_unique,
    names_from,
    operation_ledger_ids,
    operation_ledgers,
    targeted_ledgers,
    unique,
    without_repetitions,
    LedgerIds,
    Operations,
    SequenceNumbers,
    TransactionId,
    TransactionMetadata,
    TransactionView,
};
use crate::transactions::start_htl::StartHTLTransaction;

verus! {

/// Why a transaction that ends a hash-time-lock is refused.
#[derive(Clone, Copy, Debug, PartialEq, Eq)]
pub enum Error {
    /// The transaction is not acceptable as a whole: a history refuses with it a
    /// transaction whose id is already recorded.
    InvalidTransaction,
    /// No ledger carries a branch of this lock: it was never opened, or it has
    /// already been pruned or promoted.
    NotPending,
}

/// The mathematical content of an [`EndHTLTransaction`].
pub struct EndHTLView {
    /// The parts it shares with every transaction.
    pub tx: TransactionView,
    /// The id of the transaction that started the lock.
    pub start_htl_id: TransactionId,
    /// Whether the lock was fulfilled; otherwise it failed.
    pub fulfilled: bool,
}

impl EndHTLView {
    /// The ledgers that ending the lock requires, each once: those that this
    /// transaction's operations target, then those that the starting
    /// transaction's operations target.
    pub open spec fn required_ledgers(self, start: TransactionView) -> Seq<LedgerId> {
        unique(targeted_ledgers(self.tx.operations) + targeted_ledgers(start.operations))
    }

    /// A ledger is required exactly if an operation of this transaction or of
    /// the starting transaction targets it, and no ledger is required twice.
    pub proof fn lemma_required_ledgers(self, start: TransactionView, ledger: LedgerId)
        ensures
            self.required_ledgers(start).no_duplicates(),
            self.required_ledgers(start).contains(ledger) <==> (exists|i: int|
                0 <= i < self.tx.operations.len() && (#[trigger] self.tx.operations[i]).ledger_id
                    == ledger) || (exists|i: int|
                0 <= i < start.operations.len() && (#[trigger] start.operations[i]).ledger_id
                    == ledger),
    {
        let own = targeted_ledgers(self.tx.operations);
        let other = targeted_ledgers(start.operations);
        let all = own + other;
        lemma_unique(all);
        if all.contains(ledger) {
            let k = choose|k: int| 0 <= k < all.len() && all[k] == ledger;
            if k < own.len() {
                assert(self.tx.operations[k].ledger_id == ledger);
            } else {
                assert(start.operations[k - own.len()].ledger_id == ledger);
            }
        }
        if exists|i: int|
            0 <= i < self.tx.operations.len() && (#[trigger] self.tx.operations[i]).ledger_id
                == ledger {
            let i = choose|i: int|
                0 <= i < self.tx.operations.len() && (#[trigger] self.tx.operations[i]).ledger_id
                    == ledger;
            assert(all[i] == ledger);
        }
        if exists|i: int|
            0 <= i < start.operations.len() && (#[trigger] start.operations[i]).ledger_id == ledger {
            let i = choose|i: int|
                0 <= i < start.operations.len() && (#[trigger] start.operations[i]).ledger_id
                    == ledger;
            assert(all[own.len() + i] == ledger);
        }
    }
}

/// Whether a ledger with a sequence assertion carries a branch keyed by `id`.
pub open spec fn pending(state: StateView, id: TransactionId, seq_nos: Seq<(LedgerId, u64)>) -> bool {
    exists|i: int| 0 <= i < seq_nos.len() && state.has_branch((#[trigger] seq_nos[i]).0, id)
}

/// The tree of one ledger after the lock `id` was resolved on it: without the
/// lock's subtree where it failed, with the lock's branch promoted where it was
/// fulfilled.
pub open spec fn resolved_tree(tree: TreeView, id: TransactionId, fulfilled: bool) -> TreeView {
    if fulfilled {
        tree.promoting(id)
    } else {
        tree.without(id)
    }
}

/// The state after the lock `id` was resolved on every registered ledger that has
/// a sequence assertion from the `from`-th on.
pub open spec fn resolved(
    state: StateView,
    id: TransactionId,
    seq_nos: Seq<(LedgerId, u64)>,
    fulfilled: bool,
    from: int,
) -> StateView {
    StateView {
        ledgers: Map::new(
            |ledger: LedgerId| state.knows(ledger),
            |ledger: LedgerId|
                if names_from(seq_nos, from, ledger) {
                    resolved_tree(state.ledgers[ledger], id, fulfilled)
                } else {
                    state.ledgers[ledger]
                },
        ),
        ..state
    }
}

/// The verdict on a transaction that ends the lock started by `start`: it is
/// accepted exactly if a ledger that `start` has a sequence assertion for still
/// carries a branch of the lock.
pub open spec fn verdict(state: StateView, tx: EndHTLView, start: TransactionView) -> Result<
    (),
    Error,
> {
    if !pending(state, start.id, start.seq_nos) {
        Err(Error::NotPending)
    } else {
        Ok(())
    }
}

/// The state after an accepted transaction that ends the lock started by `start`:
/// the lock is resolved on every ledger that `start` has a sequence assertion for.
/// No operation is applied.
pub open spec fn applied(state: StateView, tx: EndHTLView, start: TransactionView) -> StateView {
    resolved(state, start.id, start.seq_nos, tx.fulfilled, 0)
}

/// With no sequence assertion left, the lock is resolved nowhere.
pub proof fn lemma_resolved_none(
    state: StateView,
    id: TransactionId,
    seq_nos: Seq<(LedgerId, u64)>,
    fulfilled: bool,
)
    ensures
        resolved(state, id, seq_nos, fulfilled, seq_nos.len() as int) == state,
{
    assert(resolved(state, id, seq_nos, fulfilled, seq_nos.len() as int).ledgers =~= state.ledgers);
}

/// Resolving the lock on the ledger of one more sequence assertion. A ledger that
/// carries no branch of the lock, be it that it never did or that a later
/// assertion has resolved it, stays as it is.
pub proof fn lemma_resolved_step(
    state: StateView,
    id: TransactionId,
    seq_nos: Seq<(LedgerId, u64)>,
    fulfilled: bool,
    n: int,
)
    requires
        state.wf(),
        0 < n <= seq_nos.len(),
    ensures
        resolved(state, id, seq_nos, fulfilled, n - 1) == if resolved(
            state,
            id,
            seq_nos,
            fulfilled,
            n,
        ).has_branch(seq_nos[n - 1].0, id) {
            if fulfilled {
                resolved(state, id, seq_nos, fulfilled, n).promoting(seq_nos[n - 1].0, id)
            } else {
                resolved(state, id, seq_nos, fulfilled, n).pruning(seq_nos[n - 1].0, id)
            }
        } else {
            resolved(state, id, seq_nos, fulfilled, n)
        },
{
    let ledger = seq_nos[n - 1].0;
    let before = resolved(state, id, seq_nos, fulfilled, n);
    let after = resolved(state, id, seq_nos, fulfilled, n - 1);
    lemma_names_from_step(seq_nos, n);
    if state.knows(ledger) {
        let tree = state.ledgers[ledger];
        assert(state.ledgers.contains_key(ledger));
        tree.lemma_resolved(id);
        if !before.has_branch(ledger, id) {
            if !names_from(seq_nos, n, ledger) {
                tree.lemma_without_absent(id);
            }
            assert(after.ledgers =~= before.ledgers);
        } else {
            assert(!names_from(seq_nos, n, ledger));
            if fulfilled {
                assert(before.promoting(ledger, id).ledgers =~= after.ledgers);
            } else {
                assert(before.pruning(ledger, id).ledgers =~= after.ledgers);
            }
        }
    } else {
        assert(after.ledgers =~= before.ledgers);
    }
}

/// A transaction that ends a hash-time-lock, telling whether the lock was
/// fulfilled or has failed.
pub struct EndHTLTransaction {
    id: TransactionId,
    sender: OwnerId,
    seq_nos: SequenceNumbers,
    metadata: Option<TransactionMetadata>,
    operations: Operations,
    start_htl_id: TransactionId,
    fulfilled: bool,
}

impl EndHTLTransaction {
    /// No ledger has two sequence assertions.
    #[verifier::type_invariant]
    spec fn distinct(self) -> bool {
        distinct_ledgers(self.seq_nos@)
    }
}

impl View for EndHTLTransaction {
    type V = EndHTLView;

    closed spec fn view(&self) -> EndHTLView {
        EndHTLView {
            tx: TransactionView {
                id: self.id,
                sender: self.sender,
                seq_nos: self.seq_nos@,
                metadata: match self.metadata {
                    Some(bytes) => Some(bytes@),
                    None => None,
                },
                operations: self.operations@,
            },
            start_htl_id: self.start_htl_id,
            fulfilled: self.fulfilled,
        }
    }
}

impl EndHTLTransaction {
    /// A transaction that ends the lock started by the transaction `start_htl_id`,
    /// made of the given parts.
    pub fn new(
        id: TransactionId,
        sender: OwnerId,
        seq_nos: SequenceNumbers,
        metadata: Option<TransactionMetadata>,
        operations: Operations,
        start_htl_id: TransactionId,
        fulfilled: bool,
    ) -> (tx: Option<EndHTLTransaction>)
        ensures
            tx is Some <==> distinct_ledgers(seq_nos@),
            tx is Some ==> tx->0@ == (EndHTLView {
                tx: TransactionView {
                    id,
                    sender,
                    seq_nos: seq_nos@,
                    metadata: match metadata {
                        Some(bytes) => Some(bytes@),
                        None => None,
                    },
                    operations: operations@,
                },
                start_htl_id,
                fulfilled,
            }),
    {
        if has_distinct_ledgers(&seq_nos) {
            Some(EndHTLTransaction { id, sender, seq_nos, metadata, operations, start_htl_id, fulfilled })
        } else {
            None
        }
    }

    /// The transaction's id.
    pub fn id(&self) -> (id: TransactionId)
        ensures
            id == self@.tx.id,
    {
        self.id
    }

    /// The party that sent the transaction.
    pub fn sender(&self) -> (sender: OwnerId)
        ensures
            sender == self@.tx.sender,
    {
        self.sender
    }

    /// The id of the transaction that started the lock.
    pub fn start_htl_id(&self) -> (id: TransactionId)
        ensures
            id == self@.start_htl_id,
    {
        self.start_htl_id
    }

    /// Whether the lock was fulfilled; otherwise it failed.
    pub fn is_fulfilled(&self) -> (fulfilled: bool)
        ensures
            fulfilled == self@.fulfilled,
    {
        self.fulfilled
    }

    /// The sequence numbers the transaction asserts.
    pub fn seq_nos(&self) -> (seq_nos: &SequenceNumbers)
        ensures
            seq_nos@ == self@.tx.seq_nos,
            distinct_ledgers(seq_nos@),
    {
        proof {
            use_type_invariant(self);
        }
        &self.seq_nos
    }

    /// The operations the transaction carries.
    pub fn operations(&self) -> (operations: Option<&Operations>)
        ensures
            operations is Some,
            operations->0@ == self@.tx.operations,
    {
        Some(&self.operations)
    }

    /// The bytes attached to the transaction, if any.
    pub fn metadata(&self) -> (metadata: Option<&TransactionMetadata>)
        ensures
            metadata is Some <==> self@.tx.metadata is Some,
            metadata is Some ==> metadata->0@ == self@.tx.metadata->0,
    {
        self.metadata.as_ref()
    }

    /// The ledgers that the operations target, each once.
    pub fn operation_ledger_ids(&self) -> (ids: LedgerIds)
        ensures
            ids@ == operation_ledgers(self@.tx.operations),
            ids@.no_duplicates(),
    {
        operation_ledger_ids(&self.operations)
    }

    /// The ledgers that ending the lock requires, each once: those that this
    /// transaction's operations target, then those that the starting
    /// transaction's operations target.
    pub fn required_ledger_ids(&self, start_htl: &StartHTLTransaction) -> (ids: Option<LedgerIds>)
        ensures
            ids is Some,
            ids->0@ == self@.required_ledgers(start_htl@),
            ids->0@.no_duplicates(),
    {
        let mut ids = ledgers_targeted(&self.operations);
        let start_ids = ledgers_targeted(start_htl.operations().unwrap());
        append_ids(&mut ids, &start_ids);
        Some(without_repetitions(&ids))
    }

    /// Whether a ledger that the starting transaction has a sequence assertion
    /// for carries a branch of the lock.
    fn is_pending(start_htl: &StartHTLTransaction, state: &MultiLedgerState) -> (found: bool)
        requires
            state.wf(),
        ensures
            found == pending(state@, start_htl@.id, start_htl@.seq_nos),
    {
        let seq_nos = start_htl.seq_nos();
        let id = start_htl.id();
        let mut i: usize = 0;
        while i < seq_nos.len()
            invariant
                state.wf(),
                seq_nos@ == start_htl@.seq_nos,
                id == start_htl@.id,
                i <= seq_nos.len(),
                forall|j: int| 0 <= j < i ==> !state@.has_branch((#[trigger] seq_nos@[j]).0, id),
            decreases seq_nos.len() - i,
        {
            if state.has_branch(seq_nos[i].0, id) {
                assert(state@.has_branch(seq_nos@[i as int].0, id));
                return true;
            }
            i = i + 1;
        }
        false
    }

    /// Tells whether the transaction would be accepted, without changing the
    /// state.
    pub fn validate(&self, start_htl: &StartHTLTransaction, state: &MultiLedgerState) -> (res: Result<
        (),
        Error,
    >)
        requires
            state.wf(),
        ensures
            res == verdict(state@, self@, start_htl@),
    {
        if !Self::is_pending(start_htl, state) {
            Err(Error::NotPending)
        } else {
            Ok(())
        }
    }

    /// Validates the transaction and, if it is acceptable, resolves the lock on
    /// every ledger that the starting transaction has a sequence assertion for.
    /// Where the lock failed, its branch goes with all that was forked from it.
    /// Where it was fulfilled, its branch becomes canonical, and the branches that
    /// were forked from the same base after it go with all that was forked from
    /// them. Ledgers that carry no branch of the lock stay as they are, and so
    /// does everything where the transaction is refused.
    pub fn validate_and_apply(
        &self,
        start_htl: &StartHTLTransaction,
        state: &mut MultiLedgerState,
    ) -> (res: Result<(), Error>)
        requires
            old(state).wf(),
        ensures
            final(state).wf(),
            res == verdict(old(state)@, self@, start_htl@),
            res is Ok ==> final(state)@ == applied(old(state)@, self@, start_htl@),
            res is Err ==> final(state)@ == old(state)@,
    {
        match self.validate(start_htl, state) {
            Err(e) => {
                return Err(e);
            },
            Ok(()) => {},
        }
        let seq_nos = start_htl.seq_nos();
        let id = start_htl.id();
        let ghost before = state@;
        let mut n: usize = seq_nos.len();
        proof {
            lemma_resolved_none(before, id, seq_nos@, self@.fulfilled);
        }
        while n > 0
            invariant
                state.wf(),
                before.wf(),
                n <= seq_nos.len(),
                state@ == resolved(before, id, seq_nos@, self@.fulfilled, n as int),
            decreases n,
        {
            n = n - 1;
            let ledger_id = seq_nos[n].0;
            proof {
                lemma_resolved_step(before, id, seq_nos@, self@.fulfilled, n + 1);
            }
            if state.has_branch(ledger_id, id) {
                if self.fulfilled {
                    state.promote(ledger_id, id);
                } else {
                    state.prune(ledger_id, id);
                }
            }
        }
        Ok(())
    }
}

} // verus!
