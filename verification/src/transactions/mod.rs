//! Transactions: requests that bundle operations with per-ledger sequence assertions.
use vstd::prelude::*;
use std::collections::HashMap;
use self::base::{
    append_ids,
    check_sequence_numbers,
    distinct_ledgers,
    lemma_unique,
    names,
    referenced_ledger_ids,
    unique,
    without_repetitions,
    sequence_verdict,
    LedgerIds,
    Operations,
    SequenceNumbers,
    TransactionId,
    TransactionView,
};
use self::basic::BasicTransaction;
use self::basic::Error as BasicError;
use self::end_htl::EndHTLTransaction;
use self::end_htl::EndHTLView;
use self::end_htl::Error as EndHTLError;
use self::start_htl::Error as StartHTLError;
use self::start_htl::StartHTLTransaction;
use crate::history::state::{MultiLedgerState, StateView, TransactionEffect};
use crate::ledger::LedgerId;

pub mod base;
pub mod basic;
pub mod end_htl;
pub mod start_htl;

verus! {

/// Why a transaction is refused.
#[derive(Clone, Copy, Debug, PartialEq, Eq)]
pub enum Error {
    /// Kept for callers that tell an unknown starting transaction from a wrongly
    /// typed one; this library reports both as `InvalidStartHTLError`.
    NonExistentStartHTLError,
    /// The transaction ends a hash-time-lock whose starting transaction is not
    /// recorded, or is recorded as another kind of transaction.
    InvalidStartHTLError,
    /// A ledger that the transaction requires is not registered, or the ledgers it
    /// requires cannot be told.
    InvalidEndHTLError,
    /// The ledger's next sequence number cannot be told: it does not fit in 64 bits.
    InvalidSequenceNumberError,
    /// The asserted sequence number has already been used on the ledger.
    RepeatedSequenceNumberError,
    /// The asserted sequence number lies beyond the ledger's next one: transactions
    /// are missing in between.
    SkippedSequenceNumberError,
    /// A basic transaction was refused.
    BasicError(BasicError),
    /// A transaction that starts a hash-time-lock was refused.
    StartHTLError(StartHTLError),
    /// A transaction that ends a hash-time-lock was refused.
    EndHTLError(EndHTLError),
}

/// A transaction of one of the three kinds.
pub enum MultiLedgerTransaction {
    Basic(BasicTransaction),
    StartHTL(StartHTLTransaction),
    EndHTL(EndHTLTransaction),
}

/// All recorded transactions, by id.
pub type TransactionMap = HashMap<TransactionId, MultiLedgerTransaction>;

/// The mathematical content of a [`MultiLedgerTransaction`].
pub enum MultiLedgerTransactionView {
    Basic(TransactionView),
    StartHTL(TransactionView),
    EndHTL(EndHTLView),
}

impl MultiLedgerTransactionView {
    /// The parts that every kind of transaction has.
    pub open spec fn tx(self) -> TransactionView {
        match self {
            MultiLedgerTransactionView::Basic(tx) => tx,
            MultiLedgerTransactionView::StartHTL(tx) => tx,
            MultiLedgerTransactionView::EndHTL(end) => end.tx,
        }
    }

    /// The effect that is recorded for the transaction when its attempt ended
    /// with `res`.
    pub open spec fn effect(self, res: Result<(), Error>) -> TransactionEffect {
        match res {
            Err(e) => TransactionEffect::Rejected(e),
            Ok(()) => match self {
                MultiLedgerTransactionView::Basic(_) => TransactionEffect::Applied,
                MultiLedgerTransactionView::StartHTL(_) => TransactionEffect::Forked,
                MultiLedgerTransactionView::EndHTL(end) => if end.fulfilled {
                    TransactionEffect::Promoted
                } else {
                    TransactionEffect::Pruned
                },
            },
        }
    }
}

impl View for MultiLedgerTransaction {
    type V = MultiLedgerTransactionView;

    open spec fn view(&self) -> MultiLedgerTransactionView {
        match self {
            MultiLedgerTransaction::Basic(tx) => MultiLedgerTransactionView::Basic(tx@),
            MultiLedgerTransaction::StartHTL(tx) => MultiLedgerTransactionView::StartHTL(tx@),
            MultiLedgerTransaction::EndHTL(tx) => MultiLedgerTransactionView::EndHTL(tx@),
        }
    }
}

/// The transaction recorded under `id`, if it is one that starts a hash-time-lock.
pub open spec fn start_of(
    transactions: Map<TransactionId, MultiLedgerTransaction>,
    id: TransactionId,
) -> Option<TransactionView> {
    if transactions.contains_key(id) {
        match transactions[id]@ {
            MultiLedgerTransactionView::StartHTL(start) => Some(start),
            _ => None,
        }
    } else {
        None
    }
}

/// The ledgers that a transaction requires. For a basic transaction and for one
/// that starts a hash-time-lock: every ledger it mentions, in a sequence assertion
/// or in an operation. For one that ends a lock: the ledgers that its operations
/// and those of the starting transaction target; `None` where no transaction that
/// starts a lock is recorded among `transactions` under the id it names.
pub open spec fn required_ledgers(
    transactions: Map<TransactionId, MultiLedgerTransaction>,
    tx: MultiLedgerTransactionView,
) -> Option<Seq<LedgerId>> {
    match tx {
        MultiLedgerTransactionView::Basic(basic) => Some(basic.referenced_ledgers()),
        MultiLedgerTransactionView::StartHTL(start) => Some(start.referenced_ledgers()),
        MultiLedgerTransactionView::EndHTL(end) => match start_of(transactions, end.start_htl_id) {
            None => None,
            Some(start) => Some(end.required_ledgers(start)),
        },
    }
}

/// Every ledger that a transaction mentions, in a sequence assertion or in an
/// operation, and, where it ends a hash-time-lock whose starting transaction is
/// among `transactions`, every ledger that the starting transaction mentions;
/// each once.
pub open spec fn mentioned_ledgers(
    transactions: Map<TransactionId, MultiLedgerTransaction>,
    tx: MultiLedgerTransactionView,
) -> Seq<LedgerId> {
    unique(
        tx.tx().referenced_ledgers() + match tx {
            MultiLedgerTransactionView::EndHTL(end) => match start_of(
                transactions,
                end.start_htl_id,
            ) {
                None => Seq::empty(),
                Some(start) => start.referenced_ledgers(),
            },
            _ => Seq::empty(),
        },
    )
}

/// A ledger that a transaction has a sequence assertion for is among those it
/// mentions.
pub proof fn lemma_mentions_named(
    transactions: Map<TransactionId, MultiLedgerTransaction>,
    tx: MultiLedgerTransactionView,
    ledger: LedgerId,
)
    requires
        names(tx.tx().seq_nos, ledger),
    ensures
        mentioned_ledgers(transactions, tx).contains(ledger),
{
    let own = tx.tx().referenced_ledgers();
    let more = match tx {
        MultiLedgerTransactionView::EndHTL(end) => match start_of(transactions, end.start_htl_id) {
            None => Seq::empty(),
            Some(start) => start.referenced_ledgers(),
        },
        _ => Seq::empty(),
    };
    tx.tx().lemma_referenced(ledger);
    let i = choose|i: int| 0 <= i < own.len() && own[i] == ledger;
    assert((own + more)[i] == ledger);
    lemma_unique(own + more);
}

/// The verdict of the transaction's own kind, once its sequence assertions hold.
pub open spec fn kind_verdict(
    transactions: Map<TransactionId, MultiLedgerTransaction>,
    state: StateView,
    tx: MultiLedgerTransactionView,
) -> Result<(), Error> {
    match tx {
        MultiLedgerTransactionView::Basic(basic) => match basic::verdict(state, basic) {
            Err(e) => Err(Error::BasicError(e)),
            Ok(()) => Ok(()),
        },
        MultiLedgerTransactionView::StartHTL(start) => match start_htl::verdict(state, start) {
            Err(e) => Err(Error::StartHTLError(e)),
            Ok(()) => Ok(()),
        },
        MultiLedgerTransactionView::EndHTL(end) => match start_of(transactions, end.start_htl_id) {
            None => Err(Error::InvalidStartHTLError),
            Some(start) => match end_htl::verdict(state, end, start) {
                Err(e) => Err(Error::EndHTLError(e)),
                Ok(()) => Ok(()),
            },
        },
    }
}

/// The verdict on a transaction: a sequence assertion that fails on a registered
/// ledger decides first, then the rules of the transaction's kind.
pub open spec fn verdict(
    transactions: Map<TransactionId, MultiLedgerTransaction>,
    state: StateView,
    tx: MultiLedgerTransactionView,
) -> Result<(), Error> {
    match sequence_verdict(state, tx.tx().seq_nos) {
        Err(e) => Err(e),
        Ok(()) => kind_verdict(transactions, state, tx),
    }
}

/// The verdict on a transaction of which every ledger that it requires, and
/// every ledger that it mentions in a sequence assertion or an operation, must be
/// registered before anything else is looked at.
pub open spec fn verdict_new(
    transactions: Map<TransactionId, MultiLedgerTransaction>,
    state: StateView,
    tx: MultiLedgerTransactionView,
) -> Result<(), Error> {
    match required_ledgers(transactions, tx) {
        None => Err(Error::InvalidEndHTLError),
        Some(ids) => if state.knows_all(ids) && state.knows_all(tx.tx().referenced_ledgers()) {
            verdict(transactions, state, tx)
        } else {
            Err(Error::InvalidEndHTLError)
        },
    }
}

/// The state after a transaction was accepted, its effect not yet recorded.
pub open spec fn applied(
    transactions: Map<TransactionId, MultiLedgerTransaction>,
    state: StateView,
    tx: MultiLedgerTransactionView,
) -> StateView {
    match tx {
        MultiLedgerTransactionView::Basic(basic) => basic::applied(state, basic),
        MultiLedgerTransactionView::StartHTL(start) => start_htl::applied(state, start),
        MultiLedgerTransactionView::EndHTL(end) => end_htl::applied(
            state,
            end,
            start_of(transactions, end.start_htl_id)->0,
        ),
    }
}

/// The state after an attempt of a transaction that ended with `res`: the ledgers
/// are changed only where it was accepted, and the effect is recorded either way,
/// unless the log holds an entry under the transaction's id already.
pub open spec fn attempted(
    transactions: Map<TransactionId, MultiLedgerTransaction>,
    state: StateView,
    tx: MultiLedgerTransactionView,
    res: Result<(), Error>,
) -> StateView {
    let after = if res is Ok {
        applied(transactions, state, tx)
    } else {
        state
    };
    after.recording(tx.tx().id, tx.effect(res))
}

impl MultiLedgerTransaction {
    /// The transaction's id.
    pub fn id(&self) -> (id: TransactionId)
        ensures
            id == self@.tx().id,
    {
        match self {
            MultiLedgerTransaction::Basic(tx) => tx.id(),
            MultiLedgerTransaction::StartHTL(tx) => tx.id(),
            MultiLedgerTransaction::EndHTL(tx) => tx.id(),
        }
    }

    /// The sequence numbers the transaction asserts.
    pub fn seq_nos(&self) -> (seq_nos: &SequenceNumbers)
        ensures
            seq_nos@ == self@.tx().seq_nos,
            distinct_ledgers(seq_nos@),
    {
        match self {
            MultiLedgerTransaction::Basic(tx) => tx.seq_nos(),
            MultiLedgerTransaction::StartHTL(tx) => tx.seq_nos(),
            MultiLedgerTransaction::EndHTL(tx) => tx.seq_nos(),
        }
    }

    /// The operations the transaction carries.
    pub fn operations(&self) -> (operations: Option<&Operations>)
        ensures
            operations is Some,
            operations->0@ == self@.tx().operations,
    {
        match self {
            MultiLedgerTransaction::Basic(tx) => tx.operations(),
            MultiLedgerTransaction::StartHTL(tx) => tx.operations(),
            MultiLedgerTransaction::EndHTL(tx) => tx.operations(),
        }
    }

    /// The ledgers that the operations target, each once.
    pub fn operation_ledger_ids(&self) -> (ids: LedgerIds)
        ensures
            ids@ == base::operation_ledgers(self@.tx().operations),
            ids@.no_duplicates(),
    {
        match self {
            MultiLedgerTransaction::Basic(tx) => tx.operation_ledger_ids(),
            MultiLedgerTransaction::StartHTL(tx) => tx.operation_ledger_ids(),
            MultiLedgerTransaction::EndHTL(tx) => tx.operation_ledger_ids(),
        }
    }

    /// The transaction that starts a hash-time-lock, if this is one.
    pub fn unwrap_start_htl(&self) -> (start: Option<&StartHTLTransaction>)
        ensures
            start is Some <==> self@ is StartHTL,
            start is Some ==> self@ == MultiLedgerTransactionView::StartHTL(start->0@),
    {
        match self {
            MultiLedgerTransaction::StartHTL(tx) => Some(tx),
            _ => None,
        }
    }

    /// The transaction recorded under `id`, if it is one that starts a
    /// hash-time-lock.
    pub fn find_start_htl(transactions: &TransactionMap, id: TransactionId) -> (start: Option<
        &StartHTLTransaction,
    >)
        ensures
            start is Some <==> start_of(transactions@, id) is Some,
            start is Some ==> start->0@ == start_of(transactions@, id)->0,
    {
        match transactions.get(&id) {
            None => None,
            Some(found) => found.unwrap_start_htl(),
        }
    }

    /// Every ledger that the transaction mentions, each once: those of its
    /// sequence assertions, then those of its operations.
    pub fn referenced_ledger_ids(&self) -> (ids: LedgerIds)
        ensures
            ids@ == self@.tx().referenced_ledgers(),
            ids@.no_duplicates(),
    {
        referenced_ledger_ids(self.seq_nos(), self.operations().unwrap())
    }

    /// Every ledger that the transaction mentions and, where it ends a
    /// hash-time-lock whose starting transaction is recorded, every ledger that
    /// the starting transaction mentions; each once.
    pub fn mentioned_ledger_ids(&self, transactions: &TransactionMap) -> (ids: LedgerIds)
        ensures
            ids@ == mentioned_ledgers(transactions@, self@),
            ids@.no_duplicates(),
    {
        let mut ids = self.referenced_ledger_ids();
        match self {
            MultiLedgerTransaction::EndHTL(tx) => match Self::find_start_htl(
                transactions,
                tx.start_htl_id(),
            ) {
                None => {
                    assert(ids@ + Seq::<LedgerId>::empty() =~= ids@);
                },
                Some(start_htl) => {
                    let more = start_htl.required_ledger_ids().unwrap();
                    append_ids(&mut ids, &more);
                },
            },
            _ => {
                assert(ids@ + Seq::<LedgerId>::empty() =~= ids@);
            },
        }
        without_repetitions(&ids)
    }

    /// The ledgers that the transaction requires. For a basic transaction and
    /// for one that starts a hash-time-lock: every ledger it mentions. For one
    /// that ends a lock: the ledgers that its operations and those of the
    /// starting transaction target; `None` where no transaction that starts a
    /// lock is recorded under the id it names.
    pub fn required_ledger_ids(&self, transactions: &TransactionMap) -> (ids: Option<LedgerIds>)
        ensures
            ids is Some <==> required_ledgers(transactions@, self@) is Some,
            ids is Some ==> ids->0@ == required_ledgers(transactions@, self@)->0,
    {
        match self {
            MultiLedgerTransaction::Basic(tx) => tx.required_ledger_ids(),
            MultiLedgerTransaction::StartHTL(tx) => tx.required_ledger_ids(),
            MultiLedgerTransaction::EndHTL(tx) => match Self::find_start_htl(
                transactions,
                tx.start_htl_id(),
            ) {
                None => None,
                Some(start_htl) => tx.required_ledger_ids(start_htl),
            },
        }
    }

    /// Checks the transaction's sequence assertions against the state: on each
    /// registered ledger the asserted number must be the current one plus one.
    /// Ledgers that are not registered are passed over.
    pub fn is_valid_seq_no(&self, state: &MultiLedgerState) -> (res: Result<(), Error>)
        ensures
            res == sequence_verdict(state@, self@.tx().seq_nos),
    {
        check_sequence_numbers(self.seq_nos(), state)
    }

    /// Tells whether [`Self::validate_and_apply`] would accept the transaction,
    /// without changing the state.
    pub fn validate(&self, transactions: &TransactionMap, state: &MultiLedgerState) -> (res: Result<
        (),
        Error,
    >)
        requires
            state.wf(),
        ensures
            res == verdict(transactions@, state@, self@),
    {
        match self.is_valid_seq_no(state) {
            Err(e) => {
                return Err(e);
            },
            Ok(()) => {},
        }
        match self {
            MultiLedgerTransaction::Basic(tx) => match tx.validate(state) {
                Err(e) => Err(Error::BasicError(e)),
                Ok(()) => Ok(()),
            },
            MultiLedgerTransaction::StartHTL(tx) => match tx.validate(state) {
                Err(e) => Err(Error::StartHTLError(e)),
                Ok(()) => Ok(()),
            },
            MultiLedgerTransaction::EndHTL(tx) => match Self::find_start_htl(
                transactions,
                tx.start_htl_id(),
            ) {
                None => Err(Error::InvalidStartHTLError),
                Some(start_htl) => match tx.validate(start_htl, state) {
                    Err(e) => Err(Error::EndHTLError(e)),
                    Ok(()) => Ok(()),
                },
            },
        }
    }

    /// Tells whether [`Self::validate_and_apply_new`] would accept the
    /// transaction, without changing the state.
    pub fn validate_new(&self, transactions: &TransactionMap, state: &MultiLedgerState) -> (res:
        Result<(), Error>)
        requires
            state.wf(),
        ensures
            res == verdict_new(transactions@, state@, self@),
    {
        match self.required_ledger_ids(transactions) {
            None => Err(Error::InvalidEndHTLError),
            Some(required_ledger_ids) => {
                if state.has_all_histories(&required_ledger_ids) && state.has_all_histories(
                    &self.referenced_ledger_ids(),
                ) {
                    self.validate(transactions, state)
                } else {
                    Err(Error::InvalidEndHTLError)
                }
            },
        }
    }

    /// The effect to record for this transaction when its attempt ended with
    /// `res`.
    fn effect(&self, res: Result<(), Error>) -> (effect: TransactionEffect)
        ensures
            effect == self@.effect(res),
    {
        match res {
            Err(e) => TransactionEffect::Rejected(e),
            Ok(()) => match self {
                MultiLedgerTransaction::Basic(_) => TransactionEffect::Applied,
                MultiLedgerTransaction::StartHTL(_) => TransactionEffect::Forked,
                MultiLedgerTransaction::EndHTL(tx) => if tx.is_fulfilled() {
                    TransactionEffect::Promoted
                } else {
                    TransactionEffect::Pruned
                },
            },
        }
    }

    /// Validates the transaction against the ledgers of the state and applies it.
    /// The sequence assertions are checked first, then the transaction is handed
    /// to its own kind; one that ends a hash-time-lock needs the transaction that
    /// started it among `transactions`. The ledgers change only where the
    /// transaction is accepted, and then all at once; the effect of the attempt is
    /// recorded either way, unless the log holds an entry under the transaction's
    /// id already.
    pub fn validate_and_apply(
        &self,
        transactions: &TransactionMap,
        state: &mut MultiLedgerState,
    ) -> (res: Result<(), Error>)
        requires
            old(state).wf(),
        ensures
            final(state).wf(),
            res == verdict(transactions@, old(state)@, self@),
            final(state)@ == attempted(transactions@, old(state)@, self@, res),
    {
        let res = match self.is_valid_seq_no(state) {
            Err(e) => Err(e),
            Ok(()) => match self {
                MultiLedgerTransaction::Basic(tx) => match tx.validate_and_apply(state) {
                    Err(e) => Err(Error::BasicError(e)),
                    Ok(()) => Ok(()),
                },
                MultiLedgerTransaction::StartHTL(tx) => match tx.validate_and_apply(state) {
                    Err(e) => Err(Error::StartHTLError(e)),
                    Ok(()) => Ok(()),
                },
                MultiLedgerTransaction::EndHTL(tx) => match Self::find_start_htl(
                    transactions,
                    tx.start_htl_id(),
                ) {
                    None => Err(Error::InvalidStartHTLError),
                    Some(start_htl) => match tx.validate_and_apply(start_htl, state) {
                        Err(e) => Err(Error::EndHTLError(e)),
                        Ok(()) => Ok(()),
                    },
                },
            },
        };
        state.record(self.id(), self.effect(res));
        res
    }

    /// As [`Self::validate_and_apply`], but first makes sure that every ledger
    /// the transaction requires, and every ledger it mentions in a sequence
    /// assertion or an operation, is registered: a transaction that requires or
    /// mentions an unknown ledger, or whose required ledgers cannot be told, is
    /// refused before anything else is looked at.
    pub fn validate_and_apply_new(
        &self,
        transactions: &TransactionMap,
        state: &mut MultiLedgerState,
    ) -> (res: Result<(), Error>)
        requires
            old(state).wf(),
        ensures
            final(state).wf(),
            res == verdict_new(transactions@, old(state)@, self@),
            final(state)@ == attempted(transactions@, old(state)@, self@, res),
    {
        let known = match self.required_ledger_ids(transactions) {
            None => false,
            Some(required_ledger_ids) => state.has_all_histories(&required_ledger_ids)
                && state.has_all_histories(&self.referenced_ledger_ids()),
        };
        if known {
            self.validate_and_apply(transactions, state)
        } else {
            let res = Err(Error::InvalidEndHTLError);
            state.record(self.id(), self.effect(res));
            res
        }
    }
}

} // verus!
