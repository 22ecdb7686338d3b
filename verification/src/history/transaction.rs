//! The history of all transactions: the state of the ledgers, the transactions
//! that were accepted, and the order in which they reached each ledger.
use vstd::prelude::*;
use std::collections::HashMap;
use crate::history::state::{MultiLedgerState, StateView};
use crate::history::forest::{
    distinct_keys,
    is_forest,
    parents_precede,
    position,
    stands_as,
    BranchView,
};
use crate::laws::{lemma_basic_keeps_wf, lemma_end_keeps_wf, lemma_start_keeps_wf};
use crate::transactions::base::names_from;
use crate::ledger::{Ledger, LedgerId};
use crate::transactions::base::{LedgerIds, TransactionId};
use crate::transactions::basic::Error as BasicError;
use crate::transactions::end_htl::Error as EndHTLError;
use crate::transactions::start_htl::Error as StartHTLError;
use crate::transactions::{
    attempted,
    kind_verdict,
    lemma_mentions_named,
    mentioned_ledgers,
    start_of,
    verdict,
    verdict_new,
    Error,
    MultiLedgerTransaction,
    MultiLedgerTransactionView,
    TransactionMap,
};

verus! {

/// The ids of the transactions that reached one ledger, in the order of arrival.
pub type TransactionOrder = Vec<TransactionId>;

/// The order of arrival on each ledger.
pub type TransactionOrders = HashMap<LedgerId, TransactionOrder>;

/// The error that tells that a transaction is not acceptable as a whole.
pub open spec fn refusal(tx: MultiLedgerTransactionView) -> Error {
    match tx {
        MultiLedgerTransactionView::Basic(_) => Error::BasicError(BasicError::InvalidTransaction),
        MultiLedgerTransactionView::StartHTL(_) => Error::StartHTLError(
            StartHTLError::InvalidTransaction,
        ),
        MultiLedgerTransactionView::EndHTL(_) => Error::EndHTLError(
            EndHTLError::InvalidTransaction,
        ),
    }
}

/// The orders of arrival after the transaction `id` reached the first `n` of the
/// ledgers `ids`: it stands once at the end of the order of each of them.
pub open spec fn noted(
    orders: Map<LedgerId, Seq<TransactionId>>,
    ids: Seq<LedgerId>,
    id: TransactionId,
    n: int,
) -> Map<LedgerId, Seq<TransactionId>> {
    Map::new(
        |ledger: LedgerId| orders.contains_key(ledger) || ids.take(n).contains(ledger),
        |ledger: LedgerId|
            if ids.take(n).contains(ledger) {
                if orders.contains_key(ledger) {
                    orders[ledger].push(id)
                } else {
                    seq![id]
                }
            } else {
                orders[ledger]
            },
    )
}

/// Where `id` stands in an order of arrival.
pub open spec fn arrival(order: Seq<TransactionId>, id: TransactionId) -> int {
    choose|k: int| 0 <= k < order.len() && order[k] == id
}

/// The branches stand in the order in which the transactions that opened them
/// arrived.
#[verifier::opaque]
pub open spec fn follows(branches: Seq<BranchView>, order: Seq<TransactionId>) -> bool {
    &&& forall|i: int| 0 <= i < branches.len() ==> order.contains((#[trigger] branches[i]).htl_id)
    &&& forall|i: int, j: int|
        0 <= i < j < branches.len() ==> arrival(order, (#[trigger] branches[i]).htl_id) < arrival(
            order,
            (#[trigger] branches[j]).htl_id,
        )
}

/// Every id of the order is that of a recorded transaction, and none stands in it
/// twice.
pub open spec fn recorded(
    order: Seq<TransactionId>,
    transactions: Map<TransactionId, MultiLedgerTransaction>,
) -> bool {
    &&& order.no_duplicates()
    &&& forall|k: int| 0 <= k < order.len() ==> transactions.contains_key(#[trigger] order[k])
}

/// In an order without repetitions an id stands where it is found.
pub proof fn lemma_arrival(order: Seq<TransactionId>, id: TransactionId, k: int)
    requires
        order.no_duplicates(),
        0 <= k < order.len(),
        order[k] == id,
    ensures
        arrival(order, id) == k,
{
}

/// A new id put at the end of an order changes the place of no other.
pub proof fn lemma_arrival_push(order: Seq<TransactionId>, id: TransactionId, other: TransactionId)
    requires
        order.no_duplicates(),
        !order.contains(id),
        order.contains(other),
    ensures
        order.push(id).no_duplicates(),
        order.push(id).contains(other),
        arrival(order.push(id), other) == arrival(order, other),
        arrival(order.push(id), id) == order.len(),
{
    let next = order.push(id);
    assert forall|a: int, b: int| 0 <= a < next.len() && 0 <= b < next.len() && a != b implies next[a]
        != next[b] by {
        if a < order.len() && b < order.len() {
        } else if a < order.len() {
            assert(order[a] == next[a]);
        } else if b < order.len() {
            assert(order[b] == next[b]);
        }
    }
    let k = arrival(order, other);
    assert(0 <= k < order.len() && order[k] == other);
    assert(next[k] == other);
    lemma_arrival(next, other, k);
    assert(next[order.len() as int] == id);
    lemma_arrival(next, id, order.len() as int);
}

/// No branches follow any order.
pub proof fn lemma_follows_none(order: Seq<TransactionId>)
    ensures
        follows(Seq::<BranchView>::empty(), order),
{
    reveal(follows);
}

/// Branches that follow an order follow it still when a new id arrives.
pub proof fn lemma_follows_later(
    branches: Seq<BranchView>,
    order: Seq<TransactionId>,
    id: TransactionId,
)
    requires
        follows(branches, order),
        order.no_duplicates(),
        !order.contains(id),
    ensures
        follows(branches, order.push(id)),
{
    reveal(follows);
    let next = order.push(id);
    assert forall|i: int| 0 <= i < branches.len() implies next.contains(
        (#[trigger] branches[i]).htl_id,
    ) by {
        lemma_arrival_push(order, id, branches[i].htl_id);
    }
    assert forall|i: int, j: int| 0 <= i < j < branches.len() implies arrival(
        next,
        (#[trigger] branches[i]).htl_id,
    ) < arrival(next, (#[trigger] branches[j]).htl_id) by {
        lemma_arrival_push(order, id, branches[i].htl_id);
        lemma_arrival_push(order, id, branches[j].htl_id);
    }
}

/// Branches that follow an order follow it still when a transaction arrives and
/// opens a branch after them.
pub proof fn lemma_follows_opened(
    branches: Seq<BranchView>,
    order: Seq<TransactionId>,
    branch: BranchView,
)
    requires
        follows(branches, order),
        order.no_duplicates(),
        !order.contains(branch.htl_id),
    ensures
        follows(branches.push(branch), order.push(branch.htl_id)),
{
    reveal(follows);
    let id = branch.htl_id;
    let next = order.push(id);
    let more = branches.push(branch);
    assert(next[order.len() as int] == id);
    assert forall|i: int| 0 <= i < more.len() implies next.contains((#[trigger] more[i]).htl_id) by {
        if i < branches.len() {
            assert(more[i] == branches[i]);
            lemma_arrival_push(order, id, branches[i].htl_id);
        }
    }
    assert forall|i: int, j: int| 0 <= i < j < more.len() implies arrival(
        next,
        (#[trigger] more[i]).htl_id,
    ) < arrival(next, (#[trigger] more[j]).htl_id) by {
        assert(more[i] == branches[i]);
        lemma_arrival_push(order, id, branches[i].htl_id);
        if j < branches.len() {
            assert(more[j] == branches[j]);
            lemma_arrival_push(order, id, branches[j].htl_id);
        }
    }
}

/// Branches that stand as they stood among branches that follow an order follow
/// it too.
pub proof fn lemma_follows_part(
    now: Seq<BranchView>,
    branches: Seq<BranchView>,
    order: Seq<TransactionId>,
)
    requires
        follows(branches, order),
        stands_as(now, branches),
    ensures
        follows(now, order),
{
    reveal(follows);
    assert forall|a: int| 0 <= a < now.len() implies order.contains((#[trigger] now[a]).htl_id) by {
        let i = position(branches, now[a].htl_id);
        assert(branches[i].htl_id == now[a].htl_id);
    }
    assert forall|a: int, b: int| 0 <= a < b < now.len() implies arrival(
        order,
        (#[trigger] now[a]).htl_id,
    ) < arrival(order, (#[trigger] now[b]).htl_id) by {
        let i = position(branches, now[a].htl_id);
        let j = position(branches, now[b].htl_id);
        assert(branches[i].htl_id == now[a].htl_id);
        assert(branches[j].htl_id == now[b].htl_id);
    }
}

/// The mathematical content of a [`TransactionHistory`].
pub struct TransactionHistoryView {
    /// The state of the ledgers.
    pub state: StateView,
    /// The recorded transactions, by id.
    pub transactions: Map<TransactionId, MultiLedgerTransaction>,
    /// The ids of the transactions that reached each ledger, in order of arrival.
    pub orders: Map<LedgerId, Seq<TransactionId>>,
}

impl TransactionHistoryView {
    /// The ids of the transactions that reached the ledger, in order of arrival.
    pub open spec fn order_of(self, ledger: LedgerId) -> Seq<TransactionId> {
        if self.orders.contains_key(ledger) {
            self.orders[ledger]
        } else {
            Seq::empty()
        }
    }

    /// The state is well formed; every transaction is recorded under its own id;
    /// every order of arrival holds recorded transactions only, each once; and on
    /// every ledger the branches stand in the order in which the transactions
    /// that opened them arrived.
    pub open spec fn wf(self) -> bool {
        &&& self.state.wf()
        &&& forall|id: TransactionId| #[trigger]
            self.transactions.contains_key(id) ==> self.transactions[id]@.tx().id == id
        &&& forall|ledger: LedgerId| #[trigger]
            self.orders.contains_key(ledger) ==> recorded(self.orders[ledger], self.transactions)
        &&& forall|ledger: LedgerId| #[trigger]
            self.state.knows(ledger) ==> follows(
                self.state.ledgers[ledger].branches,
                self.order_of(ledger),
            )
    }

    /// The history after a ledger is registered: under its id stands a fresh
    /// tree, in place of whatever stood there before.
    pub open spec fn with_ledger(self, ledger: Ledger) -> TransactionHistoryView {
        TransactionHistoryView { state: self.state.with_ledger(ledger), ..self }
    }

    /// The verdict on a transaction that is submitted without asking that its
    /// required ledgers be registered. A transaction whose id is already
    /// recorded is refused as not acceptable.
    pub open spec fn verdict(self, tx: MultiLedgerTransaction) -> Result<(), Error> {
        if self.transactions.contains_key(tx@.tx().id) {
            Err(refusal(tx@))
        } else {
            verdict(self.transactions, self.state, tx@)
        }
    }

    /// The verdict on a submitted transaction. A transaction whose id is already
    /// recorded is refused as not acceptable; then every ledger that it requires
    /// or mentions must be registered; then the sequence assertions and the rules
    /// of the transaction's kind decide.
    pub open spec fn verdict_new(self, tx: MultiLedgerTransaction) -> Result<(), Error> {
        if self.transactions.contains_key(tx@.tx().id) {
            Err(refusal(tx@))
        } else {
            verdict_new(self.transactions, self.state, tx@)
        }
    }

    /// The history after a transaction was submitted with the result `res`. One
    /// whose id is already recorded changes nothing. Of any other the effect is
    /// recorded, unless the log holds an entry under its id already; and where it
    /// was accepted the ledgers are changed, the
    /// transaction is recorded, and its id is put at the end of the order of
    /// arrival of every ledger it mentions (and, where it ends a lock, of every
    /// ledger that the starting transaction mentions).
    pub open spec fn submitted(
        self,
        tx: MultiLedgerTransaction,
        res: Result<(), Error>,
    ) -> TransactionHistoryView {
        let id = tx@.tx().id;
        if self.transactions.contains_key(id) {
            self
        } else if res is Ok {
            let ids = mentioned_ledgers(self.transactions, tx@);
            TransactionHistoryView {
                state: attempted(self.transactions, self.state, tx@, res),
                transactions: self.transactions.insert(id, tx),
                orders: noted(self.orders, ids, id, ids.len() as int),
            }
        } else {
            TransactionHistoryView {
                state: attempted(self.transactions, self.state, tx@, res),
                ..self
            }
        }
    }

    /// A history stays well formed when a ledger is registered.
    pub proof fn lemma_with_ledger_wf(self, ledger: Ledger)
        requires
            self.wf(),
        ensures
            self.with_ledger(ledger).wf(),
    {
        let after = self.with_ledger(ledger);
        assert forall|id: LedgerId| #[trigger] after.state.knows(id) implies follows(
            after.state.ledgers[id].branches,
            after.order_of(id),
        ) by {
            if id == ledger.id {
                lemma_follows_none(after.order_of(id));
            } else {
                assert(self.state.knows(id));
            }
        }
        assert forall|id: LedgerId| #[trigger]
            after.state.ledgers.contains_key(id) implies after.state.ledgers[id].wf()
            && after.state.ledgers[id].canonical.ledger.id == id by {
            if id == ledger.id {
                assert(is_forest(Seq::<BranchView>::empty())) by {
                    reveal(distinct_keys);
                    reveal(parents_precede);
                }
            } else {
                assert(self.state.ledgers.contains_key(id));
            }
        }
    }

    /// The id of a transaction that is not recorded stands in no order of arrival.
    pub proof fn lemma_fresh(self, id: TransactionId, ledger: LedgerId)
        requires
            self.wf(),
            !self.transactions.contains_key(id),
        ensures
            !self.order_of(ledger).contains(id),
            self.order_of(ledger).no_duplicates(),
    {
        if self.orders.contains_key(ledger) {
            let order = self.orders[ledger];
            if order.contains(id) {
                let k = choose|k: int| 0 <= k < order.len() && order[k] == id;
                assert(self.transactions.contains_key(order[k]));
            }
        }
    }

    /// On every ledger the branches follow the order of arrival after an accepted
    /// transaction as they did before.
    pub proof fn lemma_accepted_follows(self, tx: MultiLedgerTransaction, ledger: LedgerId)
        requires
            self.wf(),
            !self.transactions.contains_key(tx@.tx().id),
            verdict(self.transactions, self.state, tx@) is Ok,
            self.state.knows(ledger),
        ensures
            self.submitted(tx, Ok(())).state.knows(ledger),
            follows(
                self.submitted(tx, Ok(())).state.ledgers[ledger].branches,
                self.submitted(tx, Ok(())).order_of(ledger),
            ),
    {
        let id = tx@.tx().id;
        let after = self.submitted(tx, Ok(()));
        let ids = mentioned_ledgers(self.transactions, tx@);
        let order = self.order_of(ledger);
        let before = self.state.ledgers[ledger].branches;
        let now = after.state.ledgers[ledger].branches;
        assert(kind_verdict(self.transactions, self.state, tx@) is Ok);
        self.lemma_fresh(id, ledger);
        assert(self.state.ledgers.contains_key(ledger));
        lemma_noted_all(self.orders, ids, id, ledger);
        assert(after.order_of(ledger) == if ids.contains(ledger) {
            order.push(id)
        } else {
            order
        });
        match tx@ {
            MultiLedgerTransactionView::Basic(basic) => {
                assert(now == before);
                if ids.contains(ledger) {
                    lemma_follows_later(before, order, id);
                }
            },
            MultiLedgerTransactionView::StartHTL(start) => {
                if names_from(start.seq_nos, 0, ledger) {
                    let i = choose|i: int|
                        0 <= i < start.seq_nos.len() && 0 <= i && (#[trigger] start.seq_nos[i]).0
                            == ledger;
                    lemma_mentions_named(self.transactions, tx@, ledger);
                    lemma_follows_opened(
                        before,
                        order,
                        crate::transactions::start_htl::opened(
                            self.state,
                            start.id,
                            start.operations,
                            ledger,
                        ),
                    );
                } else {
                    assert(now == before);
                    if ids.contains(ledger) {
                        lemma_follows_later(before, order, id);
                    }
                }
            },
            MultiLedgerTransactionView::EndHTL(end) => {
                let start = start_of(self.transactions, end.start_htl_id)->0;
                self.state.ledgers[ledger].lemma_resolved_order(start.id);
                if names_from(start.seq_nos, 0, ledger) {
                    lemma_follows_part(now, before, order);
                } else {
                    assert(now == before);
                }
                if ids.contains(ledger) {
                    lemma_follows_later(now, order, id);
                }
            },
        }
    }

    /// A history stays well formed whatever is submitted to it.
    pub proof fn lemma_submitted_wf(self, tx: MultiLedgerTransaction, res: Result<(), Error>)
        requires
            self.wf(),
            res == self.verdict(tx) || res == self.verdict_new(tx),
        ensures
            self.submitted(tx, res).wf(),
    {
        let id = tx@.tx().id;
        let after = self.submitted(tx, res);
        if self.transactions.contains_key(id) {
        } else if res is Err {
            assert(after.state.ledgers == self.state.ledgers);
            assert forall|ledger: LedgerId| #[trigger] after.state.knows(ledger) implies follows(
                after.state.ledgers[ledger].branches,
                after.order_of(ledger),
            ) by {
                assert(self.state.knows(ledger));
            }
        } else {
            assert(res == Ok::<(), Error>(()));
            assert(verdict(self.transactions, self.state, tx@) is Ok);
            assert(kind_verdict(self.transactions, self.state, tx@) is Ok);
            let ids = mentioned_ledgers(self.transactions, tx@);
            match tx@ {
                MultiLedgerTransactionView::Basic(basic) => {
                    lemma_basic_keeps_wf(self.state, basic);
                },
                MultiLedgerTransactionView::StartHTL(start) => {
                    lemma_start_keeps_wf(self.state, start);
                },
                MultiLedgerTransactionView::EndHTL(end) => {
                    lemma_end_keeps_wf(
                        self.state,
                        end,
                        start_of(self.transactions, end.start_htl_id)->0,
                    );
                },
            }
            assert(after.state.ledgers.dom() == self.state.ledgers.dom());
            assert forall|ledger: LedgerId| #[trigger] after.state.knows(ledger) implies follows(
                after.state.ledgers[ledger].branches,
                after.order_of(ledger),
            ) by {
                assert(self.state.ledgers.dom().contains(ledger));
                self.lemma_accepted_follows(tx, ledger);
            }
            assert forall|other: TransactionId| #[trigger]
                after.transactions.contains_key(other) implies after.transactions[other]@.tx().id
                == other by {
                if other != id {
                    assert(self.transactions.contains_key(other));
                }
            }
            assert forall|ledger: LedgerId| #[trigger]
                after.orders.contains_key(ledger) implies recorded(
                after.orders[ledger],
                after.transactions,
            ) by {
                self.lemma_fresh(id, ledger);
                let order = self.order_of(ledger);
                if self.orders.contains_key(ledger) {
                    assert(recorded(self.orders[ledger], self.transactions));
                }
                let next = after.orders[ledger];
                lemma_noted_all(self.orders, ids, id, ledger);
                if ids.contains(ledger) {
                    assert(next == order.push(id));
                    assert forall|a: int, b: int|
                        0 <= a < next.len() && 0 <= b < next.len() && a != b implies next[a]
                        != next[b] by {
                        if a < order.len() && b < order.len() {
                        } else if a < order.len() {
                            assert(order[a] == next[a]);
                        } else if b < order.len() {
                            assert(order[b] == next[b]);
                        }
                    }
                    assert forall|k: int| 0 <= k < next.len() implies after.transactions.contains_key(
                        #[trigger] next[k],
                    ) by {
                        if k < order.len() {
                            assert(self.transactions.contains_key(order[k]));
                        }
                    }
                } else {
                    assert(next == order);
                    assert forall|k: int| 0 <= k < next.len() implies after.transactions.contains_key(
                        #[trigger] next[k],
                    ) by {
                        assert(self.transactions.contains_key(order[k]));
                    }
                }
            }
        }
    }

    /// The history and the answer after the transactions were submitted in order,
    /// up to and including the first that is refused.
    pub open spec fn replayed(self, txs: Seq<MultiLedgerTransaction>) -> (
        TransactionHistoryView,
        Result<(), Error>,
    )
        decreases txs.len(),
    {
        if txs.len() == 0 {
            (self, Ok(()))
        } else {
            let (before, res) = self.replayed(txs.drop_last());
            if res is Err {
                (before, res)
            } else {
                let answer = before.verdict_new(txs.last());
                (before.submitted(txs.last(), answer), answer)
            }
        }
    }

    /// The first refusal ends a replay.
    pub proof fn lemma_replayed_stops(self, txs: Seq<MultiLedgerTransaction>, n: int)
        requires
            0 <= n <= txs.len(),
            self.replayed(txs.take(n)).1 is Err,
        ensures
            self.replayed(txs) == self.replayed(txs.take(n)),
        decreases txs.len() - n,
    {
        if n < txs.len() {
            assert(txs.take(n + 1).drop_last() =~= txs.take(n));
            self.lemma_replayed_stops(txs, n + 1);
        } else {
            assert(txs.take(n) =~= txs);
        }
    }
}

/// Noting an arrival on no ledger changes no order.
pub proof fn lemma_noted_none(
    orders: Map<LedgerId, Seq<TransactionId>>,
    ids: Seq<LedgerId>,
    id: TransactionId,
)
    ensures
        noted(orders, ids, id, 0) == orders,
{
    assert(ids.take(0) =~= Seq::<LedgerId>::empty());
    assert(noted(orders, ids, id, 0) =~= orders);
}

/// Noting the arrival on one more ledger: a ledger that came before is not noted
/// again.
pub proof fn lemma_noted_step(
    orders: Map<LedgerId, Seq<TransactionId>>,
    ids: Seq<LedgerId>,
    id: TransactionId,
    n: int,
)
    requires
        0 <= n < ids.len(),
    ensures
        noted(orders, ids, id, n + 1) == if ids.take(n).contains(ids[n]) {
            noted(orders, ids, id, n)
        } else {
            noted(orders, ids, id, n).insert(
                ids[n],
                if orders.contains_key(ids[n]) {
                    orders[ids[n]].push(id)
                } else {
                    seq![id]
                },
            )
        },
        !ids.take(n).contains(ids[n]) ==> (noted(orders, ids, id, n).contains_key(ids[n])
            <==> orders.contains_key(ids[n])),
        !ids.take(n).contains(ids[n]) && orders.contains_key(ids[n]) ==> noted(
            orders,
            ids,
            id,
            n,
        )[ids[n]] == orders[ids[n]],
{
    let front = ids.take(n);
    let next = ids.take(n + 1);
    assert(next =~= front.push(ids[n]));
    assert forall|ledger: LedgerId| next.contains(ledger) == (front.contains(ledger) || ledger
        == ids[n]) by {
        if front.contains(ledger) {
            let i = choose|i: int| 0 <= i < front.len() && front[i] == ledger;
            assert(next[i] == ledger);
        }
        if ledger == ids[n] {
            assert(next[n] == ledger);
        }
        if next.contains(ledger) {
            let i = choose|i: int| 0 <= i < next.len() && next[i] == ledger;
            if i < n {
                assert(front[i] == ledger);
            }
        }
    }
    if front.contains(ids[n]) {
        assert(noted(orders, ids, id, n + 1) =~= noted(orders, ids, id, n));
    } else {
        assert(noted(orders, ids, id, n + 1) =~= noted(orders, ids, id, n).insert(
            ids[n],
            if orders.contains_key(ids[n]) {
                orders[ids[n]].push(id)
            } else {
                seq![id]
            },
        ));
    }
}

/// After the arrival was noted on all of the ledgers, the order of each of them
/// ends with the id, and every other order is as it was.
pub proof fn lemma_noted_all(
    orders: Map<LedgerId, Seq<TransactionId>>,
    ids: Seq<LedgerId>,
    id: TransactionId,
    ledger: LedgerId,
)
    ensures
        noted(orders, ids, id, ids.len() as int).contains_key(ledger) == (orders.contains_key(ledger)
            || ids.contains(ledger)),
        ids.contains(ledger) ==> noted(orders, ids, id, ids.len() as int)[ledger] == (if orders.contains_key(
            ledger,
        ) {
            orders[ledger]
        } else {
            Seq::empty()
        }).push(id),
        !ids.contains(ledger) && orders.contains_key(ledger) ==> noted(
            orders,
            ids,
            id,
            ids.len() as int,
        )[ledger] == orders[ledger],
{
    assert(ids.take(ids.len() as int) =~= ids);
    assert(Seq::<TransactionId>::empty().push(id) =~= seq![id]);
}

/// The state of all ledgers, the transactions that were accepted, and the order
/// in which they reached each ledger.
pub struct TransactionHistory {
    multiledger_histories: MultiLedgerState,
    transactions: TransactionMap,
    transaction_orders: TransactionOrders,
}

impl View for TransactionHistory {
    type V = TransactionHistoryView;

    closed spec fn view(&self) -> TransactionHistoryView {
        TransactionHistoryView {
            state: self.multiledger_histories@,
            transactions: self.transactions@,
            orders: Map::new(
                |ledger: LedgerId| self.transaction_orders@.contains_key(ledger),
                |ledger: LedgerId| self.transaction_orders@[ledger]@,
            ),
        }
    }
}

impl TransactionHistory {
    /// Whether the history satisfies its invariant.
    pub open spec fn wf(&self) -> bool {
        self@.wf()
    }

    /// A history with no ledgers and no transactions.
    pub fn new() -> (history: TransactionHistory)
        ensures
            history.wf(),
            history@ == (TransactionHistoryView {
                state: StateView::empty(),
                transactions: Map::empty(),
                orders: Map::empty(),
            }),
    {
        let history = TransactionHistory {
            multiledger_histories: MultiLedgerState::new(),
            transactions: HashMap::new(),
            transaction_orders: HashMap::new(),
        };
        assert(history@.orders =~= Map::empty());
        history
    }

    /// A history with no ledgers that holds the given transaction as recorded,
    /// without having applied it.
    pub fn from_transaction(tx: MultiLedgerTransaction) -> (res: Result<TransactionHistory, ()>)
        ensures
            res is Ok,
            res->Ok_0.wf(),
            res->Ok_0@ == (TransactionHistoryView {
                state: StateView::empty(),
                transactions: Map::empty().insert(tx@.tx().id, tx),
                orders: Map::empty(),
            }),
    {
        let mut tx_map: TransactionMap = HashMap::new();
        tx_map.insert(tx.id(), tx);
        let history = TransactionHistory {
            multiledger_histories: MultiLedgerState::new(),
            transactions: tx_map,
            transaction_orders: HashMap::new(),
        };
        assert(history@.orders =~= Map::empty());
        Ok(history)
    }

    /// Registers a ledger with an empty history. Where the id is already
    /// registered, the new ledger takes the place of the old one: its history and
    /// its branches are gone. The recorded transactions and the orders of arrival
    /// stay. Tells whether the id was new.
    pub fn add_ledger(&mut self, ledger: Ledger) -> (added: bool)
        requires
            old(self).wf(),
        ensures
            final(self).wf(),
            added == !old(self)@.state.knows(ledger.id),
            final(self)@ == old(self)@.with_ledger(ledger),
    {
        proof {
            old(self)@.lemma_with_ledger_wf(ledger);
        }
        self.multiledger_histories.add_ledger(ledger)
    }

    /// The state of the ledgers.
    pub fn state(&self) -> (state: &MultiLedgerState)
        ensures
            state@ == self@.state,
    {
        &self.multiledger_histories
    }

    /// The transaction recorded under `id`, if there is one.
    pub fn transaction(&self, id: TransactionId) -> (tx: Option<&MultiLedgerTransaction>)
        ensures
            tx is Some <==> self@.transactions.contains_key(id),
            tx is Some ==> *tx->0 == self@.transactions[id],
    {
        self.transactions.get(&id)
    }

    /// The ids of the transactions that reached the ledger, in order of arrival;
    /// `None` where none has.
    pub fn transaction_order(&self, ledger_id: LedgerId) -> (order: Option<&TransactionOrder>)
        ensures
            order is Some <==> self@.orders.contains_key(ledger_id),
            order is Some ==> order->0@ == self@.orders[ledger_id],
    {
        self.transaction_orders.get(&ledger_id)
    }

    /// The error that tells that the transaction is not acceptable as a whole.
    fn refuse(tx: &MultiLedgerTransaction) -> (e: Error)
        ensures
            e == refusal(tx@),
    {
        match tx {
            MultiLedgerTransaction::Basic(_) => Error::BasicError(BasicError::InvalidTransaction),
            MultiLedgerTransaction::StartHTL(_) => Error::StartHTLError(
                StartHTLError::InvalidTransaction,
            ),
            MultiLedgerTransaction::EndHTL(_) => Error::EndHTLError(
                EndHTLError::InvalidTransaction,
            ),
        }
    }

    /// Tells what [`Self::mut_apply_transaction`] would answer to the
    /// transaction, without changing anything.
    pub fn validate_transaction(&self, transaction: &MultiLedgerTransaction) -> (res: Result<
        (),
        Error,
    >)
        requires
            self.wf(),
        ensures
            res == self@.verdict(*transaction),
    {
        if self.transactions.contains_key(&transaction.id()) {
            Err(Self::refuse(transaction))
        } else {
            transaction.validate(&self.transactions, &self.multiledger_histories)
        }
    }

    /// Tells what [`Self::mut_apply`] would answer to the transaction, without
    /// changing anything.
    pub fn validate(&self, transaction: &MultiLedgerTransaction) -> (res: Result<(), Error>)
        requires
            self.wf(),
        ensures
            res == self@.verdict_new(*transaction),
    {
        if self.transactions.contains_key(&transaction.id()) {
            Err(Self::refuse(transaction))
        } else {
            transaction.validate_new(&self.transactions, &self.multiledger_histories)
        }
    }

    /// Puts `id` at the end of the order of arrival of each of the ledgers, once
    /// for a ledger that is listed more than once.
    fn note_arrival(&mut self, id: TransactionId, ledger_ids: &LedgerIds)
        ensures
            final(self)@ == (TransactionHistoryView {
                orders: noted(old(self)@.orders, ledger_ids@, id, ledger_ids.len() as int),
                ..old(self)@
            }),
    {
        let ghost orders = self@.orders;
        let mut i: usize = 0;
        proof {
            lemma_noted_none(orders, ledger_ids@, id);
        }
        while i < ledger_ids.len()
            invariant
                i <= ledger_ids.len(),
                self@.state == old(self)@.state,
                self@.transactions == old(self)@.transactions,
                orders == old(self)@.orders,
                self@.orders == noted(orders, ledger_ids@, id, i as int),
            decreases ledger_ids.len() - i,
        {
            let ledger_id = ledger_ids[i];
            proof {
                lemma_noted_step(orders, ledger_ids@, id, i as int);
            }
            if !listed_before(ledger_ids, i, ledger_id) {
                let ghost before = self@.orders;
                let mut order = match self.transaction_orders.remove(&ledger_id) {
                    Some(order) => order,
                    None => Vec::new(),
                };
                order.push(id);
                assert(order@ =~= if orders.contains_key(ledger_id) {
                    orders[ledger_id].push(id)
                } else {
                    seq![id]
                });
                self.transaction_orders.insert(ledger_id, order);
                assert(self@.orders =~= before.insert(ledger_id, order@));
            }
            i = i + 1;
        }
    }

    /// Submits a transaction without asking that its required ledgers be
    /// registered: its sequence assertions are checked on the ledgers that are,
    /// then it is handed to its own kind. Only where it is accepted, the ledgers
    /// change, the transaction is recorded and its id is put at the end of the
    /// order of arrival of every ledger it mentions. A transaction whose id is
    /// already recorded is refused and changes nothing.
    pub fn mut_apply_transaction(&mut self, transaction: MultiLedgerTransaction) -> (res: Result<
        (),
        Error,
    >)
        requires
            old(self).wf(),
        ensures
            final(self).wf(),
            res == old(self)@.verdict(transaction),
            final(self)@ == old(self)@.submitted(transaction, res),
    {
        let id = transaction.id();
        if self.transactions.contains_key(&id) {
            return Err(Self::refuse(&transaction));
        }
        let ledger_ids = transaction.mentioned_ledger_ids(&self.transactions);
        let res = transaction.validate_and_apply(
            &self.transactions,
            &mut self.multiledger_histories,
        );
        proof {
            old(self)@.lemma_submitted_wf(transaction, res);
        }
        match res {
            Err(e) => Err(e),
            Ok(()) => {
                self.note_arrival(id, &ledger_ids);
                self.transactions.insert(id, transaction);
                Ok(())
            },
        }
    }

    /// Submits a transaction. Every ledger it requires or mentions must be
    /// registered; then
    /// its sequence assertions are checked and it is handed to its own kind. Only
    /// where it is accepted, the ledgers change, the transaction is recorded and
    /// its id is put at the end of the order of arrival of every ledger it
    /// mentions. A transaction whose id is already recorded is refused and
    /// changes nothing.
    pub fn mut_apply(&mut self, transaction: MultiLedgerTransaction) -> (res: Result<(), Error>)
        requires
            old(self).wf(),
        ensures
            final(self).wf(),
            res == old(self)@.verdict_new(transaction),
            final(self)@ == old(self)@.submitted(transaction, res),
    {
        let id = transaction.id();
        if self.transactions.contains_key(&id) {
            return Err(Self::refuse(&transaction));
        }
        let ledger_ids = transaction.mentioned_ledger_ids(&self.transactions);
        let res = transaction.validate_and_apply_new(
            &self.transactions,
            &mut self.multiledger_histories,
        );
        proof {
            old(self)@.lemma_submitted_wf(transaction, res);
        }
        match res {
            Err(e) => Err(e),
            Ok(()) => {
                self.note_arrival(id, &ledger_ids);
                self.transactions.insert(id, transaction);
                Ok(())
            },
        }
    }

    /// Registers a ledger and then submits the transactions in order, as
    /// [`Self::mut_apply`] does, up to and including the first that is refused.
    /// Answers `Ok` where all were accepted, else with that first refusal; the
    /// transactions accepted before it stay applied.
    pub fn mut_apply_ledger(
        &mut self,
        ledger: Ledger,
        transactions: Vec<MultiLedgerTransaction>,
    ) -> (res: Result<(), Error>)
        requires
            old(self).wf(),
        ensures
            final(self).wf(),
            (final(self)@, res) == old(self)@.with_ledger(ledger).replayed(transactions@),
    {
        self.add_ledger(ledger);
        let ghost start = self@;
        let ghost txs = transactions@;
        let mut rest = reversed(transactions);
        let ghost mut i: int = 0;
        assert(txs.take(0) =~= Seq::<MultiLedgerTransaction>::empty());
        while rest.len() > 0
            invariant
                self.wf(),
                start == old(self)@.with_ledger(ledger),
                txs == transactions@,
                0 <= i,
                i + rest.len() == txs.len(),
                forall|j: int| 0 <= j < rest.len() ==> rest@[j] == txs[txs.len() - 1 - j],
                start.replayed(txs.take(i)) == (self@, Ok::<(), Error>(())),
            decreases rest.len(),
        {
            let transaction = rest.pop().unwrap();
            proof {
                assert(transaction == txs[i]);
                assert(txs.take(i + 1).drop_last() =~= txs.take(i));
                assert(txs.take(i + 1).last() == txs[i]);
            }
            match self.mut_apply(transaction) {
                Err(e) => {
                    proof {
                        start.lemma_replayed_stops(txs, i + 1);
                    }
                    return Err(e);
                },
                Ok(()) => {},
            }
            proof {
                i = i + 1;
            }
        }
        assert(txs.take(i) =~= txs);
        Ok(())
    }
}

/// The same transactions, last first.
fn reversed(transactions: Vec<MultiLedgerTransaction>) -> (turned: Vec<MultiLedgerTransaction>)
    ensures
        turned.len() == transactions.len(),
        forall|j: int|
            0 <= j < turned.len() ==> turned@[j] == transactions@[transactions.len() - 1 - j],
{
    let mut from = transactions;
    let mut turned: Vec<MultiLedgerTransaction> = Vec::new();
    while from.len() > 0
        invariant
            turned.len() + from.len() == transactions.len(),
            forall|j: int| 0 <= j < from.len() ==> from@[j] == transactions@[j],
            forall|j: int|
                0 <= j < turned.len() ==> turned@[j] == transactions@[transactions.len() - 1 - j],
        decreases from.len(),
    {
        let last = from.pop().unwrap();
        turned.push(last);
    }
    turned
}

/// Whether `id` is among the first `n` of `ids`.
fn listed_before(ids: &LedgerIds, n: usize, id: LedgerId) -> (found: bool)
    requires
        n <= ids.len(),
    ensures
        found == ids@.take(n as int).contains(id),
{
    let mut i: usize = 0;
    while i < n
        invariant
            i <= n <= ids.len(),
            forall|j: int| 0 <= j < i ==> ids@[j] != id,
        decreases n - i,
    {
        if ids[i] == id {
            assert(ids@.take(n as int)[i as int] == id);
            return true;
        }
        i = i + 1;
    }
    assert forall|j: int| 0 <= j < ids@.take(n as int).len() implies ids@.take(n as int)[j] != id by {
        assert(ids@.take(n as int)[j] == ids@[j]);
    }
    false
}

} // verus!
