//! What holds of the library as a whole: facts that relate several of its
//! functions, stated over the same models as their contracts.
use vstd::prelude::*;
use crate::history::operation::HistoryView;
use crate::history::state::StateView;
use crate::history::transaction::TransactionHistoryView;
use crate::history::forest::{
    carries,
    descends,
    discarded,
    lemma_discarded_subtree,
    lemma_forest_push,
    lemma_position,
    lemma_promoted_first,
    lemma_pruned_last,
    lemma_pruned_removes_subtree,
    lemma_surviving_removes_discarded,
    position,
};
use crate::history::tree::TreeView;
use crate::ledger::LedgerId;
use crate::transactions::base::{
    lemma_sequence_verdict_ok,
    sequence_verdict,
    names,
    names_from,
    sequence_verdict_of,
    TransactionId,
    TransactionView,
};
use crate::transactions::end_htl::EndHTLView;
use crate::transactions::{
    attempted,
    basic,
    end_htl,
    required_ledgers,
    start_htl,
    start_of,
    verdict,
    verdict_new,
    Error,
    MultiLedgerTransaction,
    MultiLedgerTransactionView,
};

verus! {

/// An accepted basic transaction leaves the state well formed and registers no
/// ledger.
pub proof fn lemma_basic_keeps_wf(state: StateView, tx: TransactionView)
    requires
        state.wf(),
        basic::verdict(state, tx) is Ok,
    ensures
        basic::applied(state, tx).wf(),
        basic::applied(state, tx).ledgers.dom() == state.ledgers.dom(),
{
    let after = basic::applied(state, tx);
    assert(after.ledgers.dom() =~= state.ledgers.dom());
    assert forall|id: LedgerId| #[trigger] after.ledgers.contains_key(id) implies after.ledgers[id].wf()
        && after.ledgers[id].canonical.ledger.id == id by {
        assert(state.ledgers.contains_key(id));
        if names_from(tx.seq_nos, 0, id) {
            let i = choose|i: int| 0 <= i < tx.seq_nos.len() && 0 <= i && (#[trigger] tx.seq_nos[i]).0 == id;
            assert(state.canonical(tx.seq_nos[i].0).applied_all(tx.operations) is Some);
            state.canonical(id).lemma_applied_all_keeps(tx.operations);
        }
    }
}

/// An accepted transaction that starts a hash-time-lock leaves the state well
/// formed, registers no ledger and changes no canonical history.
pub proof fn lemma_start_keeps_wf(state: StateView, tx: TransactionView)
    requires
        state.wf(),
        start_htl::verdict(state, tx) is Ok,
    ensures
        start_htl::applied(state, tx).wf(),
        start_htl::applied(state, tx).ledgers.dom() == state.ledgers.dom(),
        forall|id: LedgerId|
            state.knows(id) ==> #[trigger] start_htl::applied(state, tx).canonical(id)
                == state.canonical(id),
{
    let after = start_htl::applied(state, tx);
    assert(after.ledgers.dom() =~= state.ledgers.dom());
    assert forall|id: LedgerId| #[trigger] after.ledgers.contains_key(id) implies after.ledgers[id].wf()
        && after.ledgers[id].canonical.ledger.id == id by {
        assert(state.ledgers.contains_key(id));
        if names_from(tx.seq_nos, 0, id) {
            let i = choose|i: int| 0 <= i < tx.seq_nos.len() && 0 <= i && (#[trigger] tx.seq_nos[i]).0 == id;
            assert(state.canonical(tx.seq_nos[i].0).applied_all(tx.operations) is Some);
            assert(!state.has_branch(tx.seq_nos[i].0, tx.id));
            state.canonical(id).lemma_applied_all_keeps(tx.operations);
            lemma_forest_push(
                state.ledgers[id].branches,
                start_htl::opened(state, tx.id, tx.operations, id),
            );
        }
    }
}

/// An accepted transaction that ends a hash-time-lock leaves the state well
/// formed and registers no ledger.
pub proof fn lemma_end_keeps_wf(state: StateView, tx: EndHTLView, start: TransactionView)
    requires
        state.wf(),
        end_htl::verdict(state, tx, start) is Ok,
    ensures
        end_htl::applied(state, tx, start).wf(),
        end_htl::applied(state, tx, start).ledgers.dom() == state.ledgers.dom(),
{
    let after = end_htl::applied(state, tx, start);
    assert(after.ledgers.dom() =~= state.ledgers.dom());
    assert forall|id: LedgerId| #[trigger] after.ledgers.contains_key(id) implies after.ledgers[id].wf()
        && after.ledgers[id].canonical.ledger.id == id by {
        assert(state.ledgers.contains_key(id));
        let tree = state.ledgers[id];
        tree.lemma_without_wf(start.id);
        tree.lemma_promoting_wf(start.id);
        if carries(tree.branches, start.id) {
            lemma_position(
                tree.branches,
                start.id,
                position(tree.branches, start.id),
            );
        }
    }
}

/// An accepted basic transaction asserted, for every ledger it names, the
/// sequence number that followed the current one, and advances that ledger's
/// sequence number by the number of its operations on it.
pub proof fn lemma_basic_advances(state: StateView, tx: TransactionView, ledger: LedgerId)
    requires
        state.wf(),
        basic::verdict(state, tx) is Ok,
        names(tx.seq_nos, ledger),
    ensures
        basic::applied(state, tx).knows(ledger),
        basic::applied(state, tx).canonical(ledger).seq_no() == state.canonical(ledger).seq_no()
            + HistoryView::count_for(ledger, tx.operations),
        forall|i: int|
            0 <= i < tx.seq_nos.len() && (#[trigger] tx.seq_nos[i]).0 == ledger ==> tx.seq_nos[i].1
                == state.canonical(ledger).seq_no() + 1,
{
    let i = choose|i: int| 0 <= i < tx.seq_nos.len() && 0 <= i && (#[trigger] tx.seq_nos[i]).0 == ledger;
    assert(state.knows(tx.seq_nos[i].0));
    assert(state.ledgers.contains_key(ledger));
    assert(state.canonical(tx.seq_nos[i].0).applied_all(tx.operations) is Some);
    state.canonical(ledger).lemma_applied_all_keeps(tx.operations);
    lemma_sequence_verdict_ok(state, tx.seq_nos);
    assert forall|j: int|
        0 <= j < tx.seq_nos.len() && (#[trigger] tx.seq_nos[j]).0 == ledger implies tx.seq_nos[j].1
        == state.canonical(ledger).seq_no() + 1 by {
        assert(sequence_verdict_of(state, tx.seq_nos[j]) is Ok);
    }
}

/// Whether a transaction is a basic one that names the ledger and carries
/// exactly one operation on it.
pub open spec fn single_step(tx: MultiLedgerTransactionView, ledger: LedgerId) -> bool {
    &&& tx is Basic
    &&& names(tx.tx().seq_nos, ledger)
    &&& HistoryView::count_for(ledger, tx.tx().operations) == 1
}

/// Sequence numbers grow one by one: where basic transactions that each carry
/// exactly one operation on a ledger are submitted in order and all accepted,
/// the ledger's sequence number after the `i`-th is the one it started with plus
/// `i`.
pub proof fn law_sequence_monotonic(
    history: TransactionHistoryView,
    txs: Seq<MultiLedgerTransaction>,
    ledger: LedgerId,
    i: int,
)
    requires
        history.wf(),
        history.state.knows(ledger),
        0 <= i <= txs.len(),
        history.replayed(txs.take(i)).1 is Ok,
        forall|k: int| 0 <= k < i ==> single_step((#[trigger] txs[k])@, ledger),
    ensures
        history.replayed(txs.take(i)).0.wf(),
        history.replayed(txs.take(i)).0.state.knows(ledger),
        history.replayed(txs.take(i)).0.state.canonical(ledger).seq_no()
            == history.state.canonical(ledger).seq_no() + i,
    decreases i,
{
    if i > 0 {
        let front = txs.take(i - 1);
        assert(txs.take(i).drop_last() =~= front);
        assert(txs.take(i).last() == txs[i - 1]);
        law_sequence_monotonic(history, txs, ledger, i - 1);
        let before = history.replayed(front).0;
        let tx = txs[i - 1];
        let basic = tx@.tx();
        assert(single_step(tx@, ledger));
        let answer = before.verdict_new(tx);
        assert(answer is Ok);
        assert(!before.transactions.contains_key(basic.id));
        lemma_basic_keeps_wf(before.state, basic);
        lemma_basic_advances(before.state, basic, ledger);
        before.lemma_submitted_wf(tx, answer);
    } else {
        assert(txs.take(0) =~= Seq::<MultiLedgerTransaction>::empty());
    }
}

/// A hash-time-lock that fails leaves no trace on the ledgers: where a
/// transaction that names at least one ledger starts a lock, every ledger it
/// names carries a branch of the lock; the transaction that ends the lock as
/// failed right after is accepted; and afterwards every ledger is exactly as it
/// was before the lock, with no branch of the lock to be found.
pub proof fn law_failed_lock_restores(state: StateView, start: TransactionView, end: EndHTLView)
    requires
        state.wf(),
        start_htl::verdict(state, start) is Ok,
        start.seq_nos.len() > 0,
        !end.fulfilled,
    ensures
        forall|i: int|
            0 <= i < start.seq_nos.len() ==> start_htl::applied(state, start).has_branch(
                (#[trigger] start.seq_nos[i]).0,
                start.id,
            ),
        end_htl::verdict(start_htl::applied(state, start), end, start) is Ok,
        end_htl::applied(start_htl::applied(state, start), end, start).ledgers == state.ledgers,
        forall|i: int|
            0 <= i < start.seq_nos.len() ==> !end_htl::applied(
                start_htl::applied(state, start),
                end,
                start,
            ).has_branch((#[trigger] start.seq_nos[i]).0, start.id),
{
    let opened = start_htl::applied(state, start);
    let closed = end_htl::applied(opened, end, start);
    assert forall|i: int| 0 <= i < start.seq_nos.len() implies opened.has_branch(
        (#[trigger] start.seq_nos[i]).0,
        start.id,
    ) by {
        let ledger = start.seq_nos[i].0;
        assert(state.knows(start.seq_nos[i].0));
        assert(names_from(start.seq_nos, 0, ledger));
        let pushed = opened.ledgers[ledger].branches;
        assert(pushed[pushed.len() - 1].htl_id == start.id);
    }
    assert(opened.has_branch(start.seq_nos[0].0, start.id));
    assert forall|ledger: LedgerId| state.ledgers.contains_key(ledger) implies #[trigger] closed.ledgers[ledger]
        == state.ledgers[ledger] by {
        if names_from(start.seq_nos, 0, ledger) {
            let i = choose|i: int|
                0 <= i < start.seq_nos.len() && 0 <= i && (#[trigger] start.seq_nos[i]).0 == ledger;
            assert(!state.has_branch(start.seq_nos[i].0, start.id));
            lemma_pruned_last(
                state.ledgers[ledger].branches,
                start_htl::opened(state, start.id, start.operations, ledger),
            );
        }
    }
    assert(closed.ledgers =~= state.ledgers);
    assert forall|i: int| 0 <= i < start.seq_nos.len() implies !closed.has_branch(
        (#[trigger] start.seq_nos[i]).0,
        start.id,
    ) by {
        assert(!state.has_branch(start.seq_nos[i].0, start.id));
    }
}

/// A failed lock takes with it all that was forked from it: on a well-formed
/// tree, a branch that is the lock's own or was forked, directly or through other
/// branches, from it has no branch under its key once the lock is pruned.
pub proof fn law_failed_lock_takes_its_subtree(tree: TreeView, root: TransactionId, i: int)
    requires
        tree.wf(),
        descends(tree.branches, root, i),
    ensures
        !carries(tree.without(root).branches, tree.branches[i].htl_id),
{
    lemma_pruned_removes_subtree(tree.branches, root, i);
}

/// A fulfilled lock takes with it the locks that were opened after it from the
/// same base, and all that was forked from them: on a well-formed tree that
/// carries the lock's branch, a branch that stands after it and was forked from
/// the same base, and every branch forked directly or through other branches
/// from such a one, has no branch under its key once the lock is promoted. Nor
/// has the promoted branch itself.
pub proof fn law_fulfilled_lock_takes_later_siblings(
    tree: TreeView,
    id: TransactionId,
    sibling: int,
    i: int,
)
    requires
        tree.wf(),
        carries(tree.branches, id),
        position(tree.branches, id) < sibling < tree.branches.len(),
        tree.branches[sibling].parent == tree.branches[position(tree.branches, id)].parent,
        descends(tree.branches, tree.branches[sibling].htl_id, i),
    ensures
        tree.promoting(id).canonical == tree.branches[position(tree.branches, id)].history,
        !carries(tree.promoting(id).branches, id),
        !carries(tree.promoting(id).branches, tree.branches[sibling].htl_id),
        !carries(tree.promoting(id).branches, tree.branches[i].htl_id),
{
    let k = position(tree.branches, id);
    assert(0 <= k < tree.branches.len() && tree.branches[k].htl_id == id);
    assert(discarded(tree.branches, k, sibling));
    lemma_discarded_subtree(tree.branches, k, sibling, i);
    lemma_surviving_removes_discarded(tree.branches, k, sibling);
    lemma_surviving_removes_discarded(tree.branches, k, i);
    tree.lemma_resolved(id);
}

/// A lock that is pending can be ended: a transaction that names a recorded
/// transaction that starts a lock, of which a ledger still carries a branch, is
/// accepted as soon as its sequence assertions hold, whatever else it mentions.
pub proof fn law_pending_lock_can_end(
    transactions: Map<TransactionId, MultiLedgerTransaction>,
    state: StateView,
    end: EndHTLView,
)
    requires
        start_of(transactions, end.start_htl_id) is Some,
        end_htl::pending(
            state,
            start_of(transactions, end.start_htl_id)->0.id,
            start_of(transactions, end.start_htl_id)->0.seq_nos,
        ),
        sequence_verdict(state, end.tx.seq_nos) is Ok,
    ensures
        verdict(transactions, state, MultiLedgerTransactionView::EndHTL(end)) is Ok,
{
}

/// The log of effects is only added to: whatever is attempted, and however it
/// ends, every entry that was there is there afterwards, unchanged, and the id
/// of the attempt has an entry.
pub proof fn law_effects_are_kept(
    transactions: Map<TransactionId, MultiLedgerTransaction>,
    state: StateView,
    tx: MultiLedgerTransactionView,
    res: Result<(), Error>,
    id: TransactionId,
)
    ensures
        attempted(transactions, state, tx, res).effects.contains_key(tx.tx().id),
        state.effects.contains_key(id) ==> attempted(
            transactions,
            state,
            tx,
            res,
        ).effects.contains_key(id) && attempted(transactions, state, tx, res).effects[id]
            == state.effects[id],
        !state.effects.contains_key(tx.tx().id) ==> attempted(
            transactions,
            state,
            tx,
            res,
        ).effects[tx.tx().id] == tx.effect(res),
{
}

/// The tree of a ledger after two locks were started on it from the same
/// canonical history and the first was fulfilled: the first lock's branch is
/// the canonical history, and the live branches are those from before the two.
pub open spec fn won_tree(state: StateView, first: TransactionView, ledger: LedgerId) -> TreeView {
    TreeView {
        canonical: state.canonical(ledger).applied_all(first.operations)->0,
        branches: state.ledgers[ledger].branches,
    }
}

/// A hash-time-lock that is fulfilled wins over a later one: where two
/// transactions start locks on a ledger one after the other, both from the same
/// canonical history, the transaction that then ends the first lock as fulfilled
/// is accepted, the first one's branch becomes the ledger's canonical history,
/// and the second one's branch is gone.
pub proof fn law_fulfilled_lock_wins(
    state: StateView,
    first: TransactionView,
    second: TransactionView,
    end: EndHTLView,
    ledger: LedgerId,
)
    requires
        state.wf(),
        start_htl::verdict(state, first) is Ok,
        start_htl::verdict(start_htl::applied(state, first), second) is Ok,
        end.fulfilled,
        names(first.seq_nos, ledger),
        names(second.seq_nos, ledger),
    ensures
        ({
            let forked = start_htl::applied(start_htl::applied(state, first), second);
            let won = end_htl::applied(forked, end, first);
            &&& end_htl::verdict(forked, end, first) is Ok
            &&& forked.has_branch(ledger, first.id)
            &&& forked.has_branch(ledger, second.id)
            &&& forked.branch(ledger, first.id).history == state.canonical(ledger).applied_all(
                first.operations,
            )->0
            &&& won.ledgers[ledger] == won_tree(state, first, ledger)
            &&& !won.has_branch(ledger, first.id)
            &&& !won.has_branch(ledger, second.id)
        }),
{
    let one = start_htl::applied(state, first);
    let forked = start_htl::applied(one, second);
    let won = end_htl::applied(forked, end, first);
    lemma_start_keeps_wf(state, first);
    let i = choose|i: int|
        0 <= i < first.seq_nos.len() && 0 <= i && (#[trigger] first.seq_nos[i]).0 == ledger;
    let j = choose|j: int|
        0 <= j < second.seq_nos.len() && 0 <= j && (#[trigger] second.seq_nos[j]).0 == ledger;
    assert(state.knows(first.seq_nos[i].0));
    assert(state.ledgers.contains_key(ledger));
    assert(!state.has_branch(first.seq_nos[i].0, first.id));
    assert(!one.has_branch(second.seq_nos[j].0, second.id));
    let base = state.ledgers[ledger].branches;
    let b1 = start_htl::opened(state, first.id, first.operations, ledger);
    let b2 = start_htl::opened(one, second.id, second.operations, ledger);
    assert(one.ledgers[ledger].branches == base.push(b1));
    assert(forked.ledgers[ledger].branches == base.push(b1).push(b2));
    assert(first.id != second.id) by {
        if first.id == second.id {
            assert(base.push(b1)[base.len() as int].htl_id == second.id);
        }
    }
    assert(!carries(base, second.id)) by {
        if carries(base, second.id) {
            let a = choose|a: int| 0 <= a < base.len() && #[trigger] base[a].htl_id == second.id;
            assert(base.push(b1)[a].htl_id == second.id);
        }
    }
    lemma_promoted_first(base, b1, b2);
    let two = base.push(b1).push(b2);
    assert(two[base.len() as int + 1].htl_id == second.id);
    assert(names_from(first.seq_nos, 0, ledger));
    assert(two[base.len() as int] == b1);
    assert(forked.has_branch(first.seq_nos[i].0, first.id));
}

/// Once a lock was fulfilled as [`law_fulfilled_lock_wins`] tells, and the first
/// transaction names every ledger that the second one names, every transaction
/// that would end the second lock is refused.
pub proof fn law_lost_lock_is_gone(
    state: StateView,
    first: TransactionView,
    second: TransactionView,
    end: EndHTLView,
    late: EndHTLView,
)
    requires
        state.wf(),
        start_htl::verdict(state, first) is Ok,
        start_htl::verdict(start_htl::applied(state, first), second) is Ok,
        end.fulfilled,
        forall|j: int|
            0 <= j < second.seq_nos.len() ==> names(first.seq_nos, (#[trigger] second.seq_nos[j]).0),
    ensures
        end_htl::verdict(
            end_htl::applied(
                start_htl::applied(start_htl::applied(state, first), second),
                end,
                first,
            ),
            late,
            second,
        ) is Err,
{
    let forked = start_htl::applied(start_htl::applied(state, first), second);
    let won = end_htl::applied(forked, end, first);
    assert forall|j: int| 0 <= j < second.seq_nos.len() implies !won.has_branch(
        (#[trigger] second.seq_nos[j]).0,
        second.id,
    ) by {
        let ledger = second.seq_nos[j].0;
        assert(names(first.seq_nos, second.seq_nos[j].0));
        law_fulfilled_lock_wins(state, first, second, end, ledger);
    }
}

/// A recorded transaction stays as it is: whatever is submitted, and however it
/// ends, every transaction recorded before is recorded after, unchanged.
pub proof fn law_recorded_transactions_stay(
    history: TransactionHistoryView,
    tx: MultiLedgerTransaction,
    res: Result<(), Error>,
    id: TransactionId,
)
    requires
        history.transactions.contains_key(id),
    ensures
        history.submitted(tx, res).transactions.contains_key(id),
        history.submitted(tx, res).transactions[id] == history.transactions[id],
{
}

/// An accepted transaction asserted, on every registered ledger it names, the
/// sequence number that follows the ledger's current one.
pub proof fn law_accepted_asserts_next(
    transactions: Map<TransactionId, MultiLedgerTransaction>,
    state: StateView,
    tx: MultiLedgerTransactionView,
    i: int,
)
    requires
        verdict(transactions, state, tx) is Ok,
        0 <= i < tx.tx().seq_nos.len(),
        state.knows(tx.tx().seq_nos[i].0),
    ensures
        tx.tx().seq_nos[i].1 == state.canonical(tx.tx().seq_nos[i].0).seq_no() + 1,
{
    lemma_sequence_verdict_ok(state, tx.tx().seq_nos);
    assert(sequence_verdict_of(state, tx.tx().seq_nos[i]) is Ok);
}

/// A refused transaction changes no ledger: neither a canonical history nor a
/// branch.
pub proof fn law_refusal_changes_no_ledger(
    transactions: Map<TransactionId, MultiLedgerTransaction>,
    state: StateView,
    tx: MultiLedgerTransactionView,
    res: Result<(), Error>,
)
    requires
        res is Err,
    ensures
        attempted(transactions, state, tx, res).ledgers == state.ledgers,
{
}

/// A hash-time-lock is ended once: after an accepted transaction has ended the
/// lock that `start` opened, as fulfilled or as failed, no ledger that `start`
/// names carries a branch of the lock, and every further transaction that would
/// end it is refused.
pub proof fn law_lock_ends_once(
    state: StateView,
    start: TransactionView,
    end: EndHTLView,
    late: EndHTLView,
)
    requires
        state.wf(),
        end_htl::verdict(state, end, start) is Ok,
    ensures
        forall|i: int|
            0 <= i < start.seq_nos.len() ==> !end_htl::applied(state, end, start).has_branch(
                (#[trigger] start.seq_nos[i]).0,
                start.id,
            ),
        end_htl::verdict(end_htl::applied(state, end, start), late, start) is Err,
{
    let after = end_htl::applied(state, end, start);
    assert forall|i: int| 0 <= i < start.seq_nos.len() implies !after.has_branch(
        (#[trigger] start.seq_nos[i]).0,
        start.id,
    ) by {
        let ledger = start.seq_nos[i].0;
        assert(names_from(start.seq_nos, 0, ledger));
        if state.knows(ledger) {
            assert(state.ledgers.contains_key(ledger));
            state.ledgers[ledger].lemma_resolved(start.id);
        }
    }
}

/// A transaction that requires a ledger that is not registered, or mentions one
/// in a sequence assertion or an operation, is refused for that alone, whatever
/// else holds of it.
pub proof fn law_unknown_ledger_refused(
    history: TransactionHistoryView,
    tx: MultiLedgerTransaction,
    i: int,
)
    requires
        required_ledgers(history.transactions, tx@) is Some,
        (0 <= i < required_ledgers(history.transactions, tx@)->0.len() && !history.state.knows(
            required_ledgers(history.transactions, tx@)->0[i],
        )) || (0 <= i < tx@.tx().referenced_ledgers().len() && !history.state.knows(
            tx@.tx().referenced_ledgers()[i],
        )),
    ensures
        verdict_new(history.transactions, history.state, tx@) == Err::<(), Error>(
            Error::InvalidEndHTLError,
        ),
        history.verdict_new(tx) is Err,
        history.submitted(tx, history.verdict_new(tx)).state.ledgers == history.state.ledgers,
{
}

} // verus!
