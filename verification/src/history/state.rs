//! The state of all ledgers: each ledger's canonical history and live branches,
//! and the effects of the transactions that were attempted.
use vstd::prelude::*;
use std::collections::HashMap;
use crate::history::operation::{HistoryView, OperationHistory};
use crate::history::forest::{carries, position, BranchView};
use crate::history::tree::{LedgerTree, TreeView};
use crate::ledger::{Ledger, LedgerId};
use crate::transactions::base::{LedgerIds, TransactionId};
use crate::transactions::Error;

verus! {

/// What an attempted transaction did.
#[derive(Clone, Copy, Debug, PartialEq, Eq)]
pub enum TransactionEffect {
    /// Operations were applied to canonical histories.
    Applied,
    /// Branches were opened.
    Forked,
    /// Branches were removed.
    Pruned,
    /// Branches became canonical.
    Promoted,
    /// Nothing: the transaction was refused.
    Rejected(Error),
}

/// The effects recorded so far, by transaction id.
pub type TransactionEffects = HashMap<TransactionId, TransactionEffect>;

/// The mathematical content of a [`MultiLedgerState`].
pub struct StateView {
    /// The tree of each registered ledger.
    pub ledgers: Map<LedgerId, TreeView>,
    /// The effect of the first attempt under each transaction id.
    pub effects: Map<TransactionId, TransactionEffect>,
}

impl StateView {
    /// The state before any ledger is registered.
    pub open spec fn empty() -> StateView {
        StateView { ledgers: Map::empty(), effects: Map::empty() }
    }

    /// Every tree is well formed and stands under the id of its own ledger.
    pub open spec fn wf(self) -> bool {
        forall|id: LedgerId| #[trigger]
            self.ledgers.contains_key(id) ==> self.ledgers[id].wf()
                && self.ledgers[id].canonical.ledger.id == id
    }

    /// Whether the ledger is registered.
    pub open spec fn knows(self, id: LedgerId) -> bool {
        self.ledgers.contains_key(id)
    }

    /// Whether all of the ledgers are registered.
    pub open spec fn knows_all(self, ids: Seq<LedgerId>) -> bool {
        forall|i: int| 0 <= i < ids.len() ==> self.knows(#[trigger] ids[i])
    }

    /// The canonical history of a registered ledger.
    pub open spec fn canonical(self, id: LedgerId) -> HistoryView {
        self.ledgers[id].canonical
    }

    /// Whether the ledger is registered and carries a branch keyed by `htl_id`.
    pub open spec fn has_branch(self, id: LedgerId, htl_id: TransactionId) -> bool {
        self.knows(id) && carries(self.ledgers[id].branches, htl_id)
    }

    /// The branch keyed by `htl_id` on a ledger that carries one.
    pub open spec fn branch(self, id: LedgerId, htl_id: TransactionId) -> BranchView {
        self.ledgers[id].branches[position(self.ledgers[id].branches, htl_id)]
    }

    /// The state with the tree of one ledger put or replaced.
    pub open spec fn with_tree(self, id: LedgerId, tree: TreeView) -> StateView {
        StateView { ledgers: self.ledgers.insert(id, tree), ..self }
    }

    /// The state after `ledger` is registered: under its id stands a fresh tree,
    /// the empty history of the ledger without branches, in place of whatever
    /// stood there before.
    pub open spec fn with_ledger(self, ledger: Ledger) -> StateView {
        self.with_tree(ledger.id, TreeView::fresh(HistoryView::fresh(ledger)))
    }

    /// The state with the canonical history of a registered ledger replaced.
    pub open spec fn committing(self, id: LedgerId, history: HistoryView) -> StateView {
        self.with_tree(id, self.ledgers[id].with_canonical(history))
    }

    /// Whether a branch keyed by `htl_id` and forked from `parent` may be put on
    /// the ledger: the ledger is registered, the key is new on it, the parent is
    /// there, and the history is of that ledger.
    pub open spec fn admits(
        self,
        id: LedgerId,
        htl_id: TransactionId,
        parent: Option<TransactionId>,
        history: HistoryView,
    ) -> bool {
        self.knows(id) && self.ledgers[id].admits(htl_id, parent, history)
    }

    /// The state with one more branch on a registered ledger.
    pub open spec fn branching(self, id: LedgerId, branch: BranchView) -> StateView {
        self.with_tree(id, self.ledgers[id].with_branch(branch))
    }

    /// The state after the subtree of `root` is removed from a ledger; the state
    /// itself where the ledger is not registered.
    pub open spec fn pruning(self, id: LedgerId, root: TransactionId) -> StateView {
        if self.knows(id) {
            self.with_tree(id, self.ledgers[id].without(root))
        } else {
            self
        }
    }

    /// The state after the branch keyed by `htl_id` has become canonical on a
    /// ledger; the state itself where the ledger is not registered or carries no
    /// such branch.
    pub open spec fn promoting(self, id: LedgerId, htl_id: TransactionId) -> StateView {
        if self.knows(id) {
            self.with_tree(id, self.ledgers[id].promoting(htl_id))
        } else {
            self
        }
    }

    /// The state with the effect of a transaction recorded. An id that has an
    /// entry keeps it: the log is only added to.
    pub open spec fn recording(self, id: TransactionId, effect: TransactionEffect) -> StateView {
        if self.effects.contains_key(id) {
            self
        } else {
            StateView { effects: self.effects.insert(id, effect), ..self }
        }
    }
}

/// All registered ledgers, each with its canonical history and its live branches,
/// and the effects of the transactions attempted so far.
pub struct MultiLedgerState {
    histories: HashMap<LedgerId, LedgerTree>,
    effects: TransactionEffects,
}

impl View for MultiLedgerState {
    type V = StateView;

    closed spec fn view(&self) -> StateView {
        StateView {
            ledgers: Map::new(
                |id: LedgerId| self.histories@.contains_key(id),
                |id: LedgerId| self.histories@[id]@,
            ),
            effects: self.effects@,
        }
    }
}

impl MultiLedgerState {
    /// Whether the state satisfies its invariant.
    pub open spec fn wf(&self) -> bool {
        self@.wf()
    }

    /// A state without ledgers and without effects.
    pub fn new() -> (state: MultiLedgerState)
        ensures
            state@ == StateView::empty(),
            state.wf(),
    {
        let state = MultiLedgerState { histories: HashMap::new(), effects: HashMap::new() };
        assert(state@.ledgers =~= Map::empty());
        state
    }

    /// Registers a ledger with an empty history. Where the id is already
    /// registered, the new ledger takes the place of the old one: its history and
    /// its branches are gone. Tells whether the id was new.
    pub fn add_ledger(&mut self, ledger: Ledger) -> (added: bool)
        requires
            old(self).wf(),
        ensures
            added == !old(self)@.knows(ledger.id),
            final(self)@ == old(self)@.with_ledger(ledger),
            final(self).wf(),
    {
        let tree = LedgerTree::new(OperationHistory::new(ledger));
        let before = self.histories.insert(ledger.id, tree);
        assert(self@.ledgers =~= old(self)@.ledgers.insert(ledger.id, tree@));
        before.is_none()
    }

    /// Whether the ledger is registered.
    pub fn has_history(&self, ledger_id: LedgerId) -> (known: bool)
        ensures
            known == self@.knows(ledger_id),
    {
        self.histories.contains_key(&ledger_id)
    }

    /// Whether all of the ledgers are registered.
    pub fn has_all_histories(&self, required_ids: &LedgerIds) -> (known: bool)
        ensures
            known == self@.knows_all(required_ids@),
    {
        let mut i: usize = 0;
        while i < required_ids.len()
            invariant
                i <= required_ids.len(),
                forall|j: int| 0 <= j < i ==> self@.knows(#[trigger] required_ids@[j]),
            decreases required_ids.len() - i,
        {
            if !self.has_history(required_ids[i]) {
                return false;
            }
            i = i + 1;
        }
        true
    }

    /// The canonical history of a ledger, if it is registered.
    pub fn get(&self, ledger_id: LedgerId) -> (history: Option<&OperationHistory>)
        ensures
            history is Some <==> self@.knows(ledger_id),
            history is Some ==> history->0@ == self@.canonical(ledger_id),
    {
        match self.histories.get(&ledger_id) {
            None => None,
            Some(tree) => Some(tree.canonical()),
        }
    }

    /// The history of the branch keyed by `htl_id` on a ledger, if the ledger is
    /// registered and carries one.
    pub fn get_branch(&self, ledger_id: LedgerId, htl_id: TransactionId) -> (history: Option<
        &OperationHistory,
    >)
        requires
            self.wf(),
        ensures
            history is Some <==> self@.has_branch(ledger_id, htl_id),
            history is Some ==> history->0@ == self@.branch(ledger_id, htl_id).history,
    {
        match self.histories.get(&ledger_id) {
            None => None,
            Some(tree) => {
                assert(self@.knows(ledger_id));
                tree.history_at(Some(htl_id))
            },
        }
    }

    /// Whether the ledger is registered and carries a branch keyed by `htl_id`.
    pub fn has_branch(&self, ledger_id: LedgerId, htl_id: TransactionId) -> (found: bool)
        requires
            self.wf(),
        ensures
            found == self@.has_branch(ledger_id, htl_id),
    {
        self.get_branch(ledger_id, htl_id).is_some()
    }

    /// The effects recorded so far.
    pub fn effects(&self) -> (effects: &TransactionEffects)
        ensures
            effects@ == self@.effects,
    {
        &self.effects
    }

    /// The recorded effect of a transaction, if it was attempted.
    pub fn effect(&self, id: TransactionId) -> (effect: Option<TransactionEffect>)
        ensures
            effect == if self@.effects.contains_key(id) {
                Some(self@.effects[id])
            } else {
                None
            },
    {
        match self.effects.get(&id) {
            None => None,
            Some(e) => Some(*e),
        }
    }

    /// Records the effect of a transaction, unless one is recorded under its id
    /// already: no entry of the log is ever changed or removed. Tells whether the
    /// effect was recorded.
    pub fn record(&mut self, id: TransactionId, effect: TransactionEffect) -> (recorded: bool)
        ensures
            recorded == !old(self)@.effects.contains_key(id),
            final(self)@ == old(self)@.recording(id, effect),
            old(self).wf() ==> final(self).wf(),
            forall|other: TransactionId|
                old(self)@.effects.contains_key(other) ==> final(self)@.effects.contains_key(other)
                    && #[trigger] final(self)@.effects[other] == old(self)@.effects[other],
    {
        if self.effects.contains_key(&id) {
            false
        } else {
            self.effects.insert(id, effect);
            assert(self@.ledgers =~= old(self)@.ledgers);
            true
        }
    }

    /// Replaces the canonical history of a ledger by another history of that
    /// ledger. Refused, with nothing changed, where the ledger is not registered
    /// or the history is of another ledger.
    pub fn commit(&mut self, ledger_id: LedgerId, history: OperationHistory) -> (done: bool)
        requires
            old(self).wf(),
        ensures
            done == (old(self)@.knows(ledger_id) && history@.ledger.id == ledger_id),
            final(self)@ == if done {
                old(self)@.committing(ledger_id, history@)
            } else {
                old(self)@
            },
            final(self).wf(),
    {
        match self.histories.remove(&ledger_id) {
            None => {
                assert(self@.ledgers =~= old(self)@.ledgers);
                false
            },
            Some(tree) => {
                let mut tree = tree;
                assert(old(self)@.ledgers.contains_key(ledger_id));
                let done = tree.set_canonical(history);
                self.histories.insert(ledger_id, tree);
                assert(self@.ledgers =~= old(self)@.ledgers.insert(ledger_id, tree@));
                if !done {
                    assert(self@.ledgers =~= old(self)@.ledgers);
                }
                done
            },
        }
    }

    /// Registers `history` as the branch keyed by `htl_id` on a ledger, forked
    /// from the canonical history or, where `parent` names one, from another
    /// branch. Refused, with nothing changed, where the ledger is not registered,
    /// already carries a branch under that key, carries none under the parent's
    /// key, or the history is of another ledger.
    pub fn open_branch(
        &mut self,
        ledger_id: LedgerId,
        htl_id: TransactionId,
        parent: Option<TransactionId>,
        history: OperationHistory,
    ) -> (done: bool)
        requires
            old(self).wf(),
        ensures
            done == old(self)@.admits(ledger_id, htl_id, parent, history@),
            final(self)@ == if done {
                old(self)@.branching(ledger_id, BranchView { htl_id, parent, history: history@ })
            } else {
                old(self)@
            },
            final(self).wf(),
    {
        match self.histories.remove(&ledger_id) {
            None => {
                assert(self@.ledgers =~= old(self)@.ledgers);
                false
            },
            Some(tree) => {
                let mut tree = tree;
                assert(old(self)@.ledgers.contains_key(ledger_id));
                let done = tree.open_branch(htl_id, parent, history);
                self.histories.insert(ledger_id, tree);
                assert(self@.ledgers =~= old(self)@.ledgers.insert(ledger_id, tree@));
                if !done {
                    assert(self@.ledgers =~= old(self)@.ledgers);
                }
                done
            },
        }
    }

    /// Removes from a ledger the branch keyed by `root` and all that was forked
    /// from it. Tells whether the ledger is registered.
    pub fn prune(&mut self, ledger_id: LedgerId, root: TransactionId) -> (known: bool)
        requires
            old(self).wf(),
        ensures
            known == old(self)@.knows(ledger_id),
            final(self)@ == old(self)@.pruning(ledger_id, root),
            final(self).wf(),
    {
        match self.histories.remove(&ledger_id) {
            None => {
                assert(self@.ledgers =~= old(self)@.ledgers);
                false
            },
            Some(tree) => {
                let mut tree = tree;
                assert(old(self)@.ledgers.contains_key(ledger_id));
                tree.prune(root);
                self.histories.insert(ledger_id, tree);
                assert(self@.ledgers =~= old(self)@.ledgers.insert(ledger_id, tree@));
                true
            },
        }
    }

    /// Makes the branch keyed by `htl_id` the canonical history of a ledger. Tells
    /// whether the ledger is registered and carried such a branch.
    pub fn promote(&mut self, ledger_id: LedgerId, htl_id: TransactionId) -> (done: bool)
        requires
            old(self).wf(),
        ensures
            done == old(self)@.has_branch(ledger_id, htl_id),
            final(self)@ == old(self)@.promoting(ledger_id, htl_id),
            final(self).wf(),
    {
        match self.histories.remove(&ledger_id) {
            None => {
                assert(self@.ledgers =~= old(self)@.ledgers);
                false
            },
            Some(tree) => {
                let mut tree = tree;
                assert(old(self)@.ledgers.contains_key(ledger_id));
                let done = tree.promote(htl_id);
                self.histories.insert(ledger_id, tree);
                assert(self@.ledgers =~= old(self)@.ledgers.insert(ledger_id, tree@));
                done
            },
        }
    }
}

} // verus!
