//! The speculative futures of one ledger: its canonical history and the branches
//! that hash-time-locked transactions have forked from it, kept as a tree.
use vstd::prelude::*;
use crate::history::forest::{
    carries,
    descends,
    discarded,
    distinct_keys,
    is_forest,
    kept,
    lemma_descends_decided,
    lemma_discarded_decided,
    lemma_drawn_all,
    lemma_drawn_order,
    lemma_forest_push,
    lemma_kept,
    lemma_marked_step,
    lemma_position,
    lemma_pruned_absent,
    lemma_pruned_removes,
    lemma_surviving,
    lemma_surviving_front,
    lemma_surviving_removes,
    marked,
    parents_precede,
    position,
    pruned,
    rebased,
    stands_as,
    surviving,
    BranchView,
};
use crate::history::operation::{HistoryView, OperationHistory};
use crate::transactions::base::TransactionId;

verus! {

/// The mathematical content of a [`LedgerTree`].
pub struct TreeView {
    /// The history that new transactions are validated and applied against.
    pub canonical: HistoryView,
    /// The live branches, in the order they were opened.
    pub branches: Seq<BranchView>,
}

impl TreeView {
    /// The tree of a freshly registered ledger.
    pub open spec fn fresh(canonical: HistoryView) -> TreeView {
        TreeView { canonical, branches: Seq::empty() }
    }

    /// All histories are of one ledger, and the branches form a forest.
    pub open spec fn wf(self) -> bool {
        &&& is_forest(self.branches)
        &&& forall|i: int|
            0 <= i < self.branches.len() ==> (#[trigger] self.branches[i]).history.ledger.id
                == self.canonical.ledger.id
    }

    /// The tree with another canonical history.
    pub open spec fn with_canonical(self, canonical: HistoryView) -> TreeView {
        TreeView { canonical, ..self }
    }

    /// Whether a branch keyed by `htl_id` and forked from `parent` may be put on
    /// the tree: the key is new, the parent is there, and the history is of the
    /// tree's ledger.
    pub open spec fn admits(
        self,
        htl_id: TransactionId,
        parent: Option<TransactionId>,
        history: HistoryView,
    ) -> bool {
        &&& !carries(self.branches, htl_id)
        &&& parent is Some ==> carries(self.branches, parent->0)
        &&& history.ledger.id == self.canonical.ledger.id
    }

    /// The tree with one more branch.
    pub open spec fn with_branch(self, branch: BranchView) -> TreeView {
        TreeView { branches: self.branches.push(branch), ..self }
    }

    /// The history that the key `base` names: the canonical one for `None`, else
    /// that of the branch keyed by it.
    pub open spec fn history_at(self, base: Option<TransactionId>) -> Option<HistoryView> {
        match base {
            None => Some(self.canonical),
            Some(id) => if carries(self.branches, id) {
                Some(self.branches[position(self.branches, id)].history)
            } else {
                None
            },
        }
    }

    /// The tree without the subtree of `root`.
    pub open spec fn without(self, root: TransactionId) -> TreeView {
        TreeView { branches: pruned(self.branches, root), ..self }
    }

    /// The tree after the branch keyed by `id` has become canonical; the tree
    /// itself where it carries no such branch.
    pub open spec fn promoting(self, id: TransactionId) -> TreeView {
        if carries(self.branches, id) {
            let k = position(self.branches, id);
            TreeView {
                canonical: self.branches[k].history,
                branches: surviving(self.branches, k, self.branches.len() as int),
            }
        } else {
            self
        }
    }

    /// A tree that does not carry the root is left as it is by pruning.
    pub proof fn lemma_without_absent(self, root: TransactionId)
        requires
            !carries(self.branches, root),
        ensures
            self.without(root) == self,
    {
        lemma_pruned_absent(self.branches, root, self.branches.len() as int);
        assert(self.branches.take(self.branches.len() as int) =~= self.branches);
    }

    /// Once resolved, a lock has no branch on the tree: neither pruning nor
    /// promotion leaves one under its key.
    pub proof fn lemma_resolved(self, id: TransactionId)
        requires
            self.wf(),
        ensures
            !carries(self.without(id).branches, id),
            !carries(self.promoting(id).branches, id),
    {
        lemma_pruned_removes(self.branches, id);
        if carries(self.branches, id) {
            let k = position(self.branches, id);
            lemma_surviving_removes(self.branches, k);
        }
    }

    /// Pruning leaves the branches that stay in the order in which they stood, and
    /// promotion does too.
    pub proof fn lemma_resolved_order(self, id: TransactionId)
        requires
            self.wf(),
        ensures
            stands_as(self.without(id).branches, self.branches),
            stands_as(self.promoting(id).branches, self.branches),
    {
        let n = self.branches.len() as int;
        lemma_kept(self.branches, id, n);
        lemma_drawn_order(
            pruned(self.branches, id),
            self.branches,
            n,
            |j: int| !descends(self.branches, id, j),
            |b: BranchView| b,
        );
        if carries(self.branches, id) {
            let k = position(self.branches, id);
            lemma_surviving(self.branches, k, n);
            lemma_drawn_order(
                surviving(self.branches, k, n),
                self.branches,
                n,
                |j: int| j != k && !discarded(self.branches, k, j),
                |b: BranchView| rebased(b, self.branches[k].htl_id),
            );
        }
        if !carries(self.branches, id) {
            reveal(distinct_keys);
            assert forall|a: int| 0 <= a < self.branches.len() implies 0 <= position(
                self.branches,
                (#[trigger] self.branches[a]).htl_id,
            ) < self.branches.len() && position(self.branches, self.branches[a].htl_id) == a by {
                lemma_position(self.branches, self.branches[a].htl_id, a);
            }
        }
    }

    /// Pruning keeps a tree well formed.
    pub proof fn lemma_without_wf(self, root: TransactionId)
        requires
            self.wf(),
        ensures
            self.without(root).wf(),
    {
        let n = self.branches.len() as int;
        let id = self.canonical.ledger.id;
        lemma_kept(self.branches, root, n);
        lemma_drawn_all(
            pruned(self.branches, root),
            self.branches,
            n,
            |j: int| !descends(self.branches, root, j),
            |b: BranchView| b,
            |b: BranchView| b.history.ledger.id == id,
        );
    }

    /// Promotion keeps a tree well formed.
    pub proof fn lemma_promoting_wf(self, id: TransactionId)
        requires
            self.wf(),
        ensures
            self.promoting(id).wf(),
    {
        if carries(self.branches, id) {
            let k = position(self.branches, id);
            let n = self.branches.len() as int;
            let ledger = self.canonical.ledger.id;
            lemma_surviving(self.branches, k, n);
            lemma_drawn_all(
                surviving(self.branches, k, n),
                self.branches,
                n,
                |j: int| j != k && !discarded(self.branches, k, j),
                |b: BranchView| rebased(b, self.branches[k].htl_id),
                |b: BranchView| b.history.ledger.id == ledger,
            );
        }
    }
}

/// A forked, non-canonical history, keyed by the id of the transaction that
/// opened it.
pub struct Branch {
    htl_id: TransactionId,
    parent: Option<TransactionId>,
    history: OperationHistory,
}

impl View for Branch {
    type V = BranchView;

    closed spec fn view(&self) -> BranchView {
        BranchView { htl_id: self.htl_id, parent: self.parent, history: self.history@ }
    }
}

/// The canonical history of one ledger and its live branches.
pub struct LedgerTree {
    canonical: OperationHistory,
    branches: Vec<Branch>,
}

impl View for LedgerTree {
    type V = TreeView;

    closed spec fn view(&self) -> TreeView {
        TreeView {
            canonical: self.canonical@,
            branches: self.branches@.map_values(|b: Branch| b@),
        }
    }
}

/// Whether two optional keys are the same.
fn same_key(a: Option<TransactionId>, b: Option<TransactionId>) -> (same: bool)
    ensures
        same == (a == b),
{
    match (a, b) {
        (None, None) => true,
        (Some(x), Some(y)) => x == y,
        _ => false,
    }
}

/// Whether `id` is one of `ids`.
fn contains_id(ids: &Vec<u64>, id: u64) -> (found: bool)
    ensures
        found == ids@.contains(id),
{
    let mut i: usize = 0;
    while i < ids.len()
        invariant
            i <= ids.len(),
            forall|j: int| 0 <= j < i ==> ids@[j] != id,
        decreases ids.len() - i,
    {
        if ids[i] == id {
            return true;
        }
        i = i + 1;
    }
    false
}

impl LedgerTree {
    /// The tree of a ledger with no branches.
    pub fn new(canonical: OperationHistory) -> (tree: LedgerTree)
        ensures
            tree@ == TreeView::fresh(canonical@),
            tree@.wf(),
    {
        let tree = LedgerTree { canonical, branches: Vec::new() };
        proof {
            reveal(distinct_keys);
            reveal(parents_precede);
            assert(tree@.branches =~= Seq::empty());
        }
        tree
    }

    /// The canonical history.
    pub fn canonical(&self) -> (history: &OperationHistory)
        ensures
            history@ == self@.canonical,
    {
        &self.canonical
    }

    /// The number of live branches.
    pub fn branch_count(&self) -> (n: usize)
        ensures
            n == self@.branches.len(),
    {
        self.branches.len()
    }

    /// Where the branch keyed by `id` stands, if the tree carries one.
    pub fn find(&self, id: TransactionId) -> (at: Option<usize>)
        requires
            self@.wf(),
        ensures
            at is Some <==> carries(self@.branches, id),
            at is Some ==> at->0 == position(self@.branches, id),
    {
        let mut i: usize = 0;
        while i < self.branches.len()
            invariant
                self@.wf(),
                i <= self.branches.len(),
                forall|j: int| 0 <= j < i ==> (#[trigger] self@.branches[j]).htl_id != id,
            decreases self.branches.len() - i,
        {
            if self.branches[i].htl_id == id {
                proof {
                    assert(self@.branches[i as int].htl_id == id);
                    lemma_position(self@.branches, id, i as int);
                }
                return Some(i);
            }
            i = i + 1;
        }
        None
    }

    /// The history that `base` names: the canonical one for `None`, else that of
    /// the branch keyed by it.
    pub fn history_at(&self, base: Option<TransactionId>) -> (history: Option<&OperationHistory>)
        requires
            self@.wf(),
        ensures
            history is Some <==> self@.history_at(base) is Some,
            history is Some ==> history->0@ == self@.history_at(base)->0,
    {
        match base {
            None => Some(&self.canonical),
            Some(id) => match self.find(id) {
                None => None,
                Some(i) => {
                    assert(self@.branches[i as int] == self.branches@[i as int]@);
                    Some(&self.branches[i].history)
                },
            },
        }
    }

    /// Replaces the canonical history by another history of the same ledger. A
    /// history of another ledger is refused and changes nothing.
    pub fn set_canonical(&mut self, history: OperationHistory) -> (done: bool)
        requires
            old(self)@.wf(),
        ensures
            done == (history@.ledger.id == old(self)@.canonical.ledger.id),
            final(self)@ == if done {
                old(self)@.with_canonical(history@)
            } else {
                old(self)@
            },
            final(self)@.wf(),
    {
        if history.ledger().id != self.canonical.ledger().id {
            return false;
        }
        self.canonical = history;
        true
    }

    /// Registers `history` as the branch keyed by `htl_id`, forked from `parent`.
    /// The branch is refused, and nothing changes, where the tree already carries
    /// a branch under that key, where it carries none under the parent's key, or
    /// where the history is of another ledger.
    pub fn open_branch(
        &mut self,
        htl_id: TransactionId,
        parent: Option<TransactionId>,
        history: OperationHistory,
    ) -> (done: bool)
        requires
            old(self)@.wf(),
        ensures
            done == old(self)@.admits(htl_id, parent, history@),
            final(self)@ == if done {
                old(self)@.with_branch(BranchView { htl_id, parent, history: history@ })
            } else {
                old(self)@
            },
            final(self)@.wf(),
    {
        if history.ledger().id != self.canonical.ledger().id {
            return false;
        }
        if self.find(htl_id).is_some() {
            return false;
        }
        match parent {
            Some(p) => {
                if self.find(p).is_none() {
                    return false;
                }
            },
            None => {},
        }
        let ghost before = self@.branches;
        let branch = Branch { htl_id, parent, history };
        self.branches.push(branch);
        proof {
            assert(self@.branches =~= before.push(branch@));
            lemma_forest_push(before, branch@);
        }
        true
    }

    /// Removes the branch keyed by `root` and every branch forked from it,
    /// directly or through other branches.
    pub fn prune(&mut self, root: TransactionId)
        requires
            old(self)@.wf(),
        ensures
            final(self)@ == old(self)@.without(root),
            final(self)@.wf(),
    {
        let ghost orig = self@.branches;
        let ghost canonical = self@.canonical;
        let mut gone: Vec<TransactionId> = Vec::new();
        let mut i: usize = 0;
        let ghost mut k: int = 0;
        proof {
            reveal(marked);
            assert(self@.branches =~= kept(orig, root, 0) + orig.skip(0));
        }
        while i < self.branches.len()
            invariant
                is_forest(orig),
                0 <= k <= orig.len(),
                i == kept(orig, root, k).len(),
                self@.canonical == canonical,
                self@.branches == kept(orig, root, k) + orig.skip(k),
                marked(orig, k, gone@, |j: int| descends(orig, root, j)),
            decreases orig.len() - k,
        {
            let ghost now = self@.branches;
            assert(now[i as int] == orig[k]);
            assert(self.branches@[i as int]@ == now[i as int]);
            let id = self.branches[i].htl_id;
            let parent = self.branches[i].parent;
            let off = id == root || match parent {
                Some(p) => contains_id(&gone, p),
                None => false,
            };
            proof {
                lemma_descends_decided(orig, root, k, gone@);
                lemma_marked_step(orig, k, gone@, |j: int| descends(orig, root, j));
            }
            assert(off == descends(orig, root, k));
            if off {
                let _ = self.branches.remove(i);
                gone.push(id);
                assert(self@.branches =~= now.remove(i as int));
                assert(kept(orig, root, k + 1) == kept(orig, root, k));
                assert(self@.branches =~= kept(orig, root, k + 1) + orig.skip(k + 1));
            } else {
                i = i + 1;
                assert(self@.branches =~= kept(orig, root, k + 1) + orig.skip(k + 1));
            }
            proof {
                k = k + 1;
            }
        }
        proof {
            assert(self@.branches =~= pruned(orig, root));
            old(self)@.lemma_without_wf(root);
        }
    }

    /// Makes the branch keyed by `id` the canonical history. The branches that
    /// were forked from the same base after it go, with all that was forked from
    /// them; the branches forked from the promoted one now hang from the canonical
    /// history. A tree that carries no such branch is left as it is.
    pub fn promote(&mut self, id: TransactionId) -> (done: bool)
        requires
            old(self)@.wf(),
        ensures
            done == carries(old(self)@.branches, id),
            final(self)@ == old(self)@.promoting(id),
            final(self)@.wf(),
    {
        let ghost orig = self@.branches;
        let ghost ledger_id = self@.canonical.ledger.id;
        match self.find(id) {
            None => false,
            Some(at) => {
                let ghost k = at as int;
                assert(self.branches@[k]@ == orig[k]);
                let branch = self.branches.remove(at);
                let base = branch.parent;
                self.canonical = branch.history;
                let mut gone: Vec<TransactionId> = Vec::new();
                let mut i: usize = at;
                let ghost mut n: int = k + 1;
                proof {
                    reveal(marked);
                    lemma_surviving_front(orig, k, k);
                    assert(surviving(orig, k, k + 1) == orig.take(k));
                    assert(self@.branches =~= orig.take(k) + orig.skip(k + 1));
                }
                while i < self.branches.len()
                    invariant
                        is_forest(orig),
                        0 <= k < n <= orig.len(),
                        i == surviving(orig, k, n).len(),
                        self@.canonical == orig[k].history,
                        self@.branches == surviving(orig, k, n) + orig.skip(n),
                        marked(orig, n, gone@, |j: int| discarded(orig, k, j)),
                        base == orig[k].parent,
                        id == orig[k].htl_id,
                    decreases orig.len() - n,
                {
                    let ghost now = self@.branches;
                    assert(now[i as int] == orig[n]);
                    assert(self.branches@[i as int]@ == now[i as int]);
                    let key = self.branches[i].htl_id;
                    let parent = self.branches[i].parent;
                    let off = same_key(parent, base) || match parent {
                        Some(p) => contains_id(&gone, p),
                        None => false,
                    };
                    proof {
                        lemma_discarded_decided(orig, k, n, gone@);
                        lemma_marked_step(orig, n, gone@, |j: int| discarded(orig, k, j));
                    }
                    assert(off == discarded(orig, k, n));
                    if off {
                        let _ = self.branches.remove(i);
                        gone.push(key);
                        assert(self@.branches =~= now.remove(i as int));
                        assert(surviving(orig, k, n + 1) == surviving(orig, k, n));
                        assert(self@.branches =~= surviving(orig, k, n + 1) + orig.skip(n + 1));
                    } else {
                        if same_key(parent, Some(id)) {
                            let mut moved = self.branches.remove(i);
                            moved.parent = None;
                            assert(moved@ == rebased(orig[n], id));
                            self.branches.insert(i, moved);
                            assert(self@.branches =~= now.update(i as int, rebased(orig[n], id)));
                        }
                        i = i + 1;
                        assert(self@.branches =~= surviving(orig, k, n + 1) + orig.skip(n + 1));
                    }
                    proof {
                        n = n + 1;
                    }
                }
                proof {
                    lemma_position(orig, id, k);
                    assert(self@.branches =~= surviving(orig, k, orig.len() as int));
                    old(self)@.lemma_promoting_wf(id);
                }
                true
            },
        }
    }
}

} // verus!
