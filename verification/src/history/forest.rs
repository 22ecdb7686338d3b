//! Branches as a forest: the branches of one ledger in the order in which they
//! were opened, each knowing the branch it was forked from, and what pruning and
//! promotion keep of them.
use vstd::prelude::*;
use crate::history::operation::HistoryView;
use crate::transactions::base::TransactionId;

verus! {

/// The mathematical content of a branch.
pub struct BranchView {
    /// The id of the transaction that opened the branch.
    pub htl_id: TransactionId,
    /// The branch this one was forked from; `None` where it was forked from the
    /// canonical history.
    pub parent: Option<TransactionId>,
    /// The forked history.
    pub history: HistoryView,
}

/// Whether one of `branches` is keyed by `id`.
pub open spec fn carries(branches: Seq<BranchView>, id: TransactionId) -> bool {
    exists|i: int| 0 <= i < branches.len() && #[trigger] branches[i].htl_id == id
}

/// Where the branch keyed by `id` stands in `branches`.
pub open spec fn position(branches: Seq<BranchView>, id: TransactionId) -> int {
    choose|i: int| 0 <= i < branches.len() && #[trigger] branches[i].htl_id == id
}

/// No two branches share a key.
#[verifier::opaque]
pub open spec fn distinct_keys(branches: Seq<BranchView>) -> bool {
    forall|i: int, j: int|
        0 <= i < j < branches.len() ==> #[trigger] branches[i].htl_id
            != #[trigger] branches[j].htl_id
}

/// Every branch that was forked from another stands after that other one.
#[verifier::opaque]
pub open spec fn parents_precede(branches: Seq<BranchView>) -> bool {
    forall|i: int|
        0 <= i < branches.len() && (#[trigger] branches[i]).parent is Some ==> carries(
            branches.take(i),
            branches[i].parent->0,
        )
}

/// The branches form a forest in arrival order: keys are unique and each parent
/// arrived before its children.
pub open spec fn is_forest(branches: Seq<BranchView>) -> bool {
    distinct_keys(branches) && parents_precede(branches)
}

/// Whether the `i`-th branch is the one keyed by `root` or was forked, directly or
/// through other branches, from it.
pub open spec fn descends(branches: Seq<BranchView>, root: TransactionId, i: int) -> bool
    decreases i,
{
    if 0 <= i < branches.len() {
        branches[i].htl_id == root || match branches[i].parent {
            Some(p) => {
                let j = position(branches, p);
                0 <= j < i && descends(branches, root, j)
            },
            None => false,
        }
    } else {
        false
    }
}

/// Of the first `n` branches, those outside the subtree of `root`, in their order.
pub open spec fn kept(branches: Seq<BranchView>, root: TransactionId, n: int) -> Seq<BranchView>
    decreases n,
{
    if n <= 0 {
        Seq::empty()
    } else if descends(branches, root, n - 1) {
        kept(branches, root, n - 1)
    } else {
        kept(branches, root, n - 1).push(branches[n - 1])
    }
}

/// The branches without the subtree of `root`.
pub open spec fn pruned(branches: Seq<BranchView>, root: TransactionId) -> Seq<BranchView> {
    kept(branches, root, branches.len() as int)
}

/// Whether the `i`-th branch goes when the `k`-th is promoted: it arrived after the
/// `k`-th and was forked from the same base, or it was forked from one that goes.
pub open spec fn discarded(branches: Seq<BranchView>, k: int, i: int) -> bool
    decreases i,
{
    if 0 <= k < i < branches.len() {
        branches[i].parent == branches[k].parent || match branches[i].parent {
            Some(p) => {
                let j = position(branches, p);
                k < j < i && discarded(branches, k, j)
            },
            None => false,
        }
    } else {
        false
    }
}

/// A branch forked from `from` hangs from the canonical history once `from` has
/// become canonical.
pub open spec fn rebased(branch: BranchView, from: TransactionId) -> BranchView {
    if branch.parent == Some(from) {
        BranchView { parent: None, ..branch }
    } else {
        branch
    }
}

/// Of the first `n` branches, those that stay when the `k`-th is promoted, in their
/// order, the children of the `k`-th rebased.
pub open spec fn surviving(branches: Seq<BranchView>, k: int, n: int) -> Seq<BranchView>
    decreases n,
{
    if n <= 0 {
        Seq::empty()
    } else if n - 1 == k || discarded(branches, k, n - 1) {
        surviving(branches, k, n - 1)
    } else {
        surviving(branches, k, n - 1).push(rebased(branches[n - 1], branches[k].htl_id))
    }
}

/// The branch keyed by `id`, once found at `i`, is where [`position`] says.
pub proof fn lemma_position(branches: Seq<BranchView>, id: TransactionId, i: int)
    requires
        distinct_keys(branches),
        0 <= i < branches.len(),
        branches[i].htl_id == id,
    ensures
        carries(branches, id),
        position(branches, id) == i,
{
    reveal(distinct_keys);
    let j = position(branches, id);
    assert(0 <= j < branches.len() && branches[j].htl_id == id);
    if j < i {
        assert(branches[j].htl_id != branches[i].htl_id);
    } else if i < j {
        assert(branches[i].htl_id != branches[j].htl_id);
    }
}

/// In a forest the parent of the `i`-th branch stands before it.
pub proof fn lemma_parent_position(branches: Seq<BranchView>, i: int)
    requires
        is_forest(branches),
        0 <= i < branches.len(),
        branches[i].parent is Some,
    ensures
        0 <= position(branches, branches[i].parent->0) < i,
        branches[position(branches, branches[i].parent->0)].htl_id == branches[i].parent->0,
{
    reveal(parents_precede);
    let p = branches[i].parent->0;
    let front = branches.take(i);
    assert(carries(front, p));
    let j = choose|j: int| 0 <= j < front.len() && #[trigger] front[j].htl_id == p;
    assert(front[j] == branches[j]);
    lemma_position(branches, p, j);
}

/// A forest stays one when a branch with a new key is put after it whose parent,
/// if it has one, is in it.
pub proof fn lemma_forest_push(branches: Seq<BranchView>, branch: BranchView)
    requires
        is_forest(branches),
        !carries(branches, branch.htl_id),
        branch.parent is Some ==> carries(branches, branch.parent->0),
    ensures
        is_forest(branches.push(branch)),
{
    reveal(distinct_keys);
    reveal(parents_precede);
    let now = branches.push(branch);
    assert forall|i: int| 0 <= i < now.len() && (#[trigger] now[i]).parent is Some implies carries(
        now.take(i),
        now[i].parent->0,
    ) by {
        if i < branches.len() {
            assert(now[i] == branches[i]);
            assert(now.take(i) =~= branches.take(i));
        } else {
            assert(now.take(i) =~= branches);
        }
    }
    assert forall|i: int, j: int| 0 <= i < j < now.len() implies #[trigger] now[i].htl_id
        != #[trigger] now[j].htl_id by {
        assert(now[i] == branches[i]);
        if j < branches.len() {
            assert(now[j] == branches[j]);
        }
    }
}

/// `branch` is one of the first `n` of `branches` that `stays` selects, as `shown`
/// presents it.
pub open spec fn drawn_one(
    branch: BranchView,
    branches: Seq<BranchView>,
    n: int,
    stays: spec_fn(int) -> bool,
    shown: spec_fn(BranchView) -> BranchView,
) -> bool {
    exists|j: int| 0 <= j < n && stays(j) && shown(#[trigger] branches[j]) == branch
}

/// `now` is drawn from the first `n` of `branches`: each of its members is one of
/// those that `stays` selects, as `shown` presents it, each of those has its key
/// in `now`, and the members of `now` stand in the order in which they stood in
/// `branches`.
#[verifier::opaque]
pub open spec fn drawn(
    now: Seq<BranchView>,
    branches: Seq<BranchView>,
    n: int,
    stays: spec_fn(int) -> bool,
    shown: spec_fn(BranchView) -> BranchView,
) -> bool {
    &&& forall|a: int|
        0 <= a < now.len() ==> drawn_one(#[trigger] now[a], branches, n, stays, shown)
    &&& forall|j: int| 0 <= j < n && stays(j) ==> carries(now, (#[trigger] branches[j]).htl_id)
    &&& forall|a: int, b: int|
        0 <= a < b < now.len() ==> position(branches, (#[trigger] now[a]).htl_id) < position(
            branches,
            (#[trigger] now[b]).htl_id,
        )
}

/// Nothing is drawn from no branches.
pub proof fn lemma_drawn_empty(
    branches: Seq<BranchView>,
    stays: spec_fn(int) -> bool,
    shown: spec_fn(BranchView) -> BranchView,
)
    ensures
        drawn(Seq::empty(), branches, 0, stays, shown),
{
    reveal(drawn);
}

/// A branch that does not stay leaves what is drawn as it was.
pub proof fn lemma_drawn_skip(
    now: Seq<BranchView>,
    branches: Seq<BranchView>,
    n: int,
    stays: spec_fn(int) -> bool,
    shown: spec_fn(BranchView) -> BranchView,
)
    requires
        0 <= n < branches.len(),
        drawn(now, branches, n, stays, shown),
        !stays(n),
    ensures
        drawn(now, branches, n + 1, stays, shown),
{
    reveal(drawn);
    assert forall|a: int| 0 <= a < now.len() implies drawn_one(
        #[trigger] now[a],
        branches,
        n + 1,
        stays,
        shown,
    ) by {
        assert(drawn_one(now[a], branches, n, stays, shown));
        let j = choose|j: int| 0 <= j < n && stays(j) && shown(#[trigger] branches[j]) == now[a];
        assert(0 <= j < n + 1 && stays(j) && shown(branches[j]) == now[a]);
    }
}

/// A branch that stays is put after what was drawn; the result is a forest if what
/// was drawn was one and the branch's parent, as shown, stays too.
pub proof fn lemma_drawn_push(
    now: Seq<BranchView>,
    branches: Seq<BranchView>,
    n: int,
    stays: spec_fn(int) -> bool,
    shown: spec_fn(BranchView) -> BranchView,
)
    requires
        is_forest(branches),
        is_forest(now),
        0 <= n < branches.len(),
        drawn(now, branches, n, stays, shown),
        stays(n),
        forall|b: BranchView| (#[trigger] shown(b)).htl_id == b.htl_id,
        shown(branches[n]).parent is Some ==> shown(branches[n]).parent == branches[n].parent
            && stays(position(branches, branches[n].parent->0)),
    ensures
        drawn(now.push(shown(branches[n])), branches, n + 1, stays, shown),
        is_forest(now.push(shown(branches[n]))),
{
    reveal(drawn);
    let last = shown(branches[n]);
    let next = now.push(last);
    assert forall|a: int| 0 <= a < next.len() implies drawn_one(
        #[trigger] next[a],
        branches,
        n + 1,
        stays,
        shown,
    ) by {
        if a < now.len() {
            assert(drawn_one(now[a], branches, n, stays, shown));
            let j = choose|j: int| 0 <= j < n && stays(j) && shown(#[trigger] branches[j]) == now[a];
            assert(0 <= j < n + 1 && stays(j) && shown(branches[j]) == next[a]);
        } else {
            assert(0 <= n < n + 1 && stays(n) && shown(branches[n]) == next[a]);
        }
    }
    assert forall|j: int| 0 <= j < n + 1 && stays(j) implies carries(
        next,
        (#[trigger] branches[j]).htl_id,
    ) by {
        if j < n {
            assert(carries(now, branches[j].htl_id));
            let a = choose|a: int| 0 <= a < now.len() && #[trigger] now[a].htl_id == branches[j].htl_id;
            assert(next[a].htl_id == branches[j].htl_id);
        } else {
            assert(next[now.len() as int].htl_id == branches[j].htl_id);
        }
    }
    assert forall|a: int, b: int| 0 <= a < b < next.len() implies position(
        branches,
        (#[trigger] next[a]).htl_id,
    ) < position(branches, (#[trigger] next[b]).htl_id) by {
        if b < now.len() {
            assert(next[a] == now[a] && next[b] == now[b]);
        } else {
            assert(next[a] == now[a]);
            assert(drawn_one(now[a], branches, n, stays, shown));
            let j = choose|j: int| 0 <= j < n && stays(j) && shown(#[trigger] branches[j]) == now[a];
            assert(shown(branches[j]).htl_id == branches[j].htl_id);
            assert(shown(branches[n]).htl_id == branches[n].htl_id);
            lemma_position(branches, branches[j].htl_id, j);
            lemma_position(branches, branches[n].htl_id, n);
        }
    }
    assert(!carries(now, last.htl_id)) by {
        if carries(now, last.htl_id) {
            let a = choose|a: int| 0 <= a < now.len() && #[trigger] now[a].htl_id == last.htl_id;
            assert(drawn_one(now[a], branches, n, stays, shown));
            let j = choose|j: int| 0 <= j < n && stays(j) && shown(#[trigger] branches[j]) == now[a];
            assert(branches[j].htl_id == branches[n].htl_id);
            lemma_position(branches, branches[n].htl_id, j);
            lemma_position(branches, branches[n].htl_id, n);
        }
    }
    if last.parent is Some {
        lemma_parent_position(branches, n);
        let j = position(branches, branches[n].parent->0);
        assert(carries(now, branches[j].htl_id));
    }
    lemma_forest_push(now, last);
}

/// Each member of `now` has its key among `branches`, and two members of `now`
/// stand as the branches with their keys stand in `branches`.
pub open spec fn stands_as(now: Seq<BranchView>, branches: Seq<BranchView>) -> bool {
    &&& forall|a: int|
        0 <= a < now.len() ==> 0 <= position(branches, (#[trigger] now[a]).htl_id) < branches.len()
            && branches[position(branches, now[a].htl_id)].htl_id == now[a].htl_id
    &&& forall|a: int, b: int|
        0 <= a < b < now.len() ==> position(branches, (#[trigger] now[a]).htl_id) < position(
            branches,
            (#[trigger] now[b]).htl_id,
        )
}

/// What is drawn from a list of branches has each of its keys there, and two of
/// its members stand as they stood there.
pub proof fn lemma_drawn_order(
    now: Seq<BranchView>,
    branches: Seq<BranchView>,
    n: int,
    stays: spec_fn(int) -> bool,
    shown: spec_fn(BranchView) -> BranchView,
)
    requires
        0 <= n <= branches.len(),
        distinct_keys(branches),
        drawn(now, branches, n, stays, shown),
        forall|b: BranchView| (#[trigger] shown(b)).htl_id == b.htl_id,
    ensures
        forall|a: int|
            0 <= a < now.len() ==> carries(branches, (#[trigger] now[a]).htl_id) && 0 <= position(
                branches,
                now[a].htl_id,
            ) < branches.len() && branches[position(branches, now[a].htl_id)].htl_id
                == now[a].htl_id,
        forall|a: int, b: int|
            0 <= a < b < now.len() ==> position(branches, (#[trigger] now[a]).htl_id) < position(
                branches,
                (#[trigger] now[b]).htl_id,
            ),
{
    reveal(drawn);
    assert forall|a: int| 0 <= a < now.len() implies carries(branches, (#[trigger] now[a]).htl_id)
        && 0 <= position(branches, now[a].htl_id) < branches.len() && branches[position(
        branches,
        now[a].htl_id,
    )].htl_id == now[a].htl_id by {
        assert(drawn_one(now[a], branches, n, stays, shown));
        let j = choose|j: int| 0 <= j < n && stays(j) && shown(#[trigger] branches[j]) == now[a];
        assert(shown(branches[j]).htl_id == branches[j].htl_id);
        lemma_position(branches, branches[j].htl_id, j);
    }
}

/// What is drawn keeps a property that all branches have and that showing keeps.
pub proof fn lemma_drawn_all(
    now: Seq<BranchView>,
    branches: Seq<BranchView>,
    n: int,
    stays: spec_fn(int) -> bool,
    shown: spec_fn(BranchView) -> BranchView,
    holds: spec_fn(BranchView) -> bool,
)
    requires
        0 <= n <= branches.len(),
        drawn(now, branches, n, stays, shown),
        forall|j: int| 0 <= j < branches.len() ==> holds(#[trigger] branches[j]),
        forall|b: BranchView| holds(b) ==> holds(#[trigger] shown(b)),
    ensures
        forall|a: int| 0 <= a < now.len() ==> holds(#[trigger] now[a]),
{
    reveal(drawn);
    assert forall|a: int| 0 <= a < now.len() implies holds(#[trigger] now[a]) by {
        assert(drawn_one(now[a], branches, n, stays, shown));
        let j = choose|j: int| 0 <= j < n && stays(j) && shown(#[trigger] branches[j]) == now[a];
        assert(holds(branches[j]));
    }
}

/// What [`kept`] holds is drawn from the branches outside the subtree, unchanged,
/// and is a forest.
pub proof fn lemma_kept(branches: Seq<BranchView>, root: TransactionId, n: int)
    requires
        is_forest(branches),
        0 <= n <= branches.len(),
    ensures
        kept(branches, root, n).len() <= n,
        is_forest(kept(branches, root, n)),
        drawn(
            kept(branches, root, n),
            branches,
            n,
            |j: int| !descends(branches, root, j),
            |b: BranchView| b,
        ),
    decreases n,
{
    let stays = |j: int| !descends(branches, root, j);
    let shown = |b: BranchView| b;
    if n <= 0 {
        lemma_drawn_empty(branches, stays, shown);
        assert(is_forest(Seq::<BranchView>::empty())) by {
            reveal(distinct_keys);
            reveal(parents_precede);
        }
    } else {
        lemma_kept(branches, root, n - 1);
        let before = kept(branches, root, n - 1);
        if descends(branches, root, n - 1) {
            lemma_drawn_skip(before, branches, n - 1, stays, shown);
        } else {
            if branches[n - 1].parent is Some {
                lemma_parent_position(branches, n - 1);
            }
            lemma_drawn_push(before, branches, n - 1, stays, shown);
        }
    }
}

/// Before the promoted branch nothing is discarded and nothing is rebased.
pub proof fn lemma_surviving_front(branches: Seq<BranchView>, k: int, n: int)
    requires
        is_forest(branches),
        0 <= n <= k < branches.len(),
    ensures
        surviving(branches, k, n) == branches.take(n),
    decreases n,
{
    if n > 0 {
        lemma_surviving_front(branches, k, n - 1);
        let b = branches[n - 1];
        if b.parent is Some {
            lemma_parent_position(branches, n - 1);
            let j = position(branches, b.parent->0);
            if branches[j].htl_id == branches[k].htl_id {
                lemma_position(branches, branches[k].htl_id, k);
            }
        }
        assert(rebased(b, branches[k].htl_id) == b);
        assert(branches.take(n) =~= branches.take(n - 1).push(b));
    } else {
        assert(branches.take(0) =~= Seq::<BranchView>::empty());
    }
}

/// What [`surviving`] holds is drawn from the branches that are neither promoted
/// nor discarded, each rebased, and is a forest.
pub proof fn lemma_surviving(branches: Seq<BranchView>, k: int, n: int)
    requires
        is_forest(branches),
        0 <= k < branches.len(),
        0 <= n <= branches.len(),
    ensures
        surviving(branches, k, n).len() <= n,
        is_forest(surviving(branches, k, n)),
        drawn(
            surviving(branches, k, n),
            branches,
            n,
            |j: int| j != k && !discarded(branches, k, j),
            |b: BranchView| rebased(b, branches[k].htl_id),
        ),
    decreases n,
{
    let stays = |j: int| j != k && !discarded(branches, k, j);
    let shown = |b: BranchView| rebased(b, branches[k].htl_id);
    if n <= 0 {
        lemma_drawn_empty(branches, stays, shown);
        assert(is_forest(Seq::<BranchView>::empty())) by {
            reveal(distinct_keys);
            reveal(parents_precede);
        }
    } else {
        lemma_surviving(branches, k, n - 1);
        let before = surviving(branches, k, n - 1);
        if n - 1 == k || discarded(branches, k, n - 1) {
            lemma_drawn_skip(before, branches, n - 1, stays, shown);
        } else {
            let b = branches[n - 1];
            if shown(b).parent is Some {
                lemma_parent_position(branches, n - 1);
                let j = position(branches, b.parent->0);
                assert(j != k);
                if discarded(branches, k, j) {
                    assert(discarded(branches, k, n - 1));
                }
            }
            lemma_drawn_push(before, branches, n - 1, stays, shown);
        }
    }
}

/// A branch in the subtree of `root` has the branch keyed by `root` at or before it.
pub proof fn lemma_descends_from_root(branches: Seq<BranchView>, root: TransactionId, i: int)
    requires
        descends(branches, root, i),
    ensures
        carries(branches.take(i + 1), root),
        carries(branches, root),
    decreases i,
{
    let front = branches.take(i + 1);
    if branches[i].htl_id != root {
        let j = position(branches, branches[i].parent->0);
        lemma_descends_from_root(branches, root, j);
        let inner = branches.take(j + 1);
        let a = choose|a: int| 0 <= a < inner.len() && #[trigger] inner[a].htl_id == root;
        assert(front[a].htl_id == root);
        assert(branches[a].htl_id == root);
    } else {
        assert(front[i].htl_id == root);
    }
}

/// A branch that was just put after a forest goes again when it is pruned, and
/// nothing else does.
pub proof fn lemma_pruned_last(branches: Seq<BranchView>, branch: BranchView)
    requires
        !carries(branches, branch.htl_id),
    ensures
        pruned(branches.push(branch), branch.htl_id) == branches,
{
    let root = branch.htl_id;
    let now = branches.push(branch);
    let n = branches.len() as int;
    lemma_kept_front(now, root, n);
    assert(now.take(n) =~= branches);
    assert(descends(now, root, n));
}

/// Of the branches before the first one keyed by `root`, pruning keeps all.
pub proof fn lemma_kept_front(branches: Seq<BranchView>, root: TransactionId, n: int)
    requires
        0 <= n <= branches.len(),
        !carries(branches.take(n), root),
    ensures
        kept(branches, root, n) == branches.take(n),
    decreases n,
{
    if n > 0 {
        let front = branches.take(n);
        assert(!carries(branches.take(n - 1), root)) by {
            if carries(branches.take(n - 1), root) {
                let inner = branches.take(n - 1);
                let a = choose|a: int| 0 <= a < inner.len() && #[trigger] inner[a].htl_id == root;
                assert(front[a].htl_id == root);
            }
        }
        lemma_kept_front(branches, root, n - 1);
        if descends(branches, root, n - 1) {
            lemma_descends_from_root(branches, root, n - 1);
        }
        assert(branches.take(n) =~= branches.take(n - 1).push(branches[n - 1]));
    } else {
        assert(branches.take(0) =~= Seq::<BranchView>::empty());
    }
}

/// Two branches were forked from the canonical history, one after the other, and
/// put after a forest. When the first is promoted, the second goes, and the
/// forest is as it was before the two.
pub proof fn lemma_promoted_first(branches: Seq<BranchView>, first: BranchView, second: BranchView)
    requires
        is_forest(branches),
        !carries(branches, first.htl_id),
        !carries(branches, second.htl_id),
        first.htl_id != second.htl_id,
        first.parent is None,
        second.parent is None,
    ensures
        is_forest(branches.push(first).push(second)),
        carries(branches.push(first).push(second), first.htl_id),
        position(branches.push(first).push(second), first.htl_id) == branches.len(),
        surviving(
            branches.push(first).push(second),
            branches.len() as int,
            (branches.len() + 2) as int,
        ) == branches,
{
    let one = branches.push(first);
    let two = one.push(second);
    let k = branches.len() as int;
    lemma_forest_push(branches, first);
    assert(!carries(one, second.htl_id)) by {
        if carries(one, second.htl_id) {
            let a = choose|a: int| 0 <= a < one.len() && #[trigger] one[a].htl_id == second.htl_id;
            if a < k {
                assert(branches[a].htl_id == second.htl_id);
            }
        }
    }
    lemma_forest_push(one, second);
    assert(two[k].htl_id == first.htl_id);
    lemma_position(two, first.htl_id, k);
    lemma_surviving_front(two, k, k);
    assert(two.take(k) =~= branches);
    assert(discarded(two, k, k + 1));
    assert(surviving(two, k, k + 1) == surviving(two, k, k));
}

/// Pruning a subtree whose root is not there removes nothing.
pub proof fn lemma_pruned_absent(branches: Seq<BranchView>, root: TransactionId, n: int)
    requires
        !carries(branches, root),
        0 <= n <= branches.len(),
    ensures
        kept(branches, root, n) == branches.take(n),
    decreases n,
{
    if n > 0 {
        lemma_pruned_absent(branches, root, n - 1);
        if descends(branches, root, n - 1) {
            lemma_descends_from_root(branches, root, n - 1);
        }
        assert(branches.take(n) =~= branches.take(n - 1).push(branches[n - 1]));
    } else {
        assert(branches.take(0) =~= Seq::<BranchView>::empty());
    }
}

/// After pruning, no branch is keyed by the root.
pub proof fn lemma_pruned_removes(branches: Seq<BranchView>, root: TransactionId)
    requires
        is_forest(branches),
    ensures
        !carries(pruned(branches, root), root),
{
    let n = branches.len() as int;
    let now = pruned(branches, root);
    let stays = |j: int| !descends(branches, root, j);
    let shown = |b: BranchView| b;
    lemma_kept(branches, root, n);
    reveal(drawn);
    if carries(now, root) {
        let a = choose|a: int| 0 <= a < now.len() && #[trigger] now[a].htl_id == root;
        assert(drawn_one(now[a], branches, n, stays, shown));
        let j = choose|j: int| 0 <= j < n && stays(j) && shown(#[trigger] branches[j]) == now[a];
        assert(descends(branches, root, j));
    }
}

/// After a promotion, no branch is keyed by the promoted one's key.
pub proof fn lemma_surviving_removes(branches: Seq<BranchView>, k: int)
    requires
        is_forest(branches),
        0 <= k < branches.len(),
    ensures
        !carries(surviving(branches, k, branches.len() as int), branches[k].htl_id),
{
    let n = branches.len() as int;
    let id = branches[k].htl_id;
    let now = surviving(branches, k, n);
    let stays = |j: int| j != k && !discarded(branches, k, j);
    let shown = |b: BranchView| rebased(b, branches[k].htl_id);
    lemma_surviving(branches, k, n);
    reveal(drawn);
    if carries(now, id) {
        let a = choose|a: int| 0 <= a < now.len() && #[trigger] now[a].htl_id == id;
        assert(drawn_one(now[a], branches, n, stays, shown));
        let j = choose|j: int| 0 <= j < n && stays(j) && shown(#[trigger] branches[j]) == now[a];
        lemma_position(branches, id, j);
        lemma_position(branches, id, k);
    }
}

/// What was forked, directly or through other branches, from a branch that goes
/// at a promotion goes with it.
pub proof fn lemma_discarded_subtree(branches: Seq<BranchView>, k: int, j: int, i: int)
    requires
        is_forest(branches),
        discarded(branches, k, j),
        descends(branches, branches[j].htl_id, i),
    ensures
        discarded(branches, k, i),
    decreases i,
{
    if branches[i].htl_id == branches[j].htl_id {
        lemma_position(branches, branches[j].htl_id, i);
        lemma_position(branches, branches[j].htl_id, j);
    } else {
        lemma_parent_position(branches, i);
        let q = position(branches, branches[i].parent->0);
        lemma_discarded_subtree(branches, k, j, q);
    }
}

/// A branch in the subtree of the root has no branch under its key after pruning.
pub proof fn lemma_pruned_removes_subtree(branches: Seq<BranchView>, root: TransactionId, i: int)
    requires
        is_forest(branches),
        descends(branches, root, i),
    ensures
        !carries(pruned(branches, root), branches[i].htl_id),
{
    let n = branches.len() as int;
    let now = pruned(branches, root);
    let stays = |j: int| !descends(branches, root, j);
    let shown = |b: BranchView| b;
    lemma_kept(branches, root, n);
    reveal(drawn);
    if carries(now, branches[i].htl_id) {
        let a = choose|a: int| 0 <= a < now.len() && #[trigger] now[a].htl_id == branches[i].htl_id;
        assert(drawn_one(now[a], branches, n, stays, shown));
        let j = choose|j: int| 0 <= j < n && stays(j) && shown(#[trigger] branches[j]) == now[a];
        lemma_position(branches, branches[i].htl_id, j);
        lemma_position(branches, branches[i].htl_id, i);
    }
}

/// A branch that goes at a promotion has no branch under its key afterwards.
pub proof fn lemma_surviving_removes_discarded(branches: Seq<BranchView>, k: int, i: int)
    requires
        is_forest(branches),
        0 <= k < branches.len(),
        discarded(branches, k, i),
    ensures
        !carries(surviving(branches, k, branches.len() as int), branches[i].htl_id),
{
    let n = branches.len() as int;
    let now = surviving(branches, k, n);
    let stays = |j: int| j != k && !discarded(branches, k, j);
    let shown = |b: BranchView| rebased(b, branches[k].htl_id);
    lemma_surviving(branches, k, n);
    reveal(drawn);
    if carries(now, branches[i].htl_id) {
        let a = choose|a: int| 0 <= a < now.len() && #[trigger] now[a].htl_id == branches[i].htl_id;
        assert(drawn_one(now[a], branches, n, stays, shown));
        let j = choose|j: int| 0 <= j < n && stays(j) && shown(#[trigger] branches[j]) == now[a];
        lemma_position(branches, branches[i].htl_id, j);
        lemma_position(branches, branches[i].htl_id, i);
    }
}

/// `gone` holds the keys of exactly those of the first `k` branches that `goes`
/// selects.
#[verifier::opaque]
pub open spec fn marked(
    branches: Seq<BranchView>,
    k: int,
    gone: Seq<TransactionId>,
    goes: spec_fn(int) -> bool,
) -> bool {
    &&& forall|j: int| 0 <= j < k ==> (goes(j) <==> gone.contains((#[trigger] branches[j]).htl_id))
    &&& forall|x: TransactionId| gone.contains(x) ==> carries(branches.take(k), x)
}

/// One more branch examined: its key joins `gone` exactly if `goes` selects it.
pub proof fn lemma_marked_step(
    branches: Seq<BranchView>,
    k: int,
    gone: Seq<TransactionId>,
    goes: spec_fn(int) -> bool,
)
    requires
        distinct_keys(branches),
        0 <= k < branches.len(),
        marked(branches, k, gone, goes),
    ensures
        !gone.contains(branches[k].htl_id),
        marked(
            branches,
            k + 1,
            if goes(k) {
                gone.push(branches[k].htl_id)
            } else {
                gone
            },
            goes,
        ),
{
    reveal(marked);
    reveal(distinct_keys);
    let id = branches[k].htl_id;
    let front = branches.take(k);
    let next = branches.take(k + 1);
    let after = if goes(k) {
        gone.push(id)
    } else {
        gone
    };
    if gone.contains(id) {
        let j = choose|j: int| 0 <= j < front.len() && #[trigger] front[j].htl_id == id;
        assert(front[j] == branches[j]);
        assert(branches[j].htl_id != branches[k].htl_id);
    }
    assert forall|j: int| 0 <= j < k + 1 implies (goes(j) <==> after.contains(
        (#[trigger] branches[j]).htl_id,
    )) by {
        if j < k {
            assert(branches[j].htl_id != branches[k].htl_id);
            if goes(k) {
                if gone.contains(branches[j].htl_id) {
                    let a = choose|a: int| 0 <= a < gone.len() && gone[a] == branches[j].htl_id;
                    assert(after[a] == branches[j].htl_id);
                }
                if after.contains(branches[j].htl_id) {
                    let a = choose|a: int| 0 <= a < after.len() && after[a] == branches[j].htl_id;
                    assert(a < gone.len());
                    assert(gone[a] == branches[j].htl_id);
                }
            }
        } else {
            if goes(k) {
                assert(after[gone.len() as int] == id);
            }
        }
    }
    assert forall|x: TransactionId| after.contains(x) implies carries(next, x) by {
        if gone.contains(x) {
            let j = choose|j: int| 0 <= j < front.len() && #[trigger] front[j].htl_id == x;
            assert(next[j].htl_id == x);
        } else {
            let a = choose|a: int| 0 <= a < after.len() && after[a] == x;
            if a < gone.len() {
                assert(gone[a] == x);
            }
            assert(x == id);
            assert(next[k].htl_id == x);
        }
    }
}

/// With the keys of the subtree's branches so far in `gone`, the next branch is in
/// the subtree exactly if it is the root or its parent's key is in `gone`.
pub proof fn lemma_descends_decided(
    branches: Seq<BranchView>,
    root: TransactionId,
    k: int,
    gone: Seq<TransactionId>,
)
    requires
        is_forest(branches),
        0 <= k < branches.len(),
        marked(branches, k, gone, |j: int| descends(branches, root, j)),
    ensures
        descends(branches, root, k) == (branches[k].htl_id == root || (branches[k].parent is Some
            && gone.contains(branches[k].parent->0))),
{
    reveal(marked);
    if branches[k].parent is Some {
        lemma_parent_position(branches, k);
        let p = branches[k].parent->0;
        let j = position(branches, p);
        if gone.contains(p) {
            let front = branches.take(k);
            let a = choose|a: int| 0 <= a < front.len() && #[trigger] front[a].htl_id == p;
            assert(front[a] == branches[a]);
            lemma_position(branches, p, a);
        }
    }
}

/// With the keys of the branches discarded so far in `gone`, the next branch after
/// the promoted one is discarded exactly if it shares the promoted one's parent or
/// its own parent's key is in `gone`.
pub proof fn lemma_discarded_decided(
    branches: Seq<BranchView>,
    k: int,
    n: int,
    gone: Seq<TransactionId>,
)
    requires
        is_forest(branches),
        0 <= k < n < branches.len(),
        marked(branches, n, gone, |j: int| discarded(branches, k, j)),
    ensures
        discarded(branches, k, n) == (branches[n].parent == branches[k].parent || (
        branches[n].parent is Some && gone.contains(branches[n].parent->0))),
{
    reveal(marked);
    if branches[n].parent is Some {
        lemma_parent_position(branches, n);
        let p = branches[n].parent->0;
        let j = position(branches, p);
        if gone.contains(p) {
            let front = branches.take(n);
            let a = choose|a: int| 0 <= a < front.len() && #[trigger] front[a].htl_id == p;
            assert(front[a] == branches[a]);
            lemma_position(branches, p, a);
        }
    }
}

} // verus!
