use multiledger::history::operation::OperationHistory;
use multiledger::history::state::{MultiLedgerState, TransactionEffect};
use multiledger::history::tree::LedgerTree;
use multiledger::ledger::Ledger;
use multiledger::operations::Operation;
use multiledger::transactions::Error;

fn state_with(ledgers: &[Ledger]) -> MultiLedgerState {
    let mut state = MultiLedgerState::new();
    for ledger in ledgers {
        assert!(state.add_ledger(*ledger));
    }
    state
}

fn branch_from(state: &MultiLedgerState, ledger: u64, base: Option<u64>, credit: u64) -> OperationHistory {
    let source = match base {
        None => state.get(ledger).unwrap(),
        Some(id) => state.get_branch(ledger, id).unwrap(),
    };
    source.fork_applying(&vec![Operation::credit(ledger, credit)]).unwrap()
}

#[test]
fn new_state_knows_no_ledger() {
    let state = MultiLedgerState::new();
    assert!(!state.has_history(1));
    assert!(state.get(1).is_none());
    assert!(state.has_all_histories(&vec![]));
    assert!(!state.has_all_histories(&vec![1]));
    assert!(state.effects().is_empty());
    assert_eq!(state.effect(1), None);
}

#[test]
fn add_ledger_registers_an_empty_history() {
    let mut state = MultiLedgerState::new();
    assert!(state.add_ledger(Ledger::new(3, 7, 5, 100)));
    assert!(state.has_history(3));
    let history = state.get(3).unwrap();
    assert_eq!(history.current_seq_no(), Some(5));
    assert_eq!(history.len(), 0);
    assert_eq!(*history.ledger(), Ledger::new(3, 7, 5, 100));
}

#[test]
fn add_ledger_replaces_a_registered_id() {
    let mut state = state_with(&[Ledger::new(3, 7, 5, 100), Ledger::new(4, 7, 1, 1)]);
    let mut advanced = state.get(3).unwrap().fork();
    assert_eq!(advanced.apply(Operation::credit(3, 1)), Ok(()));
    assert!(state.commit(3, advanced));
    let fork = branch_from(&state, 3, None, 5);
    assert!(state.open_branch(3, 100, None, fork));
    state.record(9, TransactionEffect::Applied);
    assert!(!state.add_ledger(Ledger::new(3, 8, 0, 2)));
    let history = state.get(3).unwrap();
    assert_eq!(history.current_seq_no(), Some(0));
    assert_eq!(history.len(), 0);
    assert_eq!(*history.ledger(), Ledger::new(3, 8, 0, 2));
    assert!(!state.has_branch(3, 100));
    assert_eq!(*state.get(4).unwrap().ledger(), Ledger::new(4, 7, 1, 1));
    assert_eq!(state.effect(9), Some(TransactionEffect::Applied));
}

#[test]
fn has_all_histories_needs_every_id() {
    let state = state_with(&[Ledger::new(1, 7, 0, 0), Ledger::new(2, 7, 0, 0)]);
    assert!(state.has_all_histories(&vec![1, 2, 1]));
    assert!(!state.has_all_histories(&vec![1, 3]));
    assert!(!state.has_all_histories(&vec![3]));
}

#[test]
fn commit_replaces_the_canonical_history() {
    let mut state = state_with(&[Ledger::new(1, 7, 0, 10), Ledger::new(2, 7, 0, 10)]);
    let next = branch_from(&state, 1, None, 5);
    state.commit(1, next);
    assert_eq!(state.get(1).unwrap().ledger().balance(), 15);
    assert_eq!(state.get(1).unwrap().current_seq_no(), Some(1));
    assert_eq!(state.get(2).unwrap().ledger().balance(), 10);
}

#[test]
fn open_branch_leaves_the_canonical_history() {
    let mut state = state_with(&[Ledger::new(1, 7, 0, 10)]);
    let fork = branch_from(&state, 1, None, 5);
    state.open_branch(1, 100, None, fork);
    assert!(state.has_branch(1, 100));
    assert!(!state.has_branch(1, 101));
    assert!(!state.has_branch(2, 100));
    assert_eq!(state.get_branch(1, 100).unwrap().ledger().balance(), 15);
    assert_eq!(state.get(1).unwrap().ledger().balance(), 10);
    assert_eq!(state.get(1).unwrap().len(), 0);
}

// canonical
//   100 -> 101 -> 103
//   102
//   104
fn forest() -> MultiLedgerState {
    let mut state = state_with(&[Ledger::new(1, 7, 0, 0), Ledger::new(2, 7, 0, 0)]);
    let b = branch_from(&state, 1, None, 100);
    state.open_branch(1, 100, None, b);
    let b = branch_from(&state, 1, Some(100), 1);
    state.open_branch(1, 101, Some(100), b);
    let b = branch_from(&state, 1, None, 102);
    state.open_branch(1, 102, None, b);
    let b = branch_from(&state, 1, Some(101), 3);
    state.open_branch(1, 103, Some(101), b);
    let b = branch_from(&state, 1, None, 104);
    state.open_branch(1, 104, None, b);
    state
}

fn live(state: &MultiLedgerState, ledger: u64) -> Vec<u64> {
    (100..110).filter(|id| state.has_branch(ledger, *id)).collect()
}

#[test]
fn branches_fork_from_branches() {
    let state = forest();
    assert_eq!(live(&state, 1), vec![100, 101, 102, 103, 104]);
    assert_eq!(state.get_branch(1, 103).unwrap().ledger().balance(), 104);
    assert_eq!(state.get_branch(1, 103).unwrap().len(), 3);
    assert_eq!(live(&state, 2), Vec::<u64>::new());
}

#[test]
fn prune_removes_the_whole_subtree() {
    let mut state = forest();
    assert!(state.prune(1, 100));
    assert_eq!(live(&state, 1), vec![102, 104]);
    assert_eq!(state.get(1).unwrap().len(), 0);
    assert!(state.get_branch(1, 103).is_none());
}

#[test]
fn prune_of_an_inner_branch_keeps_its_parent() {
    let mut state = forest();
    assert!(state.prune(1, 101));
    assert_eq!(live(&state, 1), vec![100, 102, 104]);
}

#[test]
fn prune_of_an_absent_branch_changes_nothing() {
    let mut state = forest();
    assert!(state.prune(1, 109));
    assert_eq!(live(&state, 1), vec![100, 101, 102, 103, 104]);
    assert!(state.prune(2, 100));
    assert!(!state.prune(3, 100));
}

#[test]
fn promote_discards_later_siblings_and_keeps_descendants() {
    let mut state = forest();
    assert!(state.promote(1, 100));
    assert_eq!(live(&state, 1), vec![101, 103]);
    assert_eq!(state.get(1).unwrap().ledger().balance(), 100);
    assert_eq!(state.get(1).unwrap().len(), 1);
    // 101 now hangs from the canonical history: promoting it discards nothing else
    assert!(state.promote(1, 101));
    assert_eq!(live(&state, 1), vec![103]);
    assert_eq!(state.get(1).unwrap().ledger().balance(), 101);
}

#[test]
fn promote_keeps_earlier_siblings() {
    let mut state = forest();
    assert!(state.promote(1, 102));
    assert_eq!(live(&state, 1), vec![100, 101, 103]);
    assert_eq!(state.get(1).unwrap().ledger().balance(), 102);
}

#[test]
fn promote_of_an_inner_branch_discards_only_its_later_siblings() {
    let mut state = forest();
    let b = branch_from(&state, 1, Some(100), 5);
    state.open_branch(1, 105, Some(100), b);
    let b = branch_from(&state, 1, Some(105), 6);
    state.open_branch(1, 106, Some(105), b);
    assert!(state.promote(1, 101));
    assert_eq!(live(&state, 1), vec![100, 102, 103, 104]);
    assert_eq!(state.get(1).unwrap().ledger().balance(), 101);
}

#[test]
fn promote_of_an_absent_branch_changes_nothing() {
    let mut state = forest();
    assert!(!state.promote(1, 109));
    assert!(!state.promote(2, 100));
    assert!(!state.promote(3, 100));
    assert_eq!(live(&state, 1), vec![100, 101, 102, 103, 104]);
    assert_eq!(state.get(1).unwrap().len(), 0);
}

#[test]
fn record_keeps_the_first_effect() {
    let mut state = MultiLedgerState::new();
    assert!(state.record(5, TransactionEffect::Rejected(Error::SkippedSequenceNumberError)));
    assert!(state.record(6, TransactionEffect::Forked));
    assert_eq!(
        state.effect(5),
        Some(TransactionEffect::Rejected(Error::SkippedSequenceNumberError))
    );
    assert!(!state.record(5, TransactionEffect::Applied));
    assert_eq!(
        state.effect(5),
        Some(TransactionEffect::Rejected(Error::SkippedSequenceNumberError))
    );
    assert_eq!(state.effect(6), Some(TransactionEffect::Forked));
    assert_eq!(state.effects().len(), 2);
}

#[test]
fn tree_finds_branches_by_key() {
    let mut tree = LedgerTree::new(OperationHistory::new(Ledger::new(1, 7, 0, 0)));
    assert_eq!(tree.branch_count(), 0);
    assert_eq!(tree.find(5), None);
    tree.open_branch(5, None, OperationHistory::new(Ledger::new(1, 7, 0, 1)));
    tree.open_branch(6, Some(5), OperationHistory::new(Ledger::new(1, 7, 0, 2)));
    assert_eq!(tree.branch_count(), 2);
    assert_eq!(tree.find(5), Some(0));
    assert_eq!(tree.find(6), Some(1));
    assert_eq!(tree.history_at(None).unwrap().ledger().balance(), 0);
    assert_eq!(tree.history_at(Some(6)).unwrap().ledger().balance(), 2);
    assert!(tree.history_at(Some(7)).is_none());
    tree.set_canonical(OperationHistory::new(Ledger::new(1, 7, 0, 9)));
    assert_eq!(tree.canonical().ledger().balance(), 9);
    assert_eq!(tree.branch_count(), 2);
}

#[test]
fn commit_refuses_unknown_ledger_and_foreign_history() {
    let mut state = state_with(&[Ledger::new(1, 7, 0, 10), Ledger::new(2, 7, 0, 20)]);
    let foreign = state.get(2).unwrap().fork();
    assert!(!state.commit(1, foreign));
    let own = state.get(1).unwrap().fork();
    assert!(!state.commit(3, own));
    assert_eq!(state.get(1).unwrap().ledger().balance(), 10);
    assert!(!state.has_history(3));
    let own = branch_from(&state, 1, None, 1);
    assert!(state.commit(1, own));
    assert_eq!(state.get(1).unwrap().ledger().balance(), 11);
}

#[test]
fn open_branch_refuses_what_would_break_the_tree() {
    let mut state = state_with(&[Ledger::new(1, 7, 0, 10), Ledger::new(2, 7, 0, 20)]);
    let b = branch_from(&state, 1, None, 1);
    assert!(state.open_branch(1, 100, None, b));
    // the key is taken
    let b = branch_from(&state, 1, None, 2);
    assert!(!state.open_branch(1, 100, None, b));
    assert_eq!(state.get_branch(1, 100).unwrap().ledger().balance(), 11);
    // the parent is not there
    let b = branch_from(&state, 1, None, 2);
    assert!(!state.open_branch(1, 101, Some(99), b));
    // a branch cannot hang from itself
    let b = branch_from(&state, 1, None, 2);
    assert!(!state.open_branch(1, 101, Some(101), b));
    // the history is of another ledger
    let b = branch_from(&state, 2, None, 2);
    assert!(!state.open_branch(1, 101, None, b));
    // the ledger is not registered
    let b = branch_from(&state, 1, None, 2);
    assert!(!state.open_branch(3, 101, None, b));
    assert_eq!(live(&state, 1), vec![100]);
    assert_eq!(live(&state, 2), Vec::<u64>::new());
    // the same key on another ledger is another branch
    let b = branch_from(&state, 2, None, 2);
    assert!(state.open_branch(2, 100, None, b));
    assert_eq!(live(&state, 2), vec![100]);
}

#[test]
fn tree_refuses_foreign_histories() {
    let mut tree = LedgerTree::new(OperationHistory::new(Ledger::new(1, 7, 0, 0)));
    assert!(!tree.set_canonical(OperationHistory::new(Ledger::new(2, 7, 0, 9))));
    assert_eq!(tree.canonical().ledger().id(), 1);
    assert!(!tree.open_branch(5, None, OperationHistory::new(Ledger::new(2, 7, 0, 1))));
    assert!(tree.open_branch(5, None, OperationHistory::new(Ledger::new(1, 7, 0, 1))));
    assert!(!tree.open_branch(5, None, OperationHistory::new(Ledger::new(1, 7, 0, 1))));
    assert!(!tree.open_branch(6, Some(7), OperationHistory::new(Ledger::new(1, 7, 0, 1))));
    assert_eq!(tree.branch_count(), 1);
}
