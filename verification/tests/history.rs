use multiledger::history::state::TransactionEffect;
use multiledger::history::transaction::TransactionHistory;
use multiledger::ledger::Ledger;
use multiledger::operations::Operation;
use multiledger::transactions::basic::{BasicTransaction, Error as BasicError};
use multiledger::transactions::end_htl::{EndHTLTransaction, Error as EndHTLError};
use multiledger::transactions::start_htl::{Error as StartHTLError, StartHTLTransaction};
use multiledger::transactions::{Error, MultiLedgerTransaction};

const OWNER: u64 = 1000;
const A: u64 = 1;
const B: u64 = 2;

fn history_of_two() -> TransactionHistory {
    let mut history = TransactionHistory::new();
    assert!(history.add_ledger(Ledger::new(A, OWNER, 5, 100)));
    assert!(history.add_ledger(Ledger::new(B, OWNER, 5, 100)));
    history
}

fn basic_tx(id: u64, seq_nos: Vec<(u64, u64)>, ops: Vec<Operation>) -> MultiLedgerTransaction {
    MultiLedgerTransaction::Basic(BasicTransaction::new(id, OWNER, seq_nos, None, ops).unwrap())
}

fn start_tx(id: u64, seq_nos: Vec<(u64, u64)>, ops: Vec<Operation>) -> MultiLedgerTransaction {
    MultiLedgerTransaction::StartHTL(StartHTLTransaction::new(id, OWNER, seq_nos, None, ops).unwrap())
}

fn end_tx(id: u64, seq_nos: Vec<(u64, u64)>, start_id: u64, fulfilled: bool) -> MultiLedgerTransaction {
    MultiLedgerTransaction::EndHTL(
        EndHTLTransaction::new(id, OWNER, seq_nos, None, vec![], start_id, fulfilled).unwrap(),
    )
}

fn seq_no_of(history: &TransactionHistory, ledger: u64) -> Option<u64> {
    history.state().get(ledger).unwrap().current_seq_no()
}

fn order_of(history: &TransactionHistory, ledger: u64) -> Vec<u64> {
    match history.transaction_order(ledger) {
        Some(order) => order.clone(),
        None => vec![],
    }
}

#[test]
fn new_history_is_empty() {
    let history = TransactionHistory::new();
    assert!(history.transaction(1).is_none());
    assert!(history.transaction_order(1).is_none());
    assert!(!history.state().has_history(1));
}

#[test]
fn from_transaction_records_without_applying() {
    let history = TransactionHistory::from_transaction(basic_tx(7, vec![(A, 6)], vec![])).unwrap();
    assert_eq!(history.transaction(7).unwrap().id(), 7);
    assert!(history.transaction(8).is_none());
    assert!(!history.state().has_history(A));
    assert!(history.transaction_order(A).is_none());
    assert_eq!(history.state().effect(7), None);
}

#[test]
fn add_ledger_replaces_a_registered_ledger() {
    let mut history = history_of_two();
    assert_eq!(history.mut_apply(basic_tx(1, vec![(A, 6)], vec![Operation::debit(A, 1)])), Ok(()));
    assert_eq!(history.mut_apply(start_tx(2, vec![(A, 7)], vec![])), Ok(()));
    assert!(!history.add_ledger(Ledger::new(A, OWNER, 0, 7)));
    assert_eq!(seq_no_of(&history, A), Some(0));
    assert_eq!(history.state().get(A).unwrap().ledger().balance(), 7);
    assert_eq!(history.state().get(A).unwrap().len(), 0);
    assert!(!history.state().has_branch(A, 2));
    assert_eq!(seq_no_of(&history, B), Some(5));
    // what was recorded stays
    assert_eq!(order_of(&history, A), vec![1, 2]);
    assert!(history.transaction(1).is_some());
    assert_eq!(history.mut_apply(basic_tx(3, vec![(A, 1)], vec![Operation::debit(A, 7)])), Ok(()));
    assert_eq!(order_of(&history, A), vec![1, 2, 3]);
}

#[test]
fn accepted_transaction_is_recorded_and_ordered() {
    let mut history = history_of_two();
    let tx = basic_tx(1, vec![(A, 6), (B, 6)], vec![Operation::debit(A, 10), Operation::credit(B, 10)]);
    assert_eq!(history.validate(&tx), Ok(()));
    assert_eq!(history.mut_apply(tx), Ok(()));
    assert_eq!(history.transaction(1).unwrap().id(), 1);
    assert_eq!(order_of(&history, A), vec![1]);
    assert_eq!(order_of(&history, B), vec![1]);
    assert_eq!(history.state().effect(1), Some(TransactionEffect::Applied));
    assert_eq!(seq_no_of(&history, A), Some(6));
    assert_eq!(history.state().get(B).unwrap().ledger().balance(), 110);
    let tx = basic_tx(2, vec![(A, 7)], vec![Operation::debit(A, 1)]);
    assert_eq!(history.mut_apply_transaction(tx), Ok(()));
    assert_eq!(order_of(&history, A), vec![1, 2]);
    assert_eq!(order_of(&history, B), vec![1]);
}

#[test]
fn refused_transaction_is_not_recorded() {
    let mut history = history_of_two();
    let tx = basic_tx(1, vec![(A, 6)], vec![Operation::debit(A, 101)]);
    assert_eq!(history.validate(&tx), Err(Error::BasicError(BasicError::InvalidOperation)));
    assert_eq!(history.validate_transaction(&tx), Err(Error::BasicError(BasicError::InvalidOperation)));
    assert_eq!(history.mut_apply(tx), Err(Error::BasicError(BasicError::InvalidOperation)));
    assert!(history.transaction(1).is_none());
    assert!(history.transaction_order(A).is_none());
    assert_eq!(
        history.state().effect(1),
        Some(TransactionEffect::Rejected(Error::BasicError(BasicError::InvalidOperation)))
    );
    assert_eq!(seq_no_of(&history, A), Some(5));
    // the id is free again, but the log keeps its first entry
    assert_eq!(history.mut_apply(basic_tx(1, vec![(A, 6)], vec![Operation::debit(A, 100)])), Ok(()));
    assert!(history.transaction(1).is_some());
    assert_eq!(seq_no_of(&history, A), Some(6));
    assert_eq!(
        history.state().effect(1),
        Some(TransactionEffect::Rejected(Error::BasicError(BasicError::InvalidOperation)))
    );
}

#[test]
fn validate_changes_nothing() {
    let mut history = history_of_two();
    let tx = basic_tx(1, vec![(A, 6)], vec![Operation::debit(A, 10)]);
    assert_eq!(history.validate(&tx), Ok(()));
    assert_eq!(history.validate_transaction(&tx), Ok(()));
    assert_eq!(seq_no_of(&history, A), Some(5));
    assert_eq!(history.state().effect(1), None);
    assert!(history.transaction(1).is_none());
    assert_eq!(history.mut_apply(tx), Ok(()));
}

#[test]
fn recorded_id_is_refused() {
    let mut history = history_of_two();
    assert_eq!(history.mut_apply(basic_tx(1, vec![], vec![])), Ok(()));
    let again = basic_tx(1, vec![(A, 6)], vec![Operation::debit(A, 10)]);
    assert_eq!(history.validate(&again), Err(Error::BasicError(BasicError::InvalidTransaction)));
    assert_eq!(history.mut_apply(again), Err(Error::BasicError(BasicError::InvalidTransaction)));
    assert_eq!(history.state().effect(1), Some(TransactionEffect::Applied));
    assert_eq!(seq_no_of(&history, A), Some(5));
    assert_eq!(
        history.mut_apply_transaction(start_tx(1, vec![(A, 6)], vec![])),
        Err(Error::StartHTLError(StartHTLError::InvalidTransaction))
    );
    assert_eq!(
        history.mut_apply(end_tx(1, vec![], 1, true)),
        Err(Error::EndHTLError(EndHTLError::InvalidTransaction))
    );
    assert_eq!(history.transaction(1).unwrap().seq_nos().len(), 0);
}

#[test]
fn seeded_transaction_cannot_be_submitted_again() {
    let mut history = TransactionHistory::from_transaction(basic_tx(7, vec![], vec![])).unwrap();
    assert_eq!(
        history.mut_apply(basic_tx(7, vec![], vec![])),
        Err(Error::BasicError(BasicError::InvalidTransaction))
    );
    assert_eq!(history.state().effect(7), None);
}

#[test]
fn unknown_ledger_is_refused_first() {
    let mut history = history_of_two();
    let tx = basic_tx(1, vec![(A, 6), (77, 1)], vec![Operation::debit(A, 10)]);
    assert_eq!(history.validate(&tx), Err(Error::InvalidEndHTLError));
    assert_eq!(
        history.validate_transaction(&tx),
        Err(Error::BasicError(BasicError::InvalidTransaction))
    );
    assert_eq!(history.mut_apply(tx), Err(Error::InvalidEndHTLError));
    assert_eq!(seq_no_of(&history, A), Some(5));
    assert!(history.transaction(1).is_none());
    let tx = basic_tx(2, vec![(A, 6), (77, 1)], vec![Operation::debit(A, 10)]);
    assert_eq!(
        history.mut_apply_transaction(tx),
        Err(Error::BasicError(BasicError::InvalidTransaction))
    );
    assert_eq!(seq_no_of(&history, A), Some(5));
}

#[test]
fn end_of_an_unrecorded_lock_is_refused() {
    let mut history = history_of_two();
    assert_eq!(history.mut_apply(end_tx(2, vec![(A, 6)], 10, true)), Err(Error::InvalidEndHTLError));
    assert_eq!(
        history.mut_apply_transaction(end_tx(3, vec![(A, 6)], 10, true)),
        Err(Error::InvalidStartHTLError)
    );
    assert_eq!(history.mut_apply(basic_tx(10, vec![], vec![])), Ok(()));
    assert_eq!(
        history.mut_apply_transaction(end_tx(4, vec![(A, 6)], 10, true)),
        Err(Error::InvalidStartHTLError)
    );
}

// sequence numbers grow one by one
#[test]
fn sequence_number_after_each_transaction_is_baseline_plus_count() {
    let mut history = history_of_two();
    for i in 1..=20u64 {
        let tx = basic_tx(i, vec![(A, 5 + i)], vec![Operation::debit(A, 1)]);
        assert_eq!(history.mut_apply(tx), Ok(()));
        assert_eq!(seq_no_of(&history, A), Some(5 + i));
        assert_eq!(seq_no_of(&history, B), Some(5));
    }
    assert_eq!(order_of(&history, A), (1..=20).collect::<Vec<u64>>());
    assert_eq!(history.state().get(A).unwrap().ledger().balance(), 80);
}

#[test]
fn sequence_number_advances_by_the_number_of_operations() {
    let mut history = history_of_two();
    let tx = basic_tx(1, vec![(A, 6)], vec![Operation::debit(A, 1), Operation::debit(A, 1)]);
    assert_eq!(history.mut_apply(tx), Ok(()));
    assert_eq!(seq_no_of(&history, A), Some(7));
    assert_eq!(
        history.mut_apply(basic_tx(2, vec![(A, 7)], vec![])),
        Err(Error::RepeatedSequenceNumberError)
    );
    assert_eq!(history.mut_apply(basic_tx(3, vec![(A, 8)], vec![])), Ok(()));
    assert_eq!(seq_no_of(&history, A), Some(7));
}

#[test]
fn repeated_and_skipped_assertions_on_a_history() {
    let mut history = history_of_two();
    assert_eq!(
        history.mut_apply(basic_tx(1, vec![(A, 5)], vec![Operation::debit(A, 1)])),
        Err(Error::RepeatedSequenceNumberError)
    );
    assert_eq!(
        history.mut_apply(basic_tx(2, vec![(A, 7)], vec![Operation::debit(A, 1)])),
        Err(Error::SkippedSequenceNumberError)
    );
    assert_eq!(history.mut_apply(basic_tx(3, vec![(A, 6)], vec![Operation::debit(A, 1)])), Ok(()));
    assert_eq!(order_of(&history, A), vec![3]);
}

#[test]
fn failed_lock_on_a_history() {
    let mut history = history_of_two();
    let s = start_tx(10, vec![(A, 6), (B, 6)], vec![Operation::debit(A, 40), Operation::credit(B, 40)]);
    assert_eq!(history.mut_apply(s), Ok(()));
    assert!(history.state().has_branch(A, 10));
    assert!(history.state().has_branch(B, 10));
    assert_eq!(seq_no_of(&history, A), Some(5));
    let e = end_tx(11, vec![(A, 6), (B, 6)], 10, false);
    assert_eq!(history.validate(&e), Ok(()));
    assert_eq!(history.mut_apply(e), Ok(()));
    assert!(!history.state().has_branch(A, 10));
    assert!(!history.state().has_branch(B, 10));
    assert!(history.state().get_branch(A, 10).is_none());
    assert_eq!(seq_no_of(&history, A), Some(5));
    assert_eq!(history.state().get(A).unwrap().ledger().balance(), 100);
    assert_eq!(history.state().get(B).unwrap().ledger().balance(), 100);
    assert_eq!(order_of(&history, A), vec![10, 11]);
    assert_eq!(order_of(&history, B), vec![10, 11]);
    assert_eq!(history.state().effect(10), Some(TransactionEffect::Forked));
    assert_eq!(history.state().effect(11), Some(TransactionEffect::Pruned));
    // the slot is still free
    assert_eq!(history.mut_apply(basic_tx(12, vec![(A, 6)], vec![Operation::debit(A, 1)])), Ok(()));
}

#[test]
fn fulfilled_lock_on_a_history() {
    let mut history = history_of_two();
    assert_eq!(history.mut_apply(start_tx(10, vec![(A, 6)], vec![Operation::debit(A, 40)])), Ok(()));
    assert_eq!(history.mut_apply(start_tx(12, vec![(A, 6)], vec![Operation::credit(A, 7)])), Ok(()));
    assert_eq!(history.mut_apply(end_tx(11, vec![(A, 6)], 10, true)), Ok(()));
    assert_eq!(seq_no_of(&history, A), Some(6));
    assert_eq!(history.state().get(A).unwrap().ledger().balance(), 60);
    assert!(!history.state().has_branch(A, 10));
    assert!(!history.state().has_branch(A, 12));
    assert_eq!(order_of(&history, A), vec![10, 12, 11]);
    assert_eq!(history.state().effect(11), Some(TransactionEffect::Promoted));
    // the lock that lost cannot be ended, neither way
    assert_eq!(
        history.mut_apply(end_tx(13, vec![(A, 7)], 12, true)),
        Err(Error::EndHTLError(EndHTLError::NotPending))
    );
    assert_eq!(
        history.mut_apply(end_tx(14, vec![(A, 7)], 12, false)),
        Err(Error::EndHTLError(EndHTLError::NotPending))
    );
    assert!(history.transaction(12).is_some());
    assert!(history.transaction(13).is_none());
    assert_eq!(seq_no_of(&history, A), Some(6));
}

#[test]
fn arrival_is_noted_once_per_ledger() {
    let mut history = history_of_two();
    let tx = basic_tx(1, vec![(A, 6), (B, 6)], vec![
        Operation::debit(A, 1),
        Operation::credit(B, 1),
        Operation::credit(A, 1),
    ]);
    assert_eq!(history.mut_apply(tx), Ok(()));
    assert_eq!(order_of(&history, A), vec![1]);
    assert_eq!(order_of(&history, B), vec![1]);
}

#[test]
fn mut_apply_ledger_replays_in_order() {
    let mut history = TransactionHistory::new();
    assert!(history.add_ledger(Ledger::new(B, OWNER, 0, 0)));
    let txs = vec![
        basic_tx(1, vec![(A, 6)], vec![Operation::debit(A, 60)]),
        basic_tx(2, vec![(A, 7), (B, 1)], vec![Operation::debit(A, 40), Operation::credit(B, 40)]),
        basic_tx(3, vec![(A, 8)], vec![Operation::credit(A, 5)]),
    ];
    assert_eq!(history.mut_apply_ledger(Ledger::new(A, OWNER, 5, 100), txs), Ok(()));
    assert_eq!(seq_no_of(&history, A), Some(8));
    assert_eq!(history.state().get(A).unwrap().ledger().balance(), 5);
    assert_eq!(history.state().get(B).unwrap().ledger().balance(), 40);
    assert_eq!(order_of(&history, A), vec![1, 2, 3]);
    assert_eq!(order_of(&history, B), vec![2]);
}

#[test]
fn mut_apply_ledger_stops_at_the_first_refusal() {
    let mut history = TransactionHistory::new();
    let txs = vec![
        basic_tx(1, vec![(A, 6)], vec![Operation::debit(A, 60)]),
        basic_tx(2, vec![(A, 7)], vec![Operation::debit(A, 41)]),
        basic_tx(3, vec![(A, 7)], vec![Operation::credit(A, 5)]),
    ];
    assert_eq!(
        history.mut_apply_ledger(Ledger::new(A, OWNER, 5, 100), txs),
        Err(Error::BasicError(BasicError::InvalidOperation))
    );
    assert_eq!(seq_no_of(&history, A), Some(6));
    assert_eq!(history.state().get(A).unwrap().ledger().balance(), 40);
    assert_eq!(order_of(&history, A), vec![1]);
    assert!(history.transaction(3).is_none());
    assert_eq!(history.state().effect(3), None);
    assert_eq!(
        history.state().effect(2),
        Some(TransactionEffect::Rejected(Error::BasicError(BasicError::InvalidOperation)))
    );
}

#[test]
fn mut_apply_ledger_without_transactions_registers_the_ledger() {
    let mut history = TransactionHistory::new();
    assert_eq!(history.mut_apply_ledger(Ledger::new(A, OWNER, 5, 100), vec![]), Ok(()));
    assert_eq!(seq_no_of(&history, A), Some(5));
    assert_eq!(history.mut_apply_ledger(Ledger::new(A, OWNER, 9, 0), vec![]), Ok(()));
    assert_eq!(seq_no_of(&history, A), Some(9));
}
