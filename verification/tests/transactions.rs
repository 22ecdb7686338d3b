use std::collections::HashMap;

use multiledger::history::state::{MultiLedgerState, TransactionEffect};
use multiledger::ledger::Ledger;
use multiledger::operations::Operation;
use multiledger::transactions::base::{
    append_ids, check_sequence_numbers, has_distinct_ledgers, holds_id, is_admissible,
    ledgers_named, ledgers_targeted, names_ledger, operation_ledger_ids, referenced_ledger_ids,
    stage, without_repetitions,
};
use multiledger::transactions::basic::{BasicTransaction, Error as BasicError};
use multiledger::transactions::end_htl::{EndHTLTransaction, Error as EndHTLError};
use multiledger::transactions::start_htl::{Error as StartHTLError, StartHTLTransaction};
use multiledger::transactions::{Error, MultiLedgerTransaction, TransactionMap};

const ALICE: u64 = 1000;
const BOB: u64 = 2000;
const A: u64 = 1;
const B: u64 = 2;
const C: u64 = 3;

// A and B belong to Alice and stand at sequence number 5 with a balance of 100;
// C belongs to Bob.
fn two_ledgers() -> MultiLedgerState {
    let mut state = MultiLedgerState::new();
    assert!(state.add_ledger(Ledger::new(A, ALICE, 5, 100)));
    assert!(state.add_ledger(Ledger::new(B, ALICE, 5, 100)));
    assert!(state.add_ledger(Ledger::new(C, BOB, 0, 0)));
    state
}

fn basic(id: u64, seq_nos: Vec<(u64, u64)>, ops: Vec<Operation>) -> BasicTransaction {
    BasicTransaction::new(id, ALICE, seq_nos, None, ops).unwrap()
}

fn start(id: u64, seq_nos: Vec<(u64, u64)>, ops: Vec<Operation>) -> StartHTLTransaction {
    StartHTLTransaction::new(id, ALICE, seq_nos, None, ops).unwrap()
}

fn end(id: u64, seq_nos: Vec<(u64, u64)>, start_id: u64, fulfilled: bool) -> EndHTLTransaction {
    EndHTLTransaction::new(id, ALICE, seq_nos, None, vec![], start_id, fulfilled).unwrap()
}

fn snapshot(state: &MultiLedgerState, ledger: u64) -> (Option<u64>, u64, usize, Vec<u64>) {
    let history = state.get(ledger).unwrap();
    let branches = (0..50u64).filter(|id| state.has_branch(ledger, *id)).collect();
    (history.current_seq_no(), history.ledger().balance(), history.len(), branches)
}

#[test]
fn it_works() {
    assert!(true);
}

#[test]
fn transaction_keeps_its_parts() {
    let tx = BasicTransaction::new(
        9,
        ALICE,
        vec![(A, 6), (B, 6)],
        Some(vec![1, 2, 3]),
        vec![Operation::debit(A, 1), Operation::credit(B, 1), Operation::debit(A, 1)],
    )
    .unwrap();
    assert_eq!(tx.id(), 9);
    assert_eq!(tx.sender(), ALICE);
    assert_eq!(tx.seq_nos(), &vec![(A, 6), (B, 6)]);
    assert_eq!(
        tx.operations(),
        Some(&vec![Operation::debit(A, 1), Operation::credit(B, 1), Operation::debit(A, 1)])
    );
    assert_eq!(tx.metadata(), Some(&vec![1u8, 2, 3]));
    assert_eq!(tx.operation_ledger_ids(), vec![A, B]);
    assert_eq!(tx.required_ledger_ids(), Some(vec![A, B]));
    let wrapped = MultiLedgerTransaction::Basic(tx);
    assert_eq!(wrapped.id(), 9);
    assert_eq!(wrapped.seq_nos(), &vec![(A, 6), (B, 6)]);
    assert_eq!(wrapped.operations().unwrap().len(), 3);
    assert_eq!(wrapped.referenced_ledger_ids(), vec![A, B]);
    assert_eq!(wrapped.operation_ledger_ids(), vec![A, B]);
    assert!(wrapped.unwrap_start_htl().is_none());
}

#[test]
fn end_htl_keeps_its_parts() {
    let tx = EndHTLTransaction::new(9, BOB, vec![(A, 6)], None, vec![Operation::debit(C, 1)], 4, true)
        .unwrap();
    assert_eq!(tx.id(), 9);
    assert_eq!(tx.sender(), BOB);
    assert_eq!(tx.start_htl_id(), 4);
    assert!(tx.is_fulfilled());
    assert_eq!(tx.seq_nos(), &vec![(A, 6)]);
    assert_eq!(tx.operations(), Some(&vec![Operation::debit(C, 1)]));
    assert_eq!(tx.metadata(), None);
    assert_eq!(tx.operation_ledger_ids(), vec![C]);
    let s = start(4, vec![(B, 6)], vec![Operation::credit(B, 1)]);
    assert_eq!(s.sender(), ALICE);
    assert_eq!(s.metadata(), None);
    assert_eq!(s.operation_ledger_ids(), vec![B]);
    // the ledgers of the operations of both, not those of the assertions
    assert_eq!(tx.required_ledger_ids(&s), Some(vec![C, B]));
    let other = start(5, vec![(B, 6)], vec![]);
    assert_eq!(tx.required_ledger_ids(&other), Some(vec![C]));
    let wrapped = MultiLedgerTransaction::EndHTL(tx);
    assert_eq!(wrapped.referenced_ledger_ids(), vec![A, C]);
}

#[test]
fn shared_helpers() {
    let seq_nos = vec![(A, 6), (B, 7)];
    assert!(names_ledger(&seq_nos, A));
    assert!(names_ledger(&seq_nos, B));
    assert!(!names_ledger(&seq_nos, C));
    assert_eq!(ledgers_named(&seq_nos), vec![A, B]);
    let ops = vec![Operation::credit(C, 1), Operation::debit(A, 1), Operation::debit(C, 1)];
    assert_eq!(ledgers_targeted(&ops), vec![C, A, C]);
    assert_eq!(operation_ledger_ids(&ops), vec![C, A]);
    assert_eq!(referenced_ledger_ids(&seq_nos, &ops), vec![A, B, C]);
    let mut ids = vec![1, 2];
    append_ids(&mut ids, &vec![3, 1]);
    assert_eq!(ids, vec![1, 2, 3, 1]);
    assert_eq!(without_repetitions(&ids), vec![1, 2, 3]);
    assert_eq!(without_repetitions(&vec![]), Vec::<u64>::new());
    assert_eq!(without_repetitions(&vec![4, 4, 4]), vec![4]);
    assert!(holds_id(&ids, 3));
    assert!(!holds_id(&ids, 4));
}

// current sequence number 5: asserting 5 repeats, 7 skips, 6 passes
#[test]
fn repeated_and_skipped_sequence_numbers() {
    let state = two_ledgers();
    assert_eq!(
        check_sequence_numbers(&vec![(A, 5)], &state),
        Err(Error::RepeatedSequenceNumberError)
    );
    assert_eq!(
        check_sequence_numbers(&vec![(A, 7)], &state),
        Err(Error::SkippedSequenceNumberError)
    );
    assert_eq!(check_sequence_numbers(&vec![(A, 6)], &state), Ok(()));
    assert_eq!(check_sequence_numbers(&vec![(A, 0)], &state), Err(Error::RepeatedSequenceNumberError));
    assert_eq!(
        check_sequence_numbers(&vec![(A, u64::MAX)], &state),
        Err(Error::SkippedSequenceNumberError)
    );
}

#[test]
fn sequence_check_is_per_ledger_and_first_failure_decides() {
    let state = two_ledgers();
    assert_eq!(check_sequence_numbers(&vec![], &state), Ok(()));
    assert_eq!(check_sequence_numbers(&vec![(A, 6), (B, 6), (C, 1)], &state), Ok(()));
    assert_eq!(
        check_sequence_numbers(&vec![(A, 6), (B, 7), (C, 0)], &state),
        Err(Error::SkippedSequenceNumberError)
    );
    assert_eq!(
        check_sequence_numbers(&vec![(A, 6), (C, 0), (B, 7)], &state),
        Err(Error::RepeatedSequenceNumberError)
    );
}

#[test]
fn sequence_check_passes_over_unknown_ledgers() {
    let state = two_ledgers();
    assert_eq!(check_sequence_numbers(&vec![(77, 12345)], &state), Ok(()));
    assert_eq!(
        check_sequence_numbers(&vec![(77, 12345), (A, 5)], &state),
        Err(Error::RepeatedSequenceNumberError)
    );
}

#[test]
fn sequence_number_beyond_64_bits_is_invalid() {
    let mut state = MultiLedgerState::new();
    assert!(state.add_ledger(Ledger::new(A, ALICE, u64::MAX, 0)));
    assert_eq!(
        check_sequence_numbers(&vec![(A, u64::MAX)], &state),
        Err(Error::InvalidSequenceNumberError)
    );
    assert!(state.add_ledger(Ledger::new(B, ALICE, u64::MAX - 1, 0)));
    assert_eq!(check_sequence_numbers(&vec![(B, u64::MAX)], &state), Ok(()));
    let mut beyond = state.get(A).unwrap().fork();
    assert_eq!(beyond.apply(Operation::credit(A, 1)), Ok(()));
    state.commit(A, beyond);
    assert_eq!(
        check_sequence_numbers(&vec![(A, 0)], &state),
        Err(Error::InvalidSequenceNumberError)
    );
}

#[test]
fn is_valid_seq_no_checks_the_transactions_assertions() {
    let state = two_ledgers();
    let ok = MultiLedgerTransaction::Basic(basic(1, vec![(A, 6)], vec![]));
    assert_eq!(ok.is_valid_seq_no(&state), Ok(()));
    let skipped = MultiLedgerTransaction::StartHTL(start(2, vec![(A, 6), (B, 8)], vec![]));
    assert_eq!(skipped.is_valid_seq_no(&state), Err(Error::SkippedSequenceNumberError));
    let repeated = MultiLedgerTransaction::EndHTL(end(3, vec![(B, 1)], 2, true));
    assert_eq!(repeated.is_valid_seq_no(&state), Err(Error::RepeatedSequenceNumberError));
}

#[test]
fn admissible_needs_assertions_owner_and_sequence() {
    let state = two_ledgers();
    let ops = vec![Operation::debit(A, 1), Operation::credit(B, 1)];
    assert!(is_admissible(ALICE, &vec![(A, 6), (B, 6)], &ops, &state));
    assert!(!is_admissible(ALICE, &vec![(A, 6)], &ops, &state));
    assert!(!is_admissible(BOB, &vec![(A, 6), (B, 6)], &ops, &state));
    assert!(!is_admissible(ALICE, &vec![(A, 6), (B, 6), (C, 1)], &ops, &state));
    assert!(!is_admissible(ALICE, &vec![(A, 6), (B, 6), (77, 1)], &ops, &state));
    assert!(!is_admissible(ALICE, &vec![(A, 6), (B, 5)], &ops, &state));
    assert!(is_admissible(ALICE, &vec![], &vec![], &state));
}

#[test]
fn stage_copies_without_touching_the_state() {
    let state = two_ledgers();
    let ops = vec![Operation::debit(A, 30), Operation::credit(B, 30), Operation::debit(A, 70)];
    let staged = stage(&vec![(A, 6), (B, 6)], &ops, &state).unwrap();
    assert_eq!(staged.len(), 2);
    assert_eq!(staged[0].ledger().balance(), 0);
    assert_eq!(staged[0].current_seq_no(), Some(7));
    assert_eq!(staged[1].ledger().balance(), 130);
    assert_eq!(staged[1].current_seq_no(), Some(6));
    assert_eq!(snapshot(&state, A), (Some(5), 100, 0, vec![]));
    assert!(stage(&vec![(A, 6), (B, 6)], &vec![Operation::debit(B, 101)], &state).is_none());
    assert!(stage(&vec![(A, 6), (77, 1)], &vec![], &state).is_none());
}

#[test]
fn basic_applies_to_every_named_ledger() {
    let mut state = two_ledgers();
    let tx = basic(1, vec![(A, 6), (B, 6)], vec![Operation::debit(A, 40), Operation::credit(B, 40)]);
    assert_eq!(tx.validate(&state), Ok(()));
    assert_eq!(tx.validate_and_apply(&mut state), Ok(()));
    assert_eq!(snapshot(&state, A), (Some(6), 60, 1, vec![]));
    assert_eq!(snapshot(&state, B), (Some(6), 140, 1, vec![]));
    assert_eq!(snapshot(&state, C), (Some(0), 0, 0, vec![]));
}

// the assertions are a mapping: a ledger cannot have two of them
#[test]
fn a_ledger_cannot_have_two_assertions() {
    assert!(BasicTransaction::new(1, ALICE, vec![(A, 6), (A, 6)], None, vec![]).is_none());
    assert!(BasicTransaction::new(1, ALICE, vec![(A, 6), (B, 6), (A, 7)], None, vec![]).is_none());
    assert!(StartHTLTransaction::new(1, ALICE, vec![(B, 6), (B, 6)], None, vec![]).is_none());
    assert!(EndHTLTransaction::new(1, ALICE, vec![(A, 1), (B, 2), (B, 3)], None, vec![], 2, true).is_none());
    assert!(BasicTransaction::new(1, ALICE, vec![(A, 6), (B, 6)], None, vec![]).is_some());
    assert!(BasicTransaction::new(1, ALICE, vec![], None, vec![]).is_some());
    assert!(has_distinct_ledgers(&vec![(A, 6), (B, 6), (C, 6)]));
    assert!(!has_distinct_ledgers(&vec![(A, 6), (B, 6), (A, 6)]));
}

#[test]
fn basic_without_operations_changes_nothing() {
    let mut state = two_ledgers();
    let tx = basic(1, vec![(A, 6)], vec![]);
    assert_eq!(tx.validate_and_apply(&mut state), Ok(()));
    assert_eq!(snapshot(&state, A), (Some(5), 100, 0, vec![]));
}

#[test]
fn basic_rejects_operation_without_assertion() {
    let mut state = two_ledgers();
    let tx = basic(1, vec![(A, 6)], vec![Operation::debit(A, 40), Operation::credit(B, 40)]);
    assert_eq!(tx.validate(&state), Err(BasicError::InvalidTransaction));
    assert_eq!(tx.validate_and_apply(&mut state), Err(BasicError::InvalidTransaction));
    assert_eq!(snapshot(&state, A), (Some(5), 100, 0, vec![]));
    assert_eq!(snapshot(&state, B), (Some(5), 100, 0, vec![]));
}

#[test]
fn basic_rejects_foreign_sender() {
    let mut state = two_ledgers();
    let tx = BasicTransaction::new(1, BOB, vec![(A, 6)], None, vec![Operation::debit(A, 1)]).unwrap();
    assert_eq!(tx.validate_and_apply(&mut state), Err(BasicError::InvalidTransaction));
    let mixed = basic(2, vec![(A, 6), (C, 1)], vec![Operation::debit(A, 1)]);
    assert_eq!(mixed.validate_and_apply(&mut state), Err(BasicError::InvalidTransaction));
    assert_eq!(snapshot(&state, A), (Some(5), 100, 0, vec![]));
}

#[test]
fn basic_rejects_unknown_ledger() {
    let mut state = two_ledgers();
    let tx = basic(1, vec![(A, 6), (77, 1)], vec![Operation::debit(A, 1)]);
    assert_eq!(tx.validate_and_apply(&mut state), Err(BasicError::InvalidTransaction));
    assert_eq!(snapshot(&state, A), (Some(5), 100, 0, vec![]));
}

#[test]
fn basic_rejects_wrong_sequence_number() {
    let mut state = two_ledgers();
    for asserted in [0, 5, 7, u64::MAX] {
        let tx = basic(1, vec![(A, asserted)], vec![Operation::debit(A, 1)]);
        assert_eq!(tx.validate_and_apply(&mut state), Err(BasicError::InvalidTransaction));
    }
    assert_eq!(snapshot(&state, A), (Some(5), 100, 0, vec![]));
}

// atomicity: B's operation is invalid, so neither A nor B changes
#[test]
fn basic_with_an_invalid_operation_changes_no_ledger() {
    let mut state = two_ledgers();
    let tx = basic(1, vec![(A, 6), (B, 6)], vec![Operation::credit(A, 40), Operation::debit(B, 101)]);
    assert_eq!(tx.validate(&state), Err(BasicError::InvalidOperation));
    assert_eq!(tx.validate_and_apply(&mut state), Err(BasicError::InvalidOperation));
    assert_eq!(snapshot(&state, A), (Some(5), 100, 0, vec![]));
    assert_eq!(snapshot(&state, B), (Some(5), 100, 0, vec![]));
    assert_eq!(state.get(A).unwrap().operation(0), None);
}

#[test]
fn basic_operations_are_applied_in_order() {
    let mut state = two_ledgers();
    let early = basic(1, vec![(A, 6)], vec![Operation::debit(A, 101), Operation::credit(A, 1)]);
    assert_eq!(early.validate_and_apply(&mut state), Err(BasicError::InvalidOperation));
    let late = basic(1, vec![(A, 6)], vec![Operation::credit(A, 1), Operation::debit(A, 101)]);
    assert_eq!(late.validate_and_apply(&mut state), Ok(()));
    assert_eq!(snapshot(&state, A), (Some(7), 0, 2, vec![]));
}

#[test]
fn start_htl_forks_and_leaves_canonical_histories() {
    let mut state = two_ledgers();
    let tx = start(10, vec![(A, 6), (B, 6)], vec![Operation::debit(A, 40), Operation::credit(B, 40)]);
    assert_eq!(tx.validate(&state), Ok(()));
    assert_eq!(tx.validate_and_apply(&mut state), Ok(()));
    assert_eq!(snapshot(&state, A), (Some(5), 100, 0, vec![10]));
    assert_eq!(snapshot(&state, B), (Some(5), 100, 0, vec![10]));
    assert_eq!(snapshot(&state, C), (Some(0), 0, 0, vec![]));
    assert_eq!(state.get_branch(A, 10).unwrap().ledger().balance(), 60);
    assert_eq!(state.get_branch(A, 10).unwrap().current_seq_no(), Some(6));
    assert_eq!(state.get_branch(B, 10).unwrap().ledger().balance(), 140);
}

#[test]
fn start_htl_twice_is_refused() {
    let mut state = two_ledgers();
    let tx = start(10, vec![(A, 6)], vec![Operation::debit(A, 40)]);
    assert_eq!(tx.validate_and_apply(&mut state), Ok(()));
    assert_eq!(tx.validate(&state), Err(StartHTLError::InvalidTransaction));
    assert_eq!(tx.validate_and_apply(&mut state), Err(StartHTLError::InvalidTransaction));
    assert_eq!(snapshot(&state, A), (Some(5), 100, 0, vec![10]));
}

#[test]
fn start_htl_forks_a_ledger_without_operations_too() {
    let mut state = two_ledgers();
    let tx = start(10, vec![(A, 6), (B, 6)], vec![Operation::debit(A, 40)]);
    assert_eq!(tx.validate_and_apply(&mut state), Ok(()));
    assert_eq!(snapshot(&state, A), (Some(5), 100, 0, vec![10]));
    assert_eq!(snapshot(&state, B), (Some(5), 100, 0, vec![10]));
    assert_eq!(state.get_branch(B, 10).unwrap().len(), 0);
}

#[test]
fn start_htl_rejections() {
    let mut state = two_ledgers();
    let no_assertion = start(10, vec![(A, 6)], vec![Operation::credit(B, 1)]);
    assert_eq!(no_assertion.validate_and_apply(&mut state), Err(StartHTLError::InvalidTransaction));
    let foreign = StartHTLTransaction::new(10, BOB, vec![(A, 6)], None, vec![]).unwrap();
    assert_eq!(foreign.validate_and_apply(&mut state), Err(StartHTLError::InvalidTransaction));
    let skipped = start(10, vec![(A, 7)], vec![]);
    assert_eq!(skipped.validate_and_apply(&mut state), Err(StartHTLError::InvalidTransaction));
    let unknown = start(10, vec![(77, 1)], vec![]);
    assert_eq!(unknown.validate_and_apply(&mut state), Err(StartHTLError::InvalidTransaction));
    assert_eq!(snapshot(&state, A), (Some(5), 100, 0, vec![]));
}

// one fork fails: none is committed
#[test]
fn start_htl_with_an_invalid_operation_forks_nothing() {
    let mut state = two_ledgers();
    let tx = start(10, vec![(A, 6), (B, 6)], vec![Operation::credit(A, 40), Operation::debit(B, 101)]);
    assert_eq!(tx.validate(&state), Err(StartHTLError::InvalidOperation));
    assert_eq!(tx.validate_and_apply(&mut state), Err(StartHTLError::InvalidOperation));
    assert_eq!(snapshot(&state, A), (Some(5), 100, 0, vec![]));
    assert_eq!(snapshot(&state, B), (Some(5), 100, 0, vec![]));
}

// the failure path: branches on A and B, both removed, canonical histories as before
#[test]
fn failed_htl_removes_its_branches() {
    let mut state = two_ledgers();
    let s = start(10, vec![(A, 6), (B, 6)], vec![Operation::debit(A, 40), Operation::credit(B, 40)]);
    assert_eq!(s.validate_and_apply(&mut state), Ok(()));
    assert!(state.has_branch(A, 10));
    assert!(state.has_branch(B, 10));
    let e = end(11, vec![(A, 6), (B, 6)], 10, false);
    assert_eq!(e.validate(&s, &state), Ok(()));
    assert_eq!(e.validate_and_apply(&s, &mut state), Ok(()));
    assert_eq!(snapshot(&state, A), (Some(5), 100, 0, vec![]));
    assert_eq!(snapshot(&state, B), (Some(5), 100, 0, vec![]));
    assert!(state.get_branch(A, 10).is_none());
    assert!(state.get_branch(B, 10).is_none());
    assert!(!state.has_branch(A, 10));
}

#[test]
fn failed_htl_removes_what_was_forked_from_it() {
    let mut state = two_ledgers();
    let s = start(10, vec![(A, 6)], vec![Operation::debit(A, 40)]);
    assert_eq!(s.validate_and_apply(&mut state), Ok(()));
    let child = state.get_branch(A, 10).unwrap().fork();
    state.open_branch(A, 20, Some(10), child);
    let grandchild = state.get_branch(A, 20).unwrap().fork();
    state.open_branch(A, 21, Some(20), grandchild);
    let other = start(12, vec![(A, 6)], vec![]);
    assert_eq!(other.validate_and_apply(&mut state), Ok(()));
    assert_eq!(snapshot(&state, A).3, vec![10, 12, 20, 21]);
    assert_eq!(end(11, vec![], 10, false).validate_and_apply(&s, &mut state), Ok(()));
    assert_eq!(snapshot(&state, A), (Some(5), 100, 0, vec![12]));
}

// the success path: S1 and S2 fork A from the same base, S1 wins
#[test]
fn fulfilled_htl_becomes_canonical_and_discards_the_later_one() {
    let mut state = two_ledgers();
    let s1 = start(10, vec![(A, 6)], vec![Operation::debit(A, 40)]);
    let s2 = start(12, vec![(A, 6)], vec![Operation::credit(A, 7)]);
    assert_eq!(s1.validate_and_apply(&mut state), Ok(()));
    assert_eq!(s2.validate_and_apply(&mut state), Ok(()));
    assert_eq!(state.get_branch(A, 10).unwrap().ledger().balance(), 60);
    assert_eq!(state.get_branch(A, 12).unwrap().ledger().balance(), 107);
    let atop = state.get_branch(A, 12).unwrap().fork();
    state.open_branch(A, 13, Some(12), atop);
    let e = end(11, vec![(A, 6)], 10, true);
    assert_eq!(e.validate_and_apply(&s1, &mut state), Ok(()));
    assert_eq!(snapshot(&state, A), (Some(6), 60, 1, vec![]));
    assert_eq!(state.get(A).unwrap().operation(0), Some(Operation::debit(A, 40)));
    assert!(state.get_branch(A, 12).is_none());
    assert!(state.get_branch(A, 13).is_none());
    // a later transaction that refers to S2 fails
    let late = end(14, vec![(A, 7)], 12, true);
    assert_eq!(late.validate(&s2, &state), Err(EndHTLError::NotPending));
    assert_eq!(late.validate_and_apply(&s2, &mut state), Err(EndHTLError::NotPending));
    let late_failed = end(15, vec![(A, 7)], 12, false);
    assert_eq!(late_failed.validate_and_apply(&s2, &mut state), Err(EndHTLError::NotPending));
    assert_eq!(snapshot(&state, A), (Some(6), 60, 1, vec![]));
}

#[test]
fn fulfilled_htl_keeps_earlier_locks_and_untouched_ledgers() {
    let mut state = two_ledgers();
    let s0 = start(9, vec![(A, 6)], vec![Operation::credit(A, 1)]);
    let s1 = start(10, vec![(A, 6)], vec![Operation::debit(A, 40)]);
    let sb = start(20, vec![(B, 6)], vec![Operation::debit(B, 1)]);
    assert_eq!(s0.validate_and_apply(&mut state), Ok(()));
    assert_eq!(s1.validate_and_apply(&mut state), Ok(()));
    assert_eq!(sb.validate_and_apply(&mut state), Ok(()));
    assert_eq!(end(11, vec![], 10, true).validate_and_apply(&s1, &mut state), Ok(()));
    assert_eq!(snapshot(&state, A), (Some(6), 60, 1, vec![9]));
    assert_eq!(snapshot(&state, B), (Some(5), 100, 0, vec![20]));
}

#[test]
fn end_htl_resolves_only_once() {
    let mut state = two_ledgers();
    let s = start(10, vec![(A, 6)], vec![Operation::debit(A, 40)]);
    assert_eq!(s.validate_and_apply(&mut state), Ok(()));
    assert_eq!(end(11, vec![], 10, true).validate_and_apply(&s, &mut state), Ok(()));
    assert_eq!(
        end(12, vec![], 10, true).validate_and_apply(&s, &mut state),
        Err(EndHTLError::NotPending)
    );
    assert_eq!(
        end(13, vec![], 10, false).validate_and_apply(&s, &mut state),
        Err(EndHTLError::NotPending)
    );
    assert_eq!(snapshot(&state, A), (Some(6), 60, 1, vec![]));
}

#[test]
fn end_htl_rejections() {
    let mut state = two_ledgers();
    let s = start(10, vec![(A, 6)], vec![Operation::debit(A, 40)]);
    let never = end(11, vec![], 10, true);
    assert_eq!(never.validate_and_apply(&s, &mut state), Err(EndHTLError::NotPending));
    assert_eq!(snapshot(&state, A), (Some(5), 100, 0, vec![]));
    assert_eq!(s.validate_and_apply(&mut state), Ok(()));
    assert_eq!(snapshot(&state, A), (Some(5), 100, 0, vec![10]));
}

// the lock is that of the starting transaction handed over, and what the ending
// transaction mentions beside it does not stand in its way
#[test]
fn end_htl_goes_by_the_start_it_is_given() {
    let mut state = two_ledgers();
    let s = start(10, vec![(A, 6)], vec![Operation::debit(A, 40)]);
    assert_eq!(s.validate_and_apply(&mut state), Ok(()));
    let unknown =
        EndHTLTransaction::new(11, BOB, vec![(77, 1)], None, vec![Operation::credit(78, 1)], 99, false)
            .unwrap();
    assert_eq!(unknown.validate(&s, &state), Ok(()));
    assert_eq!(unknown.validate_and_apply(&s, &mut state), Ok(()));
    assert_eq!(snapshot(&state, A), (Some(5), 100, 0, vec![]));
    assert!(!state.has_history(77));
    assert!(!state.has_history(78));
}

#[test]
fn dispatch_checks_sequence_numbers_first() {
    let mut state = two_ledgers();
    let map: TransactionMap = HashMap::new();
    // the operation is invalid too, but the sequence assertion decides
    let tx = MultiLedgerTransaction::Basic(basic(1, vec![(A, 5)], vec![Operation::debit(A, 101)]));
    assert_eq!(tx.validate(&map, &state), Err(Error::RepeatedSequenceNumberError));
    assert_eq!(tx.validate_and_apply(&map, &mut state), Err(Error::RepeatedSequenceNumberError));
    assert_eq!(
        state.effect(1),
        Some(TransactionEffect::Rejected(Error::RepeatedSequenceNumberError))
    );
    let tx = MultiLedgerTransaction::Basic(basic(2, vec![(A, 7)], vec![]));
    assert_eq!(tx.validate_and_apply(&map, &mut state), Err(Error::SkippedSequenceNumberError));
    let tx = MultiLedgerTransaction::Basic(basic(3, vec![(A, 6)], vec![]));
    assert_eq!(tx.validate_and_apply(&map, &mut state), Ok(()));
    assert_eq!(state.effect(3), Some(TransactionEffect::Applied));
    assert_eq!(state.effects().len(), 3);
}

#[test]
fn dispatch_wraps_the_errors_of_each_kind() {
    let mut state = two_ledgers();
    let mut map: TransactionMap = HashMap::new();
    let tx = MultiLedgerTransaction::Basic(basic(1, vec![(A, 6)], vec![Operation::debit(A, 101)]));
    assert_eq!(
        tx.validate_and_apply(&map, &mut state),
        Err(Error::BasicError(BasicError::InvalidOperation))
    );
    let tx = MultiLedgerTransaction::Basic(basic(1, vec![], vec![Operation::debit(A, 1)]));
    assert_eq!(
        tx.validate_and_apply(&map, &mut state),
        Err(Error::BasicError(BasicError::InvalidTransaction))
    );
    let tx = MultiLedgerTransaction::StartHTL(start(2, vec![(A, 6)], vec![Operation::debit(A, 101)]));
    assert_eq!(
        tx.validate_and_apply(&map, &mut state),
        Err(Error::StartHTLError(StartHTLError::InvalidOperation))
    );
    assert_eq!(
        state.effect(2),
        Some(TransactionEffect::Rejected(Error::StartHTLError(StartHTLError::InvalidOperation)))
    );
    map.insert(10, MultiLedgerTransaction::StartHTL(start(10, vec![(A, 6)], vec![])));
    let tx = MultiLedgerTransaction::EndHTL(end(3, vec![], 10, true));
    assert_eq!(
        tx.validate_and_apply(&map, &mut state),
        Err(Error::EndHTLError(EndHTLError::NotPending))
    );
    assert_eq!(snapshot(&state, A), (Some(5), 100, 0, vec![]));
}

#[test]
fn dispatch_needs_the_recorded_start() {
    let mut state = two_ledgers();
    let mut map: TransactionMap = HashMap::new();
    map.insert(5, MultiLedgerTransaction::Basic(basic(5, vec![], vec![])));
    let absent = MultiLedgerTransaction::EndHTL(end(3, vec![], 10, true));
    assert_eq!(absent.validate(&map, &state), Err(Error::InvalidStartHTLError));
    assert_eq!(absent.validate_and_apply(&map, &mut state), Err(Error::InvalidStartHTLError));
    assert_eq!(absent.required_ledger_ids(&map), None);
    let wrong_kind = MultiLedgerTransaction::EndHTL(end(4, vec![], 5, true));
    assert_eq!(wrong_kind.validate_and_apply(&map, &mut state), Err(Error::InvalidStartHTLError));
    assert_eq!(wrong_kind.validate_and_apply_new(&map, &mut state), Err(Error::InvalidEndHTLError));
    assert!(MultiLedgerTransaction::find_start_htl(&map, 5).is_none());
    assert!(MultiLedgerTransaction::find_start_htl(&map, 10).is_none());
}

// only what is recorded under the named id counts: a starting transaction found
// there is the start, and its own id is the key of the branches
#[test]
fn dispatch_takes_the_start_recorded_under_the_named_id() {
    let mut state = two_ledgers();
    let mut map: TransactionMap = HashMap::new();
    let s = start(11, vec![(A, 6)], vec![Operation::debit(A, 40)]);
    assert_eq!(s.validate_and_apply(&mut state), Ok(()));
    map.insert(10, MultiLedgerTransaction::StartHTL(s));
    let e = MultiLedgerTransaction::EndHTL(end(12, vec![(A, 6)], 10, true));
    assert_eq!(e.required_ledger_ids(&map), Some(vec![A]));
    assert_eq!(e.mentioned_ledger_ids(&map), vec![A]);
    assert_eq!(e.validate_and_apply_new(&map, &mut state), Ok(()));
    assert_eq!(snapshot(&state, A), (Some(6), 60, 1, vec![]));
}

#[test]
fn ending_with_an_unknown_ledger_passes_only_where_ledgers_are_not_asked_for() {
    let mut map: TransactionMap = HashMap::new();
    let s = start(10, vec![(A, 6)], vec![Operation::debit(A, 40)]);
    map.insert(10, MultiLedgerTransaction::StartHTL(start(10, vec![(A, 6)], vec![Operation::debit(A, 40)])));
    // named only by a sequence assertion: not required, but mentioned
    let by_assertion = MultiLedgerTransaction::EndHTL(end(12, vec![(77, 1)], 10, false));
    assert_eq!(by_assertion.required_ledger_ids(&map), Some(vec![A]));
    assert_eq!(by_assertion.referenced_ledger_ids(), vec![77]);
    let mut state = two_ledgers();
    assert_eq!(s.validate_and_apply(&mut state), Ok(()));
    assert_eq!(by_assertion.validate_new(&map, &state), Err(Error::InvalidEndHTLError));
    assert_eq!(by_assertion.validate_and_apply_new(&map, &mut state), Err(Error::InvalidEndHTLError));
    assert_eq!(snapshot(&state, A), (Some(5), 100, 0, vec![10]));
    // targeted by an operation: required
    let by_operation = MultiLedgerTransaction::EndHTL(
        EndHTLTransaction::new(13, ALICE, vec![], None, vec![Operation::credit(78, 1)], 10, false)
            .unwrap(),
    );
    assert_eq!(by_operation.required_ledger_ids(&map), Some(vec![78, A]));
    assert_eq!(by_operation.validate_and_apply_new(&map, &mut state), Err(Error::InvalidEndHTLError));
    assert_eq!(by_operation.validate_and_apply(&map, &mut state), Ok(()));
    assert_eq!(snapshot(&state, A), (Some(5), 100, 0, vec![]));
    // the log keeps the first entry of the id
    assert_eq!(state.effect(13), Some(TransactionEffect::Rejected(Error::InvalidEndHTLError)));
}

#[test]
fn dispatch_runs_a_whole_lock() {
    let mut state = two_ledgers();
    let mut map: TransactionMap = HashMap::new();
    let s = MultiLedgerTransaction::StartHTL(start(10, vec![(A, 6), (B, 6)], vec![
        Operation::debit(A, 40),
        Operation::credit(B, 40),
    ]));
    assert_eq!(s.required_ledger_ids(&map), Some(vec![A, B]));
    assert_eq!(s.validate_and_apply_new(&map, &mut state), Ok(()));
    assert_eq!(state.effect(10), Some(TransactionEffect::Forked));
    assert!(s.unwrap_start_htl().is_some());
    map.insert(10, s);
    assert_eq!(MultiLedgerTransaction::find_start_htl(&map, 10).unwrap().id(), 10);
    let e = MultiLedgerTransaction::EndHTL(end(11, vec![(A, 6), (B, 6)], 10, true));
    assert_eq!(e.required_ledger_ids(&map), Some(vec![A, B]));
    assert_eq!(e.mentioned_ledger_ids(&map), vec![A, B]);
    assert_eq!(e.validate_new(&map, &state), Ok(()));
    assert_eq!(e.validate_and_apply_new(&map, &mut state), Ok(()));
    assert_eq!(state.effect(11), Some(TransactionEffect::Promoted));
    assert_eq!(snapshot(&state, A), (Some(6), 60, 1, vec![]));
    assert_eq!(snapshot(&state, B), (Some(6), 140, 1, vec![]));
    let failed = MultiLedgerTransaction::EndHTL(end(12, vec![(A, 7)], 10, false));
    assert_eq!(
        failed.validate_and_apply_new(&map, &mut state),
        Err(Error::EndHTLError(EndHTLError::NotPending))
    );
}

#[test]
fn dispatch_records_pruning() {
    let mut state = two_ledgers();
    let mut map: TransactionMap = HashMap::new();
    let s = MultiLedgerTransaction::StartHTL(start(10, vec![(A, 6)], vec![Operation::debit(A, 40)]));
    assert_eq!(s.validate_and_apply(&map, &mut state), Ok(()));
    map.insert(10, s);
    let e = MultiLedgerTransaction::EndHTL(end(11, vec![(A, 6)], 10, false));
    assert_eq!(e.validate_and_apply(&map, &mut state), Ok(()));
    assert_eq!(state.effect(11), Some(TransactionEffect::Pruned));
    assert_eq!(snapshot(&state, A), (Some(5), 100, 0, vec![]));
}

// a transaction that refers to a ledger that was never registered fails
#[test]
fn unknown_required_ledger_is_refused_before_anything_else() {
    let mut state = two_ledgers();
    let map: TransactionMap = HashMap::new();
    let by_assertion = MultiLedgerTransaction::Basic(basic(1, vec![(A, 6), (77, 1)], vec![
        Operation::debit(A, 1),
    ]));
    assert_eq!(by_assertion.validate_new(&map, &state), Err(Error::InvalidEndHTLError));
    assert_eq!(by_assertion.validate_and_apply_new(&map, &mut state), Err(Error::InvalidEndHTLError));
    assert_eq!(state.effect(1), Some(TransactionEffect::Rejected(Error::InvalidEndHTLError)));
    // the sequence assertion on A fails too, but the unknown ledger decides
    let by_operation = MultiLedgerTransaction::StartHTL(start(2, vec![(A, 9)], vec![
        Operation::credit(77, 1),
    ]));
    assert_eq!(by_operation.validate_and_apply_new(&map, &mut state), Err(Error::InvalidEndHTLError));
    // where the required ledgers are not asked for first, the same transactions fail later, and differently
    assert_eq!(
        by_assertion.validate_and_apply(&map, &mut state),
        Err(Error::BasicError(BasicError::InvalidTransaction))
    );
    assert_eq!(
        by_operation.validate_and_apply(&map, &mut state),
        Err(Error::SkippedSequenceNumberError)
    );
    assert_eq!(snapshot(&state, A), (Some(5), 100, 0, vec![]));
}
