//! What every kind of transaction is made of, and the checks they share.
use vstd::prelude::*;
use crate::history::operation::OperationHistory;
use crate::history::state::{MultiLedgerState, StateView};
use crate::ledger::{LedgerId, OwnerId};
use crate::operations::Operation;
use crate::transactions::Error;

verus! {

/// Identifies a transaction. A hash-time-locked transaction's branches are keyed
/// by the id of the transaction that started it.
pub type TransactionId = u64;

/// The sequence numbers a transaction asserts: pairs of a ledger's id and the
/// number the transaction claims on that ledger, in the order they were written.
/// In a transaction no ledger has two of them.
pub type SequenceNumbers = Vec<(LedgerId, u64)>;

/// The operations a transaction carries, in the order they are to be applied.
pub type Operations = Vec<Operation>;

/// A set of ledger ids, kept as a list in which no id stands twice.
pub type LedgerIds = Vec<LedgerId>;

/// Opaque bytes that a caller attaches to a transaction.
pub type TransactionMetadata = Vec<u8>;

/// The mathematical content of a transaction.
pub struct TransactionView {
    pub id: TransactionId,
    pub sender: OwnerId,
    pub seq_nos: Seq<(LedgerId, u64)>,
    pub metadata: Option<Seq<u8>>,
    pub operations: Seq<Operation>,
}

/// No ledger has two sequence assertions: the assertions are a mapping from
/// ledgers to numbers, written down in some order.
pub open spec fn distinct_ledgers(seq_nos: Seq<(LedgerId, u64)>) -> bool {
    forall|i: int, j: int|
        0 <= i < j < seq_nos.len() ==> (#[trigger] seq_nos[i]).0 != (#[trigger] seq_nos[j]).0
}

/// Decides [`distinct_ledgers`].
pub fn has_distinct_ledgers(seq_nos: &SequenceNumbers) -> (ok: bool)
    ensures
        ok == distinct_ledgers(seq_nos@),
{
    let mut j: usize = 0;
    while j < seq_nos.len()
        invariant
            j <= seq_nos.len(),
            forall|a: int, b: int|
                0 <= a < b < j ==> (#[trigger] seq_nos@[a]).0 != (#[trigger] seq_nos@[b]).0,
        decreases seq_nos.len() - j,
    {
        let mut i: usize = 0;
        while i < j
            invariant
                i <= j < seq_nos.len(),
                forall|a: int| 0 <= a < i ==> (#[trigger] seq_nos@[a]).0 != seq_nos@[j as int].0,
            decreases j - i,
        {
            if seq_nos[i].0 == seq_nos[j].0 {
                return false;
            }
            i = i + 1;
        }
        j = j + 1;
    }
    true
}

/// Whether one of the sequence assertions from the `from`-th on is about the
/// ledger `id`.
pub open spec fn names_from(seq_nos: Seq<(LedgerId, u64)>, from: int, id: LedgerId) -> bool {
    exists|i: int| from <= i < seq_nos.len() && 0 <= i && (#[trigger] seq_nos[i]).0 == id
}

/// Whether one of the sequence assertions is about the ledger `id`.
pub open spec fn names(seq_nos: Seq<(LedgerId, u64)>, id: LedgerId) -> bool {
    names_from(seq_nos, 0, id)
}

/// The ledger of each sequence assertion, in order.
pub open spec fn named_ledgers(seq_nos: Seq<(LedgerId, u64)>) -> Seq<LedgerId> {
    Seq::new(seq_nos.len(), |i: int| seq_nos[i].0)
}

/// The ledger of each operation, in order; a ledger stands as often as it is
/// targeted.
pub open spec fn targeted_ledgers(operations: Seq<Operation>) -> Seq<LedgerId> {
    Seq::new(operations.len(), |i: int| operations[i].ledger_id)
}

/// The ids of `ids`, each once, in the order in which they first occur.
pub open spec fn unique(ids: Seq<LedgerId>) -> Seq<LedgerId>
    decreases ids.len(),
{
    if ids.len() == 0 {
        Seq::empty()
    } else {
        let front = unique(ids.drop_last());
        if front.contains(ids.last()) {
            front
        } else {
            front.push(ids.last())
        }
    }
}

/// [`unique`] holds the same ids, and none twice.
pub proof fn lemma_unique(ids: Seq<LedgerId>)
    ensures
        unique(ids).no_duplicates(),
        forall|id: LedgerId| #[trigger] unique(ids).contains(id) <==> ids.contains(id),
    decreases ids.len(),
{
    if ids.len() > 0 {
        let rest = ids.drop_last();
        let last = ids.last();
        let front = unique(rest);
        let now = unique(ids);
        lemma_unique(rest);
        assert forall|id: LedgerId| #[trigger] now.contains(id) <==> ids.contains(id) by {
            if now.contains(id) {
                let a = choose|a: int| 0 <= a < now.len() && now[a] == id;
                if a < front.len() {
                    assert(front[a] == id);
                    assert(front.contains(id));
                    assert(rest.contains(id));
                    let b = choose|b: int| 0 <= b < rest.len() && rest[b] == id;
                    assert(ids[b] == id);
                } else {
                    assert(ids[ids.len() - 1] == id);
                }
            }
            if ids.contains(id) {
                let b = choose|b: int| 0 <= b < ids.len() && ids[b] == id;
                if b < rest.len() {
                    assert(rest[b] == id);
                    assert(front.contains(id));
                    let a = choose|a: int| 0 <= a < front.len() && front[a] == id;
                    assert(now[a] == id);
                } else if front.contains(last) {
                } else {
                    assert(now[front.len() as int] == id);
                }
            }
        }
        if !front.contains(last) {
            assert forall|a: int, b: int| 0 <= a < now.len() && 0 <= b < now.len() && a != b implies now[a]
                != now[b] by {
                if a < front.len() && b < front.len() {
                } else if a < front.len() {
                    assert(front[a] == now[a]);
                } else if b < front.len() {
                    assert(front[b] == now[b]);
                }
            }
        }
    }
}

/// The ledgers that the operations target, each once, in the order in which they
/// are first targeted.
pub open spec fn operation_ledgers(operations: Seq<Operation>) -> Seq<LedgerId> {
    unique(targeted_ledgers(operations))
}

impl TransactionView {
    /// Every ledger the transaction mentions, each once: first those of its
    /// sequence assertions, then those of its operations.
    pub open spec fn referenced_ledgers(self) -> Seq<LedgerId> {
        unique(named_ledgers(self.seq_nos) + targeted_ledgers(self.operations))
    }

    /// A ledger that has a sequence assertion is among those the transaction
    /// mentions, and so is a ledger that an operation targets.
    pub proof fn lemma_referenced(self, ledger: LedgerId)
        ensures
            names(self.seq_nos, ledger) ==> self.referenced_ledgers().contains(ledger),
            targeted_ledgers(self.operations).contains(ledger) ==> self.referenced_ledgers().contains(
                ledger,
            ),
    {
        let named = named_ledgers(self.seq_nos);
        let targeted = targeted_ledgers(self.operations);
        let all = named + targeted;
        lemma_unique(all);
        if names(self.seq_nos, ledger) {
            let i = choose|i: int|
                0 <= i < self.seq_nos.len() && 0 <= i && (#[trigger] self.seq_nos[i]).0 == ledger;
            assert(named[i] == ledger);
            assert(all[i] == ledger);
        }
        if targeted.contains(ledger) {
            let i = choose|i: int| 0 <= i < targeted.len() && targeted[i] == ledger;
            assert(all[named.len() + i] == ledger);
        }
    }
}

/// The verdict on one sequence assertion. A ledger that is not registered is
/// passed over. On a registered ledger the required number is the current one plus
/// one: a smaller assertion repeats a number, a larger one skips some.
pub open spec fn sequence_verdict_of(state: StateView, entry: (LedgerId, u64)) -> Result<
    (),
    Error,
> {
    if !state.knows(entry.0) {
        Ok(())
    } else {
        let required = state.canonical(entry.0).seq_no() + 1;
        if required > u64::MAX {
            Err(Error::InvalidSequenceNumberError)
        } else if entry.1 < required {
            Err(Error::RepeatedSequenceNumberError)
        } else if entry.1 > required {
            Err(Error::SkippedSequenceNumberError)
        } else {
            Ok(())
        }
    }
}

/// The verdict on a list of sequence assertions: that of the first one that fails,
/// `Ok` if none does.
pub open spec fn sequence_verdict(state: StateView, seq_nos: Seq<(LedgerId, u64)>) -> Result<
    (),
    Error,
>
    decreases seq_nos.len(),
{
    if seq_nos.len() == 0 {
        Ok(())
    } else {
        match sequence_verdict(state, seq_nos.drop_last()) {
            Err(e) => Err(e),
            Ok(()) => sequence_verdict_of(state, seq_nos.last()),
        }
    }
}

/// The first failure decides the verdict.
pub proof fn lemma_sequence_verdict_fails(state: StateView, seq_nos: Seq<(LedgerId, u64)>, n: int)
    requires
        0 <= n <= seq_nos.len(),
        sequence_verdict(state, seq_nos.take(n)) is Err,
    ensures
        sequence_verdict(state, seq_nos) == sequence_verdict(state, seq_nos.take(n)),
    decreases seq_nos.len() - n,
{
    if n < seq_nos.len() {
        assert(seq_nos.take(n + 1).drop_last() =~= seq_nos.take(n));
        lemma_sequence_verdict_fails(state, seq_nos, n + 1);
    } else {
        assert(seq_nos.take(n) =~= seq_nos);
    }
}

/// The verdict is `Ok` exactly if every assertion passes.
pub proof fn lemma_sequence_verdict_ok(state: StateView, seq_nos: Seq<(LedgerId, u64)>)
    ensures
        sequence_verdict(state, seq_nos) is Ok <==> forall|i: int|
            0 <= i < seq_nos.len() ==> sequence_verdict_of(state, #[trigger] seq_nos[i]) is Ok,
    decreases seq_nos.len(),
{
    if seq_nos.len() > 0 {
        let front = seq_nos.drop_last();
        lemma_sequence_verdict_ok(state, front);
        if sequence_verdict(state, seq_nos) is Ok {
            assert forall|i: int| 0 <= i < seq_nos.len() implies sequence_verdict_of(
                state,
                #[trigger] seq_nos[i],
            ) is Ok by {
                if i < front.len() {
                    assert(front[i] == seq_nos[i]);
                }
            }
        } else {
            if sequence_verdict(state, front) is Ok {
                assert(!(sequence_verdict_of(state, seq_nos[seq_nos.len() - 1]) is Ok));
            } else {
                let i = choose|i: int|
                    0 <= i < front.len() && !(sequence_verdict_of(state, #[trigger] front[i]) is Ok);
                assert(front[i] == seq_nos[i]);
            }
        }
    }
}

/// Checks each sequence assertion against the current sequence number of its
/// ledger, in order, and stops at the first that fails. Ledgers that are not
/// registered are passed over.
pub fn check_sequence_numbers(seq_nos: &SequenceNumbers, state: &MultiLedgerState) -> (res: Result<
    (),
    Error,
>)
    ensures
        res == sequence_verdict(state@, seq_nos@),
{
    let mut i: usize = 0;
    assert(seq_nos@.take(0) =~= Seq::<(LedgerId, u64)>::empty());
    while i < seq_nos.len()
        invariant
            i <= seq_nos.len(),
            sequence_verdict(state@, seq_nos@.take(i as int)) is Ok,
        decreases seq_nos.len() - i,
    {
        let (ledger_id, tx_seq_no) = seq_nos[i];
        proof {
            assert(seq_nos@.take(i + 1).drop_last() =~= seq_nos@.take(i as int));
            assert(seq_nos@.take(i + 1).last() == seq_nos@[i as int]);
        }
        let verdict = match state.get(ledger_id) {
            None => Ok(()),
            Some(history) => match history.current_seq_no() {
                None => Err(Error::InvalidSequenceNumberError),
                Some(ledger_seq_no) => {
                    if ledger_seq_no == u64::MAX {
                        Err(Error::InvalidSequenceNumberError)
                    } else {
                        let new_seq_no = ledger_seq_no + 1;
                        if tx_seq_no < new_seq_no {
                            Err(Error::RepeatedSequenceNumberError)
                        } else if tx_seq_no > new_seq_no {
                            Err(Error::SkippedSequenceNumberError)
                        } else {
                            Ok(())
                        }
                    }
                },
            },
        };
        assert(verdict == sequence_verdict_of(state@, seq_nos@[i as int]));
        match verdict {
            Err(e) => {
                proof {
                    lemma_sequence_verdict_fails(state@, seq_nos@, i + 1);
                }
                return Err(e);
            },
            Ok(()) => {},
        }
        i = i + 1;
    }
    assert(seq_nos@.take(i as int) =~= seq_nos@);
    Ok(())
}

/// Whether one of the sequence assertions is about the ledger `id`.
pub fn names_ledger(seq_nos: &SequenceNumbers, id: LedgerId) -> (found: bool)
    ensures
        found == names(seq_nos@, id),
{
    let mut i: usize = 0;
    while i < seq_nos.len()
        invariant
            i <= seq_nos.len(),
            forall|j: int| 0 <= j < i ==> (#[trigger] seq_nos@[j]).0 != id,
        decreases seq_nos.len() - i,
    {
        if seq_nos[i].0 == id {
            return true;
        }
        i = i + 1;
    }
    false
}

/// The ledger of each sequence assertion, in order.
pub fn ledgers_named(seq_nos: &SequenceNumbers) -> (ids: Vec<LedgerId>)
    ensures
        ids@ == named_ledgers(seq_nos@),
{
    let mut ids: Vec<LedgerId> = Vec::new();
    let mut i: usize = 0;
    while i < seq_nos.len()
        invariant
            i <= seq_nos.len(),
            ids@ == named_ledgers(seq_nos@).take(i as int),
        decreases seq_nos.len() - i,
    {
        ids.push(seq_nos[i].0);
        assert(ids@ =~= named_ledgers(seq_nos@).take(i + 1));
        i = i + 1;
    }
    assert(ids@ =~= named_ledgers(seq_nos@));
    ids
}

/// The ledger of each operation, in order.
pub fn ledgers_targeted(operations: &Operations) -> (ids: Vec<LedgerId>)
    ensures
        ids@ == targeted_ledgers(operations@),
{
    let mut ids: Vec<LedgerId> = Vec::new();
    let mut i: usize = 0;
    while i < operations.len()
        invariant
            i <= operations.len(),
            ids@ == targeted_ledgers(operations@).take(i as int),
        decreases operations.len() - i,
    {
        ids.push(operations[i].ledger_id);
        assert(ids@ =~= targeted_ledgers(operations@).take(i + 1));
        i = i + 1;
    }
    assert(ids@ =~= targeted_ledgers(operations@));
    ids
}

/// Puts the ids of `more` after those of `ids`.
pub fn append_ids(ids: &mut Vec<LedgerId>, more: &Vec<LedgerId>)
    ensures
        final(ids)@ == old(ids)@ + more@,
{
    let mut i: usize = 0;
    while i < more.len()
        invariant
            i <= more.len(),
            ids@ == old(ids)@ + more@.take(i as int),
        decreases more.len() - i,
    {
        ids.push(more[i]);
        assert(ids@ =~= old(ids)@ + more@.take(i + 1));
        i = i + 1;
    }
    assert(ids@ =~= old(ids)@ + more@);
}

/// Whether `id` is one of `ids`.
pub fn holds_id(ids: &Vec<LedgerId>, id: LedgerId) -> (found: bool)
    ensures
        found == ids@.contains(id),
{
    let mut i: usize = 0;
    while i < ids.len()
        invariant
            i <= ids.len(),
            forall|j: int| 0 <= j < i ==> ids@[j] != id,
        decreases ids.len() - i,
    {
        if ids[i] == id {
            return true;
        }
        i = i + 1;
    }
    false
}

/// The ids of `ids`, each once, in the order in which they first occur.
pub fn without_repetitions(ids: &Vec<LedgerId>) -> (once: LedgerIds)
    ensures
        once@ == unique(ids@),
        once@.no_duplicates(),
{
    let mut once: Vec<LedgerId> = Vec::new();
    let mut i: usize = 0;
    assert(ids@.take(0) =~= Seq::<LedgerId>::empty());
    while i < ids.len()
        invariant
            i <= ids.len(),
            once@ == unique(ids@.take(i as int)),
        decreases ids.len() - i,
    {
        proof {
            assert(ids@.take(i + 1).drop_last() =~= ids@.take(i as int));
            assert(ids@.take(i + 1).last() == ids@[i as int]);
        }
        if !holds_id(&once, ids[i]) {
            once.push(ids[i]);
        }
        i = i + 1;
    }
    proof {
        assert(ids@.take(i as int) =~= ids@);
        lemma_unique(ids@);
    }
    once
}

/// The ledgers that the operations target, each once.
pub fn operation_ledger_ids(operations: &Operations) -> (ids: LedgerIds)
    ensures
        ids@ == operation_ledgers(operations@),
        ids@.no_duplicates(),
{
    without_repetitions(&ledgers_targeted(operations))
}

/// Every ledger that sequence assertions or operations mention, each once: first
/// those of the assertions, then those of the operations.
pub fn referenced_ledger_ids(seq_nos: &SequenceNumbers, operations: &Operations) -> (ids: LedgerIds)
    ensures
        ids@ == unique(named_ledgers(seq_nos@) + targeted_ledgers(operations@)),
        ids@.no_duplicates(),
{
    let mut ids = ledgers_named(seq_nos);
    let more = ledgers_targeted(operations);
    append_ids(&mut ids, &more);
    without_repetitions(&ids)
}

/// What a transaction that applies operations must meet before any operation is
/// looked at: each operation's ledger has a sequence assertion, each ledger with
/// a sequence assertion is registered and owned by the sender, and every sequence
/// assertion holds.
pub open spec fn admissible(
    state: StateView,
    sender: OwnerId,
    seq_nos: Seq<(LedgerId, u64)>,
    operations: Seq<Operation>,
) -> bool {
    &&& forall|i: int|
        0 <= i < operations.len() ==> names(seq_nos, (#[trigger] operations[i]).ledger_id)
    &&& forall|i: int|
        0 <= i < seq_nos.len() ==> state.knows((#[trigger] seq_nos[i]).0) && state.canonical(
            seq_nos[i].0,
        ).ledger.owner == sender
    &&& sequence_verdict(state, seq_nos) is Ok
}

/// Whether every ledger that has a sequence assertion is registered and the
/// operations can be applied, in order, to its canonical history.
pub open spec fn applicable(
    state: StateView,
    seq_nos: Seq<(LedgerId, u64)>,
    operations: Seq<Operation>,
) -> bool {
    forall|i: int|
        0 <= i < seq_nos.len() ==> state.knows((#[trigger] seq_nos[i]).0) && state.canonical(
            seq_nos[i].0,
        ).applied_all(operations) is Some
}

/// Decides [`admissible`].
pub fn is_admissible(
    sender: OwnerId,
    seq_nos: &SequenceNumbers,
    operations: &Operations,
    state: &MultiLedgerState,
) -> (ok: bool)
    ensures
        ok == admissible(state@, sender, seq_nos@, operations@),
{
    let mut i: usize = 0;
    while i < operations.len()
        invariant
            i <= operations.len(),
            forall|j: int| 0 <= j < i ==> names(seq_nos@, (#[trigger] operations@[j]).ledger_id),
        decreases operations.len() - i,
    {
        if !names_ledger(seq_nos, operations[i].ledger_id) {
            return false;
        }
        i = i + 1;
    }
    let mut k: usize = 0;
    while k < seq_nos.len()
        invariant
            k <= seq_nos.len(),
            forall|j: int|
                0 <= j < k ==> state@.knows((#[trigger] seq_nos@[j]).0) && state@.canonical(
                    seq_nos@[j].0,
                ).ledger.owner == sender,
        decreases seq_nos.len() - k,
    {
        match state.get(seq_nos[k].0) {
            None => {
                return false;
            },
            Some(history) => {
                if history.ledger().owner != sender {
                    return false;
                }
            },
        }
        k = k + 1;
    }
    check_sequence_numbers(seq_nos, state).is_ok()
}

/// For each sequence assertion, in order, a copy of its ledger's canonical history
/// with the operations applied; `None` if a ledger is not registered or an
/// operation is invalid when its turn comes. The state does not change.
pub fn stage(seq_nos: &SequenceNumbers, operations: &Operations, state: &MultiLedgerState) -> (staged:
    Option<Vec<OperationHistory>>)
    requires
        state.wf(),
    ensures
        staged is Some <==> applicable(state@, seq_nos@, operations@),
        staged is Some ==> staged->0.len() == seq_nos.len(),
        staged is Some ==> forall|i: int|
            0 <= i < seq_nos.len() ==> (#[trigger] staged->0@[i])@ == state@.canonical(
                seq_nos@[i].0,
            ).applied_all(operations@)->0 && staged->0@[i]@.ledger.id == seq_nos@[i].0,
{
    let mut staged: Vec<OperationHistory> = Vec::new();
    let mut i: usize = 0;
    while i < seq_nos.len()
        invariant
            state.wf(),
            i <= seq_nos.len(),
            staged.len() == i,
            forall|j: int|
                0 <= j < i ==> state@.knows((#[trigger] seq_nos@[j]).0) && state@.canonical(
                    seq_nos@[j].0,
                ).applied_all(operations@) is Some,
            forall|j: int|
                0 <= j < i ==> (#[trigger] staged@[j])@ == state@.canonical(
                    seq_nos@[j].0,
                ).applied_all(operations@)->0 && staged@[j]@.ledger.id == seq_nos@[j].0,
        decreases seq_nos.len() - i,
    {
        let ledger_id = seq_nos[i].0;
        match state.get(ledger_id) {
            None => {
                return None;
            },
            Some(history) => {
                assert(state@.ledgers.contains_key(seq_nos@[i as int].0));
                match history.fork_applying(operations) {
                    None => {
                        return None;
                    },
                    Some(copy) => {
                        staged.push(copy);
                    },
                }
            },
        }
        i = i + 1;
    }
    Some(staged)
}


/// The state after the operations were applied to the canonical history of every
/// registered ledger that has a sequence assertion from the `from`-th on.
pub open spec fn committed(
    state: StateView,
    seq_nos: Seq<(LedgerId, u64)>,
    operations: Seq<Operation>,
    from: int,
) -> StateView {
    StateView {
        ledgers: Map::new(
            |id: LedgerId| state.knows(id),
            |id: LedgerId|
                if names_from(seq_nos, from, id) {
                    state.ledgers[id].with_canonical(
                        state.canonical(id).applied_all(operations)->0,
                    )
                } else {
                    state.ledgers[id]
                },
        ),
        ..state
    }
}

/// A ledger is named from one assertion on exactly if it is the ledger of that
/// assertion or is named from the next one on.
pub proof fn lemma_names_from_step(seq_nos: Seq<(LedgerId, u64)>, n: int)
    requires
        0 < n <= seq_nos.len(),
    ensures
        names_from(seq_nos, n - 1, seq_nos[n - 1].0),
        forall|id: LedgerId| #[trigger]
            names_from(seq_nos, n - 1, id) == (id == seq_nos[n - 1].0 || names_from(
                seq_nos,
                n,
                id,
            )),
{
    let ledger = seq_nos[n - 1].0;
    assert(names_from(seq_nos, n - 1, ledger));
    assert forall|id: LedgerId| #[trigger]
        names_from(seq_nos, n - 1, id) == (id == ledger || names_from(seq_nos, n, id)) by {
        if names_from(seq_nos, n - 1, id) && id != ledger {
            let i = choose|i: int| n - 1 <= i < seq_nos.len() && 0 <= i && (#[trigger] seq_nos[i]).0 == id;
            assert(n <= i);
        }
        if names_from(seq_nos, n, id) {
            let i = choose|i: int| n <= i < seq_nos.len() && 0 <= i && (#[trigger] seq_nos[i]).0 == id;
            assert(n - 1 <= i);
        }
    }
}

/// With no sequence assertion left, nothing is committed.
pub proof fn lemma_committed_none(
    state: StateView,
    seq_nos: Seq<(LedgerId, u64)>,
    operations: Seq<Operation>,
)
    ensures
        committed(state, seq_nos, operations, seq_nos.len() as int) == state,
{
    assert(committed(state, seq_nos, operations, seq_nos.len() as int).ledgers =~= state.ledgers);
}

/// Committing the ledger of one more sequence assertion.
pub proof fn lemma_committed_step(
    state: StateView,
    seq_nos: Seq<(LedgerId, u64)>,
    operations: Seq<Operation>,
    n: int,
)
    requires
        0 < n <= seq_nos.len(),
        state.knows(seq_nos[n - 1].0),
    ensures
        committed(state, seq_nos, operations, n).committing(
            seq_nos[n - 1].0,
            state.canonical(seq_nos[n - 1].0).applied_all(operations)->0,
        ) == committed(state, seq_nos, operations, n - 1),
{
    let ledger = seq_nos[n - 1].0;
    let before = committed(state, seq_nos, operations, n);
    let after = committed(state, seq_nos, operations, n - 1);
    let history = state.canonical(ledger).applied_all(operations)->0;
    lemma_names_from_step(seq_nos, n);
    assert(before.committing(ledger, history).ledgers =~= after.ledgers);
}

} // verus!
