//! The history of one ledger: the operations applied to it and its resulting state.
use vstd::prelude::*;
use crate::ledger::Ledger;
use crate::operations::{Operation, OperationError};

verus! {

/// The mathematical content of an [`OperationHistory`].
pub struct HistoryView {
    /// The ledger as the applied operations have left it. Its `seq_no` stays the baseline.
    pub ledger: Ledger,
    /// The operations applied so far, oldest first.
    pub log: Seq<Operation>,
}

impl HistoryView {
    /// The history of a freshly registered ledger.
    pub open spec fn fresh(ledger: Ledger) -> HistoryView {
        HistoryView { ledger, log: Seq::empty() }
    }

    /// The baseline sequence number plus the number of operations applied.
    pub open spec fn seq_no(self) -> int {
        self.ledger.seq_no + self.log.len()
    }

    /// The history after one more valid operation.
    pub open spec fn applied(self, op: Operation) -> HistoryView {
        HistoryView { ledger: op.applied_to(self.ledger), log: self.log.push(op) }
    }

    /// The history after those of `ops` that target this ledger were applied in order;
    /// `None` if one of them is invalid when its turn comes.
    pub open spec fn applied_all(self, ops: Seq<Operation>) -> Option<HistoryView>
        decreases ops.len(),
    {
        if ops.len() == 0 {
            Some(self)
        } else {
            match self.applied_all(ops.drop_last()) {
                None => None,
                Some(h) => {
                    let op = ops.last();
                    if op.ledger_id != h.ledger.id {
                        Some(h)
                    } else if op.valid_on(h.ledger) {
                        Some(h.applied(op))
                    } else {
                        None
                    }
                },
            }
        }
    }

    /// How many of `ops` target the ledger `id`.
    pub open spec fn count_for(id: u64, ops: Seq<Operation>) -> nat
        decreases ops.len(),
    {
        if ops.len() == 0 {
            0
        } else {
            Self::count_for(id, ops.drop_last()) + if ops.last().ledger_id == id {
                1nat
            } else {
                0nat
            }
        }
    }
}

impl HistoryView {
    /// Once an operation of a prefix fails, the whole list fails.
    pub proof fn lemma_applied_all_fails(self, ops: Seq<Operation>, n: int)
        requires
            0 <= n <= ops.len(),
            self.applied_all(ops.take(n)) is None,
        ensures
            self.applied_all(ops) is None,
        decreases ops.len() - n,
    {
        if n < ops.len() {
            assert(ops.take(n + 1).drop_last() =~= ops.take(n));
            self.lemma_applied_all_fails(ops, n + 1);
        } else {
            assert(ops.take(n) =~= ops);
        }
    }

    /// Applying operations keeps the ledger's identity, owner and baseline, and
    /// advances the sequence number by the number of operations that target the
    /// ledger.
    pub proof fn lemma_applied_all_keeps(self, ops: Seq<Operation>)
        requires
            self.applied_all(ops) is Some,
        ensures
            self.applied_all(ops)->0.ledger.id == self.ledger.id,
            self.applied_all(ops)->0.ledger.owner == self.ledger.owner,
            self.applied_all(ops)->0.ledger.seq_no == self.ledger.seq_no,
            self.applied_all(ops)->0.seq_no() == self.seq_no() + Self::count_for(
                self.ledger.id,
                ops,
            ),
        decreases ops.len(),
    {
        if ops.len() > 0 {
            self.lemma_applied_all_keeps(ops.drop_last());
        }
    }
}

/// An ordered log of the operations applied to one ledger, with the ledger's
/// resulting state.
pub struct OperationHistory {
    ledger: Ledger,
    operations: Vec<Operation>,
}

impl View for OperationHistory {
    type V = HistoryView;

    closed spec fn view(&self) -> HistoryView {
        HistoryView { ledger: self.ledger, log: self.operations@ }
    }
}

impl OperationHistory {
    /// The empty history of a ledger.
    pub fn new(ledger: Ledger) -> (history: OperationHistory)
        ensures
            history@ == HistoryView::fresh(ledger),
    {
        OperationHistory { ledger, operations: Vec::new() }
    }

    /// The ledger as the applied operations have left it.
    pub fn ledger(&self) -> (ledger: &Ledger)
        ensures
            *ledger == self@.ledger,
    {
        &self.ledger
    }

    /// The number of operations applied.
    pub fn len(&self) -> (n: usize)
        ensures
            n == self@.log.len(),
    {
        self.operations.len()
    }

    /// The `i`-th operation applied, if there is one.
    pub fn operation(&self, i: usize) -> (op: Option<Operation>)
        ensures
            op == if i < self@.log.len() { Some(self@.log[i as int]) } else { None },
    {
        if i < self.operations.len() {
            Some(self.operations[i])
        } else {
            None
        }
    }

    /// The current sequence number: the baseline plus the number of operations
    /// applied. `None` where that number does not fit in 64 bits.
    pub fn current_seq_no(&self) -> (seq_no: Option<u64>)
        ensures
            seq_no == if self@.seq_no() <= u64::MAX { Some(self@.seq_no() as u64) } else { None },
    {
        self.ledger.seq_no.checked_add(self.operations.len() as u64)
    }

    /// Validates the operation against the ledger and, if it is valid, appends it
    /// to the log and updates the ledger. An invalid operation changes nothing.
    pub fn apply(&mut self, operation: Operation) -> (res: Result<(), OperationError>)
        ensures
            res == operation.check(old(self)@.ledger),
            res is Ok ==> final(self)@ == old(self)@.applied(operation),
            res is Err ==> final(self)@ == old(self)@,
    {
        match operation.apply(&mut self.ledger) {
            Err(e) => Err(e),
            Ok(()) => {
                self.operations.push(operation);
                Ok(())
            },
        }
    }

    /// An independent copy of the log and ledger state.
    pub fn fork(&self) -> (copy: OperationHistory)
        ensures
            copy@ == self@,
    {
        let mut operations: Vec<Operation> = Vec::new();
        let mut i: usize = 0;
        while i < self.operations.len()
            invariant
                i <= self.operations.len(),
                operations@ == self.operations@.take(i as int),
            decreases self.operations.len() - i,
        {
            operations.push(self.operations[i]);
            i = i + 1;
        }
        assert(operations@ =~= self.operations@);
        OperationHistory { ledger: self.ledger, operations }
    }

    /// A copy of this history to which those of `operations` that target its
    /// ledger were applied in order; `None` if one of them is invalid when its
    /// turn comes. The history itself does not change.
    pub fn fork_applying(&self, operations: &Vec<Operation>) -> (copy: Option<OperationHistory>)
        ensures
            copy is Some <==> self@.applied_all(operations@) is Some,
            copy is Some ==> copy->0@ == self@.applied_all(operations@)->0,
            copy is Some ==> copy->0@.ledger.id == self@.ledger.id,
    {
        let mut copy = self.fork();
        let mut i: usize = 0;
        assert(operations@.take(0) =~= Seq::<Operation>::empty());
        while i < operations.len()
            invariant
                i <= operations.len(),
                self@.applied_all(operations@.take(i as int)) == Some(copy@),
                copy@.ledger.id == self@.ledger.id,
            decreases operations.len() - i,
        {
            let op = operations[i];
            proof {
                assert(operations@.take(i + 1).drop_last() =~= operations@.take(i as int));
                assert(operations@.take(i + 1).last() == op);
            }
            if op.ledger_id == copy.ledger.id {
                match copy.apply(op) {
                    Err(_) => {
                        proof {
                            self@.lemma_applied_all_fails(operations@, i + 1);
                        }
                        return None;
                    },
                    Ok(()) => {},
                }
            }
            i = i + 1;
        }
        assert(operations@.take(i as int) =~= operations@);
        Some(copy)
    }
}

} // verus!
