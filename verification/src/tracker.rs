//! The payment operation tracker: a small state machine that follows one
//! send or receive operation to a terminal state.
//!
//! The tracker drives nothing.  The ledger client performs the operation;
//! the caller polls it and feeds each observation in, and the tracker only
//! records the walk `Created -> Pending -> {Success, Failure, Unknown}`.
//! A terminal state absorbs every later observation.

use vstd::prelude::*;

verus! {

/// Which way the money moves.
#[derive(Clone, Copy, PartialEq, Eq, Structural, Debug)]
pub enum OperationKind {
    Send,
    Receive,
}

/// Where an operation stands.
#[derive(Clone, Copy, PartialEq, Eq, Structural, Debug)]
pub enum OperationStatus {
    Created,
    Pending,
    Success,
    Failure,
    Unknown,
}

/// One observation of the ledger client's view of the operation.
#[derive(Clone, Copy, PartialEq, Eq, Structural, Debug)]
pub enum LedgerEvent {
    StillPending,
    Succeeded,
    Failed,
    Unresolved,
}

/// A terminal status never changes again.
pub open spec fn is_terminal_spec(s: OperationStatus) -> bool {
    match s {
        OperationStatus::Created => false,
        OperationStatus::Pending => false,
        OperationStatus::Success => true,
        OperationStatus::Failure => true,
        OperationStatus::Unknown => true,
    }
}

/// Where one observation moves the status: a terminal status stays, any
/// other follows the observation.
pub open spec fn step_spec(s: OperationStatus, e: LedgerEvent) -> OperationStatus {
    if is_terminal_spec(s) {
        s
    } else {
        match e {
            LedgerEvent::StillPending => OperationStatus::Pending,
            LedgerEvent::Succeeded => OperationStatus::Success,
            LedgerEvent::Failed => OperationStatus::Failure,
            LedgerEvent::Unresolved => OperationStatus::Unknown,
        }
    }
}

/// Once terminal, always terminal: no observation moves a settled
/// operation.
pub proof fn lemma_terminal_absorbs(s: OperationStatus, e: LedgerEvent)
    requires
        is_terminal_spec(s),
    ensures
        step_spec(s, e) == s,
{
}

/// Every decisive observation settles the operation: polling reaches a
/// terminal state as soon as the client resolves.
pub proof fn lemma_decisive_event_settles(s: OperationStatus, e: LedgerEvent)
    requires
        e != LedgerEvent::StillPending,
    ensures
        is_terminal_spec(step_spec(s, e)),
{
}

/// One tracked send or receive operation.
pub struct PaymentOperation {
    /// Which way the money moves; fixed at creation.
    pub kind: OperationKind,
    /// Where the operation stands.
    pub status: OperationStatus,
}

impl PaymentOperation {
    /// A fresh operation, not yet handed to the client.
    pub fn new(kind: OperationKind) -> (r: PaymentOperation)
        ensures
            r.kind == kind,
            r.status == OperationStatus::Created,
    {
        PaymentOperation { kind, status: OperationStatus::Created }
    }

    /// Marks the operation issued: a created operation becomes pending,
    /// any other is left alone.
    pub fn begin(&mut self)
        ensures
            final(self).kind == old(self).kind,
            final(self).status == if old(self).status == OperationStatus::Created {
                OperationStatus::Pending
            } else {
                old(self).status
            },
    {
        if self.status == OperationStatus::Created {
            self.status = OperationStatus::Pending;
        }
    }

    /// Records one observation and says whether the operation is settled.
    pub fn observe(&mut self, e: LedgerEvent) -> (settled: bool)
        ensures
            final(self).kind == old(self).kind,
            final(self).status == step_spec(old(self).status, e),
            settled == is_terminal_spec(final(self).status),
    {
        if !self.is_settled() {
            self.status = match e {
                LedgerEvent::StillPending => OperationStatus::Pending,
                LedgerEvent::Succeeded => OperationStatus::Success,
                LedgerEvent::Failed => OperationStatus::Failure,
                LedgerEvent::Unresolved => OperationStatus::Unknown,
            };
        }
        self.is_settled()
    }

    /// Whether the operation has reached a terminal state.
    pub fn is_settled(&self) -> (r: bool)
        ensures
            r == is_terminal_spec(self.status),
    {
        match self.status {
            OperationStatus::Created => false,
            OperationStatus::Pending => false,
            OperationStatus::Success => true,
            OperationStatus::Failure => true,
            OperationStatus::Unknown => true,
        }
    }
}

} // verus!
