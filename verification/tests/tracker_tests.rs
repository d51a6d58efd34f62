use multimint::tracker::{LedgerEvent, OperationKind, OperationStatus, PaymentOperation};

#[test]
fn walks_created_pending_terminal() {
    let mut op = PaymentOperation::new(OperationKind::Send);
    assert_eq!(op.status, OperationStatus::Created);
    assert!(!op.is_settled());
    op.begin();
    assert_eq!(op.status, OperationStatus::Pending);
    assert!(!op.observe(LedgerEvent::StillPending));
    assert_eq!(op.status, OperationStatus::Pending);
    assert!(op.observe(LedgerEvent::Failed));
    assert_eq!(op.status, OperationStatus::Failure);
}

#[test]
fn every_decisive_observation_settles() {
    for (event, expected) in [
        (LedgerEvent::Succeeded, OperationStatus::Success),
        (LedgerEvent::Failed, OperationStatus::Failure),
        (LedgerEvent::Unresolved, OperationStatus::Unknown),
    ] {
        let mut op = PaymentOperation::new(OperationKind::Send);
        op.begin();
        assert!(op.observe(event));
        assert_eq!(op.status, expected);
    }
}

#[test]
fn terminal_states_absorb() {
    let mut op = PaymentOperation::new(OperationKind::Receive);
    op.begin();
    op.observe(LedgerEvent::Unresolved);
    assert_eq!(op.status, OperationStatus::Unknown);
    for event in [
        LedgerEvent::StillPending,
        LedgerEvent::Succeeded,
        LedgerEvent::Failed,
        LedgerEvent::Unresolved,
    ] {
        assert!(op.observe(event));
        assert_eq!(op.status, OperationStatus::Unknown);
    }
    assert_eq!(op.kind, OperationKind::Receive);
}

#[test]
fn begin_leaves_settled_operations_alone() {
    let mut op = PaymentOperation::new(OperationKind::Send);
    op.begin();
    op.observe(LedgerEvent::Succeeded);
    op.begin();
    assert_eq!(op.status, OperationStatus::Success);
}
