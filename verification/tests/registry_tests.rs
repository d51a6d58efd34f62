use std::str::FromStr;

use fedimint_core::config::FederationId as FmFederationId;
use fedimint_core::invite_code::InviteCode;
use fedimint_core::util::SafeUrl;
use fedimint_core::PeerId;
use multimint::kv::KvStore;
use multimint::registry::{JoinError, JoinTicket, Multimint};
use multimint::tracker::{LedgerEvent, OperationKind, OperationStatus, PaymentOperation};

/// A syntactically valid invite code whose federation id is the given byte
/// repeated 32 times.
fn invite_text(id_byte: u8) -> String {
    let hex: String = (0..32).map(|_| format!("{:02x}", id_byte)).collect();
    let fid = FmFederationId::from_str(&hex).unwrap();
    let url = SafeUrl::parse("wss://fedimint.example.com/").unwrap();
    let code = InviteCode::new(url, PeerId::from(0), fid, None);
    code.to_string()
}

fn prepared(mm: &Multimint<u32>, text: &str) -> JoinTicket {
    match mm.prepare_join(text) {
        Ok(t) => t,
        Err(_) => panic!("expected the invite code to be accepted"),
    }
}

#[test]
fn join_twice_is_rejected_once_persisted() {
    let store = KvStore::new();
    let (mut mm, tasks) = Multimint::<u32>::new(store).unwrap();
    assert!(tasks.is_empty());
    let text = invite_text(0x11);

    let ticket = prepared(&mm, &text);
    let sel = match mm.join_federation(&ticket, "Test Federation", 5) {
        Ok(sel) => sel,
        Err(_) => panic!("first join must succeed"),
    };
    assert_eq!(sel.federation_name, "Test Federation");
    assert_eq!(mm.federations().len(), 1);

    // the second join of the same code is refused and persists nothing
    match mm.prepare_join(&text) {
        Err(JoinError::DuplicateFederation) => {}
        _ => panic!("second join must be refused as a duplicate"),
    }
    assert_eq!(mm.federations().len(), 1);
}

#[test]
fn invalid_invite_code_is_refused() {
    let store = KvStore::new();
    let (mm, _) = Multimint::<u32>::new(store).unwrap();
    match mm.prepare_join("fed1...abc") {
        Err(JoinError::InvalidInviteCode) => {}
        _ => panic!("a malformed code must be refused"),
    }
}

#[test]
fn unprintable_invite_code_is_refused_not_fatal() {
    // the base32 form has no length cap, so a code can parse whose
    // canonical bech32m text would exceed the encoder's length limit;
    // ruling on it must refuse the code, not end the process
    let hex: String = (0..32).map(|_| "66".to_string()).collect();
    let fid = FmFederationId::from_str(&hex).unwrap();
    let url = SafeUrl::parse("wss://fedimint.example.com/").unwrap();
    let oversized = InviteCode::new(url, PeerId::from(0), fid, Some("s".repeat(2000)));
    let text = oversized.encode_base32();

    let store = KvStore::new();
    let (mm, _) = Multimint::<u32>::new(store).unwrap();
    match mm.prepare_join(&text) {
        Err(JoinError::InvalidInviteCode) => {}
        Ok(_) => panic!("an unprintable code must not produce a ticket"),
        Err(_) => panic!("an unprintable code is an invalid code, nothing else"),
    }
}

#[test]
fn join_list_receive_and_track_to_terminal() {
    let store = KvStore::new();
    let (mut mm, _) = Multimint::<u32>::new(store).unwrap();
    let text = invite_text(0x22);

    let ticket = prepared(&mm, &text);
    // the parsed ticket carries the id the code was built from, and the
    // code's canonical text
    assert_eq!(ticket.federation_id.to_bytes(), vec![0x22u8; 32]);
    assert_eq!(ticket.invite_text, text.as_bytes().to_vec());

    let sel = match mm.join_federation(&ticket, "Test Federation", 7) {
        Ok(sel) => sel,
        Err(_) => panic!("join must succeed"),
    };
    assert!(sel.federation_id.same_as(&ticket.federation_id));

    let feds = mm.federations();
    assert_eq!(feds.len(), 1);
    assert_eq!(feds[0].federation_name, "Test Federation");
    assert!(feds[0].federation_id.same_as(&ticket.federation_id));

    // routing: the filed handle is the one the join filed
    assert!(mm.has_client(&ticket.federation_id));
    assert_eq!(mm.client(&ticket.federation_id), Some(&7));

    // a receive order passes the amount through with the standing expiry
    let req = mm.prepare_receive(&ticket.federation_id, 1000);
    assert_eq!(req.amount_msats, 1000);
    assert_eq!(req.expiry_secs, 86400);

    // polling the operation reaches a terminal state
    let mut op = PaymentOperation::new(OperationKind::Receive);
    assert_eq!(op.status, OperationStatus::Created);
    op.begin();
    assert_eq!(op.status, OperationStatus::Pending);
    assert!(!op.observe(LedgerEvent::StillPending));
    assert!(op.observe(LedgerEvent::Succeeded));
    assert_eq!(op.status, OperationStatus::Success);
    // terminal states absorb later observations
    op.observe(LedgerEvent::Failed);
    assert_eq!(op.status, OperationStatus::Success);
}

#[test]
fn restart_reloads_committed_memberships_only() {
    let store = KvStore::new();
    let (mut mm, _) = Multimint::<u32>::new(store).unwrap();
    let text = invite_text(0x33);
    let ticket = prepared(&mm, &text);
    mm.join_federation(&ticket, "Test Federation", 9).map_err(|_| ()).unwrap();
    let fingerprint_before = mm.federation_secret_fingerprint(&ticket.federation_id);

    // "restart": reopen a registry over the same committed store
    let store = mm.into_store();
    let (mut mm2, tasks) = Multimint::<u32>::new(store).unwrap();
    assert_eq!(tasks.len(), 1);
    assert!(tasks[0].federation_id.same_as(&ticket.federation_id));
    assert_eq!(tasks[0].invite_text, text.as_bytes().to_vec());

    // no handle exists before the client is rebuilt and registered
    assert!(!mm2.has_client(&ticket.federation_id));
    assert_eq!(mm2.client(&ticket.federation_id), None);
    mm2.register_client(&ticket.federation_id, 9).map_err(|_| ()).unwrap();
    assert!(mm2.has_client(&ticket.federation_id));

    // the reloaded root secret derives the same per-federation secret
    let fingerprint_after = mm2.federation_secret_fingerprint(&ticket.federation_id);
    assert_eq!(fingerprint_before, fingerprint_after);

    // a registration for a federation that was never joined is refused
    let other = prepared(&mm2, &invite_text(0x44));
    match mm2.register_client(&other.federation_id, 1) {
        Err(JoinError::ClientConstruction) => {}
        _ => panic!("an unjoined federation has no client to register"),
    }
    // a second handle for the same federation is refused
    match mm2.register_client(&ticket.federation_id, 9) {
        Err(JoinError::DuplicateFederation) => {}
        _ => panic!("a second handle must be refused"),
    }
}

#[test]
fn send_requires_a_parseable_invoice() {
    let store = KvStore::new();
    let (mut mm, _) = Multimint::<u32>::new(store).unwrap();
    let ticket = prepared(&mm, &invite_text(0x55));
    mm.join_federation(&ticket, "Test Federation", 3).map_err(|_| ()).unwrap();

    match mm.prepare_send(&ticket.federation_id, "not an invoice") {
        Err(multimint::registry::SendError::InvalidInvoice) => {}
        _ => panic!("garbage must be refused"),
    }
    // the canonical donation invoice parses
    let invoice = "lnbc25m1pvjluezpp5qqqsyqcyq5rqwzqfqqqsyqcyq5rqwzqfqqqsyqcyq5rqwzqfqypqdq5vdhkven9v5sxyetpdeessp5zyg3zyg3zyg3zyg3zyg3zyg3zyg3zyg3zyg3zyg3zyg3zyg3zygs9q5sqqqqqqqqqqqqqqqpqsq67gye39hfg3zd8rgc80k32tvy9xk2xunwm5lzexnvpx6fd77en8qaq424dxgt56cag2dpt359k3ssyhetktkpqh24jqnjyw6uqd08sgptq44qu";
    match mm.prepare_send(&ticket.federation_id, invoice) {
        Ok(_) => {}
        Err(_) => panic!("a valid invoice must be accepted"),
    }
}
