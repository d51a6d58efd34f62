use multimint::kv::KvStore;
use multimint::namespace::{root_secret_key, FederationId};
use multimint::secrets::Vault;

fn vault_over(tx: &mut multimint::kv::WriteTransaction) -> Vault {
    match Vault::load_or_create(tx) {
        Ok(v) => v,
        Err(_) => panic!("the vault must load"),
    }
}

#[test]
fn derivation_is_deterministic_and_ids_are_independent() {
    let store = KvStore::new();
    let mut tx = store.begin_write();
    // fix the root entropy so the vectors are stable
    tx.insert(&root_secret_key(), vec![0x42u8; 16]);
    let vault = vault_over(&mut tx);
    assert_eq!(vault.entropy(), vec![0x42u8; 16]);

    let f1 = FederationId::from_bytes(vec![1u8; 32]).unwrap();
    let f2 = FederationId::from_bytes(vec![2u8; 32]).unwrap();

    let fp1 = vault.federation_secret_fingerprint(&f1);
    let fp1_again = vault.federation_secret_fingerprint(&f1);
    assert_eq!(fp1, fp1_again);

    // a second vault over the same entropy derives the same secrets
    let vault2 = vault_over(&mut tx);
    assert_eq!(vault2.federation_secret_fingerprint(&f1), fp1);

    // distinct federation ids derive distinct secrets
    let fp2 = vault.federation_secret_fingerprint(&f2);
    assert_ne!(fp1, fp2);
}

#[test]
fn first_run_creates_then_always_reloads() {
    let mut store = KvStore::new();
    let mut tx = store.begin_write();
    assert_eq!(tx.get(&root_secret_key()), None);
    let vault = vault_over(&mut tx);
    let entropy = vault.entropy();
    assert_eq!(entropy.len(), 16);
    assert_eq!(tx.get(&root_secret_key()), Some(entropy.clone()));
    tx.commit(&mut store).unwrap();

    // after the commit, loading returns the stored secret, never a fresh one
    let mut tx2 = store.begin_write();
    let vault2 = vault_over(&mut tx2);
    assert_eq!(vault2.entropy(), entropy);
}

#[test]
fn corrupt_root_record_is_refused() {
    let store = KvStore::new();
    let mut tx = store.begin_write();
    tx.insert(&root_secret_key(), vec![0x42u8; 3]);
    assert!(Vault::load_or_create(&mut tx).is_err());
}

#[test]
fn every_whole_word_entropy_width_loads() {
    for width in [16usize, 20, 24, 28, 32] {
        let store = KvStore::new();
        let mut tx = store.begin_write();
        tx.insert(&root_secret_key(), vec![0x42u8; width]);
        let vault = vault_over(&mut tx);
        assert_eq!(vault.entropy(), vec![0x42u8; width]);
    }
    // a width no phrase can encode is corruption
    let store = KvStore::new();
    let mut tx = store.begin_write();
    tx.insert(&root_secret_key(), vec![0x42u8; 18]);
    assert!(Vault::load_or_create(&mut tx).is_err());
}

#[test]
fn mismatched_id_width_is_refused() {
    assert!(FederationId::from_bytes(vec![1u8; 31]).is_none());
    assert!(FederationId::from_bytes(vec![1u8; 33]).is_none());
    let fid = FederationId::from_bytes(vec![7u8; 32]).unwrap();
    assert_eq!(fid.to_bytes(), vec![7u8; 32]);
    assert!(fid.same_as(&fid.clone_id()));
}
