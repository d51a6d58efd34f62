use multimint::namespace::{config_key, config_prefix, root_secret_key, FederationId, Namespace};
use multimint::records::{decode_config, encode_config, Connector, FederationConfig};

#[test]
fn config_codec_round_trip() {
    let config = FederationConfig {
        invite_text: b"fed11qabc".to_vec(),
        connector: Connector::Tcp,
        federation_name: "Test Federation".as_bytes().to_vec(),
    };
    let bytes = encode_config(&config);
    let back = match decode_config(&bytes) {
        Some(c) => c,
        None => panic!("an encoded record must decode"),
    };
    assert_eq!(back.invite_text, config.invite_text);
    assert_eq!(back.connector, Connector::Tcp);
    assert_eq!(back.federation_name, config.federation_name);
}

#[test]
fn config_codec_layout() {
    let config = FederationConfig {
        invite_text: b"ab".to_vec(),
        connector: Connector::Tor,
        federation_name: b"n".to_vec(),
    };
    let bytes = encode_config(&config);
    // tag, eight big-endian length bytes, invite text, then the name
    assert_eq!(bytes, vec![1, 0, 0, 0, 0, 0, 0, 0, 2, b'a', b'b', b'n']);
}

#[test]
fn truncated_or_tagless_records_do_not_decode() {
    assert!(decode_config(&vec![]).is_none());
    assert!(decode_config(&vec![0; 8]).is_none());
    // unknown connector tag
    assert!(decode_config(&vec![9, 0, 0, 0, 0, 0, 0, 0, 0]).is_none());
    // the invite length runs past the end
    assert!(decode_config(&vec![0, 0, 0, 0, 0, 0, 0, 0, 5, b'a']).is_none());
}

#[test]
fn namespaced_views_are_isolated() {
    let f1 = FederationId::from_bytes(vec![1u8; 32]).unwrap();
    let f2 = FederationId::from_bytes(vec![2u8; 32]).unwrap();
    let ns1 = Namespace::for_client(&f1);
    let ns2 = Namespace::for_client(&f2);

    let mut store = multimint::kv::KvStore::new();
    let mut tx = store.begin_write();
    let k = b"slot".to_vec();
    assert_eq!(ns1.insert(&mut tx, &k, b"one".to_vec()), None);
    assert_eq!(ns2.insert(&mut tx, &k, b"two".to_vec()), None);
    // the same logical key lands in two disjoint physical slots
    assert_eq!(ns1.get(&tx, &k), Some(b"one".to_vec()));
    assert_eq!(ns2.get(&tx, &k), Some(b"two".to_vec()));
    tx.commit(&mut store).unwrap();
    assert_eq!(ns1.get_from_store(&store, &k), Some(b"one".to_vec()));
    assert_eq!(ns1.scan_from_store(&store).len(), 1);
    // the logical scan hands keys back with the prefix stripped
    assert_eq!(ns2.scan_logical(&store), vec![(b"slot".to_vec(), b"two".to_vec())]);
}

#[test]
fn keyspace_initialization_is_per_federation() {
    let store = multimint::kv::KvStore::new();
    let (mut mm, _) = multimint::registry::Multimint::<u32>::new(store).unwrap();
    let f1 = FederationId::from_bytes(vec![1u8; 32]).unwrap();
    let f2 = FederationId::from_bytes(vec![2u8; 32]).unwrap();
    assert!(!mm.keyspace_initialized(&f1));

    // write into one federation's private keyspace only
    let store = mm.into_store();
    let mut tx = store.begin_write();
    let ns1 = Namespace::for_client(&f1);
    ns1.insert(&mut tx, &b"init".to_vec(), b"1".to_vec());
    let mut store = store;
    tx.commit(&mut store).unwrap();
    let (mm, _) = multimint::registry::Multimint::<u32>::new(store).unwrap();
    assert!(mm.keyspace_initialized(&f1));
    assert!(!mm.keyspace_initialized(&f2));
}

#[test]
fn key_layout_is_disjoint() {
    let f1 = FederationId::from_bytes(vec![1u8; 32]).unwrap();
    let f2 = FederationId::from_bytes(vec![2u8; 32]).unwrap();

    let ck1 = config_key(&f1);
    assert_eq!(ck1.len(), 33);
    assert_eq!(ck1[0], 0x00);
    assert_eq!(&ck1[1..], &[1u8; 32][..]);
    assert_ne!(ck1, config_key(&f2));

    let ns1 = Namespace::for_client(&f1);
    let ns2 = Namespace::for_client(&f2);
    let k1 = ns1.make_key(&b"state".to_vec());
    let k2 = ns2.make_key(&b"state".to_vec());
    assert_eq!(k1[0], 0x01);
    assert_ne!(k1, k2);
    // no client key reaches the config namespace or the root secret
    assert!(!k1.starts_with(&config_prefix()));
    assert_ne!(k1, root_secret_key());
    // one federation's keys never sit under another's prefix
    let p2 = ns2.make_key(&Vec::new());
    assert!(!k1.starts_with(&p2[..]));
}
