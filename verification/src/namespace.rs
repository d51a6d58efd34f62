//! Key layout of the shared physical store, and the namespaced view.
//!
//! The flat keyspace holds three disjoint regions: the registry's config
//! records under the one-byte tag `0x00` followed by a federation id, each
//! federation's private client state under the tag `0x01` followed by its
//! id and an arbitrary tail, and one reserved key for the root secret.
//! Federation ids have a fixed width, so no region's key is a prefix of
//! another region's key.

use vstd::prelude::*;

use crate::kv::{kv_get, kv_insert, kv_matching_prefix, opt_bytes, recs_view, KvStore, Rec,
    WriteTransaction};
use crate::order::{concat_bytes, copy_bytes, copy_suffix, has_prefix, key_eq};

verus! {

/// Tag byte of the registry's config namespace.
pub const TAG_CONFIG: u8 = 0x00;

/// Tag byte of the per-federation client namespaces.
pub const TAG_CLIENT: u8 = 0x01;

/// Tag byte of the reserved root-secret record.
pub const TAG_ROOT_SECRET: u8 = 0x02;

/// Width of a federation id's canonical encoding, in bytes.
pub const FEDERATION_ID_LEN: usize = 32;

/// The stable identifier of a federation: the fixed-width canonical
/// encoding of its genesis configuration's hash.
pub struct FederationId {
    bytes: Vec<u8>,
}

impl FederationId {
    /// The id's canonical encoding.
    pub closed spec fn view(&self) -> Seq<u8> {
        self.bytes@
    }

    /// The encoding has its fixed width.
    pub open spec fn wf(&self) -> bool {
        self.view().len() == FEDERATION_ID_LEN
    }

    /// Wraps a canonical encoding; anything of the wrong width is refused.
    pub fn from_bytes(bytes: Vec<u8>) -> (r: Option<FederationId>)
        ensures
            match r {
                Some(fid) => fid.wf() && fid@ == bytes@,
                None => bytes@.len() != FEDERATION_ID_LEN,
            },
    {
        if bytes.len() == FEDERATION_ID_LEN {
            Some(FederationId { bytes })
        } else {
            None
        }
    }

    /// The canonical encoding, copied out.
    pub fn to_bytes(&self) -> (r: Vec<u8>)
        ensures
            r@ == self@,
    {
        copy_bytes(&self.bytes)
    }

    /// A second handle to the same id.
    pub fn clone_id(&self) -> (r: FederationId)
        ensures
            r@ == self@,
    {
        FederationId { bytes: copy_bytes(&self.bytes) }
    }

    /// Two ids are the same exactly when their encodings agree.
    pub fn same_as(&self, other: &FederationId) -> (r: bool)
        ensures
            r == (self@ == other@),
    {
        key_eq(&self.bytes, &other.bytes)
    }
}

/// The key of a federation's config record.
pub open spec fn config_key_spec(fid: Seq<u8>) -> Seq<u8> {
    seq![TAG_CONFIG] + fid
}

/// The prefix under which the registry's config records live.
pub open spec fn config_prefix_spec() -> Seq<u8> {
    seq![TAG_CONFIG]
}

/// The prefix of a federation's private keyspace.
pub open spec fn client_prefix_spec(fid: Seq<u8>) -> Seq<u8> {
    seq![TAG_CLIENT] + fid
}

/// A key inside a federation's private keyspace.
pub open spec fn client_key_spec(fid: Seq<u8>, tail: Seq<u8>) -> Seq<u8> {
    client_prefix_spec(fid) + tail
}

/// The reserved key of the root-secret record.
pub open spec fn root_secret_key_spec() -> Seq<u8> {
    seq![TAG_ROOT_SECRET]
}

/// The key of a federation's config record.
pub fn config_key(fid: &FederationId) -> (r: Vec<u8>)
    ensures
        r@ == config_key_spec(fid@),
{
    let mut r: Vec<u8> = Vec::new();
    r.push(TAG_CONFIG);
    let r = concat_bytes(&r, &fid.to_bytes());
    proof {
        assert(r@ =~= config_key_spec(fid@));
    }
    r
}

/// The prefix under which the registry's config records live.
pub fn config_prefix() -> (r: Vec<u8>)
    ensures
        r@ == config_prefix_spec(),
{
    let mut r: Vec<u8> = Vec::new();
    r.push(TAG_CONFIG);
    proof {
        assert(r@ =~= config_prefix_spec());
    }
    r
}

/// The reserved key of the root-secret record.
pub fn root_secret_key() -> (r: Vec<u8>)
    ensures
        r@ == root_secret_key_spec(),
{
    let mut r: Vec<u8> = Vec::new();
    r.push(TAG_ROOT_SECRET);
    proof {
        assert(r@ =~= root_secret_key_spec());
    }
    r
}

/// A logical partition of the store: a fixed prefix put before every key on
/// the way in and taken off again on the way out, so that each tenant sees
/// an isolated flat keyspace inside the one physical store.
pub struct Namespace {
    prefix: Vec<u8>,
}

impl Namespace {
    /// The fixed prefix.
    pub closed spec fn view(&self) -> Seq<u8> {
        self.prefix@
    }

    /// The registry's config namespace.
    pub fn for_config() -> (r: Namespace)
        ensures
            r@ == config_prefix_spec(),
    {
        Namespace { prefix: config_prefix() }
    }

    /// A federation's private namespace.
    pub fn for_client(fid: &FederationId) -> (r: Namespace)
        ensures
            r@ == client_prefix_spec(fid@),
    {
        let mut p: Vec<u8> = Vec::new();
        p.push(TAG_CLIENT);
        let p = concat_bytes(&p, &fid.to_bytes());
        proof {
            assert(p@ =~= client_prefix_spec(fid@));
        }
        Namespace { prefix: p }
    }

    /// The physical key of a logical key.
    pub fn make_key(&self, key: &Vec<u8>) -> (r: Vec<u8>)
        ensures
            r@ == self@ + key@,
    {
        concat_bytes(&self.prefix, key)
    }

    /// Upserts a logical record through a transaction.
    pub fn insert(&self, tx: &mut WriteTransaction, key: &Vec<u8>, value: Vec<u8>) -> (r:
        Option<Vec<u8>>)
        requires
            old(tx).wf(),
        ensures
            final(tx).wf(),
            final(tx).view() == kv_insert(old(tx).view(), self@ + key@, value@),
            opt_bytes(r) == kv_get(old(tx).view(), self@ + key@),
            final(tx).savepoint_view() == old(tx).savepoint_view(),
    {
        let full = self.make_key(key);
        tx.insert(&full, value)
    }

    /// Reads a logical record through a transaction.
    pub fn get(&self, tx: &WriteTransaction, key: &Vec<u8>) -> (r: Option<Vec<u8>>)
        requires
            tx.wf(),
        ensures
            opt_bytes(r) == kv_get(tx.view(), self@ + key@),
    {
        let full = self.make_key(key);
        tx.get(&full)
    }

    /// Reads a logical record from the committed state.
    pub fn get_from_store(&self, store: &KvStore, key: &Vec<u8>) -> (r: Option<Vec<u8>>)
        requires
            store.wf(),
        ensures
            opt_bytes(r) == kv_get(store.view(), self@ + key@),
    {
        let full = self.make_key(key);
        store.get(&full)
    }

    /// All committed records of this namespace, ascending by key, with the
    /// prefix still on the keys.
    pub fn scan_from_store(&self, store: &KvStore) -> (r: Vec<(Vec<u8>, Vec<u8>)>)
        requires
            store.wf(),
        ensures
            recs_view(r@) == kv_matching_prefix(store.view(), self@),
    {
        store.scan_prefix(&self.prefix)
    }

    /// All committed records of this namespace, ascending, under their
    /// logical keys: the prefix is stripped on the way out.
    #[verifier::loop_isolation(false)]
    pub fn scan_logical(&self, store: &KvStore) -> (r: Vec<(Vec<u8>, Vec<u8>)>)
        requires
            store.wf(),
        ensures
            recs_view(r@) == strip_keys(kv_matching_prefix(store.view(), self@), self@.len() as int),
    {
        let full = store.scan_prefix(&self.prefix);
        let ghost matching = kv_matching_prefix(store.view(), self@);
        let ghost target = strip_keys(matching, self@.len() as int);
        let plen = self.prefix.len();
        let n = full.len();
        let mut r: Vec<(Vec<u8>, Vec<u8>)> = Vec::new();
        let mut i: usize = 0;
        proof {
            assert(recs_view(r@) =~= target.take(0));
        }
        while i < n
            invariant
                n == full@.len(),
                i <= n,
                plen == self@.len(),
                matching == recs_view(full@),
                target == strip_keys(matching, plen as int),
                recs_view(r@) == target.take(i as int),
            decreases n - i,
        {
            proof {
                Seq::lemma_filter_pred(store.view(), |p: Rec| has_prefix(p.0, self@), i as int);
                assert(has_prefix(matching[i as int].0, self@));
            }
            let k = copy_suffix(&full[i].0, plen);
            let v = copy_bytes(&full[i].1);
            r.push((k, v));
            proof {
                assert(recs_view(r@) =~= target.take(i as int).push(target[i as int]));
                assert(target.take(i as int + 1) =~= target.take(i as int).push(
                    target[i as int],
                ));
            }
            i = i + 1;
        }
        proof {
            assert(target.take(n as int) =~= target);
        }
        r
    }
}

/// The records with `n` bytes taken off the front of every key.
pub open spec fn strip_keys(s: Seq<Rec>, n: int) -> Seq<Rec> {
    s.map_values(|p: Rec| (p.0.skip(n), p.1))
}

/// Keyspace disjointness: keys of distinct federations' namespaces never
/// collide or prefix one another, and neither reaches the config namespace
/// or the root-secret record.
pub proof fn lemma_namespace_disjoint(f1: Seq<u8>, f2: Seq<u8>, t1: Seq<u8>, t2: Seq<u8>)
    requires
        f1.len() == FEDERATION_ID_LEN,
        f2.len() == FEDERATION_ID_LEN,
        f1 != f2,
    ensures
        client_key_spec(f1, t1) != client_key_spec(f2, t2),
        !has_prefix(client_key_spec(f1, t1), client_prefix_spec(f2)),
        config_key_spec(f1) != config_key_spec(f2),
        !has_prefix(client_key_spec(f1, t1), config_prefix_spec()),
        !has_prefix(config_key_spec(f1), client_prefix_spec(f2)),
        client_key_spec(f1, t1) != root_secret_key_spec(),
        config_key_spec(f1) != root_secret_key_spec(),
{
    let n = FEDERATION_ID_LEN as int;
    let k1 = client_key_spec(f1, t1);
    let p2 = client_prefix_spec(f2);
    assert(!has_prefix(k1, p2)) by {
        if has_prefix(k1, p2) {
            assert forall|i: int| 0 <= i < n implies f1[i] == f2[i] by {
                assert(k1.subrange(0, 1 + n)[i + 1] == p2[i + 1]);
            }
            assert(f1 =~= f2);
        }
    }
    assert(k1 != client_key_spec(f2, t2)) by {
        if k1 == client_key_spec(f2, t2) {
            assert forall|i: int| 0 <= i < n implies f1[i] == f2[i] by {
                assert(k1[i + 1] == client_key_spec(f2, t2)[i + 1]);
            }
            assert(f1 =~= f2);
        }
    }
    assert(config_key_spec(f1) != config_key_spec(f2)) by {
        if config_key_spec(f1) == config_key_spec(f2) {
            assert forall|i: int| 0 <= i < n implies f1[i] == f2[i] by {
                assert(config_key_spec(f1)[i + 1] == config_key_spec(f2)[i + 1]);
            }
            assert(f1 =~= f2);
        }
    }
    assert(!has_prefix(k1, config_prefix_spec())) by {
        if has_prefix(k1, config_prefix_spec()) {
            assert(k1.subrange(0, 1)[0] == TAG_CONFIG);
            assert(k1[0] == TAG_CLIENT);
        }
    }
    assert(!has_prefix(config_key_spec(f1), client_prefix_spec(f2))) by {
        if has_prefix(config_key_spec(f1), client_prefix_spec(f2)) {
            assert(config_key_spec(f1).subrange(0, 1 + n)[0] == TAG_CLIENT);
            assert(config_key_spec(f1)[0] == TAG_CONFIG);
        }
    }
    assert(k1 != root_secret_key_spec()) by {
        if k1 == root_secret_key_spec() {
            assert(k1[0] == TAG_CLIENT && root_secret_key_spec()[0] == TAG_ROOT_SECRET);
        }
    }
    assert(config_key_spec(f1) != root_secret_key_spec()) by {
        if config_key_spec(f1) == root_secret_key_spec() {
            assert(config_key_spec(f1)[0] == TAG_CONFIG);
            assert(root_secret_key_spec()[0] == TAG_ROOT_SECRET);
        }
    }
}

} // verus!
