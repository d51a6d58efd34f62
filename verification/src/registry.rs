//! The federation registry: the tenancy manager over one shared store.
//!
//! Membership is a config record in the store's config namespace, one per
//! federation id; the in-memory client map holds a live handle for a joined
//! federation once its client has been built.  Durability rests on the
//! committed record alone: a handle in memory without a committed record
//! never survives a restart.  Joining is idempotent-rejecting: a second
//! join of the same federation fails and writes nothing.
//!
//! Building a client and downloading a federation's configuration are the
//! outside collaborator's asynchronous work.  The registry decides and
//! records: `prepare_join` parses and rules, the caller downloads and
//! builds, `join_federation` persists and files the handle; at startup,
//! `new` loads the root secret and lists the committed memberships for the
//! caller to rebuild, one `register_client` per success, so one federation
//! failing to rebuild leaves the rest standing.

use vstd::prelude::*;

use bip39::Mnemonic;
use fedimint_core::invite_code::InviteCode;
use fedimint_derive_secret::DerivableSecret;
use lightning_invoice::Bolt11Invoice;

use crate::invite::{bolt11_of, invite_code_text, invite_federation_id_bytes, invite_of,
    invite_fid_of, invite_text_of, parse_bolt11_invoice, parse_invite_code};
use crate::kv::{kv_contains, kv_get, kv_insert, kv_matching_prefix, lemma_kv_insert_filter,
    lemma_kv_insert_filter_match, lemma_kv_insert_props, KvStore, Rec, StorageError, recs_view};
use crate::namespace::{client_prefix_spec, config_key, config_key_spec, config_prefix_spec,
    root_secret_key_spec, FederationId, Namespace};
use crate::order::{copy_bytes, copy_suffix, has_prefix};
use crate::records::{decode_config, decode_config_spec, encode_config, encode_config_spec,
    lemma_config_round_trip, Connector, FederationConfig};
use crate::secrets::{derived_secret_spec, mnemonic_of, secret_fingerprint, valid_entropy_len,
    Vault};
use crate::text::{bytes_to_string_lossy, str_to_bytes, utf8_bytes_of, utf8_lossy_of};
use vstd::string::StringExecFns;

verus! {

/// Why a join failed.
#[derive(Clone, Copy, PartialEq, Eq, Structural, Debug)]
pub enum JoinError {
    /// The invite code's text does not parse.
    InvalidInviteCode,
    /// A config record for this federation is already committed.
    DuplicateFederation,
    /// The federation's configuration could not be downloaded.
    NetworkDownload,
    /// The client could not be opened or joined.
    ClientConstruction,
    /// The store failed.
    Storage,
}

/// Why a send failed before reaching the client.
#[derive(Clone, Copy, PartialEq, Eq, Structural, Debug)]
pub enum SendError {
    /// The invoice's text does not parse.
    InvalidInvoice,
}

/// What a caller sees of one joined federation.
pub struct FederationSelector {
    pub federation_name: String,
    pub federation_id: FederationId,
}

/// A ruled-on join: the parsed code, its federation id, and the code's
/// canonical text, ready to download with and to persist.
pub struct JoinTicket {
    pub federation_id: FederationId,
    pub invite: InviteCode,
    pub invite_text: Vec<u8>,
}

/// One committed membership to rebuild a client for at startup.
pub struct ReloadTask {
    pub federation_id: FederationId,
    pub invite_text: Vec<u8>,
    pub connector: Connector,
}

/// A validated send, ready to hand to the federation's client.
pub struct SendRequest {
    pub invoice: Bolt11Invoice,
}

/// A receive order, ready to hand to the federation's client.
pub struct ReceiveRequest {
    pub amount_msats: u64,
    pub expiry_secs: u32,
}

/// How long an issued invoice stays payable.
pub const DEFAULT_EXPIRY_TIME_SECS: u32 = 86400;

/// Every config record parses and carries a full-width federation id in its
/// key.
pub open spec fn wf_configs(s: Seq<Rec>) -> bool {
    forall|i: int|
        0 <= i < s.len() && has_prefix((#[trigger] s[i]).0, config_prefix_spec()) ==> s[i].0.len()
            == 33 && decode_config_spec(s[i].1) is Some
}

/// A store state the registry can start from: config records parse, and a
/// root-secret record, if present, holds entropy of a width a phrase can
/// encode.
pub open spec fn store_loadable(s: Seq<Rec>) -> bool {
    &&& wf_configs(s)
    &&& match kv_get(s, root_secret_key_spec()) {
        Some(e) => valid_entropy_len(e.len()),
        None => true,
    }
}

/// One startup task describes one config record.
pub open spec fn task_matches(t: ReloadTask, rec: Rec) -> bool {
    &&& t.federation_id@ == rec.0.skip(1)
    &&& t.federation_id.wf()
    &&& match decode_config_spec(rec.1) {
        Some(f) => t.invite_text@ == f.0 && t.connector == f.1,
        None => false,
    }
}

/// The registry: the store, the vault, and the live client map.  The handle
/// type `C` is the caller's; the registry never looks inside one.
pub struct Multimint<C> {
    store: KvStore,
    vault: Vault,
    clients: Vec<(FederationId, C)>,
}

impl<C> Multimint<C> {
    /// The committed records.
    pub closed spec fn store_view(&self) -> Seq<Rec> {
        self.store.view()
    }

    /// The root phrase's entropy.
    pub closed spec fn vault_view(&self) -> Seq<u8> {
        self.vault@
    }

    /// The root phrase.
    pub closed spec fn vault_mnemonic(&self) -> Mnemonic {
        self.vault.mnemonic()
    }

    /// The live client map, in insertion order.
    pub closed spec fn clients_view(&self) -> Seq<(FederationId, C)> {
        self.clients@
    }

    /// A config record for this federation id is committed.
    pub open spec fn joined(&self, fid: Seq<u8>) -> bool {
        kv_contains(self.store_view(), config_key_spec(fid))
    }

    /// A live handle for this federation id is filed.
    pub open spec fn has_client_spec(&self, fid: Seq<u8>) -> bool {
        exists|i: int|
            0 <= i < self.clients_view().len() && (#[trigger] self.clients_view()[i]).0@ == fid
    }

    /// The committed config records, ascending by key.
    pub open spec fn config_records(&self) -> Seq<Rec> {
        kv_matching_prefix(self.store_view(), config_prefix_spec())
    }

    /// The registry's invariant: the store is sorted and its config records
    /// parse; filed client handles carry full-width, pairwise distinct ids;
    /// and a handle exists only for a committed membership.
    pub closed spec fn wf(&self) -> bool {
        &&& self.store.wf()
        &&& wf_configs(self.store.view())
        &&& forall|i: int|
            0 <= i < self.clients@.len() ==> (#[trigger] self.clients@[i]).0.wf()
        &&& forall|i: int, j: int|
            0 <= i < j < self.clients@.len() ==> self.clients@[i].0@ != self.clients@[j].0@
        &&& forall|i: int|
            0 <= i < self.clients@.len() ==> kv_contains(
                self.store.view(),
                config_key_spec((#[trigger] self.clients@[i]).0@),
            )
    }

    /// Opens the registry on a store: loads or creates the root secret in
    /// one committed transaction, and lists every committed membership for
    /// the caller to rebuild a client from.  It succeeds on exactly the
    /// loadable stores: a storage corruption is fatal at startup, and a
    /// committed root secret is reloaded as the same entropy and the
    /// byte-identical phrase, never regenerated.
    #[verifier::loop_isolation(false)]
    pub fn new(store: KvStore) -> (r: Result<(Multimint<C>, Vec<ReloadTask>), StorageError>)
        requires
            store.wf(),
        ensures
            r is Ok <==> store_loadable(store.view()),
            match r {
                Ok(p) => {
                    &&& p.0.wf()
                    &&& p.0.clients_view().len() == 0
                    &&& p.0.store_view() == match kv_get(
                        store.view(),
                        root_secret_key_spec(),
                    ) {
                        Some(_) => store.view(),
                        None => kv_insert(
                            store.view(),
                            root_secret_key_spec(),
                            p.0.vault_view(),
                        ),
                    }
                    &&& match kv_get(store.view(), root_secret_key_spec()) {
                        Some(e) => p.0.vault_view() == e,
                        None => p.0.vault_view().len() == 16,
                    }
                    &&& p.0.vault_mnemonic() == mnemonic_of(p.0.vault_view())
                    &&& forall|fid: Seq<u8>|
                        #[trigger] p.0.joined(fid) == kv_contains(
                            store.view(),
                            config_key_spec(fid),
                        )
                    &&& p.1@.len() == kv_matching_prefix(
                        store.view(),
                        config_prefix_spec(),
                    ).len()
                    &&& forall|i: int|
                        0 <= i < p.1@.len() ==> task_matches(
                            #[trigger] p.1@[i],
                            kv_matching_prefix(store.view(), config_prefix_spec())[i],
                        )
                },
                Err(_) => true,
            },
    {
        let mut store = store;
        let ghost orig = store.view();
        let ghost pred = |p: Rec| has_prefix(p.0, config_prefix_spec());
        let ghost matching = kv_matching_prefix(orig, config_prefix_spec());
        let mut tx = store.begin_write();
        let vault = match Vault::load_or_create(&mut tx) {
            Ok(v) => v,
            Err(e) => {
                return Err(e);
            },
        };
        match tx.commit(&mut store) {
            Ok(()) => {},
            Err(e) => {
                proof {
                    assert(false);
                }
                return Err(e);
            },
        }
        proof {
            if kv_get(orig, root_secret_key_spec()) is None {
                lemma_kv_insert_props(orig, root_secret_key_spec(), vault@);
                assert(!kv_contains(orig, root_secret_key_spec()));
                assert(!pred((root_secret_key_spec(), vault@))) by {
                    if has_prefix(root_secret_key_spec(), config_prefix_spec()) {
                        assert(root_secret_key_spec().subrange(0, 1)[0]
                            == config_prefix_spec()[0]);
                    }
                }
                lemma_kv_insert_filter(orig, root_secret_key_spec(), vault@, pred);
            }
            assert(kv_matching_prefix(store.view(), config_prefix_spec()) == matching);
        }
        let ns = Namespace::for_config();
        let recs = ns.scan_from_store(&store);
        proof {
            crate::kv::lemma_filter_sorted(orig, pred);
        }
        let mut tasks: Vec<ReloadTask> = Vec::new();
        let n = recs.len();
        let mut i: usize = 0;
        while i < n
            invariant
                i <= n,
                tasks@.len() == i,
                forall|j: int|
                    0 <= j < i ==> task_matches(#[trigger] tasks@[j], matching[j])
                        && matching[j].0.len() == 33 && decode_config_spec(matching[j].1)
                        is Some,
            decreases n - i,
        {
            proof {
                Seq::lemma_filter_pred(orig, pred, i as int);
                assert(matching.contains(matching[i as int]));
                assert(orig.contains(matching[i as int]));
                assert(recs_view(recs@)[i as int] == (recs@[i as int].0@, recs@[i as int].1@));
            }
            if recs[i].0.len() != 33 {
                proof {
                    let j = choose|j: int| 0 <= j < orig.len() && orig[j] == matching[i as int];
                    assert(has_prefix(orig[j].0, config_prefix_spec()));
                    assert(!wf_configs(orig));
                }
                return Err(StorageError::Corrupted);
            }
            let fid_bytes = copy_suffix(&recs[i].0, 1);
            let fid = match FederationId::from_bytes(fid_bytes) {
                Some(f) => f,
                None => {
                    proof {
                        assert(false);
                    }
                    return Err(StorageError::Corrupted);
                },
            };
            let config = match decode_config(&recs[i].1) {
                Some(c) => c,
                None => {
                    proof {
                        let j = choose|j: int| 0 <= j < orig.len() && orig[j] == matching[i as int];
                        assert(has_prefix(orig[j].0, config_prefix_spec()));
                        assert(!wf_configs(orig));
                    }
                    return Err(StorageError::Corrupted);
                },
            };
            let task = ReloadTask {
                federation_id: fid,
                invite_text: config.invite_text,
                connector: config.connector,
            };
            tasks.push(task);
            i = i + 1;
        }
        let mm = Multimint { store, vault, clients: Vec::new() };
        proof {
            let s = mm.store.view();
            assert(wf_configs(s)) by {
                assert forall|ii: int|
                    0 <= ii < s.len() && has_prefix((#[trigger] s[ii]).0, config_prefix_spec())
                    implies s[ii].0.len() == 33 && decode_config_spec(s[ii].1) is Some by {
                    Seq::lemma_filter_contains(s, pred, ii);
                    assert(kv_matching_prefix(s, config_prefix_spec()).contains(s[ii]));
                    assert(matching.contains(s[ii]));
                    let j = choose|j: int| 0 <= j < matching.len() && matching[j] == s[ii];
                    assert(task_matches(tasks@[j], matching[j]));
                }
            }
            // reaching this point means the given store was loadable
            assert(wf_configs(orig)) by {
                assert forall|ii: int|
                    0 <= ii < orig.len() && has_prefix(
                        (#[trigger] orig[ii]).0,
                        config_prefix_spec(),
                    ) implies orig[ii].0.len() == 33 && decode_config_spec(orig[ii].1)
                    is Some by {
                    Seq::lemma_filter_contains(orig, pred, ii);
                    assert(matching.contains(orig[ii]));
                    let j = choose|j: int| 0 <= j < matching.len() && matching[j] == orig[ii];
                    assert(task_matches(tasks@[j], matching[j]));
                }
            }
            assert(store_loadable(orig));
            assert forall|fid: Seq<u8>|
                #[trigger] mm.joined(fid) == kv_contains(orig, config_key_spec(fid)) by {
                if kv_get(orig, root_secret_key_spec()) is None {
                    lemma_kv_insert_props(orig, root_secret_key_spec(), vault@);
                    assert(config_key_spec(fid)[0] == 0u8);
                    assert(root_secret_key_spec()[0] == 2u8);
                    assert(config_key_spec(fid) != root_secret_key_spec());
                }
            }
        }
        Ok((mm, tasks))
    }

    /// The vault's derived secret for one federation: what the caller opens
    /// or joins that federation's client with.
    pub fn federation_secret(&self, federation_id: &FederationId) -> (r: DerivableSecret)
        requires
            federation_id.wf(),
        ensures
            r == derived_secret_spec(self.vault_mnemonic(), federation_id@),
    {
        self.vault.derive_federation_secret(federation_id)
    }

    /// The 32-byte fingerprint of a federation's derived secret.
    pub fn federation_secret_fingerprint(&self, federation_id: &FederationId) -> (r: Vec<u8>)
        requires
            federation_id.wf(),
        ensures
            r@ == secret_fingerprint(derived_secret_spec(self.vault_mnemonic(), federation_id@)),
            r@.len() == 32,
    {
        self.vault.federation_secret_fingerprint(federation_id)
    }

    /// Parses an invite code and rules on the join: a code that does not
    /// parse, or has no canonical text to persist, is refused as invalid,
    /// and a federation whose config record is already committed is refused
    /// as a duplicate — exactly then.
    pub fn prepare_join(&self, invite_code: &str) -> (r: Result<JoinTicket, JoinError>)
        requires
            self.wf(),
        ensures
            match r {
                Ok(t) => {
                    &&& invite_of(invite_code@) == Some(t.invite)
                    &&& t.federation_id@ == invite_fid_of(t.invite)
                    &&& t.federation_id.wf()
                    &&& invite_text_of(t.invite) is Some
                    &&& t.invite_text@ == utf8_bytes_of(invite_text_of(t.invite)->Some_0)
                    &&& !self.joined(t.federation_id@)
                },
                Err(JoinError::InvalidInviteCode) => match invite_of(invite_code@) {
                    None => true,
                    Some(ic) => !self.joined(invite_fid_of(ic)) && invite_text_of(ic)
                        is None,
                },
                Err(JoinError::DuplicateFederation) => match invite_of(invite_code@) {
                    Some(ic) => self.joined(invite_fid_of(ic)),
                    None => false,
                },
                Err(_) => false,
            },
    {
        let ic = match parse_invite_code(invite_code) {
            Some(ic) => ic,
            None => {
                return Err(JoinError::InvalidInviteCode);
            },
        };
        let fid_bytes = invite_federation_id_bytes(&ic);
        let fid = match FederationId::from_bytes(fid_bytes) {
            Some(f) => f,
            None => {
                proof {
                    assert(false);
                }
                return Err(JoinError::InvalidInviteCode);
            },
        };
        let ck = config_key(&fid);
        match self.store.get(&ck) {
            Some(_) => Err(JoinError::DuplicateFederation),
            None => {
                let text = match invite_code_text(&ic) {
                    Some(text) => text,
                    None => {
                        return Err(JoinError::InvalidInviteCode);
                    },
                };
                let invite_text = str_to_bytes(text.as_str());
                Ok(JoinTicket { federation_id: fid, invite: ic, invite_text })
            },
        }
    }

    /// Commits the membership a ruled-on join described, and files the
    /// freshly built client's handle.  Exactly one config record is added;
    /// a membership committed in between is refused as a duplicate, and
    /// then nothing changes.  The handle is visible in memory before the
    /// record is durable; durability rests on the committed record alone.
    pub fn join_federation(
        &mut self,
        ticket: &JoinTicket,
        federation_name: &str,
        client: C,
    ) -> (r: Result<FederationSelector, JoinError>)
        requires
            old(self).wf(),
            ticket.federation_id.wf(),
        ensures
            final(self).wf(),
            final(self).vault_mnemonic() == old(self).vault_mnemonic(),
            match r {
                Ok(sel) => {
                    &&& !old(self).joined(ticket.federation_id@)
                    &&& final(self).store_view() == kv_insert(
                        old(self).store_view(),
                        config_key_spec(ticket.federation_id@),
                        encode_config_spec(
                            ticket.invite_text@,
                            Connector::Tcp,
                            utf8_bytes_of(federation_name@),
                        ),
                    )
                    &&& final(self).joined(ticket.federation_id@)
                    &&& forall|f2: Seq<u8>|
                        f2 != ticket.federation_id@ ==> #[trigger] final(self).joined(f2)
                            == old(self).joined(f2)
                    &&& final(self).config_records().len() == old(self).config_records().len() + 1
                    &&& final(self).config_records() == kv_insert(
                        old(self).config_records(),
                        config_key_spec(ticket.federation_id@),
                        encode_config_spec(
                            ticket.invite_text@,
                            Connector::Tcp,
                            utf8_bytes_of(federation_name@),
                        ),
                    )
                    &&& final(self).has_client_spec(ticket.federation_id@)
                    &&& final(self).clients_view().len() == old(self).clients_view().len()
                        + 1
                    &&& forall|j: int|
                        0 <= j < old(self).clients_view().len() ==> #[trigger] final(self).clients_view()[j] == old(self).clients_view()[j]
                    &&& final(self).clients_view().last().0@ == ticket.federation_id@
                    &&& final(self).clients_view().last().1 == client
                    &&& sel.federation_id@ == ticket.federation_id@
                    &&& sel.federation_name@ == federation_name@
                },
                Err(e) => {
                    &&& e == JoinError::DuplicateFederation
                    &&& old(self).joined(ticket.federation_id@)
                    &&& final(self).store_view() == old(self).store_view()
                    &&& final(self).clients_view() == old(self).clients_view()
                },
            },
    {
        let ck = config_key(&ticket.federation_id);
        match self.store.get(&ck) {
            Some(_) => Err(JoinError::DuplicateFederation),
            None => {
                let ghost orig = self.store.view();
                let invite_len = ticket.invite_text.len();
                proof {
                    assert(ticket.invite_text@.len() == invite_len);
                }
                let name_bytes = str_to_bytes(federation_name);
                let config = FederationConfig {
                    invite_text: copy_bytes(&ticket.invite_text),
                    connector: Connector::Tcp,
                    federation_name: name_bytes,
                };
                let value = encode_config(&config);
                let mut tx = self.store.begin_write();
                tx.insert(&ck, value);
                self.clients.push((ticket.federation_id.clone_id(), client));
                match tx.commit(&mut self.store) {
                    Ok(()) => {},
                    Err(_) => {
                        proof {
                            assert(false);
                        }
                        return Err(JoinError::Storage);
                    },
                }
                let sel = FederationSelector {
                    federation_name: String::from_str(federation_name),
                    federation_id: ticket.federation_id.clone_id(),
                };
                proof {
                    let fid = ticket.federation_id@;
                    let ckv = config_key_spec(fid);
                    let rec = encode_config_spec(
                        ticket.invite_text@,
                        Connector::Tcp,
                        utf8_bytes_of(federation_name@),
                    );
                    lemma_kv_insert_props(orig, ckv, rec);
                    let pred = |p: Rec| has_prefix(p.0, config_prefix_spec());
                    assert(pred((ckv, rec))) by {
                        assert(ckv.subrange(0, 1) =~= config_prefix_spec());
                    }
                    lemma_kv_insert_filter(orig, ckv, rec, pred);
                    lemma_kv_insert_filter_match(orig, ckv, rec, pred);
                    assert(ticket.invite_text@.len() <= u64::MAX);
                    lemma_config_round_trip(
                        ticket.invite_text@,
                        Connector::Tcp,
                        utf8_bytes_of(federation_name@),
                    );
                    let s = self.store.view();
                    assert(wf_configs(s)) by {
                        assert forall|ii: int|
                            0 <= ii < s.len() && has_prefix(
                                (#[trigger] s[ii]).0,
                                config_prefix_spec(),
                            ) implies s[ii].0.len() == 33 && decode_config_spec(s[ii].1)
                            is Some by {
                            if s[ii] != (ckv, rec) {
                                assert(orig.contains(s[ii]));
                                let j = choose|j: int|
                                    0 <= j < orig.len() && orig[j] == s[ii];
                                assert(wf_configs(orig));
                            } else {
                                assert(ckv.len() == 33);
                            }
                        }
                    }
                    // no handle was filed: a handle would mean a committed record
                    assert(!old(self).has_client_spec(fid)) by {
                        if old(self).has_client_spec(fid) {
                            let i = choose|i: int|
                                0 <= i < old(self).clients_view().len() && (#[trigger] old(
                                    self,
                                ).clients_view()[i]).0@ == fid;
                            assert(kv_contains(orig, config_key_spec(fid)));
                        }
                    }
                    // other federations are untouched: distinct ids give
                    // distinct config keys
                    assert forall|f2: Seq<u8>| f2 != fid implies #[trigger] kv_contains(
                        s,
                        config_key_spec(f2),
                    ) == kv_contains(orig, config_key_spec(f2)) by {
                        if config_key_spec(f2) == config_key_spec(fid) {
                            assert forall|x: int| 0 <= x < f2.len() implies f2[x]
                                == fid[x] by {
                                assert(config_key_spec(f2)[x + 1] == config_key_spec(
                                    fid,
                                )[x + 1]);
                            }
                            assert(f2.len() == fid.len());
                            assert(f2 =~= fid);
                        }
                    }
                    // the filed handle map grew by exactly the new pair
                    let m = self.clients@.len() - 1;
                    assert(self.clients_view()[m].0@ == fid);
                    assert(self.clients_view().last() == self.clients_view()[m]);
                    assert(self.has_client_spec(fid));
                }
                Ok(sel)
            },
        }
    }

    /// Files the handle of a client rebuilt at startup for a committed
    /// membership.  A federation without a committed record is refused, as
    /// is a second handle for the same federation.
    pub fn register_client(&mut self, federation_id: &FederationId, client: C) -> (r: Result<
        (),
        JoinError,
    >)
        requires
            old(self).wf(),
            federation_id.wf(),
        ensures
            final(self).wf(),
            final(self).store_view() == old(self).store_view(),
            final(self).vault_mnemonic() == old(self).vault_mnemonic(),
            match r {
                Ok(()) => {
                    &&& old(self).joined(federation_id@)
                    &&& !old(self).has_client_spec(federation_id@)
                    &&& final(self).has_client_spec(federation_id@)
                    &&& final(self).clients_view().len() == old(self).clients_view().len()
                        + 1
                    &&& forall|j: int|
                        0 <= j < old(self).clients_view().len() ==> #[trigger] final(self).clients_view()[j] == old(self).clients_view()[j]
                    &&& final(self).clients_view().last().0@ == federation_id@
                    &&& final(self).clients_view().last().1 == client
                },
                Err(JoinError::ClientConstruction) => !old(self).joined(federation_id@)
                    && final(self).clients_view() == old(self).clients_view(),
                Err(JoinError::DuplicateFederation) => old(self).joined(federation_id@)
                    && old(self).has_client_spec(federation_id@) && final(self).clients_view() == old(self).clients_view(),
                Err(_) => false,
            },
    {
        let ck = config_key(federation_id);
        match self.store.get(&ck) {
            None => Err(JoinError::ClientConstruction),
            Some(_) => {
                if self.has_client(federation_id) {
                    Err(JoinError::DuplicateFederation)
                } else {
                    self.clients.push((federation_id.clone_id(), client));
                    proof {
                        let m = self.clients@.len() - 1;
                        assert(self.clients_view()[m].0@ == federation_id@);
                        assert(self.clients_view().last() == self.clients_view()[m]);
                    }
                    Ok(())
                }
            },
        }
    }

    /// Whether this federation's private keyspace already holds data: a
    /// rebuilt client is opened over it when it does, and joined fresh,
    /// downloading the federation's configuration again, when it does not.
    pub fn keyspace_initialized(&self, federation_id: &FederationId) -> (r: bool)
        requires
            self.wf(),
            federation_id.wf(),
        ensures
            r == (kv_matching_prefix(
                self.store_view(),
                client_prefix_spec(federation_id@),
            ).len() > 0),
    {
        let ns = Namespace::for_client(federation_id);
        let recs = ns.scan_from_store(&self.store);
        proof {
            assert(recs_view(recs@).len() == recs@.len());
        }
        recs.len() > 0
    }

    /// Whether a config record for this federation is committed.
    pub fn has_federation(&self, federation_id: &FederationId) -> (r: bool)
        requires
            self.wf(),
        ensures
            r == self.joined(federation_id@),
    {
        let ck = config_key(federation_id);
        self.store.get(&ck).is_some()
    }

    /// Whether a live handle for this federation is filed.
    pub fn has_client(&self, federation_id: &FederationId) -> (r: bool)
        ensures
            r == self.has_client_spec(federation_id@),
    {
        let n = self.clients.len();
        let mut i: usize = 0;
        while i < n
            invariant
                n == self.clients@.len(),
                i <= n,
                forall|j: int| 0 <= j < i ==> (#[trigger] self.clients@[j]).0@
                    != federation_id@,
            decreases n - i,
        {
            if self.clients[i].0.same_as(federation_id) {
                proof {
                    assert(self.clients_view()[i as int].0@ == federation_id@);
                }
                return true;
            }
            i = i + 1;
        }
        false
    }

    /// The live handle for a federation, or nothing when no client was
    /// filed for it — the caller's programming error, surfaced rather than
    /// materialized from config.
    pub fn client(&self, federation_id: &FederationId) -> (r: Option<&C>)
        ensures
            match r {
                Some(c) => exists|i: int|
                    0 <= i < self.clients_view().len() && (#[trigger] self.clients_view()[i]).0@
                        == federation_id@ && self.clients_view()[i].1 == *c,
                None => !self.has_client_spec(federation_id@),
            },
    {
        let n = self.clients.len();
        let mut i: usize = 0;
        while i < n
            invariant
                n == self.clients@.len(),
                i <= n,
                forall|j: int| 0 <= j < i ==> (#[trigger] self.clients@[j]).0@
                    != federation_id@,
            decreases n - i,
        {
            if self.clients[i].0.same_as(federation_id) {
                proof {
                    assert(self.clients_view()[i as int].0@ == federation_id@);
                }
                return Some(&self.clients[i].1);
            }
            i = i + 1;
        }
        None
    }

    /// Every committed membership, ascending by federation id, straight
    /// from the committed records and independent of which clients were
    /// rebuilt.
    pub fn federations(&self) -> (r: Vec<FederationSelector>)
        requires
            self.wf(),
        ensures
            r@.len() == self.config_records().len(),
            forall|i: int|
                0 <= i < r@.len() ==> (#[trigger] r@[i]).federation_id@
                    == self.config_records()[i].0.skip(1) && r@[i].federation_name@
                    == utf8_lossy_of(decode_config_spec(self.config_records()[i].1)->Some_0.2),
    {
        let ns = Namespace::for_config();
        let recs = ns.scan_from_store(&self.store);
        let ghost matching = self.config_records();
        let ghost s = self.store.view();
        let ghost pred = |p: Rec| has_prefix(p.0, config_prefix_spec());
        let mut out: Vec<FederationSelector> = Vec::new();
        let n = recs.len();
        let mut i: usize = 0;
        while i < n
            invariant
                self.wf(),
                n == recs@.len(),
                i <= n,
                s == self.store_view(),
                pred == (|p: Rec| has_prefix(p.0, config_prefix_spec())),
                matching == self.config_records(),
                matching == recs_view(recs@),
                out@.len() == i,
                forall|j: int|
                    0 <= j < i ==> (#[trigger] out@[j]).federation_id@ == matching[j].0.skip(1)
                        && out@[j].federation_name@ == utf8_lossy_of(
                        decode_config_spec(matching[j].1)->Some_0.2,
                    ),
            decreases n - i,
        {
            proof {
                Seq::lemma_filter_pred(s, pred, i as int);
                crate::kv::lemma_filter_sorted(s, pred);
                assert(matching.contains(matching[i as int]));
                assert(s.contains(matching[i as int]));
                let j = choose|j: int| 0 <= j < s.len() && s[j] == matching[i as int];
                assert(has_prefix(s[j].0, config_prefix_spec()));
                assert(matching[i as int].0.len() == 33);
                assert(decode_config_spec(matching[i as int].1) is Some);
            }
            let fid_bytes = copy_suffix(&recs[i].0, 1);
            let fid = match FederationId::from_bytes(fid_bytes) {
                Some(f) => f,
                None => {
                    proof {
                        assert(false);
                    }
                    return out;
                },
            };
            let config = match decode_config(&recs[i].1) {
                Some(c) => c,
                None => {
                    proof {
                        assert(false);
                    }
                    return out;
                },
            };
            let name = bytes_to_string_lossy(&config.federation_name);
            out.push(FederationSelector { federation_name: name, federation_id: fid });
            i = i + 1;
        }
        out
    }

    /// Closes the registry and hands the store back, dropping every live
    /// handle: what survives is exactly what was committed.
    pub fn into_store(self) -> (r: KvStore)
        requires
            self.wf(),
        ensures
            r.wf(),
            r.view() == self.store_view(),
    {
        self.store
    }

    /// Rules on a send: the invoice must parse; the routed client is the
    /// caller's to call with the parsed invoice.
    pub fn prepare_send(&self, federation_id: &FederationId, invoice: &str) -> (r: Result<
        SendRequest,
        SendError,
    >)
        requires
            self.has_client_spec(federation_id@),
        ensures
            match r {
                Ok(req) => bolt11_of(invoice@) == Some(req.invoice),
                Err(e) => e == SendError::InvalidInvoice && bolt11_of(invoice@) is None,
            },
    {
        match parse_bolt11_invoice(invoice) {
            Some(inv) => Ok(SendRequest { invoice: inv }),
            None => Err(SendError::InvalidInvoice),
        }
    }

    /// Rules on a receive: the amount passes through unchanged and the
    /// standing expiry applies.
    pub fn prepare_receive(&self, federation_id: &FederationId, amount_msats: u64) -> (r:
        ReceiveRequest)
        requires
            self.has_client_spec(federation_id@),
        ensures
            r.amount_msats == amount_msats,
            r.expiry_secs == DEFAULT_EXPIRY_TIME_SECS,
    {
        ReceiveRequest { amount_msats, expiry_secs: DEFAULT_EXPIRY_TIME_SECS }
    }
}

/// A live handle exists only for a committed membership: what the client
/// map shows is at most what the store knows.
pub proof fn lemma_client_implies_joined<C>(m: Multimint<C>, fid: Seq<u8>)
    requires
        m.wf(),
        m.has_client_spec(fid),
    ensures
        m.joined(fid),
{
    let i = choose|i: int|
        0 <= i < m.clients_view().len() && (#[trigger] m.clients_view()[i]).0@ == fid;
    assert(kv_contains(m.store_view(), config_key_spec(m.clients_view()[i].0@)));
}

} // verus!
