//! The secret vault: one root recovery phrase per store, loaded or created
//! once, and a deterministic derivation of one independent secret per
//! federation.
//!
//! The derivation walks a fixed path: the phrase's seed becomes the root
//! secret, its first child is the multi-federation branch, the federation's
//! id keys its own branch, and two more fixed children reach the secret a
//! federation's client is opened with.  The cryptography is the outside
//! crates'; each call stands behind a trusted item whose result is a named
//! function of its arguments, so the path itself is verified.

use vstd::prelude::*;

use bip39::Mnemonic;
use fedimint_core::encoding::Decodable;
use fedimint_derive_secret::ChildId;
use fedimint_derive_secret::DerivableSecret;

use crate::kv::{kv_get, kv_insert, StorageError, WriteTransaction};
use crate::namespace::{root_secret_key, root_secret_key_spec, FederationId};

verus! {

#[verifier::external_type_specification]
#[verifier::external_body]
pub struct ExMnemonic(Mnemonic);

#[verifier::external_type_specification]
#[verifier::external_body]
pub struct ExDerivableSecret(DerivableSecret);

/// What `Mnemonic::to_entropy` returns: the entropy the phrase encodes.
pub uninterp spec fn mnemonic_entropy(m: Mnemonic) -> Seq<u8>;

/// What `Mnemonic::from_entropy` returns on entropy it accepts: the English
/// phrase of those bytes, a function of the bytes alone.
pub uninterp spec fn mnemonic_of(e: Seq<u8>) -> Mnemonic;

/// The entropy widths a phrase can encode: whole 32-bit groups, 128 to 256
/// bits.
pub open spec fn valid_entropy_len(n: nat) -> bool {
    n % 4 == 0 && 16 <= n <= 32
}

/// What `Mnemonic::to_seed` returns for an empty passphrase: the phrase's
/// 64-byte seed.
pub uninterp spec fn mnemonic_seed(m: Mnemonic) -> Seq<u8>;

/// What `DerivableSecret::new_root` returns for given key material and salt.
pub uninterp spec fn root_of(seed: Seq<u8>, salt: Seq<u8>) -> DerivableSecret;

/// What `DerivableSecret::child_key` returns for a given child index.
pub uninterp spec fn child_of(s: DerivableSecret, idx: u64) -> DerivableSecret;

/// What `DerivableSecret::federation_key` returns for a federation id given
/// by its canonical 32-byte encoding.
pub uninterp spec fn federation_child_of(s: DerivableSecret, fid: Seq<u8>) -> DerivableSecret;

/// What `DerivableSecret::to_random_bytes` returns: a 32-byte digest
/// determined by the secret alone.
pub uninterp spec fn secret_fingerprint(s: DerivableSecret) -> Seq<u8>;

/// Relies on bip39's Mnemonic::to_entropy: the entropy the phrase encodes,
/// a function of the phrase alone.
#[verifier::external_body]
fn mnemonic_to_entropy(m: &Mnemonic) -> (r: Vec<u8>)
    ensures
        r@ == mnemonic_entropy(*m),
{
    m.to_entropy()
}

/// Relies on bip39's Mnemonic::from_entropy: the English phrase of the
/// entropy.  Its source accepts exactly the whole-word entropy widths, and
/// `to_entropy` of the result returns the input unchanged.
#[verifier::external_body]
fn mnemonic_from_entropy(e: &Vec<u8>) -> (r: Option<Mnemonic>)
    ensures
        match r {
            Some(m) => m == mnemonic_of(e@) && mnemonic_entropy(m) == e@
                && valid_entropy_len(e@.len()),
            None => !valid_entropy_len(e@.len()),
        },
{
    Mnemonic::from_entropy(e.as_slice()).ok()
}

/// Relies on bip39's Mnemonic::to_seed: the 64-byte seed of the phrase with
/// an empty passphrase, a function of the phrase alone.
#[verifier::external_body]
fn mnemonic_to_seed(m: &Mnemonic) -> (r: Vec<u8>)
    ensures
        r@ == mnemonic_seed(*m),
        r@.len() == 64,
{
    m.to_seed("").to_vec()
}

/// Relies on rand's thread_rng: 16 bytes of fresh randomness; nothing is
/// promised of their values.
#[verifier::external_body]
fn random_entropy() -> (r: Vec<u8>)
    ensures
        r@.len() == 16,
{
    let mut bytes = [0u8; 16];
    rand::Rng::fill(&mut rand::thread_rng(), &mut bytes[..]);
    bytes.to_vec()
}

/// Relies on fedimint-derive-secret's DerivableSecret::new_root: the root
/// secret of given key material and salt.
#[verifier::external_body]
fn new_root_secret(seed: &Vec<u8>, salt: &Vec<u8>) -> (r: DerivableSecret)
    ensures
        r == root_of(seed@, salt@),
{
    DerivableSecret::new_root(seed.as_slice(), salt.as_slice())
}

/// Relies on DerivableSecret::child_key: the child secret at an index.
#[verifier::external_body]
fn child_secret(s: &DerivableSecret, idx: u64) -> (r: DerivableSecret)
    ensures
        r == child_of(*s, idx),
{
    s.child_key(ChildId(idx))
}

/// Relies on DerivableSecret::federation_key, with the federation id
/// rebuilt from its canonical 32-byte consensus encoding, which its source
/// decodes in full.
#[verifier::external_body]
fn federation_child_secret(s: &DerivableSecret, fid: &Vec<u8>) -> (r: DerivableSecret)
    requires
        fid@.len() == 32,
    ensures
        r == federation_child_of(*s, fid@),
{
    let id = fedimint_core::config::FederationId::consensus_decode_whole(
        fid.as_slice(),
        &Default::default(),
    ).expect("a 32-byte id decodes");
    s.federation_key(&id)
}

/// Relies on DerivableSecret::to_random_bytes: a 32-byte digest determined
/// by the secret alone.
#[verifier::external_body]
fn secret_digest(s: &DerivableSecret) -> (r: Vec<u8>)
    ensures
        r@ == secret_fingerprint(*s),
        r@.len() == 32,
{
    s.to_random_bytes::<32>().to_vec()
}

/// The secret a federation's client is opened with, as a function of the
/// root phrase and the federation's id: root seed, the multi-federation
/// child, the federation's own branch, then the two fixed wallet children.
pub open spec fn derived_secret_spec(m: Mnemonic, fid: Seq<u8>) -> DerivableSecret {
    let root = root_of(mnemonic_seed(m), Seq::<u8>::empty());
    let multi = child_of(root, 0);
    let fed = federation_child_of(multi, fid);
    let wallet = child_of(fed, 0);
    child_of(wallet, 0)
}

/// Determinism of derivation: one root phrase and one federation id always
/// give one secret, so two calls can never disagree.
pub proof fn lemma_derivation_deterministic(m1: Mnemonic, m2: Mnemonic, f1: Seq<u8>, f2: Seq<
    u8,
>)
    requires
        m1 == m2,
        f1 == f2,
    ensures
        derived_secret_spec(m1, f1) == derived_secret_spec(m2, f2),
{
}

/// The process-wide root secret, backed by a recovery phrase.
pub struct Vault {
    mnemonic: Mnemonic,
}

impl Vault {
    /// The root phrase.
    pub closed spec fn mnemonic(&self) -> Mnemonic {
        self.mnemonic
    }

    /// The entropy the root phrase encodes: what the store persists.
    pub open spec fn view(&self) -> Seq<u8> {
        mnemonic_entropy(self.mnemonic())
    }

    /// Loads the root secret persisted under the reserved key, or, at first
    /// run, generates a fresh one and persists it in the same transaction.
    /// Once a secret is committed, every later call returns that one — the
    /// same entropy and the byte-identical phrase — and never regenerates;
    /// it fails exactly when a stored record has an impossible width.
    pub fn load_or_create(tx: &mut WriteTransaction) -> (r: Result<Vault, StorageError>)
        requires
            old(tx).wf(),
        ensures
            final(tx).wf(),
            final(tx).savepoint_view() == old(tx).savepoint_view(),
            match r {
                Ok(v) => v.mnemonic() == mnemonic_of(v@) && match kv_get(
                    old(tx).view(),
                    root_secret_key_spec(),
                ) {
                    Some(stored) => v@ == stored && valid_entropy_len(stored.len())
                        && final(tx).view() == old(tx).view(),
                    None => final(tx).view() == kv_insert(
                        old(tx).view(),
                        root_secret_key_spec(),
                        v@,
                    ) && v@.len() == 16,
                },
                Err(_) => final(tx).view() == old(tx).view() && match kv_get(
                    old(tx).view(),
                    root_secret_key_spec(),
                ) {
                    Some(stored) => !valid_entropy_len(stored.len()),
                    None => false,
                },
            },
            r is Err <==> match kv_get(old(tx).view(), root_secret_key_spec()) {
                Some(stored) => !valid_entropy_len(stored.len()),
                None => false,
            },
    {
        let key = root_secret_key();
        match tx.get(&key) {
            Some(stored) => match mnemonic_from_entropy(&stored) {
                Some(m) => Ok(Vault { mnemonic: m }),
                None => Err(StorageError::Corrupted),
            },
            None => {
                let entropy = random_entropy();
                match mnemonic_from_entropy(&entropy) {
                    Some(m) => {
                        tx.insert(&key, entropy);
                        Ok(Vault { mnemonic: m })
                    },
                    None => {
                        proof {
                            assert(false);
                        }
                        Err(StorageError::Corrupted)
                    },
                }
            },
        }
    }

    /// The persisted entropy, copied out.
    pub fn entropy(&self) -> (r: Vec<u8>)
        ensures
            r@ == self@,
    {
        mnemonic_to_entropy(&self.mnemonic)
    }

    /// Derives the one secret that opens this federation's client, along
    /// the fixed path.
    pub fn derive_federation_secret(&self, fid: &FederationId) -> (r: DerivableSecret)
        requires
            fid.wf(),
        ensures
            r == derived_secret_spec(self.mnemonic(), fid@),
    {
        let seed = mnemonic_to_seed(&self.mnemonic);
        let empty_salt: Vec<u8> = Vec::new();
        proof {
            assert(empty_salt@ =~= Seq::<u8>::empty());
        }
        let root = new_root_secret(&seed, &empty_salt);
        let multi = child_secret(&root, 0);
        let fed = federation_child_secret(&multi, &fid.to_bytes());
        let wallet = child_secret(&fed, 0);
        child_secret(&wallet, 0)
    }

    /// The 32-byte fingerprint of a federation's derived secret: a function
    /// of the derived secret alone, so equal secrets always agree on it.
    pub fn federation_secret_fingerprint(&self, fid: &FederationId) -> (r: Vec<u8>)
        requires
            fid.wf(),
        ensures
            r@ == secret_fingerprint(derived_secret_spec(self.mnemonic(), fid@)),
            r@.len() == 32,
    {
        let s = self.derive_federation_secret(fid);
        secret_digest(&s)
    }
}

} // verus!
