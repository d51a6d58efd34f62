//! The registry's persisted config record: what a federation's membership
//! looks like on disk, and the codec that reads and writes it.
//!
//! A record value holds the connector kind, the invite code's text and the
//! federation's name; the key carries the federation id (see the key layout
//! in `namespace`).  The encoding is one tag byte, the invite text's length
//! as eight big-endian bytes, the invite text, then the name to the end.

use vstd::prelude::*;

use crate::order::{concat_bytes, copy_bytes};

verus! {

/// How the federation's API is reached.
#[derive(Clone, Copy, PartialEq, Eq, Structural, Debug)]
pub enum Connector {
    Tcp,
    Tor,
}

/// The persisted description of one joined federation.
pub struct FederationConfig {
    /// The invite code's canonical text, as bytes.
    pub invite_text: Vec<u8>,
    /// How the federation's API is reached.
    pub connector: Connector,
    /// The federation's display name, as UTF-8 bytes.
    pub federation_name: Vec<u8>,
}

impl FederationConfig {
    /// The record's mathematical content.
    pub open spec fn view(&self) -> (Seq<u8>, Connector, Seq<u8>) {
        (self.invite_text@, self.connector, self.federation_name@)
    }
}

/// The tag byte of a connector kind.
pub open spec fn connector_tag_spec(c: Connector) -> u8 {
    match c {
        Connector::Tcp => 0u8,
        Connector::Tor => 1u8,
    }
}

/// The connector kind of a tag byte.
pub open spec fn connector_of_tag_spec(t: u8) -> Option<Connector> {
    if t == 0u8 {
        Some(Connector::Tcp)
    } else if t == 1u8 {
        Some(Connector::Tor)
    } else {
        None
    }
}

/// A number as eight big-endian bytes.
pub open spec fn u64_be_spec(n: u64) -> Seq<u8> {
    seq![
        (n >> 56) as u8,
        (n >> 48) as u8,
        (n >> 40) as u8,
        (n >> 32) as u8,
        (n >> 24) as u8,
        (n >> 16) as u8,
        (n >> 8) as u8,
        n as u8,
    ]
}

/// Eight big-endian bytes as a number.
pub open spec fn be_u64_spec(b: Seq<u8>) -> u64
    recommends
        b.len() == 8,
{
    (((b[0] as u64) << 56) | ((b[1] as u64) << 48) | ((b[2] as u64) << 40) | ((b[3] as u64)
        << 32) | ((b[4] as u64) << 24) | ((b[5] as u64) << 16) | ((b[6] as u64) << 8) | (
    b[7] as u64)) as u64
}

/// Reading back the eight big-endian bytes of a number gives the number.
pub proof fn lemma_u64_be_round_trip(n: u64)
    ensures
        be_u64_spec(u64_be_spec(n)) == n,
{
    let b = u64_be_spec(n);
    assert(((((n >> 56) as u8) as u64) << 56 | (((n >> 48) as u8) as u64) << 48 | (((n
        >> 40) as u8) as u64) << 40 | (((n >> 32) as u8) as u64) << 32 | (((n
        >> 24) as u8) as u64) << 24 | (((n >> 16) as u8) as u64) << 16 | (((n
        >> 8) as u8) as u64) << 8 | ((n as u8) as u64)) == n) by (bit_vector);
}

/// The bytes of a config record.
pub open spec fn encode_config_spec(invite: Seq<u8>, conn: Connector, name: Seq<u8>) -> Seq<
    u8,
> {
    seq![connector_tag_spec(conn)] + u64_be_spec(invite.len() as u64) + invite + name
}

/// The fields read back from a record's bytes, if they parse.
pub open spec fn decode_config_spec(b: Seq<u8>) -> Option<(Seq<u8>, Connector, Seq<u8>)> {
    if b.len() < 9 {
        None
    } else {
        match connector_of_tag_spec(b[0]) {
            None => None,
            Some(conn) => {
                let ilen = be_u64_spec(b.subrange(1, 9)) as int;
                if b.len() < 9 + ilen {
                    None
                } else {
                    Some((b.subrange(9, 9 + ilen), conn, b.skip(9 + ilen)))
                }
            },
        }
    }
}

/// Decoding an encoded record gives back its fields.
pub proof fn lemma_config_round_trip(invite: Seq<u8>, conn: Connector, name: Seq<u8>)
    requires
        invite.len() <= u64::MAX,
    ensures
        decode_config_spec(encode_config_spec(invite, conn, name)) == Some(
            (invite, conn, name),
        ),
{
    let b = encode_config_spec(invite, conn, name);
    assert(b.len() == 9 + invite.len() + name.len());
    assert(b[0] == connector_tag_spec(conn));
    assert(connector_of_tag_spec(connector_tag_spec(conn)) == Some(conn));
    assert(b.subrange(1, 9) =~= u64_be_spec(invite.len() as u64));
    lemma_u64_be_round_trip(invite.len() as u64);
    let ilen = be_u64_spec(b.subrange(1, 9)) as int;
    assert(ilen == invite.len());
    assert(b.subrange(9, 9 + ilen) =~= invite);
    assert(b.skip(9 + ilen) =~= name);
}

/// Writes a number as eight big-endian bytes.
fn u64_be(n: u64) -> (r: Vec<u8>)
    ensures
        r@ == u64_be_spec(n),
{
    let mut r: Vec<u8> = Vec::new();
    r.push((n >> 56) as u8);
    r.push((n >> 48) as u8);
    r.push((n >> 40) as u8);
    r.push((n >> 32) as u8);
    r.push((n >> 24) as u8);
    r.push((n >> 16) as u8);
    r.push((n >> 8) as u8);
    r.push(n as u8);
    proof {
        assert(r@ =~= u64_be_spec(n));
    }
    r
}

/// Reads eight big-endian bytes, starting at `at`, as a number.
fn be_u64_at(b: &Vec<u8>, at: usize) -> (r: u64)
    requires
        at + 8 <= b@.len(),
    ensures
        r == be_u64_spec(b@.subrange(at as int, at as int + 8)),
{
    let n = b.len();
    let r = ((b[at] as u64) << 56) | ((b[at + 1] as u64) << 48) | ((b[at + 2] as u64) << 40)
        | ((b[at + 3] as u64) << 32) | ((b[at + 4] as u64) << 24) | ((b[at + 5] as u64)
        << 16) | ((b[at + 6] as u64) << 8) | (b[at + 7] as u64);
    proof {
        let s = b@.subrange(at as int, at as int + 8);
        let a = at as int;
        assert(s[0] == b@[a]);
        assert(s[1] == b@[a + 1]);
        assert(s[2] == b@[a + 2]);
        assert(s[3] == b@[a + 3]);
        assert(s[4] == b@[a + 4]);
        assert(s[5] == b@[a + 5]);
        assert(s[6] == b@[a + 6]);
        assert(s[7] == b@[a + 7]);
    }
    r
}

/// The tag byte of a connector kind.
pub fn connector_tag(c: Connector) -> (r: u8)
    ensures
        r == connector_tag_spec(c),
{
    match c {
        Connector::Tcp => 0u8,
        Connector::Tor => 1u8,
    }
}

/// The connector kind of a tag byte.
pub fn connector_of_tag(t: u8) -> (r: Option<Connector>)
    ensures
        r == connector_of_tag_spec(t),
{
    if t == 0u8 {
        Some(Connector::Tcp)
    } else if t == 1u8 {
        Some(Connector::Tor)
    } else {
        None
    }
}

/// Writes a config record's bytes.
pub fn encode_config(c: &FederationConfig) -> (r: Vec<u8>)
    ensures
        r@ == encode_config_spec(c.invite_text@, c.connector, c.federation_name@),
{
    let mut head: Vec<u8> = Vec::new();
    head.push(connector_tag(c.connector));
    let head = concat_bytes(&head, &u64_be(c.invite_text.len() as u64));
    let head = concat_bytes(&head, &c.invite_text);
    let r = concat_bytes(&head, &c.federation_name);
    proof {
        assert(r@ =~= encode_config_spec(c.invite_text@, c.connector, c.federation_name@));
    }
    r
}

/// Reads a config record's fields back from its bytes.
pub fn decode_config(b: &Vec<u8>) -> (r: Option<FederationConfig>)
    ensures
        match r {
            Some(c) => decode_config_spec(b@) == Some(c.view()),
            None => decode_config_spec(b@) is None,
        },
{
    if b.len() < 9 {
        return None;
    }
    let conn = match connector_of_tag(b[0]) {
        Some(conn) => conn,
        None => {
            return None;
        },
    };
    let ilen = be_u64_at(b, 1);
    let avail = (b.len() - 9) as u64;
    if ilen > avail {
        proof {
            assert(b@.len() < 9 + be_u64_spec(b@.subrange(1, 9)) as int);
        }
        return None;
    }
    let ilen_us = ilen as usize;
    let invite_text = copy_range(b, 9, 9 + ilen_us);
    let federation_name = copy_range(b, 9 + ilen_us, b.len());
    let c = FederationConfig { invite_text, connector: conn, federation_name };
    proof {
        assert(b@.skip(9 + ilen as int) =~= b@.subrange(9 + ilen as int, b@.len() as int));
    }
    Some(c)
}

/// Copies the bytes of `src` in the range `[start, end)`.
fn copy_range(src: &Vec<u8>, start: usize, end: usize) -> (r: Vec<u8>)
    requires
        start <= end <= src@.len(),
    ensures
        r@ == src@.subrange(start as int, end as int),
{
    let mut r: Vec<u8> = Vec::new();
    let mut i: usize = start;
    while i < end
        invariant
            start <= i <= end <= src@.len(),
            r@ =~= src@.subrange(start as int, i as int),
        decreases end - i,
    {
        r.push(src[i]);
        i = i + 1;
    }
    proof {
        assert(r@ =~= src@.subrange(start as int, end as int));
    }
    r
}

/// A config record copied out of the store, with its federation id.
pub struct ConfigRecord {
    pub federation_id_bytes: Vec<u8>,
    pub config: FederationConfig,
}

} // verus!
