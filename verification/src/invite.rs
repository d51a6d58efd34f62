//! Trusted boundary around invite codes and Lightning invoices: parsing and
//! printing are the outside crates'; each result is a named function of the
//! text or of the code, so the registry's contracts can follow it.

use vstd::prelude::*;

use core::fmt::Write;

use fedimint_core::encoding::Encodable;
use fedimint_core::invite_code::InviteCode;
use lightning_invoice::Bolt11Invoice;

verus! {

#[verifier::external_type_specification]
#[verifier::external_body]
pub struct ExInviteCode(InviteCode);

#[verifier::external_type_specification]
#[verifier::external_body]
pub struct ExBolt11Invoice(Bolt11Invoice);

/// What `InviteCode::from_str` returns: the code the text encodes, if it
/// parses.
pub uninterp spec fn invite_of(s: Seq<char>) -> Option<InviteCode>;

/// What `InviteCode::federation_id` returns, as the id's canonical 32-byte
/// consensus encoding.
pub uninterp spec fn invite_fid_of(ic: InviteCode) -> Seq<u8>;

/// What an `InviteCode` prints as: its canonical text, or nothing when the
/// code is too long for its text encoding.
pub uninterp spec fn invite_text_of(ic: InviteCode) -> Option<Seq<char>>;

/// What `Bolt11Invoice::from_str` returns: the invoice the text encodes, if
/// it parses.
pub uninterp spec fn bolt11_of(s: Seq<char>) -> Option<Bolt11Invoice>;

/// Relies on InviteCode::from_str: parses an invite code's text, a function
/// of the text alone.
#[verifier::external_body]
pub(crate) fn parse_invite_code(s: &str) -> (r: Option<InviteCode>)
    ensures
        r == invite_of(s@),
{
    <InviteCode as core::str::FromStr>::from_str(s).ok()
}

/// Relies on InviteCode::federation_id and the id's consensus encoding:
/// the embedded id as its canonical 32 bytes.
#[verifier::external_body]
pub(crate) fn invite_federation_id_bytes(ic: &InviteCode) -> (r: Vec<u8>)
    ensures
        r@ == invite_fid_of(*ic),
        r@.len() == 32,
{
    ic.federation_id().consensus_encode_to_vec()
}

/// Relies on InviteCode's Display: the code's canonical text, a function of
/// the code alone.  Rendering goes through the formatter directly, so a
/// code whose encoding exceeds its text form's length limit comes back as
/// nothing instead of ending the process.
#[verifier::external_body]
pub(crate) fn invite_code_text(ic: &InviteCode) -> (r: Option<String>)
    ensures
        match r {
            Some(s) => invite_text_of(*ic) == Some(s@),
            None => invite_text_of(*ic) is None,
        },
{
    let mut s = String::new();
    match write!(&mut s, "{}", ic) {
        Ok(()) => Some(s),
        Err(_) => None,
    }
}

/// Relies on Bolt11Invoice::from_str: parses a Lightning invoice's text, a
/// function of the text alone.
#[verifier::external_body]
pub(crate) fn parse_bolt11_invoice(s: &str) -> (r: Option<Bolt11Invoice>)
    ensures
        r == bolt11_of(s@),
{
    <Bolt11Invoice as core::str::FromStr>::from_str(s).ok()
}

} // verus!
