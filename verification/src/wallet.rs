//! Wallet-address validation through `candid`'s principal parser.

use vstd::prelude::*;

verus! {

/// Whether the byte string is the UTF-8 text of a well-formed principal;
/// `candid::Principal::from_text` decides this from the text alone.
pub uninterp spec fn principal_ok(s: Seq<u8>) -> bool;

/// Relies on `candid::Principal::from_text`: it accepts or rejects a wallet
/// address by its text alone (no lookup), so the outcome is a function of the
/// bytes; text that is not UTF-8 is never a well-formed principal.
#[verifier::external_body]
pub fn wallet_ok(wallet: &Vec<u8>) -> (r: bool)
    ensures
        r == principal_ok(wallet@),
{
    match std::str::from_utf8(wallet.as_slice()) {
        Ok(s) => candid::Principal::from_text(s).is_ok(),
        Err(_) => false,
    }
}

} // verus!
