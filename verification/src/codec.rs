//! Address codecs at the bridge boundary.
//!
//! `format_deposit_address` renders the textual tag that marks a mainchain
//! transaction output as a deposit to a sidechain address; it is pure.
//! `extract_mainchain_address_bytes` recovers the canonical 20-byte payload
//! from a mainchain address string, delegating the address grammar itself —
//! base58check and bech32 — to the `bitcoin` crate behind a trusted wrapper.

use vstd::prelude::*;
use vstd::string::StringExecFns;
use crate::errors::BridgeError;
use crate::state::Drivechain;

verus! {

/// The decimal digit character for `d` (0 through 9).
pub open spec fn dec_digit(d: int) -> char {
    if d == 0 {
        '0'
    } else if d == 1 {
        '1'
    } else if d == 2 {
        '2'
    } else if d == 3 {
        '3'
    } else if d == 4 {
        '4'
    } else if d == 5 {
        '5'
    } else if d == 6 {
        '6'
    } else if d == 7 {
        '7'
    } else if d == 8 {
        '8'
    } else {
        '9'
    }
}

/// The decimal rendering of a nonnegative integer, most significant digit
/// first, without sign or padding.
pub open spec fn dec_str_of(n: int) -> Seq<char>
    decreases n,
{
    if n < 10 {
        seq![dec_digit(n)]
    } else {
        dec_str_of(n / 10).push(dec_digit(n % 10))
    }
}

/// Relies on `u64`'s `Display` through `to_string`: the decimal digits of
/// the number, most significant first, no sign, no padding.
#[verifier::external_body]
fn u64_to_dec(n: u64) -> (r: String)
    ensures
        r@ == dec_str_of(n as int),
{
    n.to_string()
}

/// What parsing a mainchain address yields: `None` for a string that is no
/// valid address, otherwise the address's payload bytes — the pubkey hash,
/// the script hash or the witness program.  The result depends on the
/// string alone.
pub uninterp spec fn mainchain_addr_payload(s: Seq<char>) -> Option<Seq<u8>>;

/// Relies on `bitcoin::Address::from_str` and `Address::payload`: parsing
/// succeeds exactly on well-formed base58check or bech32 addresses and
/// depends on the string alone; the payload of a parsed address is its
/// pubkey hash, script hash or witness program.
#[verifier::external_body]
fn decode_address_payload(s: &str) -> (r: Option<Vec<u8>>)
    ensures
        (r is Some) == (mainchain_addr_payload(s@) is Some),
        r matches Some(v) ==> mainchain_addr_payload(s@) == Some(v@),
{
    match <bitcoin::Address as core::str::FromStr>::from_str(s) {
        Ok(a) => match a.payload {
            bitcoin::util::address::Payload::PubkeyHash(h) => Some(
                bitcoin::hashes::Hash::into_inner(h).to_vec(),
            ),
            bitcoin::util::address::Payload::ScriptHash(h) => Some(
                bitcoin::hashes::Hash::into_inner(h).to_vec(),
            ),
            bitcoin::util::address::Payload::WitnessProgram { program, .. } => Some(program),
        },
        Err(_) => None,
    }
}

/// Parse a mainchain address string into its canonical fixed-width payload:
/// exactly the 20 payload bytes of a well-formed address, `InvalidAddress`
/// for a malformed string or a payload of any other width.
pub fn extract_mainchain_address_bytes(address: &str) -> (r: Result<Vec<u8>, BridgeError>)
    ensures
        (r is Ok) == (mainchain_addr_payload(address@) matches Some(p) && p.len() == 20),
        r matches Ok(v) ==> mainchain_addr_payload(address@) == Some(v@) && v@.len() == 20,
        r matches Err(e) ==> e == BridgeError::InvalidAddress,
{
    match decode_address_payload(address) {
        Some(v) => {
            if v.len() == 20 {
                Ok(v)
            } else {
                Err(BridgeError::InvalidAddress)
            }
        },
        None => Err(BridgeError::InvalidAddress),
    }
}

impl Drivechain {
    /// Render a sidechain address into the fixed textual tagging scheme the
    /// mainchain-side deposit detection scans for: an `s`, the sidechain
    /// number in decimal, and the address, with underscores in between and
    /// at the end.  Pure; no failure mode.
    pub fn format_deposit_address(&self, address: &str) -> (r: String)
        ensures
            r@ == seq!['s'] + dec_str_of(self@.sidechain_number as int) + seq!['_'] + address@
                + seq!['_'],
    {
        proof {
            reveal_strlit("s");
            reveal_strlit("_");
            assert("s"@ =~= seq!['s']);
            assert("_"@ =~= seq!['_']);
        }
        let num = u64_to_dec(self.sidechain_number);
        let mut out = String::from_str("s");
        out.append(num.as_str());
        out.append("_");
        out.append(address);
        out.append("_");
        proof {
            assert(out@ =~= seq!['s'] + dec_str_of(self@.sidechain_number as int) + seq!['_']
                + address@ + seq!['_']);
        }
        out
    }
}

} // verus!
