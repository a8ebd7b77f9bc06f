//! Hardware (MAC) addresses as plain 48-bit values.
//!
//! A MAC address is six bytes; the library stores it as the big-endian
//! `u64` those bytes denote, so that addresses can serve as set elements
//! and lookup keys with bitwise equality.

use vstd::prelude::*;

verus! {

/// The 48-bit value denoted by six big-endian bytes.
pub open spec fn spec_mac_from_bytes(b: Seq<u8>) -> u64
    recommends
        b.len() == 6,
{
    (((b[0] as u64) << 40) | ((b[1] as u64) << 32) | ((b[2] as u64) << 24) | ((b[3] as u64) << 16)
        | ((b[4] as u64) << 8) | (b[5] as u64)) as u64
}

/// Packs six bytes into the `u64` form of a hardware address.
pub fn mac_from_bytes(b: &Vec<u8>) -> (r: u64)
    requires
        b@.len() == 6,
    ensures
        r == spec_mac_from_bytes(b@),
{
    ((b[0] as u64) << 40u64) | ((b[1] as u64) << 32u64) | ((b[2] as u64) << 24u64) | ((b[3]
        as u64) << 16u64) | ((b[4] as u64) << 8u64) | (b[5] as u64)
}

/// A universally-administered, unicast address: in the first octet,
/// the locally-administered bit (0x02) and the multicast bit (0x01)
/// are both clear.
pub open spec fn spec_is_valid_mac(m: u64) -> bool {
    (m >> 40) & 0x3 == 0
}

/// Decides whether an address is universally administered and unicast.
pub fn is_valid_mac(m: u64) -> (r: bool)
    ensures
        r == spec_is_valid_mac(m),
{
    ((m >> 40u64) & 0x3u64) == 0u64
}

/// The six bytes that a piece of text denotes as a hardware address,
/// if it denotes one; a function of the text alone.
pub uninterp spec fn mac_of_text(t: Seq<u8>) -> Option<Seq<u8>>;

/// The hardware address a piece of text denotes, as a 48-bit value.
pub open spec fn mac_value_of_text(t: Seq<u8>) -> Option<u64> {
    match mac_of_text(t) {
        Some(b) => Some(spec_mac_from_bytes(b)),
        None => None,
    }
}

/// Relies on eui48::MacAddress::parse_str (reached through
/// core::str::from_utf8): whether a text denotes a hardware address,
/// and the six bytes it denotes, depend on the text alone, and an
/// accepted address is always exactly six bytes.
#[verifier::external_body]
pub(crate) fn parse_mac_text(t: &[u8]) -> (r: Option<Vec<u8>>)
    ensures
        match r {
            Some(b) => mac_of_text(t@) == Some(b@) && b@.len() == 6,
            None => mac_of_text(t@) is None,
        },
{
    match core::str::from_utf8(t) {
        Ok(s) => match eui48::MacAddress::parse_str(s) {
            Ok(m) => Some(m.to_array().to_vec()),
            Err(_) => None,
        },
        Err(_) => None,
    }
}

/// Parses a text token into the 48-bit form of the address it denotes.
pub fn parse_mac(t: &[u8]) -> (r: Option<u64>)
    ensures
        r == mac_value_of_text(t@),
{
    match parse_mac_text(t) {
        Some(b) => Some(mac_from_bytes(&b)),
        None => None,
    }
}

} // verus!
