//! The SOCKS5 handshake: checking what a client sends and what to answer.
//!
//! Only `CONNECT` without authentication is supported; the target may be an
//! IPv4 address, a domain name or an IPv6 address.
use vstd::prelude::*;

use crate::text::{decimal_digits, push_char, push_decimal};

verus! {

/// Why a SOCKS5 client was turned away.
#[derive(Debug, Clone, Copy, PartialEq, Eq, Structural)]
pub enum Socks5Error {
    /// The greeting named a protocol version other than 5.
    BadVersion(u8),
    /// The request was not a version-5 `CONNECT` with a zero reserved byte.
    UnsupportedRequest,
    /// The request named an address type other than IPv4, domain or IPv6.
    UnsupportedAddressType(u8),
}

/// The kind of target address a request carries.
#[derive(Debug, Clone, Copy, PartialEq, Eq, Structural)]
pub enum AddressKind {
    /// Four address bytes follow.
    Ipv4,
    /// A length byte and that many name bytes follow.
    Domain,
    /// Sixteen address bytes follow.
    Ipv6,
}

/// Check the greeting (version, number of methods): the number of method
/// bytes that follow, for version 5.
pub fn greeting_methods(header: [u8; 2]) -> (r: Result<usize, Socks5Error>)
    ensures
        header@[0] == 5 ==> r == Ok::<usize, Socks5Error>(header@[1] as usize),
        header@[0] != 5 ==> r == Err::<usize, Socks5Error>(Socks5Error::BadVersion(header@[0])),
{
    if header[0] != 5 {
        return Err(Socks5Error::BadVersion(header[0]));
    }
    Ok(header[1] as usize)
}

/// The answer to a greeting: version 5, no authentication required.
pub fn no_auth_reply() -> (r: [u8; 2])
    ensures
        r@ == seq![5u8, 0u8],
{
    let r: [u8; 2] = [5, 0];
    assert(r@ =~= seq![5u8, 0u8]);
    r
}

/// Check a request header (version, command, reserved, address type): the
/// kind of address that follows, for a version-5 `CONNECT`.
pub fn request_address_kind(h: [u8; 4]) -> (r: Result<AddressKind, Socks5Error>)
    ensures
        !(h@[0] == 5 && h@[1] == 1 && h@[2] == 0) ==> r == Err::<AddressKind, Socks5Error>(Socks5Error::UnsupportedRequest),
        h@[0] == 5 && h@[1] == 1 && h@[2] == 0 ==> r == (if h@[3] == 1 {
            Ok::<AddressKind, Socks5Error>(AddressKind::Ipv4)
        } else if h@[3] == 3 {
            Ok(AddressKind::Domain)
        } else if h@[3] == 4 {
            Ok(AddressKind::Ipv6)
        } else {
            Err(Socks5Error::UnsupportedAddressType(h@[3]))
        }),
{
    if h[0] != 5 || h[1] != 1 || h[2] != 0 {
        return Err(Socks5Error::UnsupportedRequest);
    }
    match h[3] {
        1 => Ok(AddressKind::Ipv4),
        3 => Ok(AddressKind::Domain),
        4 => Ok(AddressKind::Ipv6),
        t => Err(Socks5Error::UnsupportedAddressType(t)),
    }
}

/// A port sent as two big-endian bytes.
pub fn port_of(b: [u8; 2]) -> (r: u16)
    ensures
        r == b@[0] * 256 + b@[1],
{
    (b[0] as u16) * 256 + (b[1] as u16)
}

/// Dotted-decimal text of an IPv4 address.
pub open spec fn ipv4_text(ip: Seq<u8>) -> Seq<char> {
    decimal_digits(ip[0] as nat) + seq!['.'] + decimal_digits(ip[1] as nat) + seq!['.'] + decimal_digits(ip[2] as nat)
        + seq!['.'] + decimal_digits(ip[3] as nat)
}

/// The IPv4 address as text, e.g. `192.168.1.7`.
pub fn ipv4_to_string(ip: [u8; 4]) -> (r: String)
    ensures
        r@ == ipv4_text(ip@),
{
    let mut s = String::new();
    push_decimal(&mut s, ip[0] as u64);
    push_char(&mut s, '.');
    push_decimal(&mut s, ip[1] as u64);
    push_char(&mut s, '.');
    push_decimal(&mut s, ip[2] as u64);
    push_char(&mut s, '.');
    push_decimal(&mut s, ip[3] as u64);
    assert(s@ =~= ipv4_text(ip@));
    s
}

/// The answer to a request: version 5, success (0) or host unreachable (4),
/// an IPv4 bind address of zeros and port zero.
pub fn connect_reply(success: bool) -> (r: [u8; 10])
    ensures
        r@ == seq![5u8, if success { 0u8 } else { 4u8 }, 0u8, 1u8, 0u8, 0u8, 0u8, 0u8, 0u8, 0u8],
{
    let code: u8 = if success { 0 } else { 4 };
    let r: [u8; 10] = [5, code, 0, 1, 0, 0, 0, 0, 0, 0];
    assert(r@ =~= seq![5u8, if success { 0u8 } else { 4u8 }, 0u8, 1u8, 0u8, 0u8, 0u8, 0u8, 0u8, 0u8]);
    r
}

} // verus!
