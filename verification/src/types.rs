//! TYPE values, all of which are QTYPE values too.

use vstd::prelude::*;

verus! {

/// An IPv4 host address.
pub const DNS_TYPE_A: u16 = 1;

/// An authoritative name server.
pub const DNS_TYPE_NS: u16 = 2;

/// A mail destination (obsolete, replaced by MX).
pub const DNS_TYPE_MD: u16 = 3;

/// A mail forwarder (obsolete, replaced by MX).
pub const DNS_TYPE_MF: u16 = 4;

/// The canonical name for an alias.
pub const DNS_TYPE_CNAME: u16 = 5;

/// Marks the start of a zone of authority.
pub const DNS_TYPE_SOA: u16 = 6;

/// A mailbox domain name.
pub const DNS_TYPE_MB: u16 = 7;

/// A mail group member.
pub const DNS_TYPE_MG: u16 = 8;

/// A mail rename domain name.
pub const DNS_TYPE_MR: u16 = 9;

/// An experimental record that may hold any data.
pub const DNS_TYPE_NULL: u16 = 10;

/// A well known service description.
pub const DNS_TYPE_WKS: u16 = 11;

/// A domain name pointer.
pub const DNS_TYPE_PTR: u16 = 12;

/// Host information.
pub const DNS_TYPE_HINFO: u16 = 13;

/// Mailbox or mail list information.
pub const DNS_TYPE_MINFO: u16 = 14;

/// Mail exchange.
pub const DNS_TYPE_MX: u16 = 15;

/// Text strings.
pub const DNS_TYPE_TXT: u16 = 16;

/// An IPv6 host address.
pub const DNS_TYPE_AAAA: u16 = 28;

/// The location of a service for a specific protocol.
pub const DNS_TYPE_SRV: u16 = 33;

} // verus!
