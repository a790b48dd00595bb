//! RCODE values.

use vstd::prelude::*;

verus! {

/// No error condition.
pub const DNS_RCODE_NO_ERROR: u8 = 0;

/// Format error: the name server was unable to interpret the query.
pub const DNS_RCODE_FORMAT_ERROR: u8 = 1;

/// Server failure: the name server was unable to process this query.
pub const DNS_RCODE_SERVER_ERROR: u8 = 2;

/// Name error: the domain name referenced in the query does not exist.
/// Meaningful only for responses from an authoritative server.
pub const DNS_RCODE_NAME_ERROR: u8 = 3;

/// Not implemented: the name server does not support the requested kind of
/// query.
pub const DNS_RCODE_NOT_IMPLEMENTED: u8 = 4;

/// Refused: the name server refuses to perform the specified operation.
pub const DNS_RCODE_REFUSED: u8 = 5;

} // verus!
