//! DNS OPCODE values.

use vstd::prelude::*;

verus! {

/// A standard query (QUERY).
pub const DNS_OPCODE_QUERY: u8 = 0;

/// An inverse query (IQUERY).
pub const DNS_OPCODE_IQUERY: u8 = 1;

/// A server status request (STATUS).
pub const DNS_OPCODE_STATUS: u8 = 2;

} // verus!
