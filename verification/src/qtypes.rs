//! QTYPE values, used in the question section of a DNS packet.

use vstd::prelude::*;

verus! {

/// A request for a transfer of an entire zone.
pub const DNS_QTYPE_AXFR: u16 = 252;

/// A request for mailbox-related records (MB, MG or MR).
pub const DNS_QTYPE_MAILB: u16 = 253;

/// A request for mail agent records (obsolete, see MX).
pub const DNS_QTYPE_MAILA: u16 = 254;

/// A request for all records.
pub const DNS_QTYPE_ANY: u16 = 255;

} // verus!
