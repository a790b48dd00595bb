//! QCLASS values, used in the question section of a DNS packet.

use vstd::prelude::*;

verus! {

/// Any class.
pub const DNS_QCLASS_ANY: u16 = 255;

} // verus!
