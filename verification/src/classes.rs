//! CLASS values, all of which are QCLASS values too.

use vstd::prelude::*;

verus! {

/// The Internet class.
pub const DNS_CLASS_IN: u16 = 1;

/// The CSNET class (obsolete).
pub const DNS_CLASS_CS: u16 = 2;

/// The CHAOS class.
pub const DNS_CLASS_CH: u16 = 3;

/// The HESIOD class.
pub const DNS_CLASS_HS: u16 = 4;

} // verus!
