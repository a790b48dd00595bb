//! Example DNS packets in network format.

use vstd::prelude::*;

verus! {

/// A query for the A records of `www.google.com.`.
pub const BASIC_QUERY: [u8; 32] = [
    0x24, 0xB1, // ID
    0x01, 0x80, // QR=0, OPCODE=0, AA=0, TC=0, RD=1, RA=1, Z=0, RCODE=0
    0x00, 0x01, // QDCOUNT
    0x00, 0x00, // ANCOUNT
    0x00, 0x00, // NSCOUNT
    0x00, 0x00, // ARCOUNT
    0x03, 0x77, 0x77, 0x77, // www
    0x06, 0x67, 0x6F, 0x6F, 0x67, 0x6C, 0x65, // google
    0x03, 0x63, 0x6F, 0x6D, // com
    0x00, // root
    0x00, 0x01, // QTYPE=1
    0x00, 0x01, // QCLASS=1
];

/// A response to `BASIC_QUERY` with one A record.
pub const BASIC_QUERY_RESPONSE: [u8; 48] = [
    0x24, 0xB1, // ID
    0x81, 0x80, // QR=1, OPCODE=0, AA=0, TC=0, RD=1, RA=1, Z=0, RCODE=0
    0x00, 0x01, // QDCOUNT
    0x00, 0x01, // ANCOUNT
    0x00, 0x00, // NSCOUNT
    0x00, 0x00, // ARCOUNT
    0x03, 0x77, 0x77, 0x77, // www
    0x06, 0x67, 0x6F, 0x6F, 0x67, 0x6C, 0x65, // google
    0x03, 0x63, 0x6F, 0x6D, // com
    0x00, // root
    0x00, 0x01, // QTYPE=1
    0x00, 0x01, // QCLASS=1
    0xC0, 0x0C, // pointer to www.google.com.
    0x00, 0x01, // TYPE=1
    0x00, 0x01, // CLASS=1
    0x00, 0x00, 0x02, 0x58, // TTL=600
    0x00, 0x04, // RDLENGTH=4
    0xD8, 0x3A, 0xD9, 0x24, // RDATA=216.58.217.36
];

/// A query with two questions, the name of the second compressed against
/// the name of the first.
pub const NAME_COMPRESSION_QUERY: [u8; 46] = [
    0x24, 0xB1, // ID
    0x01, 0x80, // QR=0, OPCODE=0, AA=0, TC=0, RD=1, RA=1, Z=0, RCODE=0
    0x00, 0x02, // QDCOUNT
    0x00, 0x00, // ANCOUNT
    0x00, 0x00, // NSCOUNT
    0x00, 0x00, // ARCOUNT
    0x03, 0x77, 0x77, 0x77, // www
    0x06, 0x67, 0x6F, 0x6F, 0x67, 0x6C, 0x65, // google
    0x03, 0x63, 0x6F, 0x6D, // com
    0x00, // root
    0x00, 0x01, // QTYPE=1
    0x00, 0x01, // QCLASS=1
    0x07, 0x70, 0x6F, 0x69, 0x6E, 0x74, 0x65, 0x72, // pointer
    0xC0, 0x0C, // pointer to www.google.com.
    0x00, 0x02, // QTYPE=2
    0x00, 0x03, // QCLASS=3
];

} // verus!
