use crate::error::DnsError;
use crate::opcodes::DNS_OPCODE_QUERY;
use crate::rcodes::DNS_RCODE_NO_ERROR;
use crate::wire::{
    lemma_u16_round_trip, lemma_u16_wire_of_read, push_u16, read_u16, u16_at, u16_wire,
};
use crate::DNS_HEADER_SIZE;
use vstd::prelude::*;

verus! {

/// DNS packet header.
#[derive(Debug, Clone, Copy, PartialEq, Eq, Structural)]
pub struct DnsHeader {
    /// The ID of the query and of its response.
    pub id: u16,
    /// False if the packet is a query, true if it is a response.
    pub qr: bool,
    /// OPCODE of the query, four bits on the wire. Valid values are 0 to 2.
    pub opcode: u8,
    /// True if the answer is authoritative.
    pub aa: bool,
    /// True if the packet was truncated to fit the message length.
    pub tc: bool,
    /// True if recursion is desired.
    pub rd: bool,
    /// True in a response if the server supports recursive queries.
    pub ra: bool,
    /// Reserved, three bits on the wire; must be 0.
    pub z: u8,
    /// The response code, four bits on the wire.
    pub rcode: u8,
    /// The number of entries in the question section.
    pub qdcount: u16,
    /// The number of entries in the answer section.
    pub ancount: u16,
    /// The number of name server records in the authority section.
    pub nscount: u16,
    /// The number of entries in the additional section.
    pub arcount: u16,
}

/// 1 for a set flag, 0 for a cleared one.
pub open spec fn bit(flag: bool) -> int {
    if flag {
        1
    } else {
        0
    }
}

/// The header that the first twelve bytes of `buf` hold.
///
/// Byte 2 holds QR (bit 7), OPCODE (bits 6 to 3), AA (bit 2), TC (bit 1) and
/// RD (bit 0); byte 3 holds RA (bit 7), Z (bits 6 to 4) and RCODE (bits 3 to
/// 0); the four counts follow, big-endian.
pub open spec fn header_at(buf: Seq<u8>) -> DnsHeader {
    DnsHeader {
        id: u16_at(buf, 0),
        qr: buf[2] / 128 == 1,
        opcode: (buf[2] / 8) % 16,
        aa: (buf[2] / 4) % 2 == 1,
        tc: (buf[2] / 2) % 2 == 1,
        rd: buf[2] % 2 == 1,
        ra: buf[3] / 128 == 1,
        z: (buf[3] / 16) % 8,
        rcode: buf[3] % 16,
        qdcount: u16_at(buf, 4),
        ancount: u16_at(buf, 6),
        nscount: u16_at(buf, 8),
        arcount: u16_at(buf, 10),
    }
}

/// The byte that holds QR, OPCODE, AA, TC and RD. Of OPCODE the low four
/// bits are kept.
pub open spec fn flags_high(h: DnsHeader) -> u8 {
    (128 * bit(h.qr) + 8 * (h.opcode % 16) + 4 * bit(h.aa) + 2 * bit(h.tc) + bit(h.rd)) as u8
}

/// The byte that holds RA, Z and RCODE. Of Z the low three bits are kept, of
/// RCODE the low four.
pub open spec fn flags_low(h: DnsHeader) -> u8 {
    (128 * bit(h.ra) + 16 * (h.z % 8) + h.rcode % 16) as u8
}

/// The twelve bytes of a header.
pub open spec fn header_wire(h: DnsHeader) -> Seq<u8> {
    u16_wire(h.id) + seq![flags_high(h), flags_low(h)] + u16_wire(h.qdcount) + u16_wire(
        h.ancount,
    ) + u16_wire(h.nscount) + u16_wire(h.arcount)
}

/// The header of a fresh query with the given ID: a standard query that
/// desires recursion, with all counts 0.
pub open spec fn query_header(id: u16) -> DnsHeader {
    DnsHeader {
        id,
        qr: false,
        opcode: DNS_OPCODE_QUERY,
        aa: false,
        tc: false,
        rd: true,
        ra: false,
        z: 0,
        rcode: DNS_RCODE_NO_ERROR,
        qdcount: 0,
        ancount: 0,
        nscount: 0,
        arcount: 0,
    }
}

proof fn lemma_flag_bits(b: u8)
    by (bit_vector)
    ensures
        ((b & 0x80) == 0x80) == (b / 128 == 1),
        ((b & 0x4) == 0x4) == ((b / 4) % 2 == 1),
        ((b & 0x2) == 0x2) == ((b / 2) % 2 == 1),
        ((b & 0x1) == 0x1) == (b % 2 == 1),
{
}

proof fn lemma_field_bits(b: u8)
    by (bit_vector)
    ensures
        ((b & 0x78) >> 3) == (b / 8) % 16,
        ((b & 0x70) >> 4) == (b / 16) % 8,
        (b & 0xF) == b % 16,
{
}

proof fn lemma_pack_high(qr: u8, opcode: u8, aa: u8, tc: u8, rd: u8)
    by (bit_vector)
    requires
        qr <= 1,
        aa <= 1,
        tc <= 1,
        rd <= 1,
    ensures
        (qr << 7 | (opcode & 0xF) << 3 | aa << 2 | tc << 1 | rd) == 128 * qr + 8 * (opcode % 16)
            + 4 * aa + 2 * tc + rd,
{
}

proof fn lemma_pack_low(ra: u8, z: u8, rcode: u8)
    by (bit_vector)
    requires
        ra <= 1,
    ensures
        (ra << 7 | (z & 0x7) << 4 | (rcode & 0xF)) == 128 * ra + 16 * (z % 8) + rcode % 16,
{
}

/// A byte is made of its bits.
proof fn lemma_byte_of_bits(b: u8)
    ensures
        b == 128 * bit(b / 128 == 1) + 8 * ((b / 8) % 16) + 4 * bit((b / 4) % 2 == 1) + 2 * bit(
            (b / 2) % 2 == 1,
        ) + bit(b % 2 == 1),
        b == 128 * bit(b / 128 == 1) + 16 * ((b / 16) % 8) + b % 16,
{
}

/// Serializing the header that a buffer holds gives back the first twelve
/// bytes of the buffer.
pub proof fn lemma_header_wire_of_parsed(buf: Seq<u8>)
    requires
        buf.len() >= DNS_HEADER_SIZE,
    ensures
        header_wire(header_at(buf)) == buf.subrange(0, DNS_HEADER_SIZE as int),
{
    let h = header_at(buf);
    lemma_u16_wire_of_read(buf, 0);
    lemma_u16_wire_of_read(buf, 4);
    lemma_u16_wire_of_read(buf, 6);
    lemma_u16_wire_of_read(buf, 8);
    lemma_u16_wire_of_read(buf, 10);
    lemma_byte_of_bits(buf[2]);
    lemma_byte_of_bits(buf[3]);
    assert(flags_high(h) == buf[2]);
    assert(flags_low(h) == buf[3]);
    assert(header_wire(h) =~= buf.subrange(0, DNS_HEADER_SIZE as int));
}

/// Parsing the bytes of a header gives back the header, if its OPCODE, Z and
/// RCODE fit into their bits.
pub proof fn lemma_header_parsed_of_wire(h: DnsHeader)
    requires
        h.opcode < 16,
        h.z < 8,
        h.rcode < 16,
    ensures
        header_wire(h).len() == DNS_HEADER_SIZE,
        header_at(header_wire(h)) == h,
{
    let wire = header_wire(h);
    lemma_u16_round_trip(h.id);
    lemma_u16_round_trip(h.qdcount);
    lemma_u16_round_trip(h.ancount);
    lemma_u16_round_trip(h.nscount);
    lemma_u16_round_trip(h.arcount);
    assert(wire[2] == flags_high(h));
    assert(wire[3] == flags_low(h));
    let parsed = header_at(wire);
    assert(parsed.id == h.id);
    assert(parsed.qdcount == h.qdcount);
    assert(parsed.ancount == h.ancount);
    assert(parsed.nscount == h.nscount);
    assert(parsed.arcount == h.arcount);
}

/// The random number that `rand::random` draws for a message ID.
///
/// Nothing is promised of the number. The generator of the current thread
/// is seeded from the operating system on first use, and `rand` panics where
/// the system cannot seed it.
#[verifier::external_body]
fn random_id() -> (id: u16) {
    rand::random()
}

impl DnsHeader {
    /// The header of a fresh query with the given ID.
    pub fn query(id: u16) -> (header: DnsHeader)
        ensures
            header == query_header(id),
    {
        DnsHeader {
            id,
            qr: false,
            opcode: DNS_OPCODE_QUERY,
            aa: false,
            tc: false,
            rd: true,
            ra: false,
            z: 0,
            rcode: DNS_RCODE_NO_ERROR,
            qdcount: 0,
            ancount: 0,
            nscount: 0,
            arcount: 0,
        }
    }

    /// The header of a fresh query with a random ID.
    pub fn new() -> (r: Result<DnsHeader, DnsError>)
        ensures
            r matches Ok(header) && header == query_header(header.id),
    {
        Ok(DnsHeader::query(random_id()))
    }

    /// Parses the header at the start of a raw DNS packet.
    pub fn parse_dns_header(dns_packet_buf: &Vec<u8>) -> (r: Result<DnsHeader, DnsError>)
        ensures
            dns_packet_buf@.len() < DNS_HEADER_SIZE ==> r == Err::<DnsHeader, DnsError>(
                DnsError::TooShort,
            ),
            dns_packet_buf@.len() >= DNS_HEADER_SIZE ==> r == Ok::<DnsHeader, DnsError>(
                header_at(dns_packet_buf@),
            ),
    {
        if dns_packet_buf.len() < DNS_HEADER_SIZE {
            return Err(DnsError::TooShort);
        }
        let high = dns_packet_buf[2];
        let low = dns_packet_buf[3];
        proof {
            lemma_flag_bits(high);
            lemma_flag_bits(low);
            lemma_field_bits(high);
            lemma_field_bits(low);
        }
        Ok(
            DnsHeader {
                id: read_u16(dns_packet_buf, 0),
                qr: (high & 0x80) == 0x80,
                opcode: (high & 0x78) >> 3,
                aa: (high & 0x4) == 0x4,
                tc: (high & 0x2) == 0x2,
                rd: (high & 0x1) == 0x1,
                ra: (low & 0x80) == 0x80,
                z: (low & 0x70) >> 4,
                rcode: low & 0xF,
                qdcount: read_u16(dns_packet_buf, 4),
                ancount: read_u16(dns_packet_buf, 6),
                nscount: read_u16(dns_packet_buf, 8),
                arcount: read_u16(dns_packet_buf, 10),
            },
        )
    }

    /// Serializes the header into its twelve bytes.
    pub fn serialize(&self) -> (buf: Vec<u8>)
        ensures
            buf@ == header_wire(*self),
    {
        let mut buf = Vec::new();
        push_u16(&mut buf, self.id);
        let qr: u8 = if self.qr { 1 } else { 0 };
        let aa: u8 = if self.aa { 1 } else { 0 };
        let tc: u8 = if self.tc { 1 } else { 0 };
        let rd: u8 = if self.rd { 1 } else { 0 };
        let ra: u8 = if self.ra { 1 } else { 0 };
        proof {
            lemma_pack_high(qr, self.opcode, aa, tc, rd);
            lemma_pack_low(ra, self.z, self.rcode);
        }
        buf.push(qr << 7 | (self.opcode & 0xF) << 3 | aa << 2 | tc << 1 | rd);
        buf.push(ra << 7 | (self.z & 0x7) << 4 | (self.rcode & 0xF));
        push_u16(&mut buf, self.qdcount);
        push_u16(&mut buf, self.ancount);
        push_u16(&mut buf, self.nscount);
        push_u16(&mut buf, self.arcount);
        assert(buf@ =~= header_wire(*self));
        buf
    }
}

} // verus!
