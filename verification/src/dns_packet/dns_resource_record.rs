use crate::address::{Ipv4Address, Ipv6Address};
use crate::dns_packet::dns_question::offset_after;
use crate::domain_name::{
    decode_name, is_domain_name_valid, label_text, label_wire, lemma_decode_name_limit,
    name_wire, offsets_after_name, parse_domain_name, parsed_text, serialize_domain_name_at,
    valid_name,
};
use crate::error::DnsError;
use crate::name_offsets::NameOffsets;
use crate::types::{
    DNS_TYPE_A, DNS_TYPE_AAAA, DNS_TYPE_CNAME, DNS_TYPE_HINFO, DNS_TYPE_MB, DNS_TYPE_MD,
    DNS_TYPE_MF, DNS_TYPE_MG, DNS_TYPE_MINFO, DNS_TYPE_MR, DNS_TYPE_MX, DNS_TYPE_NS,
    DNS_TYPE_NULL, DNS_TYPE_PTR, DNS_TYPE_SOA, DNS_TYPE_SRV, DNS_TYPE_TXT, DNS_TYPE_WKS,
};
use crate::wire::{
    copy_range, lemma_u16_wire_of_read, push_bytes, push_u16, push_u32, read_u16, read_u32,
    u16_at, u16_wire, u32_at, u32_wire,
};
use vstd::prelude::*;
use vstd::string::*;

verus! {

// ---------------------------------------------------------------------------
// Character strings
// ---------------------------------------------------------------------------

/// The largest number of characters that a character-string holds.
pub const MAX_CHARACTER_STRING: usize = 255;

/// The character-string at `start`: a length byte, then that many bytes,
/// each standing for the character with its code. It must end inside the
/// buffer and not past `limit`. With it comes the position after it.
pub open spec fn character_string_at(buf: Seq<u8>, start: int, limit: int) -> Result<
    (Seq<char>, int),
    DnsError,
> {
    if start < 0 || start >= buf.len() {
        Err(DnsError::TooShort)
    } else {
        let end = start + 1 + buf[start];
        if end > buf.len() {
            Err(DnsError::TooShort)
        } else if end > limit {
            Err(DnsError::RdataTooShort)
        } else {
            Ok((label_text(buf.subrange(start + 1, end)), end))
        }
    }
}

/// The wire form of a character-string of at most 255 characters: their
/// number, then each character by its code.
pub open spec fn character_string_wire(text: Seq<char>) -> Seq<u8> {
    seq![text.len() as u8] + label_wire(text)
}

/// Parses the character-string at `start`.
pub fn parse_character_string(buf: &Vec<u8>, start: usize, limit: usize) -> (r: Result<
    (String, usize),
    DnsError,
>)
    ensures
        parsed_text(r) == character_string_at(buf@, start as int, limit as int),
{
    if start >= buf.len() {
        return Err(DnsError::TooShort);
    }
    let length = buf[start] as usize;
    if length > buf.len() - start - 1 {
        return Err(DnsError::TooShort);
    }
    let end = start + 1 + length;
    if end > limit {
        return Err(DnsError::RdataTooShort);
    }
    let mut character_string = String::new();
    let mut i: usize = start + 1;
    while i < end
        invariant
            start + 1 <= i <= end <= buf.len(),
            character_string@ == label_text(buf@.subrange(start + 1, i as int)),
        decreases end - i,
    {
        character_string.push(buf[i] as char);
        assert(buf@.subrange(start + 1, i + 1) =~= buf@.subrange(start + 1, i as int).push(
            buf@[i as int],
        ));
        assert(character_string@ =~= label_text(buf@.subrange(start + 1, i + 1)));
        i += 1;
    }
    Ok((character_string, end))
}

/// Appends the wire form of a character-string to `buf`.
pub fn serialize_character_string(character_string: &String, buf: &mut Vec<u8>) -> (r: Result<
    (),
    DnsError,
>)
    ensures
        character_string@.len() <= MAX_CHARACTER_STRING ==> {
            &&& r == Ok::<(), DnsError>(())
            &&& final(buf)@ == old(buf)@ + character_string_wire(character_string@)
        },
        character_string@.len() > MAX_CHARACTER_STRING ==> {
            &&& r == Err::<(), DnsError>(DnsError::CharacterStringTooLong)
            &&& final(buf)@ == old(buf)@
        },
{
    let text = character_string.as_str();
    let length = text.unicode_len();
    if length > MAX_CHARACTER_STRING {
        return Err(DnsError::CharacterStringTooLong);
    }
    buf.push(length as u8);
    let ghost written = buf@;
    for c in it: text.chars()
        invariant
            it.seq() == character_string@,
            written == old(buf)@.push(character_string@.len() as u8),
            buf@ == written + label_wire(character_string@.take(it.index() as int)),
    {
        buf.push(c as u8);
        proof {
            let k = it.index() as int;
            assert(character_string@.take(k + 1) =~= character_string@.take(k).push(c));
            assert(buf@ =~= written + label_wire(character_string@.take(k + 1)));
        }
    }
    proof {
        assert(character_string@.take(character_string@.len() as int) =~= character_string@);
        assert(buf@ =~= old(buf)@ + character_string_wire(character_string@));
    }
    Ok(())
}

// ---------------------------------------------------------------------------
// Record data
// ---------------------------------------------------------------------------

/// The data of a resource record, by record type.
#[derive(Debug, PartialEq, Eq)]
pub enum DnsResourceRecordData {
    /// An IPv4 host address.
    A(Ipv4Address),
    /// An authoritative name server.
    NS(String),
    /// A mail destination (obsolete, replaced by MX).
    MD(String),
    /// A mail forwarder (obsolete, replaced by MX).
    MF(String),
    /// The canonical name for an alias.
    CNAME(String),
    /// The start of a zone of authority: primary name server, mailbox of the
    /// person responsible, serial, refresh, retry, expire, minimum.
    SOA((String, String, u32, u32, u32, u32, u32)),
    /// A mailbox domain name.
    MB(String),
    /// A mail group member.
    MG(String),
    /// A mail rename domain name.
    MR(String),
    /// An experimental record that may hold any data.
    NULL(Vec<u8>),
    /// A well known service description: address, protocol, bit map.
    WKS((Ipv4Address, u8, Vec<u8>)),
    /// A domain name pointer.
    PTR(String),
    /// Host information: CPU and operating system.
    HINFO((String, String)),
    /// Mailbox or mail list information: responsible mailbox, error mailbox.
    MINFO((String, String)),
    /// Mail exchange: preference and host.
    MX((u16, String)),
    /// Text strings.
    TXT(String),
    /// An IPv6 host address.
    AAAA(Ipv6Address),
    /// The location of a service: priority, weight, port, target.
    SRV((u16, u16, u16, String)),
}

/// The mathematical value of record data: names and texts as sequences of
/// characters, addresses and blobs as sequences of bytes.
pub enum RecordData {
    A(Seq<u8>),
    NS(Seq<char>),
    MD(Seq<char>),
    MF(Seq<char>),
    CNAME(Seq<char>),
    SOA(Seq<char>, Seq<char>, u32, u32, u32, u32, u32),
    MB(Seq<char>),
    MG(Seq<char>),
    MR(Seq<char>),
    NULL(Seq<u8>),
    WKS(Seq<u8>, u8, Seq<u8>),
    PTR(Seq<char>),
    HINFO(Seq<char>, Seq<char>),
    MINFO(Seq<char>, Seq<char>),
    MX(u16, Seq<char>),
    TXT(Seq<char>),
    AAAA(Seq<u8>),
    SRV(u16, u16, u16, Seq<char>),
}

impl View for DnsResourceRecordData {
    type V = RecordData;

    open spec fn view(&self) -> RecordData {
        match self {
            DnsResourceRecordData::A(address) => RecordData::A(address@),
            DnsResourceRecordData::NS(name) => RecordData::NS(name@),
            DnsResourceRecordData::MD(name) => RecordData::MD(name@),
            DnsResourceRecordData::MF(name) => RecordData::MF(name@),
            DnsResourceRecordData::CNAME(name) => RecordData::CNAME(name@),
            DnsResourceRecordData::SOA(soa) => RecordData::SOA(
                soa.0@,
                soa.1@,
                soa.2,
                soa.3,
                soa.4,
                soa.5,
                soa.6,
            ),
            DnsResourceRecordData::MB(name) => RecordData::MB(name@),
            DnsResourceRecordData::MG(name) => RecordData::MG(name@),
            DnsResourceRecordData::MR(name) => RecordData::MR(name@),
            DnsResourceRecordData::NULL(data) => RecordData::NULL(data@),
            DnsResourceRecordData::WKS(wks) => RecordData::WKS(wks.0@, wks.1, wks.2@),
            DnsResourceRecordData::PTR(name) => RecordData::PTR(name@),
            DnsResourceRecordData::HINFO(hinfo) => RecordData::HINFO(hinfo.0@, hinfo.1@),
            DnsResourceRecordData::MINFO(minfo) => RecordData::MINFO(minfo.0@, minfo.1@),
            DnsResourceRecordData::MX(mx) => RecordData::MX(mx.0, mx.1@),
            DnsResourceRecordData::TXT(text) => RecordData::TXT(text@),
            DnsResourceRecordData::AAAA(address) => RecordData::AAAA(address@),
            DnsResourceRecordData::SRV(srv) => RecordData::SRV(srv.0, srv.1, srv.2, srv.3@),
        }
    }
}

/// Record data that is one domain name, of the type `rrtype`.
pub open spec fn name_data(rrtype: u16, name: Seq<char>) -> RecordData {
    if rrtype == DNS_TYPE_NS {
        RecordData::NS(name)
    } else if rrtype == DNS_TYPE_MD {
        RecordData::MD(name)
    } else if rrtype == DNS_TYPE_MF {
        RecordData::MF(name)
    } else if rrtype == DNS_TYPE_CNAME {
        RecordData::CNAME(name)
    } else if rrtype == DNS_TYPE_MB {
        RecordData::MB(name)
    } else if rrtype == DNS_TYPE_MG {
        RecordData::MG(name)
    } else if rrtype == DNS_TYPE_MR {
        RecordData::MR(name)
    } else {
        RecordData::PTR(name)
    }
}

/// The record types whose data is one domain name.
pub open spec fn is_name_type(rrtype: u16) -> bool {
    rrtype == DNS_TYPE_NS || rrtype == DNS_TYPE_MD || rrtype == DNS_TYPE_MF || rrtype
        == DNS_TYPE_CNAME || rrtype == DNS_TYPE_MB || rrtype == DNS_TYPE_MG || rrtype
        == DNS_TYPE_MR || rrtype == DNS_TYPE_PTR
}

/// The data of a record of one domain name.
pub open spec fn name_data_at(rrtype: u16, buf: Seq<u8>, start: int, limit: int) -> Result<
    RecordData,
    DnsError,
> {
    match decode_name(buf, start, limit) {
        Ok((name, _)) => Ok(name_data(rrtype, name)),
        Err(e) => Err(e),
    }
}

/// The data of an MX record: a 16-bit preference, then the name of the host.
pub open spec fn mx_at(buf: Seq<u8>, start: int, rdlength: u16) -> Result<RecordData, DnsError> {
    if rdlength <= 2 {
        Err(DnsError::RdataTooShort)
    } else if start + 2 > buf.len() {
        Err(DnsError::TooShort)
    } else {
        match decode_name(buf, start + 2, start + rdlength) {
            Ok((exchange, _)) => Ok(RecordData::MX(u16_at(buf, start), exchange)),
            Err(e) => Err(e),
        }
    }
}

/// The data of an SOA record: two names, then five 32-bit integers, for
/// which the declared length must leave room after the names.
pub open spec fn soa_at(buf: Seq<u8>, start: int, rdlength: u16) -> Result<RecordData, DnsError> {
    match decode_name(buf, start, start + rdlength) {
        Err(e) => Err(e),
        Ok((mname, middle)) => match decode_name(buf, middle, start + rdlength) {
            Err(e) => Err(e),
            Ok((rname, end)) => if end - start > rdlength || rdlength - (end - start) < 20 {
                Err(DnsError::RdataTooShort)
            } else if end + 20 > buf.len() {
                Err(DnsError::TooShort)
            } else {
                Ok(
                    RecordData::SOA(
                        mname,
                        rname,
                        u32_at(buf, end),
                        u32_at(buf, end + 4),
                        u32_at(buf, end + 8),
                        u32_at(buf, end + 12),
                        u32_at(buf, end + 16),
                    ),
                )
            },
        },
    }
}

/// The data of an SRV record: priority, weight and port, then the name of
/// the target.
pub open spec fn srv_at(buf: Seq<u8>, start: int, rdlength: u16) -> Result<RecordData, DnsError> {
    if rdlength < 7 {
        Err(DnsError::RdataTooShort)
    } else if start + 6 > buf.len() {
        Err(DnsError::TooShort)
    } else {
        match decode_name(buf, start + 6, start + rdlength) {
            Ok((target, _)) => Ok(
                RecordData::SRV(
                    u16_at(buf, start),
                    u16_at(buf, start + 2),
                    u16_at(buf, start + 4),
                    target,
                ),
            ),
            Err(e) => Err(e),
        }
    }
}

/// The data of a WKS record: an address, a protocol number, and a bit map
/// that fills the rest of the declared length.
pub open spec fn wks_at(buf: Seq<u8>, start: int, rdlength: u16) -> Result<RecordData, DnsError> {
    if rdlength < 5 {
        Err(DnsError::RdataTooShort)
    } else if start + rdlength > buf.len() {
        Err(DnsError::TooShort)
    } else {
        Ok(
            RecordData::WKS(
                buf.subrange(start, start + 4),
                buf[start + 4],
                buf.subrange(start + 5, start + rdlength),
            ),
        )
    }
}

/// The data of a HINFO record: two character-strings.
pub open spec fn hinfo_at(buf: Seq<u8>, start: int, limit: int) -> Result<RecordData, DnsError> {
    match character_string_at(buf, start, limit) {
        Err(e) => Err(e),
        Ok((cpu, middle)) => match character_string_at(buf, middle, limit) {
            Err(e) => Err(e),
            Ok((os, _)) => Ok(RecordData::HINFO(cpu, os)),
        },
    }
}

/// The data of a MINFO record: two names.
pub open spec fn minfo_at(buf: Seq<u8>, start: int, limit: int) -> Result<RecordData, DnsError> {
    match decode_name(buf, start, limit) {
        Err(e) => Err(e),
        Ok((rmailbx, middle)) => match decode_name(buf, middle, limit) {
            Err(e) => Err(e),
            Ok((emailbx, _)) => Ok(RecordData::MINFO(rmailbx, emailbx)),
        },
    }
}

/// The data of an address record of `size` octets, which must be the
/// declared length.
pub open spec fn address_at(buf: Seq<u8>, start: int, rdlength: u16, size: int) -> Result<
    Seq<u8>,
    DnsError,
> {
    if rdlength != size {
        Err(DnsError::RdataTooShort)
    } else if start + size > buf.len() {
        Err(DnsError::TooShort)
    } else {
        Ok(buf.subrange(start, start + size))
    }
}

/// The data of a record of type `rrtype` whose `rdlength` bytes of data
/// stand at `start`. Names inside it are decoded with the end of the data as
/// their limit. A type that is not supported is an error.
pub open spec fn rdata_at(rrtype: u16, buf: Seq<u8>, start: int, rdlength: u16) -> Result<
    RecordData,
    DnsError,
> {
    let limit = start + rdlength;
    if rrtype == DNS_TYPE_A {
        match address_at(buf, start, rdlength, 4) {
            Ok(octets) => Ok(RecordData::A(octets)),
            Err(e) => Err(e),
        }
    } else if rrtype == DNS_TYPE_AAAA {
        match address_at(buf, start, rdlength, 16) {
            Ok(octets) => Ok(RecordData::AAAA(octets)),
            Err(e) => Err(e),
        }
    } else if is_name_type(rrtype) {
        name_data_at(rrtype, buf, start, limit)
    } else if rrtype == DNS_TYPE_MX {
        mx_at(buf, start, rdlength)
    } else if rrtype == DNS_TYPE_SOA {
        soa_at(buf, start, rdlength)
    } else if rrtype == DNS_TYPE_TXT {
        match character_string_at(buf, start, limit) {
            Ok((text, _)) => Ok(RecordData::TXT(text)),
            Err(e) => Err(e),
        }
    } else if rrtype == DNS_TYPE_SRV {
        srv_at(buf, start, rdlength)
    } else if rrtype == DNS_TYPE_NULL {
        if limit > buf.len() {
            Err(DnsError::TooShort)
        } else {
            Ok(RecordData::NULL(buf.subrange(start, limit)))
        }
    } else if rrtype == DNS_TYPE_WKS {
        wks_at(buf, start, rdlength)
    } else if rrtype == DNS_TYPE_HINFO {
        hinfo_at(buf, start, limit)
    } else if rrtype == DNS_TYPE_MINFO {
        minfo_at(buf, start, limit)
    } else {
        Err(DnsError::UnsupportedRecordType)
    }
}

/// The error of a name that cannot be serialized.
pub open spec fn name_error(name: Seq<char>) -> Option<DnsError> {
    if valid_name(name) {
        None
    } else {
        Some(DnsError::InvalidDomainName)
    }
}

/// The error of a character-string that cannot be serialized.
pub open spec fn character_string_error(text: Seq<char>) -> Option<DnsError> {
    if text.len() <= MAX_CHARACTER_STRING {
        None
    } else {
        Some(DnsError::CharacterStringTooLong)
    }
}

/// The first of two errors.
pub open spec fn first_error(first: Option<DnsError>, second: Option<DnsError>) -> Option<
    DnsError,
> {
    if first is Some {
        first
    } else {
        second
    }
}

/// Why record data cannot be serialized, where it cannot: the error of the
/// first name that is not valid or of the first character-string that is too
/// long.
pub open spec fn rdata_error(data: RecordData) -> Option<DnsError> {
    match data {
        RecordData::A(_) => None,
        RecordData::NS(name) => name_error(name),
        RecordData::MD(name) => name_error(name),
        RecordData::MF(name) => name_error(name),
        RecordData::CNAME(name) => name_error(name),
        RecordData::SOA(mname, rname, _, _, _, _, _) => first_error(
            name_error(mname),
            name_error(rname),
        ),
        RecordData::MB(name) => name_error(name),
        RecordData::MG(name) => name_error(name),
        RecordData::MR(name) => name_error(name),
        RecordData::NULL(_) => None,
        RecordData::WKS(_, _, _) => None,
        RecordData::PTR(name) => name_error(name),
        RecordData::HINFO(cpu, os) => first_error(
            character_string_error(cpu),
            character_string_error(os),
        ),
        RecordData::MINFO(rmailbx, emailbx) => first_error(
            name_error(rmailbx),
            name_error(emailbx),
        ),
        RecordData::MX(_, exchange) => name_error(exchange),
        RecordData::TXT(text) => character_string_error(text),
        RecordData::AAAA(_) => None,
        RecordData::SRV(_, _, _, target) => name_error(target),
    }
}

/// The bytes of two names written one after the other at `pos`.
pub open spec fn two_names_wire(
    first: Seq<char>,
    second: Seq<char>,
    pos: int,
    table: Map<Seq<char>, u16>,
) -> Seq<u8> {
    let head = name_wire(first, pos, table);
    head + name_wire(second, pos + head.len(), offsets_after_name(first, pos, table))
}

/// The table after two names were written one after the other at `pos`.
pub open spec fn offsets_after_two_names(
    first: Seq<char>,
    second: Seq<char>,
    pos: int,
    table: Map<Seq<char>, u16>,
) -> Map<Seq<char>, u16> {
    offsets_after_name(
        second,
        pos + name_wire(first, pos, table).len(),
        offsets_after_name(first, pos, table),
    )
}

/// The bytes that record data takes when it is written at `pos` of a message
/// whose earlier names are recorded in `table`. Every name in it is
/// compressed against the table.
pub open spec fn rdata_wire(data: RecordData, pos: int, table: Map<Seq<char>, u16>) -> Seq<u8> {
    match data {
        RecordData::A(octets) => octets,
        RecordData::NS(name) => name_wire(name, pos, table),
        RecordData::MD(name) => name_wire(name, pos, table),
        RecordData::MF(name) => name_wire(name, pos, table),
        RecordData::CNAME(name) => name_wire(name, pos, table),
        RecordData::SOA(mname, rname, serial, refresh, retry, expire, minimum) => two_names_wire(
            mname,
            rname,
            pos,
            table,
        ) + u32_wire(serial) + u32_wire(refresh) + u32_wire(retry) + u32_wire(expire) + u32_wire(
            minimum,
        ),
        RecordData::MB(name) => name_wire(name, pos, table),
        RecordData::MG(name) => name_wire(name, pos, table),
        RecordData::MR(name) => name_wire(name, pos, table),
        RecordData::NULL(data) => data,
        RecordData::WKS(address, protocol, bitmap) => address.push(protocol) + bitmap,
        RecordData::PTR(name) => name_wire(name, pos, table),
        RecordData::HINFO(cpu, os) => character_string_wire(cpu) + character_string_wire(os),
        RecordData::MINFO(rmailbx, emailbx) => two_names_wire(rmailbx, emailbx, pos, table),
        RecordData::MX(preference, exchange) => u16_wire(preference) + name_wire(
            exchange,
            pos + 2,
            table,
        ),
        RecordData::TXT(text) => character_string_wire(text),
        RecordData::AAAA(octets) => octets,
        RecordData::SRV(priority, weight, port, target) => u16_wire(priority) + u16_wire(weight)
            + u16_wire(port) + name_wire(target, pos + 6, table),
    }
}

/// The table after record data was written at `pos`.
pub open spec fn offsets_after_rdata(
    data: RecordData,
    pos: int,
    table: Map<Seq<char>, u16>,
) -> Map<Seq<char>, u16> {
    match data {
        RecordData::A(_) => table,
        RecordData::NS(name) => offsets_after_name(name, pos, table),
        RecordData::MD(name) => offsets_after_name(name, pos, table),
        RecordData::MF(name) => offsets_after_name(name, pos, table),
        RecordData::CNAME(name) => offsets_after_name(name, pos, table),
        RecordData::SOA(mname, rname, _, _, _, _, _) => offsets_after_two_names(
            mname,
            rname,
            pos,
            table,
        ),
        RecordData::MB(name) => offsets_after_name(name, pos, table),
        RecordData::MG(name) => offsets_after_name(name, pos, table),
        RecordData::MR(name) => offsets_after_name(name, pos, table),
        RecordData::NULL(_) => table,
        RecordData::WKS(_, _, _) => table,
        RecordData::PTR(name) => offsets_after_name(name, pos, table),
        RecordData::HINFO(_, _) => table,
        RecordData::MINFO(rmailbx, emailbx) => offsets_after_two_names(
            rmailbx,
            emailbx,
            pos,
            table,
        ),
        RecordData::MX(_, exchange) => offsets_after_name(exchange, pos + 2, table),
        RecordData::TXT(_) => table,
        RecordData::AAAA(_) => table,
        RecordData::SRV(_, _, _, target) => offsets_after_name(target, pos + 6, table),
    }
}

/// The view of what a parse of record data returned.
pub open spec fn parsed_data(r: Result<DnsResourceRecordData, DnsError>) -> Result<
    RecordData,
    DnsError,
> {
    match r {
        Ok(data) => Ok(data@),
        Err(e) => Err(e),
    }
}

fn name_record(rrtype: u16, name: String) -> (data: DnsResourceRecordData)
    requires
        is_name_type(rrtype),
    ensures
        data@ == name_data(rrtype, name@),
{
    if rrtype == DNS_TYPE_NS {
        DnsResourceRecordData::NS(name)
    } else if rrtype == DNS_TYPE_MD {
        DnsResourceRecordData::MD(name)
    } else if rrtype == DNS_TYPE_MF {
        DnsResourceRecordData::MF(name)
    } else if rrtype == DNS_TYPE_CNAME {
        DnsResourceRecordData::CNAME(name)
    } else if rrtype == DNS_TYPE_MB {
        DnsResourceRecordData::MB(name)
    } else if rrtype == DNS_TYPE_MG {
        DnsResourceRecordData::MG(name)
    } else if rrtype == DNS_TYPE_MR {
        DnsResourceRecordData::MR(name)
    } else {
        DnsResourceRecordData::PTR(name)
    }
}

fn is_name_record_type(rrtype: u16) -> (r: bool)
    ensures
        r == is_name_type(rrtype),
{
    rrtype == DNS_TYPE_NS || rrtype == DNS_TYPE_MD || rrtype == DNS_TYPE_MF || rrtype
        == DNS_TYPE_CNAME || rrtype == DNS_TYPE_MB || rrtype == DNS_TYPE_MG || rrtype
        == DNS_TYPE_MR || rrtype == DNS_TYPE_PTR
}

fn parse_ipv4(buf: &Vec<u8>, start: usize, rdlength: u16) -> (r: Result<Ipv4Address, DnsError>)
    ensures
        match r {
            Ok(address) => address_at(buf@, start as int, rdlength, 4) == Ok::<
                Seq<u8>,
                DnsError,
            >(address@),
            Err(e) => address_at(buf@, start as int, rdlength, 4) == Err::<Seq<u8>, DnsError>(e),
        },
{
    if rdlength != 4 {
        return Err(DnsError::RdataTooShort);
    }
    if start > buf.len() || buf.len() - start < 4 {
        return Err(DnsError::TooShort);
    }
    let address = Ipv4Address::new(buf[start], buf[start + 1], buf[start + 2], buf[start + 3]);
    assert(address@ =~= buf@.subrange(start as int, start + 4));
    Ok(address)
}

fn parse_ipv6(buf: &Vec<u8>, start: usize, rdlength: u16) -> (r: Result<Ipv6Address, DnsError>)
    ensures
        match r {
            Ok(address) => address_at(buf@, start as int, rdlength, 16) == Ok::<
                Seq<u8>,
                DnsError,
            >(address@),
            Err(e) => address_at(buf@, start as int, rdlength, 16) == Err::<Seq<u8>, DnsError>(e),
        },
{
    if rdlength != 16 {
        return Err(DnsError::RdataTooShort);
    }
    if start > buf.len() || buf.len() - start < 16 {
        return Err(DnsError::TooShort);
    }
    let address = Ipv6Address::new(
        read_u16(buf, start),
        read_u16(buf, start + 2),
        read_u16(buf, start + 4),
        read_u16(buf, start + 6),
        read_u16(buf, start + 8),
        read_u16(buf, start + 10),
        read_u16(buf, start + 12),
        read_u16(buf, start + 14),
    );
    proof {
        lemma_u16_wire_of_read(buf@, start as int);
        lemma_u16_wire_of_read(buf@, start + 2);
        lemma_u16_wire_of_read(buf@, start + 4);
        lemma_u16_wire_of_read(buf@, start + 6);
        lemma_u16_wire_of_read(buf@, start + 8);
        lemma_u16_wire_of_read(buf@, start + 10);
        lemma_u16_wire_of_read(buf@, start + 12);
        lemma_u16_wire_of_read(buf@, start + 14);
        assert(address@ =~= buf@.subrange(start as int, start + 16));
    }
    Ok(address)
}

fn parse_mx(buf: &Vec<u8>, start: usize, rdlength: u16, limit: usize) -> (r: Result<
    DnsResourceRecordData,
    DnsError,
>)
    requires
        limit == start.saturating_add(rdlength as usize),
    ensures
        parsed_data(r) == mx_at(buf@, start as int, rdlength),
{
    if rdlength <= 2 {
        return Err(DnsError::RdataTooShort);
    }
    if start > buf.len() || buf.len() - start < 2 {
        return Err(DnsError::TooShort);
    }
    let preference = read_u16(buf, start);
    proof {
        lemma_decode_name_limit(buf@, start + 2, limit as int, start + rdlength);
    }
    match parse_domain_name(buf, start + 2, limit) {
        Ok((exchange, _)) => Ok(DnsResourceRecordData::MX((preference, exchange))),
        Err(e) => Err(e),
    }
}

fn parse_soa(buf: &Vec<u8>, start: usize, rdlength: u16, limit: usize) -> (r: Result<
    DnsResourceRecordData,
    DnsError,
>)
    requires
        limit == start.saturating_add(rdlength as usize),
    ensures
        parsed_data(r) == soa_at(buf@, start as int, rdlength),
{
    proof {
        assert(buf@.len() == buf.len());
        lemma_decode_name_limit(buf@, start as int, limit as int, start + rdlength);
    }
    let (mname, middle) = parse_domain_name(buf, start, limit)?;
    proof {
        lemma_decode_name_limit(buf@, middle as int, limit as int, start + rdlength);
    }
    let (rname, end) = parse_domain_name(buf, middle, limit)?;
    let consumed = end - start;
    if consumed > rdlength as usize || rdlength as usize - consumed < 20 {
        return Err(DnsError::RdataTooShort);
    }
    if buf.len() - end < 20 {
        return Err(DnsError::TooShort);
    }
    let serial = read_u32(buf, end);
    let refresh = read_u32(buf, end + 4);
    let retry = read_u32(buf, end + 8);
    let expire = read_u32(buf, end + 12);
    let minimum = read_u32(buf, end + 16);
    Ok(DnsResourceRecordData::SOA((mname, rname, serial, refresh, retry, expire, minimum)))
}

fn parse_srv(buf: &Vec<u8>, start: usize, rdlength: u16, limit: usize) -> (r: Result<
    DnsResourceRecordData,
    DnsError,
>)
    requires
        limit == start.saturating_add(rdlength as usize),
    ensures
        parsed_data(r) == srv_at(buf@, start as int, rdlength),
{
    if rdlength < 7 {
        return Err(DnsError::RdataTooShort);
    }
    if start > buf.len() || buf.len() - start < 6 {
        return Err(DnsError::TooShort);
    }
    let priority = read_u16(buf, start);
    let weight = read_u16(buf, start + 2);
    let port = read_u16(buf, start + 4);
    proof {
        lemma_decode_name_limit(buf@, start + 6, limit as int, start + rdlength);
    }
    match parse_domain_name(buf, start + 6, limit) {
        Ok((target, _)) => Ok(DnsResourceRecordData::SRV((priority, weight, port, target))),
        Err(e) => Err(e),
    }
}

fn parse_wks(buf: &Vec<u8>, start: usize, rdlength: u16) -> (r: Result<
    DnsResourceRecordData,
    DnsError,
>)
    ensures
        parsed_data(r) == wks_at(buf@, start as int, rdlength),
{
    if rdlength < 5 {
        return Err(DnsError::RdataTooShort);
    }
    if start > buf.len() || buf.len() - start < rdlength as usize {
        return Err(DnsError::TooShort);
    }
    let address = Ipv4Address::new(buf[start], buf[start + 1], buf[start + 2], buf[start + 3]);
    assert(address@ =~= buf@.subrange(start as int, start + 4));
    let protocol = buf[start + 4];
    let bitmap = copy_range(buf, start + 5, start + rdlength as usize);
    Ok(DnsResourceRecordData::WKS((address, protocol, bitmap)))
}

fn parse_hinfo(buf: &Vec<u8>, start: usize, rdlength: u16, limit: usize) -> (r: Result<
    DnsResourceRecordData,
    DnsError,
>)
    requires
        limit == start.saturating_add(rdlength as usize),
    ensures
        parsed_data(r) == hinfo_at(buf@, start as int, start + rdlength),
{
    assert(buf@.len() == buf.len());
    let (cpu, middle) = parse_character_string(buf, start, limit)?;
    match parse_character_string(buf, middle, limit) {
        Ok((os, _)) => Ok(DnsResourceRecordData::HINFO((cpu, os))),
        Err(e) => Err(e),
    }
}

fn parse_minfo(buf: &Vec<u8>, start: usize, rdlength: u16, limit: usize) -> (r: Result<
    DnsResourceRecordData,
    DnsError,
>)
    requires
        limit == start.saturating_add(rdlength as usize),
    ensures
        parsed_data(r) == minfo_at(buf@, start as int, start + rdlength),
{
    proof {
        assert(buf@.len() == buf.len());
        lemma_decode_name_limit(buf@, start as int, limit as int, start + rdlength);
    }
    let (rmailbx, middle) = parse_domain_name(buf, start, limit)?;
    proof {
        lemma_decode_name_limit(buf@, middle as int, limit as int, start + rdlength);
    }
    match parse_domain_name(buf, middle, limit) {
        Ok((emailbx, _)) => Ok(DnsResourceRecordData::MINFO((rmailbx, emailbx))),
        Err(e) => Err(e),
    }
}

fn name_check(name: &String) -> (r: Result<(), DnsError>)
    ensures
        r == (match name_error(name@) {
            Some(e) => Err::<(), DnsError>(e),
            None => Ok::<(), DnsError>(()),
        }),
{
    if is_domain_name_valid(name) {
        Ok(())
    } else {
        Err(DnsError::InvalidDomainName)
    }
}

fn character_string_check(text: &String) -> (r: Result<(), DnsError>)
    ensures
        r == (match character_string_error(text@) {
            Some(e) => Err::<(), DnsError>(e),
            None => Ok::<(), DnsError>(()),
        }),
{
    if text.as_str().unicode_len() <= MAX_CHARACTER_STRING {
        Ok(())
    } else {
        Err(DnsError::CharacterStringTooLong)
    }
}

fn two_checks(first: Result<(), DnsError>, second: Result<(), DnsError>) -> (r: Result<
    (),
    DnsError,
>)
    ensures
        r == (if first is Err {
            first
        } else {
            second
        }),
{
    match first {
        Err(e) => Err(e),
        Ok(_) => second,
    }
}

fn serialize_two_names(
    first: &String,
    second: &String,
    buf: &mut Vec<u8>,
    start: usize,
    domain_name_offsets: &mut NameOffsets,
) -> (r: Result<(), DnsError>)
    requires
        valid_name(first@),
        valid_name(second@),
    ensures
        r == Ok::<(), DnsError>(()),
        final(buf)@ == old(buf)@ + two_names_wire(
            first@,
            second@,
            start + old(buf)@.len(),
            old(domain_name_offsets)@,
        ),
        final(domain_name_offsets)@ == offsets_after_two_names(
            first@,
            second@,
            start + old(buf)@.len(),
            old(domain_name_offsets)@,
        ),
{
    serialize_domain_name_at(first, buf, start, domain_name_offsets)?;
    serialize_domain_name_at(second, buf, start, domain_name_offsets)?;
    proof {
        let pos = start + old(buf)@.len();
        let table = old(domain_name_offsets)@;
        let head = name_wire(first@, pos, table);
        let tail = name_wire(second@, pos + head.len(), offsets_after_name(first@, pos, table));
        assert(old(buf)@ + head + tail =~= old(buf)@ + (head + tail));
    }
    Ok(())
}

impl DnsResourceRecordData {
    /// Tells whether the data can be serialized, and why not where it
    /// cannot.
    pub fn check(&self) -> (r: Result<(), DnsError>)
        ensures
            r == (match rdata_error(self@) {
                Some(e) => Err::<(), DnsError>(e),
                None => Ok::<(), DnsError>(()),
            }),
    {
        match self {
            DnsResourceRecordData::A(_) => Ok(()),
            DnsResourceRecordData::NS(name) => name_check(name),
            DnsResourceRecordData::MD(name) => name_check(name),
            DnsResourceRecordData::MF(name) => name_check(name),
            DnsResourceRecordData::CNAME(name) => name_check(name),
            DnsResourceRecordData::SOA(soa) => two_checks(name_check(&soa.0), name_check(&soa.1)),
            DnsResourceRecordData::MB(name) => name_check(name),
            DnsResourceRecordData::MG(name) => name_check(name),
            DnsResourceRecordData::MR(name) => name_check(name),
            DnsResourceRecordData::NULL(_) => Ok(()),
            DnsResourceRecordData::WKS(_) => Ok(()),
            DnsResourceRecordData::PTR(name) => name_check(name),
            DnsResourceRecordData::HINFO(hinfo) => two_checks(
                character_string_check(&hinfo.0),
                character_string_check(&hinfo.1),
            ),
            DnsResourceRecordData::MINFO(minfo) => two_checks(
                name_check(&minfo.0),
                name_check(&minfo.1),
            ),
            DnsResourceRecordData::MX(mx) => name_check(&mx.1),
            DnsResourceRecordData::TXT(text) => character_string_check(text),
            DnsResourceRecordData::AAAA(_) => Ok(()),
            DnsResourceRecordData::SRV(srv) => name_check(&srv.3),
        }
    }

    /// Appends the wire form of the data to `buf`, whose first byte stands
    /// at offset `start` of the message, using and extending the table of the
    /// names written so far. Where the data cannot be serialized, nothing is
    /// written.
    pub fn serialize_at(
        &self,
        buf: &mut Vec<u8>,
        start: usize,
        domain_name_offsets: &mut NameOffsets,
    ) -> (r: Result<(), DnsError>)
        ensures
            match rdata_error(self@) {
                Some(e) => {
                    &&& r == Err::<(), DnsError>(e)
                    &&& final(buf)@ == old(buf)@
                    &&& final(domain_name_offsets)@ == old(domain_name_offsets)@
                },
                None => {
                    &&& r == Ok::<(), DnsError>(())
                    &&& final(buf)@ == old(buf)@ + rdata_wire(
                        self@,
                        start + old(buf)@.len(),
                        old(domain_name_offsets)@,
                    )
                    &&& final(domain_name_offsets)@ == offsets_after_rdata(
                        self@,
                        start + old(buf)@.len(),
                        old(domain_name_offsets)@,
                    )
                },
            },
    {
        self.check()?;
        let ghost before = buf@;
        match self {
            DnsResourceRecordData::A(address) => {
                push_bytes(buf, address.octets.as_slice());
            },
            DnsResourceRecordData::AAAA(address) => {
                push_bytes(buf, address.octets.as_slice());
            },
            DnsResourceRecordData::NS(name) => {
                serialize_domain_name_at(name, buf, start, domain_name_offsets)?;
            },
            DnsResourceRecordData::MD(name) => {
                serialize_domain_name_at(name, buf, start, domain_name_offsets)?;
            },
            DnsResourceRecordData::MF(name) => {
                serialize_domain_name_at(name, buf, start, domain_name_offsets)?;
            },
            DnsResourceRecordData::CNAME(name) => {
                serialize_domain_name_at(name, buf, start, domain_name_offsets)?;
            },
            DnsResourceRecordData::MB(name) => {
                serialize_domain_name_at(name, buf, start, domain_name_offsets)?;
            },
            DnsResourceRecordData::MG(name) => {
                serialize_domain_name_at(name, buf, start, domain_name_offsets)?;
            },
            DnsResourceRecordData::MR(name) => {
                serialize_domain_name_at(name, buf, start, domain_name_offsets)?;
            },
            DnsResourceRecordData::PTR(name) => {
                serialize_domain_name_at(name, buf, start, domain_name_offsets)?;
            },
            DnsResourceRecordData::MX(mx) => {
                push_u16(buf, mx.0);
                serialize_domain_name_at(&mx.1, buf, start, domain_name_offsets)?;
                assert(buf@ =~= before + (u16_wire(mx.0) + name_wire(
                    mx.1@,
                    start + before.len() + 2,
                    old(domain_name_offsets)@,
                )));
            },
            DnsResourceRecordData::SOA(soa) => {
                serialize_two_names(&soa.0, &soa.1, buf, start, domain_name_offsets)?;
                push_u32(buf, soa.2);
                push_u32(buf, soa.3);
                push_u32(buf, soa.4);
                push_u32(buf, soa.5);
                push_u32(buf, soa.6);
                assert(buf@ =~= before + rdata_wire(
                    self@,
                    start + before.len(),
                    old(domain_name_offsets)@,
                ));
            },
            DnsResourceRecordData::NULL(data) => {
                push_bytes(buf, data.as_slice());
            },
            DnsResourceRecordData::TXT(text) => {
                serialize_character_string(text, buf)?;
            },
            DnsResourceRecordData::SRV(srv) => {
                push_u16(buf, srv.0);
                push_u16(buf, srv.1);
                push_u16(buf, srv.2);
                serialize_domain_name_at(&srv.3, buf, start, domain_name_offsets)?;
                assert(buf@ =~= before + rdata_wire(
                    self@,
                    start + before.len(),
                    old(domain_name_offsets)@,
                ));
            },
            DnsResourceRecordData::WKS(wks) => {
                push_bytes(buf, wks.0.octets.as_slice());
                buf.push(wks.1);
                push_bytes(buf, wks.2.as_slice());
                assert(buf@ =~= before + (wks.0@.push(wks.1) + wks.2@));
            },
            DnsResourceRecordData::HINFO(hinfo) => {
                serialize_character_string(&hinfo.0, buf)?;
                serialize_character_string(&hinfo.1, buf)?;
                assert(buf@ =~= before + (character_string_wire(hinfo.0@) + character_string_wire(
                    hinfo.1@,
                )));
            },
            DnsResourceRecordData::MINFO(minfo) => {
                serialize_two_names(&minfo.0, &minfo.1, buf, start, domain_name_offsets)?;
            },
        }
        Ok(())
    }

    /// Appends the wire form of the data to `buf`, which holds the message
    /// from its first byte on, using and extending the table of the names
    /// written so far. Where the data cannot be serialized, nothing is
    /// written.
    pub fn serialize(&self, buf: &mut Vec<u8>, domain_name_offsets: &mut NameOffsets) -> (r:
        Result<(), DnsError>)
        ensures
            match rdata_error(self@) {
                Some(e) => {
                    &&& r == Err::<(), DnsError>(e)
                    &&& final(buf)@ == old(buf)@
                    &&& final(domain_name_offsets)@ == old(domain_name_offsets)@
                },
                None => {
                    &&& r == Ok::<(), DnsError>(())
                    &&& final(buf)@ == old(buf)@ + rdata_wire(
                        self@,
                        old(buf)@.len() as int,
                        old(domain_name_offsets)@,
                    )
                    &&& final(domain_name_offsets)@ == offsets_after_rdata(
                        self@,
                        old(buf)@.len() as int,
                        old(domain_name_offsets)@,
                    )
                },
            },
    {
        self.serialize_at(buf, 0, domain_name_offsets)
    }

    /// Parses the data of a resource record of type `rrtype`, whose
    /// `rdlength` bytes stand at `start`.
    pub fn parse(rrtype: u16, buf: &Vec<u8>, start: usize, rdlength: u16) -> (r: Result<
        DnsResourceRecordData,
        DnsError,
    >)
        ensures
            parsed_data(r) == rdata_at(rrtype, buf@, start as int, rdlength),
    {
        let limit = start.saturating_add(rdlength as usize);
        proof {
            assert(buf@.len() == buf.len());
            lemma_decode_name_limit(buf@, start as int, limit as int, start + rdlength);
        }
        if rrtype == DNS_TYPE_A {
            match parse_ipv4(buf, start, rdlength) {
                Ok(address) => Ok(DnsResourceRecordData::A(address)),
                Err(e) => Err(e),
            }
        } else if rrtype == DNS_TYPE_AAAA {
            match parse_ipv6(buf, start, rdlength) {
                Ok(address) => Ok(DnsResourceRecordData::AAAA(address)),
                Err(e) => Err(e),
            }
        } else if is_name_record_type(rrtype) {
            match parse_domain_name(buf, start, limit) {
                Ok((name, _)) => Ok(name_record(rrtype, name)),
                Err(e) => Err(e),
            }
        } else if rrtype == DNS_TYPE_MX {
            parse_mx(buf, start, rdlength, limit)
        } else if rrtype == DNS_TYPE_SOA {
            parse_soa(buf, start, rdlength, limit)
        } else if rrtype == DNS_TYPE_TXT {
            match parse_character_string(buf, start, limit) {
                Ok((text, _)) => Ok(DnsResourceRecordData::TXT(text)),
                Err(e) => Err(e),
            }
        } else if rrtype == DNS_TYPE_SRV {
            parse_srv(buf, start, rdlength, limit)
        } else if rrtype == DNS_TYPE_NULL {
            if start > buf.len() || buf.len() - start < rdlength as usize {
                Err(DnsError::TooShort)
            } else {
                Ok(DnsResourceRecordData::NULL(copy_range(buf, start, start + rdlength as usize)))
            }
        } else if rrtype == DNS_TYPE_WKS {
            parse_wks(buf, start, rdlength)
        } else if rrtype == DNS_TYPE_HINFO {
            parse_hinfo(buf, start, rdlength, limit)
        } else if rrtype == DNS_TYPE_MINFO {
            parse_minfo(buf, start, rdlength, limit)
        } else {
            Err(DnsError::UnsupportedRecordType)
        }
    }
}

// ---------------------------------------------------------------------------
// Resource records
// ---------------------------------------------------------------------------

/// DNS resource record.
#[derive(Debug, PartialEq, Eq)]
pub struct DnsResourceRecord {
    /// Name of the resource record.
    pub name: String,
    /// Type of the resource record.
    pub rrtype: u16,
    /// Class of the resource record.
    pub class: u16,
    /// Time to live of the resource record, in seconds.
    pub ttl: u32,
    /// Length in bytes of the data as it stands on the wire.
    pub rdlength: u16,
    /// The data of the resource record.
    pub rdata: DnsResourceRecordData,
}

/// The mathematical value of a resource record.
pub struct ResourceRecord {
    pub name: Seq<char>,
    pub rrtype: u16,
    pub class: u16,
    pub ttl: u32,
    pub rdlength: u16,
    pub rdata: RecordData,
}

impl View for DnsResourceRecord {
    type V = ResourceRecord;

    open spec fn view(&self) -> ResourceRecord {
        ResourceRecord {
            name: self.name@,
            rrtype: self.rrtype,
            class: self.class,
            ttl: self.ttl,
            rdlength: self.rdlength,
            rdata: self.rdata@,
        }
    }
}

/// The values of a list of records.
pub open spec fn record_views(records: Seq<DnsResourceRecord>) -> Seq<ResourceRecord> {
    records.map_values(|r: DnsResourceRecord| r@)
}

/// The number of bytes between the name of a record and its data: type,
/// class, time to live and data length.
pub const RECORD_FIXED_SIZE: usize = 10;

/// The resource record that stands at `start`: a name, then type, class,
/// time to live and data length, then the data, which must lie inside the
/// buffer. With it comes the position after the data.
pub open spec fn record_at(buf: Seq<u8>, start: int) -> Result<(ResourceRecord, int), DnsError> {
    match decode_name(buf, start, buf.len() as int) {
        Err(e) => Err(e),
        Ok((name, at)) => if at + RECORD_FIXED_SIZE > buf.len() {
            Err(DnsError::TooShort)
        } else {
            let rrtype = u16_at(buf, at);
            let rdlength = u16_at(buf, at + 8);
            let data = at + RECORD_FIXED_SIZE;
            if data + rdlength > buf.len() {
                Err(DnsError::TooShort)
            } else {
                match rdata_at(rrtype, buf, data, rdlength) {
                    Err(e) => Err(e),
                    Ok(rdata) => Ok(
                        (
                            ResourceRecord {
                                name,
                                rrtype,
                                class: u16_at(buf, at + 2),
                                ttl: u32_at(buf, at + 4),
                                rdlength,
                                rdata,
                            },
                            data + rdlength,
                        ),
                    ),
                }
            }
        },
    }
}

/// The `count` resource records that stand one after the other from `start`
/// on, and the position after them.
pub open spec fn records_at(buf: Seq<u8>, start: int, count: nat) -> Result<
    (Seq<ResourceRecord>, int),
    DnsError,
>
    decreases count,
{
    if count == 0 {
        Ok((Seq::<ResourceRecord>::empty(), start))
    } else {
        match records_at(buf, start, (count - 1) as nat) {
            Err(e) => Err(e),
            Ok((records, at)) => match record_at(buf, at) {
                Err(e) => Err(e),
                Ok((record, end)) => Ok((records.push(record), end)),
            },
        }
    }
}

/// The position at which the data of a record stands whose name is written
/// at `pos`.
pub open spec fn rdata_pos(record: ResourceRecord, pos: int, table: Map<Seq<char>, u16>) -> int {
    pos + name_wire(record.name, pos, table).len() + RECORD_FIXED_SIZE
}

/// The bytes of a resource record written at `pos`.
pub open spec fn record_wire(record: ResourceRecord, pos: int, table: Map<Seq<char>, u16>) -> Seq<
    u8,
> {
    name_wire(record.name, pos, table) + u16_wire(record.rrtype) + u16_wire(record.class)
        + u32_wire(record.ttl) + u16_wire(record.rdlength) + rdata_wire(
        record.rdata,
        rdata_pos(record, pos, table),
        offsets_after_name(record.name, pos, table),
    )
}

/// The table after a resource record was written at `pos`.
pub open spec fn offsets_after_record(
    record: ResourceRecord,
    pos: int,
    table: Map<Seq<char>, u16>,
) -> Map<Seq<char>, u16> {
    offsets_after_rdata(
        record.rdata,
        rdata_pos(record, pos, table),
        offsets_after_name(record.name, pos, table),
    )
}

/// Why a resource record cannot be serialized at `pos`, where it cannot: its
/// name is not valid, its data cannot be serialized, or the data takes
/// another number of bytes than the record declares.
pub open spec fn record_error(
    record: ResourceRecord,
    pos: int,
    table: Map<Seq<char>, u16>,
) -> Option<DnsError> {
    if !valid_name(record.name) {
        Some(DnsError::InvalidDomainName)
    } else if rdata_error(record.rdata) is Some {
        rdata_error(record.rdata)
    } else if rdata_wire(
        record.rdata,
        rdata_pos(record, pos, table),
        offsets_after_name(record.name, pos, table),
    ).len() != record.rdlength {
        Some(DnsError::RdlengthMismatch)
    } else {
        None
    }
}

/// A record whose name and data can be serialized, but whose data takes
/// another number of bytes than the record declares, is rejected for that.
pub proof fn lemma_rdlength_mismatch_is_rejected(
    record: ResourceRecord,
    pos: int,
    table: Map<Seq<char>, u16>,
)
    requires
        valid_name(record.name),
        rdata_error(record.rdata) is None,
        rdata_wire(
            record.rdata,
            rdata_pos(record, pos, table),
            offsets_after_name(record.name, pos, table),
        ).len() != record.rdlength,
    ensures
        record_error(record, pos, table) == Some(DnsError::RdlengthMismatch),
{
}

/// In the bytes of a record that can be serialized, the declared length is
/// the number of bytes of the data.
pub proof fn lemma_serialized_rdlength_is_true(
    record: ResourceRecord,
    pos: int,
    table: Map<Seq<char>, u16>,
)
    requires
        record_error(record, pos, table) is None,
    ensures
        record_wire(record, pos, table).len() == rdata_pos(record, pos, table) - pos
            + record.rdlength,
        record_wire(record, pos, table).subrange(
            rdata_pos(record, pos, table) - pos - 2,
            rdata_pos(record, pos, table) - pos,
        ) == u16_wire(record.rdlength),
        record_wire(record, pos, table).skip(rdata_pos(record, pos, table) - pos) == rdata_wire(
            record.rdata,
            rdata_pos(record, pos, table),
            offsets_after_name(record.name, pos, table),
        ),
{
    let name = name_wire(record.name, pos, table);
    let data = rdata_wire(
        record.rdata,
        rdata_pos(record, pos, table),
        offsets_after_name(record.name, pos, table),
    );
    let wire = record_wire(record, pos, table);
    let head = name + u16_wire(record.rrtype) + u16_wire(record.class) + u32_wire(record.ttl);
    assert(wire == head + u16_wire(record.rdlength) + data);
    let n = name.len() as int;
    assert(head.len() == n + 8);
    assert(wire.subrange(n + 8, n + 10) =~= u16_wire(record.rdlength));
    assert(wire.skip(n + 10) =~= data);
}

/// The view of what a parse of one record returned.
pub open spec fn parsed_record(r: Result<(DnsResourceRecord, usize), DnsError>) -> Result<
    (ResourceRecord, int),
    DnsError,
> {
    match r {
        Ok((record, end)) => Ok((record@, end as int)),
        Err(e) => Err(e),
    }
}

/// The view of what a parse of a section of records returned.
pub open spec fn parsed_records(r: Result<(Vec<DnsResourceRecord>, usize), DnsError>) -> Result<
    (Seq<ResourceRecord>, int),
    DnsError,
> {
    match r {
        Ok((records, end)) => Ok((record_views(records@), end as int)),
        Err(e) => Err(e),
    }
}

/// Once the first `failed` records cannot be parsed, no larger number of
/// them can, and the error is the same.
pub proof fn lemma_records_fail(buf: Seq<u8>, start: int, failed: nat, count: nat)
    requires
        records_at(buf, start, failed) is Err,
        failed <= count,
    ensures
        records_at(buf, start, count) == records_at(buf, start, failed),
    decreases count,
{
    if failed < count {
        lemma_records_fail(buf, start, failed, (count - 1) as nat);
    }
}

impl DnsResourceRecord {
    /// Creates a DNS resource record.
    pub fn new(
        name: String,
        rrtype: u16,
        class: u16,
        ttl: u32,
        rdlength: u16,
        rdata: DnsResourceRecordData,
    ) -> (r: Result<DnsResourceRecord, DnsError>)
        ensures
            r == Ok::<DnsResourceRecord, DnsError>(
                DnsResourceRecord { name, rrtype, class, ttl, rdlength, rdata },
            ),
    {
        Ok(DnsResourceRecord { name, rrtype, class, ttl, rdlength, rdata })
    }

    /// Parses the resource record at `start` of a raw DNS packet.
    pub fn parse_resource_record(buf: &Vec<u8>, start: usize) -> (r: Result<
        (DnsResourceRecord, usize),
        DnsError,
    >)
        ensures
            parsed_record(r) == record_at(buf@, start as int),
            r matches Ok((_, end)) ==> start < end <= buf.len(),
    {
        let (name, at) = parse_domain_name(buf, start, buf.len())?;
        if buf.len() - at < RECORD_FIXED_SIZE {
            return Err(DnsError::TooShort);
        }
        let rrtype = read_u16(buf, at);
        let class = read_u16(buf, at + 2);
        let ttl = read_u32(buf, at + 4);
        let rdlength = read_u16(buf, at + 8);
        let data = at + RECORD_FIXED_SIZE;
        if buf.len() - data < rdlength as usize {
            return Err(DnsError::TooShort);
        }
        let rdata = DnsResourceRecordData::parse(rrtype, buf, data, rdlength)?;
        match DnsResourceRecord::new(name, rrtype, class, ttl, rdlength, rdata) {
            Ok(record) => Ok((record, data + rdlength as usize)),
            Err(e) => Err(e),
        }
    }

    /// Parses a section of resource records (answer, authority or
    /// additional) of a raw DNS packet: `rrcount` records from `start` on.
    pub fn parse_resource_records(buf: &Vec<u8>, start: usize, rrcount: u16) -> (r: Result<
        (Vec<DnsResourceRecord>, usize),
        DnsError,
    >)
        ensures
            parsed_records(r) == records_at(buf@, start as int, rrcount as nat),
    {
        let mut resource_records: Vec<DnsResourceRecord> = Vec::new();
        let mut at: usize = start;
        let mut i: u16 = 0;
        assert(record_views(resource_records@) =~= Seq::<ResourceRecord>::empty());
        while i < rrcount
            invariant
                i <= rrcount,
                records_at(buf@, start as int, i as nat) == Ok::<
                    (Seq<ResourceRecord>, int),
                    DnsError,
                >((record_views(resource_records@), at as int)),
            decreases rrcount - i,
        {
            let ghost before = record_views(resource_records@);
            match DnsResourceRecord::parse_resource_record(buf, at) {
                Ok((record, end)) => {
                    at = end;
                    resource_records.push(record);
                    assert(record_views(resource_records@) =~= before.push(record@));
                },
                Err(e) => {
                    proof {
                        lemma_records_fail(buf@, start as int, (i + 1) as nat, rrcount as nat);
                    }
                    return Err(e);
                },
            }
            i += 1;
        }
        Ok((resource_records, at))
    }

    /// Serializes the record as it stands at offset `start` of a message,
    /// using and extending the table of the names written so far. Returns the
    /// bytes and the offset after them.
    ///
    /// The data must take as many bytes as the record declares. Where it
    /// does not, no bytes are returned, but the names of the record stay
    /// in the table.
    pub fn serialize(&self, start: usize, domain_name_offsets: &mut NameOffsets) -> (r: Result<
        (Vec<u8>, usize),
        DnsError,
    >)
        ensures
            match record_error(self@, start as int, old(domain_name_offsets)@) {
                Some(e) => r == Err::<(Vec<u8>, usize), DnsError>(e),
                None => {
                    &&& r matches Ok((bytes, end))
                    &&& bytes@ == record_wire(self@, start as int, old(domain_name_offsets)@)
                    &&& end == offset_after(start, bytes@.len())
                },
            },
            final(domain_name_offsets)@ == (if valid_name(self.name@) && rdata_error(self.rdata@)
                is None {
                offsets_after_record(self@, start as int, old(domain_name_offsets)@)
            } else {
                old(domain_name_offsets)@
            }),
    {
        name_check(&self.name)?;
        self.rdata.check()?;
        let mut buf = Vec::new();
        serialize_domain_name_at(&self.name, &mut buf, start, domain_name_offsets)?;
        push_u16(&mut buf, self.rrtype);
        push_u16(&mut buf, self.class);
        push_u32(&mut buf, self.ttl);
        push_u16(&mut buf, self.rdlength);
        let data = buf.len();
        self.rdata.serialize_at(&mut buf, start, domain_name_offsets)?;
        if buf.len() - data != self.rdlength as usize {
            return Err(DnsError::RdlengthMismatch);
        }
        let end = start.saturating_add(buf.len());
        Ok((buf, end))
    }
}

} // verus!
