//! Laws for buffers that are written as the serializer writes
//! (`message_as_written`): to parse such a buffer and to serialize what was
//! parsed gives back the buffer, and these are the buffers that the
//! serializer writes for the messages that the parser can give back.

use crate::dns_packet::dns_header::{
    header_at, header_wire, lemma_header_wire_of_parsed, DnsHeader,
};
use crate::dns_packet::dns_question::{question_at, question_wire, questions_at, Question};
use crate::dns_packet::dns_resource_record::{
    character_string_at, character_string_wire, is_name_type, offsets_after_rdata,
    offsets_after_record, rdata_at, rdata_error, rdata_pos, rdata_wire, record_at, record_error,
    record_wire, records_at, two_names_wire, RecordData, ResourceRecord, RECORD_FIXED_SIZE,
};
use crate::dns_packet::{
    message_at, message_wire, with_question, with_questions, with_record, with_records, Draft,
    Message,
};
use crate::domain_name::{
    decode_name, label_text, label_wire, lemma_decode_name_end, name_wire, offsets_after_name,
    valid_name,
};
use crate::error::DnsError;
use crate::round_trip::{
    draft_spelled, lemma_added_record_read_back, lemma_decoded_name_is_readable,
    lemma_header_read_back, lemma_name_read_back, lemma_parsed_record_is_readable,
    lemma_question_read_back, lemma_questions_read_back, lemma_records_read_back,
    lemma_stands_first, lemma_stands_split, lemma_table_spelled_further,
    lemma_with_questions_grows, lemma_with_records_grows, readable_message, readable_name,
    readable_record, stands_at, table_spelled,
};
use crate::types::{
    DNS_TYPE_A, DNS_TYPE_AAAA, DNS_TYPE_HINFO, DNS_TYPE_MINFO, DNS_TYPE_MX, DNS_TYPE_NULL,
    DNS_TYPE_SOA, DNS_TYPE_SRV, DNS_TYPE_TXT, DNS_TYPE_WKS,
};
use crate::wire::{
    lemma_u16_wire_of_read, lemma_u32_wire_of_read, u16_at, u16_wire, u32_at, u32_wire,
};
use crate::DNS_HEADER_SIZE;
use vstd::prelude::*;

verus! {

// ---------------------------------------------------------------------------
// Parts of a buffer
// ---------------------------------------------------------------------------

/// Where bytes stand, and other bytes after them, the two stand together.
pub proof fn lemma_stands_join(buf: Seq<u8>, at: int, first: Seq<u8>, second: Seq<u8>)
    requires
        stands_at(buf, at, first),
        stands_at(buf, at + first.len(), second),
    ensures
        stands_at(buf, at, first + second),
{
    let a = buf.subrange(at, at + first.len());
    let b = buf.subrange(at + first.len(), at + first.len() + second.len());
    assert forall|i: int| 0 <= i < first.len() implies buf[at + i] == first[i] by {
        assert(a[i] == buf[at + i]);
    }
    assert forall|i: int| 0 <= i < second.len() implies buf[at + first.len() + i]
        == second[i] by {
        assert(b[i] == buf[at + first.len() + i]);
    }
    assert(buf.subrange(at, at + (first + second).len()) =~= first + second);
}

/// The bytes of the 16-bit integer that is read at `at` stand at `at`.
pub proof fn lemma_u16_stands(buf: Seq<u8>, at: int)
    requires
        0 <= at,
        at + 2 <= buf.len(),
    ensures
        stands_at(buf, at, u16_wire(u16_at(buf, at))),
{
    lemma_u16_wire_of_read(buf, at);
}

/// The bytes of the 32-bit integer that is read at `at` stand at `at`.
pub proof fn lemma_u32_stands(buf: Seq<u8>, at: int)
    requires
        0 <= at,
        at + 4 <= buf.len(),
    ensures
        stands_at(buf, at, u32_wire(u32_at(buf, at))),
{
    lemma_u32_wire_of_read(buf, at);
}

/// A byte is the byte of its character.
proof fn lemma_byte_of_char(b: u8)
    ensures
        (b as char) as u8 == b,
{
}

/// The bytes of the text of bytes are the bytes.
pub proof fn lemma_label_wire_of_text(bytes: Seq<u8>)
    ensures
        label_wire(label_text(bytes)) == bytes,
{
    let back = label_wire(label_text(bytes));
    assert forall|i: int| 0 <= i < bytes.len() implies back[i] == bytes[i] by {
        lemma_byte_of_char(bytes[i]);
    }
    assert(back =~= bytes);
}

// ---------------------------------------------------------------------------
// Names and character-strings
// ---------------------------------------------------------------------------

/// The name stands at `pos` as the serializer writes it there with the
/// table: label after label, until the rest of the name is in the table and
/// a pointer to it ends the name, or until the name ends with the zero byte.
pub open spec fn name_as_written(
    buf: Seq<u8>,
    pos: int,
    name: Seq<char>,
    table: Map<Seq<char>, u16>,
) -> bool {
    stands_at(buf, pos, name_wire(name, pos, table))
}

/// A name that is parsed where it stands as written ends where its bytes
/// end, and the table is then right for the bytes up to there.
pub proof fn lemma_name_as_written(
    buf: Seq<u8>,
    pos: int,
    limit: int,
    table: Map<Seq<char>, u16>,
)
    requires
        table_spelled(buf.take(pos), table),
        decode_name(buf, pos, limit) matches Ok((name, _)) && name_as_written(
            buf,
            pos,
            name,
            table,
        ),
    ensures
        decode_name(buf, pos, limit) matches Ok((name, end)) && valid_name(name) && end == pos
            + name_wire(name, pos, table).len() && table_spelled(
            buf.take(end),
            offsets_after_name(name, pos, table),
        ),
{
    let name = decode_name(buf, pos, limit)->Ok_0.0;
    lemma_decoded_name_is_readable(buf, pos, limit);
    lemma_name_read_back(buf, pos, name, table, limit);
}

/// A character-string stands where it is parsed, and ends where its bytes
/// end.
pub proof fn lemma_character_string_as_written(buf: Seq<u8>, pos: int, limit: int)
    requires
        character_string_at(buf, pos, limit) is Ok,
    ensures
        character_string_at(buf, pos, limit) matches Ok((text, end)) && stands_at(
            buf,
            pos,
            character_string_wire(text),
        ) && end == pos + character_string_wire(text).len() && text.len() <= 255,
{
    let text = character_string_at(buf, pos, limit)->Ok_0.0;
    let end = pos + 1 + buf[pos];
    let bytes = buf.subrange(pos + 1, end);
    lemma_label_wire_of_text(bytes);
    assert(text.len() == buf[pos]);
    assert(buf.subrange(pos, end) =~= seq![text.len() as u8] + bytes);
}

// ---------------------------------------------------------------------------
// Record data
// ---------------------------------------------------------------------------

/// The names in record data stand as the serializer writes them, where the
/// data stands at `pos`.
pub open spec fn rdata_names_as_written(
    data: RecordData,
    buf: Seq<u8>,
    pos: int,
    table: Map<Seq<char>, u16>,
) -> bool {
    match data {
        RecordData::A(_) => true,
        RecordData::NS(name) => name_as_written(buf, pos, name, table),
        RecordData::MD(name) => name_as_written(buf, pos, name, table),
        RecordData::MF(name) => name_as_written(buf, pos, name, table),
        RecordData::CNAME(name) => name_as_written(buf, pos, name, table),
        RecordData::SOA(mname, rname, _, _, _, _, _) => stands_at(
            buf,
            pos,
            two_names_wire(mname, rname, pos, table),
        ),
        RecordData::MB(name) => name_as_written(buf, pos, name, table),
        RecordData::MG(name) => name_as_written(buf, pos, name, table),
        RecordData::MR(name) => name_as_written(buf, pos, name, table),
        RecordData::NULL(_) => true,
        RecordData::WKS(_, _, _) => true,
        RecordData::PTR(name) => name_as_written(buf, pos, name, table),
        RecordData::HINFO(_, _) => true,
        RecordData::MINFO(rmailbx, emailbx) => stands_at(
            buf,
            pos,
            two_names_wire(rmailbx, emailbx, pos, table),
        ),
        RecordData::MX(_, exchange) => name_as_written(buf, pos + 2, exchange, table),
        RecordData::TXT(_) => true,
        RecordData::AAAA(_) => true,
        RecordData::SRV(_, _, _, target) => name_as_written(buf, pos + 6, target, table),
    }
}

/// What the lemmas on record data show: the data stands as the serializer
/// writes it, it can be serialized, and the table is then right for the
/// bytes up to the end of the declared length.
pub open spec fn rdata_stands(
    data: RecordData,
    buf: Seq<u8>,
    pos: int,
    rdlength: u16,
    table: Map<Seq<char>, u16>,
) -> bool {
    &&& stands_at(buf, pos, rdata_wire(data, pos, table))
    &&& rdata_error(data) is None
    &&& table_spelled(buf.take(pos + rdlength), offsets_after_rdata(data, pos, table))
}

/// What the lemmas on record data ask: the table is right for the bytes
/// before the data, the declared length lies inside the buffer, and the
/// data that is parsed has names that stand as written and takes the
/// declared length when it is written.
pub open spec fn rdata_as_written(
    rrtype: u16,
    buf: Seq<u8>,
    pos: int,
    rdlength: u16,
    table: Map<Seq<char>, u16>,
) -> bool {
    &&& 0 <= pos
    &&& pos + rdlength <= buf.len()
    &&& table_spelled(buf.take(pos), table)
    &&& rdata_at(rrtype, buf, pos, rdlength) matches Ok(data) && rdata_names_as_written(
        data,
        buf,
        pos,
        table,
    ) && rdata_wire(data, pos, table).len() == rdlength
}

proof fn lemma_one_name_as_written(
    rrtype: u16,
    buf: Seq<u8>,
    pos: int,
    rdlength: u16,
    table: Map<Seq<char>, u16>,
)
    requires
        is_name_type(rrtype),
        rdata_as_written(rrtype, buf, pos, rdlength, table),
    ensures
        rdata_at(rrtype, buf, pos, rdlength) matches Ok(data) && rdata_stands(
            data,
            buf,
            pos,
            rdlength,
            table,
        ),
{
    lemma_name_as_written(buf, pos, pos + rdlength, table);
}

proof fn lemma_two_names_as_written(
    buf: Seq<u8>,
    pos: int,
    limit: int,
    table: Map<Seq<char>, u16>,
)
    requires
        table_spelled(buf.take(pos), table),
        decode_name(buf, pos, limit) matches Ok((first, middle)) && (decode_name(
            buf,
            middle,
            limit,
        ) matches Ok((second, _)) && stands_at(
            buf,
            pos,
            two_names_wire(first, second, pos, table),
        )),
    ensures
        decode_name(buf, pos, limit) matches Ok((first, middle)) && (decode_name(
            buf,
            middle,
            limit,
        ) matches Ok((second, end)) && valid_name(first) && valid_name(second) && end == pos
            + two_names_wire(first, second, pos, table).len() && table_spelled(
            buf.take(end),
            offsets_after_name(
                second,
                pos + name_wire(first, pos, table).len(),
                offsets_after_name(first, pos, table),
            ),
        )),
{
    let first = decode_name(buf, pos, limit)->Ok_0.0;
    let middle = decode_name(buf, pos, limit)->Ok_0.1;
    let second = decode_name(buf, middle, limit)->Ok_0.0;
    let head = name_wire(first, pos, table);
    let named = offsets_after_name(first, pos, table);
    lemma_stands_split(buf, pos, head, name_wire(second, pos + head.len(), named));
    lemma_name_as_written(buf, pos, limit, table);
    lemma_name_as_written(buf, middle, limit, named);
}

proof fn lemma_mx_as_written(buf: Seq<u8>, pos: int, rdlength: u16, table: Map<Seq<char>, u16>)
    requires
        rdata_as_written(DNS_TYPE_MX, buf, pos, rdlength, table),
    ensures
        rdata_at(DNS_TYPE_MX, buf, pos, rdlength) matches Ok(data) && rdata_stands(
            data,
            buf,
            pos,
            rdlength,
            table,
        ),
{
    lemma_u16_stands(buf, pos);
    lemma_table_spelled_further(buf, table, pos, pos + 2);
    lemma_name_as_written(buf, pos + 2, pos + rdlength, table);
    let exchange = decode_name(buf, pos + 2, pos + rdlength)->Ok_0.0;
    lemma_stands_join(buf, pos, u16_wire(u16_at(buf, pos)), name_wire(exchange, pos + 2, table));
}

proof fn lemma_srv_as_written(buf: Seq<u8>, pos: int, rdlength: u16, table: Map<Seq<char>, u16>)
    requires
        rdata_as_written(DNS_TYPE_SRV, buf, pos, rdlength, table),
    ensures
        rdata_at(DNS_TYPE_SRV, buf, pos, rdlength) matches Ok(data) && rdata_stands(
            data,
            buf,
            pos,
            rdlength,
            table,
        ),
{
    lemma_u16_stands(buf, pos);
    lemma_u16_stands(buf, pos + 2);
    lemma_u16_stands(buf, pos + 4);
    lemma_table_spelled_further(buf, table, pos, pos + 6);
    lemma_name_as_written(buf, pos + 6, pos + rdlength, table);
    let target = decode_name(buf, pos + 6, pos + rdlength)->Ok_0.0;
    let a = u16_wire(u16_at(buf, pos));
    let b = a + u16_wire(u16_at(buf, pos + 2));
    let c = b + u16_wire(u16_at(buf, pos + 4));
    lemma_stands_join(buf, pos, a, u16_wire(u16_at(buf, pos + 2)));
    lemma_stands_join(buf, pos, b, u16_wire(u16_at(buf, pos + 4)));
    lemma_stands_join(buf, pos, c, name_wire(target, pos + 6, table));
}

proof fn lemma_soa_as_written(buf: Seq<u8>, pos: int, rdlength: u16, table: Map<Seq<char>, u16>)
    requires
        rdata_as_written(DNS_TYPE_SOA, buf, pos, rdlength, table),
    ensures
        rdata_at(DNS_TYPE_SOA, buf, pos, rdlength) matches Ok(data) && rdata_stands(
            data,
            buf,
            pos,
            rdlength,
            table,
        ),
{
    let limit = pos + rdlength;
    let mname = decode_name(buf, pos, limit)->Ok_0.0;
    let middle = decode_name(buf, pos, limit)->Ok_0.1;
    let rname = decode_name(buf, middle, limit)->Ok_0.0;
    let end = decode_name(buf, middle, limit)->Ok_0.1;
    lemma_two_names_as_written(buf, pos, limit, table);
    lemma_u32_stands(buf, end);
    lemma_u32_stands(buf, end + 4);
    lemma_u32_stands(buf, end + 8);
    lemma_u32_stands(buf, end + 12);
    lemma_u32_stands(buf, end + 16);
    let names = two_names_wire(mname, rname, pos, table);
    let a = names + u32_wire(u32_at(buf, end));
    let b = a + u32_wire(u32_at(buf, end + 4));
    let c = b + u32_wire(u32_at(buf, end + 8));
    let d = c + u32_wire(u32_at(buf, end + 12));
    lemma_stands_join(buf, pos, names, u32_wire(u32_at(buf, end)));
    lemma_stands_join(buf, pos, a, u32_wire(u32_at(buf, end + 4)));
    lemma_stands_join(buf, pos, b, u32_wire(u32_at(buf, end + 8)));
    lemma_stands_join(buf, pos, c, u32_wire(u32_at(buf, end + 12)));
    lemma_stands_join(buf, pos, d, u32_wire(u32_at(buf, end + 16)));
    lemma_table_spelled_further(
        buf,
        offsets_after_name(
            rname,
            pos + name_wire(mname, pos, table).len(),
            offsets_after_name(mname, pos, table),
        ),
        end,
        limit,
    );
}

proof fn lemma_minfo_as_written(
    buf: Seq<u8>,
    pos: int,
    rdlength: u16,
    table: Map<Seq<char>, u16>,
)
    requires
        rdata_as_written(DNS_TYPE_MINFO, buf, pos, rdlength, table),
    ensures
        rdata_at(DNS_TYPE_MINFO, buf, pos, rdlength) matches Ok(data) && rdata_stands(
            data,
            buf,
            pos,
            rdlength,
            table,
        ),
{
    lemma_two_names_as_written(buf, pos, pos + rdlength, table);
}

proof fn lemma_texts_as_written(
    rrtype: u16,
    buf: Seq<u8>,
    pos: int,
    rdlength: u16,
    table: Map<Seq<char>, u16>,
)
    requires
        rrtype == DNS_TYPE_TXT || rrtype == DNS_TYPE_HINFO,
        rdata_as_written(rrtype, buf, pos, rdlength, table),
    ensures
        rdata_at(rrtype, buf, pos, rdlength) matches Ok(data) && rdata_stands(
            data,
            buf,
            pos,
            rdlength,
            table,
        ),
{
    let limit = pos + rdlength;
    lemma_character_string_as_written(buf, pos, limit);
    lemma_table_spelled_further(buf, table, pos, limit);
    if rrtype == DNS_TYPE_HINFO {
        let cpu = character_string_at(buf, pos, limit)->Ok_0.0;
        let middle = character_string_at(buf, pos, limit)->Ok_0.1;
        let os = character_string_at(buf, middle, limit)->Ok_0.0;
        lemma_character_string_as_written(buf, middle, limit);
        lemma_stands_join(buf, pos, character_string_wire(cpu), character_string_wire(os));
    }
}

proof fn lemma_bytes_as_written(
    rrtype: u16,
    buf: Seq<u8>,
    pos: int,
    rdlength: u16,
    table: Map<Seq<char>, u16>,
)
    requires
        rrtype == DNS_TYPE_A || rrtype == DNS_TYPE_AAAA || rrtype == DNS_TYPE_NULL || rrtype
            == DNS_TYPE_WKS,
        rdata_as_written(rrtype, buf, pos, rdlength, table),
    ensures
        rdata_at(rrtype, buf, pos, rdlength) matches Ok(data) && rdata_stands(
            data,
            buf,
            pos,
            rdlength,
            table,
        ),
{
    let limit = pos + rdlength;
    lemma_table_spelled_further(buf, table, pos, limit);
    if rrtype == DNS_TYPE_WKS {
        let address = buf.subrange(pos, pos + 4);
        let bitmap = buf.subrange(pos + 5, limit);
        assert(address.push(buf[pos + 4]) + bitmap =~= buf.subrange(pos, limit));
    }
}

/// Record data whose names stand as the serializer writes them, and which
/// takes the declared length when it is written, stands as the serializer
/// writes it.
pub proof fn lemma_rdata_as_written(
    rrtype: u16,
    buf: Seq<u8>,
    pos: int,
    rdlength: u16,
    table: Map<Seq<char>, u16>,
)
    requires
        rdata_as_written(rrtype, buf, pos, rdlength, table),
    ensures
        rdata_at(rrtype, buf, pos, rdlength) matches Ok(data) && rdata_stands(
            data,
            buf,
            pos,
            rdlength,
            table,
        ),
{
    if rrtype == DNS_TYPE_A || rrtype == DNS_TYPE_AAAA || rrtype == DNS_TYPE_NULL || rrtype
        == DNS_TYPE_WKS {
        lemma_bytes_as_written(rrtype, buf, pos, rdlength, table);
    } else if is_name_type(rrtype) {
        lemma_one_name_as_written(rrtype, buf, pos, rdlength, table);
    } else if rrtype == DNS_TYPE_MX {
        lemma_mx_as_written(buf, pos, rdlength, table);
    } else if rrtype == DNS_TYPE_SOA {
        lemma_soa_as_written(buf, pos, rdlength, table);
    } else if rrtype == DNS_TYPE_TXT || rrtype == DNS_TYPE_HINFO {
        lemma_texts_as_written(rrtype, buf, pos, rdlength, table);
    } else if rrtype == DNS_TYPE_SRV {
        lemma_srv_as_written(buf, pos, rdlength, table);
    } else if rrtype == DNS_TYPE_MINFO {
        lemma_minfo_as_written(buf, pos, rdlength, table);
    }
}

// ---------------------------------------------------------------------------
// Questions and resource records
// ---------------------------------------------------------------------------

/// The question at `pos` has its name as the serializer writes it.
pub open spec fn question_as_written(buf: Seq<u8>, pos: int, table: Map<Seq<char>, u16>) -> bool {
    question_at(buf, pos) matches Ok((question, _)) && name_as_written(
        buf,
        pos,
        question.qname,
        table,
    )
}

/// The resource record at `pos` has its names as the serializer writes
/// them, and its data takes the declared length when it is written: no byte
/// of the declared length is left over.
pub open spec fn record_as_written(buf: Seq<u8>, pos: int, table: Map<Seq<char>, u16>) -> bool {
    record_at(buf, pos) matches Ok((record, _)) && name_as_written(buf, pos, record.name, table)
        && rdata_names_as_written(
        record.rdata,
        buf,
        rdata_pos(record, pos, table),
        offsets_after_name(record.name, pos, table),
    ) && rdata_wire(
        record.rdata,
        rdata_pos(record, pos, table),
        offsets_after_name(record.name, pos, table),
    ).len() == record.rdlength
}

/// A question whose name stands as the serializer writes it stands as the
/// serializer writes it, and ends where its bytes end.
pub proof fn lemma_question_as_written(buf: Seq<u8>, pos: int, table: Map<Seq<char>, u16>)
    requires
        table_spelled(buf.take(pos), table),
        question_as_written(buf, pos, table),
    ensures
        question_at(buf, pos) matches Ok((question, end)) && valid_name(question.qname)
            && stands_at(buf, pos, question_wire(question, pos, table)) && end == pos
            + question_wire(question, pos, table).len() && table_spelled(
            buf.take(end),
            offsets_after_name(question.qname, pos, table),
        ),
{
    let question = question_at(buf, pos)->Ok_0.0;
    let end = question_at(buf, pos)->Ok_0.1;
    let name = name_wire(question.qname, pos, table);
    let at = pos + name.len();
    lemma_name_as_written(buf, pos, buf.len() as int, table);
    lemma_u16_stands(buf, at);
    lemma_u16_stands(buf, at + 2);
    lemma_stands_join(buf, pos, name, u16_wire(question.qtype));
    lemma_stands_join(buf, pos, name + u16_wire(question.qtype), u16_wire(question.qclass));
    lemma_table_spelled_further(buf, offsets_after_name(question.qname, pos, table), at, end);
}

/// A resource record whose names stand as the serializer writes them, and
/// whose data leaves nothing of the declared length over, stands as the
/// serializer writes it, can be serialized, and ends where its bytes end.
pub proof fn lemma_record_as_written(buf: Seq<u8>, pos: int, table: Map<Seq<char>, u16>)
    requires
        table_spelled(buf.take(pos), table),
        record_as_written(buf, pos, table),
    ensures
        record_at(buf, pos) matches Ok((record, end)) && record_error(record, pos, table) is None
            && stands_at(buf, pos, record_wire(record, pos, table)) && end == pos + record_wire(
            record,
            pos,
            table,
        ).len() && table_spelled(buf.take(end), offsets_after_record(record, pos, table)),
{
    let record = record_at(buf, pos)->Ok_0.0;
    let name = name_wire(record.name, pos, table);
    let named = offsets_after_name(record.name, pos, table);
    let at = pos + name.len();
    let data = at + RECORD_FIXED_SIZE;
    lemma_decode_name_end(buf, pos, buf.len() as int);
    lemma_name_as_written(buf, pos, buf.len() as int, table);
    lemma_u16_stands(buf, at);
    lemma_u16_stands(buf, at + 2);
    lemma_u32_stands(buf, at + 4);
    lemma_u16_stands(buf, at + 8);
    lemma_table_spelled_further(buf, named, at, data);
    lemma_rdata_as_written(record.rrtype, buf, data, record.rdlength, named);
    let a = name + u16_wire(record.rrtype);
    let b = a + u16_wire(record.class);
    let c = b + u32_wire(record.ttl);
    let d = c + u16_wire(record.rdlength);
    lemma_stands_join(buf, pos, name, u16_wire(record.rrtype));
    lemma_stands_join(buf, pos, a, u16_wire(record.class));
    lemma_stands_join(buf, pos, b, u32_wire(record.ttl));
    lemma_stands_join(buf, pos, c, u16_wire(record.rdlength));
    lemma_stands_join(buf, pos, d, rdata_wire(record.rdata, data, named));
}

/// A resource record that was parsed, but whose data takes another number
/// of bytes when it is written than the record declares (because bytes of
/// the declared length were left over, or because a name in it was written
/// otherwise), is rejected by the serializer for that.
pub proof fn lemma_parsed_record_of_other_length_is_rejected(
    buf: Seq<u8>,
    at: int,
    pos: int,
    table: Map<Seq<char>, u16>,
)
    requires
        record_at(buf, at) matches Ok((record, _)) && rdata_wire(
            record.rdata,
            rdata_pos(record, pos, table),
            offsets_after_name(record.name, pos, table),
        ).len() != record.rdlength,
    ensures
        record_at(buf, at) matches Ok((record, _)) && record_error(record, pos, table) == Some(
            DnsError::RdlengthMismatch,
        ),
{
    lemma_parsed_record_is_readable(buf, at);
}

// ---------------------------------------------------------------------------
// Sections
// ---------------------------------------------------------------------------

/// The draft with the first `count` questions that stand in the buffer
/// after its bytes.
pub open spec fn draft_with_questions(buf: Seq<u8>, draft: Draft, count: nat) -> Draft {
    match questions_at(buf, draft.bytes.len() as int, count) {
        Ok((questions, _)) => match with_questions(draft, questions) {
            Ok(next) => next,
            Err(_) => draft,
        },
        Err(_) => draft,
    }
}

/// The draft with the first `count` resource records that stand in the
/// buffer after its bytes.
pub open spec fn draft_with_records(buf: Seq<u8>, draft: Draft, count: nat) -> Draft {
    match records_at(buf, draft.bytes.len() as int, count) {
        Ok((records, _)) => match with_records(draft, records) {
            Ok(next) => next,
            Err(_) => draft,
        },
        Err(_) => draft,
    }
}

/// The first `count` questions after the bytes of the draft are each as
/// written, where the draft with the questions before it ends.
pub open spec fn questions_as_written(buf: Seq<u8>, draft: Draft, count: nat) -> bool
    decreases count,
{
    count == 0 || {
        let before = draft_with_questions(buf, draft, (count - 1) as nat);
        &&& questions_as_written(buf, draft, (count - 1) as nat)
        &&& question_as_written(buf, before.bytes.len() as int, before.offsets)
    }
}

/// The first `count` resource records after the bytes of the draft are each
/// as written, where the draft with the records before it ends.
pub open spec fn records_as_written(buf: Seq<u8>, draft: Draft, count: nat) -> bool
    decreases count,
{
    count == 0 || {
        let before = draft_with_records(buf, draft, (count - 1) as nat);
        &&& records_as_written(buf, draft, (count - 1) as nat)
        &&& record_as_written(buf, before.bytes.len() as int, before.offsets)
    }
}

/// What the lemmas on sections show of the draft with a section: it is
/// right, its bytes stand at the start of the buffer, and the section that
/// was parsed ends where they end.
pub open spec fn section_stands(buf: Seq<u8>, next: Draft, end: int) -> bool {
    &&& draft_spelled(next)
    &&& stands_at(buf, 0, next.bytes)
    &&& end == next.bytes.len()
}

/// Questions that are as written are parsed, and what the serializer writes
/// for them is what stands in the buffer.
pub proof fn lemma_questions_as_written(buf: Seq<u8>, draft: Draft, count: nat)
    requires
        draft_spelled(draft),
        stands_at(buf, 0, draft.bytes),
        questions_as_written(buf, draft, count),
    ensures
        questions_at(buf, draft.bytes.len() as int, count) matches Ok((questions, end)) && (
        with_questions(draft, questions) matches Ok(next) && next == draft_with_questions(
            buf,
            draft,
            count,
        ) && questions.len() == count && section_stands(buf, next, end)),
    decreases count,
{
    if count == 0 {
    } else {
        let fewer = (count - 1) as nat;
        lemma_questions_as_written(buf, draft, fewer);
        let shorter = questions_at(buf, draft.bytes.len() as int, fewer)->Ok_0.0;
        let before = draft_with_questions(buf, draft, fewer);
        let pos = before.bytes.len() as int;
        assert(buf.take(pos) =~= before.bytes);
        lemma_question_as_written(buf, pos, before.offsets);
        let question = question_at(buf, pos)->Ok_0.0;
        let end = question_at(buf, pos)->Ok_0.1;
        let questions = shorter.push(question);
        assert(questions.drop_last() =~= shorter);
        lemma_stands_join(buf, 0, before.bytes, question_wire(question, pos, before.offsets));
        let next = with_question(before, question)->Ok_0;
        assert(buf.take(end) =~= next.bytes);
    }
}

/// Resource records that are as written are parsed, and what the
/// serializer writes for them is what stands in the buffer.
pub proof fn lemma_records_as_written(buf: Seq<u8>, draft: Draft, count: nat)
    requires
        draft_spelled(draft),
        stands_at(buf, 0, draft.bytes),
        records_as_written(buf, draft, count),
    ensures
        records_at(buf, draft.bytes.len() as int, count) matches Ok((records, end)) && (
        with_records(draft, records) matches Ok(next) && next == draft_with_records(
            buf,
            draft,
            count,
        ) && records.len() == count && section_stands(buf, next, end)),
    decreases count,
{
    if count == 0 {
    } else {
        let fewer = (count - 1) as nat;
        lemma_records_as_written(buf, draft, fewer);
        let shorter = records_at(buf, draft.bytes.len() as int, fewer)->Ok_0.0;
        let before = draft_with_records(buf, draft, fewer);
        let pos = before.bytes.len() as int;
        assert(buf.take(pos) =~= before.bytes);
        lemma_record_as_written(buf, pos, before.offsets);
        let record = record_at(buf, pos)->Ok_0.0;
        let end = record_at(buf, pos)->Ok_0.1;
        let records = shorter.push(record);
        assert(records.drop_last() =~= shorter);
        lemma_stands_join(buf, 0, before.bytes, record_wire(record, pos, before.offsets));
        let next = with_record(before, record)->Ok_0;
        assert(buf.take(end) =~= next.bytes);
    }
}

// ---------------------------------------------------------------------------
// Messages
// ---------------------------------------------------------------------------

/// The buffer is written as the serializer writes: after the header, each
/// question and each resource record that the header counts has its names
/// as the serializer writes them with the table of the names before, no
/// record leaves a byte of its declared length over, and no byte follows
/// the last entry.
pub open spec fn message_as_written(buf: Seq<u8>) -> bool {
    buf.len() >= DNS_HEADER_SIZE && {
        let header = header_at(buf);
        let start = Draft { bytes: buf.take(DNS_HEADER_SIZE as int), offsets: Map::empty() };
        let asked = draft_with_questions(buf, start, header.qdcount as nat);
        let answered = draft_with_records(buf, asked, header.ancount as nat);
        let referred = draft_with_records(buf, answered, header.nscount as nat);
        let done = draft_with_records(buf, referred, header.arcount as nat);
        &&& questions_as_written(buf, start, header.qdcount as nat)
        &&& records_as_written(buf, asked, header.ancount as nat)
        &&& records_as_written(buf, answered, header.nscount as nat)
        &&& records_as_written(buf, referred, header.arcount as nat)
        &&& done.bytes.len() == buf.len()
    }
}

/// Serializing what was parsed gives back the buffer: a buffer that is
/// written as the serializer writes is parsed, and the message that it is
/// parsed to is serialized to the buffer itself.
pub proof fn lemma_serialize_of_parsed_as_written(buf: Seq<u8>)
    requires
        message_as_written(buf),
    ensures
        message_at(buf) matches Ok(message) && message_wire(message) == Ok::<Seq<u8>, DnsError>(
            buf,
        ),
{
    let header = header_at(buf);
    let start = Draft { bytes: buf.take(DNS_HEADER_SIZE as int), offsets: Map::empty() };
    let asked = draft_with_questions(buf, start, header.qdcount as nat);
    let answered = draft_with_records(buf, asked, header.ancount as nat);
    let referred = draft_with_records(buf, answered, header.nscount as nat);
    let done = draft_with_records(buf, referred, header.arcount as nat);
    lemma_header_wire_of_parsed(buf);
    assert(buf.subrange(0, DNS_HEADER_SIZE as int) =~= start.bytes);
    assert(draft_spelled(start));
    lemma_questions_as_written(buf, start, header.qdcount as nat);
    lemma_records_as_written(buf, asked, header.ancount as nat);
    lemma_records_as_written(buf, answered, header.nscount as nat);
    lemma_records_as_written(buf, referred, header.arcount as nat);
    assert(done.bytes =~= buf);
}

// ---------------------------------------------------------------------------
// What the serializer writes is written as the serializer writes
// ---------------------------------------------------------------------------

/// Where the bytes of record data stand, the names in it stand as written.
proof fn lemma_rdata_names_stand(
    data: RecordData,
    buf: Seq<u8>,
    pos: int,
    table: Map<Seq<char>, u16>,
)
    requires
        stands_at(buf, pos, rdata_wire(data, pos, table)),
    ensures
        rdata_names_as_written(data, buf, pos, table),
{
    match data {
        RecordData::SOA(mname, rname, serial, refresh, retry, expire, minimum) => {
            let names = two_names_wire(mname, rname, pos, table);
            let a = names + u32_wire(serial);
            let b = a + u32_wire(refresh);
            let c = b + u32_wire(retry);
            let d = c + u32_wire(expire);
            lemma_stands_split(buf, pos, d, u32_wire(minimum));
            lemma_stands_split(buf, pos, c, u32_wire(expire));
            lemma_stands_split(buf, pos, b, u32_wire(retry));
            lemma_stands_split(buf, pos, a, u32_wire(refresh));
            lemma_stands_split(buf, pos, names, u32_wire(serial));
        },
        RecordData::MX(preference, exchange) => {
            lemma_stands_split(buf, pos, u16_wire(preference), name_wire(exchange, pos + 2, table));
        },
        RecordData::SRV(priority, weight, port, target) => {
            lemma_stands_split(
                buf,
                pos,
                u16_wire(priority) + u16_wire(weight) + u16_wire(port),
                name_wire(target, pos + 6, table),
            );
        },
        _ => {},
    }
}

/// A readable resource record that the serializer added to a draft that is
/// right is as written where the draft ends.
proof fn lemma_added_record_as_written(buf: Seq<u8>, draft: Draft, record: ResourceRecord)
    requires
        draft_spelled(draft),
        readable_record(record),
        with_record(draft, record) matches Ok(next) && stands_at(buf, 0, next.bytes),
    ensures
        record_as_written(buf, draft.bytes.len() as int, draft.offsets),
{
    let next = with_record(draft, record)->Ok_0;
    let pos = draft.bytes.len() as int;
    let table = draft.offsets;
    let name = name_wire(record.name, pos, table);
    let named = offsets_after_name(record.name, pos, table);
    let data_pos = rdata_pos(record, pos, table);
    let data = rdata_wire(record.rdata, data_pos, named);
    lemma_added_record_read_back(buf, draft, record);
    let wire = record_wire(record, pos, table);
    assert(stands_at(buf, pos, wire)) by {
        assert(next.bytes == draft.bytes + wire);
        assert(buf.subrange(pos, pos + wire.len()) =~= next.bytes.subrange(pos, pos + wire.len()));
        assert(next.bytes.subrange(pos, pos + wire.len()) =~= wire);
    }
    let a = name + u16_wire(record.rrtype);
    let b = a + u16_wire(record.class);
    let c = b + u32_wire(record.ttl);
    let d = c + u16_wire(record.rdlength);
    assert(wire == d + data);
    lemma_stands_split(buf, pos, d, data);
    lemma_stands_split(buf, pos, c, u16_wire(record.rdlength));
    lemma_stands_split(buf, pos, b, u32_wire(record.ttl));
    lemma_stands_split(buf, pos, a, u16_wire(record.class));
    lemma_stands_split(buf, pos, name, u16_wire(record.rrtype));
    lemma_rdata_names_stand(record.rdata, buf, data_pos, named);
}

/// Questions with readable names that the serializer wrote after a draft
/// that is right are as written.
proof fn lemma_written_questions_as_written(
    buf: Seq<u8>,
    draft: Draft,
    questions: Seq<Question>,
)
    requires
        draft_spelled(draft),
        forall|i: int| 0 <= i < questions.len() ==> readable_name((#[trigger] questions[i]).qname),
        with_questions(draft, questions) matches Ok(next) && stands_at(buf, 0, next.bytes),
    ensures
        questions_as_written(buf, draft, questions.len()),
        with_questions(draft, questions) matches Ok(next) && next == draft_with_questions(
            buf,
            draft,
            questions.len(),
        ),
    decreases questions.len(),
{
    lemma_questions_read_back(buf, draft, questions);
    if questions.len() > 0 {
        let shorter = questions.drop_last();
        let last = questions.last();
        let middle = with_questions(draft, shorter)->Ok_0;
        let next = with_question(middle, last)->Ok_0;
        let pos = middle.bytes.len() as int;
        let wire = question_wire(last, pos, middle.offsets);
        assert(stands_at(next.bytes, 0, middle.bytes)) by {
            assert(next.bytes.subrange(0, pos) =~= middle.bytes);
        }
        lemma_stands_first(buf, next.bytes, middle.bytes);
        lemma_written_questions_as_written(buf, draft, shorter);
        lemma_questions_read_back(buf, draft, shorter);
        assert(stands_at(buf, pos, wire)) by {
            assert(buf.subrange(pos, pos + wire.len()) =~= next.bytes.subrange(
                pos,
                pos + wire.len(),
            ));
            assert(next.bytes.subrange(pos, pos + wire.len()) =~= wire);
        }
        lemma_question_read_back(buf, pos, last, middle.offsets);
        lemma_stands_split(
            buf,
            pos,
            name_wire(last.qname, pos, middle.offsets) + u16_wire(last.qtype),
            u16_wire(last.qclass),
        );
        lemma_stands_split(
            buf,
            pos,
            name_wire(last.qname, pos, middle.offsets),
            u16_wire(last.qtype),
        );
    }
}

/// Readable resource records that the serializer wrote after a draft that
/// is right are as written.
proof fn lemma_written_records_as_written(
    buf: Seq<u8>,
    draft: Draft,
    records: Seq<ResourceRecord>,
)
    requires
        draft_spelled(draft),
        forall|i: int| 0 <= i < records.len() ==> readable_record(#[trigger] records[i]),
        with_records(draft, records) matches Ok(next) && stands_at(buf, 0, next.bytes),
    ensures
        records_as_written(buf, draft, records.len()),
        with_records(draft, records) matches Ok(next) && next == draft_with_records(
            buf,
            draft,
            records.len(),
        ),
    decreases records.len(),
{
    lemma_records_read_back(buf, draft, records);
    if records.len() > 0 {
        let shorter = records.drop_last();
        let last = records.last();
        let middle = with_records(draft, shorter)->Ok_0;
        let next = with_record(middle, last)->Ok_0;
        assert(with_records(draft, records) == with_record(middle, last));
        assert(readable_record(last));
        assert(stands_at(next.bytes, 0, middle.bytes)) by {
            assert(next.bytes.subrange(0, middle.bytes.len() as int) =~= middle.bytes);
        }
        lemma_stands_first(buf, next.bytes, middle.bytes);
        lemma_written_records_as_written(buf, draft, shorter);
        lemma_records_read_back(buf, draft, shorter);
        lemma_added_record_as_written(buf, middle, last);
    }
}

/// The four sections that the serializer wrote after a draft that is
/// right, up to the end of the buffer, are as written.
proof fn lemma_written_sections_as_written(
    buf: Seq<u8>,
    start: Draft,
    questions: Seq<Question>,
    answers: Seq<ResourceRecord>,
    authorities: Seq<ResourceRecord>,
    additionals: Seq<ResourceRecord>,
)
    requires
        draft_spelled(start),
        forall|i: int| 0 <= i < questions.len() ==> readable_name((#[trigger] questions[i]).qname),
        forall|i: int| 0 <= i < answers.len() ==> readable_record(#[trigger] answers[i]),
        forall|i: int| 0 <= i < authorities.len() ==> readable_record(#[trigger] authorities[i]),
        forall|i: int| 0 <= i < additionals.len() ==> readable_record(#[trigger] additionals[i]),
        with_questions(start, questions) matches Ok(asked) && (with_records(
            asked,
            answers,
        ) matches Ok(answered) && (with_records(answered, authorities) matches Ok(referred) && (
        with_records(referred, additionals) matches Ok(done) && done.bytes == buf))),
    ensures
        ({
            let asked = draft_with_questions(buf, start, questions.len());
            let answered = draft_with_records(buf, asked, answers.len());
            let referred = draft_with_records(buf, answered, authorities.len());
            let done = draft_with_records(buf, referred, additionals.len());
            &&& stands_at(buf, 0, start.bytes)
            &&& questions_as_written(buf, start, questions.len())
            &&& records_as_written(buf, asked, answers.len())
            &&& records_as_written(buf, answered, authorities.len())
            &&& records_as_written(buf, referred, additionals.len())
            &&& done.bytes.len() == buf.len()
        }),
{
    let asked = with_questions(start, questions)->Ok_0;
    let answered = with_records(asked, answers)->Ok_0;
    let referred = with_records(answered, authorities)->Ok_0;
    let done = with_records(referred, additionals)->Ok_0;
    assert(stands_at(buf, 0, done.bytes)) by {
        assert(buf.subrange(0, done.bytes.len() as int) =~= done.bytes);
    }
    lemma_with_questions_grows(start, questions);
    lemma_with_records_grows(asked, answers);
    lemma_with_records_grows(answered, authorities);
    lemma_with_records_grows(referred, additionals);
    lemma_stands_first(buf, done.bytes, referred.bytes);
    lemma_stands_first(buf, referred.bytes, answered.bytes);
    lemma_stands_first(buf, answered.bytes, asked.bytes);
    lemma_stands_first(buf, asked.bytes, start.bytes);
    lemma_written_questions_as_written(buf, start, questions);
    lemma_questions_read_back(buf, start, questions);
    lemma_written_records_as_written(buf, asked, answers);
    lemma_records_read_back(buf, asked, answers);
    lemma_written_records_as_written(buf, answered, authorities);
    lemma_records_read_back(buf, answered, authorities);
    lemma_written_records_as_written(buf, referred, additionals);
}

/// The bytes of a message are the bytes of the draft with its four
/// sections.
proof fn lemma_message_wire_sections(message: Message)
    requires
        message_wire(message) is Ok,
    ensures
        with_questions(
            Draft { bytes: header_wire(message.header), offsets: Map::empty() },
            message.questions,
        ) matches Ok(asked) && (with_records(asked, message.answers) matches Ok(answered) && (
        with_records(answered, message.authorities) matches Ok(referred) && (with_records(
            referred,
            message.additionals,
        ) matches Ok(done) && message_wire(message) == Ok::<Seq<u8>, DnsError>(done.bytes)))),
{
}

/// A buffer whose four sections after the header are as written, up to its
/// end, is written as the serializer writes.
proof fn lemma_sections_make_message(buf: Seq<u8>)
    requires
        buf.len() >= DNS_HEADER_SIZE,
        ({
            let header = header_at(buf);
            let start = Draft { bytes: buf.take(DNS_HEADER_SIZE as int), offsets: Map::empty() };
            let asked = draft_with_questions(buf, start, header.qdcount as nat);
            let answered = draft_with_records(buf, asked, header.ancount as nat);
            let referred = draft_with_records(buf, answered, header.nscount as nat);
            let done = draft_with_records(buf, referred, header.arcount as nat);
            &&& questions_as_written(buf, start, header.qdcount as nat)
            &&& records_as_written(buf, asked, header.ancount as nat)
            &&& records_as_written(buf, answered, header.nscount as nat)
            &&& records_as_written(buf, referred, header.arcount as nat)
            &&& done.bytes.len() == buf.len()
        }),
    ensures
        message_as_written(buf),
{
}

/// Where the bytes of a header stand at the start of a buffer, they are
/// its first twelve bytes, and the header is read from them.
proof fn lemma_header_stands(buf: Seq<u8>, header: DnsHeader)
    requires
        header.opcode < 16,
        header.z < 8,
        header.rcode < 16,
        stands_at(buf, 0, header_wire(header)),
    ensures
        buf.len() >= DNS_HEADER_SIZE,
        header_at(buf) == header,
        buf.take(DNS_HEADER_SIZE as int) == header_wire(header),
{
    lemma_header_read_back(buf, header);
    assert(buf.take(DNS_HEADER_SIZE as int) =~= header_wire(header));
}

/// What the serializer writes for a readable message begins with its
/// header, and its four sections are as written, up to its end.
proof fn lemma_serialized_sections_as_written(message: Message, buf: Seq<u8>)
    requires
        readable_message(message),
        message_wire(message) == Ok::<Seq<u8>, DnsError>(buf),
    ensures
        buf.len() >= DNS_HEADER_SIZE,
        header_at(buf) == message.header,
        buf.take(DNS_HEADER_SIZE as int) == header_wire(message.header),
        ({
            let start = Draft { bytes: header_wire(message.header), offsets: Map::empty() };
            let asked = draft_with_questions(buf, start, message.questions.len());
            let answered = draft_with_records(buf, asked, message.answers.len());
            let referred = draft_with_records(buf, answered, message.authorities.len());
            let done = draft_with_records(buf, referred, message.additionals.len());
            &&& questions_as_written(buf, start, message.questions.len())
            &&& records_as_written(buf, asked, message.answers.len())
            &&& records_as_written(buf, answered, message.authorities.len())
            &&& records_as_written(buf, referred, message.additionals.len())
            &&& done.bytes.len() == buf.len()
        }),
{
    let start = Draft { bytes: header_wire(message.header), offsets: Map::empty() };
    lemma_message_wire_sections(message);
    assert(draft_spelled(start));
    lemma_written_sections_as_written(
        buf,
        start,
        message.questions,
        message.answers,
        message.authorities,
        message.additionals,
    );
    lemma_header_stands(buf, message.header);
}

/// What the serializer writes for a readable message is written as the
/// serializer writes. So the buffers that are written as the serializer
/// writes are the buffers that the serializer writes for the messages that
/// the parser can give back.
pub proof fn lemma_serialized_is_as_written(message: Message)
    requires
        readable_message(message),
        message_wire(message) is Ok,
    ensures
        message_wire(message) matches Ok(buf) && message_as_written(buf),
{
    let buf = message_wire(message)->Ok_0;
    lemma_serialized_sections_as_written(message, buf);
    lemma_sections_make_message(buf);
}

} // verus!
