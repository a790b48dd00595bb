//! Laws that relate serializing and parsing: what the serializer writes, the
//! parser reads back.

use crate::dns_packet::dns_header::{
    header_at, header_wire, lemma_header_parsed_of_wire, DnsHeader,
};
use crate::dns_packet::dns_question::{question_at, question_wire, questions_at, Question};
use crate::dns_packet::dns_resource_record::{
    character_string_at, character_string_wire, is_name_type, name_data, offsets_after_rdata,
    offsets_after_record, offsets_after_two_names, rdata_at, rdata_error, rdata_pos, rdata_wire,
    record_at, record_error, record_wire, records_at, two_names_wire, RecordData,
    ResourceRecord, MAX_CHARACTER_STRING, RECORD_FIXED_SIZE,
};
use crate::dns_packet::{
    message_at, message_wire, with_questions, with_record, with_records, Draft, Message,
};
use crate::domain_name::{
    checked_name, decode_labels, decode_name, decode_name_within, first_dot, label_text,
    label_wire, lemma_decode_name_end, lemma_first_dot, name_wire, offsets_after_name,
    pointer_target, pointer_wire, valid_label, valid_labels, valid_name, with_offset,
    MAX_POINTER_OFFSET,
};
use crate::error::DnsError;
use crate::types::{
    DNS_TYPE_A, DNS_TYPE_AAAA, DNS_TYPE_CNAME, DNS_TYPE_HINFO, DNS_TYPE_MB, DNS_TYPE_MD,
    DNS_TYPE_MF, DNS_TYPE_MG, DNS_TYPE_MINFO, DNS_TYPE_MR, DNS_TYPE_MX, DNS_TYPE_NS,
    DNS_TYPE_NULL, DNS_TYPE_PTR, DNS_TYPE_SOA, DNS_TYPE_SRV, DNS_TYPE_TXT, DNS_TYPE_WKS,
};
use crate::wire::{
    lemma_u16_round_trip, lemma_u32_round_trip, u16_at, u16_wire, u32_at, u32_wire,
};
use crate::DNS_HEADER_SIZE;
use vstd::prelude::*;

verus! {

// ---------------------------------------------------------------------------
// Names
// ---------------------------------------------------------------------------

/// `name`, a run of labels with their dots, is spelled at `at`: its labels
/// stand there one after the other, and after them a zero byte, where the
/// name is at its end, or a compression pointer that points strictly
/// backwards to where the rest of the name is spelled. At most `jumps`
/// pointers follow one another.
pub open spec fn spelled_at(buf: Seq<u8>, at: int, name: Seq<char>, jumps: nat) -> bool
    decreases jumps, name.len(),
{
    &&& 0 <= at < buf.len()
    &&& if buf[at] == 0 {
        name.len() == 0
    } else if buf[at] >= 0xC0 {
        &&& at + 1 < buf.len()
        &&& pointer_target(buf, at) < at
        &&& jumps > 0
        &&& name.len() > 0
        &&& spelled_at(buf, pointer_target(buf, at), name, (jumps - 1) as nat)
    } else {
        let d = buf[at] as int;
        &&& at + d < buf.len()
        &&& d < name.len()
        &&& first_dot(name) == d
        &&& name.take(d) == label_text(buf.subrange(at + 1, at + 1 + d))
        &&& spelled_at(buf, at + 1 + d, name.skip(d + 1), jumps)
    }
}

/// The position after the labels that start at `at` and the zero byte or
/// the pointer that ends them. Where neither ends them inside the buffer,
/// it is the position at which the labels break off.
pub open spec fn segment_end(buf: Seq<u8>, at: int) -> int
    decreases buf.len() - at,
{
    if at < 0 || at >= buf.len() {
        at
    } else if buf[at] == 0 {
        at + 1
    } else if buf[at] >= 0xC0 {
        at + 2
    } else if at + buf[at] >= buf.len() {
        at
    } else {
        segment_end(buf, at + 1 + buf[at])
    }
}

/// What is recorded for `name` is right: a pointer can hold the offset, and
/// the name, which is not empty, is spelled there, with no more pointers to
/// follow than the offset counts.
pub open spec fn entry_spelled(buf: Seq<u8>, name: Seq<char>, offset: u16) -> bool {
    &&& offset <= MAX_POINTER_OFFSET
    &&& name.len() > 0
    &&& valid_labels(name)
    &&& spelled_at(buf, offset as int, name, offset as nat)
}

/// Every entry of the table is right for the buffer.
pub open spec fn table_spelled(buf: Seq<u8>, table: Map<Seq<char>, u16>) -> bool {
    forall|name: Seq<char>| #[trigger]
        table.contains_key(name) ==> entry_spelled(buf, name, table[name])
}

/// A name that is spelled with some pointers to follow is spelled with more.
pub proof fn lemma_spelled_more_jumps(
    buf: Seq<u8>,
    at: int,
    name: Seq<char>,
    jumps: nat,
    more: nat,
)
    requires
        spelled_at(buf, at, name, jumps),
        jumps <= more,
    ensures
        spelled_at(buf, at, name, more),
    decreases jumps, name.len(),
{
    if buf[at] == 0 {
    } else if buf[at] >= 0xC0 {
        lemma_spelled_more_jumps(
            buf,
            pointer_target(buf, at),
            name,
            (jumps - 1) as nat,
            (more - 1) as nat,
        );
    } else {
        let d = buf[at] as int;
        lemma_spelled_more_jumps(buf, at + 1 + d, name.skip(d + 1), jumps, more);
    }
}

/// A name that is spelled in a buffer is spelled in every buffer that
/// begins with it, and its labels end at the same position.
pub proof fn lemma_spelled_extends(
    buf: Seq<u8>,
    at: int,
    name: Seq<char>,
    jumps: nat,
    tail: Seq<u8>,
)
    requires
        spelled_at(buf, at, name, jumps),
    ensures
        spelled_at(buf + tail, at, name, jumps),
        segment_end(buf + tail, at) == segment_end(buf, at),
    decreases jumps, name.len(),
{
    let longer = buf + tail;
    assert(longer[at] == buf[at]);
    if buf[at] == 0 {
    } else if buf[at] >= 0xC0 {
        assert(longer[at + 1] == buf[at + 1]);
        lemma_spelled_extends(buf, pointer_target(buf, at), name, (jumps - 1) as nat, tail);
    } else {
        let d = buf[at] as int;
        assert(longer.subrange(at + 1, at + 1 + d) =~= buf.subrange(at + 1, at + 1 + d));
        lemma_spelled_extends(buf, at + 1 + d, name.skip(d + 1), jumps, tail);
    }
}

/// A table that is right for a buffer is right for every buffer that begins
/// with it.
pub proof fn lemma_table_spelled_extends(
    buf: Seq<u8>,
    table: Map<Seq<char>, u16>,
    tail: Seq<u8>,
)
    requires
        table_spelled(buf, table),
    ensures
        table_spelled(buf + tail, table),
{
    assert forall|name: Seq<char>| #[trigger] table.contains_key(name) implies entry_spelled(
        buf + tail,
        name,
        table[name],
    ) by {
        lemma_spelled_extends(buf, table[name] as int, name, table[name] as nat, tail);
    }
}

/// A name that is spelled at `at` is what the labels at `at` decode to.
pub proof fn lemma_spelled_decodes(buf: Seq<u8>, at: int, name: Seq<char>, jumps: nat)
    requires
        spelled_at(buf, at, name, jumps),
        valid_labels(name),
    ensures
        decode_labels(buf, at, jumps) == Ok::<(Seq<char>, int), DnsError>(
            (name, segment_end(buf, at)),
        ),
    decreases jumps, name.len(),
{
    if buf[at] == 0 {
        assert(name =~= Seq::<char>::empty());
    } else if buf[at] >= 0xC0 {
        let target = pointer_target(buf, at);
        lemma_spelled_decodes(buf, target, name, (jumps - 1) as nat);
        assert(valid_name(name));
        assert(decode_name_within(buf, target, at, (jumps - 1) as nat) == Ok::<
            (Seq<char>, int),
            DnsError,
        >((name, segment_end(buf, target))));
    } else {
        let d = buf[at] as int;
        let rest = name.skip(d + 1);
        lemma_first_dot(name);
        lemma_spelled_decodes(buf, at + 1 + d, rest, jumps);
        assert(name.take(d).push('.') + rest =~= name);
    }
}

/// The text of the bytes of a label is the label.
pub proof fn lemma_label_text_of_wire(label: Seq<char>)
    requires
        forall|i: int| 0 <= i < label.len() ==> (#[trigger] label[i]) as int <= 0xFF,
    ensures
        label_text(label_wire(label)) == label,
{
    let back = label_text(label_wire(label));
    assert forall|i: int| 0 <= i < label.len() implies back[i] == label[i] by {
        lemma_char_of_byte(label[i]);
    }
    assert(back =~= label);
}

/// A character of at most eight bits is the character of its byte.
pub proof fn lemma_char_of_byte(c: char)
    requires
        c as int <= 0xFF,
    ensures
        (c as u8) as char == c,
{
}

/// A pointer to an offset of at most fourteen bits is two bytes that hold
/// the offset.
pub proof fn lemma_pointer_wire_target(offset: u16)
    requires
        offset <= MAX_POINTER_OFFSET,
    ensures
        pointer_wire(offset).len() == 2,
        pointer_wire(offset)[0] >= 0xC0,
        pointer_target(pointer_wire(offset), 0) == offset,
{
}

/// What the serializer writes for a run of valid labels spells it, if what
/// the table holds for it and for shorter names is right and lies before
/// `first`, the position at which the whole name began. What it adds to the
/// table is right as well.
proof fn lemma_written_name_is_spelled(
    name: Seq<char>,
    before: Seq<u8>,
    table: Map<Seq<char>, u16>,
    first: int,
)
    requires
        valid_labels(name),
        0 <= first <= before.len(),
        forall|key: Seq<char>| #[trigger]
            table.contains_key(key) && key.len() <= name.len() ==> entry_spelled(
                before,
                key,
                table[key],
            ) && table[key] < first,
    ensures
        ({
            let pos = before.len() as int;
            let buf = before + name_wire(name, pos, table);
            let after = offsets_after_name(name, pos, table);
            &&& name_wire(name, pos, table).len() >= 1
            &&& spelled_at(buf, pos, name, first as nat)
            &&& segment_end(buf, pos) == buf.len()
            &&& forall|key: Seq<char>| #[trigger]
                table.contains_key(key) ==> after.contains_key(key) && after[key] == table[key]
            &&& forall|key: Seq<char>| #[trigger]
                after.contains_key(key) && !table.contains_key(key) ==> entry_spelled(
                    buf,
                    key,
                    after[key],
                )
        }),
    decreases name.len(),
{
    let pos = before.len() as int;
    let wire = name_wire(name, pos, table);
    let buf = before + wire;
    let after = offsets_after_name(name, pos, table);
    assert(name_wire(name, pos, table).len() >= 1) by {
        if name.len() > 0 && !table.contains_key(name) {
            lemma_first_dot(name);
        }
    }
    if name.len() == 0 {
        assert(buf[pos] == 0);
        assert(spelled_at(buf, pos, name, first as nat));
        assert(segment_end(buf, pos) == buf.len());
    } else {
        lemma_first_dot(name);
        assert(name != seq!['.']) by {
            if name == seq!['.'] {
                assert(name[0] == '.');
            }
        }
        if table.contains_key(name) {
            let offset = table[name];
            lemma_pointer_wire_target(offset);
            assert(buf[pos] == wire[0]);
            assert(buf[pos + 1] == wire[1]);
            assert(pointer_target(buf, pos) == offset);
            lemma_spelled_extends(before, offset as int, name, offset as nat, wire);
            lemma_spelled_more_jumps(
                buf,
                offset as int,
                name,
                offset as nat,
                (first - 1) as nat,
            );
            assert(spelled_at(buf, pos, name, first as nat));
            assert(segment_end(buf, pos) == buf.len());
        } else {
            let d = first_dot(name);
            let label = name.take(d);
            let rest = name.skip(d + 1);
            let head = seq![d as u8] + label_wire(label);
            let longer = before + head;
            let next = with_offset(table, name, pos);
            let tail = name_wire(rest, pos + 1 + d, next);
            assert(wire == head + tail);
            assert(buf =~= longer + tail);
            assert(longer.len() == pos + 1 + d);
            assert forall|key: Seq<char>| #[trigger]
                next.contains_key(key) && key.len() <= rest.len() implies entry_spelled(
                longer,
                key,
                next[key],
            ) && next[key] < first by {
                assert(key != name);
                assert(table.contains_key(key));
                lemma_spelled_extends(before, table[key] as int, key, table[key] as nat, head);
            }
            lemma_written_name_is_spelled(rest, longer, next, first);
            // The label that was written is the first label of the name.
            assert(buf[pos] == d as u8);
            assert(buf.subrange(pos + 1, pos + 1 + d) =~= label_wire(label));
            assert forall|i: int| 0 <= i < label.len() implies (#[trigger] label[i]) as int
                <= 0xFF by {
                assert(valid_label(label));
            }
            lemma_label_text_of_wire(label);
            assert(spelled_at(buf, pos + 1 + d, rest, first as nat));
            assert(name.take(d) == label_text(buf.subrange(pos + 1, pos + 1 + d)));
            assert(pos + d < buf.len());
            assert(buf[pos] != 0 && buf[pos] < 0xC0);
            assert(buf[pos] as int == d);
            assert(spelled_at(buf, pos, name, first as nat));
            assert(segment_end(buf, pos) == buf.len());
            // The new entries are right.
            let later = offsets_after_name(rest, pos + 1 + d, next);
            assert(after == later);
            assert forall|key: Seq<char>| #[trigger]
                after.contains_key(key) && !table.contains_key(key) implies entry_spelled(
                buf,
                key,
                after[key],
            ) by {
                if next.contains_key(key) {
                    assert(key == name);
                    assert(after[key] == pos);
                    lemma_spelled_more_jumps(buf, pos, name, first as nat, pos as nat);
                } else {
                    assert(later.contains_key(key) && !next.contains_key(key));
                    assert(entry_spelled(longer + tail, key, later[key]));
                }
            }
            assert forall|key: Seq<char>| #[trigger]
                table.contains_key(key) implies after.contains_key(key) && after[key]
                == table[key] by {
                assert(next.contains_key(key));
            }
        }
    }
}

/// A name that the serializer wrote is read back by the parser: written at
/// the end of a buffer for which the table is right, a run of valid labels
/// decodes to itself, whatever follows it, and ends where its bytes end. The
/// table is then right for the buffer with the name.
pub proof fn lemma_name_round_trip(
    name: Seq<char>,
    before: Seq<u8>,
    table: Map<Seq<char>, u16>,
    tail: Seq<u8>,
    limit: int,
)
    requires
        valid_labels(name),
        name.len() > 0,
        table_spelled(before, table),
        before.len() < limit,
    ensures
        ({
            let pos = before.len() as int;
            let wire = name_wire(name, pos, table);
            &&& decode_name(before + wire + tail, pos, limit) == Ok::<(Seq<char>, int), DnsError>(
                (name, pos + wire.len()),
            )
            &&& table_spelled(before + wire, offsets_after_name(name, pos, table))
        }),
{
    let pos = before.len() as int;
    let wire = name_wire(name, pos, table);
    let written = before + wire;
    let buf = written + tail;
    let after = offsets_after_name(name, pos, table);
    assert forall|key: Seq<char>| #[trigger]
        table.contains_key(key) && key.len() <= name.len() implies entry_spelled(
        before,
        key,
        table[key],
    ) && table[key] < pos by {}
    lemma_written_name_is_spelled(name, before, table, pos);
    lemma_spelled_extends(written, pos, name, pos as nat, tail);
    lemma_spelled_more_jumps(buf, pos, name, pos as nat, buf.len());
    lemma_spelled_decodes(buf, pos, name, buf.len());
    assert(valid_name(name));
    assert forall|key: Seq<char>| #[trigger] after.contains_key(key) implies entry_spelled(
        written,
        key,
        after[key],
    ) by {
        if table.contains_key(key) {
            lemma_spelled_extends(before, table[key] as int, key, table[key] as nat, wire);
        }
    }
}

// ---------------------------------------------------------------------------
// Parts of a buffer
// ---------------------------------------------------------------------------

/// The bytes `part` stand in `buf` from `at` on.
pub open spec fn stands_at(buf: Seq<u8>, at: int, part: Seq<u8>) -> bool {
    &&& 0 <= at
    &&& at + part.len() <= buf.len()
    &&& buf.subrange(at, at + part.len()) == part
}

/// Where bytes stand, their first part stands, and their second part after
/// it.
pub proof fn lemma_stands_split(buf: Seq<u8>, at: int, first: Seq<u8>, second: Seq<u8>)
    requires
        stands_at(buf, at, first + second),
    ensures
        stands_at(buf, at, first),
        stands_at(buf, at + first.len(), second),
{
    let whole = buf.subrange(at, at + (first + second).len());
    assert forall|i: int| 0 <= i < first.len() implies buf[at + i] == first[i] by {
        assert(whole[i] == (first + second)[i]);
    }
    assert forall|i: int| 0 <= i < second.len() implies buf[at + first.len() + i] == second[i] by {
        assert(whole[first.len() + i] == (first + second)[first.len() + i]);
    }
    assert(buf.subrange(at, at + first.len()) =~= first);
    assert(buf.subrange(at + first.len(), at + first.len() + second.len()) =~= second);
}

/// Where the bytes of a 16-bit integer stand, the integer is read.
pub proof fn lemma_u16_read_back(buf: Seq<u8>, at: int, v: u16)
    requires
        stands_at(buf, at, u16_wire(v)),
    ensures
        u16_at(buf, at) == v,
{
    let part = buf.subrange(at, at + 2);
    assert(part[0] == buf[at]);
    assert(part[1] == buf[at + 1]);
    lemma_u16_round_trip(v);
}

/// Where the bytes of a 32-bit integer stand, the integer is read.
pub proof fn lemma_u32_read_back(buf: Seq<u8>, at: int, v: u32)
    requires
        stands_at(buf, at, u32_wire(v)),
    ensures
        u32_at(buf, at) == v,
{
    let part = buf.subrange(at, at + 4);
    assert(part[0] == buf[at]);
    assert(part[1] == buf[at + 1]);
    assert(part[2] == buf[at + 2]);
    assert(part[3] == buf[at + 3]);
    lemma_u32_round_trip(v);
}

/// A table that is right for the first bytes of a buffer is right for more
/// of its first bytes.
pub proof fn lemma_table_spelled_further(
    buf: Seq<u8>,
    table: Map<Seq<char>, u16>,
    at: int,
    further: int,
)
    requires
        0 <= at <= further <= buf.len(),
        table_spelled(buf.take(at), table),
    ensures
        table_spelled(buf.take(further), table),
{
    lemma_table_spelled_extends(buf.take(at), table, buf.subrange(at, further));
    assert(buf.take(at) + buf.subrange(at, further) =~= buf.take(further));
}

/// A name that the parser gives back as it was written: one or more valid
/// labels. (The root is written as one zero byte, which the parser does not
/// take for a name.)
pub open spec fn readable_name(name: Seq<char>) -> bool {
    name.len() > 0 && valid_labels(name)
}

/// Where the serializer wrote a name, the parser reads it: if the table is
/// right for the bytes before `pos` and the bytes of the name stand at
/// `pos`, the name is decoded there and ends where its bytes end, and the
/// table is then right for the bytes up to there.
pub proof fn lemma_name_read_back(
    buf: Seq<u8>,
    pos: int,
    name: Seq<char>,
    table: Map<Seq<char>, u16>,
    limit: int,
)
    requires
        readable_name(name),
        table_spelled(buf.take(pos), table),
        stands_at(buf, pos, name_wire(name, pos, table)),
        pos < limit,
    ensures
        decode_name(buf, pos, limit) == Ok::<(Seq<char>, int), DnsError>(
            (name, pos + name_wire(name, pos, table).len()),
        ),
        table_spelled(
            buf.take(pos + name_wire(name, pos, table).len()),
            offsets_after_name(name, pos, table),
        ),
        name_wire(name, pos, table).len() >= 1,
{
    let wire = name_wire(name, pos, table);
    let before = buf.take(pos);
    let tail = buf.skip(pos + wire.len());
    assert(before + wire + tail =~= buf);
    assert(before + wire =~= buf.take(pos + wire.len()));
    lemma_name_round_trip(name, before, table, tail, limit);
    lemma_written_name_is_spelled(name, before, table, pos);
}

// ---------------------------------------------------------------------------
// Record data
// ---------------------------------------------------------------------------

/// A text that the parser gives back as it was written: at most 255
/// characters of at most eight bits each.
pub open spec fn readable_text(text: Seq<char>) -> bool {
    &&& text.len() <= MAX_CHARACTER_STRING
    &&& forall|i: int| 0 <= i < text.len() ==> (#[trigger] text[i]) as int <= 0xFF
}

/// Record data that the parser gives back as it was written under the type
/// `rrtype`: the data has the shape of the type, its names and texts are
/// readable, and its addresses have their number of octets.
pub open spec fn readable_data(rrtype: u16, data: RecordData) -> bool {
    match data {
        RecordData::A(octets) => rrtype == DNS_TYPE_A && octets.len() == 4,
        RecordData::NS(name) => rrtype == DNS_TYPE_NS && readable_name(name),
        RecordData::MD(name) => rrtype == DNS_TYPE_MD && readable_name(name),
        RecordData::MF(name) => rrtype == DNS_TYPE_MF && readable_name(name),
        RecordData::CNAME(name) => rrtype == DNS_TYPE_CNAME && readable_name(name),
        RecordData::SOA(mname, rname, _, _, _, _, _) => rrtype == DNS_TYPE_SOA && readable_name(
            mname,
        ) && readable_name(rname),
        RecordData::MB(name) => rrtype == DNS_TYPE_MB && readable_name(name),
        RecordData::MG(name) => rrtype == DNS_TYPE_MG && readable_name(name),
        RecordData::MR(name) => rrtype == DNS_TYPE_MR && readable_name(name),
        RecordData::NULL(_) => rrtype == DNS_TYPE_NULL,
        RecordData::WKS(address, _, _) => rrtype == DNS_TYPE_WKS && address.len() == 4,
        RecordData::PTR(name) => rrtype == DNS_TYPE_PTR && readable_name(name),
        RecordData::HINFO(cpu, os) => rrtype == DNS_TYPE_HINFO && readable_text(cpu)
            && readable_text(os),
        RecordData::MINFO(rmailbx, emailbx) => rrtype == DNS_TYPE_MINFO && readable_name(rmailbx)
            && readable_name(emailbx),
        RecordData::MX(_, exchange) => rrtype == DNS_TYPE_MX && readable_name(exchange),
        RecordData::TXT(text) => rrtype == DNS_TYPE_TXT && readable_text(text),
        RecordData::AAAA(octets) => rrtype == DNS_TYPE_AAAA && octets.len() == 16,
        RecordData::SRV(_, _, _, target) => rrtype == DNS_TYPE_SRV && readable_name(target),
    }
}

/// Where the serializer wrote a character-string, the parser reads it.
pub proof fn lemma_character_string_read_back(
    buf: Seq<u8>,
    pos: int,
    text: Seq<char>,
    limit: int,
)
    requires
        readable_text(text),
        stands_at(buf, pos, character_string_wire(text)),
        pos + 1 + text.len() <= limit,
    ensures
        character_string_wire(text).len() == 1 + text.len(),
        character_string_at(buf, pos, limit) == Ok::<(Seq<char>, int), DnsError>(
            (text, pos + 1 + text.len()),
        ),
{
    let wire = character_string_wire(text);
    lemma_stands_split(buf, pos, seq![text.len() as u8], label_wire(text));
    assert(buf.subrange(pos, pos + 1)[0] == buf[pos]);
    assert(buf[pos] == text.len());
    lemma_label_text_of_wire(text);
}

/// Where the serializer wrote two names one after the other, the parser
/// reads them.
pub proof fn lemma_two_names_read_back(
    buf: Seq<u8>,
    pos: int,
    first: Seq<char>,
    second: Seq<char>,
    table: Map<Seq<char>, u16>,
    limit: int,
)
    requires
        readable_name(first),
        readable_name(second),
        table_spelled(buf.take(pos), table),
        stands_at(buf, pos, two_names_wire(first, second, pos, table)),
        pos + two_names_wire(first, second, pos, table).len() <= limit,
    ensures
        ({
            let head = name_wire(first, pos, table);
            let wire = two_names_wire(first, second, pos, table);
            &&& 1 <= head.len() < wire.len()
            &&& decode_name(buf, pos, limit) == Ok::<(Seq<char>, int), DnsError>(
                (first, pos + head.len()),
            )
            &&& decode_name(buf, pos + head.len(), limit) == Ok::<(Seq<char>, int), DnsError>(
                (second, pos + wire.len()),
            )
            &&& table_spelled(
                buf.take(pos + wire.len()),
                offsets_after_two_names(first, second, pos, table),
            )
        }),
{
    let head = name_wire(first, pos, table);
    let middle = offsets_after_name(first, pos, table);
    let rest = name_wire(second, pos + head.len(), middle);
    lemma_stands_split(buf, pos, head, rest);
    lemma_name_read_back(buf, pos, first, table, limit);
    lemma_name_read_back(buf, pos + head.len(), second, middle, limit);
}

/// Where the serializer wrote data of one name, the parser reads it.
proof fn lemma_name_data_read_back(
    rrtype: u16,
    buf: Seq<u8>,
    pos: int,
    name: Seq<char>,
    table: Map<Seq<char>, u16>,
)
    requires
        is_name_type(rrtype),
        readable_name(name),
        table_spelled(buf.take(pos), table),
        stands_at(buf, pos, name_wire(name, pos, table)),
        name_wire(name, pos, table).len() <= 0xFFFF,
    ensures
        rdata_at(rrtype, buf, pos, name_wire(name, pos, table).len() as u16) == Ok::<
            RecordData,
            DnsError,
        >(name_data(rrtype, name)),
        table_spelled(
            buf.take(pos + name_wire(name, pos, table).len()),
            offsets_after_name(name, pos, table),
        ),
{
    let wire = name_wire(name, pos, table);
    lemma_name_read_back(buf, pos, name, table, pos + wire.len());
}

/// Where the serializer wrote the data of an MX record, the parser reads
/// it.
proof fn lemma_mx_read_back(
    buf: Seq<u8>,
    pos: int,
    preference: u16,
    exchange: Seq<char>,
    table: Map<Seq<char>, u16>,
)
    requires
        readable_name(exchange),
        table_spelled(buf.take(pos), table),
        stands_at(buf, pos, rdata_wire(RecordData::MX(preference, exchange), pos, table)),
        rdata_wire(RecordData::MX(preference, exchange), pos, table).len() <= 0xFFFF,
    ensures
        ({
            let data = RecordData::MX(preference, exchange);
            let wire = rdata_wire(data, pos, table);
            &&& rdata_at(DNS_TYPE_MX, buf, pos, wire.len() as u16) == Ok::<RecordData, DnsError>(
                data,
            )
            &&& table_spelled(buf.take(pos + wire.len()), offsets_after_rdata(data, pos, table))
        }),
{
    let name = name_wire(exchange, pos + 2, table);
    lemma_stands_split(buf, pos, u16_wire(preference), name);
    lemma_u16_read_back(buf, pos, preference);
    lemma_table_spelled_further(buf, table, pos, pos + 2);
    lemma_name_read_back(buf, pos + 2, exchange, table, pos + 2 + name.len());
}

/// Where the serializer wrote the data of an SRV record, the parser reads
/// it.
proof fn lemma_srv_read_back(
    buf: Seq<u8>,
    pos: int,
    priority: u16,
    weight: u16,
    port: u16,
    target: Seq<char>,
    table: Map<Seq<char>, u16>,
)
    requires
        readable_name(target),
        table_spelled(buf.take(pos), table),
        stands_at(
            buf,
            pos,
            rdata_wire(RecordData::SRV(priority, weight, port, target), pos, table),
        ),
        rdata_wire(RecordData::SRV(priority, weight, port, target), pos, table).len() <= 0xFFFF,
    ensures
        ({
            let data = RecordData::SRV(priority, weight, port, target);
            let wire = rdata_wire(data, pos, table);
            &&& rdata_at(DNS_TYPE_SRV, buf, pos, wire.len() as u16) == Ok::<RecordData, DnsError>(
                data,
            )
            &&& table_spelled(buf.take(pos + wire.len()), offsets_after_rdata(data, pos, table))
        }),
{
    let name = name_wire(target, pos + 6, table);
    let numbers = u16_wire(priority) + u16_wire(weight) + u16_wire(port);
    lemma_stands_split(buf, pos, numbers, name);
    lemma_stands_split(buf, pos, u16_wire(priority) + u16_wire(weight), u16_wire(port));
    lemma_stands_split(buf, pos, u16_wire(priority), u16_wire(weight));
    lemma_u16_read_back(buf, pos, priority);
    lemma_u16_read_back(buf, pos + 2, weight);
    lemma_u16_read_back(buf, pos + 4, port);
    lemma_table_spelled_further(buf, table, pos, pos + 6);
    lemma_name_read_back(buf, pos + 6, target, table, pos + 6 + name.len());
}

/// Where the serializer wrote the data of an SOA record, the parser reads
/// it.
proof fn lemma_soa_read_back(
    buf: Seq<u8>,
    pos: int,
    data: RecordData,
    table: Map<Seq<char>, u16>,
)
    requires
        data is SOA,
        readable_data(DNS_TYPE_SOA, data),
        table_spelled(buf.take(pos), table),
        stands_at(buf, pos, rdata_wire(data, pos, table)),
        rdata_wire(data, pos, table).len() <= 0xFFFF,
    ensures
        rdata_at(DNS_TYPE_SOA, buf, pos, rdata_wire(data, pos, table).len() as u16) == Ok::<
            RecordData,
            DnsError,
        >(data),
        table_spelled(
            buf.take(pos + rdata_wire(data, pos, table).len()),
            offsets_after_rdata(data, pos, table),
        ),
{
    match data {
        RecordData::SOA(mname, rname, serial, refresh, retry, expire, minimum) => {
            let wire = rdata_wire(data, pos, table);
            let names = two_names_wire(mname, rname, pos, table);
            let end = pos + names.len();
            let a = names + u32_wire(serial);
            let b = a + u32_wire(refresh);
            let c = b + u32_wire(retry);
            let d = c + u32_wire(expire);
            assert(wire == d + u32_wire(minimum));
            lemma_stands_split(buf, pos, d, u32_wire(minimum));
            lemma_stands_split(buf, pos, c, u32_wire(expire));
            lemma_stands_split(buf, pos, b, u32_wire(retry));
            lemma_stands_split(buf, pos, a, u32_wire(refresh));
            lemma_stands_split(buf, pos, names, u32_wire(serial));
            lemma_u32_read_back(buf, end, serial);
            lemma_u32_read_back(buf, end + 4, refresh);
            lemma_u32_read_back(buf, end + 8, retry);
            lemma_u32_read_back(buf, end + 12, expire);
            lemma_u32_read_back(buf, end + 16, minimum);
            lemma_two_names_read_back(buf, pos, mname, rname, table, pos + wire.len());
            lemma_table_spelled_further(
                buf,
                offsets_after_two_names(mname, rname, pos, table),
                end,
                pos + wire.len(),
            );
        },
        _ => {},
    }
}

/// Where the serializer wrote record data that is readable under its type,
/// the parser reads it: if the table is right for the bytes before `pos` and
/// the bytes of the data stand at `pos`, the data of that many bytes is
/// parsed there, and the table is then right for the bytes up to its end.
pub proof fn lemma_rdata_read_back(
    rrtype: u16,
    buf: Seq<u8>,
    pos: int,
    data: RecordData,
    table: Map<Seq<char>, u16>,
)
    requires
        readable_data(rrtype, data),
        table_spelled(buf.take(pos), table),
        stands_at(buf, pos, rdata_wire(data, pos, table)),
        rdata_wire(data, pos, table).len() <= 0xFFFF,
    ensures
        rdata_at(rrtype, buf, pos, rdata_wire(data, pos, table).len() as u16) == Ok::<
            RecordData,
            DnsError,
        >(data),
        table_spelled(
            buf.take(pos + rdata_wire(data, pos, table).len()),
            offsets_after_rdata(data, pos, table),
        ),
        rdata_error(data) is None,
{
    let wire = rdata_wire(data, pos, table);
    let end = pos + wire.len();
    match data {
        RecordData::A(octets) => {
            lemma_table_spelled_further(buf, table, pos, end);
        },
        RecordData::AAAA(octets) => {
            lemma_table_spelled_further(buf, table, pos, end);
        },
        RecordData::NS(name) => {
            lemma_name_data_read_back(rrtype, buf, pos, name, table);
        },
        RecordData::MD(name) => {
            lemma_name_data_read_back(rrtype, buf, pos, name, table);
        },
        RecordData::MF(name) => {
            lemma_name_data_read_back(rrtype, buf, pos, name, table);
        },
        RecordData::CNAME(name) => {
            lemma_name_data_read_back(rrtype, buf, pos, name, table);
        },
        RecordData::MB(name) => {
            lemma_name_data_read_back(rrtype, buf, pos, name, table);
        },
        RecordData::MG(name) => {
            lemma_name_data_read_back(rrtype, buf, pos, name, table);
        },
        RecordData::MR(name) => {
            lemma_name_data_read_back(rrtype, buf, pos, name, table);
        },
        RecordData::PTR(name) => {
            lemma_name_data_read_back(rrtype, buf, pos, name, table);
        },
        RecordData::MX(preference, exchange) => {
            lemma_mx_read_back(buf, pos, preference, exchange, table);
        },
        RecordData::SRV(priority, weight, port, target) => {
            lemma_srv_read_back(buf, pos, priority, weight, port, target, table);
        },
        RecordData::SOA(_, _, _, _, _, _, _) => {
            lemma_soa_read_back(buf, pos, data, table);
        },
        RecordData::MINFO(rmailbx, emailbx) => {
            lemma_two_names_read_back(buf, pos, rmailbx, emailbx, table, end);
        },
        RecordData::NULL(bytes) => {
            lemma_table_spelled_further(buf, table, pos, end);
        },
        RecordData::WKS(address, protocol, bitmap) => {
            assert(address.push(protocol) =~= address + seq![protocol]);
            lemma_stands_split(buf, pos, address + seq![protocol], bitmap);
            lemma_stands_split(buf, pos, address, seq![protocol]);
            assert(buf.subrange(pos + 4, pos + 5)[0] == buf[pos + 4]);
            lemma_table_spelled_further(buf, table, pos, end);
        },
        RecordData::TXT(text) => {
            lemma_character_string_read_back(buf, pos, text, end);
            lemma_table_spelled_further(buf, table, pos, end);
        },
        RecordData::HINFO(cpu, os) => {
            lemma_stands_split(buf, pos, character_string_wire(cpu), character_string_wire(os));
            lemma_character_string_read_back(buf, pos, cpu, end);
            lemma_character_string_read_back(buf, pos + 1 + cpu.len(), os, end);
            lemma_table_spelled_further(buf, table, pos, end);
        },
    }
}

// ---------------------------------------------------------------------------
// Questions and resource records
// ---------------------------------------------------------------------------

/// A resource record that the parser gives back as it was written: its name
/// is readable, and its data is readable under its type.
pub open spec fn readable_record(record: ResourceRecord) -> bool {
    readable_name(record.name) && readable_data(record.rrtype, record.rdata)
}

/// Where the serializer wrote a question with a readable name, the parser
/// reads it.
pub proof fn lemma_question_read_back(
    buf: Seq<u8>,
    pos: int,
    question: Question,
    table: Map<Seq<char>, u16>,
)
    requires
        readable_name(question.qname),
        table_spelled(buf.take(pos), table),
        stands_at(buf, pos, question_wire(question, pos, table)),
    ensures
        question_at(buf, pos) == Ok::<(Question, int), DnsError>(
            (question, pos + question_wire(question, pos, table).len()),
        ),
        table_spelled(
            buf.take(pos + question_wire(question, pos, table).len()),
            offsets_after_name(question.qname, pos, table),
        ),
{
    let name = name_wire(question.qname, pos, table);
    let wire = question_wire(question, pos, table);
    let at = pos + name.len();
    lemma_stands_split(buf, pos, name + u16_wire(question.qtype), u16_wire(question.qclass));
    lemma_stands_split(buf, pos, name, u16_wire(question.qtype));
    lemma_name_read_back(buf, pos, question.qname, table, buf.len() as int);
    lemma_u16_read_back(buf, at, question.qtype);
    lemma_u16_read_back(buf, at + 2, question.qclass);
    lemma_table_spelled_further(
        buf,
        offsets_after_name(question.qname, pos, table),
        at,
        pos + wire.len(),
    );
}

/// Where the serializer wrote a readable resource record, the parser reads
/// it.
pub proof fn lemma_record_read_back(
    buf: Seq<u8>,
    pos: int,
    record: ResourceRecord,
    table: Map<Seq<char>, u16>,
)
    requires
        readable_record(record),
        record_error(record, pos, table) is None,
        table_spelled(buf.take(pos), table),
        stands_at(buf, pos, record_wire(record, pos, table)),
    ensures
        record_at(buf, pos) == Ok::<(ResourceRecord, int), DnsError>(
            (record, pos + record_wire(record, pos, table).len()),
        ),
        table_spelled(
            buf.take(pos + record_wire(record, pos, table).len()),
            offsets_after_record(record, pos, table),
        ),
{
    let name = name_wire(record.name, pos, table);
    let named = offsets_after_name(record.name, pos, table);
    let at = pos + name.len();
    let data_pos = rdata_pos(record, pos, table);
    let data = rdata_wire(record.rdata, data_pos, named);
    let a = name + u16_wire(record.rrtype);
    let b = a + u16_wire(record.class);
    let c = b + u32_wire(record.ttl);
    let d = c + u16_wire(record.rdlength);
    assert(record_wire(record, pos, table) == d + data);
    lemma_stands_split(buf, pos, d, data);
    lemma_stands_split(buf, pos, c, u16_wire(record.rdlength));
    lemma_stands_split(buf, pos, b, u32_wire(record.ttl));
    lemma_stands_split(buf, pos, a, u16_wire(record.class));
    lemma_stands_split(buf, pos, name, u16_wire(record.rrtype));
    lemma_name_read_back(buf, pos, record.name, table, buf.len() as int);
    lemma_u16_read_back(buf, at, record.rrtype);
    lemma_u16_read_back(buf, at + 2, record.class);
    lemma_u32_read_back(buf, at + 4, record.ttl);
    lemma_u16_read_back(buf, at + 8, record.rdlength);
    lemma_table_spelled_further(buf, named, at, data_pos);
    lemma_rdata_read_back(record.rrtype, buf, data_pos, record.rdata, named);
}

/// A draft is right: its table is right for its bytes.
pub open spec fn draft_spelled(draft: Draft) -> bool {
    table_spelled(draft.bytes, draft.offsets)
}

/// The bytes of a draft with more questions begin with the bytes of the
/// draft.
pub proof fn lemma_with_questions_grows(draft: Draft, questions: Seq<Question>)
    requires
        with_questions(draft, questions) is Ok,
    ensures
        with_questions(draft, questions) matches Ok(next) && stands_at(
            next.bytes,
            0,
            draft.bytes,
        ),
    decreases questions.len(),
{
    if questions.len() == 0 {
        assert(draft.bytes.subrange(0, draft.bytes.len() as int) =~= draft.bytes);
    } else {
        lemma_with_questions_grows(draft, questions.drop_last());
        let shorter = with_questions(draft, questions.drop_last())->Ok_0;
        let next = with_questions(draft, questions)->Ok_0;
        assert(next.bytes.subrange(0, draft.bytes.len() as int) =~= shorter.bytes.subrange(
            0,
            draft.bytes.len() as int,
        ));
    }
}

/// The bytes of a draft with more records begin with the bytes of the
/// draft.
pub proof fn lemma_with_records_grows(draft: Draft, records: Seq<ResourceRecord>)
    requires
        with_records(draft, records) is Ok,
    ensures
        with_records(draft, records) matches Ok(next) && stands_at(next.bytes, 0, draft.bytes),
    decreases records.len(),
{
    if records.len() == 0 {
        assert(draft.bytes.subrange(0, draft.bytes.len() as int) =~= draft.bytes);
    } else {
        lemma_with_records_grows(draft, records.drop_last());
        let shorter = with_records(draft, records.drop_last())->Ok_0;
        let next = with_records(draft, records)->Ok_0;
        assert(next.bytes.subrange(0, draft.bytes.len() as int) =~= shorter.bytes.subrange(
            0,
            draft.bytes.len() as int,
        ));
    }
}

/// Where bytes stand at the start of a buffer, a first part of them stands
/// at its start.
pub proof fn lemma_stands_first(buf: Seq<u8>, whole: Seq<u8>, part: Seq<u8>)
    requires
        stands_at(buf, 0, whole),
        stands_at(whole, 0, part),
    ensures
        stands_at(buf, 0, part),
        buf.take(part.len() as int) == part,
        buf.take(whole.len() as int) == whole,
{
    assert(buf.subrange(0, part.len() as int) =~= whole.subrange(0, part.len() as int));
    assert(buf.take(part.len() as int) =~= buf.subrange(0, part.len() as int));
    assert(buf.take(whole.len() as int) =~= buf.subrange(0, whole.len() as int));
}

/// Where the serializer wrote questions with readable names after a draft
/// that is right, the parser reads them, and the draft with them is right.
pub proof fn lemma_questions_read_back(buf: Seq<u8>, draft: Draft, questions: Seq<Question>)
    requires
        draft_spelled(draft),
        forall|i: int| 0 <= i < questions.len() ==> readable_name((#[trigger] questions[i]).qname),
        with_questions(draft, questions) matches Ok(next) && stands_at(buf, 0, next.bytes),
    ensures
        with_questions(draft, questions) matches Ok(next) && draft_spelled(next) && questions_at(
            buf,
            draft.bytes.len() as int,
            questions.len(),
        ) == Ok::<(Seq<Question>, int), DnsError>((questions, next.bytes.len() as int)),
    decreases questions.len(),
{
    let next = with_questions(draft, questions)->Ok_0;
    if questions.len() == 0 {
        assert(questions =~= Seq::<Question>::empty());
    } else {
        let shorter = questions.drop_last();
        let last = questions.last();
        let middle = with_questions(draft, shorter)->Ok_0;
        let pos = middle.bytes.len() as int;
        let wire = question_wire(last, pos, middle.offsets);
        assert(next.bytes == middle.bytes + wire);
        assert(stands_at(next.bytes, 0, middle.bytes)) by {
            assert(next.bytes.subrange(0, pos) =~= middle.bytes);
        }
        lemma_stands_first(buf, next.bytes, middle.bytes);
        lemma_questions_read_back(buf, draft, shorter);
        assert(stands_at(buf, pos, wire)) by {
            assert(buf.subrange(pos, pos + wire.len()) =~= next.bytes.subrange(
                pos,
                pos + wire.len(),
            ));
            assert(next.bytes.subrange(pos, pos + wire.len()) =~= wire);
        }
        lemma_question_read_back(buf, pos, last, middle.offsets);
        assert(shorter.push(last) =~= questions);
    }
}

/// Where the serializer added a readable resource record to a draft that is
/// right, the parser reads the record, and the draft with it is right.
pub proof fn lemma_added_record_read_back(buf: Seq<u8>, draft: Draft, record: ResourceRecord)
    requires
        draft_spelled(draft),
        readable_record(record),
        with_record(draft, record) matches Ok(next) && stands_at(buf, 0, next.bytes),
    ensures
        with_record(draft, record) matches Ok(next) && draft_spelled(next) && record_at(
            buf,
            draft.bytes.len() as int,
        ) == Ok::<(ResourceRecord, int), DnsError>((record, next.bytes.len() as int)),
{
    let next = with_record(draft, record)->Ok_0;
    let pos = draft.bytes.len() as int;
    let wire = record_wire(record, pos, draft.offsets);
    assert(next.bytes == draft.bytes + wire);
    assert(stands_at(next.bytes, 0, draft.bytes)) by {
        assert(next.bytes.subrange(0, pos) =~= draft.bytes);
    }
    lemma_stands_first(buf, next.bytes, draft.bytes);
    assert(stands_at(buf, pos, wire)) by {
        assert(buf.subrange(pos, pos + wire.len()) =~= next.bytes.subrange(pos, pos + wire.len()));
        assert(next.bytes.subrange(pos, pos + wire.len()) =~= wire);
    }
    lemma_record_read_back(buf, pos, record, draft.offsets);
}

/// Where the serializer wrote readable resource records after a draft that
/// is right, the parser reads them, and the draft with them is right.
pub proof fn lemma_records_read_back(buf: Seq<u8>, draft: Draft, records: Seq<ResourceRecord>)
    requires
        draft_spelled(draft),
        forall|i: int| 0 <= i < records.len() ==> readable_record(#[trigger] records[i]),
        with_records(draft, records) matches Ok(next) && stands_at(buf, 0, next.bytes),
    ensures
        with_records(draft, records) matches Ok(next) && draft_spelled(next) && records_at(
            buf,
            draft.bytes.len() as int,
            records.len(),
        ) == Ok::<(Seq<ResourceRecord>, int), DnsError>((records, next.bytes.len() as int)),
    decreases records.len(),
{
    if records.len() == 0 {
        assert(records =~= Seq::<ResourceRecord>::empty());
    } else {
        let shorter = records.drop_last();
        let last = records.last();
        let middle = with_records(draft, shorter)->Ok_0;
        let next = with_record(middle, last)->Ok_0;
        assert(with_records(draft, records) == with_record(middle, last));
        assert(readable_record(last));
        assert(stands_at(next.bytes, 0, middle.bytes)) by {
            assert(next.bytes.subrange(0, middle.bytes.len() as int) =~= middle.bytes);
        }
        lemma_stands_first(buf, next.bytes, middle.bytes);
        lemma_records_read_back(buf, draft, shorter);
        lemma_added_record_read_back(buf, middle, last);
        assert(shorter.push(last) =~= records);
    }
}

// ---------------------------------------------------------------------------
// Messages
// ---------------------------------------------------------------------------

/// A message that the parser gives back as it was written: OPCODE, Z and
/// RCODE fit into their bits, the header counts the entries of each section,
/// and every name and every record is readable.
pub open spec fn readable_message(message: Message) -> bool {
    &&& message.header.opcode < 16
    &&& message.header.z < 8
    &&& message.header.rcode < 16
    &&& message.header.qdcount == message.questions.len()
    &&& message.header.ancount == message.answers.len()
    &&& message.header.nscount == message.authorities.len()
    &&& message.header.arcount == message.additionals.len()
    &&& forall|i: int|
        0 <= i < message.questions.len() ==> readable_name((#[trigger] message.questions[i]).qname)
    &&& forall|i: int|
        0 <= i < message.answers.len() ==> readable_record(#[trigger] message.answers[i])
    &&& forall|i: int|
        0 <= i < message.authorities.len() ==> readable_record(#[trigger] message.authorities[i])
    &&& forall|i: int|
        0 <= i < message.additionals.len() ==> readable_record(#[trigger] message.additionals[i])
}

/// The header is read from the first twelve bytes only.
pub proof fn lemma_header_read_back(buf: Seq<u8>, header: DnsHeader)
    requires
        header.opcode < 16,
        header.z < 8,
        header.rcode < 16,
        stands_at(buf, 0, header_wire(header)),
    ensures
        buf.len() >= DNS_HEADER_SIZE,
        header_at(buf) == header,
{
    let wire = header_wire(header);
    lemma_header_parsed_of_wire(header);
    assert forall|i: int| 0 <= i < 12 implies buf[i] == wire[i] by {
        assert(buf.subrange(0, 12)[i] == wire[i]);
    }
}

/// Parsing what was serialized gives back the message: the bytes that the
/// serializer writes for a readable message, whatever follows them, are
/// parsed to that message.
pub proof fn lemma_parse_of_serialized(message: Message, tail: Seq<u8>)
    requires
        readable_message(message),
        message_wire(message) is Ok,
    ensures
        message_wire(message) matches Ok(bytes) && message_at(bytes + tail) == Ok::<
            Message,
            DnsError,
        >(message),
{
    let bytes = message_wire(message)->Ok_0;
    let buf = bytes + tail;
    let start = Draft { bytes: header_wire(message.header), offsets: Map::empty() };
    let asked = with_questions(start, message.questions)->Ok_0;
    let answered = with_records(asked, message.answers)->Ok_0;
    let referred = with_records(answered, message.authorities)->Ok_0;
    let done = with_records(referred, message.additionals)->Ok_0;
    assert(done.bytes == bytes);
    assert(stands_at(buf, 0, done.bytes)) by {
        assert(buf.subrange(0, done.bytes.len() as int) =~= done.bytes);
    }
    lemma_with_questions_grows(start, message.questions);
    lemma_with_records_grows(asked, message.answers);
    lemma_with_records_grows(answered, message.authorities);
    lemma_with_records_grows(referred, message.additionals);
    lemma_stands_first(buf, done.bytes, referred.bytes);
    lemma_stands_first(buf, referred.bytes, answered.bytes);
    lemma_stands_first(buf, answered.bytes, asked.bytes);
    lemma_stands_first(buf, asked.bytes, start.bytes);
    lemma_header_parsed_of_wire(message.header);
    lemma_header_read_back(buf, message.header);
    assert(draft_spelled(start));
    lemma_questions_read_back(buf, start, message.questions);
    lemma_records_read_back(buf, asked, message.answers);
    lemma_records_read_back(buf, answered, message.authorities);
    lemma_records_read_back(buf, referred, message.additionals);
}

/// Serializing what was parsed gives back the buffer, for every buffer that
/// the serializer wrote for a readable message.
pub proof fn lemma_serialize_of_parsed(message: Message)
    requires
        readable_message(message),
        message_wire(message) is Ok,
    ensures
        message_wire(message) matches Ok(bytes) && (message_at(bytes) matches Ok(parsed)
            && message_wire(parsed) == Ok::<Seq<u8>, DnsError>(bytes)),
{
    lemma_parse_of_serialized(message, Seq::<u8>::empty());
    let bytes = message_wire(message)->Ok_0;
    assert(bytes + Seq::<u8>::empty() =~= bytes);
}

// ---------------------------------------------------------------------------
// What the parser gives is readable
// ---------------------------------------------------------------------------

/// Labels do not decode to a single character.
proof fn lemma_decoded_labels_length(buf: Seq<u8>, at: int, jumps: nat)
    requires
        0 <= at,
    ensures
        decode_labels(buf, at, jumps) matches Ok((name, _)) ==> name.len() != 1,
    decreases jumps, buf.len() - at,
{
    if at >= buf.len() || buf[at] == 0 {
    } else if buf[at] >= 0xC0 {
        if at + 1 < buf.len() && pointer_target(buf, at) < at && jumps > 0 {
            let target = pointer_target(buf, at);
            lemma_decoded_labels_length(buf, target, (jumps - 1) as nat);
            assert(decode_name_within(buf, target, at, (jumps - 1) as nat) == checked_name(
                decode_labels(buf, target, (jumps - 1) as nat),
            ));
        }
    } else if at + buf[at] >= buf.len() {
    } else {
        lemma_decoded_labels_length(buf, at + 1 + buf[at], jumps);
    }
}

/// A name that the parser gives is readable.
pub proof fn lemma_decoded_name_is_readable(buf: Seq<u8>, start: int, limit: int)
    ensures
        decode_name(buf, start, limit) matches Ok((name, _)) ==> readable_name(name),
{
    if 0 <= start < buf.len() && start < limit {
        lemma_decoded_labels_length(buf, start, buf.len());
    }
}

/// A character-string that the parser gives is readable.
pub proof fn lemma_parsed_text_is_readable(buf: Seq<u8>, start: int, limit: int)
    ensures
        character_string_at(buf, start, limit) matches Ok((text, _)) ==> readable_text(text),
{
}

/// Record data that the parser gives is readable under its type.
pub proof fn lemma_parsed_data_is_readable(rrtype: u16, buf: Seq<u8>, start: int, rdlength: u16)
    requires
        0 <= start,
    ensures
        rdata_at(rrtype, buf, start, rdlength) matches Ok(data) ==> readable_data(rrtype, data),
{
    let limit = start + rdlength;
    lemma_decoded_name_is_readable(buf, start, limit);
    lemma_decoded_name_is_readable(buf, start + 2, limit);
    lemma_decoded_name_is_readable(buf, start + 6, limit);
    lemma_parsed_text_is_readable(buf, start, limit);
    if rrtype == DNS_TYPE_SOA || rrtype == DNS_TYPE_MINFO {
        match decode_name(buf, start, limit) {
            Ok((_, middle)) => {
                lemma_decoded_name_is_readable(buf, middle, limit);
            },
            Err(_) => {},
        }
    }
    if rrtype == DNS_TYPE_HINFO {
        match character_string_at(buf, start, limit) {
            Ok((_, middle)) => {
                lemma_parsed_text_is_readable(buf, middle, limit);
            },
            Err(_) => {},
        }
    }
}

/// A resource record that the parser gives is readable.
pub proof fn lemma_parsed_record_is_readable(buf: Seq<u8>, start: int)
    ensures
        record_at(buf, start) matches Ok((record, _)) ==> readable_record(record),
{
    lemma_decoded_name_is_readable(buf, start, buf.len() as int);
    lemma_decode_name_end(buf, start, buf.len() as int);
    match decode_name(buf, start, buf.len() as int) {
        Ok((_, at)) => {
            if at + RECORD_FIXED_SIZE <= buf.len() {
                lemma_parsed_data_is_readable(
                    u16_at(buf, at),
                    buf,
                    at + RECORD_FIXED_SIZE,
                    u16_at(buf, at + 8),
                );
            }
        },
        Err(_) => {},
    }
}

/// The questions that the parser gives are as many as it was asked for, and
/// their names are readable.
pub proof fn lemma_parsed_questions_are_readable(buf: Seq<u8>, start: int, count: nat)
    ensures
        questions_at(buf, start, count) matches Ok((questions, _)) ==> questions.len() == count
            && forall|i: int|
            0 <= i < questions.len() ==> readable_name((#[trigger] questions[i]).qname),
    decreases count,
{
    if count > 0 {
        lemma_parsed_questions_are_readable(buf, start, (count - 1) as nat);
        match questions_at(buf, start, (count - 1) as nat) {
            Ok((_, at)) => {
                lemma_decoded_name_is_readable(buf, at, buf.len() as int);
            },
            Err(_) => {},
        }
    }
}

/// The resource records that the parser gives are as many as it was asked
/// for, and are readable.
pub proof fn lemma_parsed_records_are_readable(buf: Seq<u8>, start: int, count: nat)
    ensures
        records_at(buf, start, count) matches Ok((records, _)) ==> records.len() == count
            && forall|i: int| 0 <= i < records.len() ==> readable_record(#[trigger] records[i]),
    decreases count,
{
    if count > 0 {
        lemma_parsed_records_are_readable(buf, start, (count - 1) as nat);
        match records_at(buf, start, (count - 1) as nat) {
            Ok((_, at)) => {
                lemma_parsed_record_is_readable(buf, at);
            },
            Err(_) => {},
        }
    }
}

/// A message that the parser gives is readable.
pub proof fn lemma_parsed_message_is_readable(buf: Seq<u8>)
    ensures
        message_at(buf) matches Ok(message) ==> readable_message(message),
{
    if buf.len() >= DNS_HEADER_SIZE {
        let header = header_at(buf);
        lemma_parsed_questions_are_readable(buf, DNS_HEADER_SIZE as int, header.qdcount as nat);
        match questions_at(buf, DNS_HEADER_SIZE as int, header.qdcount as nat) {
            Ok((_, answers_start)) => {
                lemma_parsed_records_are_readable(buf, answers_start, header.ancount as nat);
                match records_at(buf, answers_start, header.ancount as nat) {
                    Ok((_, authorities_start)) => {
                        lemma_parsed_records_are_readable(
                            buf,
                            authorities_start,
                            header.nscount as nat,
                        );
                        match records_at(buf, authorities_start, header.nscount as nat) {
                            Ok((_, additionals_start)) => {
                                lemma_parsed_records_are_readable(
                                    buf,
                                    additionals_start,
                                    header.arcount as nat,
                                );
                            },
                            Err(_) => {},
                        }
                    },
                    Err(_) => {},
                }
            },
            Err(_) => {},
        }
    }
}

/// Serializing never changes what was parsed: if a message that the parser
/// gave for any buffer can be serialized, its bytes are parsed to the same
/// message.
pub proof fn lemma_parse_of_serialized_parsed(buf: Seq<u8>)
    requires
        message_at(buf) matches Ok(message) && message_wire(message) is Ok,
    ensures
        message_at(buf) matches Ok(message) && (message_wire(message) matches Ok(bytes)
            && message_at(bytes) == Ok::<Message, DnsError>(message)),
{
    let message = message_at(buf)->Ok_0;
    lemma_parsed_message_is_readable(buf);
    lemma_parse_of_serialized(message, Seq::<u8>::empty());
    assert(message_wire(message)->Ok_0 + Seq::<u8>::empty() =~= message_wire(message)->Ok_0);
}

} // verus!
