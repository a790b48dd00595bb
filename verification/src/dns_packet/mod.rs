//! DNS packet structures and operations.

use crate::classes::DNS_CLASS_IN;
use crate::dns_packet::dns_header::{header_at, header_wire, query_header, DnsHeader};
use crate::dns_packet::dns_question::{
    question_views, question_wire, questions_at, DnsQuestion, Question,
};
use crate::dns_packet::dns_resource_record::{
    offsets_after_record, record_error, record_views, record_wire, records_at, DnsResourceRecord,
    ResourceRecord,
};
use crate::domain_name::{
    decode_name, is_domain_name_valid, name_wire, normalize_domain_name, normalized,
    offsets_after_name, parse_domain_name, parsed_text, serialize_domain_name_at, valid_name,
};
use crate::error::DnsError;
use crate::name_offsets::NameOffsets;
use crate::DNS_HEADER_SIZE;
use vstd::prelude::*;

pub mod dns_header;
pub mod dns_question;
pub mod dns_resource_record;

verus! {

/// DNS packet.
#[derive(Debug, PartialEq, Eq)]
pub struct DnsPacket {
    /// The header of the packet.
    pub header: DnsHeader,
    /// The question section.
    pub question: Vec<DnsQuestion>,
    /// The answer section.
    pub answer: Vec<DnsResourceRecord>,
    /// The authority section.
    pub authority: Vec<DnsResourceRecord>,
    /// The additional section.
    pub additional: Vec<DnsResourceRecord>,
}

/// The mathematical value of a DNS message.
pub struct Message {
    pub header: DnsHeader,
    pub questions: Seq<Question>,
    pub answers: Seq<ResourceRecord>,
    pub authorities: Seq<ResourceRecord>,
    pub additionals: Seq<ResourceRecord>,
}

impl View for DnsPacket {
    type V = Message;

    open spec fn view(&self) -> Message {
        Message {
            header: self.header,
            questions: question_views(self.question@),
            answers: record_views(self.answer@),
            authorities: record_views(self.authority@),
            additionals: record_views(self.additional@),
        }
    }
}

// ---------------------------------------------------------------------------
// Parsing
// ---------------------------------------------------------------------------

/// The message that a buffer holds: the header, then as many questions,
/// answers, authority records and additional records as the header counts,
/// one after the other. What fails first decides the error.
pub open spec fn message_at(buf: Seq<u8>) -> Result<Message, DnsError> {
    if buf.len() < DNS_HEADER_SIZE {
        Err(DnsError::TooShort)
    } else {
        let header = header_at(buf);
        match questions_at(buf, DNS_HEADER_SIZE as int, header.qdcount as nat) {
            Err(e) => Err(e),
            Ok((questions, answers_start)) => match records_at(
                buf,
                answers_start,
                header.ancount as nat,
            ) {
                Err(e) => Err(e),
                Ok((answers, authorities_start)) => match records_at(
                    buf,
                    authorities_start,
                    header.nscount as nat,
                ) {
                    Err(e) => Err(e),
                    Ok((authorities, additionals_start)) => match records_at(
                        buf,
                        additionals_start,
                        header.arcount as nat,
                    ) {
                        Err(e) => Err(e),
                        Ok((additionals, _)) => Ok(
                            Message { header, questions, answers, authorities, additionals },
                        ),
                    },
                },
            },
        }
    }
}

/// The view of what a parse of a packet returned.
pub open spec fn parsed_packet(r: Result<DnsPacket, DnsError>) -> Result<Message, DnsError> {
    match r {
        Ok(packet) => Ok(packet@),
        Err(e) => Err(e),
    }
}

// ---------------------------------------------------------------------------
// Serializing
// ---------------------------------------------------------------------------

/// A message while it is written: the bytes so far, and the table of the
/// names in them.
pub struct Draft {
    pub bytes: Seq<u8>,
    pub offsets: Map<Seq<char>, u16>,
}

/// The draft with one more question, whose name must be valid.
pub open spec fn with_question(draft: Draft, question: Question) -> Result<Draft, DnsError> {
    if !valid_name(question.qname) {
        Err(DnsError::InvalidDomainName)
    } else {
        Ok(
            Draft {
                bytes: draft.bytes + question_wire(
                    question,
                    draft.bytes.len() as int,
                    draft.offsets,
                ),
                offsets: offsets_after_name(
                    question.qname,
                    draft.bytes.len() as int,
                    draft.offsets,
                ),
            },
        )
    }
}

/// The draft with the questions added in order.
pub open spec fn with_questions(draft: Draft, questions: Seq<Question>) -> Result<Draft, DnsError>
    decreases questions.len(),
{
    if questions.len() == 0 {
        Ok(draft)
    } else {
        match with_questions(draft, questions.drop_last()) {
            Err(e) => Err(e),
            Ok(longer) => with_question(longer, questions.last()),
        }
    }
}

/// The draft with one more resource record, which must be fit to be
/// serialized where the draft ends.
pub open spec fn with_record(draft: Draft, record: ResourceRecord) -> Result<Draft, DnsError> {
    match record_error(record, draft.bytes.len() as int, draft.offsets) {
        Some(e) => Err(e),
        None => Ok(
            Draft {
                bytes: draft.bytes + record_wire(record, draft.bytes.len() as int, draft.offsets),
                offsets: offsets_after_record(record, draft.bytes.len() as int, draft.offsets),
            },
        ),
    }
}

/// The draft with the resource records added in order.
pub open spec fn with_records(draft: Draft, records: Seq<ResourceRecord>) -> Result<
    Draft,
    DnsError,
>
    decreases records.len(),
{
    if records.len() == 0 {
        Ok(draft)
    } else {
        match with_records(draft, records.drop_last()) {
            Err(e) => Err(e),
            Ok(longer) => with_record(longer, records.last()),
        }
    }
}

/// The bytes of a message: the header, then the questions, the answers, the
/// authority records and the additional records in order, all written
/// against one table of names that starts empty. What fails first decides
/// the error.
pub open spec fn message_wire(message: Message) -> Result<Seq<u8>, DnsError> {
    let start = Draft { bytes: header_wire(message.header), offsets: Map::empty() };
    match with_questions(start, message.questions) {
        Err(e) => Err(e),
        Ok(asked) => match with_records(asked, message.answers) {
            Err(e) => Err(e),
            Ok(answered) => match with_records(answered, message.authorities) {
                Err(e) => Err(e),
                Ok(referred) => match with_records(referred, message.additionals) {
                    Err(e) => Err(e),
                    Ok(done) => Ok(done.bytes),
                },
            },
        }
    }
}

/// The view of what a serialization returned.
pub open spec fn serialized(r: Result<Vec<u8>, DnsError>) -> Result<Seq<u8>, DnsError> {
    match r {
        Ok(bytes) => Ok(bytes@),
        Err(e) => Err(e),
    }
}

/// Once the first `failed` questions cannot be added, the whole list
/// cannot, and the error is the same.
pub proof fn lemma_with_questions_fail(draft: Draft, questions: Seq<Question>, failed: int)
    requires
        0 <= failed <= questions.len(),
        with_questions(draft, questions.take(failed)) is Err,
    ensures
        with_questions(draft, questions) == with_questions(draft, questions.take(failed)),
    decreases questions.len() - failed,
{
    if failed < questions.len() {
        assert(questions.take(failed + 1).drop_last() =~= questions.take(failed));
        lemma_with_questions_fail(draft, questions, failed + 1);
    } else {
        assert(questions.take(failed) =~= questions);
    }
}

/// Once the first `failed` records cannot be added, the whole list cannot,
/// and the error is the same.
pub proof fn lemma_with_records_fail(draft: Draft, records: Seq<ResourceRecord>, failed: int)
    requires
        0 <= failed <= records.len(),
        with_records(draft, records.take(failed)) is Err,
    ensures
        with_records(draft, records) == with_records(draft, records.take(failed)),
    decreases records.len() - failed,
{
    if failed < records.len() {
        assert(records.take(failed + 1).drop_last() =~= records.take(failed));
        lemma_with_records_fail(draft, records, failed + 1);
    } else {
        assert(records.take(failed) =~= records);
    }
}

fn append_question(
    question: &DnsQuestion,
    buf: &mut Vec<u8>,
    domain_name_offsets: &mut NameOffsets,
) -> (r: Result<(), DnsError>)
    ensures
        match with_question(
            Draft { bytes: old(buf)@, offsets: old(domain_name_offsets)@ },
            question@,
        ) {
            Ok(draft) => {
                &&& r == Ok::<(), DnsError>(())
                &&& final(buf)@ == draft.bytes
                &&& final(domain_name_offsets)@ == draft.offsets
            },
            Err(e) => r == Err::<(), DnsError>(e),
        },
{
    let curr_index = buf.len();
    let (mut question_buf, _) = question.serialize(curr_index, domain_name_offsets)?;
    buf.append(&mut question_buf);
    Ok(())
}

fn append_record(
    record: &DnsResourceRecord,
    buf: &mut Vec<u8>,
    domain_name_offsets: &mut NameOffsets,
) -> (r: Result<(), DnsError>)
    ensures
        match with_record(
            Draft { bytes: old(buf)@, offsets: old(domain_name_offsets)@ },
            record@,
        ) {
            Ok(draft) => {
                &&& r == Ok::<(), DnsError>(())
                &&& final(buf)@ == draft.bytes
                &&& final(domain_name_offsets)@ == draft.offsets
            },
            Err(e) => r == Err::<(), DnsError>(e),
        },
{
    let curr_index = buf.len();
    let (mut record_buf, _) = record.serialize(curr_index, domain_name_offsets)?;
    buf.append(&mut record_buf);
    Ok(())
}

fn serialize_questions(
    questions: &Vec<DnsQuestion>,
    buf: &mut Vec<u8>,
    domain_name_offsets: &mut NameOffsets,
) -> (r: Result<(), DnsError>)
    ensures
        match with_questions(
            Draft { bytes: old(buf)@, offsets: old(domain_name_offsets)@ },
            question_views(questions@),
        ) {
            Ok(draft) => {
                &&& r == Ok::<(), DnsError>(())
                &&& final(buf)@ == draft.bytes
                &&& final(domain_name_offsets)@ == draft.offsets
            },
            Err(e) => r == Err::<(), DnsError>(e),
        },
{
    let ghost start = Draft { bytes: old(buf)@, offsets: old(domain_name_offsets)@ };
    let ghost all = question_views(questions@);
    let mut i: usize = 0;
    assert(all.take(0) =~= Seq::<Question>::empty());
    while i < questions.len()
        invariant
            i <= questions@.len(),
            all == question_views(questions@),
            start == (Draft { bytes: old(buf)@, offsets: old(domain_name_offsets)@ }),
            with_questions(start, all.take(i as int)) == Ok::<Draft, DnsError>(
                Draft { bytes: buf@, offsets: domain_name_offsets@ },
            ),
        decreases questions@.len() - i,
    {
        proof {
            assert(all.take(i + 1).drop_last() =~= all.take(i as int));
            assert(all.take(i + 1).last() == questions@[i as int]@);
        }
        match append_question(&questions[i], buf, domain_name_offsets) {
            Ok(_) => {},
            Err(e) => {
                proof {
                    lemma_with_questions_fail(start, all, i + 1);
                }
                return Err(e);
            },
        }
        i += 1;
    }
    assert(all.take(i as int) =~= all);
    Ok(())
}

fn serialize_records(
    records: &Vec<DnsResourceRecord>,
    buf: &mut Vec<u8>,
    domain_name_offsets: &mut NameOffsets,
) -> (r: Result<(), DnsError>)
    ensures
        match with_records(
            Draft { bytes: old(buf)@, offsets: old(domain_name_offsets)@ },
            record_views(records@),
        ) {
            Ok(draft) => {
                &&& r == Ok::<(), DnsError>(())
                &&& final(buf)@ == draft.bytes
                &&& final(domain_name_offsets)@ == draft.offsets
            },
            Err(e) => r == Err::<(), DnsError>(e),
        },
{
    let ghost start = Draft { bytes: old(buf)@, offsets: old(domain_name_offsets)@ };
    let ghost all = record_views(records@);
    let mut i: usize = 0;
    assert(all.take(0) =~= Seq::<ResourceRecord>::empty());
    while i < records.len()
        invariant
            i <= records@.len(),
            all == record_views(records@),
            start == (Draft { bytes: old(buf)@, offsets: old(domain_name_offsets)@ }),
            with_records(start, all.take(i as int)) == Ok::<Draft, DnsError>(
                Draft { bytes: buf@, offsets: domain_name_offsets@ },
            ),
        decreases records@.len() - i,
    {
        proof {
            assert(all.take(i + 1).drop_last() =~= all.take(i as int));
            assert(all.take(i + 1).last() == records@[i as int]@);
        }
        match append_record(&records[i], buf, domain_name_offsets) {
            Ok(_) => {},
            Err(e) => {
                proof {
                    lemma_with_records_fail(start, all, i + 1);
                }
                return Err(e);
            },
        }
        i += 1;
    }
    assert(all.take(i as int) =~= all);
    Ok(())
}

/// The message of a fresh query: one question for the records of type
/// `rrtype` and class IN of `name`, under the header of a query that counts
/// this question.
pub open spec fn query_message(id: u16, name: Seq<char>, rrtype: u16) -> Message {
    Message {
        header: DnsHeader { qdcount: 1, ..query_header(id) },
        questions: seq![Question { qname: name, qtype: rrtype, qclass: DNS_CLASS_IN }],
        answers: Seq::empty(),
        authorities: Seq::empty(),
        additionals: Seq::empty(),
    }
}

impl DnsPacket {
    /// A fresh query with the given ID for the records of type
    /// `resource_record_type` of `domain_name`. The name is normalized and
    /// must then be valid.
    pub fn query(id: u16, domain_name: &String, resource_record_type: u16) -> (r: Result<
        DnsPacket,
        DnsError,
    >)
        ensures
            valid_name(normalized(domain_name@)) ==> parsed_packet(r) == Ok::<Message, DnsError>(
                query_message(id, normalized(domain_name@), resource_record_type),
            ),
            !valid_name(normalized(domain_name@)) ==> r == Err::<DnsPacket, DnsError>(
                DnsError::InvalidDomainName,
            ),
    {
        let mut header = DnsHeader::query(id);
        let domain_name = normalize_domain_name(domain_name);
        if !is_domain_name_valid(&domain_name) {
            return Err(DnsError::InvalidDomainName);
        }
        let mut question = Vec::new();
        question.push(
            DnsQuestion { qname: domain_name, qtype: resource_record_type, qclass: DNS_CLASS_IN },
        );
        header.qdcount = 1;
        let dns_packet = DnsPacket {
            header,
            question,
            answer: Vec::new(),
            authority: Vec::new(),
            additional: Vec::new(),
        };
        proof {
            let message = query_message(id, domain_name@, resource_record_type);
            assert(dns_packet@.questions =~= message.questions);
            assert(dns_packet@.answers =~= message.answers);
            assert(dns_packet@.authorities =~= message.authorities);
            assert(dns_packet@.additionals =~= message.additionals);
        }
        Ok(dns_packet)
    }

    /// A fresh query with a random ID for the records of type
    /// `resource_record_type` of `domain_name`. The name is normalized and
    /// must then be valid.
    pub fn new(domain_name: &String, resource_record_type: u16) -> (r: Result<DnsPacket, DnsError>)
        ensures
            valid_name(normalized(domain_name@)) ==> (r matches Ok(packet) && packet@
                == query_message(
                packet.header.id,
                normalized(domain_name@),
                resource_record_type,
            )),
            !valid_name(normalized(domain_name@)) ==> r == Err::<DnsPacket, DnsError>(
                DnsError::InvalidDomainName,
            ),
    {
        let header = DnsHeader::new()?;
        DnsPacket::query(header.id, domain_name, resource_record_type)
    }

    /// Parses a raw DNS packet.
    pub fn parse_dns_packet(dns_packet_buf: &Vec<u8>) -> (r: Result<DnsPacket, DnsError>)
        ensures
            parsed_packet(r) == message_at(dns_packet_buf@),
    {
        let header = DnsHeader::parse_dns_header(dns_packet_buf)?;
        let start = DNS_HEADER_SIZE;
        let (questions, start) = DnsQuestion::parse_questions(dns_packet_buf, &header, start)?;
        let (answers, start) = DnsResourceRecord::parse_resource_records(
            dns_packet_buf,
            start,
            header.ancount,
        )?;
        let (authorities, start) = DnsResourceRecord::parse_resource_records(
            dns_packet_buf,
            start,
            header.nscount,
        )?;
        let (additionals, _) = DnsResourceRecord::parse_resource_records(
            dns_packet_buf,
            start,
            header.arcount,
        )?;
        Ok(
            DnsPacket {
                header,
                question: questions,
                answer: answers,
                authority: authorities,
                additional: additionals,
            },
        )
    }

    /// Serializes the packet into a buffer that is ready for the network,
    /// with message compression.
    pub fn serialize(&self) -> (r: Result<Vec<u8>, DnsError>)
        ensures
            serialized(r) == message_wire(self@),
    {
        let mut buf = self.header.serialize();
        let mut domain_name_offsets = NameOffsets::new();
        serialize_questions(&self.question, &mut buf, &mut domain_name_offsets)?;
        serialize_records(&self.answer, &mut buf, &mut domain_name_offsets)?;
        serialize_records(&self.authority, &mut buf, &mut domain_name_offsets)?;
        serialize_records(&self.additional, &mut buf, &mut domain_name_offsets)?;
        Ok(buf)
    }

    /// Parses the domain name at `start` of a raw DNS packet, following
    /// compression pointers, and returns it with the position after it.
    pub fn parse_domain_name(buf: &Vec<u8>, start: usize, limit: usize) -> (r: Result<
        (String, usize),
        DnsError,
    >)
        ensures
            parsed_text(r) == decode_name(buf@, start as int, limit as int),
            r matches Ok((_, end)) ==> start < end <= buf.len(),
    {
        parse_domain_name(buf, start, limit)
    }

    /// Returns true if `domain_name` is a valid DNS domain name.
    pub fn is_domain_name_valid(domain_name: &String) -> (valid: bool)
        ensures
            valid == valid_name(domain_name@),
    {
        is_domain_name_valid(domain_name)
    }

    /// Appends the wire form of `domain_name` to `buf`, whose first byte
    /// stands at offset `start` of the message, using and extending the table
    /// of the names written so far.
    pub fn serialize_domain_name(
        domain_name: &String,
        buf: &mut Vec<u8>,
        start: usize,
        domain_name_offsets: &mut NameOffsets,
    ) -> (r: Result<(), DnsError>)
        ensures
            valid_name(domain_name@) ==> {
                &&& r == Ok::<(), DnsError>(())
                &&& final(buf)@ == old(buf)@ + name_wire(
                    domain_name@,
                    start + old(buf)@.len(),
                    old(domain_name_offsets)@,
                )
                &&& final(domain_name_offsets)@ == offsets_after_name(
                    domain_name@,
                    start + old(buf)@.len(),
                    old(domain_name_offsets)@,
                )
            },
            !valid_name(domain_name@) ==> {
                &&& r == Err::<(), DnsError>(DnsError::InvalidDomainName)
                &&& final(buf)@ == old(buf)@
                &&& final(domain_name_offsets)@ == old(domain_name_offsets)@
            },
    {
        serialize_domain_name_at(domain_name, buf, start, domain_name_offsets)
    }
}

} // verus!
