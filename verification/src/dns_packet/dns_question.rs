use crate::dns_packet::dns_header::DnsHeader;
use crate::domain_name::{
    decode_name, name_wire, offsets_after_name, parse_domain_name, serialize_domain_name_at,
    valid_name,
};
use crate::error::DnsError;
use crate::name_offsets::NameOffsets;
use crate::wire::{push_u16, read_u16, u16_at, u16_wire};
use vstd::prelude::*;

verus! {

/// An entry of the question section of a DNS packet.
#[derive(Debug, PartialEq, Eq)]
pub struct DnsQuestion {
    /// The domain name that is asked about.
    pub qname: String,
    /// The type of the records that are asked for.
    pub qtype: u16,
    /// The class of the records that are asked for.
    pub qclass: u16,
}

/// The mathematical value of a question.
pub struct Question {
    pub qname: Seq<char>,
    pub qtype: u16,
    pub qclass: u16,
}

impl View for DnsQuestion {
    type V = Question;

    open spec fn view(&self) -> Question {
        Question { qname: self.qname@, qtype: self.qtype, qclass: self.qclass }
    }
}

/// The values of a list of questions.
pub open spec fn question_views(questions: Seq<DnsQuestion>) -> Seq<Question> {
    questions.map_values(|q: DnsQuestion| q@)
}

/// The question that stands at `start`: a name, then type and class, 16
/// bits each. With it comes the position after it.
pub open spec fn question_at(buf: Seq<u8>, start: int) -> Result<(Question, int), DnsError> {
    match decode_name(buf, start, buf.len() as int) {
        Err(e) => Err(e),
        Ok((qname, at)) => if at + 4 > buf.len() {
            Err(DnsError::TooShort)
        } else {
            Ok((Question { qname, qtype: u16_at(buf, at), qclass: u16_at(buf, at + 2) }, at + 4))
        },
    }
}

/// The `count` questions that stand one after the other from `start` on,
/// and the position after them.
pub open spec fn questions_at(buf: Seq<u8>, start: int, count: nat) -> Result<
    (Seq<Question>, int),
    DnsError,
>
    decreases count,
{
    if count == 0 {
        Ok((Seq::<Question>::empty(), start))
    } else {
        match questions_at(buf, start, (count - 1) as nat) {
            Err(e) => Err(e),
            Ok((questions, at)) => match question_at(buf, at) {
                Err(e) => Err(e),
                Ok((question, end)) => Ok((questions.push(question), end)),
            },
        }
    }
}

/// The bytes of a question written at `pos`.
pub open spec fn question_wire(question: Question, pos: int, table: Map<Seq<char>, u16>) -> Seq<
    u8,
> {
    name_wire(question.qname, pos, table) + u16_wire(question.qtype) + u16_wire(question.qclass)
}

/// `start + len`, or the largest offset where the sum is beyond it.
pub open spec fn offset_after(start: usize, len: nat) -> usize {
    if start + len > usize::MAX {
        usize::MAX
    } else {
        (start + len) as usize
    }
}

/// The view of what a parse of one question returned.
pub open spec fn parsed_question(r: Result<(DnsQuestion, usize), DnsError>) -> Result<
    (Question, int),
    DnsError,
> {
    match r {
        Ok((question, end)) => Ok((question@, end as int)),
        Err(e) => Err(e),
    }
}

/// The view of what a parse of the question section returned.
pub open spec fn parsed_questions(r: Result<(Vec<DnsQuestion>, usize), DnsError>) -> Result<
    (Seq<Question>, int),
    DnsError,
> {
    match r {
        Ok((questions, end)) => Ok((question_views(questions@), end as int)),
        Err(e) => Err(e),
    }
}

impl DnsQuestion {
    /// Parses the question at `start` of a raw DNS packet.
    pub fn parse_dns_question(dns_packet_buf: &Vec<u8>, start: usize) -> (r: Result<
        (DnsQuestion, usize),
        DnsError,
    >)
        ensures
            parsed_question(r) == question_at(dns_packet_buf@, start as int),
            r matches Ok((_, end)) ==> start < end <= dns_packet_buf.len(),
    {
        let (qname, end) = parse_domain_name(dns_packet_buf, start, dns_packet_buf.len())?;
        if dns_packet_buf.len() - end < 4 {
            return Err(DnsError::TooShort);
        }
        let qtype = read_u16(dns_packet_buf, end);
        let qclass = read_u16(dns_packet_buf, end + 2);
        Ok((DnsQuestion { qname, qtype, qclass }, end + 4))
    }

    /// Parses the question section of a raw DNS packet: as many questions
    /// from `start` on as the header counts.
    pub fn parse_questions(dns_packet_buf: &Vec<u8>, header: &DnsHeader, start: usize) -> (r:
        Result<(Vec<DnsQuestion>, usize), DnsError>)
        ensures
            parsed_questions(r) == questions_at(
                dns_packet_buf@,
                start as int,
                header.qdcount as nat,
            ),
    {
        let mut questions: Vec<DnsQuestion> = Vec::new();
        let mut at: usize = start;
        let mut i: u16 = 0;
        assert(question_views(questions@) =~= Seq::<Question>::empty());
        while i < header.qdcount
            invariant
                i <= header.qdcount,
                questions_at(dns_packet_buf@, start as int, i as nat) == Ok::<
                    (Seq<Question>, int),
                    DnsError,
                >((question_views(questions@), at as int)),
            decreases header.qdcount - i,
        {
            let ghost before = question_views(questions@);
            match DnsQuestion::parse_dns_question(dns_packet_buf, at) {
                Ok((question, end)) => {
                    at = end;
                    questions.push(question);
                    assert(question_views(questions@) =~= before.push(question@));
                },
                Err(e) => {
                    proof {
                        lemma_questions_fail(
                            dns_packet_buf@,
                            start as int,
                            (i + 1) as nat,
                            header.qdcount as nat,
                        );
                    }
                    return Err(e);
                },
            }
            i += 1;
        }
        Ok((questions, at))
    }

    /// Serializes the question as it stands at offset `start` of a message,
    /// using and extending the table of the names written so far. Returns the
    /// bytes and the offset after them.
    pub fn serialize(&self, start: usize, domain_name_offsets: &mut NameOffsets) -> (r: Result<
        (Vec<u8>, usize),
        DnsError,
    >)
        ensures
            valid_name(self.qname@) ==> {
                &&& r matches Ok((bytes, end))
                &&& bytes@ == question_wire(self@, start as int, old(domain_name_offsets)@)
                &&& end == offset_after(start, bytes@.len())
                &&& final(domain_name_offsets)@ == offsets_after_name(
                    self.qname@,
                    start as int,
                    old(domain_name_offsets)@,
                )
            },
            !valid_name(self.qname@) ==> {
                &&& r == Err::<(Vec<u8>, usize), DnsError>(DnsError::InvalidDomainName)
                &&& final(domain_name_offsets)@ == old(domain_name_offsets)@
            },
    {
        let mut buf = Vec::new();
        serialize_domain_name_at(&self.qname, &mut buf, start, domain_name_offsets)?;
        push_u16(&mut buf, self.qtype);
        push_u16(&mut buf, self.qclass);
        let end = start.saturating_add(buf.len());
        Ok((buf, end))
    }
}

/// Once the first `failed` questions cannot be parsed, no larger number of
/// them can, and the error is the same.
pub proof fn lemma_questions_fail(buf: Seq<u8>, start: int, failed: nat, count: nat)
    requires
        questions_at(buf, start, failed) is Err,
        failed <= count,
    ensures
        questions_at(buf, start, count) == questions_at(buf, start, failed),
    decreases count,
{
    if failed < count {
        lemma_questions_fail(buf, start, failed, (count - 1) as nat);
    }
}

} // verus!
