use rusty_dns::classes::{DNS_CLASS_CH, DNS_CLASS_IN};
use rusty_dns::dns_packet::dns_header::DnsHeader;
use rusty_dns::dns_packet::dns_question::DnsQuestion;
use rusty_dns::error::DnsError;
use rusty_dns::name_offsets::NameOffsets;
use rusty_dns::query_examples::{BASIC_QUERY, NAME_COMPRESSION_QUERY};
use rusty_dns::types::{DNS_TYPE_A, DNS_TYPE_NS};
use rusty_dns::DNS_HEADER_SIZE;

#[test]
fn dns_packet_test_parse_questions() -> Result<(), DnsError> {
    let correct_domain_name = String::from("www.google.com.");

    let query = &Vec::from(BASIC_QUERY);

    let header = DnsHeader::parse_dns_header(query)?;
    let (questions, end) = DnsQuestion::parse_questions(query, &header, DNS_HEADER_SIZE)?;

    assert_eq!(questions.len(), 1);
    assert_eq!(end, 32);

    let question = &questions[0];
    assert_eq!(question.qname, correct_domain_name);
    assert_eq!(question.qtype, DNS_TYPE_A);
    assert_eq!(question.qclass, DNS_CLASS_IN);

    let query = &Vec::from(NAME_COMPRESSION_QUERY);

    let header = DnsHeader::parse_dns_header(query)?;
    let (questions, end) = DnsQuestion::parse_questions(query, &header, DNS_HEADER_SIZE)?;

    assert_eq!(questions.len(), 2);
    assert_eq!(end, query.len());

    let question = &questions[0];
    assert_eq!(question.qname, correct_domain_name);
    assert_eq!(question.qtype, DNS_TYPE_A);
    assert_eq!(question.qclass, DNS_CLASS_IN);

    let correct_domain_name = String::from("pointer.www.google.com.");

    let question = &questions[1];
    assert_eq!(question.qname, correct_domain_name);
    assert_eq!(question.qtype, DNS_TYPE_NS);
    assert_eq!(question.qclass, DNS_CLASS_CH);

    Ok(())
}

#[test]
fn dns_question_test_parse_questions() -> Result<(), DnsError> {
    let correct_domain_name = String::from("www.google.com.");

    let query = &Vec::from(BASIC_QUERY);

    let header = DnsHeader::parse_dns_header(query)?;
    let (questions, end) = DnsQuestion::parse_questions(query, &header, DNS_HEADER_SIZE)?;

    assert_eq!(questions.len(), 1);
    assert_eq!(end, 32);

    let question = &questions[0];
    assert_eq!(question.qname, correct_domain_name);
    assert_eq!(question.qtype, DNS_TYPE_A);
    assert_eq!(question.qclass, DNS_CLASS_IN);

    let query = &Vec::from(NAME_COMPRESSION_QUERY);

    let header = DnsHeader::parse_dns_header(query)?;
    let (questions, end) = DnsQuestion::parse_questions(query, &header, DNS_HEADER_SIZE)?;

    assert_eq!(questions.len(), 2);
    assert_eq!(end, query.len());

    let question = &questions[0];
    assert_eq!(question.qname, correct_domain_name);
    assert_eq!(question.qtype, DNS_TYPE_A);
    assert_eq!(question.qclass, DNS_CLASS_IN);

    let correct_domain_name = String::from("pointer.www.google.com.");

    let question = &questions[1];
    assert_eq!(question.qname, correct_domain_name);
    assert_eq!(question.qtype, DNS_TYPE_NS);
    assert_eq!(question.qclass, DNS_CLASS_CH);

    Ok(())
}

#[test]
fn parse_one_question() {
    let query = Vec::from(BASIC_QUERY);
    let (question, end) = DnsQuestion::parse_dns_question(&query, DNS_HEADER_SIZE).unwrap();
    assert_eq!(
        question,
        DnsQuestion { qname: String::from("www.google.com."), qtype: 1, qclass: 1 }
    );
    assert_eq!(end, 32);
}

#[test]
fn parse_question_too_short() {
    let query = Vec::from(BASIC_QUERY);
    for cut in 28..32 {
        let short = query[..cut].to_vec();
        assert_eq!(
            DnsQuestion::parse_dns_question(&short, DNS_HEADER_SIZE),
            Err(DnsError::TooShort)
        );
    }
    let short = query[..12].to_vec();
    assert_eq!(DnsQuestion::parse_dns_question(&short, DNS_HEADER_SIZE), Err(DnsError::TooShort));
}

#[test]
fn parse_questions_counts_by_header() {
    let query = Vec::from(NAME_COMPRESSION_QUERY);
    let mut header = DnsHeader::parse_dns_header(&query).unwrap();
    header.qdcount = 0;
    let (questions, end) = DnsQuestion::parse_questions(&query, &header, DNS_HEADER_SIZE).unwrap();
    assert!(questions.is_empty());
    assert_eq!(end, DNS_HEADER_SIZE);
    header.qdcount = 1;
    let (questions, end) = DnsQuestion::parse_questions(&query, &header, DNS_HEADER_SIZE).unwrap();
    assert_eq!(questions.len(), 1);
    assert_eq!(end, 32);
    header.qdcount = 3;
    assert_eq!(
        DnsQuestion::parse_questions(&query, &header, DNS_HEADER_SIZE),
        Err(DnsError::TooShort)
    );
}

#[test]
fn parse_questions_passes_name_errors_on() {
    let mut query = Vec::from(BASIC_QUERY);
    query[13] = b' ';
    let header = DnsHeader::parse_dns_header(&query).unwrap();
    assert_eq!(
        DnsQuestion::parse_questions(&query, &header, DNS_HEADER_SIZE),
        Err(DnsError::InvalidDomainName)
    );
}

#[test]
fn serialize_question() {
    let question = DnsQuestion { qname: String::from("www.google.com."), qtype: 1, qclass: 1 };
    let mut offsets = NameOffsets::new();
    let (bytes, end) = question.serialize(DNS_HEADER_SIZE, &mut offsets).unwrap();
    assert_eq!(bytes, BASIC_QUERY[12..].to_vec());
    assert_eq!(end, 32);
    assert_eq!(offsets.get(&String::from("www.google.com.")), Some(12));

    let question =
        DnsQuestion { qname: String::from("pointer.www.google.com."), qtype: 2, qclass: 3 };
    let (bytes, end) = question.serialize(end, &mut offsets).unwrap();
    assert_eq!(bytes, NAME_COMPRESSION_QUERY[32..].to_vec());
    assert_eq!(end, 46);
}

#[test]
fn serialize_question_with_large_fields() {
    let question = DnsQuestion { qname: String::from("."), qtype: 0xABCD, qclass: 0x00FF };
    let mut offsets = NameOffsets::new();
    let (bytes, end) = question.serialize(7, &mut offsets).unwrap();
    assert_eq!(bytes, vec![0, 0xAB, 0xCD, 0x00, 0xFF]);
    assert_eq!(end, 12);
}

#[test]
fn serialize_question_rejects_invalid_name() {
    let question = DnsQuestion { qname: String::from("no dot"), qtype: 1, qclass: 1 };
    let mut offsets = NameOffsets::new();
    assert_eq!(question.serialize(12, &mut offsets), Err(DnsError::InvalidDomainName));
    assert_eq!(offsets.get(&String::from("no dot")), None);
}

#[test]
fn serialize_question_end_stops_at_largest_offset() {
    let question = DnsQuestion { qname: String::from("a."), qtype: 1, qclass: 1 };
    let mut offsets = NameOffsets::new();
    let (bytes, end) = question.serialize(usize::MAX - 3, &mut offsets).unwrap();
    assert_eq!(bytes.len(), 7);
    assert_eq!(end, usize::MAX);
    let (_, end) = question.serialize(usize::MAX - 7, &mut offsets).unwrap();
    assert_eq!(end, usize::MAX);
    let (_, end) = question.serialize(usize::MAX - 8, &mut offsets).unwrap();
    assert_eq!(end, usize::MAX - 1);
}
