use rusty_dns::address::Ipv4Address;
use rusty_dns::classes::DNS_CLASS_IN;
use rusty_dns::dns_packet::dns_header::DnsHeader;
use rusty_dns::dns_packet::dns_question::DnsQuestion;
use rusty_dns::dns_packet::dns_resource_record::{DnsResourceRecord, DnsResourceRecordData};
use rusty_dns::dns_packet::DnsPacket;
use rusty_dns::error::DnsError;
use rusty_dns::name_offsets::NameOffsets;
use rusty_dns::query_examples::{BASIC_QUERY, BASIC_QUERY_RESPONSE, NAME_COMPRESSION_QUERY};
use rusty_dns::resolver::{address_of_response, ResolveError};
use rusty_dns::types::{DNS_TYPE_A, DNS_TYPE_CNAME, DNS_TYPE_MX, DNS_TYPE_NS};
use rusty_dns::{DNS_HEADER_SIZE, DNS_PORT};

#[test]
fn dns_packet_test_parse_domain_name() -> Result<(), DnsError> {
    let query = &Vec::from(BASIC_QUERY);
    let correct_domain_name = String::from("www.google.com.");

    let (domain_name, end) = DnsPacket::parse_domain_name(query, DNS_HEADER_SIZE, query.len())?;

    assert_eq!(domain_name, correct_domain_name);
    assert_eq!(end, 28);

    let correct_domain_name = String::from("pointer.www.google.com.");
    let query = &Vec::from(NAME_COMPRESSION_QUERY);

    let (domain_name, end) = DnsPacket::parse_domain_name(query, 32, query.len())?;

    assert_eq!(domain_name, correct_domain_name);
    assert_eq!(end, 42);

    Ok(())
}

#[test]
fn dns_packet_test_serialize() -> Result<(), DnsError> {
    let query = Vec::from(NAME_COMPRESSION_QUERY);

    let dns_packet = DnsPacket::parse_dns_packet(&query)?;

    let res = dns_packet.serialize()?;

    assert_eq!(query, res, "\nquery: {:02X?}\nres:   {:02X?}", query, res);

    Ok(())
}

#[test]
fn mod_test_serialize() -> Result<(), DnsError> {
    let query = Vec::from(NAME_COMPRESSION_QUERY);

    let dns_packet = DnsPacket::parse_dns_packet(&query)?;

    let res = dns_packet.serialize()?;

    assert_eq!(query, res, "\nquery: {:02X?}\nres:   {:02X?}", query, res);

    Ok(())
}

#[test]
fn dns_packet_test_is_domain_name_valid() -> Result<(), DnsError> {
    let domain_name = String::from("www.google.com.");

    assert!(DnsPacket::is_domain_name_valid(&domain_name));

    let domain_name = String::from(
        "reallylongdomainnamelabelistoolongreallylongdomainnamelabelistoolong.google.com.",
    );
    assert!(!DnsPacket::is_domain_name_valid(&domain_name));

    let domain_name = String::from("www.space inlabel.google.com.");
    assert!(!DnsPacket::is_domain_name_valid(&domain_name));

    let domain_name = String::from(".beginswith.");
    assert!(!DnsPacket::is_domain_name_valid(&domain_name));

    let domain_name = String::from("hasnoending.dot");
    assert!(!DnsPacket::is_domain_name_valid(&domain_name));

    let domain_name = String::from("");
    assert!(!DnsPacket::is_domain_name_valid(&domain_name));

    let domain_name = String::from(".");
    assert!(DnsPacket::is_domain_name_valid(&domain_name));

    Ok(())
}

#[test]
fn dns_packet_test_normalize_domain_name() -> Result<(), DnsError> {
    Ok(())
}

#[test]
fn constants() {
    assert_eq!(DNS_PORT, 53);
    assert_eq!(DNS_HEADER_SIZE, 12);
}

#[test]
fn packet_serialize_domain_name_counts_from_start() {
    let mut buf = Vec::new();
    let mut offsets = NameOffsets::new();
    DnsPacket::serialize_domain_name(&String::from("a.b."), &mut buf, 12, &mut offsets).unwrap();
    assert_eq!(buf, vec![1, b'a', 1, b'b', 0]);
    assert_eq!(offsets.get(&String::from("b.")), Some(14));
}

#[test]
fn basic_query_round_trip() {
    let query = Vec::from(BASIC_QUERY);
    let packet = DnsPacket::parse_dns_packet(&query).unwrap();
    assert_eq!(packet.question.len(), 1);
    assert!(packet.answer.is_empty());
    assert!(packet.authority.is_empty());
    assert!(packet.additional.is_empty());
    assert_eq!(packet.serialize(), Ok(query));
}

#[test]
fn response_round_trip() {
    let response = Vec::from(BASIC_QUERY_RESPONSE);
    let packet = DnsPacket::parse_dns_packet(&response).unwrap();
    assert_eq!(
        packet,
        DnsPacket {
            header: DnsHeader {
                id: 0x24B1,
                qr: true,
                opcode: 0,
                aa: false,
                tc: false,
                rd: true,
                ra: true,
                z: 0,
                rcode: 0,
                qdcount: 1,
                ancount: 1,
                nscount: 0,
                arcount: 0,
            },
            question: vec![DnsQuestion {
                qname: String::from("www.google.com."),
                qtype: DNS_TYPE_A,
                qclass: DNS_CLASS_IN,
            }],
            answer: vec![DnsResourceRecord {
                name: String::from("www.google.com."),
                rrtype: DNS_TYPE_A,
                class: DNS_CLASS_IN,
                ttl: 600,
                rdlength: 4,
                rdata: DnsResourceRecordData::A(Ipv4Address::new(216, 58, 217, 36)),
            }],
            authority: Vec::new(),
            additional: Vec::new(),
        }
    );
    assert_eq!(packet.serialize(), Ok(response));
}

fn record(
    name: &str,
    rrtype: u16,
    rdlength: u16,
    rdata: DnsResourceRecordData,
) -> DnsResourceRecord {
    DnsResourceRecord {
        name: String::from(name),
        rrtype,
        class: DNS_CLASS_IN,
        ttl: 60,
        rdlength,
        rdata,
    }
}

#[test]
fn all_sections_round_trip() {
    let mut header = DnsHeader::query(7);
    header.qr = true;
    header.qdcount = 1;
    header.ancount = 2;
    header.nscount = 1;
    header.arcount = 1;
    let packet = DnsPacket {
        header,
        question: vec![DnsQuestion {
            qname: String::from("example.com."),
            qtype: DNS_TYPE_MX,
            qclass: DNS_CLASS_IN,
        }],
        answer: vec![
            record(
                "example.com.",
                DNS_TYPE_MX,
                9,
                DnsResourceRecordData::MX((10, String::from("mail.example.com."))),
            ),
            record(
                "example.com.",
                DNS_TYPE_CNAME,
                6,
                DnsResourceRecordData::CNAME(String::from("www.example.com.")),
            ),
        ],
        authority: vec![record(
            "com.",
            DNS_TYPE_NS,
            5,
            DnsResourceRecordData::NS(String::from("ns.example.com.")),
        )],
        additional: vec![record(
            "mail.example.com.",
            DNS_TYPE_A,
            4,
            DnsResourceRecordData::A(Ipv4Address::new(192, 0, 2, 1)),
        )],
    };
    let bytes = packet.serialize().unwrap();
    let mut expected = vec![0, 7, 0x81, 0x00, 0, 1, 0, 2, 0, 1, 0, 1];
    expected.extend_from_slice(&[7, b'e', b'x', b'a', b'm', b'p', b'l', b'e']);
    expected.extend_from_slice(&[3, b'c', b'o', b'm', 0]);
    expected.extend_from_slice(&[0, 15, 0, 1]);
    // 29: first answer
    expected.extend_from_slice(&[0xC0, 12, 0, 15, 0, 1, 0, 0, 0, 60, 0, 9]);
    expected.extend_from_slice(&[0, 10, 4, b'm', b'a', b'i', b'l', 0xC0, 12]);
    // 50: second answer
    expected.extend_from_slice(&[0xC0, 12, 0, 5, 0, 1, 0, 0, 0, 60, 0, 6]);
    expected.extend_from_slice(&[3, b'w', b'w', b'w', 0xC0, 12]);
    // 68: authority
    expected.extend_from_slice(&[0xC0, 20, 0, 2, 0, 1, 0, 0, 0, 60, 0, 5]);
    expected.extend_from_slice(&[2, b'n', b's', 0xC0, 12]);
    // 85: additional
    expected.extend_from_slice(&[0xC0, 43, 0, 1, 0, 1, 0, 0, 0, 60, 0, 4]);
    expected.extend_from_slice(&[192, 0, 2, 1]);
    assert_eq!(bytes, expected);
    assert_eq!(DnsPacket::parse_dns_packet(&bytes), Ok(packet));
}

#[test]
fn serialize_follows_the_lists_not_the_counts() {
    let packet = DnsPacket {
        header: DnsHeader::query(1),
        question: vec![DnsQuestion { qname: String::from("a."), qtype: 1, qclass: 1 }],
        answer: Vec::new(),
        authority: Vec::new(),
        additional: Vec::new(),
    };
    assert_eq!(
        packet.serialize(),
        Ok(vec![0, 1, 1, 0, 0, 0, 0, 0, 0, 0, 0, 0, 1, b'a', 0, 0, 1, 0, 1])
    );
}

#[test]
fn serialize_fails_with_the_first_error() {
    let mut packet = DnsPacket::parse_dns_packet(&Vec::from(BASIC_QUERY_RESPONSE)).unwrap();
    packet.answer[0].rdlength = 3;
    assert_eq!(packet.serialize(), Err(DnsError::RdlengthMismatch));
    packet.question[0].qname = String::from("not a name");
    assert_eq!(packet.serialize(), Err(DnsError::InvalidDomainName));
    packet.question[0].qname = String::from("www.google.com.");
    packet.answer[0].rdlength = 4;
    packet.additional.push(record("x.", 16, 0, DnsResourceRecordData::TXT("y".repeat(256))));
    assert_eq!(packet.serialize(), Err(DnsError::CharacterStringTooLong));
    let address = DnsResourceRecordData::A(Ipv4Address::new(1, 1, 1, 1));
    packet.authority.push(record("-.", 1, 4, address));
    assert_eq!(packet.serialize(), Err(DnsError::InvalidDomainName));
}

#[test]
fn parse_fails_with_the_first_error() {
    assert_eq!(DnsPacket::parse_dns_packet(&Vec::new()), Err(DnsError::TooShort));
    assert_eq!(DnsPacket::parse_dns_packet(&vec![0u8; 11]), Err(DnsError::TooShort));
    let mut query = Vec::from(BASIC_QUERY);
    query[5] = 2;
    assert_eq!(DnsPacket::parse_dns_packet(&query), Err(DnsError::TooShort));
    let mut query = Vec::from(BASIC_QUERY);
    query[7] = 1;
    assert_eq!(DnsPacket::parse_dns_packet(&query), Err(DnsError::TooShort));
    let mut query = Vec::from(NAME_COMPRESSION_QUERY);
    query[41] = 0x28;
    assert_eq!(DnsPacket::parse_dns_packet(&query), Err(DnsError::PointerOffsetInvalid));
    let mut query = Vec::from(NAME_COMPRESSION_QUERY);
    query[41] = 0x29;
    assert_eq!(DnsPacket::parse_dns_packet(&query), Err(DnsError::PointerOffsetInvalid));
    let mut query = Vec::from(NAME_COMPRESSION_QUERY);
    query[41] = 0x20;
    assert_eq!(DnsPacket::parse_dns_packet(&query), Err(DnsError::PointerOffsetInvalid));
    let mut response = Vec::from(BASIC_QUERY_RESPONSE);
    response[35] = 99;
    assert_eq!(DnsPacket::parse_dns_packet(&response), Err(DnsError::UnsupportedRecordType));
    let mut response = Vec::from(BASIC_QUERY_RESPONSE);
    response[43] = 5;
    assert_eq!(DnsPacket::parse_dns_packet(&response), Err(DnsError::TooShort));
    let mut response = Vec::from(BASIC_QUERY_RESPONSE);
    response.push(0);
    response[43] = 5;
    assert_eq!(DnsPacket::parse_dns_packet(&response), Err(DnsError::RdataTooShort));
}

#[test]
fn parse_ignores_bytes_after_the_last_record() {
    let mut query = Vec::from(BASIC_QUERY);
    query.extend_from_slice(&[1, 2, 3]);
    let packet = DnsPacket::parse_dns_packet(&query).unwrap();
    assert_eq!(packet.serialize(), Ok(Vec::from(BASIC_QUERY)));
}

#[test]
fn query_packet() {
    let packet = DnsPacket::query(0x24B1, &String::from("www.google.com"), DNS_TYPE_A).unwrap();
    let mut header = DnsHeader::query(0x24B1);
    header.qdcount = 1;
    assert_eq!(
        packet,
        DnsPacket {
            header,
            question: vec![DnsQuestion {
                qname: String::from("www.google.com."),
                qtype: DNS_TYPE_A,
                qclass: DNS_CLASS_IN,
            }],
            answer: Vec::new(),
            authority: Vec::new(),
            additional: Vec::new(),
        }
    );
    let mut expected = Vec::from(BASIC_QUERY);
    expected[3] = 0;
    assert_eq!(packet.serialize(), Ok(expected));
}

#[test]
fn query_packet_normalizes_and_validates() {
    let packet = DnsPacket::query(1, &String::from(".example.org"), DNS_TYPE_NS).unwrap();
    assert_eq!(packet.question[0].qname, "example.org.");
    assert_eq!(packet.question[0].qtype, DNS_TYPE_NS);
    let packet = DnsPacket::query(1, &String::from("."), DNS_TYPE_NS).unwrap();
    assert_eq!(packet.question[0].qname, ".");
    assert_eq!(
        DnsPacket::query(1, &String::from(""), DNS_TYPE_A),
        Err(DnsError::InvalidDomainName)
    );
    assert_eq!(
        DnsPacket::query(1, &String::from("two words.com"), DNS_TYPE_A),
        Err(DnsError::InvalidDomainName)
    );
    assert_eq!(
        DnsPacket::query(1, &String::from("..example.org"), DNS_TYPE_A),
        Err(DnsError::InvalidDomainName)
    );
}

#[test]
fn new_packet_is_a_query_for_the_name() {
    let packet = DnsPacket::new(&String::from("www.google.com."), DNS_TYPE_A).unwrap();
    let expected =
        DnsPacket::query(packet.header.id, &String::from("www.google.com."), DNS_TYPE_A).unwrap();
    assert_eq!(packet, expected);
    assert!(!packet.header.qr);
    assert!(packet.header.rd);
    assert_eq!(packet.header.qdcount, 1);
    assert_eq!(
        DnsPacket::new(&String::from("not valid"), DNS_TYPE_A),
        Err(DnsError::InvalidDomainName)
    );
}

#[test]
fn address_of_basic_response() {
    let response = DnsPacket::parse_dns_packet(&Vec::from(BASIC_QUERY_RESPONSE)).unwrap();
    assert_eq!(address_of_response(&response), Ok(Ipv4Address::new(216, 58, 217, 36)));
}

#[test]
fn address_of_response_errors() {
    let mut response = DnsPacket::parse_dns_packet(&Vec::from(BASIC_QUERY_RESPONSE)).unwrap();
    response.header.rcode = 3;
    assert_eq!(address_of_response(&response), Err(ResolveError::ResponseCode(3)));
    response.header.rcode = 0;
    response.answer[0].rrtype = DNS_TYPE_CNAME;
    assert_eq!(address_of_response(&response), Err(ResolveError::NoAddressRecord));
    response.answer.clear();
    assert_eq!(address_of_response(&response), Err(ResolveError::NoAddressRecord));
    response.answer.push(record("a.", DNS_TYPE_A, 0, DnsResourceRecordData::TXT(String::new())));
    assert_eq!(address_of_response(&response), Err(ResolveError::NotAnAddress));
    response.answer.insert(
        0,
        record("a.", DNS_TYPE_CNAME, 4, DnsResourceRecordData::A(Ipv4Address::new(9, 9, 9, 9))),
    );
    assert_eq!(address_of_response(&response), Err(ResolveError::NotAnAddress));
    response.answer.insert(
        1,
        record("a.", DNS_TYPE_A, 4, DnsResourceRecordData::A(Ipv4Address::new(1, 2, 3, 4))),
    );
    assert_eq!(address_of_response(&response), Ok(Ipv4Address::new(1, 2, 3, 4)));
}

#[test]
fn root_name_is_written_but_not_read_back() {
    let packet = DnsPacket::query(1, &String::from("."), DNS_TYPE_NS).unwrap();
    let bytes = packet.serialize().unwrap();
    assert_eq!(bytes, vec![0, 1, 1, 0, 0, 1, 0, 0, 0, 0, 0, 0, 0, 0, 2, 0, 1]);
    assert_eq!(DnsPacket::parse_dns_packet(&bytes), Err(DnsError::InvalidDomainName));
}

#[test]
fn uncompressed_names_are_read_and_written_compressed() {
    let mut bytes = vec![0u8, 1, 1, 0, 0, 2, 0, 0, 0, 0, 0, 0];
    bytes.extend_from_slice(&[1, b'a', 0, 0, 1, 0, 1]);
    bytes.extend_from_slice(&[1, b'a', 0, 0, 1, 0, 1]);
    let packet = DnsPacket::parse_dns_packet(&bytes).unwrap();
    assert_eq!(packet.question[1].qname, "a.");
    let written = packet.serialize().unwrap();
    let mut expected = vec![0u8, 1, 1, 0, 0, 2, 0, 0, 0, 0, 0, 0];
    expected.extend_from_slice(&[1, b'a', 0, 0, 1, 0, 1]);
    expected.extend_from_slice(&[0xC0, 12, 0, 1, 0, 1]);
    assert_eq!(written, expected);
    assert_eq!(DnsPacket::parse_dns_packet(&written), Ok(packet));
}

#[test]
fn serialize_twice_gives_the_same_bytes() {
    let packet = DnsPacket::parse_dns_packet(&Vec::from(NAME_COMPRESSION_QUERY)).unwrap();
    let first = packet.serialize().unwrap();
    let second = packet.serialize().unwrap();
    assert_eq!(first, second);
    assert_eq!(first, Vec::from(NAME_COMPRESSION_QUERY));
}

#[test]
fn slack_in_record_data_is_a_length_mismatch() {
    let mut bytes = vec![0u8, 1, 0x81, 0x80, 0, 0, 0, 1, 0, 0, 0, 0];
    bytes.extend_from_slice(&[1, b'a', 0, 0, 16, 0, 1, 0, 0, 0, 60, 0, 4]);
    bytes.extend_from_slice(&[2, b'h', b'i', 0xEE]);
    let packet = DnsPacket::parse_dns_packet(&bytes).unwrap();
    assert_eq!(packet.answer[0].rdata, DnsResourceRecordData::TXT(String::from("hi")));
    assert_eq!(packet.serialize(), Err(DnsError::RdlengthMismatch));
}
