use rusty_dns::dns_packet::dns_header::DnsHeader;
use rusty_dns::error::DnsError;
use rusty_dns::opcodes::{DNS_OPCODE_QUERY, DNS_OPCODE_STATUS};
use rusty_dns::query_examples::{BASIC_QUERY, BASIC_QUERY_RESPONSE};
use rusty_dns::rcodes::{DNS_RCODE_NO_ERROR, DNS_RCODE_REFUSED};

#[test]
fn test_dns_header_new() -> Result<(), DnsError> {
    let query = &Vec::from(BASIC_QUERY);
    let dns_header = DnsHeader::parse_dns_header(query)?;

    assert_eq!(dns_header.id, 0x24B1);
    assert!(!dns_header.qr);
    assert_eq!(dns_header.opcode, DNS_OPCODE_QUERY);
    assert!(!dns_header.aa);
    assert!(!dns_header.tc);
    assert!(dns_header.rd);
    assert!(dns_header.ra);
    assert_eq!(dns_header.z, 0);
    assert_eq!(dns_header.rcode, DNS_RCODE_NO_ERROR);
    assert_eq!(dns_header.qdcount, 1);
    assert_eq!(dns_header.ancount, 0);
    assert_eq!(dns_header.nscount, 0);
    assert_eq!(dns_header.arcount, 0);

    Ok(())
}

#[test]
fn test_parse_dns_header() -> Result<(), DnsError> {
    let query = &Vec::from(BASIC_QUERY);
    let dns_header = DnsHeader::parse_dns_header(query)?;

    assert_eq!(dns_header.id, 0x24B1);
    assert!(!dns_header.qr);
    assert_eq!(dns_header.opcode, DNS_OPCODE_QUERY);
    assert!(!dns_header.aa);
    assert!(!dns_header.tc);
    assert!(dns_header.rd);
    assert!(dns_header.ra);
    assert_eq!(dns_header.z, 0);
    assert_eq!(dns_header.rcode, DNS_RCODE_NO_ERROR);
    assert_eq!(dns_header.qdcount, 1);
    assert_eq!(dns_header.ancount, 0);
    assert_eq!(dns_header.nscount, 0);
    assert_eq!(dns_header.arcount, 0);

    Ok(())
}

#[test]
fn header_round_trip_of_prefix() {
    let prefix: Vec<u8> =
        vec![0x24, 0xB1, 0x01, 0x80, 0x00, 0x01, 0x00, 0x00, 0x00, 0x00, 0x00, 0x00, 0x03, 0x77];
    let header = DnsHeader::parse_dns_header(&prefix).unwrap();
    assert_eq!(
        header,
        DnsHeader {
            id: 0x24B1,
            qr: false,
            opcode: 0,
            aa: false,
            tc: false,
            rd: true,
            ra: true,
            z: 0,
            rcode: 0,
            qdcount: 1,
            ancount: 0,
            nscount: 0,
            arcount: 0,
        }
    );
    assert_eq!(header.serialize(), prefix[..12].to_vec());
}

#[test]
fn header_too_short() {
    assert_eq!(DnsHeader::parse_dns_header(&Vec::new()), Err(DnsError::TooShort));
    assert_eq!(DnsHeader::parse_dns_header(&vec![0u8; 11]), Err(DnsError::TooShort));
    assert!(DnsHeader::parse_dns_header(&vec![0u8; 12]).is_ok());
}

#[test]
fn header_parses_every_field() {
    let buf: Vec<u8> =
        vec![0xAB, 0xCD, 0x96, 0x25, 0x01, 0x02, 0x03, 0x04, 0x05, 0x06, 0x07, 0x08];
    let header = DnsHeader::parse_dns_header(&buf).unwrap();
    assert_eq!(
        header,
        DnsHeader {
            id: 0xABCD,
            qr: true,
            opcode: DNS_OPCODE_STATUS,
            aa: true,
            tc: true,
            rd: false,
            ra: false,
            z: 2,
            rcode: DNS_RCODE_REFUSED,
            qdcount: 0x0102,
            ancount: 0x0304,
            nscount: 0x0506,
            arcount: 0x0708,
        }
    );
    assert_eq!(header.serialize(), buf);
}

#[test]
fn header_round_trip_of_all_flag_bytes() {
    for high in 0..=255u8 {
        for low in [0x00u8, 0x01, 0x0F, 0x10, 0x70, 0x7F, 0x80, 0xA5, 0xFF] {
            let buf: Vec<u8> = vec![0x12, 0x34, high, low, 0, 1, 0, 2, 0, 3, 0xFF, 0xFF];
            let header = DnsHeader::parse_dns_header(&buf).unwrap();
            assert!(header.opcode < 16 && header.z < 8 && header.rcode < 16);
            assert_eq!(header.serialize(), buf);
        }
    }
}

#[test]
fn header_serialize_masks_fields() {
    let header = DnsHeader {
        id: 1,
        qr: false,
        opcode: 0xFF,
        aa: false,
        tc: false,
        rd: false,
        ra: false,
        z: 0xFF,
        rcode: 0xFF,
        qdcount: 0,
        ancount: 0,
        nscount: 0,
        arcount: 0,
    };
    assert_eq!(header.serialize(), vec![0, 1, 0x78, 0x7F, 0, 0, 0, 0, 0, 0, 0, 0]);
    let header = DnsHeader { opcode: 0x12, z: 0x09, rcode: 0x13, ..header };
    assert_eq!(header.serialize(), vec![0, 1, 0x10, 0x13, 0, 0, 0, 0, 0, 0, 0, 0]);
}

#[test]
fn header_of_response() {
    let header = DnsHeader::parse_dns_header(&Vec::from(BASIC_QUERY_RESPONSE)).unwrap();
    assert!(header.qr);
    assert_eq!(header.qdcount, 1);
    assert_eq!(header.ancount, 1);
}

#[test]
fn header_query_has_given_id() {
    let header = DnsHeader::query(0xBEEF);
    assert_eq!(
        header,
        DnsHeader {
            id: 0xBEEF,
            qr: false,
            opcode: DNS_OPCODE_QUERY,
            aa: false,
            tc: false,
            rd: true,
            ra: false,
            z: 0,
            rcode: DNS_RCODE_NO_ERROR,
            qdcount: 0,
            ancount: 0,
            nscount: 0,
            arcount: 0,
        }
    );
    assert_eq!(header.serialize(), vec![0xBE, 0xEF, 0x01, 0x00, 0, 0, 0, 0, 0, 0, 0, 0]);
}

#[test]
fn header_new_is_a_query() {
    let header = DnsHeader::new().unwrap();
    assert_eq!(header, DnsHeader::query(header.id));
}
