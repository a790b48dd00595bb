use rusty_dns::address::{Ipv4Address, Ipv6Address};
use rusty_dns::classes::DNS_CLASS_IN;
use rusty_dns::dns_packet::dns_header::DnsHeader;
use rusty_dns::dns_packet::dns_resource_record::{
    parse_character_string, serialize_character_string, DnsResourceRecord, DnsResourceRecordData,
};
use rusty_dns::error::DnsError;
use rusty_dns::name_offsets::NameOffsets;
use rusty_dns::query_examples::BASIC_QUERY_RESPONSE;
use rusty_dns::types::{
    DNS_TYPE_A, DNS_TYPE_AAAA, DNS_TYPE_CNAME, DNS_TYPE_HINFO, DNS_TYPE_MB, DNS_TYPE_MD,
    DNS_TYPE_MF, DNS_TYPE_MG, DNS_TYPE_MINFO, DNS_TYPE_MR, DNS_TYPE_MX, DNS_TYPE_NS,
    DNS_TYPE_NULL, DNS_TYPE_PTR, DNS_TYPE_SOA, DNS_TYPE_SRV, DNS_TYPE_TXT, DNS_TYPE_WKS,
};

const A: &[u8] = &[0x7F, 0x00, 0x00, 0x01]; // 127.0.0.1

const CNAME: &[u8] = &[
    0x03, 0x77, 0x77, 0x77, // www
    0x06, 0x67, 0x6F, 0x6F, 0x67, 0x6C, 0x65, // google
    0x03, 0x63, 0x6F, 0x6D, // com
    0x00, // root
];

const MX: &[u8] = &[
    0x01, 0xA4, // PREFERENCE = 420
    0x03, 0x77, 0x77, 0x77, // www
    0x06, 0x67, 0x6F, 0x6F, 0x67, 0x6C, 0x65, // google
    0x03, 0x63, 0x6F, 0x6D, // com
    0x00, // root
];

const SOA: &[u8] = &[
    0x03, 0x77, 0x77, 0x77, // www
    0x06, 0x67, 0x6F, 0x6F, 0x67, 0x6C, 0x65, // google
    0x03, 0x63, 0x6F, 0x6D, // com
    0x00, // root
    0xC0, 0x04, // domain name pointer to "google.com."
    0x00, 0x00, 0x00, 0x01, // 1
    0x00, 0x00, 0x00, 0x10, // 16
    0x00, 0x00, 0x01, 0x00, // 256
    0x00, 0x00, 0x10, 0x00, // 4096
    0x00, 0x01, 0x00, 0x00, // 65,536
];

const TXT: &[u8] = &[
    0x0B, // length=11
    0x48, 0x65, 0x6c, 0x6c, 0x6f, 0x20, 0x57, 0x6f, 0x72, 0x6c, 0x64, // "Hello World"
];

#[test]
fn dns_packet_test_parse_dns_resource_records() -> Result<(), DnsError> {
    let query = &Vec::from(BASIC_QUERY_RESPONSE);
    let header = &DnsHeader::parse_dns_header(query)?;
    let (resource_records, _) =
        DnsResourceRecord::parse_resource_records(query, 32, header.ancount)?;

    assert_eq!(resource_records.len(), 1);

    let resource_record = &resource_records[0];
    let correct_resource_record_name = String::from("www.google.com.");

    assert_eq!(resource_record.name, correct_resource_record_name);
    assert_eq!(resource_record.rrtype, DNS_TYPE_A);
    assert_eq!(resource_record.class, DNS_CLASS_IN);
    assert_eq!(resource_record.ttl, 600);
    assert_eq!(resource_record.rdlength, 4);

    let mut rdata = Vec::new();
    resource_record.rdata.serialize(&mut rdata, &mut NameOffsets::new())?;
    let a_address = Ipv4Address::new(rdata[0], rdata[1], rdata[2], rdata[3]);

    assert_eq!(a_address, Ipv4Address::new(216, 58, 217, 36));

    Ok(())
}

#[test]
fn dns_resource_record_test_parse_dns_resource_records() -> Result<(), DnsError> {
    let query = &Vec::from(BASIC_QUERY_RESPONSE);
    let header = &DnsHeader::parse_dns_header(query)?;
    let (resource_records, _) =
        DnsResourceRecord::parse_resource_records(query, 32, header.ancount)?;

    assert_eq!(resource_records.len(), 1);

    let resource_record = &resource_records[0];
    let correct_resource_record_name = String::from("www.google.com.");

    assert_eq!(resource_record.name, correct_resource_record_name);
    assert_eq!(resource_record.rrtype, DNS_TYPE_A);
    assert_eq!(resource_record.class, DNS_CLASS_IN);
    assert_eq!(resource_record.ttl, 600);
    assert_eq!(resource_record.rdlength, 4);

    match resource_record.rdata {
        DnsResourceRecordData::A(address) => {
            assert_eq!(address, Ipv4Address::new(216, 58, 217, 36));
        }
        _ => {
            panic!("Parsed resource record data was not A record data");
        }
    }

    Ok(())
}

#[test]
fn test_parse_dns_resource_record_data() -> Result<(), DnsError> {
    let record_data_buf = Vec::from(A);
    let record_data = DnsResourceRecordData::parse(
        DNS_TYPE_A,
        &record_data_buf,
        0,
        record_data_buf.len() as u16,
    )?;
    assert!(match record_data {
        DnsResourceRecordData::A(data) => {
            data == Ipv4Address::new(127, 0, 0, 1)
        }
        _ => {
            false
        }
    });

    let record_data_buf = Vec::from(CNAME);
    let record_data = DnsResourceRecordData::parse(
        DNS_TYPE_CNAME,
        &record_data_buf,
        0,
        record_data_buf.len() as u16,
    )?;
    assert!(match record_data {
        DnsResourceRecordData::CNAME(data) => {
            data == "www.google.com."
        }
        _ => {
            false
        }
    });

    let record_data_buf = Vec::from(MX);
    let record_data = DnsResourceRecordData::parse(
        DNS_TYPE_MX,
        &record_data_buf,
        0,
        record_data_buf.len() as u16,
    )?;
    assert!(match record_data {
        DnsResourceRecordData::MX(data) => {
            data == (420, "www.google.com.".into())
        }
        _ => {
            false
        }
    });

    let record_data_buf = Vec::from(SOA);
    let record_data = DnsResourceRecordData::parse(
        DNS_TYPE_SOA,
        &record_data_buf,
        0,
        record_data_buf.len() as u16,
    )?;
    assert!(match record_data {
        DnsResourceRecordData::SOA(data) => {
            data == (
                "www.google.com.".into(),
                "google.com.".into(),
                1,
                16,
                256,
                4096,
                65536,
            )
        }
        _ => {
            false
        }
    });

    Ok(())
}

#[test]
fn test_serialize_dns_resource_record_data() -> Result<(), DnsError> {
    let record_data_buf = Vec::from(A);
    let record_data =
        DnsResourceRecordData::parse(DNS_TYPE_A, &record_data_buf, 0, A.len() as u16)?;
    let record_data_serialized = &mut Vec::new();
    record_data.serialize(record_data_serialized, &mut NameOffsets::new())?;

    assert_eq!(A, *record_data_serialized);

    let record_data_buf = Vec::from(CNAME);
    let record_data =
        DnsResourceRecordData::parse(DNS_TYPE_CNAME, &record_data_buf, 0, CNAME.len() as u16)?;
    let record_data_serialized = &mut Vec::new();
    record_data.serialize(record_data_serialized, &mut NameOffsets::new())?;

    assert_eq!(CNAME, *record_data_serialized);

    let record_data_buf = Vec::from(SOA);
    let record_data =
        DnsResourceRecordData::parse(DNS_TYPE_SOA, &record_data_buf, 0, SOA.len() as u16)?;
    let record_data_serialized = &mut Vec::new();
    record_data.serialize(record_data_serialized, &mut NameOffsets::new())?;

    assert_eq!(SOA, *record_data_serialized);

    let record_data_buf = Vec::from(TXT);
    let record_data =
        DnsResourceRecordData::parse(DNS_TYPE_TXT, &record_data_buf, 0, TXT.len() as u16)?;
    let record_data_serialized = &mut Vec::new();
    record_data.serialize(record_data_serialized, &mut NameOffsets::new())?;

    assert_eq!(TXT, *record_data_serialized);

    let record_data_buf = Vec::from(MX);
    let record_data =
        DnsResourceRecordData::parse(DNS_TYPE_MX, &record_data_buf, 0, MX.len() as u16)?;
    let record_data_serialized = &mut Vec::new();
    record_data.serialize(record_data_serialized, &mut NameOffsets::new())?;

    assert_eq!(MX, *record_data_serialized);

    Ok(())
}

#[test]
fn test_parse_character_string() -> Result<(), DnsError> {
    let buf = Vec::from(TXT);

    let (character_string, end) = parse_character_string(&buf, 0, buf.len())?;

    assert_eq!(character_string, String::from("Hello World"));
    assert_eq!(end, buf.len());

    Ok(())
}

#[test]
fn character_string_errors() {
    let buf = Vec::from(TXT);
    assert_eq!(parse_character_string(&buf, 12, 12), Err(DnsError::TooShort));
    assert_eq!(parse_character_string(&buf, 40, 50), Err(DnsError::TooShort));
    assert_eq!(parse_character_string(&buf[..11].to_vec(), 0, 12), Err(DnsError::TooShort));
    assert_eq!(parse_character_string(&buf, 0, 11), Err(DnsError::RdataTooShort));
    assert_eq!(parse_character_string(&Vec::new(), 0, 0), Err(DnsError::TooShort));
}

#[test]
fn character_string_empty_and_raw_bytes() {
    let buf = vec![0u8, 2, 0xE9, 0xFF];
    assert_eq!(parse_character_string(&buf, 0, buf.len()), Ok((String::new(), 1)));
    assert_eq!(parse_character_string(&buf, 1, buf.len()), Ok((String::from("\u{e9}\u{ff}"), 4)));
    let mut out = Vec::new();
    serialize_character_string(&String::from("\u{e9}\u{ff}"), &mut out).unwrap();
    assert_eq!(out, vec![2, 0xE9, 0xFF]);
}

#[test]
fn character_string_serialize_lengths() {
    let mut out = vec![9u8];
    assert_eq!(serialize_character_string(&String::new(), &mut out), Ok(()));
    assert_eq!(out, vec![9, 0]);
    let longest = "x".repeat(255);
    let mut out = Vec::new();
    assert_eq!(serialize_character_string(&longest, &mut out), Ok(()));
    assert_eq!(out.len(), 256);
    assert_eq!(out[0], 255);
    assert_eq!(out[255], b'x');
    let too_long = "x".repeat(256);
    let mut out = vec![1u8];
    assert_eq!(
        serialize_character_string(&too_long, &mut out),
        Err(DnsError::CharacterStringTooLong)
    );
    assert_eq!(out, vec![1]);
}

#[test]
fn character_string_cuts_wide_characters() {
    let mut out = Vec::new();
    serialize_character_string(&String::from("\u{141}"), &mut out).unwrap();
    assert_eq!(out, vec![1, 0x41]);
}

fn round_trip(rrtype: u16, wire: &[u8], expected: DnsResourceRecordData) {
    let buf = wire.to_vec();
    let data = DnsResourceRecordData::parse(rrtype, &buf, 0, buf.len() as u16).unwrap();
    assert_eq!(data, expected);
    let mut out = Vec::new();
    data.serialize(&mut out, &mut NameOffsets::new()).unwrap();
    assert_eq!(out, buf);
}

#[test]
fn single_name_records_round_trip() {
    let name = String::from("www.google.com.");
    round_trip(DNS_TYPE_NS, CNAME, DnsResourceRecordData::NS(name.clone()));
    round_trip(DNS_TYPE_MD, CNAME, DnsResourceRecordData::MD(name.clone()));
    round_trip(DNS_TYPE_MF, CNAME, DnsResourceRecordData::MF(name.clone()));
    round_trip(DNS_TYPE_CNAME, CNAME, DnsResourceRecordData::CNAME(name.clone()));
    round_trip(DNS_TYPE_MB, CNAME, DnsResourceRecordData::MB(name.clone()));
    round_trip(DNS_TYPE_MG, CNAME, DnsResourceRecordData::MG(name.clone()));
    round_trip(DNS_TYPE_MR, CNAME, DnsResourceRecordData::MR(name.clone()));
    round_trip(DNS_TYPE_PTR, CNAME, DnsResourceRecordData::PTR(name));
}

#[test]
fn address_records_round_trip() {
    round_trip(DNS_TYPE_A, A, DnsResourceRecordData::A(Ipv4Address::new(127, 0, 0, 1)));
    let wire: Vec<u8> = (1..=16).collect();
    round_trip(
        DNS_TYPE_AAAA,
        &wire,
        DnsResourceRecordData::AAAA(Ipv6Address::new(
            0x0102, 0x0304, 0x0506, 0x0708, 0x090A, 0x0B0C, 0x0D0E, 0x0F10,
        )),
    );
    let address = Ipv6Address::new(0x2001, 0xDB8, 0, 0, 0, 0, 0, 1);
    assert_eq!(address.octets()[..4], [0x20, 0x01, 0x0D, 0xB8]);
    assert_eq!(address.octets()[12..], [0, 0, 0, 1]);
    assert_eq!(Ipv4Address::new(1, 2, 3, 4).octets(), [1, 2, 3, 4]);
}

#[test]
fn aaaa_reads_at_start() {
    let mut buf = vec![0xEEu8; 5];
    buf.extend(1..=16u8);
    let data = DnsResourceRecordData::parse(DNS_TYPE_AAAA, &buf, 5, 16).unwrap();
    assert_eq!(
        data,
        DnsResourceRecordData::AAAA(Ipv6Address {
            octets: [1, 2, 3, 4, 5, 6, 7, 8, 9, 10, 11, 12, 13, 14, 15, 16]
        })
    );
}

#[test]
fn other_records_round_trip() {
    round_trip(DNS_TYPE_MX, MX, DnsResourceRecordData::MX((420, String::from("www.google.com."))));
    round_trip(DNS_TYPE_TXT, TXT, DnsResourceRecordData::TXT(String::from("Hello World")));
    round_trip(
        DNS_TYPE_SOA,
        SOA,
        DnsResourceRecordData::SOA((
            String::from("www.google.com."),
            String::from("google.com."),
            1,
            16,
            256,
            4096,
            65536,
        )),
    );
    round_trip(DNS_TYPE_NULL, &[1, 2, 3], DnsResourceRecordData::NULL(vec![1, 2, 3]));
    round_trip(DNS_TYPE_NULL, &[], DnsResourceRecordData::NULL(Vec::new()));
    round_trip(
        DNS_TYPE_WKS,
        &[10, 0, 0, 1, 6, 0x80, 0x01],
        DnsResourceRecordData::WKS((Ipv4Address::new(10, 0, 0, 1), 6, vec![0x80, 0x01])),
    );
    round_trip(
        DNS_TYPE_WKS,
        &[10, 0, 0, 1, 17],
        DnsResourceRecordData::WKS((Ipv4Address::new(10, 0, 0, 1), 17, Vec::new())),
    );
    round_trip(
        DNS_TYPE_HINFO,
        &[3, b'c', b'p', b'u', 2, b'o', b's'],
        DnsResourceRecordData::HINFO((String::from("cpu"), String::from("os"))),
    );
    round_trip(
        DNS_TYPE_MINFO,
        &[1, b'a', 1, b'b', 0, 1, b'c', 0xC0, 0x02],
        DnsResourceRecordData::MINFO((String::from("a.b."), String::from("c.b."))),
    );
    round_trip(
        DNS_TYPE_SRV,
        &[0x00, 0x01, 0x00, 0x02, 0x1F, 0x90, 1, b'a', 1, b'b', 0],
        DnsResourceRecordData::SRV((1, 2, 8080, String::from("a.b."))),
    );
}

#[test]
fn soa_with_large_integers() {
    let mut wire = vec![1, b'a', 0, 1, b'b', 0];
    wire.extend_from_slice(&[0xFF, 0xFE, 0xFD, 0xFC]);
    wire.extend_from_slice(&[0x12, 0x34, 0x56, 0x78]);
    wire.extend_from_slice(&[0x80, 0x00, 0x00, 0x00]);
    wire.extend_from_slice(&[0x00, 0x00, 0x00, 0x00]);
    wire.extend_from_slice(&[0x00, 0xFF, 0x00, 0xFF]);
    round_trip(
        DNS_TYPE_SOA,
        &wire,
        DnsResourceRecordData::SOA((
            String::from("a."),
            String::from("b."),
            0xFFFEFDFC,
            0x12345678,
            0x80000000,
            0,
            0x00FF00FF,
        )),
    );
}

#[test]
fn unsupported_record_type() {
    let buf = vec![0u8; 4];
    assert_eq!(
        DnsResourceRecordData::parse(65535, &buf, 0, 4),
        Err(DnsError::UnsupportedRecordType)
    );
    assert_eq!(DnsResourceRecordData::parse(0, &buf, 0, 4), Err(DnsError::UnsupportedRecordType));
    assert_eq!(DnsResourceRecordData::parse(17, &buf, 0, 4), Err(DnsError::UnsupportedRecordType));
    assert_eq!(DnsResourceRecordData::parse(255, &buf, 0, 4), Err(DnsError::UnsupportedRecordType));
}

#[test]
fn unsupported_record_type_in_a_record() {
    let mut packet = Vec::from(BASIC_QUERY_RESPONSE);
    packet[34] = 0xFF;
    packet[35] = 0xFF;
    assert_eq!(
        DnsResourceRecord::parse_resource_records(&packet, 32, 1),
        Err(DnsError::UnsupportedRecordType)
    );
}

#[test]
fn rdata_length_errors() {
    let buf = vec![0u8; 32];
    assert_eq!(DnsResourceRecordData::parse(DNS_TYPE_A, &buf, 0, 3), Err(DnsError::RdataTooShort));
    assert_eq!(DnsResourceRecordData::parse(DNS_TYPE_A, &buf, 0, 5), Err(DnsError::RdataTooShort));
    assert_eq!(
        DnsResourceRecordData::parse(DNS_TYPE_AAAA, &buf, 0, 4),
        Err(DnsError::RdataTooShort)
    );
    assert_eq!(DnsResourceRecordData::parse(DNS_TYPE_MX, &buf, 0, 2), Err(DnsError::RdataTooShort));
    assert_eq!(
        DnsResourceRecordData::parse(DNS_TYPE_SRV, &buf, 0, 6),
        Err(DnsError::RdataTooShort)
    );
    assert_eq!(
        DnsResourceRecordData::parse(DNS_TYPE_WKS, &buf, 0, 4),
        Err(DnsError::RdataTooShort)
    );
    assert_eq!(DnsResourceRecordData::parse(DNS_TYPE_CNAME, &buf, 0, 0), Err(DnsError::TooShort));
}

#[test]
fn rdata_past_buffer() {
    let buf = vec![1u8, 2, 3];
    assert_eq!(DnsResourceRecordData::parse(DNS_TYPE_A, &buf, 0, 4), Err(DnsError::TooShort));
    assert_eq!(DnsResourceRecordData::parse(DNS_TYPE_A, &buf, 9, 4), Err(DnsError::TooShort));
    assert_eq!(DnsResourceRecordData::parse(DNS_TYPE_AAAA, &buf, 0, 16), Err(DnsError::TooShort));
    assert_eq!(DnsResourceRecordData::parse(DNS_TYPE_NULL, &buf, 1, 3), Err(DnsError::TooShort));
    assert_eq!(DnsResourceRecordData::parse(DNS_TYPE_NULL, &buf, 4, 0), Err(DnsError::TooShort));
    assert_eq!(
        DnsResourceRecordData::parse(DNS_TYPE_NULL, &buf, 3, 0),
        Ok(DnsResourceRecordData::NULL(Vec::new()))
    );
    assert_eq!(DnsResourceRecordData::parse(DNS_TYPE_WKS, &buf, 0, 5), Err(DnsError::TooShort));
    assert_eq!(DnsResourceRecordData::parse(DNS_TYPE_MX, &buf, 2, 3), Err(DnsError::TooShort));
    assert_eq!(DnsResourceRecordData::parse(DNS_TYPE_SRV, &buf, 0, 7), Err(DnsError::TooShort));
    assert_eq!(
        DnsResourceRecordData::parse(DNS_TYPE_NULL, &buf, usize::MAX, 2),
        Err(DnsError::TooShort)
    );
    assert_eq!(
        DnsResourceRecordData::parse(DNS_TYPE_TXT, &buf, usize::MAX, 2),
        Err(DnsError::TooShort)
    );
}

#[test]
fn soa_names_longer_than_declared() {
    let mut wire = vec![1, b'a', 0, 1, b'b', 0];
    wire.extend_from_slice(&[0u8; 20]);
    assert!(DnsResourceRecordData::parse(DNS_TYPE_SOA, &wire, 0, 26).is_ok());
    assert_eq!(
        DnsResourceRecordData::parse(DNS_TYPE_SOA, &wire, 0, 25),
        Err(DnsError::RdataTooShort)
    );
    assert_eq!(
        DnsResourceRecordData::parse(DNS_TYPE_SOA, &wire, 0, 5),
        Err(DnsError::RdataTooShort)
    );
    assert_eq!(DnsResourceRecordData::parse(DNS_TYPE_SOA, &wire, 0, 3), Err(DnsError::TooShort));
    assert_eq!(
        DnsResourceRecordData::parse(DNS_TYPE_SOA, &wire[..25].to_vec(), 0, 26),
        Err(DnsError::TooShort)
    );
}

#[test]
fn srv_name_follows_the_port() {
    let wire = vec![0x00, 0x0A, 0x00, 0x14, 0x01, 0xBB, 3, b's', b'i', b'p', 0];
    let data = DnsResourceRecordData::parse(DNS_TYPE_SRV, &wire, 0, wire.len() as u16).unwrap();
    assert_eq!(data, DnsResourceRecordData::SRV((10, 20, 443, String::from("sip."))));
}

#[test]
fn hinfo_second_string_must_fit() {
    let wire = vec![1, b'a', 3, b'b', b'c'];
    assert_eq!(
        DnsResourceRecordData::parse(DNS_TYPE_HINFO, &wire, 0, 5),
        Err(DnsError::TooShort)
    );
    let wire = vec![1, b'a', 2, b'b', b'c'];
    assert_eq!(
        DnsResourceRecordData::parse(DNS_TYPE_HINFO, &wire, 0, 4),
        Err(DnsError::RdataTooShort)
    );
    assert_eq!(
        DnsResourceRecordData::parse(DNS_TYPE_HINFO, &wire, 0, 2),
        Err(DnsError::RdataTooShort)
    );
}

#[test]
fn rdata_names_compress_against_the_table() {
    let mut offsets = NameOffsets::new();
    offsets.insert(String::from("google.com."), 16);
    let mut out = vec![0u8; 3];
    DnsResourceRecordData::CNAME(String::from("www.google.com."))
        .serialize(&mut out, &mut offsets)
        .unwrap();
    assert_eq!(out[3..], [3, b'w', b'w', b'w', 0xC0, 16]);
    assert_eq!(offsets.get(&String::from("www.google.com.")), Some(3));
    let mut out = Vec::new();
    DnsResourceRecordData::MX((5, String::from("www.google.com.")))
        .serialize(&mut out, &mut offsets)
        .unwrap();
    assert_eq!(out, vec![0, 5, 0xC0, 3]);
    let mut out = Vec::new();
    DnsResourceRecordData::NS(String::from("ns.google.com."))
        .serialize_at(&mut out, 100, &mut offsets)
        .unwrap();
    assert_eq!(out, vec![2, b'n', b's', 0xC0, 16]);
    assert_eq!(offsets.get(&String::from("ns.google.com.")), Some(100));
    let mut out = Vec::new();
    DnsResourceRecordData::SRV((1, 2, 3, String::from("x.ns.google.com.")))
        .serialize_at(&mut out, 200, &mut offsets)
        .unwrap();
    assert_eq!(out, vec![0, 1, 0, 2, 0, 3, 1, b'x', 0xC0, 100]);
    assert_eq!(offsets.get(&String::from("x.ns.google.com.")), Some(206));
}

#[test]
fn rdata_serialize_errors_write_nothing() {
    let mut offsets = NameOffsets::new();
    let mut out = vec![7u8];
    let soa = DnsResourceRecordData::SOA((
        String::from("ok.example."),
        String::from("not valid"),
        1,
        2,
        3,
        4,
        5,
    ));
    assert_eq!(soa.check(), Err(DnsError::InvalidDomainName));
    assert_eq!(soa.serialize(&mut out, &mut offsets), Err(DnsError::InvalidDomainName));
    assert_eq!(out, vec![7]);
    assert_eq!(offsets.get(&String::from("ok.example.")), None);

    let hinfo = DnsResourceRecordData::HINFO((String::from("cpu"), "x".repeat(256)));
    assert_eq!(hinfo.check(), Err(DnsError::CharacterStringTooLong));
    assert_eq!(hinfo.serialize(&mut out, &mut offsets), Err(DnsError::CharacterStringTooLong));
    assert_eq!(out, vec![7]);

    let txt = DnsResourceRecordData::TXT("x".repeat(300));
    assert_eq!(txt.serialize(&mut out, &mut offsets), Err(DnsError::CharacterStringTooLong));
    let minfo = DnsResourceRecordData::MINFO((String::from(""), String::from("a.")));
    assert_eq!(minfo.serialize(&mut out, &mut offsets), Err(DnsError::InvalidDomainName));
    assert_eq!(
        DnsResourceRecordData::PTR(String::from("a")).check(),
        Err(DnsError::InvalidDomainName)
    );
    assert_eq!(DnsResourceRecordData::A(Ipv4Address::new(1, 2, 3, 4)).check(), Ok(()));
    assert_eq!(out, vec![7]);
}

#[test]
fn a_record_after_a_name() {
    let mut buf = vec![0xC0u8, 0x0C];
    buf.extend_from_slice(&[
        0x00, 0x01, 0x00, 0x01, 0x00, 0x00, 0x02, 0x58, 0x00, 0x04, 0xD8, 0x3A, 0xD9, 0x24,
    ]);
    let mut packet = vec![0u8; 12];
    packet.extend_from_slice(&[3, b'w', b'w', b'w', 0]);
    let start = packet.len();
    packet.extend_from_slice(&buf);
    let (record, end) = DnsResourceRecord::parse_resource_record(&packet, start).unwrap();
    assert_eq!(end, packet.len());
    assert_eq!(
        record,
        DnsResourceRecord {
            name: String::from("www."),
            rrtype: 1,
            class: 1,
            ttl: 600,
            rdlength: 4,
            rdata: DnsResourceRecordData::A(Ipv4Address::new(216, 58, 217, 36)),
        }
    );
}

#[test]
fn record_too_short() {
    let packet = Vec::from(BASIC_QUERY_RESPONSE);
    for cut in 34..44 {
        assert_eq!(
            DnsResourceRecord::parse_resource_record(&packet[..cut].to_vec(), 32),
            Err(DnsError::TooShort)
        );
    }
    for cut in 44..48 {
        assert_eq!(
            DnsResourceRecord::parse_resource_record(&packet[..cut].to_vec(), 32),
            Err(DnsError::TooShort)
        );
    }
    assert_eq!(
        DnsResourceRecord::parse_resource_record(&packet[..33].to_vec(), 32),
        Err(DnsError::LabelOverrun)
    );
    assert_eq!(DnsResourceRecord::parse_resource_records(&packet, 32, 2), Err(DnsError::TooShort));
    assert_eq!(DnsResourceRecord::parse_resource_records(&packet, 32, 0), Ok((Vec::new(), 32)));
}

#[test]
fn record_new_keeps_fields() {
    let record = DnsResourceRecord::new(
        String::from("a."),
        DNS_TYPE_TXT,
        DNS_CLASS_IN,
        7,
        3,
        DnsResourceRecordData::TXT(String::from("hi")),
    )
    .unwrap();
    assert_eq!(record.name, "a.");
    assert_eq!(record.rrtype, 16);
    assert_eq!(record.class, 1);
    assert_eq!(record.ttl, 7);
    assert_eq!(record.rdlength, 3);
    assert_eq!(record.rdata, DnsResourceRecordData::TXT(String::from("hi")));
}

#[test]
fn record_serialize() {
    let record = DnsResourceRecord::new(
        String::from("www.google.com."),
        DNS_TYPE_A,
        DNS_CLASS_IN,
        600,
        4,
        DnsResourceRecordData::A(Ipv4Address::new(216, 58, 217, 36)),
    )
    .unwrap();
    let mut offsets = NameOffsets::new();
    offsets.insert(String::from("www.google.com."), 12);
    let (bytes, end) = record.serialize(32, &mut offsets).unwrap();
    assert_eq!(bytes, BASIC_QUERY_RESPONSE[32..].to_vec());
    assert_eq!(end, 48);
}

#[test]
fn record_serialize_rdlength_mismatch() {
    let record = DnsResourceRecord::new(
        String::from("www.google.com."),
        DNS_TYPE_A,
        DNS_CLASS_IN,
        600,
        5,
        DnsResourceRecordData::A(Ipv4Address::new(216, 58, 217, 36)),
    )
    .unwrap();
    let mut offsets = NameOffsets::new();
    assert_eq!(record.serialize(12, &mut offsets), Err(DnsError::RdlengthMismatch));

    let record = DnsResourceRecord::new(
        String::from("a."),
        DNS_TYPE_CNAME,
        DNS_CLASS_IN,
        1,
        16,
        DnsResourceRecordData::CNAME(String::from("www.google.com.")),
    )
    .unwrap();
    let mut offsets = NameOffsets::new();
    assert!(record.serialize(0, &mut offsets).is_ok());
    let mut offsets = NameOffsets::new();
    offsets.insert(String::from("google.com."), 16);
    assert_eq!(record.serialize(40, &mut offsets), Err(DnsError::RdlengthMismatch));
    let record = DnsResourceRecord { rdlength: 6, ..record };
    let mut offsets = NameOffsets::new();
    offsets.insert(String::from("google.com."), 16);
    let (bytes, end) = record.serialize(40, &mut offsets).unwrap();
    assert_eq!(
        bytes,
        vec![1, b'a', 0, 0, 5, 0, 1, 0, 0, 0, 1, 0, 6, 3, b'w', b'w', b'w', 0xC0, 16]
    );
    assert_eq!(end, 59);
}

#[test]
fn record_serialize_errors_in_order() {
    let record = DnsResourceRecord {
        name: String::from("bad name"),
        rrtype: DNS_TYPE_TXT,
        class: 1,
        ttl: 0,
        rdlength: 0,
        rdata: DnsResourceRecordData::TXT("x".repeat(256)),
    };
    let mut offsets = NameOffsets::new();
    assert_eq!(record.serialize(0, &mut offsets), Err(DnsError::InvalidDomainName));
    let record = DnsResourceRecord { name: String::from("good."), ..record };
    assert_eq!(record.serialize(0, &mut offsets), Err(DnsError::CharacterStringTooLong));
    assert_eq!(offsets.get(&String::from("good.")), None);
    let record =
        DnsResourceRecord { rdata: DnsResourceRecordData::TXT(String::from("x")), ..record };
    assert_eq!(record.serialize(0, &mut offsets), Err(DnsError::RdlengthMismatch));
    assert_eq!(offsets.get(&String::from("good.")), Some(0));
}

#[test]
fn rdata_name_must_be_ended() {
    let buf = vec![1u8, b'a'];
    assert_eq!(DnsResourceRecordData::parse(DNS_TYPE_NS, &buf, 0, 2), Err(DnsError::LabelOverrun));
    let buf = vec![1u8, b'a', 0];
    assert_eq!(
        DnsResourceRecordData::parse(DNS_TYPE_NS, &buf, 0, 3),
        Ok(DnsResourceRecordData::NS(String::from("a.")))
    );
}
