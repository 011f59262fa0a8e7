use dns_responder::name::parse_q_name;
use dns_responder::types::{CodecError, DNSHeader, DNSPacket, DNSQuestion};

fn query_bytes(id: u16, name: &str, qtype: u16, qclass: u16) -> Vec<u8> {
    let mut v = vec![
        (id >> 8) as u8,
        (id & 0xff) as u8,
        0,
        0,
        0,
        1,
        0,
        0,
        0,
        0,
        0,
        0,
    ];
    for label in name.split('.') {
        v.push(label.len() as u8);
        v.extend_from_slice(label.as_bytes());
    }
    v.push(0);
    v.push((qtype >> 8) as u8);
    v.push((qtype & 0xff) as u8);
    v.push((qclass >> 8) as u8);
    v.push((qclass & 0xff) as u8);
    v
}

fn sample_packet() -> dns_responder::types::DNSPacket {
    dns_responder::types::DNSPacket {
        header: DNSHeader {
            id: 0xBEEF,
            qr: 0,
            opcode: 0,
            aa: 0,
            tc: 0,
            rd: 1,
            ra: 0,
            z: 0,
            r_code: 0,
            qd_count: 1,
            an_count: 0,
            ns_count: 0,
            ar_count: 0,
        },
        question: DNSQuestion {
            q_name: String::from("Example.COM"),
            q_type: 1,
            q_class: 1,
        },
        response: None,
    }
}

#[test]
fn round_trip_query() {
    let m = sample_packet();
    let bytes = m.to_packet();
    let back = DNSPacket::decode(&bytes).unwrap();
    assert_eq!(back.header, m.header);
    assert_eq!(back.question.q_name, "Example.COM");
    assert_eq!(back.question.q_type, 1);
    assert_eq!(back.question.q_class, 1);
    assert!(back.response.is_none());
}

#[test]
fn name_decode_recovers_original() {
    let raw = query_bytes(7, "a.bc.def.example", 16, 1);
    let (name, end) = parse_q_name(&raw, 12).unwrap();
    assert_eq!(name, "a.bc.def.example");
    assert_eq!(end, 12 + name.len() + 2);
}

#[test]
fn root_name_decodes_empty() {
    let raw = query_bytes(7, "", 1, 1);
    // the helper writes a zero-length label for the empty name: 12 bytes of
    // header, then [0, 0], terminator, type, class
    let (name, _) = parse_q_name(&raw, 12).unwrap();
    assert_eq!(name, "");
}

#[test]
fn decode_short_header_truncated() {
    assert_eq!(
        DNSPacket::decode(&[0u8; 11]).unwrap_err(),
        CodecError::Truncated
    );
}

#[test]
fn decode_truncated_label() {
    let mut raw = query_bytes(1, "example.com", 1, 1);
    raw.truncate(15);
    assert_eq!(DNSPacket::decode(&raw).unwrap_err(), CodecError::Truncated);
}

#[test]
fn decode_invalid_label_length() {
    let mut raw = query_bytes(1, "example.com", 1, 1);
    raw[12] = 64;
    assert_eq!(
        DNSPacket::decode(&raw).unwrap_err(),
        CodecError::InvalidLabelLength
    );
}

#[test]
fn decode_name_too_long() {
    // 5 labels of 63 octets: 315 characters once joined, over the ceiling
    let long_label = "x".repeat(63);
    let name = vec![long_label; 5].join(".");
    let raw = query_bytes(1, &name, 1, 1);
    assert_eq!(DNSPacket::decode(&raw).unwrap_err(), CodecError::NameTooLong);
}

#[test]
fn decode_wrong_class_rejected() {
    let raw = query_bytes(1, "example.com", 1, 3);
    assert_eq!(
        DNSPacket::decode(&raw).unwrap_err(),
        CodecError::UnsupportedQuestionShape
    );
}

#[test]
fn decode_wrong_question_count_rejected() {
    let mut raw = query_bytes(1, "example.com", 1, 1);
    raw[5] = 2;
    assert_eq!(
        DNSPacket::decode(&raw).unwrap_err(),
        CodecError::UnsupportedQuestionShape
    );
}

#[test]
fn encode_is_length_prefixed() {
    let m = sample_packet();
    let bytes = m.to_packet();
    // header, then 1+7 ("Example"), 1+3 ("COM"), terminator, type, class
    assert_eq!(bytes.len(), 12 + 13 + 4);
    assert_eq!(bytes[12], 7);
    assert_eq!(&bytes[13..20], b"Example");
    assert_eq!(bytes[20], 3);
    assert_eq!(&bytes[21..24], b"COM");
    assert_eq!(bytes[24], 0);
    assert_eq!(&bytes[25..29], &[0, 1, 0, 1]);
}
