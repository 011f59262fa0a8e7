use dns_responder::responder::handle;
use dns_responder::types::{DNSEntry, DNSEntryList};
use dns_responder::zone::get_r_type_id;

fn entry(name: &str, r_type: &str, r_data: &str) -> DNSEntry {
    DNSEntry {
        name: name.to_string(),
        r_type: r_type.to_string(),
        r_data: r_data.to_string(),
    }
}

fn sample_zone() -> DNSEntryList {
    DNSEntryList::new(vec![entry("example.com", "A", "93.184.216.34")]).unwrap()
}

fn query_bytes(id: u16, name: &str, qtype: u16, qclass: u16) -> Vec<u8> {
    let mut v = vec![
        (id >> 8) as u8,
        (id & 0xff) as u8,
        0,
        0,
        0,
        1,
        0,
        0,
        0,
        0,
        0,
        0,
    ];
    for label in name.split('.') {
        v.push(label.len() as u8);
        v.extend_from_slice(label.as_bytes());
    }
    v.push(0);
    v.push((qtype >> 8) as u8);
    v.push((qtype & 0xff) as u8);
    v.push((qclass >> 8) as u8);
    v.push((qclass & 0xff) as u8);
    v
}

#[test]
fn short_input_yields_no_response() {
    let zone = sample_zone();
    assert!(handle(&zone, &[]).is_none());
    assert!(handle(&zone, &[0u8; 11]).is_none());
}

#[test]
fn matched_query_answers_with_record() {
    let zone = sample_zone();
    let raw = query_bytes(0x1234, "example.com", 1, 1);
    let out = handle(&zone, &raw).unwrap();
    // header: id echoed, qr set, rcode 0, one question, one answer
    assert_eq!(&out[0..2], &[0x12, 0x34]);
    assert_eq!(out[2] & 0x80, 0x80);
    assert_eq!(out[3] & 0x0f, 0);
    assert_eq!(&out[4..8], &[0, 1, 0, 1]);
    // question copied verbatim
    assert_eq!(&out[12..29], &raw[12..29]);
    // answer: name, type 1, class 1, ttl 60, rdlength 4, rdata
    assert_eq!(&out[29..42], &raw[12..25]);
    assert_eq!(&out[42..46], &[0, 1, 0, 1]);
    assert_eq!(&out[46..50], &[0, 0, 0, 60]);
    assert_eq!(&out[50..52], &[0, 4]);
    assert_eq!(&out[52..56], &[93, 184, 216, 34]);
    assert_eq!(out.len(), 56);
}

#[test]
fn missing_name_yields_nxdomain() {
    let zone = sample_zone();
    let raw = query_bytes(0x4242, "missing.example", 1, 1);
    let out = handle(&zone, &raw).unwrap();
    assert_eq!(&out[0..2], &[0x42, 0x42]);
    assert_eq!(out[2] & 0x80, 0x80);
    // rcode 3, answer count 0
    assert_eq!(out[3] & 0x0f, 3);
    assert_eq!(&out[4..8], &[0, 1, 0, 0]);
    // no answer section beyond the copied question
    assert_eq!(out.len(), raw.len());
}

#[test]
fn wrong_type_yields_nxdomain() {
    let zone = sample_zone();
    let raw = query_bytes(9, "example.com", 16, 1);
    let out = handle(&zone, &raw).unwrap();
    assert_eq!(out[3] & 0x0f, 3);
    assert_eq!(&out[6..8], &[0, 0]);
}

#[test]
fn lookup_is_case_insensitive() {
    let zone = sample_zone();
    let raw = query_bytes(5, "EXAMPLE.Com", 1, 1);
    let out = handle(&zone, &raw).unwrap();
    assert_eq!(out[3] & 0x0f, 0);
    assert_eq!(&out[6..8], &[0, 1]);
    let rdata = &out[out.len() - 4..];
    assert_eq!(rdata, &[93, 184, 216, 34]);
}

#[test]
fn first_match_wins_on_duplicates() {
    let zone = DNSEntryList::new(vec![
        entry("dup.example", "A", "1.2.3.4"),
        entry("dup.example", "A", "5.6.7.8"),
    ])
    .unwrap();
    let raw = query_bytes(5, "dup.example", 1, 1);
    let out = handle(&zone, &raw).unwrap();
    let rdata = &out[out.len() - 4..];
    assert_eq!(rdata, &[1, 2, 3, 4]);
}

#[test]
fn malformed_question_echoes_id_with_format_error() {
    let zone = sample_zone();
    let mut raw = query_bytes(0xABCD, "example.com", 1, 1);
    raw[12] = 77;  // label length outside 1..=63
    let out = handle(&zone, &raw).unwrap();
    assert_eq!(out.len(), 12);
    assert_eq!(&out[0..2], &[0xAB, 0xCD]);
    assert_eq!(out[2] & 0x80, 0x80);
    assert_eq!(out[3] & 0x0f, 1);
    assert_eq!(&out[4..12], &[0, 0, 0, 0, 0, 0, 0, 0]);
}

#[test]
fn wrong_class_gets_format_error() {
    let zone = sample_zone();
    let raw = query_bytes(0x0102, "example.com", 1, 4);
    let out = handle(&zone, &raw).unwrap();
    assert_eq!(out.len(), 12);
    assert_eq!(&out[0..2], &[0x01, 0x02]);
    assert_eq!(out[3] & 0x0f, 1);
}

#[test]
fn non_query_opcode_gets_format_error() {
    let zone = sample_zone();
    let mut raw = query_bytes(0x0708, "example.com", 1, 1);
    raw[2] = 2 << 3;  // opcode 2
    let out = handle(&zone, &raw).unwrap();
    assert_eq!(out.len(), 12);
    assert_eq!(&out[0..2], &[0x07, 0x08]);
    assert_eq!(out[3] & 0x0f, 1);
    // opcode echoed in the error reply
    assert_eq!((out[2] >> 3) & 0x0f, 2);
}

#[test]
fn aaaa_record_frames_sixteen_octets() {
    let zone =
        DNSEntryList::new(vec![entry("v6.example", "AAAA", "2001:db8:0:0:0:0:2:1")]).unwrap();
    let raw = query_bytes(3, "v6.example", 28, 1);
    let out = handle(&zone, &raw).unwrap();
    assert_eq!(&out[6..8], &[0, 1]);
    let rdata = &out[out.len() - 16..];
    assert_eq!(
        rdata,
        &[0x20, 0x01, 0x0d, 0xb8, 0, 0, 0, 0, 0, 0, 0, 0, 0, 2, 0, 1]
    );
    // rdlength precedes the rdata
    assert_eq!(&out[out.len() - 18..out.len() - 16], &[0, 16]);
}

#[test]
fn txt_record_is_length_prefixed() {
    let zone = DNSEntryList::new(vec![entry("txt.example", "TXT", "hello")]).unwrap();
    let raw = query_bytes(3, "txt.example", 16, 1);
    let out = handle(&zone, &raw).unwrap();
    let rdata = &out[out.len() - 6..];
    assert_eq!(rdata[0], 5);
    assert_eq!(&rdata[1..], b"hello");
    assert_eq!(&out[out.len() - 8..out.len() - 6], &[0, 6]);
}

#[test]
fn rp_record_uses_text_framing() {
    let zone = DNSEntryList::new(vec![entry("rp.example", "RP", "admin.example.com")]).unwrap();
    let raw = query_bytes(3, "rp.example", 17, 1);
    let out = handle(&zone, &raw).unwrap();
    assert_eq!(out[out.len() - 18], 17);
}

#[test]
fn record_type_ids() {
    assert_eq!(get_r_type_id("A"), 1);
    assert_eq!(get_r_type_id("AAAA"), 28);
    assert_eq!(get_r_type_id("TXT"), 16);
    assert_eq!(get_r_type_id("RP"), 17);
    assert_eq!(get_r_type_id("MX"), 0);
    assert_eq!(get_r_type_id(""), 0);
}

#[test]
fn invalid_zone_entries_are_rejected() {
    assert!(DNSEntryList::new(vec![entry("bad.example", "A", "999.1.1.1")]).is_none());
    assert!(DNSEntryList::new(vec![entry("bad.example", "A", "1.2.3")]).is_none());
    assert!(DNSEntryList::new(vec![entry("bad.example", "MX", "whatever")]).is_none());
    assert!(DNSEntryList::new(vec![entry("", "A", "1.2.3.4")]).is_none());
    assert!(DNSEntryList::new(vec![entry("ok.example", "A", "1.2.3.4")]).is_some());
}
