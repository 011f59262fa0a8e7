//! The responder: decodes a raw datagram, resolves the question against the
//! zone table, and encodes the reply, echoing the request id throughout.

use vstd::prelude::*;

use crate::codec::{
    be16_read, encode_header, lemma_header_roundtrip, spec_decode, spec_header, wire_header,
    wire_packet,
};
use crate::name::{name_is_ok, name_ok};
use crate::types::{CodecError, DNSEntryList, DNSHeader, DNSPacket, DNSResponse, EntryV, PacketV,
    RecordV};
use crate::zone::{entry_matches, entry_wf, spec_lookup, spec_rdata, spec_rtype_id,
    lemma_spec_rdata_len};

verus! {

/// The header of a header-only format-error reply to raw bytes `b` (which
/// hold at least the 12 header octets): id, opcode and recursion-desired
/// echoed, response bit set, rcode 1, every count zero.
pub open spec fn formerr_header(b: Seq<u8>) -> DNSHeader {
    let h = spec_header(b);
    DNSHeader {
        id: h.id,
        qr: 1,
        opcode: h.opcode,
        aa: 0,
        tc: 0,
        rd: h.rd,
        ra: 0,
        z: 0,
        r_code: 1,
        qd_count: 0,
        an_count: 0,
        ns_count: 0,
        ar_count: 0,
    }
}

/// The header of a reply to a decoded request: id, opcode and
/// recursion-desired echoed, response bit set, one question, and the given
/// response code and answer count.
pub open spec fn response_header(h: DNSHeader, r_code: u8, an_count: u16) -> DNSHeader {
    DNSHeader {
        id: h.id,
        qr: 1,
        opcode: h.opcode,
        aa: 0,
        tc: 0,
        rd: h.rd,
        ra: 0,
        z: 0,
        r_code: r_code,
        qd_count: 1,
        an_count: an_count,
        ns_count: 0,
        ar_count: 0,
    }
}

/// The answer record built from a matched entry: the question's own name,
/// the entry's numeric type, class 1, a 60-second TTL, and the entry's
/// rdata with its exact byte length.
pub open spec fn answer_record(q_name: Seq<char>, e: EntryV) -> RecordV {
    RecordV {
        name: q_name,
        r_type: spec_rtype_id(e.r_type),
        r_class: 1,
        ttl: 60,
        rd_length: spec_rdata(e).len() as u16,
        r_data: spec_rdata(e),
    }
}

/// What the responder sends for a datagram: nothing when even the header is
/// short; a header-only format-error reply when the question cannot be
/// decoded or re-emitted or the opcode is not a standard query; otherwise a
/// full reply — with the matched answer and rcode 0, or with no answer and
/// rcode 3 when no entry matches. Mirrored exactly by `handle`.
pub open spec fn spec_handle(zone: Seq<EntryV>, raw: Seq<u8>) -> Option<Seq<u8>> {
    if raw.len() < 12 {
        Option::None
    } else {
        match spec_decode(raw) {
            Err(_) => Option::Some(wire_header(formerr_header(raw))),
            Ok(p) => if p.header.opcode != 0 || !name_ok(p.question.q_name) {
                Option::Some(wire_header(formerr_header(raw)))
            } else {
                match spec_lookup(zone, p.question.q_name, p.question.q_type) {
                    Option::Some(e) => Option::Some(
                        wire_packet(
                            PacketV {
                                header: response_header(p.header, 0, 1),
                                question: p.question,
                                response: Option::Some(answer_record(p.question.q_name, e)),
                            },
                        ),
                    ),
                    Option::None => Option::Some(
                        wire_packet(
                            PacketV {
                                header: response_header(p.header, 3, 0),
                                question: p.question,
                                response: Option::None,
                            },
                        ),
                    ),
                }
            },
        }
    }
}

/// A found entry in a table of served entries is itself served, and
/// matches the query.
pub proof fn lemma_lookup_found(entries: Seq<EntryV>, q_name: Seq<char>, q_type: u16)
    requires
        spec_lookup(entries, q_name, q_type) is Some,
        forall|i: int| 0 <= i < entries.len() ==> entry_wf(#[trigger] entries[i]),
    ensures
        entry_wf(spec_lookup(entries, q_name, q_type)->Some_0),
        entry_matches(spec_lookup(entries, q_name, q_type)->Some_0, q_name, q_type),
    decreases entries.len(),
{
    if entries.len() > 0 && !entry_matches(entries[0], q_name, q_type) {
        assert(forall|i: int|
            0 <= i < entries.skip(1).len() ==> entry_wf(#[trigger] entries.skip(1)[i]));
        lemma_lookup_found(entries.skip(1), q_name, q_type);
    }
}

/// Encodes the header-only format-error reply to `raw`.
fn formerr_bytes(raw: &[u8]) -> (out: Vec<u8>)
    requires
        raw@.len() >= 12,
    ensures
        out@ == wire_header(formerr_header(raw@)),
{
    let b2 = raw[2];
    let header = DNSHeader {
        id: be16_read(raw[0], raw[1]),
        qr: 1,
        opcode: (b2 >> 3) & 0xF,
        aa: 0,
        tc: 0,
        rd: b2 & 1,
        ra: 0,
        z: 0,
        r_code: 1,
        qd_count: 0,
        an_count: 0,
        ns_count: 0,
        ar_count: 0,
    };
    let mut out: Vec<u8> = Vec::new();
    encode_header(&header, &mut out);
    proof {
        assert(header == formerr_header(raw@));
        assert(out@ =~= wire_header(formerr_header(raw@)));
    }
    out
}

/// Handles one datagram against the zone table, as `spec_handle` describes:
/// `None` (send nothing) exactly when fewer than 12 octets arrived,
/// otherwise the encoded reply.
pub fn handle(zone: &DNSEntryList, raw: &[u8]) -> (r: Option<Vec<u8>>)
    requires
        zone.wf(),
    ensures
        match r {
            Some(out) => spec_handle(zone@, raw@) == Option::Some(out@),
            None => raw@.len() < 12,
        },
        r is Some <==> raw@.len() >= 12,
{
    if raw.len() < 12 {
        return None;
    }
    let p = match DNSPacket::decode(raw) {
        Err(_) => {
            return Some(formerr_bytes(raw));
        },
        Ok(p) => p,
    };
    if p.header.opcode != 0 {
        return Some(formerr_bytes(raw));
    }
    if !name_is_ok(p.question.q_name.as_str()) {
        return Some(formerr_bytes(raw));
    }
    match zone.lookup(p.question.q_name.as_str(), p.question.q_type) {
        Some(entry) => {
            proof {
                lemma_lookup_found(zone@, p@.question.q_name, p.question.q_type);
            }
            let mut record = DNSResponse::new(&entry);
            record.name = p.question.q_name.clone();
            proof {
                lemma_spec_rdata_len(entry@);
                assert(record@ == answer_record(p@.question.q_name, entry@));
            }
            let reply = DNSPacket {
                header: DNSHeader {
                    id: p.header.id,
                    qr: 1,
                    opcode: p.header.opcode,
                    aa: 0,
                    tc: 0,
                    rd: p.header.rd,
                    ra: 0,
                    z: 0,
                    r_code: 0,
                    qd_count: 1,
                    an_count: 1,
                    ns_count: 0,
                    ar_count: 0,
                },
                question: p.question,
                response: Some(record),
            };
            proof {
                assert(reply@.wf());
            }
            Some(reply.to_packet())
        },
        None => {
            let reply = DNSPacket {
                header: DNSHeader {
                    id: p.header.id,
                    qr: 1,
                    opcode: p.header.opcode,
                    aa: 0,
                    tc: 0,
                    rd: p.header.rd,
                    ra: 0,
                    z: 0,
                    r_code: 3,
                    qd_count: 1,
                    an_count: 0,
                    ns_count: 0,
                    ar_count: 0,
                },
                question: p.question,
                response: None,
            };
            proof {
                assert(reply@.wf());
            }
            Some(reply.to_packet())
        },
    }
}

/// The reply, whenever one is sent, opens with the very id the request
/// carried: its first two octets read back as the request's id, on the
/// found, not-found, and format-error paths alike.
pub proof fn lemma_id_echo(zone: Seq<EntryV>, raw: Seq<u8>)
    requires
        raw.len() >= 12,
    ensures
        spec_handle(zone, raw) is Some,
        spec_handle(zone, raw)->Some_0.len() >= 12,
        spec_header(spec_handle(zone, raw)->Some_0).id == spec_header(raw).id,
{
    let out = spec_handle(zone, raw)->Some_0;
    match spec_decode(raw) {
        Err(_) => {
            lemma_formerr_header_read(raw);
        },
        Ok(p) => {
            assert(p.header == spec_header(raw));
            crate::codec::lemma_flag_fields(raw[2]);
            crate::codec::lemma_flag_fields(raw[3]);
            assert(p.header.wf());
            if p.header.opcode != 0 || !name_ok(p.question.q_name) {
                lemma_formerr_header_read(raw);
            } else {
                match spec_lookup(zone, p.question.q_name, p.question.q_type) {
                    Option::Some(e) => {
                        let m = PacketV {
                            header: response_header(p.header, 0, 1),
                            question: p.question,
                            response: Option::Some(answer_record(p.question.q_name, e)),
                        };
                        lemma_response_header_read(m);
                    },
                    Option::None => {
                        let m = PacketV {
                            header: response_header(p.header, 3, 0),
                            question: p.question,
                            response: Option::None,
                        };
                        lemma_response_header_read(m);
                    },
                }
            }
        },
    }
}

/// The header of a format-error reply reads back as written.
proof fn lemma_formerr_header_read(raw: Seq<u8>)
    requires
        raw.len() >= 12,
    ensures
        wire_header(formerr_header(raw)).len() == 12,
        spec_header(wire_header(formerr_header(raw))) == formerr_header(raw),
{
    let h = formerr_header(raw);
    crate::codec::lemma_flag_fields(raw[2]);
    assert(wire_header(h) + Seq::<u8>::empty() =~= wire_header(h));
    lemma_header_roundtrip(h, Seq::<u8>::empty());
}

/// The header of an encoded reply message reads back as written.
proof fn lemma_response_header_read(m: PacketV)
    requires
        m.header.wf(),
    ensures
        wire_packet(m).len() >= 12,
        spec_header(wire_packet(m)) == m.header,
{
    let rest = crate::codec::wire_question(m.question) + (match m.response {
        Option::None => Seq::<u8>::empty(),
        Option::Some(r) => crate::codec::wire_record(r),
    });
    assert(wire_packet(m) =~= wire_header(m.header) + rest);
    lemma_header_roundtrip(m.header, rest);
}

/// A query matched by a zone entry is answered with response code 0, one
/// answer, and the entry's rdata as the reply's final octets.
pub proof fn lemma_found_response(zone: Seq<EntryV>, raw: Seq<u8>, p: PacketV, e: EntryV)
    requires
        spec_decode(raw) == Ok::<PacketV, CodecError>(p),
        p.header.opcode == 0,
        name_ok(p.question.q_name),
        spec_lookup(zone, p.question.q_name, p.question.q_type) == Option::Some(e),
    ensures
        spec_handle(zone, raw) is Some,
        ({
            let out = spec_handle(zone, raw)->Some_0;
            &&& spec_header(out).r_code == 0
            &&& spec_header(out).an_count == 1
            &&& out.len() >= spec_rdata(e).len()
            &&& out.subrange(out.len() - spec_rdata(e).len(), out.len() as int) == spec_rdata(e)
        }),
{
    assert(raw.len() >= 12);
    assert(p.header == spec_header(raw));
    crate::codec::lemma_flag_fields(raw[2]);
    crate::codec::lemma_flag_fields(raw[3]);
    let m = PacketV {
        header: response_header(p.header, 0, 1),
        question: p.question,
        response: Option::Some(answer_record(p.question.q_name, e)),
    };
    lemma_response_header_read(m);
    let out = wire_packet(m);
    let rec = crate::codec::wire_record(answer_record(p.question.q_name, e));
    let pre = wire_header(m.header) + crate::codec::wire_question(m.question);
    assert(out =~= pre + rec);
    let d = spec_rdata(e);
    assert(rec.len() >= d.len());
    assert(rec.subrange(rec.len() - d.len(), rec.len() as int) =~= d);
    assert(out.subrange(out.len() - d.len(), out.len() as int) =~= d);
}

/// A query no zone entry matches is answered with response code 3 (name
/// error) and answer count 0.
pub proof fn lemma_nxdomain_response(zone: Seq<EntryV>, raw: Seq<u8>, p: PacketV)
    requires
        spec_decode(raw) == Ok::<PacketV, CodecError>(p),
        p.header.opcode == 0,
        name_ok(p.question.q_name),
        spec_lookup(zone, p.question.q_name, p.question.q_type) is None,
    ensures
        spec_handle(zone, raw) is Some,
        spec_header(spec_handle(zone, raw)->Some_0).r_code == 3,
        spec_header(spec_handle(zone, raw)->Some_0).an_count == 0,
{
    assert(raw.len() >= 12);
    assert(p.header == spec_header(raw));
    crate::codec::lemma_flag_fields(raw[2]);
    crate::codec::lemma_flag_fields(raw[3]);
    let m = PacketV {
        header: response_header(p.header, 3, 0),
        question: p.question,
        response: Option::None,
    };
    lemma_response_header_read(m);
}

} // verus!
