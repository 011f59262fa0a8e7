//! Whole-message wire codec: the bit-packed header, the question section,
//! the optional answer record, and the decode/encode pair over them.

use vstd::prelude::*;

use crate::name::{
    encode_name, lemma_parse_wire_name, lemma_wire_name_len, parse_q_name, spec_parse_name,
    wire_name,
};
use crate::types::{CodecError, DNSHeader, DNSPacket, DNSQuestion, PacketV, QuestionV, RecordV};

verus! {

/// Big-endian 16-bit value from two octets.
pub open spec fn be16(hi: u8, lo: u8) -> u16 {
    ((hi as u16) << 8) | (lo as u16)
}

/// High octet of a big-endian 16-bit value.
pub open spec fn u16_hi(x: u16) -> u8 {
    (x >> 8) as u8
}

/// Low octet of a big-endian 16-bit value.
pub open spec fn u16_lo(x: u16) -> u8 {
    (x & 0xFF) as u8
}

/// The four octets of a big-endian 32-bit value.
pub open spec fn u32_bytes(x: u32) -> Seq<u8> {
    seq![
        (x >> 24) as u8,
        ((x >> 16) & 0xFF) as u8,
        ((x >> 8) & 0xFF) as u8,
        (x & 0xFF) as u8,
    ]
}

/// First flags octet: qr(1) opcode(4) aa(1) tc(1) rd(1).
pub open spec fn flags_byte1(h: DNSHeader) -> u8 {
    (h.qr << 7) | (h.opcode << 3) | (h.aa << 2) | (h.tc << 1) | h.rd
}

/// Second flags octet: ra(1) z(3) rcode(4).
pub open spec fn flags_byte2(h: DNSHeader) -> u8 {
    (h.ra << 7) | (h.z << 4) | h.r_code
}

/// The 12 octets of the header on the wire.
pub open spec fn wire_header(h: DNSHeader) -> Seq<u8> {
    seq![
        u16_hi(h.id),
        u16_lo(h.id),
        flags_byte1(h),
        flags_byte2(h),
        u16_hi(h.qd_count),
        u16_lo(h.qd_count),
        u16_hi(h.an_count),
        u16_lo(h.an_count),
        u16_hi(h.ns_count),
        u16_lo(h.ns_count),
        u16_hi(h.ar_count),
        u16_lo(h.ar_count),
    ]
}

/// The header as decoded from the first 12 octets of `b`.
pub open spec fn spec_header(b: Seq<u8>) -> DNSHeader {
    DNSHeader {
        id: be16(b[0], b[1]),
        qr: (b[2] >> 7) & 1,
        opcode: (b[2] >> 3) & 0xF,
        aa: (b[2] >> 2) & 1,
        tc: (b[2] >> 1) & 1,
        rd: b[2] & 1,
        ra: (b[3] >> 7) & 1,
        z: (b[3] >> 4) & 7,
        r_code: b[3] & 0xF,
        qd_count: be16(b[4], b[5]),
        an_count: be16(b[6], b[7]),
        ns_count: be16(b[8], b[9]),
        ar_count: be16(b[10], b[11]),
    }
}

/// The question section on the wire: name, type, class.
pub open spec fn wire_question(q: QuestionV) -> Seq<u8> {
    wire_name(q.q_name) + seq![
        u16_hi(q.q_type),
        u16_lo(q.q_type),
        u16_hi(q.q_class),
        u16_lo(q.q_class),
    ]
}

/// The answer record on the wire: name, type, class, TTL, rdata length,
/// rdata.
pub open spec fn wire_record(r: RecordV) -> Seq<u8> {
    wire_name(r.name) + seq![u16_hi(r.r_type), u16_lo(r.r_type), u16_hi(r.r_class), u16_lo(
        r.r_class,
    )] + u32_bytes(r.ttl) + seq![u16_hi(r.rd_length), u16_lo(r.rd_length)] + r.r_data
}

/// A whole message on the wire.
pub open spec fn wire_packet(p: PacketV) -> Seq<u8> {
    wire_header(p.header) + wire_question(p.question) + (match p.response {
        Option::None => Seq::<u8>::empty(),
        Option::Some(r) => wire_record(r),
    })
}

/// What decoding raw bytes yields: a header-plus-question message carrying
/// no answer, or the error the bytes force. Mirrored exactly by
/// `DNSPacket::decode`.
pub open spec fn spec_decode(b: Seq<u8>) -> Result<PacketV, CodecError> {
    if b.len() < 12 {
        Err(CodecError::Truncated)
    } else {
        match spec_parse_name(b, 12) {
            Err(e) => Err(e),
            Ok((nm, j)) => if j + 4 > b.len() {
                Err(CodecError::Truncated)
            } else {
                let h = spec_header(b);
                let q = QuestionV {
                    q_name: nm,
                    q_type: be16(b[j], b[j + 1]),
                    q_class: be16(b[j + 2], b[j + 3]),
                };
                if h.qd_count != 1 || q.q_class != 1 {
                    Err(CodecError::UnsupportedQuestionShape)
                } else {
                    Ok(PacketV { header: h, question: q, response: Option::None })
                }
            },
        }
    }
}

/// Every flag field cut out of an octet fits its declared width.
pub proof fn lemma_flag_fields(x: u8)
    ensures
        (x >> 7) & 1 <= 1,
        (x >> 3) & 0xF <= 15,
        (x >> 2) & 1 <= 1,
        (x >> 1) & 1 <= 1,
        x & 1 <= 1,
        (x >> 4) & 7 <= 7,
        x & 0xF <= 15,
{
    assert((x >> 7) & 1 <= 1 && (x >> 3) & 0xF <= 15 && (x >> 2) & 1 <= 1 && (x >> 1) & 1 <= 1
        && x & 1 <= 1 && (x >> 4) & 7 <= 7 && x & 0xF <= 15) by (bit_vector);
}

/// Splitting a 16-bit value into octets and reading them back is the
/// identity.
pub proof fn lemma_be16_roundtrip(x: u16)
    ensures
        be16(u16_hi(x), u16_lo(x)) == x,
{
    assert(((((x >> 8) as u8) as u16) << 8) | (((x & 0xFF) as u8) as u16) == x) by (bit_vector);
}

/// Unpacking the first flags octet recovers each packed field.
proof fn lemma_flags1_roundtrip(qr: u8, opcode: u8, aa: u8, tc: u8, rd: u8)
    requires
        qr <= 1,
        opcode <= 15,
        aa <= 1,
        tc <= 1,
        rd <= 1,
    ensures
        ((qr << 7) | (opcode << 3) | (aa << 2) | (tc << 1) | rd) >> 7 & 1 == qr,
        ((qr << 7) | (opcode << 3) | (aa << 2) | (tc << 1) | rd) >> 3 & 0xF == opcode,
        ((qr << 7) | (opcode << 3) | (aa << 2) | (tc << 1) | rd) >> 2 & 1 == aa,
        ((qr << 7) | (opcode << 3) | (aa << 2) | (tc << 1) | rd) >> 1 & 1 == tc,
        ((qr << 7) | (opcode << 3) | (aa << 2) | (tc << 1) | rd) & 1 == rd,
{
    assert(((qr << 7) | (opcode << 3) | (aa << 2) | (tc << 1) | rd) >> 7 & 1 == qr && ((qr << 7)
        | (opcode << 3) | (aa << 2) | (tc << 1) | rd) >> 3 & 0xF == opcode && ((qr << 7) | (opcode
        << 3) | (aa << 2) | (tc << 1) | rd) >> 2 & 1 == aa && ((qr << 7) | (opcode << 3) | (aa
        << 2) | (tc << 1) | rd) >> 1 & 1 == tc && ((qr << 7) | (opcode << 3) | (aa << 2) | (tc
        << 1) | rd) & 1 == rd) by (bit_vector)
        requires
            qr <= 1,
            opcode <= 15,
            aa <= 1,
            tc <= 1,
            rd <= 1,
    ;
}

/// Unpacking the second flags octet recovers each packed field.
proof fn lemma_flags2_roundtrip(ra: u8, z: u8, r_code: u8)
    requires
        ra <= 1,
        z <= 7,
        r_code <= 15,
    ensures
        ((ra << 7) | (z << 4) | r_code) >> 7 & 1 == ra,
        ((ra << 7) | (z << 4) | r_code) >> 4 & 7 == z,
        ((ra << 7) | (z << 4) | r_code) & 0xF == r_code,
{
    assert(((ra << 7) | (z << 4) | r_code) >> 7 & 1 == ra && ((ra << 7) | (z << 4) | r_code) >> 4
        & 7 == z && ((ra << 7) | (z << 4) | r_code) & 0xF == r_code) by (bit_vector)
        requires
            ra <= 1,
            z <= 7,
            r_code <= 15,
    ;
}

/// Appends the two big-endian octets of `x`.
fn push_u16(out: &mut Vec<u8>, x: u16)
    ensures
        final(out)@ == old(out)@ + seq![u16_hi(x), u16_lo(x)],
{
    out.push((x >> 8) as u8);
    out.push((x & 0xFF) as u8);
    proof {
        assert(out@ =~= old(out)@ + seq![u16_hi(x), u16_lo(x)]);
    }
}

/// Appends the four big-endian octets of `x`.
fn push_u32(out: &mut Vec<u8>, x: u32)
    ensures
        final(out)@ == old(out)@ + u32_bytes(x),
{
    out.push((x >> 24) as u8);
    out.push(((x >> 16) & 0xFF) as u8);
    out.push(((x >> 8) & 0xFF) as u8);
    out.push((x & 0xFF) as u8);
    proof {
        assert(out@ =~= old(out)@ + u32_bytes(x));
    }
}

/// Appends the 12 header octets.
pub(crate) fn encode_header(h: &DNSHeader, out: &mut Vec<u8>)
    ensures
        final(out)@ == old(out)@ + wire_header(*h),
{
    push_u16(out, h.id);
    out.push((h.qr << 7) | (h.opcode << 3) | (h.aa << 2) | (h.tc << 1) | h.rd);
    out.push((h.ra << 7) | (h.z << 4) | h.r_code);
    push_u16(out, h.qd_count);
    push_u16(out, h.an_count);
    push_u16(out, h.ns_count);
    push_u16(out, h.ar_count);
    proof {
        assert(out@ =~= old(out)@ + wire_header(*h));
    }
}

impl DNSPacket {
    /// Decodes the header and single question out of a raw datagram, as
    /// `spec_decode` describes. The result never carries an answer record.
    pub fn decode(buffer: &[u8]) -> (r: Result<DNSPacket, CodecError>)
        ensures
            match r {
                Ok(p) => {
                    &&& spec_decode(buffer@) == Ok::<PacketV, CodecError>(p@)
                    &&& p.header.wf()
                    &&& p.header.qd_count == 1
                    &&& p.question.q_class == 1
                    &&& p@.question.q_name.len() <= 253
                    &&& p.response is None
                },
                Err(e) => spec_decode(buffer@) == Err::<PacketV, CodecError>(e),
            },
    {
        if buffer.len() < 12 {
            return Err(CodecError::Truncated);
        }
        let b2 = buffer[2];
        let b3 = buffer[3];
        let header = DNSHeader {
            id: be16_read(buffer[0], buffer[1]),
            qr: (b2 >> 7) & 1,
            opcode: (b2 >> 3) & 0xF,
            aa: (b2 >> 2) & 1,
            tc: (b2 >> 1) & 1,
            rd: b2 & 1,
            ra: (b3 >> 7) & 1,
            z: (b3 >> 4) & 7,
            r_code: b3 & 0xF,
            qd_count: be16_read(buffer[4], buffer[5]),
            an_count: be16_read(buffer[6], buffer[7]),
            ns_count: be16_read(buffer[8], buffer[9]),
            ar_count: be16_read(buffer[10], buffer[11]),
        };
        proof {
            lemma_flag_fields(b2);
            lemma_flag_fields(b3);
            assert(header == spec_header(buffer@));
        }
        match parse_q_name(buffer, 12) {
            Err(e) => Err(e),
            Ok((q_name, end)) => {
                if buffer.len() - end < 4 {
                    return Err(CodecError::Truncated);
                }
                let q_type = be16_read(buffer[end], buffer[end + 1]);
                let q_class = be16_read(buffer[end + 2], buffer[end + 3]);
                if header.qd_count != 1 || q_class != 1 {
                    return Err(CodecError::UnsupportedQuestionShape);
                }
                let packet = DNSPacket {
                    header,
                    question: DNSQuestion { q_name, q_type, q_class },
                    response: None,
                };
                proof {
                    assert(spec_decode(buffer@) == Ok::<PacketV, CodecError>(packet@));
                }
                Ok(packet)
            },
        }
    }

    /// Serializes this message into wire bytes, as `wire_packet` describes.
    /// Total for every structurally well-formed message.
    #[verifier::loop_isolation(false)]
    pub fn to_packet(&self) -> (out: Vec<u8>)
        requires
            self@.wf(),
        ensures
            out@ == wire_packet(self@),
    {
        let mut out: Vec<u8> = Vec::new();
        encode_header(&self.header, &mut out);
        proof {
            assert(out@ =~= wire_header(self.header));
        }
        encode_name(self.question.q_name.as_str(), &mut out);
        push_u16(&mut out, self.question.q_type);
        push_u16(&mut out, self.question.q_class);
        proof {
            assert(out@ =~= wire_header(self.header) + wire_question(self@.question));
        }
        match &self.response {
            None => {
                proof {
                    assert(out@ =~= wire_packet(self@));
                }
            },
            Some(r) => {
                let ghost out_q = out@;
                encode_name(r.name.as_str(), &mut out);
                push_u16(&mut out, r.r_type);
                push_u16(&mut out, r.r_class);
                push_u32(&mut out, r.ttl);
                push_u16(&mut out, r.rd_length);
                let ghost out_pre = out@;
                let mut i: usize = 0;
                while i < r.r_data.len()
                    invariant
                        i <= r.r_data.len(),
                        out@ == out_pre + r.r_data@.take(i as int),
                    decreases r.r_data.len() - i,
                {
                    out.push(r.r_data[i]);
                    i += 1;
                    proof {
                        assert(out@ =~= out_pre + r.r_data@.take(i as int));
                    }
                }
                proof {
                    assert(r.r_data@.take(r.r_data@.len() as int) =~= r.r_data@);
                    assert(out@ =~= out_q + wire_record(r@));
                    assert(out@ =~= wire_packet(self@));
                }
            },
        }
        out
    }
}

/// Reads a big-endian 16-bit value from two octets.
pub(crate) fn be16_read(hi: u8, lo: u8) -> (x: u16)
    ensures
        x == be16(hi, lo),
{
    ((hi as u16) << 8) | (lo as u16)
}

/// Decoding the 12 octets of an encoded well-formed header recovers every
/// field.
pub proof fn lemma_header_roundtrip(h: DNSHeader, rest: Seq<u8>)
    requires
        h.wf(),
    ensures
        spec_header(wire_header(h) + rest) == h,
{
    let b = wire_header(h) + rest;
    assert forall|t: int| 0 <= t < 12 implies b[t] == wire_header(h)[t] by {}
    lemma_be16_roundtrip(h.id);
    lemma_be16_roundtrip(h.qd_count);
    lemma_be16_roundtrip(h.an_count);
    lemma_be16_roundtrip(h.ns_count);
    lemma_be16_roundtrip(h.ar_count);
    lemma_flags1_roundtrip(h.qr, h.opcode, h.aa, h.tc, h.rd);
    lemma_flags2_roundtrip(h.ra, h.z, h.r_code);
}

/// Round trip: decoding the encoding of any structurally well-formed
/// message that a decoder could have produced (a single accepted question,
/// no answer attached) gives back exactly that message.
pub proof fn lemma_decode_encode(m: PacketV)
    requires
        m.wf(),
        m.header.qd_count == 1,
        m.question.q_class == 1,
        m.response is None,
    ensures
        spec_decode(wire_packet(m)) == Ok::<PacketV, CodecError>(m),
{
    let b = wire_packet(m);
    let w = wire_name(m.question.q_name);
    let wh = wire_header(m.header);
    let wq = wire_question(m.question);
    lemma_wire_name_len(m.question.q_name);
    assert(b =~= wh + wq);
    assert(b.len() == 12 + w.len() + 4);
    assert forall|t: int| 0 <= t < 12 implies b[t] == wh[t] by {}
    assert(spec_header(b) == m.header) by {
        lemma_be16_roundtrip(m.header.id);
        lemma_be16_roundtrip(m.header.qd_count);
        lemma_be16_roundtrip(m.header.an_count);
        lemma_be16_roundtrip(m.header.ns_count);
        lemma_be16_roundtrip(m.header.ar_count);
        lemma_flags1_roundtrip(
            m.header.qr,
            m.header.opcode,
            m.header.aa,
            m.header.tc,
            m.header.rd,
        );
        lemma_flags2_roundtrip(m.header.ra, m.header.z, m.header.r_code);
    }
    assert(b.subrange(12, 12 + w.len() as int) =~= w) by {
        assert forall|t: int| 0 <= t < w.len() implies b[12 + t] == w[t] by {
            assert(wq[t] == w[t]);
        }
    }
    lemma_parse_wire_name(b, 12, m.question.q_name);
    let j = 12 + w.len() as int;
    assert(spec_parse_name(b, 12) == Ok::<(Seq<char>, int), CodecError>((m.question.q_name, j)));
    assert(b[j] == wq[w.len() as int]);
    assert(b[j + 1] == wq[w.len() as int + 1]);
    assert(b[j + 2] == wq[w.len() as int + 2]);
    assert(b[j + 3] == wq[w.len() as int + 3]);
    lemma_be16_roundtrip(m.question.q_type);
    lemma_be16_roundtrip(m.question.q_class);
    assert(spec_decode(b)->Ok_0.question == m.question);
    assert(spec_decode(b) == Ok::<PacketV, CodecError>(m));
}

} // verus!
