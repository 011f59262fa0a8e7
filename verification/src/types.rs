//! The data model: header, question, answer record, packet, zone entries,
//! and the codec error enumeration, together with their spec-level views
//! and well-formedness predicates.

use vstd::prelude::*;

use crate::name::name_ok;

verus! {

/// Why a decode of raw bytes failed.
#[derive(Clone, Copy, Debug, PartialEq, Eq, Structural)]
pub enum CodecError {
    /// Fewer bytes were present than a field requires.
    Truncated,
    /// A label length octet lay outside 1..=63 where a label was expected.
    InvalidLabelLength,
    /// The decoded name exceeds the 255-octet wire budget (253 characters).
    NameTooLong,
    /// The question count was not 1, or the query class was not 1.
    UnsupportedQuestionShape,
}

/// The fixed 12-octet DNS message header, with the flag fields unpacked.
#[derive(Clone, Copy, Debug, PartialEq, Eq, Structural)]
pub struct DNSHeader {
    pub id: u16,
    pub qr: u8,
    pub opcode: u8,
    pub aa: u8,
    pub tc: u8,
    pub rd: u8,
    pub ra: u8,
    pub z: u8,
    pub r_code: u8,
    pub qd_count: u16,
    pub an_count: u16,
    pub ns_count: u16,
    pub ar_count: u16,
}

impl DNSHeader {
    /// Every unpacked flag field fits back into its bit-packed slot.
    pub open spec fn wf(self) -> bool {
        &&& self.qr <= 1
        &&& self.opcode <= 15
        &&& self.aa <= 1
        &&& self.tc <= 1
        &&& self.rd <= 1
        &&& self.ra <= 1
        &&& self.z <= 7
        &&& self.r_code <= 15
    }
}

/// The single question of a message: a dotted name, a type, and a class.
#[derive(Clone, Debug)]
pub struct DNSQuestion {
    pub q_name: String,
    pub q_type: u16,
    pub q_class: u16,
}

/// Spec-level view of a question.
pub ghost struct QuestionV {
    pub q_name: Seq<char>,
    pub q_type: u16,
    pub q_class: u16,
}

impl View for DNSQuestion {
    type V = QuestionV;

    open spec fn view(&self) -> QuestionV {
        QuestionV { q_name: self.q_name@, q_type: self.q_type, q_class: self.q_class }
    }
}

impl QuestionV {
    pub open spec fn wf(self) -> bool {
        name_ok(self.q_name)
    }
}

/// One answer resource record. `r_data` holds the already-framed rdata bytes
/// (4 octets for A, 16 for AAAA, length-prefixed text for TXT/RP).
#[derive(Clone, Debug)]
pub struct DNSResponse {
    pub name: String,
    pub r_type: u16,
    pub r_class: u16,
    pub ttl: u32,
    pub rd_length: u16,
    pub r_data: Vec<u8>,
}

/// Spec-level view of an answer record.
pub ghost struct RecordV {
    pub name: Seq<char>,
    pub r_type: u16,
    pub r_class: u16,
    pub ttl: u32,
    pub rd_length: u16,
    pub r_data: Seq<u8>,
}

impl View for DNSResponse {
    type V = RecordV;

    open spec fn view(&self) -> RecordV {
        RecordV {
            name: self.name@,
            r_type: self.r_type,
            r_class: self.r_class,
            ttl: self.ttl,
            rd_length: self.rd_length,
            r_data: self.r_data@,
        }
    }
}

impl RecordV {
    pub open spec fn wf(self) -> bool {
        &&& name_ok(self.name)
        &&& self.rd_length == self.r_data.len()
        &&& self.r_data.len() <= u16::MAX
    }
}

/// A whole message: header, exactly one question, and an optional answer.
#[derive(Clone, Debug)]
pub struct DNSPacket {
    pub header: DNSHeader,
    pub question: DNSQuestion,
    pub response: Option<DNSResponse>,
}

/// Spec-level view of a message.
pub ghost struct PacketV {
    pub header: DNSHeader,
    pub question: QuestionV,
    pub response: Option<RecordV>,
}

impl View for DNSPacket {
    type V = PacketV;

    open spec fn view(&self) -> PacketV {
        PacketV {
            header: self.header,
            question: self.question@,
            response: match self.response {
                Option::None => Option::None,
                Option::Some(r) => Option::Some(r@),
            },
        }
    }
}

impl PacketV {
    /// Structural well-formedness: everything fits its wire slot, so the
    /// message can be encoded.
    pub open spec fn wf(self) -> bool {
        &&& self.header.wf()
        &&& self.question.wf()
        &&& match self.response {
            Option::None => true,
            Option::Some(r) => r.wf(),
        }
    }
}

/// One statically configured zone mapping: a name, a type tag drawn from
/// {A, AAAA, TXT, RP}, and the record data as a literal string.
#[derive(Clone, Debug)]
pub struct DNSEntry {
    pub name: String,
    pub r_type: String,
    pub r_data: String,
}

/// Spec-level view of a zone entry.
pub ghost struct EntryV {
    pub name: Seq<char>,
    pub r_type: Seq<char>,
    pub r_data: Seq<char>,
}

impl View for DNSEntry {
    type V = EntryV;

    open spec fn view(&self) -> EntryV {
        EntryV { name: self.name@, r_type: self.r_type@, r_data: self.r_data@ }
    }
}

/// The immutable zone table: an ordered sequence of entries, validated once
/// at construction and only read afterwards.
#[derive(Clone, Debug)]
pub struct DNSEntryList {
    pub records: Vec<DNSEntry>,
}

impl View for DNSEntryList {
    type V = Seq<EntryV>;

    open spec fn view(&self) -> Seq<EntryV> {
        self.records@.map_values(|e: DNSEntry| e@)
    }
}

} // verus!
