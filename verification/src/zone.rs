//! The zone table: record-type tags, ASCII case-insensitive name matching,
//! validation of configured entries, conversion of entry data into framed
//! rdata octets, and first-match lookup.

use vstd::prelude::*;
use vstd::string::StrSliceExecFns;

use crate::name::{first_sep, lemma_first_sep, name_is_ok, next_sep, valid_name};
use crate::types::{DNSEntry, DNSEntryList, DNSResponse, EntryV};

verus! {

/// ASCII lower-casing of one character; everything else is untouched.
pub open spec fn lower_char(c: char) -> char {
    if 65 <= (c as u32) && (c as u32) <= 90 {
        (((c as u32) + 32) as u8) as char
    } else {
        c
    }
}

/// ASCII lower-casing of a character sequence.
pub open spec fn lower_seq(s: Seq<char>) -> Seq<char> {
    s.map_values(|c: char| lower_char(c))
}

/// The numeric record type for a textual tag: A=1, AAAA=28, TXT=16, RP=17,
/// and 0 for anything else.
pub open spec fn spec_rtype_id(s: Seq<char>) -> u16 {
    if s == seq!['A'] {
        1
    } else if s == seq!['A', 'A', 'A', 'A'] {
        28
    } else if s == seq!['T', 'X', 'T'] {
        16
    } else if s == seq!['R', 'P'] {
        17
    } else {
        0
    }
}

/// A decimal digit.
pub open spec fn is_digit(c: char) -> bool {
    48 <= (c as u32) && (c as u32) <= 57
}

/// The value of a string of decimal digits, most significant first.
pub open spec fn dec_val(s: Seq<char>) -> int
    decreases s.len(),
{
    if s.len() == 0 {
        0
    } else {
        dec_val(s.drop_last()) * 10 + ((s.last() as u32) - 48)
    }
}

/// A hexadecimal digit, either case.
pub open spec fn is_hex_digit(c: char) -> bool {
    ||| 48 <= (c as u32) && (c as u32) <= 57
    ||| 97 <= (c as u32) && (c as u32) <= 102
    ||| 65 <= (c as u32) && (c as u32) <= 70
}

/// The value of one hexadecimal digit.
pub open spec fn hex_digit_val(c: char) -> int {
    if 48 <= (c as u32) && (c as u32) <= 57 {
        (c as u32) - 48
    } else if 97 <= (c as u32) && (c as u32) <= 102 {
        (c as u32) - 87
    } else {
        (c as u32) - 55
    }
}

/// The value of a string of hexadecimal digits, most significant first.
pub open spec fn hex_val(s: Seq<char>) -> int
    decreases s.len(),
{
    if s.len() == 0 {
        0
    } else {
        hex_val(s.drop_last()) * 16 + hex_digit_val(s.last())
    }
}

/// One part of a dotted-quad address: 1-3 decimal digits, value at most 255.
pub open spec fn is_dec_octet(s: Seq<char>) -> bool {
    &&& 1 <= s.len() <= 3
    &&& (forall|i: int| 0 <= i < s.len() ==> is_digit(#[trigger] s[i]))
    &&& dec_val(s) <= 255
}

/// One group of an uncompressed address in hexadecimal form: 1-4 hex digits.
pub open spec fn is_hex_group(s: Seq<char>) -> bool {
    &&& 1 <= s.len() <= 4
    &&& (forall|i: int| 0 <= i < s.len() ==> is_hex_digit(#[trigger] s[i]))
}

/// `s` consists of exactly `parts` dot-separated decimal octets.
pub open spec fn ipv4_ok_rec(s: Seq<char>, parts: int) -> bool
    decreases s.len(),
    via ipv4_ok_rec_decreases
{
    let k = first_sep(s, '.');
    if parts <= 0 {
        false
    } else if k == s.len() {
        parts == 1 && is_dec_octet(s)
    } else {
        is_dec_octet(s.take(k)) && ipv4_ok_rec(s.skip(k + 1), parts - 1)
    }
}

#[via_fn]
proof fn ipv4_ok_rec_decreases(s: Seq<char>, parts: int) {
    lemma_first_sep(s, '.');
}

/// `s` is the textual form of a 4-octet address.
pub open spec fn is_ipv4(s: Seq<char>) -> bool {
    ipv4_ok_rec(s, 4)
}

/// The octets read off a dotted-quad string, one per part.
pub open spec fn ipv4_bytes(s: Seq<char>) -> Seq<u8>
    decreases s.len(),
    via ipv4_bytes_decreases
{
    let k = first_sep(s, '.');
    if k == s.len() {
        seq![dec_val(s) as u8]
    } else {
        seq![dec_val(s.take(k)) as u8] + ipv4_bytes(s.skip(k + 1))
    }
}

#[via_fn]
proof fn ipv4_bytes_decreases(s: Seq<char>) {
    lemma_first_sep(s, '.');
}

/// `s` consists of exactly `parts` colon-separated hexadecimal groups.
pub open spec fn ipv6_ok_rec(s: Seq<char>, parts: int) -> bool
    decreases s.len(),
    via ipv6_ok_rec_decreases
{
    let k = first_sep(s, ':');
    if parts <= 0 {
        false
    } else if k == s.len() {
        parts == 1 && is_hex_group(s)
    } else {
        is_hex_group(s.take(k)) && ipv6_ok_rec(s.skip(k + 1), parts - 1)
    }
}

#[via_fn]
proof fn ipv6_ok_rec_decreases(s: Seq<char>, parts: int) {
    lemma_first_sep(s, ':');
}

/// `s` is the textual form of a 16-octet address: 8 uncompressed groups.
pub open spec fn is_ipv6(s: Seq<char>) -> bool {
    ipv6_ok_rec(s, 8)
}

/// The octets read off a colon-grouped hexadecimal string, two per group,
/// big-endian within each group.
pub open spec fn ipv6_bytes(s: Seq<char>) -> Seq<u8>
    decreases s.len(),
    via ipv6_bytes_decreases
{
    let k = first_sep(s, ':');
    if k == s.len() {
        seq![(hex_val(s) / 256) as u8, (hex_val(s) % 256) as u8]
    } else {
        seq![(hex_val(s.take(k)) / 256) as u8, (hex_val(s.take(k)) % 256) as u8] + ipv6_bytes(
            s.skip(k + 1),
        )
    }
}

#[via_fn]
proof fn ipv6_bytes_decreases(s: Seq<char>) {
    lemma_first_sep(s, ':');
}

/// Text record data: at most 255 characters, each one octet wide.
pub open spec fn txt_ok(s: Seq<char>) -> bool {
    &&& s.len() <= 255
    &&& (forall|i: int| 0 <= i < s.len() ==> ((#[trigger] s[i]) as u32) < 256)
}

/// Length-prefixed text rdata: one length octet, then the character octets.
pub open spec fn txt_bytes(s: Seq<char>) -> Seq<u8> {
    seq![s.len() as u8] + Seq::new(s.len(), |i: int| s[i] as u8)
}

/// A zone entry this responder can serve: a well-formed name and record
/// data in the textual form its type tag demands.
pub open spec fn entry_wf(e: EntryV) -> bool {
    &&& valid_name(e.name)
    &&& e.name.len() <= 253
    &&& if e.r_type == seq!['A'] {
        is_ipv4(e.r_data)
    } else if e.r_type == seq!['A', 'A', 'A', 'A'] {
        is_ipv6(e.r_data)
    } else if e.r_type == seq!['T', 'X', 'T'] || e.r_type == seq!['R', 'P'] {
        txt_ok(e.r_data)
    } else {
        false
    }
}

/// The framed rdata octets of an entry: 4 address octets for A, 16 for
/// AAAA, length-prefixed text for TXT and RP.
pub open spec fn spec_rdata(e: EntryV) -> Seq<u8> {
    if e.r_type == seq!['A'] {
        ipv4_bytes(e.r_data)
    } else if e.r_type == seq!['A', 'A', 'A', 'A'] {
        ipv6_bytes(e.r_data)
    } else {
        txt_bytes(e.r_data)
    }
}

/// An entry answers a query when the names match ignoring ASCII case and
/// the numeric type matches exactly.
pub open spec fn entry_matches(e: EntryV, q_name: Seq<char>, q_type: u16) -> bool {
    lower_seq(e.name) == lower_seq(q_name) && spec_rtype_id(e.r_type) == q_type
}

/// First-match lookup over the ordered entry table.
pub open spec fn spec_lookup(entries: Seq<EntryV>, q_name: Seq<char>, q_type: u16) -> Option<
    EntryV,
>
    decreases entries.len(),
{
    if entries.len() == 0 {
        Option::None
    } else if entry_matches(entries[0], q_name, q_type) {
        Option::Some(entries[0])
    } else {
        spec_lookup(entries.skip(1), q_name, q_type)
    }
}

/// A string of decimal digits of bounded length has a bounded value.
proof fn lemma_dec_val_bound(s: Seq<char>)
    requires
        forall|i: int| 0 <= i < s.len() ==> is_digit(#[trigger] s[i]),
        s.len() <= 3,
    ensures
        0 <= dec_val(s),
        s.len() <= 1 ==> dec_val(s) <= 9,
        s.len() <= 2 ==> dec_val(s) <= 99,
        s.len() <= 3 ==> dec_val(s) <= 999,
    decreases s.len(),
{
    if s.len() > 0 {
        assert(forall|i: int|
            0 <= i < s.drop_last().len() ==> is_digit(#[trigger] s.drop_last()[i]));
        lemma_dec_val_bound(s.drop_last());
        assert(is_digit(s.last()));
    }
}

/// A string of hexadecimal digits of bounded length has a bounded value.
proof fn lemma_hex_val_bound(s: Seq<char>)
    requires
        forall|i: int| 0 <= i < s.len() ==> is_hex_digit(#[trigger] s[i]),
        s.len() <= 4,
    ensures
        0 <= hex_val(s),
        s.len() <= 1 ==> hex_val(s) <= 15,
        s.len() <= 2 ==> hex_val(s) <= 255,
        s.len() <= 3 ==> hex_val(s) <= 4095,
        s.len() <= 4 ==> hex_val(s) <= 65535,
    decreases s.len(),
{
    if s.len() > 0 {
        assert(forall|i: int|
            0 <= i < s.drop_last().len() ==> is_hex_digit(#[trigger] s.drop_last()[i]));
        lemma_hex_val_bound(s.drop_last());
        assert(is_hex_digit(s.last()));
    }
}

/// Valid dotted-quad text yields one octet per remaining part.
proof fn lemma_ipv4_bytes_len(s: Seq<char>, parts: int)
    requires
        ipv4_ok_rec(s, parts),
    ensures
        ipv4_bytes(s).len() == parts,
    decreases s.len(),
{
    lemma_first_sep(s, '.');
    let k = first_sep(s, '.');
    if k < s.len() {
        lemma_ipv4_bytes_len(s.skip(k + 1), parts - 1);
    }
}

/// Valid grouped hexadecimal text yields two octets per remaining part.
proof fn lemma_ipv6_bytes_len(s: Seq<char>, parts: int)
    requires
        ipv6_ok_rec(s, parts),
    ensures
        ipv6_bytes(s).len() == 2 * parts,
    decreases s.len(),
{
    lemma_first_sep(s, ':');
    let k = first_sep(s, ':');
    if k < s.len() {
        lemma_ipv6_bytes_len(s.skip(k + 1), parts - 1);
    }
}

/// The rdata of a well-formed entry fits its 16-bit length field: 4 octets
/// for A, 16 for AAAA, at most 256 for text types.
pub proof fn lemma_spec_rdata_len(e: EntryV)
    requires
        entry_wf(e),
    ensures
        e.r_type == seq!['A'] ==> spec_rdata(e).len() == 4,
        e.r_type == seq!['A', 'A', 'A', 'A'] ==> spec_rdata(e).len() == 16,
        spec_rdata(e).len() <= 256,
{
    assert(seq!['A'].len() == 1);
    assert(seq!['A', 'A', 'A', 'A'].len() == 4);
    if e.r_type == seq!['A'] {
        lemma_ipv4_bytes_len(e.r_data, 4);
    } else if e.r_type == seq!['A', 'A', 'A', 'A'] {
        lemma_ipv6_bytes_len(e.r_data, 8);
    }
}

/// ASCII lower-casing of one character.
fn lower_char_ex(c: char) -> (r: char)
    ensures
        r == lower_char(c),
{
    let v = c as u32;
    if 65 <= v && v <= 90 {
        ((v + 32) as u8) as char
    } else {
        c
    }
}

/// Compares two strings ignoring ASCII case.
#[verifier::loop_isolation(false)]
pub fn eq_fold(a: &str, b: &str) -> (r: bool)
    ensures
        r == (lower_seq(a@) == lower_seq(b@)),
{
    let la = a.unicode_len();
    let lb = b.unicode_len();
    if la != lb {
        proof {
            assert(lower_seq(a@).len() != lower_seq(b@).len());
        }
        return false;
    }
    let mut i: usize = 0;
    while i < la
        invariant
            i <= la,
            forall|t: int| 0 <= t < i ==> lower_char(a@[t]) == lower_char(b@[t]),
        decreases la - i,
    {
        let ca = lower_char_ex(a.get_char(i));
        let cb = lower_char_ex(b.get_char(i));
        if ca != cb {
            proof {
                assert(lower_seq(a@)[i as int] != lower_seq(b@)[i as int]);
            }
            return false;
        }
        i += 1;
    }
    proof {
        assert(lower_seq(a@) =~= lower_seq(b@));
    }
    true
}

/// The numeric record type of a textual tag, 0 for an unknown tag.
pub fn get_r_type_id(r_type: &str) -> (id: u16)
    ensures
        id == spec_rtype_id(r_type@),
{
    let n = r_type.unicode_len();
    if n == 1 && r_type.get_char(0) == 'A' {
        proof {
            assert(r_type@ =~= seq!['A']);
        }
        return 1;
    }
    if n == 4 && r_type.get_char(0) == 'A' && r_type.get_char(1) == 'A' && r_type.get_char(2)
        == 'A' && r_type.get_char(3) == 'A' {
        proof {
            assert(r_type@ =~= seq!['A', 'A', 'A', 'A']);
            assert(r_type@ != seq!['A']);
        }
        return 28;
    }
    if n == 3 && r_type.get_char(0) == 'T' && r_type.get_char(1) == 'X' && r_type.get_char(2)
        == 'T' {
        proof {
            assert(r_type@ =~= seq!['T', 'X', 'T']);
            assert(r_type@ != seq!['A']);
            assert(r_type@ != seq!['A', 'A', 'A', 'A']);
        }
        return 16;
    }
    if n == 2 && r_type.get_char(0) == 'R' && r_type.get_char(1) == 'P' {
        proof {
            assert(r_type@ =~= seq!['R', 'P']);
            assert(r_type@ != seq!['A']);
            assert(r_type@ != seq!['A', 'A', 'A', 'A']);
            assert(r_type@ != seq!['T', 'X', 'T']);
        }
        return 17;
    }
    proof {
        assert(r_type@ != seq!['A']) by {
            if r_type@ == seq!['A'] {
                assert(r_type@.len() == 1 && r_type@[0] == 'A');
            }
        }
        assert(r_type@ != seq!['A', 'A', 'A', 'A']) by {
            if r_type@ == seq!['A', 'A', 'A', 'A'] {
                assert(r_type@.len() == 4 && r_type@[0] == 'A' && r_type@[1] == 'A' && r_type@[2]
                    == 'A' && r_type@[3] == 'A');
            }
        }
        assert(r_type@ != seq!['T', 'X', 'T']) by {
            if r_type@ == seq!['T', 'X', 'T'] {
                assert(r_type@.len() == 3 && r_type@[0] == 'T' && r_type@[1] == 'X' && r_type@[2]
                    == 'T');
            }
        }
        assert(r_type@ != seq!['R', 'P']) by {
            if r_type@ == seq!['R', 'P'] {
                assert(r_type@.len() == 2 && r_type@[0] == 'R' && r_type@[1] == 'P');
            }
        }
    }
    0
}

/// Parses dotted-quad address text into its four octets.
#[verifier::loop_isolation(false)]
#[verifier::rlimit(50)]
pub fn ipv4_to_bytes(s: &str) -> (r: Option<Vec<u8>>)
    ensures
        match r {
            Some(v) => is_ipv4(s@) && v@ == ipv4_bytes(s@),
            None => !is_ipv4(s@),
        },
{
    let len = s.unicode_len();
    let mut out: Vec<u8> = Vec::new();
    let mut p: usize = 0;
    let mut parts: usize = 0;
    proof {
        assert(s@.skip(0) =~= s@);
    }
    loop
        invariant
            p <= len,
            parts <= 3,
            is_ipv4(s@) == ipv4_ok_rec(s@.skip(p as int), 4 - parts),
            ipv4_bytes(s@) == out@ + ipv4_bytes(s@.skip(p as int)),
        decreases len - p,
    {
        let ghost tail = s@.skip(p as int);
        let j = next_sep(s, p, '.');
        let ghost k = j - p;
        let ghost part = tail.take(k as int);
        proof {
            if k == tail.len() {
                assert(part =~= tail);
            }
        }
        if j == p || j - p > 3 {
            proof {
                assert(!is_dec_octet(part));
            }
            return None;
        }
        let mut t: usize = p;
        let mut acc: u32 = 0;
        while t < j
            invariant
                p <= t <= j,
                acc == dec_val(part.take(t - p)),
                0 <= acc <= 999,
                forall|q: int| 0 <= q < t - p ==> is_digit(#[trigger] part[q]),
            decreases j - t,
        {
            let c = s.get_char(t);
            let v = c as u32;
            proof {
                assert(part[t - p] == s@[t as int]);
            }
            if v < 48 || v > 57 {
                proof {
                    assert(!is_dec_octet(part));
                }
                return None;
            }
            proof {
                assert(part.take(t - p + 1).drop_last() =~= part.take(t - p));
                assert(part.take(t - p + 1).last() == part[t - p]);
                lemma_dec_val_bound(part.take(t - p + 1));
            }
            acc = acc * 10 + (v - 48);
            t += 1;
        }
        proof {
            assert(part.take(j - p) =~= part);
        }
        if acc > 255 {
            proof {
                assert(!is_dec_octet(part));
            }
            return None;
        }
        proof {
            assert(is_dec_octet(part));
        }
        out.push(acc as u8);
        if j >= len {
            if parts == 3 {
                proof {
                    assert(k == tail.len());
                    assert(ipv4_ok_rec(tail, 1));
                    assert(ipv4_bytes(tail) =~= seq![dec_val(tail) as u8]);
                    assert(out@ =~= ipv4_bytes(s@));
                }
                return Some(out);
            } else {
                proof {
                    assert(k == tail.len());
                    assert(!ipv4_ok_rec(tail, 4 - parts as int));
                }
                return None;
            }
        }
        if parts == 3 {
            proof {
                assert(k < tail.len());
                assert(!ipv4_ok_rec(tail.skip(k + 1), 0));
                assert(!ipv4_ok_rec(tail, 1));
            }
            return None;
        }
        proof {
            assert(k < tail.len());
            assert(tail.skip(k + 1) =~= s@.skip(j + 1 as int));
            assert(ipv4_bytes(tail) == seq![dec_val(part) as u8] + ipv4_bytes(tail.skip(k + 1)));
            assert(ipv4_bytes(s@) =~= out@ + ipv4_bytes(s@.skip(j + 1 as int)));
        }
        p = j + 1;
        parts += 1;
    }
}

/// Parses uncompressed colon-grouped hexadecimal address text into its
/// sixteen octets.
#[verifier::loop_isolation(false)]
#[verifier::rlimit(50)]
pub fn ipv6_to_bytes(s: &str) -> (r: Option<Vec<u8>>)
    ensures
        match r {
            Some(v) => is_ipv6(s@) && v@ == ipv6_bytes(s@),
            None => !is_ipv6(s@),
        },
{
    let len = s.unicode_len();
    let mut out: Vec<u8> = Vec::new();
    let mut p: usize = 0;
    let mut parts: usize = 0;
    proof {
        assert(s@.skip(0) =~= s@);
    }
    loop
        invariant
            p <= len,
            parts <= 7,
            is_ipv6(s@) == ipv6_ok_rec(s@.skip(p as int), 8 - parts),
            ipv6_bytes(s@) == out@ + ipv6_bytes(s@.skip(p as int)),
        decreases len - p,
    {
        let ghost tail = s@.skip(p as int);
        let j = next_sep(s, p, ':');
        let ghost k = j - p;
        let ghost part = tail.take(k as int);
        proof {
            if k == tail.len() {
                assert(part =~= tail);
            }
        }
        if j == p || j - p > 4 {
            proof {
                assert(!is_hex_group(part));
            }
            return None;
        }
        let mut t: usize = p;
        let mut acc: u32 = 0;
        while t < j
            invariant
                p <= t <= j,
                acc == hex_val(part.take(t - p)),
                0 <= acc <= 65535,
                forall|q: int| 0 <= q < t - p ==> is_hex_digit(#[trigger] part[q]),
            decreases j - t,
        {
            let c = s.get_char(t);
            let v = c as u32;
            proof {
                assert(part[t - p] == s@[t as int]);
            }
            let d: u32 = if 48 <= v && v <= 57 {
                v - 48
            } else if 97 <= v && v <= 102 {
                v - 87
            } else if 65 <= v && v <= 70 {
                v - 55
            } else {
                proof {
                    assert(!is_hex_group(part));
                }
                return None;
            };
            proof {
                assert(part.take(t - p + 1).drop_last() =~= part.take(t - p));
                assert(part.take(t - p + 1).last() == part[t - p]);
                lemma_hex_val_bound(part.take(t - p + 1));
            }
            acc = acc * 16 + d;
            t += 1;
        }
        proof {
            assert(part.take(j - p) =~= part);
            assert(is_hex_group(part));
        }
        out.push((acc / 256) as u8);
        out.push((acc % 256) as u8);
        if j >= len {
            if parts == 7 {
                proof {
                    assert(k == tail.len());
                    assert(ipv6_ok_rec(tail, 1));
                    assert(ipv6_bytes(tail) =~= seq![
                        (hex_val(tail) / 256) as u8,
                        (hex_val(tail) % 256) as u8,
                    ]);
                    assert(out@ =~= ipv6_bytes(s@));
                }
                return Some(out);
            } else {
                proof {
                    assert(k == tail.len());
                    assert(!ipv6_ok_rec(tail, 8 - parts as int));
                }
                return None;
            }
        }
        if parts == 7 {
            proof {
                assert(k < tail.len());
                assert(!ipv6_ok_rec(tail.skip(k + 1), 0));
                assert(!ipv6_ok_rec(tail, 1));
            }
            return None;
        }
        proof {
            assert(k < tail.len());
            assert(tail.skip(k + 1) =~= s@.skip(j + 1 as int));
            assert(ipv6_bytes(tail) == seq![
                (hex_val(part) / 256) as u8,
                (hex_val(part) % 256) as u8,
            ] + ipv6_bytes(tail.skip(k + 1)));
            assert(ipv6_bytes(s@) =~= out@ + ipv6_bytes(s@.skip(j + 1 as int)));
        }
        p = j + 1;
        parts += 1;
    }
}

/// Frames text record data: a length octet, then the character octets.
#[verifier::loop_isolation(false)]
pub fn txt_to_bytes(s: &str) -> (r: Option<Vec<u8>>)
    ensures
        match r {
            Some(v) => txt_ok(s@) && v@ == txt_bytes(s@),
            None => !txt_ok(s@),
        },
{
    let len = s.unicode_len();
    if len > 255 {
        return None;
    }
    let mut out: Vec<u8> = Vec::new();
    out.push(len as u8);
    let mut i: usize = 0;
    while i < len
        invariant
            i <= len,
            out@ == seq![s@.len() as u8] + Seq::new(i as nat, |q: int| s@[q] as u8),
            forall|q: int| 0 <= q < i ==> ((#[trigger] s@[q]) as u32) < 256,
        decreases len - i,
    {
        let c = s.get_char(i);
        if !((c as u32) < 256) {
            return None;
        }
        out.push(c as u8);
        i += 1;
        proof {
            assert(out@ =~= seq![s@.len() as u8] + Seq::new(i as nat, |q: int| s@[q] as u8));
        }
    }
    proof {
        assert(out@ =~= txt_bytes(s@));
    }
    Some(out)
}

impl DNSEntry {
    /// An owned copy of this entry.
    pub fn duplicate(&self) -> (r: DNSEntry)
        ensures
            r@ == self@,
    {
        DNSEntry {
            name: self.name.clone(),
            r_type: self.r_type.clone(),
            r_data: self.r_data.clone(),
        }
    }
}

/// Decides `entry_wf`: whether this responder can serve the entry.
pub fn entry_is_valid(e: &DNSEntry) -> (r: bool)
    ensures
        r == entry_wf(e@),
{
    if !name_is_ok(e.name.as_str()) {
        return false;
    }
    if e.name.as_str().unicode_len() == 0 {
        return false;
    }
    let tid = get_r_type_id(e.r_type.as_str());
    if tid == 1 {
        ipv4_to_bytes(e.r_data.as_str()).is_some()
    } else if tid == 28 {
        ipv6_to_bytes(e.r_data.as_str()).is_some()
    } else if tid == 16 || tid == 17 {
        txt_to_bytes(e.r_data.as_str()).is_some()
    } else {
        false
    }
}

impl DNSResponse {
    /// Builds the answer record for a matched entry: type mapped from the
    /// tag, class 1, a 60-second TTL, and rdata framed per type with its
    /// exact byte length.
    pub fn new(entry: &DNSEntry) -> (r: DNSResponse)
        requires
            entry_wf(entry@),
        ensures
            r@.name == entry@.name,
            r.r_type == spec_rtype_id(entry@.r_type),
            r.r_class == 1,
            r.ttl == 60,
            r@.r_data == spec_rdata(entry@),
            r.rd_length == spec_rdata(entry@).len(),
            r@.wf(),
    {
        let tid = get_r_type_id(entry.r_type.as_str());
        let data_opt = if tid == 1 {
            ipv4_to_bytes(entry.r_data.as_str())
        } else if tid == 28 {
            ipv6_to_bytes(entry.r_data.as_str())
        } else {
            txt_to_bytes(entry.r_data.as_str())
        };
        proof {
            lemma_spec_rdata_len(entry@);
        }
        let r_data = match data_opt {
            Some(v) => v,
            None => {
                proof {
                    assert(false);
                }
                Vec::new()
            },
        };
        let rd_length = r_data.len() as u16;
        DNSResponse {
            name: entry.name.clone(),
            r_type: tid,
            r_class: 1,
            ttl: 60,
            rd_length,
            r_data,
        }
    }
}

impl DNSEntryList {
    /// Every held entry is one this responder can serve.
    pub open spec fn wf(&self) -> bool {
        forall|i: int| 0 <= i < self@.len() ==> entry_wf(#[trigger] self@[i])
    }

    /// Builds the zone table, validating every entry; rejects a table with
    /// any entry the responder could not serve.
    #[verifier::loop_isolation(false)]
    pub fn new(records: Vec<DNSEntry>) -> (r: Option<DNSEntryList>)
        ensures
            match r {
                Some(z) => {
                    &&& z@ == records@.map_values(|e: DNSEntry| e@)
                    &&& z.wf()
                },
                None => exists|i: int|
                    0 <= i < records@.len() && !entry_wf((#[trigger] records@[i])@),
            },
    {
        let n = records.len();
        let mut i: usize = 0;
        while i < n
            invariant
                i <= n,
                forall|t: int| 0 <= t < i ==> entry_wf((#[trigger] records@[t])@),
            decreases n - i,
        {
            if !entry_is_valid(&records[i]) {
                proof {
                    assert(records@.map_values(|e: DNSEntry| e@)[i as int] == records@[i as int]@);
                }
                return None;
            }
            i += 1;
        }
        Some(DNSEntryList { records })
    }

    /// First-match lookup: the earliest entry whose name equals `q_name`
    /// ignoring ASCII case and whose type tag maps to `q_type`.
    #[verifier::loop_isolation(false)]
    pub fn lookup(&self, q_name: &str, q_type: u16) -> (r: Option<DNSEntry>)
        ensures
            match r {
                Some(e) => spec_lookup(self@, q_name@, q_type) == Option::Some(e@),
                None => spec_lookup(self@, q_name@, q_type) is None,
            },
    {
        let n = self.records.len();
        let mut i: usize = 0;
        proof {
            assert(self@.skip(0) =~= self@);
        }
        while i < n
            invariant
                i <= n,
                spec_lookup(self@, q_name@, q_type) == spec_lookup(
                    self@.skip(i as int),
                    q_name@,
                    q_type,
                ),
            decreases n - i,
        {
            let e = &self.records[i];
            let names_match = eq_fold(e.name.as_str(), q_name);
            let tid = get_r_type_id(e.r_type.as_str());
            proof {
                assert(self@.skip(i as int)[0] == self@[i as int]);
                assert(self@[i as int] == self.records@[i as int]@);
            }
            if names_match && tid == q_type {
                proof {
                    assert(entry_matches(self@[i as int], q_name@, q_type));
                }
                return Some(e.duplicate());
            }
            proof {
                assert(!entry_matches(self@[i as int], q_name@, q_type));
                assert(self@.skip(i as int).skip(1) =~= self@.skip(i + 1 as int));
            }
            i += 1;
        }
        proof {
            assert(self@.skip(n as int).len() == 0);
        }
        None
    }
}

} // verus!
