//! Domain names on the wire: a name is a sequence of labels, each sent as a
//! length octet (1..=63) followed by that many octets, ended by a zero octet.
//! In memory a name is a `String` whose labels are joined by `'.'`.
//!
//! This module holds the spec-level model of that correspondence, the
//! executable parser and encoder, and the lemmas that tie them together.

use vstd::prelude::*;
use vstd::string::StrSliceExecFns;

use crate::types::CodecError;

verus! {

/// Index of the first occurrence of `sep` in `s`, or `s.len()` if there is
/// none.
pub open spec fn first_sep(s: Seq<char>, sep: char) -> int
    decreases s.len(),
{
    if s.len() == 0 {
        0
    } else if s[0] == sep {
        0
    } else {
        1 + first_sep(s.skip(1), sep)
    }
}

/// Index of the first `'.'` in `s`, or `s.len()` if there is none.
pub open spec fn first_dot(s: Seq<char>) -> int {
    first_sep(s, '.')
}

/// `first_sep` is a position in `s` (or its length), nothing before it is
/// the separator, and the character there (if any) is it.
pub proof fn lemma_first_sep(s: Seq<char>, sep: char)
    ensures
        0 <= first_sep(s, sep) <= s.len(),
        forall|i: int| 0 <= i < first_sep(s, sep) ==> s[i] != sep,
        first_sep(s, sep) < s.len() ==> s[first_sep(s, sep)] == sep,
    decreases s.len(),
{
    if s.len() == 0 {
    } else if s[0] == sep {
    } else {
        lemma_first_sep(s.skip(1), sep);
        assert forall|i: int| 0 <= i < first_sep(s, sep) implies s[i] != sep by {
            if i > 0 {
                assert(s.skip(1)[i - 1] == s[i]);
            }
        }
        if first_sep(s, sep) < s.len() {
            assert(s.skip(1)[first_sep(s, sep) - 1] == s[first_sep(s, sep)]);
        }
    }
}

/// `first_sep` is the only position with its defining properties.
pub proof fn lemma_first_sep_at(s: Seq<char>, sep: char, j: int)
    requires
        0 <= j <= s.len(),
        forall|i: int| 0 <= i < j ==> s[i] != sep,
        j < s.len() ==> s[j] == sep,
    ensures
        first_sep(s, sep) == j,
{
    lemma_first_sep(s, sep);
    let k = first_sep(s, sep);
    if k < j {
        assert(s[k] != sep);
    } else if j < k {
        assert(s[j] != sep);
    }
}

/// Scans forward from `p` to the next occurrence of `sep` (or the end), and
/// names the position as `first_sep` of the tail.
#[verifier::loop_isolation(false)]
pub fn next_sep(s: &str, p: usize, sep: char) -> (j: usize)
    requires
        p <= s@.len(),
    ensures
        p <= j <= s@.len(),
        first_sep(s@.skip(p as int), sep) == j - p,
        j < s@.len() ==> s@[j as int] == sep,
        forall|t: int| p <= t < j ==> s@[t] != sep,
{
    let len = s.unicode_len();
    let mut j: usize = p;
    loop
        invariant
            p <= j <= len,
            forall|t: int| p <= t < j ==> s@[t] != sep,
        decreases len - j,
    {
        let ghost tail = s@.skip(p as int);
        if j >= len {
            proof {
                assert forall|t: int| 0 <= t < j - p implies tail[t] != sep by {
                    assert(tail[t] == s@[p + t]);
                }
                lemma_first_sep_at(tail, sep, j - p);
            }
            return j;
        }
        let c = s.get_char(j);
        if c == sep {
            proof {
                assert forall|t: int| 0 <= t < j - p implies tail[t] != sep by {
                    assert(tail[t] == s@[p + t]);
                }
                assert(tail[j - p] == s@[j as int]);
                lemma_first_sep_at(tail, sep, j - p);
            }
            return j;
        }
        j += 1;
    }
}

/// A character a label may carry: one octet on the wire, and not the
/// separator.
pub open spec fn label_char_ok(c: char) -> bool {
    c != '.' && (c as u32) < 256
}

/// `s` is a well-formed dotted name: one or more labels joined by single
/// dots, each label 1..=63 characters, every character one octet wide.
pub open spec fn valid_name(s: Seq<char>) -> bool
    decreases s.len(),
{
    let k = first_dot(s);
    &&& 1 <= k <= 63
    &&& (forall|i: int| 0 <= i < k ==> label_char_ok(#[trigger] s[i]))
    &&& (k < s.len() ==> valid_name(s.skip(k + 1)))
}

/// A name this codec can re-emit: empty (the root), or a well-formed dotted
/// name of at most 253 characters (255 octets once encoded).
pub open spec fn name_ok(s: Seq<char>) -> bool {
    s.len() == 0 || (valid_name(s) && s.len() <= 253)
}

/// `first_dot` is a position in `s` (or its length), nothing before it is a
/// dot, and the character there (if any) is one.
pub proof fn lemma_first_dot(s: Seq<char>)
    ensures
        0 <= first_dot(s) <= s.len(),
        forall|i: int| 0 <= i < first_dot(s) ==> s[i] != '.',
        first_dot(s) < s.len() ==> s[first_dot(s)] == '.',
{
    lemma_first_sep(s, '.');
}

/// The wire form of a dotted name: each label length-prefixed, then a zero
/// terminator.
pub open spec fn wire_name(s: Seq<char>) -> Seq<u8>
    decreases s.len(),
    via wire_name_decreases
{
    if s.len() == 0 {
        seq![0u8]
    } else {
        let k = first_dot(s);
        seq![k as u8] + Seq::new(k as nat, |i: int| s[i] as u8) + (
        if k == s.len() {
            seq![0u8]
        } else {
            wire_name(s.skip(k + 1))
        })
    }
}

#[via_fn]
proof fn wire_name_decreases(s: Seq<char>) {
    lemma_first_dot(s);
}

/// Structural parse of a label sequence starting at `i`: the dotted name and
/// the index just past the zero terminator, or the error the wire data
/// forces. No overall length limit is applied here.
pub open spec fn spec_parse_labels(b: Seq<u8>, i: int) -> Result<(Seq<char>, int), CodecError>
    decreases b.len() - i,
{
    if !(0 <= i < b.len()) {
        Err(CodecError::Truncated)
    } else if b[i] == 0 {
        Ok((Seq::empty(), i + 1))
    } else if b[i] > 63 {
        Err(CodecError::InvalidLabelLength)
    } else if i + 1 + b[i] > b.len() {
        Err(CodecError::Truncated)
    } else {
        let label = Seq::new(b[i] as nat, |k: int| b[i + 1 + k] as char);
        match spec_parse_labels(b, i + 1 + b[i]) {
            Err(e) => Err(e),
            Ok((rest, j)) => Ok(
                (if rest.len() == 0 {
                    label
                } else {
                    label + seq!['.'] + rest
                }, j),
            ),
        }
    }
}

/// Full parse of a name starting at `i`: the structural parse, then the
/// 253-character ceiling.
pub open spec fn spec_parse_name(b: Seq<u8>, i: int) -> Result<(Seq<char>, int), CodecError> {
    match spec_parse_labels(b, i) {
        Err(e) => Err(e),
        Ok((n, j)) => if n.len() > 253 {
            Err(CodecError::NameTooLong)
        } else {
            Ok((n, j))
        },
    }
}

/// Joining an already-parsed prefix of a name with the rest of the name.
pub open spec fn join_name(acc: Seq<char>, rest: Seq<char>) -> Seq<char> {
    if acc.len() == 0 {
        rest
    } else if rest.len() == 0 {
        acc
    } else {
        acc + seq!['.'] + rest
    }
}

/// Lifts `join_name` over a parse outcome.
pub open spec fn lift_parse(acc: Seq<char>, r: Result<(Seq<char>, int), CodecError>) -> Result<
    (Seq<char>, int),
    CodecError,
> {
    match r {
        Err(e) => Err(e),
        Ok((rest, j)) => Ok((join_name(acc, rest), j)),
    }
}

/// Absorbing one more label into the accumulated prefix commutes with
/// joining in the remainder.
proof fn lemma_join_step(acc: Seq<char>, label: Seq<char>, rest: Seq<char>)
    requires
        label.len() > 0,
    ensures
        join_name(
            acc,
            if rest.len() == 0 {
                label
            } else {
                label + seq!['.'] + rest
            },
        ) == join_name(
            if acc.len() == 0 {
                label
            } else {
                acc + seq!['.'] + label
            },
            rest,
        ),
{
    if acc.len() == 0 {
    } else if rest.len() == 0 {
    } else {
        assert(acc + seq!['.'] + (label + seq!['.'] + rest) =~= (acc + seq!['.'] + label)
            + seq!['.'] + rest);
    }
}

/// A character that fits in one octet survives the trip through `u8`.
pub proof fn lemma_char_byte_char(c: char)
    requires
        (c as u32) < 256,
    ensures
        (c as u8) as u32 == c as u32,
        ((c as u8) as char) == c,
{
    broadcast use vstd::utf8::char_u32_cast;

    assert((c as u8) as char == ((c as u8) as u32) as char);
}

/// Parsing the wire form of a well-formed name out of any buffer that holds
/// it gives back exactly that name.
pub proof fn lemma_parse_wire_name(b: Seq<u8>, i: int, s: Seq<char>)
    requires
        s.len() == 0 || valid_name(s),
        0 <= i,
        i + wire_name(s).len() <= b.len(),
        b.subrange(i, i + wire_name(s).len() as int) == wire_name(s),
    ensures
        spec_parse_labels(b, i) == Ok::<(Seq<char>, int), CodecError>(
            (s, i + wire_name(s).len()),
        ),
    decreases s.len(),
{
    broadcast use vstd::utf8::char_u32_cast;

    let w = wire_name(s);
    if s.len() == 0 {
        assert(b[i] == w[0]);
        assert(s =~= Seq::<char>::empty());
    } else {
        lemma_first_dot(s);
        let k = first_dot(s);
        assert(b[i] == w[0]);
        assert(w[0] == k as u8);
        assert(1 <= b[i] <= 63);
        let label = Seq::new(b[i] as nat, |t: int| b[i + 1 + t] as char);
        assert forall|t: int| 0 <= t < k implies label[t] == s[t] by {
            assert(b[i + 1 + t] == w[1 + t]);
            assert(w[1 + t] == s[t] as u8);
            assert(label_char_ok(s[t]));
            lemma_char_byte_char(s[t]);
        }
        if k == s.len() {
            assert(w.len() == k + 2);
            assert(b[i + 1 + k] == w[1 + k]);
            assert(w[1 + k] == 0u8);
            assert(spec_parse_labels(b, i + 1 + k) == Ok::<(Seq<char>, int), CodecError>(
                (Seq::<char>::empty(), i + k + 2),
            ));
            assert(label =~= s);
        } else {
            let s2 = s.skip(k + 1);
            let w2 = wire_name(s2);
            assert(w =~= seq![k as u8] + Seq::new(k as nat, |t: int| s[t] as u8) + w2);
            assert(w.len() == 1 + k + w2.len());
            assert(b.subrange(i + 1 + k, i + w.len() as int) =~= w2) by {
                assert forall|t: int| 0 <= t < w2.len() implies b.subrange(
                    i + 1 + k,
                    i + w.len() as int,
                )[t] == w2[t] by {
                    assert(b[i + 1 + k + t] == w[1 + k + t]);
                }
            }
            lemma_parse_wire_name(b, i + 1 + k, s2);
            reveal_with_fuel(valid_name, 2);
            assert(s2.len() > 0);
            assert(label + seq!['.'] + s2 =~= s);
        }
    }
}

/// Round trip for names: any re-emittable dotted name — up to 127 labels of
/// 1 to 63 octets each, at most 255 octets encoded — is recovered exactly,
/// by the full parse, from its own wire form wherever it sits in a buffer.
pub proof fn lemma_name_roundtrip(b: Seq<u8>, i: int, s: Seq<char>)
    requires
        name_ok(s),
        0 <= i,
        i + wire_name(s).len() <= b.len(),
        b.subrange(i, i + wire_name(s).len() as int) == wire_name(s),
    ensures
        spec_parse_name(b, i) == Ok::<(Seq<char>, int), CodecError>(
            (s, i + wire_name(s).len()),
        ),
{
    lemma_parse_wire_name(b, i, s);
}

/// The encoded width of a well-formed name: its character count plus the
/// leading length octet and the terminator.
pub proof fn lemma_wire_name_len(s: Seq<char>)
    requires
        s.len() == 0 || valid_name(s),
    ensures
        s.len() == 0 ==> wire_name(s).len() == 1,
        s.len() > 0 ==> wire_name(s).len() == s.len() + 2,
    decreases s.len(),
{
    if s.len() > 0 {
        lemma_first_dot(s);
        let k = first_dot(s);
        if k < s.len() {
            lemma_wire_name_len(s.skip(k + 1));
            reveal_with_fuel(valid_name, 2);
            assert(s.skip(k + 1).len() > 0);
            assert(wire_name(s).len() == 1 + k + wire_name(s.skip(k + 1)).len());
        } else {
            assert(wire_name(s).len() == 1 + k + 1);
        }
    }
}

/// Relies on `String: FromIterator<char>`: collecting characters yields the
/// string of exactly those characters in order.
#[verifier::external_body]
fn chars_to_string(v: Vec<char>) -> (r: String)
    ensures
        r@ == v@,
{
    v.into_iter().collect()
}

/// Parses one wire-format name out of `buffer` starting at `start`, as
/// `spec_parse_name` describes: the dotted name and the index just past the
/// zero terminator, or the error the wire data forces.
#[verifier::loop_isolation(false)]
pub fn parse_q_name(buffer: &[u8], start: usize) -> (r: Result<(String, usize), CodecError>)
    ensures
        match r {
            Ok(p) => {
                &&& spec_parse_name(buffer@, start as int) == Ok::<(Seq<char>, int), CodecError>(
                    (p.0@, p.1 as int),
                )
                &&& start < p.1 <= buffer@.len()
            },
            Err(e) => spec_parse_name(buffer@, start as int) == Err::<(Seq<char>, int), CodecError>(
                e,
            ),
        },
{
    let ghost b = buffer@;
    let mut i: usize = start;
    let mut acc: Vec<char> = Vec::new();
    loop
        invariant
            start <= i <= b.len() || i == start,
            buffer@ == b,
            spec_parse_labels(b, start as int) == lift_parse(
                acc@,
                spec_parse_labels(b, i as int),
            ),
        decreases b.len() - i,
    {
        if i >= buffer.len() {
            return Err(CodecError::Truncated);
        }
        let n = buffer[i];
        if n == 0 {
            let end = i + 1;
            proof {
                assert(spec_parse_labels(b, i as int) == Ok::<(Seq<char>, int), CodecError>(
                    (Seq::<char>::empty(), i + 1),
                ));
                assert(join_name(acc@, Seq::<char>::empty()) == acc@);
            }
            if acc.len() > 253 {
                return Err(CodecError::NameTooLong);
            }
            let name = chars_to_string(acc);
            return Ok((name, end));
        }
        if n > 63 {
            return Err(CodecError::InvalidLabelLength);
        }
        if (n as usize) > buffer.len() - 1 - i {
            return Err(CodecError::Truncated);
        }
        let ghost acc0 = acc@;
        if acc.len() > 0 {
            acc.push('.');
        }
        let ghost acc1 = acc@;
        let ghost label = Seq::new(n as nat, |q: int| b[i + 1 + q] as char);
        let mut t: usize = 0;
        while t < n as usize
            invariant
                t <= n as usize,
                buffer@ == b,
                i + 1 + (n as usize) <= b.len(),
                label == Seq::new(n as nat, |q: int| b[i + 1 + q] as char),
                acc@ == acc1 + label.take(t as int),
            decreases n as usize - t,
        {
            acc.push(buffer[i + 1 + t] as char);
            t += 1;
            proof {
                assert(acc@ =~= acc1 + label.take(t as int));
            }
        }
        proof {
            assert(acc@ =~= acc1 + label);
            if acc0.len() == 0 {
                assert(acc@ =~= label);
            } else {
                assert(acc@ =~= acc0 + seq!['.'] + label);
            }
            let inext = i + 1 + n as usize;
            assert(spec_parse_labels(b, i as int) == (match spec_parse_labels(b, inext as int) {
                Err(e) => Err::<(Seq<char>, int), CodecError>(e),
                Ok((rest, j)) => Ok(
                    (if rest.len() == 0 {
                        label
                    } else {
                        label + seq!['.'] + rest
                    }, j),
                ),
            }));
            if spec_parse_labels(b, inext as int) is Ok {
                let (rest, j) = spec_parse_labels(b, inext as int)->Ok_0;
                lemma_join_step(acc0, label, rest);
            }
        }
        i = i + 1 + n as usize;
    }
}

/// Scans forward from `p` to the next `'.'` (or the end), and names the
/// position as `first_dot` of the tail.
fn next_dot(s: &str, p: usize) -> (j: usize)
    requires
        p <= s@.len(),
    ensures
        p <= j <= s@.len(),
        first_dot(s@.skip(p as int)) == j - p,
        j < s@.len() ==> s@[j as int] == '.',
        forall|t: int| p <= t < j ==> s@[t] != '.',
{
    next_sep(s, p, '.')
}

/// Decides `name_ok`: whether this codec can re-emit `s` as a wire name.
#[verifier::loop_isolation(false)]
pub fn name_is_ok(s: &str) -> (r: bool)
    ensures
        r == name_ok(s@),
{
    let len = s.unicode_len();
    if len == 0 {
        return true;
    }
    if len > 253 {
        return false;
    }
    proof {
        assert(s@.skip(0) =~= s@);
    }
    let mut p: usize = 0;
    loop
        invariant
            p < len,
            len == s@.len(),
            0 < len <= 253,
            valid_name(s@) <==> valid_name(s@.skip(p as int)),
        decreases len - p,
    {
        let ghost tail = s@.skip(p as int);
        let j = next_dot(s, p);
        let k = j - p;
        if k == 0 || k > 63 {
            return false;
        }
        let mut t: usize = p;
        while t < j
            invariant
                p <= t <= j,
                j <= len,
                len == s@.len(),
                forall|q: int| p <= q < t ==> (s@[q] as u32) < 256,
            decreases j - t,
        {
            let c = s.get_char(t);
            if !((c as u32) < 256) {
                proof {
                    assert(tail[t - p] == s@[t as int]);
                    assert(!label_char_ok(s@[t as int]));
                    assert(!valid_name(tail));
                }
                return false;
            }
            t += 1;
        }
        proof {
            assert forall|q: int| 0 <= q < k implies label_char_ok(#[trigger] tail[q]) by {
                assert(tail[q] == s@[p + q]);
            }
        }
        if j == len {
            proof {
                assert(valid_name(tail));
            }
            return true;
        }
        if j + 1 == len {
            proof {
                reveal_with_fuel(valid_name, 2);
                assert(tail.skip(k + 1) =~= s@.skip(j + 1 as int));
                assert(s@.skip(j + 1 as int).len() == 0);
                assert(!valid_name(tail));
            }
            return false;
        }
        proof {
            assert(tail.skip(k + 1) =~= s@.skip(j + 1 as int));
            assert(valid_name(tail) <==> valid_name(s@.skip(j + 1 as int)));
        }
        p = j + 1;
    }
}

/// Appends the wire form of a well-formed dotted name to `out`.
#[verifier::loop_isolation(false)]
pub fn encode_name(s: &str, out: &mut Vec<u8>)
    requires
        name_ok(s@),
    ensures
        final(out)@ == old(out)@ + wire_name(s@),
{
    let len = s.unicode_len();
    if len == 0 {
        out.push(0u8);
        proof {
            assert(out@ =~= old(out)@ + wire_name(s@));
        }
        return ;
    }
    proof {
        assert(s@.skip(0) =~= s@);
    }
    let mut p: usize = 0;
    loop
        invariant
            p < len,
            len == s@.len(),
            valid_name(s@.skip(p as int)),
            old(out)@ + wire_name(s@) == out@ + wire_name(s@.skip(p as int)),
        decreases len - p,
    {
        let ghost tail = s@.skip(p as int);
        let ghost out0 = out@;
        let j = next_dot(s, p);
        let k = j - p;
        proof {
            assert(1 <= first_dot(tail) <= 63);
        }
        out.push(k as u8);
        let ghost out1 = out@;
        let mut t: usize = p;
        while t < j
            invariant
                p <= t <= j,
                j <= len,
                len == s@.len(),
                j - p <= 63,
                out@ == out1 + Seq::new((t - p) as nat, |q: int| s@[p + q] as u8),
            decreases j - t,
        {
            let c = s.get_char(t);
            out.push(c as u8);
            t += 1;
            proof {
                assert(out@ =~= out1 + Seq::new((t - p) as nat, |q: int| s@[p + q] as u8));
            }
        }
        proof {
            assert(Seq::new(k as nat, |q: int| s@[p + q] as u8) =~= Seq::new(
                first_dot(tail) as nat,
                |q: int| tail[q] as u8,
            ));
        }
        if j == len {
            out.push(0u8);
            proof {
                assert(wire_name(tail) == seq![k as u8] + Seq::new(
                    first_dot(tail) as nat,
                    |q: int| tail[q] as u8,
                ) + seq![0u8]);
                assert(out@ =~= out0 + wire_name(tail));
                assert(old(out)@ + wire_name(s@) =~= out@);
            }
            return ;
        }
        if j + 1 == len {
            proof {
                reveal_with_fuel(valid_name, 2);
                assert(tail.skip(k + 1) =~= s@.skip(j + 1 as int));
                assert(false);
            }
        }
        proof {
            assert(tail.skip(k + 1) =~= s@.skip(j + 1 as int));
            assert(wire_name(tail) == seq![k as u8] + Seq::new(
                first_dot(tail) as nat,
                |q: int| tail[q] as u8,
            ) + wire_name(s@.skip(j + 1 as int)));
            assert(old(out)@ + wire_name(s@) =~= out@ + wire_name(s@.skip(j + 1 as int)));
        }
        p = j + 1;
    }
}

} // verus!

