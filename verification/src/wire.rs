//! The RESP wire grammar, as specification functions.
//!
//! [`rencode`] maps a value to its wire bytes; [`rdecode`] maps wire bytes
//! back to a value or to the exact [`Error`] kind. The executable encoder
//! ([`crate::ser`]) and decoder ([`crate::de`]) are proved equal to these
//! functions, and [`lemma_round_trip`] proves that decoding inverts encoding
//! on every well-formed value.

use crate::error::Error;
use crate::SpecResp;
use vstd::prelude::*;
use vstd::utf8::{decode_utf8, encode_utf8, valid_utf8};

verus! {

/// Carriage return, the first byte of the line terminator.
pub const CR: u8 = 13;

/// Line feed, the second byte of the line terminator.
pub const LF: u8 = 10;

/// Wire tag of a simple string, `+`.
pub const TAG_SIMPLE: u8 = 43;

/// Wire tag of an error string, `-`.
pub const TAG_ERROR: u8 = 45;

/// Wire tag of an integer, `:`.
pub const TAG_INTEGER: u8 = 58;

/// Wire tag of a bulk string, `$`.
pub const TAG_BULK: u8 = 36;

/// Wire tag of an array, `*`.
pub const TAG_ARRAY: u8 = 42;

/// The two-byte line terminator CR LF.
pub open spec fn crlf() -> Seq<u8> {
    seq![CR, LF]
}

/// True when the terminator sequence occurs somewhere inside `s`.
pub open spec fn contains_crlf(s: Seq<u8>) -> bool {
    exists|i: int| 0 <= i && i + 1 < s.len() && s[i] == CR && #[trigger] s[i + 1] == LF
}

/// Position of the first line terminator at or after `start`, if any.
pub open spec fn find_crlf(b: Seq<u8>, start: int) -> Option<int>
    decreases b.len() - start,
{
    if start < 0 || start + 2 > b.len() {
        None
    } else if b[start] == CR && b[start + 1] == LF {
        Some(start)
    } else {
        find_crlf(b, start + 1)
    }
}

/// True for the ASCII bytes `0` through `9`.
pub open spec fn is_digit(b: u8) -> bool {
    48 <= b <= 57
}

/// True when every byte of `s` is an ASCII digit.
pub open spec fn all_digits(s: Seq<u8>) -> bool {
    forall|i: int| 0 <= i < s.len() ==> is_digit(#[trigger] s[i])
}

/// Numeric value of a sequence of ASCII digits, most significant first.
pub open spec fn digits_val(s: Seq<u8>) -> int
    decreases s.len(),
{
    if s.len() == 0 {
        0
    } else {
        digits_val(s.drop_last()) * 10 + (s.last() - 48)
    }
}

/// Parse of base-10 ASCII with an optional leading `+` or `-`: the numeric
/// value if the text is a well-formed decimal, `None` otherwise.
pub open spec fn parse_int(s: Seq<u8>) -> Option<int> {
    if s.len() >= 1 && (s[0] == 43 || s[0] == 45) {
        // a leading sign: `+` is 43, `-` is 45
        let ds = s.drop_first();
        if ds.len() >= 1 && all_digits(ds) {
            Some(if s[0] == 45 { -digits_val(ds) } else { digits_val(ds) })
        } else {
            None
        }
    } else if s.len() >= 1 && all_digits(s) {
        Some(digits_val(s))
    } else {
        None
    }
}

/// Parse of base-10 ASCII into the signed 64-bit range; out-of-range values
/// are a parse failure, as for the executable parser.
pub open spec fn parse_i64(s: Seq<u8>) -> Option<int> {
    match parse_int(s) {
        Some(v) => if i64::MIN <= v <= i64::MAX {
            Some(v)
        } else {
            None
        },
        None => None,
    }
}

/// Parse of base-10 ASCII into the `isize` range, used for length framing.
pub open spec fn parse_isize(s: Seq<u8>) -> Option<int> {
    match parse_int(s) {
        Some(v) => if isize::MIN <= v <= isize::MAX {
            Some(v)
        } else {
            None
        },
        None => None,
    }
}

/// Decimal ASCII digits of a natural number, without sign or leading zeros.
pub open spec fn dec_nat(n: nat) -> Seq<u8>
    decreases n,
{
    if n < 10 {
        seq![(48 + n) as u8]
    } else {
        dec_nat(n / 10).push((48 + n % 10) as u8)
    }
}

/// Decimal ASCII representation of an integer: the digits of its magnitude,
/// preceded by `-` exactly when it is negative.
pub open spec fn dec_int(i: int) -> Seq<u8> {
    if i < 0 {
        seq![45u8] + dec_nat((-i) as nat)
    } else {
        dec_nat(i as nat)
    }
}

/// Wire encoding of a value: one rule per variant, each line closed by the
/// terminator; a null bulk string or array is its tag with length -1.
pub open spec fn rencode(v: SpecResp) -> Seq<u8>
    decreases v,
{
    match v {
        SpecResp::SimpleString(s) => seq![TAG_SIMPLE] + encode_utf8(s) + crlf(),
        SpecResp::Error(s) => seq![TAG_ERROR] + encode_utf8(s) + crlf(),
        SpecResp::Integer(i) => seq![TAG_INTEGER] + dec_int(i) + crlf(),
        SpecResp::BulkString(None) => seq![TAG_BULK] + dec_int(-1) + crlf(),
        SpecResp::BulkString(Some(p)) => seq![TAG_BULK] + dec_nat(p.len()) + crlf() + p + crlf(),
        SpecResp::Array(None) => seq![TAG_ARRAY] + dec_int(-1) + crlf(),
        SpecResp::Array(Some(es)) => seq![TAG_ARRAY] + dec_nat(es.len()) + crlf() + rencode_seq(es),
    }
}

/// Wire encoding of a sequence of values, in order.
pub open spec fn rencode_seq(es: Seq<SpecResp>) -> Seq<u8>
    decreases es,
{
    if es.len() == 0 {
        Seq::empty()
    } else {
        rencode(es[0]) + rencode_seq(es.drop_first())
    }
}

/// The data-model invariants a value must respect to have a decodable
/// encoding: line-oriented text must not contain the terminator sequence,
/// integers must lie in the signed 64-bit range, and lengths must fit the
/// length framing (the `isize` range).
pub open spec fn spec_wf(v: SpecResp) -> bool
    decreases v,
{
    match v {
        SpecResp::SimpleString(s) => !contains_crlf(encode_utf8(s)),
        SpecResp::Error(s) => !contains_crlf(encode_utf8(s)),
        SpecResp::Integer(i) => i64::MIN <= i <= i64::MAX,
        SpecResp::BulkString(None) => true,
        SpecResp::BulkString(Some(p)) => p.len() <= isize::MAX,
        SpecResp::Array(None) => true,
        SpecResp::Array(Some(es)) => es.len() <= isize::MAX && wf_seq(es),
    }
}

/// Well-formedness of every element of a sequence of values.
pub open spec fn wf_seq(es: Seq<SpecResp>) -> bool
    decreases es,
{
    if es.len() == 0 {
        true
    } else {
        spec_wf(es[0]) && wf_seq(es.drop_first())
    }
}

/// A terminator byte occurs in a scalar's encoding only as the whole
/// one-byte encoding of that very scalar: multi-byte encodings use no byte
/// below 0x80.
proof fn lemma_scalar_terminator_bytes(sc: u32)
    requires
        vstd::utf8::is_scalar(sc),
    ensures
        forall|j: int|
            0 <= j < vstd::utf8::encode_scalar(sc).len() ==> ((#[trigger] vstd::utf8::encode_scalar(
                sc,
            )[j]) == CR ==> sc == 13),
        forall|j: int|
            0 <= j < vstd::utf8::encode_scalar(sc).len() ==> ((#[trigger] vstd::utf8::encode_scalar(
                sc,
            )[j]) == LF ==> sc == 10),
        sc == 13 ==> vstd::utf8::encode_scalar(sc) == seq![CR],
        sc == 10 ==> vstd::utf8::encode_scalar(sc) == seq![LF],
        vstd::utf8::encode_scalar(sc).len() >= 1,
{
    assert(sc <= 0x7F ==> (((sc & 0x7F) as u8 == 13) == (sc == 13))) by (bit_vector);
    assert(sc <= 0x7F ==> (((sc & 0x7F) as u8 == 10) == (sc == 10))) by (bit_vector);
    assert((0xC0 | ((sc >> 6) & 0x1F) as u8) >= 0xC0) by (bit_vector);
    assert((0xE0 | ((sc >> 12) & 0x0F) as u8) >= 0xE0) by (bit_vector);
    assert((0xF0 | ((sc >> 18) & 0x7) as u8) >= 0xF0) by (bit_vector);
    assert((0x80 | (sc & 0x3F) as u8) >= 0x80) by (bit_vector);
    assert((0x80 | ((sc >> 6) & 0x3F) as u8) >= 0x80) by (bit_vector);
    assert((0x80 | ((sc >> 12) & 0x3F) as u8) >= 0x80) by (bit_vector);
    if sc == 13 {
        assert(((13u32 & 0x7F) as u8) == 13u8) by (bit_vector);
        assert(vstd::utf8::encode_scalar(sc) =~= seq![CR]);
    }
    if sc == 10 {
        assert(((10u32 & 0x7F) as u8) == 10u8) by (bit_vector);
        assert(vstd::utf8::encode_scalar(sc) =~= seq![LF]);
    }
}

/// Line content given as characters: where no carriage return is directly
/// followed by a line feed among the characters, the terminator sequence does
/// not occur among the encoded bytes either, so the text respects the
/// line-content invariant of [`spec_wf`].
pub proof fn lemma_text_line_wf(s: Seq<char>)
    requires
        forall|i: int|
            0 <= i && i + 1 < s.len() ==> !(s[i] == '\r' && #[trigger] s[i + 1] == '\n'),
    ensures
        !contains_crlf(encode_utf8(s)),
    decreases s.len(),
{
    if s.len() > 0 {
        let sc = s[0] as u32;
        vstd::utf8::char_is_scalar(s[0]);
        lemma_scalar_terminator_bytes(sc);
        let enc0 = vstd::utf8::encode_scalar(sc);
        let rest = encode_utf8(s.drop_first());
        assert(encode_utf8(s) == enc0 + rest);
        assert forall|i: int| 0 <= i && i + 1 < s.drop_first().len() implies !(s.drop_first()[i]
            == '\r' && #[trigger] s.drop_first()[i + 1] == '\n') by {
            assert(s.drop_first()[i] == s[i + 1]);
            assert(s.drop_first()[i + 1] == s[i + 2]);
        }
        lemma_text_line_wf(s.drop_first());
        let b = encode_utf8(s);
        assert forall|j: int| 0 <= j && j + 1 < b.len() implies !(b[j] == CR && #[trigger] b[j
            + 1] == LF) by {
            if j + 1 < enc0.len() {
                // a pair inside one scalar's encoding: a CR byte makes that
                // encoding the one-byte [CR], too short to hold a pair
                if b[j] == CR {
                    assert(enc0[j] == CR);
                    assert(sc == 13);
                }
            } else if j < enc0.len() {
                // a pair straddling the boundary: the characters themselves
                // would be '\r' directly followed by '\n'
                if b[j] == CR && b[j + 1] == LF {
                    assert(enc0[j] == CR);
                    assert(sc == 13);
                    assert(enc0.len() == 1 && j == 0);
                    assert(rest.len() > 0);
                    assert(s.drop_first().len() > 0);
                    let sc1 = s.drop_first()[0] as u32;
                    vstd::utf8::char_is_scalar(s.drop_first()[0]);
                    lemma_scalar_terminator_bytes(sc1);
                    assert(rest == vstd::utf8::encode_scalar(sc1) + encode_utf8(
                        s.drop_first().drop_first(),
                    ));
                    assert(b[j + 1] == rest[0]);
                    assert(rest[0] == vstd::utf8::encode_scalar(sc1)[0]);
                    assert(sc1 == 10);
                    assert('\r' as u32 == 13 && '\n' as u32 == 10);
                    vstd::utf8::char_u32_cast(s[0], sc);
                    vstd::utf8::char_u32_cast('\r', 13);
                    vstd::utf8::char_u32_cast(s.drop_first()[0], sc1);
                    vstd::utf8::char_u32_cast('\n', 10);
                    assert(s[1] == s.drop_first()[0]);
                    assert(s[0] == '\r' && s[1] == '\n');
                }
            } else {
                // a pair in the tail: excluded by the induction hypothesis
                if b[j] == CR && b[j + 1] == LF {
                    let k = j - enc0.len();
                    assert(rest[k] == CR && rest[k + 1] == LF);
                    assert(contains_crlf(rest));
                }
            }
        }
    }
}

/// One line read: the content before the first terminator at or after `pos`,
/// and the position just past that terminator; `Eof` when no terminator
/// remains.
pub open spec fn spec_read_line(b: Seq<u8>, pos: int) -> Result<(Seq<u8>, int), Error> {
    match find_crlf(b, pos) {
        Some(i) => Ok((b.subrange(pos, i), i + 2)),
        None => Err(Error::Eof),
    }
}

/// One length line read: the line before the terminator parsed in the
/// `isize` range, and the position just past the terminator; a malformed or
/// out-of-range length is a `Syntax` error.
pub open spec fn spec_read_isize(b: Seq<u8>, pos: int) -> Result<(int, int), Error> {
    match spec_read_line(b, pos) {
        Ok((line, p2)) => match parse_isize(line) {
            Some(v) => Ok((v, p2)),
            None => Err(Error::Syntax),
        },
        Err(e) => Err(e),
    }
}

/// Decode of one value starting at `pos`: the value and the position just
/// past its encoding, or the exact error kind. Dispatches on the tag byte,
/// reads length-framed payloads exactly, verifies the terminator after a bulk
/// payload, and recurses for array elements.
pub open spec fn rdecode_at(b: Seq<u8>, pos: int) -> Result<(SpecResp, int), Error>
    decreases b.len() - pos, 0int, 0nat,
{
    if pos < 0 || pos >= b.len() {
        Err(Error::Eof)
    } else {
        let tag = b[pos];
        if tag == TAG_SIMPLE {
            match spec_read_line(b, pos + 1) {
                Ok((content, p2)) => if valid_utf8(content) {
                    Ok((SpecResp::SimpleString(decode_utf8(content)), p2))
                } else {
                    Err(Error::TextEncodingError)
                },
                Err(e) => Err(e),
            }
        } else if tag == TAG_ERROR {
            match spec_read_line(b, pos + 1) {
                Ok((content, p2)) => if valid_utf8(content) {
                    Ok((SpecResp::Error(decode_utf8(content)), p2))
                } else {
                    Err(Error::TextEncodingError)
                },
                Err(e) => Err(e),
            }
        } else if tag == TAG_INTEGER {
            match spec_read_line(b, pos + 1) {
                Ok((line, p2)) => match parse_i64(line) {
                    Some(v) => Ok((SpecResp::Integer(v), p2)),
                    None => Err(Error::Syntax),
                },
                Err(e) => Err(e),
            }
        } else if tag == TAG_BULK {
            match spec_read_line(b, pos + 1) {
                Ok((line, p2)) => match parse_isize(line) {
                    Some(n) => if n < 0 {
                        Ok((SpecResp::BulkString(None), p2))
                    } else if p2 + n + 2 <= b.len() {
                        if b[p2 + n] == CR && b[p2 + n + 1] == LF {
                            Ok((SpecResp::BulkString(Some(b.subrange(p2, p2 + n))), p2 + n + 2))
                        } else {
                            Err(Error::Syntax)
                        }
                    } else {
                        Err(Error::Eof)
                    },
                    None => Err(Error::Syntax),
                },
                Err(e) => Err(e),
            }
        } else if tag == TAG_ARRAY {
            match spec_read_line(b, pos + 1) {
                Ok((line, p2)) => match parse_isize(line) {
                    Some(n) => if n < 0 {
                        Ok((SpecResp::Array(None), p2))
                    } else if pos < p2 <= b.len() {
                        match rdecode_elems(b, p2, n as nat) {
                            Ok((es, p3)) => Ok((SpecResp::Array(Some(es)), p3)),
                            Err(e) => Err(e),
                        }
                    } else {
                        // unreachable: a line read always advances
                        Err(Error::Syntax)
                    },
                    None => Err(Error::Syntax),
                },
                Err(e) => Err(e),
            }
        } else {
            Err(Error::Syntax)
        }
    }
}

/// Decode of `n` consecutive values starting at `pos`: the values in order
/// and the position just past the last one, or the first error.
pub open spec fn rdecode_elems(b: Seq<u8>, pos: int, n: nat) -> Result<(Seq<SpecResp>, int), Error>
    decreases b.len() - pos, 1int, n,
{
    if n == 0 {
        Ok((Seq::empty(), pos))
    } else {
        match rdecode_at(b, pos) {
            Ok((v, p2)) => if pos < p2 <= b.len() {
                match rdecode_elems(b, p2, (n - 1) as nat) {
                    Ok((rest, p3)) => Ok((seq![v] + rest, p3)),
                    Err(e) => Err(e),
                }
            } else {
                // unreachable: a decoded value always consumes bytes
                Err(Error::Syntax)
            },
            Err(e) => Err(e),
        }
    }
}

/// Appending one value to a sequence appends its encoding to the sequence's.
pub(crate) proof fn lemma_rencode_seq_push(es: Seq<SpecResp>, v: SpecResp)
    ensures
        rencode_seq(es.push(v)) == rencode_seq(es) + rencode(v),
    decreases es,
{
    if es.len() == 0 {
        assert(es.push(v)[0] == v);
        assert(es.push(v).drop_first() =~= Seq::<SpecResp>::empty());
        assert(rencode_seq(es.push(v)) == rencode(es.push(v)[0]) + rencode_seq(
            es.push(v).drop_first(),
        ));
        assert(rencode_seq(es.push(v).drop_first()) == Seq::<u8>::empty());
        assert(rencode_seq(es) == Seq::<u8>::empty());
        assert(rencode_seq(es.push(v)) =~= rencode_seq(es) + rencode(v));
    } else {
        lemma_rencode_seq_push(es.drop_first(), v);
        assert(es.push(v)[0] == es[0]);
        assert(es.push(v).drop_first() =~= es.drop_first().push(v));
        assert(rencode_seq(es.push(v)) == rencode(es[0]) + rencode_seq(es.drop_first().push(v)));
        assert(rencode_seq(es.push(v)) =~= rencode_seq(es) + rencode(v));
    }
}

/// Decode of exactly one top-level value from the whole of `b`: after the
/// value, no byte may remain.
pub open spec fn rdecode(b: Seq<u8>) -> Result<SpecResp, Error> {
    match rdecode_at(b, 0) {
        Ok((v, p)) => if p == b.len() {
            Ok(v)
        } else {
            Err(Error::TrailingDataError)
        },
        Err(e) => Err(e),
    }
}

/// The decimal digits of a natural number are digits, at least one, and
/// parse back to the number.
proof fn lemma_dec_nat_digits(n: nat)
    ensures
        all_digits(dec_nat(n)),
        dec_nat(n).len() >= 1,
        digits_val(dec_nat(n)) == n,
    decreases n,
{
    if n < 10 {
        let s = dec_nat(n);
        assert(s =~= seq![(48 + n) as u8]);
        assert(s.last() == (48 + n) as u8);
        assert(s.drop_last() =~= Seq::<u8>::empty());
        assert(digits_val(s.drop_last()) == 0);
        assert(digits_val(s) == digits_val(s.drop_last()) * 10 + (s.last() - 48));
        assert(digits_val(s) == n);
    } else {
        lemma_dec_nat_digits(n / 10);
        let s = dec_nat(n);
        let prefix = dec_nat(n / 10);
        assert(s.drop_last() =~= prefix);
        assert(s.last() == (48 + n % 10) as u8);
        assert(digits_val(s) == (n / 10) * 10 + n % 10);
        assert((n / 10) * 10 + n % 10 == n) by (nonlinear_arith);
        assert forall|i: int| 0 <= i < s.len() implies is_digit(#[trigger] s[i]) by {
            if i < prefix.len() {
                assert(s[i] == prefix[i]);
            }
        }
    }
}

/// The decimal representation of an integer is nonempty, free of the
/// terminator bytes, and parses back to the integer.
proof fn lemma_dec_int_parses(i: int)
    ensures
        dec_int(i).len() >= 1,
        !contains_crlf(dec_int(i)),
        parse_int(dec_int(i)) == Some(i),
{
    let s = dec_int(i);
    if i < 0 {
        lemma_dec_nat_digits((-i) as nat);
        let ds = dec_nat((-i) as nat);
        assert(s[0] == 45u8);
        assert(s.drop_first() =~= ds);
        assert(parse_int(s) == Some(-digits_val(ds)));
        assert forall|j: int| 0 <= j && j + 1 < s.len() implies !(s[j] == CR && #[trigger] s[j
            + 1] == LF) by {
            if j > 0 {
                assert(s[j] == ds[j - 1]);
                assert(is_digit(s[j]));
            }
        }
    } else {
        lemma_dec_nat_digits(i as nat);
        assert(is_digit(s[0]));
        assert(s[0] != 43 && s[0] != 45);
        assert(parse_int(s) == Some(digits_val(s)));
        assert forall|j: int| 0 <= j && j + 1 < s.len() implies !(s[j] == CR && #[trigger] s[j
            + 1] == LF) by {
            assert(is_digit(s[j]));
        }
    }
}

/// The terminator scan succeeds exactly when a terminator occurs at or after
/// `start`.
pub(crate) proof fn lemma_find_crlf_complete(b: Seq<u8>, start: int)
    requires
        0 <= start,
    ensures
        find_crlf(b, start) is Some <==> exists|j: int|
            start <= j && j + 1 < b.len() && b[j] == CR && #[trigger] b[j + 1] == LF,
    decreases b.len() - start,
{
    if start + 2 > b.len() {
    } else if b[start] == CR && b[start + 1] == LF {
        assert(start <= start && start + 1 < b.len() && b[start] == CR && b[start + 1] == LF);
    } else {
        lemma_find_crlf_complete(b, start + 1);
    }
}

/// A sequence of values is well-formed exactly when each of its elements is.
pub(crate) proof fn lemma_wf_seq_forall(s: Seq<SpecResp>)
    ensures
        wf_seq(s) <==> (forall|i: int| 0 <= i < s.len() ==> spec_wf(#[trigger] s[i])),
    decreases s,
{
    if s.len() > 0 {
        lemma_wf_seq_forall(s.drop_first());
        assert forall|i: int| 0 <= i < s.len() && wf_seq(s) implies spec_wf(#[trigger] s[i]) by {
            if i > 0 {
                assert(s.drop_first()[i - 1] == s[i]);
            }
        }
        if forall|i: int| 0 <= i < s.len() ==> spec_wf(#[trigger] s[i]) {
            assert forall|i: int| 0 <= i < s.drop_first().len() implies spec_wf(
                #[trigger] s.drop_first()[i],
            ) by {
                assert(s.drop_first()[i] == s[i + 1]);
            }
        }
    }
}

/// When the first terminator at or after `start` stands at `end`, the scan
/// finds exactly it.
proof fn lemma_find_crlf_at(b: Seq<u8>, start: int, end: int)
    requires
        0 <= start <= end,
        end + 2 <= b.len(),
        b[end] == CR,
        b[end + 1] == LF,
        forall|j: int| start <= j < end ==> !(b[j] == CR && #[trigger] b[j + 1] == LF),
    ensures
        find_crlf(b, start) == Some(end),
    decreases end - start,
{
    if start < end {
        lemma_find_crlf_at(b, start + 1, end);
    }
}

/// A line whose content is free of the terminator, followed by a terminator,
/// reads back as exactly that content, whatever follows.
proof fn lemma_read_line_frame(b: Seq<u8>, start: int, content: Seq<u8>)
    requires
        0 <= start,
        start + content.len() + 2 <= b.len(),
        b.subrange(start, start + content.len() as int) == content,
        b[start + content.len()] == CR,
        b[start + content.len() + 1] == LF,
        !contains_crlf(content),
    ensures
        spec_read_line(b, start) == Ok::<(Seq<u8>, int), Error>(
            (content, start + content.len() + 2),
        ),
{
    let end = start + content.len() as int;
    assert forall|j: int| start <= j < end implies !(b[j] == CR && #[trigger] b[j + 1] == LF) by {
        assert(b[j] == content[j - start]);
        if j + 1 < end {
            assert(b[j + 1] == content[j + 1 - start]);
            assert(!(content[j - start] == CR && content[j - start + 1] == LF));
        } else {
            assert(b[j + 1] == CR);
        }
    }
    lemma_find_crlf_at(b, start, end);
}

/// Every encoding begins with its tag byte: it is never empty.
pub proof fn lemma_rencode_len(v: SpecResp)
    ensures
        rencode(v).len() >= 1,
{
    match v {
        SpecResp::SimpleString(s) => {},
        SpecResp::Error(s) => {},
        SpecResp::Integer(i) => {},
        SpecResp::BulkString(p) => {},
        SpecResp::Array(es) => {},
    }
}

/// One byte of a sequence embedded in a larger buffer, read in place.
proof fn lemma_byte_at(b: Seq<u8>, pos: int, enc: Seq<u8>, k: int)
    requires
        0 <= pos,
        pos + enc.len() <= b.len(),
        b.subrange(pos, pos + enc.len() as int) == enc,
        0 <= k < enc.len(),
    ensures
        b[pos + k] == enc[k],
{
    assert(b.subrange(pos, pos + enc.len() as int)[k] == b[pos + k]);
}

/// One slice of a sequence embedded in a larger buffer, read in place.
proof fn lemma_sub_subrange(b: Seq<u8>, pos: int, enc: Seq<u8>, i: int, j: int)
    requires
        0 <= pos,
        pos + enc.len() <= b.len(),
        b.subrange(pos, pos + enc.len() as int) == enc,
        0 <= i <= j <= enc.len(),
    ensures
        b.subrange(pos + i, pos + j) == enc.subrange(i, j),
{
    assert forall|k: int| 0 <= k < j - i implies b.subrange(pos + i, pos + j)[k] == enc.subrange(
        i,
        j,
    )[k] by {
        assert(b.subrange(pos + i, pos + j)[k] == b[pos + i + k]);
        lemma_byte_at(b, pos, enc, i + k);
        assert(b[pos + (i + k)] == enc[i + k]);
        assert(enc.subrange(i, j)[k] == enc[i + k]);
    }
    assert(b.subrange(pos + i, pos + j) =~= enc.subrange(i, j));
}

/// Decoding an encoding embedded in a larger buffer yields back the encoded
/// value and stops exactly at the encoding's end, whatever bytes follow.
#[verifier::rlimit(60)]
pub proof fn lemma_rdecode_rencode(v: SpecResp, b: Seq<u8>, pos: int)
    requires
        spec_wf(v),
        0 <= pos,
        pos + rencode(v).len() <= b.len(),
        b.subrange(pos, pos + rencode(v).len() as int) == rencode(v),
    ensures
        rdecode_at(b, pos) == Ok::<(SpecResp, int), Error>((v, pos + rencode(v).len() as int)),
    decreases v,
{
    broadcast use vstd::utf8::encode_utf8_valid_utf8, vstd::utf8::encode_utf8_decode_utf8;

    let enc = rencode(v);
    lemma_rencode_len(v);
    lemma_byte_at(b, pos, enc, 0);
    match v {
        SpecResp::SimpleString(s) => {
            let content = encode_utf8(s);
            assert(b[pos] == TAG_SIMPLE);
            lemma_sub_subrange(b, pos, enc, 1, 1 + content.len() as int);
            assert(enc.subrange(1, 1 + content.len() as int) =~= content);
            lemma_byte_at(b, pos, enc, 1 + content.len() as int);
            lemma_byte_at(b, pos, enc, 2 + content.len() as int);
            lemma_read_line_frame(b, pos + 1, content);
            assert(decode_utf8(content) == s);
        },
        SpecResp::Error(s) => {
            let content = encode_utf8(s);
            assert(b[pos] == TAG_ERROR);
            lemma_sub_subrange(b, pos, enc, 1, 1 + content.len() as int);
            assert(enc.subrange(1, 1 + content.len() as int) =~= content);
            lemma_byte_at(b, pos, enc, 1 + content.len() as int);
            lemma_byte_at(b, pos, enc, 2 + content.len() as int);
            lemma_read_line_frame(b, pos + 1, content);
            assert(decode_utf8(content) == s);
        },
        SpecResp::Integer(i) => {
            lemma_dec_int_parses(i);
            let content = dec_int(i);
            assert(b[pos] == TAG_INTEGER);
            lemma_sub_subrange(b, pos, enc, 1, 1 + content.len() as int);
            assert(enc.subrange(1, 1 + content.len() as int) =~= content);
            lemma_byte_at(b, pos, enc, 1 + content.len() as int);
            lemma_byte_at(b, pos, enc, 2 + content.len() as int);
            lemma_read_line_frame(b, pos + 1, content);
            assert(parse_i64(content) == Some(i));
        },
        SpecResp::BulkString(None) => {
            lemma_dec_int_parses(-1);
            let content = dec_int(-1);
            assert(b[pos] == TAG_BULK);
            lemma_sub_subrange(b, pos, enc, 1, 1 + content.len() as int);
            assert(enc.subrange(1, 1 + content.len() as int) =~= content);
            lemma_byte_at(b, pos, enc, 1 + content.len() as int);
            lemma_byte_at(b, pos, enc, 2 + content.len() as int);
            lemma_read_line_frame(b, pos + 1, content);
            assert(parse_isize(content) == Some(-1));
        },
        SpecResp::BulkString(Some(p)) => {
            lemma_dec_int_parses(p.len() as int);
            let content = dec_int(p.len() as int);
            assert(content == dec_nat(p.len()));
            assert(b[pos] == TAG_BULK);
            lemma_sub_subrange(b, pos, enc, 1, 1 + content.len() as int);
            assert(enc.subrange(1, 1 + content.len() as int) =~= content);
            lemma_byte_at(b, pos, enc, 1 + content.len() as int);
            lemma_byte_at(b, pos, enc, 2 + content.len() as int);
            lemma_read_line_frame(b, pos + 1, content);
            assert(parse_isize(content) == Some(p.len() as int));
            let hl = 3 + content.len() as int;  // tag, length digits, terminator
            let p2 = pos + hl;
            assert(p2 + p.len() + 2 <= b.len());
            lemma_sub_subrange(b, pos, enc, hl, hl + p.len() as int);
            assert(enc.subrange(hl, hl + p.len() as int) =~= p);
            lemma_byte_at(b, pos, enc, hl + p.len() as int);
            lemma_byte_at(b, pos, enc, hl + p.len() as int + 1);
            assert(b[p2 + p.len()] == CR);
            assert(b[p2 + p.len() + 1] == LF);
            assert(b.subrange(p2, p2 + p.len() as int) == p);
        },
        SpecResp::Array(None) => {
            lemma_dec_int_parses(-1);
            let content = dec_int(-1);
            assert(b[pos] == TAG_ARRAY);
            lemma_sub_subrange(b, pos, enc, 1, 1 + content.len() as int);
            assert(enc.subrange(1, 1 + content.len() as int) =~= content);
            lemma_byte_at(b, pos, enc, 1 + content.len() as int);
            lemma_byte_at(b, pos, enc, 2 + content.len() as int);
            lemma_read_line_frame(b, pos + 1, content);
            assert(parse_isize(content) == Some(-1));
        },
        SpecResp::Array(Some(es)) => {
            lemma_dec_int_parses(es.len() as int);
            let content = dec_int(es.len() as int);
            assert(content == dec_nat(es.len()));
            assert(b[pos] == TAG_ARRAY);
            lemma_sub_subrange(b, pos, enc, 1, 1 + content.len() as int);
            assert(enc.subrange(1, 1 + content.len() as int) =~= content);
            lemma_byte_at(b, pos, enc, 1 + content.len() as int);
            lemma_byte_at(b, pos, enc, 2 + content.len() as int);
            lemma_read_line_frame(b, pos + 1, content);
            assert(parse_isize(content) == Some(es.len() as int));
            let hl = 3 + content.len() as int;  // tag, length digits, terminator
            let p2 = pos + hl;
            lemma_sub_subrange(b, pos, enc, hl, hl + rencode_seq(es).len() as int);
            assert(enc.subrange(hl, hl + rencode_seq(es).len() as int) =~= rencode_seq(es));
            // the element sequence is structurally below the whole value
            let opt = v->Array_0;
            let sq = opt->0;
            assert(sq == es);
            assert(decreases_to!(v => opt));
            assert(decreases_to!(opt => sq));
            lemma_rdecode_elems_rencode(es, b, p2);
            assert(pos < p2 <= b.len());
        },
    }
}

/// Decoding the concatenated encodings of a sequence of values yields back
/// the values in order and stops exactly at the concatenation's end.
proof fn lemma_rdecode_elems_rencode(es: Seq<SpecResp>, b: Seq<u8>, pos: int)
    requires
        wf_seq(es),
        0 <= pos,
        pos + rencode_seq(es).len() <= b.len(),
        b.subrange(pos, pos + rencode_seq(es).len() as int) == rencode_seq(es),
    ensures
        rdecode_elems(b, pos, es.len()) == Ok::<(Seq<SpecResp>, int), Error>(
            (es, pos + rencode_seq(es).len() as int),
        ),
    decreases es,
{
    if es.len() == 0 {
        assert(es =~= Seq::<SpecResp>::empty());
    } else {
        let whole = rencode_seq(es);
        let enc0 = rencode(es[0]);
        let rest = rencode_seq(es.drop_first());
        assert(whole == enc0 + rest);
        lemma_sub_subrange(b, pos, whole, 0, enc0.len() as int);
        assert(whole.subrange(0, enc0.len() as int) =~= enc0);
        lemma_rencode_len(es[0]);
        lemma_rdecode_rencode(es[0], b, pos);
        let p2 = pos + enc0.len() as int;
        lemma_sub_subrange(b, pos, whole, enc0.len() as int, whole.len() as int);
        assert(whole.subrange(enc0.len() as int, whole.len() as int) =~= rest);
        lemma_rdecode_elems_rencode(es.drop_first(), b, p2);
        assert((es.len() - 1) as nat == es.drop_first().len());
        assert(seq![es[0]] + es.drop_first() =~= es);
    }
}

/// What a successful terminator scan says: the terminator stands there, and
/// nowhere earlier.
proof fn lemma_find_crlf_some(b: Seq<u8>, start: int, i: int)
    requires
        find_crlf(b, start) == Some(i),
    ensures
        start <= i,
        i + 2 <= b.len(),
        b[i] == CR,
        b[i + 1] == LF,
        forall|j: int| start <= j < i ==> !(b[j] == CR && #[trigger] b[j + 1] == LF),
    decreases b.len() - start,
{
    if b[start] == CR && b[start + 1] == LF {
    } else {
        lemma_find_crlf_some(b, start + 1, i);
    }
}

/// Soundness of the decoder: a decoded value respects the data-model
/// invariants and its encoding occupies at least one byte of the input.
pub proof fn lemma_rdecode_at_wf(b: Seq<u8>, pos: int)
    ensures
        rdecode_at(b, pos) matches Ok((v, p)) ==> spec_wf(v) && pos < p <= b.len(),
    decreases b.len() - pos, 0int, 0nat,
{
    broadcast use vstd::utf8::decode_utf8_encode_utf8;

    if 0 <= pos < b.len() {
        let tag = b[pos];
        if tag == TAG_SIMPLE || tag == TAG_ERROR {
            if let Some(i) = find_crlf(b, pos + 1) {
                lemma_find_crlf_some(b, pos + 1, i);
                let content = b.subrange(pos + 1, i);
                if valid_utf8(content) {
                    assert(encode_utf8(decode_utf8(content)) == content);
                    assert forall|j: int| 0 <= j && j + 1 < content.len() implies !(content[j]
                        == CR && #[trigger] content[j + 1] == LF) by {
                        assert(content[j] == b[pos + 1 + j]);
                        assert(content[j + 1] == b[pos + 1 + j + 1]);
                        assert(pos + 1 <= pos + 1 + j < i);
                    }
                    assert(!contains_crlf(content));
                }
            }
        } else if tag == TAG_INTEGER {
            if let Some(i) = find_crlf(b, pos + 1) {
                lemma_find_crlf_some(b, pos + 1, i);
            }
        } else if tag == TAG_BULK {
            if let Some(i) = find_crlf(b, pos + 1) {
                lemma_find_crlf_some(b, pos + 1, i);
            }
        } else if tag == TAG_ARRAY {
            if let Some(i) = find_crlf(b, pos + 1) {
                lemma_find_crlf_some(b, pos + 1, i);
                let line = b.subrange(pos + 1, i);
                let p2 = i + 2;
                match parse_isize(line) {
                    Some(n) => {
                        if n >= 0 && pos < p2 <= b.len() {
                            lemma_rdecode_elems_wf(b, p2, n as nat);
                        }
                    },
                    None => {},
                }
            }
        }
    }
}

/// Soundness of the element decoder: decoded elements respect the data-model
/// invariants, come in the stated number, and never move backwards.
proof fn lemma_rdecode_elems_wf(b: Seq<u8>, pos: int, n: nat)
    ensures
        rdecode_elems(b, pos, n) matches Ok((es, p)) ==> wf_seq(es) && es.len() == n && pos <= p
            <= b.len() || pos > b.len(),
    decreases b.len() - pos, 1int, n,
{
    if n == 0 {
        if pos <= b.len() {
            assert(rdecode_elems(b, pos, n) == Ok::<(Seq<SpecResp>, int), Error>(
                (Seq::empty(), pos),
            ));
        }
    } else {
        lemma_rdecode_at_wf(b, pos);
        match rdecode_at(b, pos) {
            Ok((v, p2)) => {
                if pos < p2 <= b.len() {
                    lemma_rdecode_elems_wf(b, p2, (n - 1) as nat);
                    match rdecode_elems(b, p2, (n - 1) as nat) {
                        Ok((rest, p3)) => {
                            assert((seq![v] + rest).drop_first() =~= rest);
                            assert((seq![v] + rest)[0] == v);
                        },
                        Err(_) => {},
                    }
                }
            },
            Err(_) => {},
        }
    }
}

/// Round trip: decoding the encoding of any value that respects the data
/// model invariants gives that value back, exactly.
pub proof fn lemma_round_trip(v: SpecResp)
    requires
        spec_wf(v),
    ensures
        rdecode(rencode(v)) == Ok::<SpecResp, Error>(v),
{
    let enc = rencode(v);
    assert(enc.subrange(0, enc.len() as int) =~= enc);
    lemma_rdecode_rencode(v, enc, 0);
}

} // verus!
