//! Executable decoder from wire bytes back to [`RESPType`] values.
//!
//! [`decode_value`] reads exactly one value and reports how many bytes it
//! consumed; [`from_bytes`] and [`from_str`] additionally enforce that no
//! byte remains after the value. Every function is proved equal to the
//! specification decoder [`rdecode_at`] of [`crate::wire`].

use crate::error::Error;
use crate::wire::{
    find_crlf, parse_i64, parse_isize, rdecode, rdecode_at, rdecode_elems,
    spec_read_isize, spec_read_line, CR, LF, TAG_ARRAY, TAG_BULK, TAG_ERROR, TAG_INTEGER,
    TAG_SIMPLE,
};
use crate::{views, RESPType, SpecResp};
use vstd::prelude::*;
use vstd::slice::{slice_subrange, slice_to_vec};
use vstd::utf8::{decode_utf8, valid_utf8};

verus! {

/// Turns bytes into the text they spell.
///
/// Relies on `String::from_utf8`, which succeeds exactly when the bytes are
/// valid UTF-8 and then decodes them; the error case is dropped to `None`.
#[verifier::external_body]
pub(crate) fn string_from_utf8(bytes: Vec<u8>) -> (r: Option<String>)
    ensures
        r is Some <==> valid_utf8(bytes@),
        r matches Some(s) ==> s@ == decode_utf8(bytes@),
{
    String::from_utf8(bytes).ok()
}

/// Position of the first line terminator at or after `start`, if any.
pub(crate) fn find_terminator(input: &[u8], start: usize) -> (r: Option<usize>)
    ensures
        match r {
            Some(i) => find_crlf(input@, start as int) == Some(i as int) && start <= i && i + 2
                <= input@.len(),
            None => find_crlf(input@, start as int) is None,
        },
{
    let n = input.len();
    if n < 2 {
        return None;
    }
    let mut i = start;
    while i < n - 1
        invariant
            start <= i,
            n == input@.len(),
            2 <= n,
            find_crlf(input@, start as int) == find_crlf(input@, i as int),
        decreases n - i,
    {
        if input[i] == CR && input[i + 1] == LF {
            return Some(i);
        }
        i = i + 1;
    }
    None
}

/// One line read at `pos`: the content before the first terminator, copied
/// out, and the position just past the terminator; `Eof` when no terminator
/// remains.
fn read_line_at(input: &[u8], pos: usize) -> (r: Result<(Vec<u8>, usize), Error>)
    ensures
        match r {
            Ok((line, p2)) => spec_read_line(input@, pos as int) == Ok::<_, Error>(
                (line@, p2 as int),
            ) && pos <= p2 <= input@.len(),
            Err(e) => spec_read_line(input@, pos as int) == Err::<(Seq<u8>, int), Error>(e),
        },
{
    let n = input.len();
    match find_terminator(input, pos) {
        Some(i) => {
            let line = slice_to_vec(slice_subrange(input, pos, i));
            assert(i + 2 <= n);
            Ok((line, i + 2))
        },
        None => Err(Error::Eof),
    }
}

/// Parse of one line as a signed 64-bit decimal: an optional sign, then
/// digits; `None` on any other shape and on overflow, exactly as the
/// specification parser [`parse_i64`] says.
#[verifier::loop_isolation(false)]
fn parse_decimal_i64(line: &[u8]) -> (r: Option<i64>)
    ensures
        match r {
            Some(v) => parse_i64(line@) == Some(v as int),
            None => parse_i64(line@) is None,
        },
{
    let n = line.len();
    if n == 0 {
        return None;
    }
    let first = line[0];
    let has_sign = first == 43 || first == 45;  // '+' or '-'
    let start: usize = if has_sign {
        1
    } else {
        0
    };
    if n == start {
        // a sign with no digits
        return None;
    }
    let ghost ds = line@.subrange(start as int, n as int);
    proof {
        if has_sign {
            assert(ds =~= line@.drop_first());
        } else {
            assert(ds =~= line@);
        }
    }
    let mut i = start;
    let mut m: u64 = 0;
    let mut overflow = false;
    while i < n
        invariant
            start <= i <= n,
            crate::wire::all_digits(line@.subrange(start as int, i as int)),
            !overflow ==> m == crate::wire::digits_val(line@.subrange(start as int, i as int)),
            overflow ==> crate::wire::digits_val(line@.subrange(start as int, i as int))
                > 9223372036854775808,
        decreases n - i,
    {
        let b = line[i];
        if b < 48 || b > 57 {
            // not a digit anywhere in the digit run: no parse
            proof {
                assert(ds[i as int - start as int] == line@[i as int]);
                assert(!crate::wire::is_digit(ds[i as int - start as int]));
                assert(!crate::wire::all_digits(ds));
            }
            return None;
        }
        let d = (b - 48) as u64;
        let ghost prefix = line@.subrange(start as int, i as int);
        let ghost prefix1 = line@.subrange(start as int, i as int + 1);
        proof {
            assert(prefix1.drop_last() =~= prefix);
            assert(prefix1.last() == line@[i as int]);
            assert(crate::wire::digits_val(prefix1) == crate::wire::digits_val(prefix) * 10 + (
            b - 48));
            assert(crate::wire::all_digits(prefix1));
        }
        if !overflow {
            if m <= (u64::MAX - 9) / 10 {
                m = m * 10 + d;
            } else {
                overflow = true;
            }
        }
        i = i + 1;
    }
    assert(line@.subrange(start as int, n as int) == ds);
    if overflow {
        // the magnitude exceeds the signed 64-bit range whatever the sign
        return None;
    }
    if has_sign && first == 45 {
        if m <= 9223372036854775807u64 {
            Some(-(m as i64))
        } else if m == 9223372036854775808u64 {
            Some(i64::MIN)
        } else {
            None
        }
    } else {
        if m <= 9223372036854775807u64 {
            Some(m as i64)
        } else {
            None
        }
    }
}

/// Parse of one length line in the `isize` range, as the length framing
/// demands; `None` exactly when the specification parser [`parse_isize`]
/// rejects.
fn parse_decimal_isize(line: &[u8]) -> (r: Option<isize>)
    ensures
        match r {
            Some(v) => parse_isize(line@) == Some(v as int),
            None => parse_isize(line@) is None,
        },
{
    match parse_decimal_i64(line) {
        Some(v) => {
            if v >= isize::MIN as i64 && v <= isize::MAX as i64 {
                Some(v as isize)
            } else {
                None
            }
        },
        None => None,
    }
}

/// Decodes exactly one value from `input`, starting at `pos`: the value and
/// the position just past its encoding, or the exact error kind of the
/// specification decoder. Bytes after the value are left untouched, so a
/// caller may decode a stream of values by repeated calls.
#[verifier::loop_isolation(false)]
pub fn decode_value(input: &[u8], pos: usize) -> (r: Result<(RESPType, usize), Error>)
    ensures
        match r {
            Ok((v, p2)) => rdecode_at(input@, pos as int) == Ok::<_, Error>((v@, p2 as int)) && pos
                < p2 <= input@.len() && crate::wire::spec_wf(v@),
            Err(e) => rdecode_at(input@, pos as int) == Err::<(SpecResp, int), Error>(e),
        },
    decreases input@.len() - pos,
{
    proof {
        crate::wire::lemma_rdecode_at_wf(input@, pos as int);
    }
    if pos >= input.len() {
        return Err(Error::Eof);
    }
    let tag = input[pos];
    let p1 = pos + 1;
    if tag == TAG_SIMPLE || tag == TAG_ERROR {
        match read_line_at(input, p1) {
            Ok((content, p2)) => {
                let ghost cbytes = content@;
                match string_from_utf8(content) {
                    Some(text) => {
                        if tag == TAG_SIMPLE {
                            Ok((RESPType::SimpleString(text), p2))
                        } else {
                            Ok((RESPType::Error(text), p2))
                        }
                    },
                    None => Err(Error::TextEncodingError),
                }
            },
            Err(e) => Err(e),
        }
    } else if tag == TAG_INTEGER {
        match read_line_at(input, p1) {
            Ok((line, p2)) => match parse_decimal_i64(line.as_slice()) {
                Some(v) => Ok((RESPType::Integer(v), p2)),
                None => Err(Error::Syntax),
            },
            Err(e) => Err(e),
        }
    } else if tag == TAG_BULK {
        match read_line_at(input, p1) {
            Ok((line, p2)) => match parse_decimal_isize(line.as_slice()) {
                Some(len) => {
                    if len < 0 {
                        Ok((RESPType::BulkString(None), p2))
                    } else {
                        let n = len as usize;
                        let avail = input.len() - p2;
                        if n <= avail && avail - n >= 2 {
                            if input[p2 + n] == CR && input[p2 + n + 1] == LF {
                                let payload = slice_to_vec(slice_subrange(input, p2, p2 + n));
                                Ok((RESPType::BulkString(Some(payload)), p2 + n + 2))
                            } else {
                                Err(Error::Syntax)
                            }
                        } else {
                            Err(Error::Eof)
                        }
                    }
                },
                None => Err(Error::Syntax),
            },
            Err(e) => Err(e),
        }
    } else if tag == TAG_ARRAY {
        match read_line_at(input, p1) {
            Ok((line, p2)) => match parse_decimal_isize(line.as_slice()) {
                Some(len) => {
                    if len < 0 {
                        Ok((RESPType::Array(None), p2))
                    } else {
                        let n = len as usize;
                        let mut elems: Vec<RESPType> = Vec::new();
                        let mut k: usize = 0;
                        let mut cur = p2;
                        while k < n
                            invariant
                                k <= n,
                                pos < p2 <= cur <= input@.len(),
                                elems@.len() == k,
                                views(elems@).len() == k,
                                rdecode_elems(input@, p2 as int, n as nat) == (match rdecode_elems(
                                    input@,
                                    cur as int,
                                    (n - k) as nat,
                                ) {
                                    Ok((rest, p3)) => Ok::<_, Error>((views(elems@) + rest, p3)),
                                    Err(e) => Err::<(Seq<SpecResp>, int), Error>(e),
                                }),
                            decreases n - k,
                        {
                            match decode_value(input, cur) {
                                Ok((v, p3)) => {
                                    proof {
                                        crate::lemma_views_push(elems@, v);
                                        crate::lemma_views_len(elems@);
                                        let rec = rdecode_elems(
                                            input@,
                                            p3 as int,
                                            (n - k - 1) as nat,
                                        );
                                        if rec is Ok {
                                            assert(views(elems@.push(v)) + rec->Ok_0.0
                                                =~= views(elems@) + (seq![v@] + rec->Ok_0.0));
                                        }
                                    }
                                    elems.push(v);
                                    cur = p3;
                                    k = k + 1;
                                },
                                Err(e) => {
                                    return Err(e);
                                },
                            }
                        }
                        proof {
                            assert(views(elems@) + Seq::<SpecResp>::empty() =~= views(elems@));
                        }
                        Ok((RESPType::Array(Some(elems)), cur))
                    }
                },
                None => Err(Error::Syntax),
            },
            Err(e) => Err(e),
        }
    } else {
        Err(Error::Syntax)
    }
}

/// Decodes exactly one top-level value from the whole of `input`: after the
/// value, a remaining byte is a `TrailingDataError`.
pub fn from_bytes(input: &[u8]) -> (r: Result<RESPType, Error>)
    ensures
        match r {
            Ok(v) => rdecode(input@) == Ok::<SpecResp, Error>(v@) && crate::wire::spec_wf(v@),
            Err(e) => rdecode(input@) == Err::<SpecResp, Error>(e),
        },
{
    match decode_value(input, 0) {
        Ok((v, p)) => {
            if p == input.len() {
                Ok(v)
            } else {
                Err(Error::TrailingDataError)
            }
        },
        Err(e) => Err(e),
    }
}

/// Decodes exactly one top-level value from the UTF-8 bytes of `s`, as
/// [`from_bytes`] does.
pub fn from_str(s: &str) -> (r: Result<RESPType, Error>)
    ensures
        match r {
            Ok(v) => rdecode(vstd::utf8::encode_utf8(s@)) == Ok::<SpecResp, Error>(v@)
                && crate::wire::spec_wf(v@),
            Err(e) => rdecode(vstd::utf8::encode_utf8(s@)) == Err::<SpecResp, Error>(e),
        },
{
    from_bytes(s.as_bytes())
}

/// Decoder state over a byte buffer: the bytes and the read position.
pub struct Deserializer {
    input: Vec<u8>,
    pos: usize,
}

impl Deserializer {
    /// The bytes the deserializer reads from.
    pub closed spec fn bytes(&self) -> Seq<u8> {
        self.input@
    }

    /// The current read position.
    pub closed spec fn position(&self) -> int {
        self.pos as int
    }

    /// The read position never passes the end of the buffer.
    pub closed spec fn wf(&self) -> bool {
        self.pos <= self.input@.len()
    }

    /// Builds a deserializer over a buffer of wire bytes, positioned at its
    /// start.
    pub fn from_buf_reader(input: Vec<u8>) -> (d: Deserializer)
        ensures
            d.wf(),
            d.bytes() == input@,
            d.position() == 0,
    {
        Deserializer { input, pos: 0 }
    }

    /// Reads one line and parses it as a signed length in the `isize` range,
    /// consuming the line; a malformed or out-of-range length is a `Syntax`
    /// error, a missing terminator an `Eof`.
    pub fn read_isize(&mut self) -> (r: Result<isize, Error>)
        requires
            old(self).wf(),
        ensures
            final(self).wf(),
            final(self).bytes() == old(self).bytes(),
            match r {
                Ok(v) => spec_read_isize(old(self).bytes(), old(self).position()) == Ok::<
                    (int, int),
                    Error,
                >((v as int, final(self).position())),
                Err(e) => spec_read_isize(old(self).bytes(), old(self).position()) == Err::<
                    (int, int),
                    Error,
                >(e),
            },
    {
        match read_line_at(self.input.as_slice(), self.pos) {
            Ok((line, p2)) => {
                self.pos = p2;
                match parse_decimal_isize(line.as_slice()) {
                    Some(v) => Ok(v),
                    None => Err(Error::Syntax),
                }
            },
            Err(e) => Err(e),
        }
    }

    /// Decodes exactly one value at the current position and advances past
    /// it; on an error the position is unchanged and the caller must treat
    /// the input as partially consumed.
    pub fn deserialize_any(&mut self) -> (r: Result<RESPType, Error>)
        requires
            old(self).wf(),
        ensures
            final(self).wf(),
            final(self).bytes() == old(self).bytes(),
            match r {
                Ok(v) => rdecode_at(old(self).bytes(), old(self).position()) == Ok::<
                    (SpecResp, int),
                    Error,
                >((v@, final(self).position())) && old(self).position() < final(self).position()
                    && crate::wire::spec_wf(v@),
                Err(e) => rdecode_at(old(self).bytes(), old(self).position()) == Err::<
                    (SpecResp, int),
                    Error,
                >(e) && final(self).position() == old(self).position(),
            },
    {
        match decode_value(self.input.as_slice(), self.pos) {
            Ok((v, p)) => {
                self.pos = p;
                Ok(v)
            },
            Err(e) => Err(e),
        }
    }

    /// True when every byte of the buffer has been consumed.
    pub fn finished(&self) -> (r: bool)
        ensures
            r <==> self.position() == self.bytes().len(),
    {
        self.pos == self.input.len()
    }
}

} // verus!

