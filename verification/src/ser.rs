//! Executable encoder from [`RESPType`] values to wire bytes.
//!
//! [`Serializer`] appends to a growing byte buffer; every method states in
//! its contract exactly which bytes it appends, in terms of the wire grammar
//! of [`crate::wire`]. [`to_writer`] and [`to_string`] are the top-level
//! entry points.

use crate::error::Error;
use crate::wire::{
    crlf, dec_int, dec_nat, rencode, rencode_seq, TAG_ARRAY, TAG_BULK, TAG_ERROR, TAG_INTEGER,
    TAG_SIMPLE,
};
use crate::{resp_view, views, RESPType};
use vstd::prelude::*;
use vstd::utf8::{decode_utf8, valid_utf8};

verus! {

/// Appends the decimal ASCII digits of `v` to `out`.
///
/// Relies on `itoa::Buffer::format`, which prints an unsigned integer in
/// base-10 ASCII exactly as core's `Display` does: the digits of the value,
/// most significant first, without sign or leading zeros.
#[verifier::external_body]
fn write_dec_u64(out: &mut Vec<u8>, v: u64)
    ensures
        final(out)@ == old(out)@ + dec_nat(v as nat),
{
    let mut buffer = itoa::Buffer::new();
    out.extend_from_slice(buffer.format(v).as_bytes());
}

/// Encoder state: the bytes written so far.
pub struct Serializer {
    out: Vec<u8>,
}

impl Serializer {
    /// The bytes written so far.
    pub closed spec fn buf(&self) -> Seq<u8> {
        self.out@
    }

    /// A serializer with an empty output buffer.
    pub fn new() -> (s: Serializer)
        ensures
            s.buf() == Seq::<u8>::empty(),
    {
        Serializer { out: Vec::new() }
    }

    /// Hands the written bytes out.
    pub fn into_bytes(self) -> (r: Vec<u8>)
        ensures
            r@ == self.buf(),
    {
        self.out
    }

    /// Appends one byte.
    fn push_byte(&mut self, b: u8)
        ensures
            final(self).buf() == old(self).buf() + seq![b],
    {
        self.out.push(b);
        assert(self.out@ =~= old(self).out@ + seq![b]);
    }

    /// Appends the line terminator.
    fn write_crlf(&mut self)
        ensures
            final(self).buf() == old(self).buf() + crlf(),
    {
        self.out.push(crate::wire::CR);
        self.out.push(crate::wire::LF);
        assert(self.out@ =~= old(self).out@ + crlf());
    }

    /// Appends the decimal digits of `v`.
    fn write_dec(&mut self, v: u64)
        ensures
            final(self).buf() == old(self).buf() + dec_nat(v as nat),
    {
        write_dec_u64(&mut self.out, v);
    }

    /// Rejects the boolean shape: it is outside the five-variant model.
    pub fn serialize_bool(&mut self, v: bool) -> (r: Result<(), Error>)
        ensures
            r == Err::<(), Error>(Error::UnsupportedType),
            final(self).buf() == old(self).buf(),
    {
        let _ = v;
        Err(Error::UnsupportedType)
    }

    /// Encodes an integer line: tag `:`, the signed decimal digits, terminator.
    pub fn serialize_i64(&mut self, v: i64) -> (r: Result<(), Error>)
        ensures
            r is Ok,
            final(self).buf() == old(self).buf() + seq![TAG_INTEGER] + dec_int(v as int) + crlf(),
    {
        self.push_byte(TAG_INTEGER);
        if v < 0 {
            self.push_byte(45);  // '-'
            let m: u64 = if v == i64::MIN {
                9223372036854775808u64
            } else {
                (-v) as u64
            };
            self.write_dec(m);
            assert(dec_int(v as int) =~= seq![45u8] + dec_nat(m as nat));
        } else {
            self.write_dec(v as u64);
        }
        assert(self.buf() =~= old(self).buf() + seq![TAG_INTEGER] + dec_int(v as int));
        self.write_crlf();
        Ok(())
    }

    /// Widens and encodes as a signed 64-bit integer line.
    pub fn serialize_i8(&mut self, v: i8) -> (r: Result<(), Error>)
        ensures
            r is Ok,
            final(self).buf() == old(self).buf() + seq![TAG_INTEGER] + dec_int(v as int) + crlf(),
    {
        self.serialize_i64(v as i64)
    }

    /// Widens and encodes as a signed 64-bit integer line.
    pub fn serialize_i16(&mut self, v: i16) -> (r: Result<(), Error>)
        ensures
            r is Ok,
            final(self).buf() == old(self).buf() + seq![TAG_INTEGER] + dec_int(v as int) + crlf(),
    {
        self.serialize_i64(v as i64)
    }

    /// Widens and encodes as a signed 64-bit integer line.
    pub fn serialize_i32(&mut self, v: i32) -> (r: Result<(), Error>)
        ensures
            r is Ok,
            final(self).buf() == old(self).buf() + seq![TAG_INTEGER] + dec_int(v as int) + crlf(),
    {
        self.serialize_i64(v as i64)
    }

    /// Encodes an unsigned value as an integer line; a magnitude above the
    /// signed 64-bit maximum is rejected before any byte is written.
    pub fn serialize_u64(&mut self, v: u64) -> (r: Result<(), Error>)
        ensures
            v <= i64::MAX as u64 ==> r is Ok && final(self).buf() == old(self).buf()
                + seq![TAG_INTEGER] + dec_int(v as int) + crlf(),
            v > i64::MAX as u64 ==> r == Err::<(), Error>(Error::IntegerOutOfBound)
                && final(self).buf() == old(self).buf(),
    {
        if v > i64::MAX as u64 {
            Err(Error::IntegerOutOfBound)
        } else {
            self.serialize_i64(v as i64)
        }
    }

    /// Widens and encodes as an integer line; always in range.
    pub fn serialize_u8(&mut self, v: u8) -> (r: Result<(), Error>)
        ensures
            r is Ok,
            final(self).buf() == old(self).buf() + seq![TAG_INTEGER] + dec_int(v as int) + crlf(),
    {
        self.serialize_u64(v as u64)
    }

    /// Widens and encodes as an integer line; always in range.
    pub fn serialize_u16(&mut self, v: u16) -> (r: Result<(), Error>)
        ensures
            r is Ok,
            final(self).buf() == old(self).buf() + seq![TAG_INTEGER] + dec_int(v as int) + crlf(),
    {
        self.serialize_u64(v as u64)
    }

    /// Widens and encodes as an integer line; always in range.
    pub fn serialize_u32(&mut self, v: u32) -> (r: Result<(), Error>)
        ensures
            r is Ok,
            final(self).buf() == old(self).buf() + seq![TAG_INTEGER] + dec_int(v as int) + crlf(),
    {
        self.serialize_u64(v as u64)
    }

    /// Appends the raw bytes of one line of text followed by the terminator.
    /// The tag, where one is wanted, is the caller's to write first.
    pub fn serialize_str(&mut self, v: &str) -> (r: Result<(), Error>)
        ensures
            r is Ok,
            final(self).buf() == old(self).buf() + vstd::utf8::encode_utf8(v@) + crlf(),
    {
        self.out.extend_from_slice(v.as_bytes());
        self.write_crlf();
        Ok(())
    }

    /// Encodes a non-null bulk string: tag `$`, the decimal payload length,
    /// terminator, the payload verbatim, terminator.
    pub fn serialize_bytes(&mut self, v: &[u8]) -> (r: Result<(), Error>)
        ensures
            r is Ok,
            final(self).buf() == old(self).buf() + seq![TAG_BULK] + dec_nat(v@.len()) + crlf()
                + v@ + crlf(),
    {
        self.push_byte(TAG_BULK);
        self.write_dec(v.len() as u64);
        self.write_crlf();
        self.out.extend_from_slice(v);
        assert(self.buf() =~= old(self).buf() + seq![TAG_BULK] + dec_nat(v@.len()) + crlf()
            + v@);
        self.write_crlf();
        Ok(())
    }

    /// Encodes a null bulk string or a null array: the given tag with
    /// length -1.
    fn write_null(&mut self, tag: u8)
        ensures
            final(self).buf() == old(self).buf() + seq![tag] + dec_int(-1) + crlf(),
    {
        self.push_byte(tag);
        self.push_byte(45);  // '-'
        self.push_byte(49);  // '1'
        assert(self.buf() =~= old(self).buf() + seq![tag] + dec_int(-1));
        self.write_crlf();
    }
}

impl RESPType {
    /// Encodes this value onto the serializer: exactly the wire encoding
    /// [`rencode`] of its view is appended, and nothing else.
    #[verifier::loop_isolation(false)]
    pub fn serialize(&self, s: &mut Serializer) -> (r: Result<(), Error>)
        ensures
            r is Ok,
            final(s).buf() == old(s).buf() + rencode(self@),
        decreases *self,
    {
        match self {
            RESPType::SimpleString(text) => {
                s.push_byte(TAG_SIMPLE);
                let r = s.serialize_str(text.as_str());
                assert(s.buf() =~= old(s).buf() + rencode(self@));
                r
            },
            RESPType::Error(text) => {
                s.push_byte(TAG_ERROR);
                let r = s.serialize_str(text.as_str());
                assert(s.buf() =~= old(s).buf() + rencode(self@));
                r
            },
            RESPType::Integer(i) => {
                let r = s.serialize_i64(*i);
                assert(s.buf() =~= old(s).buf() + rencode(self@));
                r
            },
            RESPType::BulkString(None) => {
                s.write_null(TAG_BULK);
                Ok(())
            },
            RESPType::BulkString(Some(payload)) => {
                let r = s.serialize_bytes(payload.as_slice());
                assert(s.buf() =~= old(s).buf() + rencode(self@));
                r
            },
            RESPType::Array(None) => {
                s.write_null(TAG_ARRAY);
                Ok(())
            },
            RESPType::Array(Some(elems)) => {
                s.push_byte(TAG_ARRAY);
                s.write_dec(elems.len() as u64);
                s.write_crlf();
                let ghost header = old(s).buf() + seq![TAG_ARRAY] + dec_nat(elems@.len()) + crlf();
                assert(s.buf() =~= header);
                proof {
                    crate::lemma_views_len(elems@);
                }
                let n = elems.len();
                let mut i: usize = 0;
                while i < n
                    invariant
                        i <= n,
                        n == elems@.len(),
                        views(elems@).len() == n,
                        s.buf() == header + rencode_seq(views(elems@).take(i as int)),
                    decreases n - i,
                {
                    proof {
                        crate::lemma_views_index(elems@, i as int);
                        // the element is structurally below the whole value
                        let opt = (*self)->Array_0;
                        let vv = opt->0;
                        assert(vv == *elems);
                        assert(decreases_to!(*self => opt));
                        assert(decreases_to!(opt => vv));
                        assert(decreases_to!(vv => vv@));
                        assert(decreases_to!(vv@ => vv@[i as int]));
                        assert(decreases_to!(*self => elems@[i as int]));
                    }
                    let _ = elems[i].serialize(s);
                    proof {
                        crate::wire::lemma_rencode_seq_push(
                            views(elems@).take(i as int),
                            resp_view(elems@[i as int]),
                        );
                        assert(views(elems@).take(i as int + 1) =~= views(elems@).take(
                            i as int,
                        ).push(resp_view(elems@[i as int])));
                    }
                    i = i + 1;
                }
                proof {
                    assert(views(elems@).take(n as int) =~= views(elems@));
                    assert(header + rencode_seq(views(elems@)) =~= old(s).buf() + rencode(
                        self@,
                    ));
                }
                Ok(())
            },
        }
    }
}

/// Encodes a value, appending its wire bytes to `writer`; encoding a value of
/// the five-variant model never fails.
///
/// Content is not validated here: keeping the data-model invariants (see
/// [`RESPType::is_well_formed`]) is the caller's responsibility, and only a
/// value that respects them has an encoding that decodes back to it.
pub fn to_writer(value: &RESPType, writer: &mut Vec<u8>) -> (r: Result<(), Error>)
    ensures
        r is Ok,
        final(writer)@ == old(writer)@ + rencode(value@),
{
    let mut s = Serializer::new();
    let r = value.serialize(&mut s);
    let mut bytes = s.into_bytes();
    writer.append(&mut bytes);
    r
}

/// Encodes a value to text: succeeds with the encoding read as UTF-8 exactly
/// when the encoding is valid UTF-8 (a binary bulk payload may not be), and
/// fails with `TextEncodingError` otherwise.
pub fn to_string(value: &RESPType) -> (r: Result<String, Error>)
    ensures
        match r {
            Ok(s) => valid_utf8(rencode(value@)) && s@ == decode_utf8(rencode(value@)),
            Err(e) => e == Error::TextEncodingError && !valid_utf8(rencode(value@)),
        },
{
    let mut s = Serializer::new();
    let _ = value.serialize(&mut s);
    let bytes = s.into_bytes();
    match crate::de::string_from_utf8(bytes) {
        Some(text) => Ok(text),
        None => Err(Error::TextEncodingError),
    }
}

} // verus!
