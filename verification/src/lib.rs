//! Codec for the RESP (REdis Serialization Protocol) wire format.
//!
//! The protocol has exactly five value shapes, modelled by [`RESPType`]:
//! simple strings, errors, signed 64-bit integers, bulk strings (binary-safe,
//! possibly null) and arrays (possibly null, possibly nested).
//!
//! To serialize, use [`ser::to_string`] or [`ser::to_writer`].
//! To deserialize, use [`de::from_str`] or [`de::from_bytes`].
//!
//! Every encoder and decoder function carries a contract stated over
//! [`SpecResp`], the mathematical counterpart of [`RESPType`], and over the
//! wire-grammar specification functions in [`wire`]: the encoder appends
//! exactly [`wire::rencode`] of the value, and the decoder returns exactly
//! what [`wire::rdecode`] says, value or error. [`wire::lemma_round_trip`]
//! proves that decoding inverts encoding on every value that respects the
//! data-model invariants, and [`wire::lemma_rdecode_at_wf`] that every
//! decoded value respects them.

pub mod de;
mod error;
pub mod ser;
pub mod wire;

pub use error::Error;

use vstd::prelude::*;

verus! {

/// One-to-one model of the five RESP wire shapes.
///
/// `BulkString(None)` is the null bulk string and `Array(None)` the null
/// array; both are distinct from their present-but-empty counterparts.
#[derive(Debug, PartialEq, Eq)]
pub enum RESPType {
    /// Line-oriented text, wire tag `+`.
    SimpleString(String),
    /// Line-oriented text, wire tag `-`; differs from `SimpleString` only by tag.
    Error(String),
    /// Signed 64-bit integer, wire tag `:`.
    Integer(i64),
    /// Binary-safe byte payload, wire tag `$`; `None` is the null bulk string.
    BulkString(Option<Vec<u8>>),
    /// Ordered, freely mixed, possibly nested elements, wire tag `*`;
    /// `None` is the null array.
    Array(Option<Vec<RESPType>>),
}

/// Alias for [`RESPType`].
pub type RESP = RESPType;

/// Mathematical counterpart of [`RESPType`]: text as `Seq<char>`, bytes as
/// `Seq<u8>`, integers unbounded. All contracts of this crate speak of values
/// of this shape, obtained through the view `@` of [`RESPType`].
pub enum SpecResp {
    SimpleString(Seq<char>),
    Error(Seq<char>),
    Integer(int),
    BulkString(Option<Seq<u8>>),
    Array(Option<Seq<SpecResp>>),
}

/// The view of a sequence of [`RESPType`] values, element by element.
pub open spec fn views(s: Seq<RESPType>) -> Seq<SpecResp>
    decreases s,
{
    if s.len() == 0 {
        Seq::empty()
    } else {
        seq![resp_view(s[0])] + views(s.drop_first())
    }
}

/// The view of a [`RESPType`] value: the same tree over mathematical types.
pub open spec fn resp_view(v: RESPType) -> SpecResp
    decreases v,
{
    match v {
        RESPType::SimpleString(s) => SpecResp::SimpleString(s@),
        RESPType::Error(s) => SpecResp::Error(s@),
        RESPType::Integer(i) => SpecResp::Integer(i as int),
        RESPType::BulkString(None) => SpecResp::BulkString(None),
        RESPType::BulkString(Some(p)) => SpecResp::BulkString(Some(p@)),
        RESPType::Array(None) => SpecResp::Array(None),
        RESPType::Array(Some(a)) => SpecResp::Array(Some(views(a@))),
    }
}

impl View for RESPType {
    type V = SpecResp;

    open spec fn view(&self) -> SpecResp {
        resp_view(*self)
    }
}

/// The view of a sequence has the sequence's length.
pub proof fn lemma_views_len(s: Seq<RESPType>)
    ensures
        views(s).len() == s.len(),
    decreases s,
{
    if s.len() > 0 {
        lemma_views_len(s.drop_first());
    }
}

/// The view of a sequence is the view of its elements, position by position.
pub proof fn lemma_views_index(s: Seq<RESPType>, i: int)
    requires
        0 <= i < s.len(),
    ensures
        views(s).len() == s.len(),
        views(s)[i] == resp_view(s[i]),
    decreases s,
{
    lemma_views_len(s);
    if i > 0 {
        lemma_views_index(s.drop_first(), i - 1);
    }
}

/// True when the bytes of `s` contain the line terminator sequence, which
/// line-oriented content must not; in particular, text without a carriage
/// return directly followed by a line feed passes.
fn text_contains_terminator(s: &str) -> (r: bool)
    ensures
        r == wire::contains_crlf(vstd::utf8::encode_utf8(s@)),
        r ==> exists|i: int|
            0 <= i && i + 1 < s@.len() && s@[i] == '\r' && #[trigger] s@[i + 1] == '\n',
{
    let bytes = s.as_bytes();
    proof {
        wire::lemma_find_crlf_complete(bytes@, 0);
        if wire::contains_crlf(vstd::utf8::encode_utf8(s@)) {
            if forall|i: int|
                0 <= i && i + 1 < s@.len() ==> !(s@[i] == '\r' && #[trigger] s@[i + 1] == '\n') {
                wire::lemma_text_line_wf(s@);
            }
        }
    }
    match de::find_terminator(bytes, 0) {
        Some(_) => true,
        None => false,
    }
}

impl RESPType {
    /// Tests the data-model invariants that [`wire::spec_wf`] states: text
    /// free of the terminator sequence, lengths within the length framing.
    /// Encoding never validates; a value passing this test is exactly one
    /// whose encoding decodes back to it.
    #[verifier::loop_isolation(false)]
    pub fn is_well_formed(&self) -> (r: bool)
        ensures
            r == wire::spec_wf(self@),
        decreases *self,
    {
        match self {
            RESPType::SimpleString(s) => !text_contains_terminator(s.as_str()),
            RESPType::Error(s) => !text_contains_terminator(s.as_str()),
            RESPType::Integer(_) => true,
            RESPType::BulkString(None) => true,
            RESPType::BulkString(Some(p)) => p.len() <= isize::MAX as usize,
            RESPType::Array(None) => true,
            RESPType::Array(Some(elems)) => {
                proof {
                    lemma_views_len(elems@);
                    wire::lemma_wf_seq_forall(views(elems@));
                }
                if elems.len() > isize::MAX as usize {
                    return false;
                }
                let n = elems.len();
                let mut i: usize = 0;
                while i < n
                    invariant
                        i <= n,
                        n == elems@.len(),
                        forall|j: int| 0 <= j < i ==> wire::spec_wf(#[trigger] views(elems@)[j]),
                    decreases n - i,
                {
                    proof {
                        lemma_views_index(elems@, i as int);
                        // the element is structurally below the whole value
                        let opt = (*self)->Array_0;
                        let vv = opt->0;
                        assert(vv == *elems);
                        assert(decreases_to!(*self => opt));
                        assert(decreases_to!(opt => vv));
                        assert(decreases_to!(vv => vv@));
                        assert(decreases_to!(vv@ => vv@[i as int]));
                        assert(decreases_to!(*self => elems@[i as int]));
                    }
                    if !elems[i].is_well_formed() {
                        return false;
                    }
                    i = i + 1;
                }
                true
            },
        }
    }
}

impl Clone for RESPType {
    /// A deep copy: the clone has the same view as the original, and with it
    /// the same encoding.
    #[verifier::loop_isolation(false)]
    fn clone(&self) -> (r: Self)
        ensures
            r@ == self@,
        decreases *self,
    {
        match self {
            RESPType::SimpleString(s) => RESPType::SimpleString(s.clone()),
            RESPType::Error(s) => RESPType::Error(s.clone()),
            RESPType::Integer(i) => RESPType::Integer(*i),
            RESPType::BulkString(None) => RESPType::BulkString(None),
            RESPType::BulkString(Some(p)) => RESPType::BulkString(
                Some(vstd::slice::slice_to_vec(p.as_slice())),
            ),
            RESPType::Array(None) => RESPType::Array(None),
            RESPType::Array(Some(elems)) => {
                let n = elems.len();
                let mut out: Vec<RESPType> = Vec::new();
                let mut i: usize = 0;
                while i < n
                    invariant
                        i <= n,
                        n == elems@.len(),
                        out@.len() == i,
                        views(out@) == views(elems@).take(i as int),
                    decreases n - i,
                {
                    proof {
                        lemma_views_index(elems@, i as int);
                        // the element is structurally below the whole value
                        let opt = (*self)->Array_0;
                        let vv = opt->0;
                        assert(vv == *elems);
                        assert(decreases_to!(*self => opt));
                        assert(decreases_to!(opt => vv));
                        assert(decreases_to!(vv => vv@));
                        assert(decreases_to!(vv@ => vv@[i as int]));
                        assert(decreases_to!(*self => elems@[i as int]));
                    }
                    let c = elems[i].clone();
                    proof {
                        lemma_views_push(out@, c);
                        assert(views(elems@).take(i as int + 1) =~= views(elems@).take(
                            i as int,
                        ).push(resp_view(elems@[i as int])));
                    }
                    out.push(c);
                    i = i + 1;
                }
                proof {
                    lemma_views_len(elems@);
                    assert(views(elems@).take(n as int) =~= views(elems@));
                }
                RESPType::Array(Some(out))
            },
        }
    }
}

/// Appending one value to a sequence appends its view to the sequence's view.
pub proof fn lemma_views_push(s: Seq<RESPType>, x: RESPType)
    ensures
        views(s.push(x)) == views(s).push(resp_view(x)),
    decreases s,
{
    if s.len() == 0 {
        assert(s.push(x)[0] == x);
        assert(s.push(x).drop_first() =~= Seq::<RESPType>::empty());
        assert(views(s.push(x).drop_first()) == Seq::<SpecResp>::empty());
        assert(views(s) == Seq::<SpecResp>::empty());
        assert(views(s.push(x)) =~= views(s).push(resp_view(x)));
    } else {
        lemma_views_push(s.drop_first(), x);
        assert(s.push(x)[0] == s[0]);
        assert(s.push(x).drop_first() =~= s.drop_first().push(x));
        assert(views(s.push(x)) == seq![resp_view(s[0])] + views(s.drop_first().push(x)));
        assert(views(s.push(x)) =~= views(s).push(resp_view(x)));
    }
}

} // verus!
