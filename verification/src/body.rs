//! The HTTP message body carried by requests and responses: absent, UTF-8
//! text, or raw binary.  A body built from bytes is classified eagerly:
//! valid UTF-8 becomes text, anything else stays binary.

use vstd::prelude::*;
use vstd::utf8::{encode_utf8, valid_utf8};

verus! {

/// An HTTP payload, uniform over the ways the platform can deliver it.
pub enum Body {
    /// No payload at all.
    Empty,
    /// A payload that is valid UTF-8, kept as text.
    Text(String),
    /// A payload that is not valid UTF-8, kept as raw bytes.
    Binary(Vec<u8>),
}

impl View for Body {
    type V = Seq<u8>;

    /// A body is modelled by its raw bytes.
    open spec fn view(&self) -> Seq<u8> {
        match self {
            Body::Empty => Seq::empty(),
            Body::Text(s) => encode_utf8(s@),
            Body::Binary(v) => v@,
        }
    }
}

/// Relies on String::from_utf8: it returns the input bytes as a string
/// exactly when they are valid UTF-8, and FromUtf8Error::into_bytes hands
/// the input back unchanged otherwise.
#[verifier::external_body]
pub(crate) fn string_from_utf8(b: Vec<u8>) -> (r: Result<String, Vec<u8>>)
    ensures
        match r {
            Ok(s) => valid_utf8(b@) && encode_utf8(s@) == b@,
            Err(v) => !valid_utf8(b@) && v@ == b@,
        },
{
    match String::from_utf8(b) {
        Ok(s) => Ok(s),
        Err(e) => Err(e.into_bytes()),
    }
}

impl Body {
    /// The invariant every constructed body satisfies: text is never empty
    /// (an empty payload is `Empty`), and binary bytes are never valid UTF-8
    /// (such bytes would have become text).
    pub open spec fn wf(&self) -> bool {
        match self {
            Body::Empty => true,
            Body::Text(s) => s@.len() != 0,
            Body::Binary(v) => !valid_utf8(v@),
        }
    }

    /// Classify raw bytes: empty bytes give `Empty`, valid UTF-8 gives
    /// `Text`, everything else gives `Binary`.  The bytes are preserved
    /// exactly in every case.
    pub fn from_bytes(b: Vec<u8>) -> (r: Body)
        ensures
            r@ == b@,
            r.wf(),
            b@.len() == 0 ==> r is Empty,
            b@.len() != 0 && valid_utf8(b@) ==> r is Text,
            !valid_utf8(b@) ==> r is Binary,
    {
        if b.len() == 0 {
            proof {
                assert(b@ =~= Seq::<u8>::empty());
            }
            Body::Empty
        } else {
            match string_from_utf8(b) {
                Ok(s) => {
                    proof {
                        if s@.len() == 0 {
                            assert(encode_utf8(s@) =~= Seq::<u8>::empty());
                        }
                    }
                    Body::Text(s)
                },
                Err(v) => Body::Binary(v),
            }
        }
    }

    /// A body made of text: `Empty` for the empty string, `Text` otherwise.
    pub fn from_text(s: String) -> (r: Body)
        ensures
            r@ == encode_utf8(s@),
            r.wf(),
            s@.len() == 0 ==> r is Empty,
            s@.len() != 0 ==> r == Body::Text(s),
    {
        if s.as_str().is_empty() {
            proof {
                assert(encode_utf8(s@) =~= Seq::<u8>::empty());
            }
            Body::Empty
        } else {
            Body::Text(s)
        }
    }

    /// The payload length in bytes: 0 for `Empty`, the UTF-8 byte length for
    /// `Text`, the byte count for `Binary`.
    pub fn len(&self) -> (r: usize)
        ensures
            r == self@.len(),
    {
        match self {
            Body::Empty => 0,
            Body::Text(s) => s.as_str().as_bytes().len(),
            Body::Binary(v) => v.len(),
        }
    }

    /// Whether the body carries no bytes.
    pub fn is_empty(&self) -> (r: bool)
        ensures
            r == (self@.len() == 0),
    {
        self.len() == 0
    }

    /// The raw bytes of the body, whatever its variant.
    pub fn bytes(&self) -> (r: Vec<u8>)
        ensures
            r@ == self@,
    {
        match self {
            Body::Empty => Vec::new(),
            Body::Text(s) => s.as_str().as_bytes_vec(),
            Body::Binary(v) => v.clone(),
        }
    }

    /// Whether this body is the `Text` variant.
    pub fn is_text(&self) -> (r: bool)
        ensures
            r == (self is Text),
    {
        match self {
            Body::Text(_) => true,
            _ => false,
        }
    }

    /// Whether this body is the `Binary` variant.
    pub fn is_binary(&self) -> (r: bool)
        ensures
            r == (self is Binary),
    {
        match self {
            Body::Binary(_) => true,
            _ => false,
        }
    }

    /// The text of a `Text` body.
    pub fn as_text(&self) -> (r: Option<&String>)
        ensures
            match r {
                Some(s) => *self == Body::Text(*s),
                None => !(self is Text),
            },
    {
        match self {
            Body::Text(s) => Some(s),
            _ => None,
        }
    }
}

} // verus!
