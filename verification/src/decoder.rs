//! Turning bytes into text.
//!
//! Text is UTF-8. A document may declare another encoding; if the declared
//! encoding is not UTF-8 or a subset of it, decoding reports an error rather
//! than guessing.

use vstd::prelude::*;
use vstd::utf8::{decode_utf8, valid_utf8};
use crate::errors::Error;
use crate::scan::to_vec;

verus! {

/// `String::from_utf8` of the standard library: the text that the bytes
/// encode in UTF-8, or nothing where they are not valid UTF-8.
#[verifier::external_body]
fn string_from_utf8(bytes: Vec<u8>) -> (r: Option<String>)
    ensures
        r is Some <==> valid_utf8(bytes@),
        r matches Some(s) ==> s@ == decode_utf8(bytes@),
{
    match String::from_utf8(bytes) {
        Ok(s) => Some(s),
        Err(_) => None,
    }
}

/// The upper-case form of an ASCII letter; any other byte is left alone.
pub open spec fn upper(b: u8) -> u8 {
    if 0x61 <= b <= 0x7a {
        (b - 0x20) as u8
    } else {
        b
    }
}

/// Whether two spans are equal up to the case of ASCII letters.
pub open spec fn same_ignoring_case(a: Seq<u8>, b: Seq<u8>) -> bool {
    a.len() == b.len() && forall|i: int| 0 <= i < a.len() ==> upper(#[trigger] a[i]) == upper(b[i])
}

/// The label `UTF-8`.
pub open spec fn label_utf8() -> Seq<u8> {
    seq![0x55u8, 0x54u8, 0x46u8, 0x2du8, 0x38u8]
}

/// The label `UTF8`.
pub open spec fn label_utf8_short() -> Seq<u8> {
    seq![0x55u8, 0x54u8, 0x46u8, 0x38u8]
}

/// The label `US-ASCII`.
pub open spec fn label_us_ascii() -> Seq<u8> {
    seq![0x55u8, 0x53u8, 0x2du8, 0x41u8, 0x53u8, 0x43u8, 0x49u8, 0x49u8]
}

/// The label `ASCII`.
pub open spec fn label_ascii() -> Seq<u8> {
    seq![0x41u8, 0x53u8, 0x43u8, 0x49u8, 0x49u8]
}

/// Whether an encoding label names UTF-8 or ASCII, in any case.
pub open spec fn is_utf8_label(label: Seq<u8>) -> bool {
    same_ignoring_case(label, label_utf8()) || same_ignoring_case(label, label_utf8_short())
        || same_ignoring_case(label, label_us_ascii()) || same_ignoring_case(label, label_ascii())
}

/// What decoding `bytes` gives: their text, if the encoding is supported
/// and the bytes are valid UTF-8.
pub open spec fn decoded(supported: bool, bytes: Seq<u8>) -> Result<Seq<char>, Error> {
    if supported && valid_utf8(bytes) {
        Ok(decode_utf8(bytes))
    } else {
        Err(Error::UnsupportedEncoding)
    }
}

/// Whether `r` is the text or the error that `expected` describes.
pub open spec fn is_decoded(r: Result<String, Error>, expected: Result<Seq<char>, Error>) -> bool {
    match expected {
        Ok(text) => r matches Ok(s) && s@ == text,
        Err(e) => r == Err::<String, Error>(e),
    }
}

/// Makes an ASCII letter upper-case.
fn to_upper(b: u8) -> (r: u8)
    ensures
        r == upper(b),
{
    if 0x61 <= b && b <= 0x7a {
        b - 0x20
    } else {
        b
    }
}

/// Compares two spans up to the case of ASCII letters.
pub fn eq_ignore_case(a: &[u8], b: &[u8]) -> (r: bool)
    ensures
        r == same_ignoring_case(a@, b@),
{
    if a.len() != b.len() {
        return false;
    }
    let mut i: usize = 0;
    while i < a.len()
        invariant
            a@.len() == b@.len(),
            i <= a@.len(),
            forall|k: int| 0 <= k < i ==> upper(#[trigger] a@[k]) == upper(b@[k]),
        decreases a@.len() - i,
    {
        if to_upper(a[i]) != to_upper(b[i]) {
            return false;
        }
        i += 1;
    }
    true
}

/// Converts bytes to text under the encoding that a document declared.
#[derive(Debug, Clone, Copy, PartialEq, Eq)]
pub struct Decoder {
    utf8: bool,
}

impl Decoder {
    /// Whether the declared encoding can be decoded.
    pub closed spec fn supported(&self) -> bool {
        self.utf8
    }

    /// The decoder for a document that declares no encoding: UTF-8.
    pub fn utf8() -> (r: Self)
        ensures
            r.supported(),
    {
        Decoder { utf8: true }
    }

    /// The decoder for a document whose declared encoding cannot be
    /// decoded.
    pub fn unsupported() -> (r: Self)
        ensures
            !r.supported(),
    {
        Decoder { utf8: false }
    }

    /// The decoder for a document that declares the encoding `label`.
    pub fn for_label(label: &[u8]) -> (r: Self)
        ensures
            r.supported() == is_utf8_label(label@),
    {
        let utf8: [u8; 5] = [0x55, 0x54, 0x46, 0x2d, 0x38];
        let utf8_short: [u8; 4] = [0x55, 0x54, 0x46, 0x38];
        let us_ascii: [u8; 8] = [0x55, 0x53, 0x2d, 0x41, 0x53, 0x43, 0x49, 0x49];
        let ascii: [u8; 5] = [0x41, 0x53, 0x43, 0x49, 0x49];
        assert(utf8@ =~= label_utf8());
        assert(utf8_short@ =~= label_utf8_short());
        assert(us_ascii@ =~= label_us_ascii());
        assert(ascii@ =~= label_ascii());
        let known = eq_ignore_case(label, utf8.as_slice()) || eq_ignore_case(
            label,
            utf8_short.as_slice(),
        ) || eq_ignore_case(label, us_ascii.as_slice()) || eq_ignore_case(label, ascii.as_slice());
        Decoder { utf8: known }
    }

    /// Whether the declared encoding can be decoded.
    pub fn is_supported(&self) -> (r: bool)
        ensures
            r == self.supported(),
    {
        self.utf8
    }

    /// Decodes `bytes` as UTF-8.
    ///
    /// Fails with `UnsupportedEncoding` where the document declared an
    /// encoding that is not UTF-8 or ASCII, or where the bytes are not valid
    /// UTF-8.
    pub fn decode(&self, bytes: &[u8]) -> (r: Result<String, Error>)
        ensures
            is_decoded(r, decoded(self.supported(), bytes@)),
    {
        if !self.utf8 {
            return Err(Error::UnsupportedEncoding);
        }
        match string_from_utf8(to_vec(bytes)) {
            Some(s) => Ok(s),
            None => Err(Error::UnsupportedEncoding),
        }
    }
}

} // verus!
