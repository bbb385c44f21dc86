//! Lowercase hex rendering of subject identifiers.
//!
//! The textual rendering of a subject identifier is lowercase hex with no
//! separators; it is the key under which certificate retrieval services
//! address the certificate.

use vstd::prelude::*;
use crate::ctl::TrustedSubject;

verus! {

/// The lowercase hex digit for a value below sixteen.
pub open spec fn hex_digit(n: u8) -> char {
    if n == 0 {
        '0'
    } else if n == 1 {
        '1'
    } else if n == 2 {
        '2'
    } else if n == 3 {
        '3'
    } else if n == 4 {
        '4'
    } else if n == 5 {
        '5'
    } else if n == 6 {
        '6'
    } else if n == 7 {
        '7'
    } else if n == 8 {
        '8'
    } else if n == 9 {
        '9'
    } else if n == 10 {
        'a'
    } else if n == 11 {
        'b'
    } else if n == 12 {
        'c'
    } else if n == 13 {
        'd'
    } else if n == 14 {
        'e'
    } else {
        'f'
    }
}

/// The lowercase hex rendering of a byte string: two digits per byte, high
/// digit first, no separators.
pub open spec fn hex_of(b: Seq<u8>) -> Seq<char>
    decreases b.len(),
{
    if b.len() == 0 {
        Seq::empty()
    } else {
        hex_of(b.drop_last()) + seq![hex_digit(b.last() / 16), hex_digit(b.last() % 16)]
    }
}

/// Relies on hex::encode: for each input byte, in order, it appends the
/// lowercase hex digits of the high then the low half-byte.
#[verifier::external_body]
pub(crate) fn encode_hex(b: &Vec<u8>) -> (r: String)
    ensures
        r@ == hex_of(b@),
{
    hex::encode(b.as_slice())
}

impl TrustedSubject {
    /// The certificate's identifier, as bytes.
    pub fn cert_id(&self) -> (r: &Vec<u8>)
        ensures
            r@ == self@.identifier,
    {
        &self.identifier
    }

    /// The certificate's identifier, rendered as lowercase hex with no
    /// separators: two digits per byte, high digit first.
    pub fn cert_id_hex(&self) -> (r: String)
        ensures
            r@ == hex_of(self@.identifier),
    {
        encode_hex(&self.identifier)
    }
}

} // verus!
