//! Trie key paths: a byte string split into its half-byte digits.

use vstd::prelude::*;

verus! {

/// The nibble path of a byte string: each byte yields its high then its
/// low half-byte.
pub open spec fn unpack_spec(s: Seq<u8>) -> Seq<u8> {
    Seq::new(s.len() * 2, |i: int| if i % 2 == 0 {
        (s[i / 2] >> 4u8) as u8
    } else {
        (s[i / 2] & 0x0fu8) as u8
    })
}

/// Relies on nybbles::Nibbles::unpack: each input byte becomes its high
/// then its low half-byte; inputs over 32 bytes are not accepted there.
#[verifier::external_body]
pub(crate) fn unpack_nibbles(data: &Vec<u8>) -> (r: Vec<u8>)
    requires
        data@.len() <= 32,
    ensures
        r@ == unpack_spec(data@),
{
    nybbles::Nibbles::unpack(data.as_slice()).to_vec()
}

} // verus!
