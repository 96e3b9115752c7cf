//! The one-way hash used to derive trie keys, and the reserved root of an
//! empty collection.

use vstd::prelude::*;
use crate::types::B256;

verus! {

/// The 32-byte digest of a byte string under the one-way hash.
pub uninterp spec fn keccak_of(data: Seq<u8>) -> Seq<u8>;

/// The reserved 32-byte value that stands for the root of zero leaves.
pub open spec fn empty_root_seq() -> Seq<u8> {
    seq![
        0x56u8, 0xe8u8, 0x1fu8, 0x17u8, 0x1bu8, 0xccu8, 0x55u8, 0xa6u8,
        0xffu8, 0x83u8, 0x45u8, 0xe6u8, 0x92u8, 0xc0u8, 0xf8u8, 0x6eu8,
        0x5bu8, 0x48u8, 0xe0u8, 0x1bu8, 0x99u8, 0x6cu8, 0xadu8, 0xc0u8,
        0x01u8, 0x62u8, 0x2fu8, 0xb5u8, 0xe3u8, 0x63u8, 0xb4u8, 0x21u8,
    ]
}

/// Relies on alloy_primitives::keccak256: the digest is 32 bytes and
/// depends on the input bytes alone.
#[verifier::external_body]
pub(crate) fn keccak256(data: &Vec<u8>) -> (r: B256)
    ensures
        r@ == keccak_of(data@),
        r@.len() == 32,
{
    let digest = alloy_primitives::keccak256(data.as_slice());
    B256 { bytes: digest.as_slice().to_vec() }
}

/// The reserved empty-collection root as a value.
pub fn empty_root() -> (r: B256)
    ensures
        r@ == empty_root_seq(),
        r.wf(),
{
    let bytes: Vec<u8> = vec![
        0x56u8, 0xe8u8, 0x1fu8, 0x17u8, 0x1bu8, 0xccu8, 0x55u8, 0xa6u8,
        0xffu8, 0x83u8, 0x45u8, 0xe6u8, 0x92u8, 0xc0u8, 0xf8u8, 0x6eu8,
        0x5bu8, 0x48u8, 0xe0u8, 0x1bu8, 0x99u8, 0x6cu8, 0xadu8, 0xc0u8,
        0x01u8, 0x62u8, 0x2fu8, 0xb5u8, 0xe3u8, 0x63u8, 0xb4u8, 0x21u8,
    ];
    proof {
        assert(bytes@ =~= empty_root_seq());
    }
    B256 { bytes }
}

} // verus!
