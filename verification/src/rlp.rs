//! Canonical serialization of index keys, storage values and account
//! records: minimal big-endian scalars and single-level list framing.

use vstd::prelude::*;
use crate::types::{AccountModel, TrieAccount};

verus! {

/// The eight big-endian bytes of a 64-bit quantity.
pub open spec fn u64_be(x: u64) -> Seq<u8> {
    Seq::new(8, |i: int| ((x >> (((7 - i) * 8) as u64)) & 0xffu64) as u8)
}

/// Drops every leading zero byte.
pub open spec fn strip_zeros(s: Seq<u8>) -> Seq<u8>
    decreases s.len(),
{
    if s.len() == 0 {
        s
    } else if s[0] == 0u8 {
        strip_zeros(s.subrange(1, s.len() as int))
    } else {
        s
    }
}

/// Serialization of a byte string of at most 55 bytes: a single byte below
/// 0x80 stands for itself, anything else is prefixed with 0x80 plus its
/// length.
pub open spec fn rlp_str(s: Seq<u8>) -> Seq<u8> {
    if s.len() == 1 && s[0] < 0x80u8 {
        s
    } else {
        seq![(0x80 + s.len()) as u8] + s
    }
}

/// Serialization of an unsigned integer given as big-endian bytes: its
/// minimal big-endian form, framed as a byte string.
pub open spec fn rlp_uint_be(s: Seq<u8>) -> Seq<u8> {
    rlp_str(strip_zeros(s))
}

/// Serialization of a 64-bit scalar.
pub open spec fn rlp_scalar(x: u64) -> Seq<u8> {
    rlp_uint_be(u64_be(x))
}

/// Framing of a list whose payload is below 256 bytes: 0xc0 plus the
/// length when it fits 55 bytes, else 0xf8 followed by the length byte.
pub open spec fn rlp_list_header_spec(n: nat) -> Seq<u8> {
    if n < 56 {
        seq![(0xc0 + n) as u8]
    } else {
        seq![0xf8u8, n as u8]
    }
}

/// The concatenated fields of a canonical account record.
pub open spec fn account_payload(a: AccountModel) -> Seq<u8> {
    rlp_scalar(a.nonce) + rlp_uint_be(a.balance) + rlp_str(a.storage_root) + rlp_str(a.code_hash)
}

/// The serialized canonical account record: its four fields as a framed
/// list.
pub open spec fn account_rlp(a: AccountModel) -> Seq<u8> {
    rlp_list_header_spec(account_payload(a).len()) + account_payload(a)
}

/// The stripped sequence is the suffix that starts at the first nonzero
/// byte.
pub proof fn lemma_strip_zeros_suffix(s: Seq<u8>, i: int)
    requires
        0 <= i <= s.len(),
        forall|j: int| 0 <= j < i ==> s[j] == 0u8,
        i == s.len() || s[i] != 0u8,
    ensures
        strip_zeros(s) == s.subrange(i, s.len() as int),
    decreases i,
{
    if i == 0 {
        assert(s.subrange(0, s.len() as int) =~= s);
    } else {
        let s1 = s.subrange(1, s.len() as int);
        lemma_strip_zeros_suffix(s1, i - 1);
        assert(s1.subrange(i - 1, s1.len() as int) =~= s.subrange(i, s.len() as int));
    }
}

/// Stripping never lengthens a sequence.
pub proof fn lemma_strip_zeros_len(s: Seq<u8>)
    ensures
        strip_zeros(s).len() <= s.len(),
    decreases s.len(),
{
    if s.len() > 0 && s[0] == 0u8 {
        lemma_strip_zeros_len(s.subrange(1, s.len() as int));
    }
}

/// Writes a 64-bit quantity as its eight big-endian bytes.
pub fn u64_to_be_bytes(x: u64) -> (r: Vec<u8>)
    ensures
        r@ == u64_be(x),
{
    let mut r: Vec<u8> = Vec::new();
    let mut k: usize = 0;
    while k < 8
        invariant
            k <= 8,
            r@.len() == k,
            forall|j: int| 0 <= j < k ==> r@[j] == u64_be(x)[j],
        decreases 8 - k,
    {
        let sh: u64 = ((7 - k) * 8) as u64;
        r.push(((x >> sh) & 0xffu64) as u8);
        k += 1;
    }
    proof {
        assert(r@ =~= u64_be(x));
    }
    r
}

/// Drops the leading zero bytes of a vector.
pub fn strip_leading_zeros(v: &Vec<u8>) -> (r: Vec<u8>)
    ensures
        r@ == strip_zeros(v@),
{
    let mut i: usize = 0;
    while i < v.len() && v[i] == 0u8
        invariant
            i <= v@.len(),
            forall|j: int| 0 <= j < i ==> v@[j] == 0u8,
        decreases v@.len() - i,
    {
        i += 1;
    }
    let mut r: Vec<u8> = Vec::new();
    let mut k: usize = i;
    while k < v.len()
        invariant
            i <= k <= v@.len(),
            r@ == v@.subrange(i as int, k as int),
        decreases v@.len() - k,
    {
        r.push(v[k]);
        proof {
            assert(r@ =~= v@.subrange(i as int, k + 1));
        }
        k += 1;
    }
    proof {
        lemma_strip_zeros_suffix(v@, i as int);
    }
    r
}

/// Relies on alloy_rlp::encode over a byte slice: a single byte below 0x80
/// is passed through, anything else gains a 0x80-plus-length prefix (short
/// form, payloads of at most 55 bytes).
#[verifier::external_body]
pub(crate) fn rlp_encode_bytes(data: &Vec<u8>) -> (r: Vec<u8>)
    requires
        data@.len() <= 55,
    ensures
        r@ == rlp_str(data@),
{
    alloy_rlp::encode(data.as_slice())
}

/// Relies on alloy_rlp::Header::encode: a list header is 0xc0 plus the
/// payload length when it fits 55 bytes, else 0xf7 plus the byte width of
/// the length, followed by the length itself.
#[verifier::external_body]
pub(crate) fn rlp_list_header(payload_length: usize) -> (r: Vec<u8>)
    requires
        payload_length < 256,
    ensures
        r@ == rlp_list_header_spec(payload_length as nat),
{
    let mut out: Vec<u8> = Vec::new();
    alloy_rlp::Header { list: true, payload_length }.encode(&mut out);
    out
}

/// Serializes an unsigned integer given as big-endian bytes.
pub fn rlp_encode_uint_be(v: &Vec<u8>) -> (r: Vec<u8>)
    requires
        v@.len() <= 55,
    ensures
        r@ == rlp_uint_be(v@),
        r@.len() <= v@.len() + 1,
{
    let stripped = strip_leading_zeros(v);
    proof {
        lemma_strip_zeros_len(v@);
    }
    rlp_encode_bytes(&stripped)
}

/// Serializes a 64-bit scalar.
pub fn rlp_encode_scalar(x: u64) -> (r: Vec<u8>)
    ensures
        r@ == rlp_scalar(x),
        r@.len() <= 9,
{
    let be = u64_to_be_bytes(x);
    rlp_encode_uint_be(&be)
}

/// Serializes a canonical account record.
pub fn encode_account(a: &TrieAccount) -> (r: Vec<u8>)
    requires
        a.wf(),
    ensures
        r@ == account_rlp(a@),
{
    let mut payload = rlp_encode_scalar(a.nonce);
    let mut balance_part = rlp_encode_uint_be(&a.balance.bytes);
    let mut root_part = rlp_encode_bytes(&a.storage_root.bytes);
    let mut code_part = rlp_encode_bytes(&a.code_hash.bytes);
    payload.append(&mut balance_part);
    payload.append(&mut root_part);
    payload.append(&mut code_part);
    proof {
        assert(payload@ =~= account_payload(a@));
    }
    let mut r = rlp_list_header(payload.len());
    r.append(&mut payload);
    proof {
        assert(r@ =~= account_rlp(a@));
    }
    r
}

} // verus!
