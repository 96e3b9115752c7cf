//! The root-computation drivers: ordered collections keyed by adjusted
//! indices, and key-sorted storage and state collections.

use vstd::prelude::*;
use crate::types::{B256, Address, StorageValue, TrieAccount, AccountModel, copy_bytes};
use crate::hash::{keccak_of, keccak256, empty_root_seq};
use crate::rlp::{rlp_scalar, rlp_uint_be, account_rlp, rlp_encode_scalar, rlp_encode_uint_be, encode_account};
use crate::nibbles::{unpack_spec, unpack_nibbles};
use crate::builder::{LeafModel, HashBuilder, root_of};
use crate::sorting::{entry_views, sort_spec, key_distinct, strictly_ascending, lemma_sort_sorted, lemma_sort_multiset, lemma_sort_distinct, lemma_sorted_distinct_strict, lemma_sorted_distinct_unique, lemma_sort_preserves};

verus! {

/// The adjusted index that keys the item of logical position `i` in a
/// collection of `len` items.
pub open spec fn adjust_spec(i: int, len: int) -> int {
    if i > 0x7f {
        i
    } else if i == 0x7f || i + 1 == len {
        0
    } else {
        i + 1
    }
}

/// Adjusts the index of an item for the single-byte encoding range: large
/// indices stand for themselves, the last short-collection item and index
/// 0x7f take the reserved index 0, and anything else moves up by one.
pub fn adjust_index_for_rlp(i: usize, len: usize) -> (r: usize)
    ensures
        r as int == adjust_spec(i as int, len as int),
{
    if i > 0x7f {
        i
    } else if i == 0x7f || i + 1 == len {
        0
    } else {
        i + 1
    }
}

/// Within a collection short enough for single-byte keys, the adjusted
/// index is 0 exactly for the last item or index 0x7f; any other small
/// index moves up by one, and a large index stands for itself.
pub proof fn lemma_adjust_index_cases(i: int, len: int)
    requires
        0 <= i < len,
    ensures
        i > 0x7f ==> adjust_spec(i, len) == i,
        len <= 128 ==> (adjust_spec(i, len) == 0 <==> (i == len - 1 || i == 0x7f)),
        i < 0x7f && i + 1 != len ==> adjust_spec(i, len) == i + 1,
{
}

/// The leaf schedule of an ordered collection: the item of logical index
/// `i`, keyed by the nibble path of its serialized adjusted index, always
/// public.
pub open spec fn ordered_leaves(items: Seq<Seq<u8>>) -> Seq<LeafModel> {
    Seq::new(
        items.len(),
        |i: int|
            LeafModel {
                path: unpack_spec(rlp_scalar(adjust_spec(i, items.len() as int) as u64)),
                value: items[i],
                is_private: false,
            },
    )
}

/// The root of an ordered collection of serialized items.
pub open spec fn ordered_root_spec(items: Seq<Seq<u8>>) -> Seq<u8> {
    root_of(ordered_leaves(items))
}

/// Computes the root of an ordered collection of already serialized
/// items; an empty collection yields the reserved constant.
pub fn ordered_trie_root(items: &Vec<Vec<u8>>) -> (r: B256)
    ensures
        r@ == ordered_root_spec(items.deep_view()),
        r.wf(),
        items@.len() == 0 ==> r@ == empty_root_seq(),
{
    let ghost dv = items.deep_view();
    let mut hb = HashBuilder::new();
    let n = items.len();
    let mut i: usize = 0;
    while i < n
        invariant
            n == items@.len(),
            dv == items.deep_view(),
            i <= n,
            hb@.len() == i,
            forall|j: int| 0 <= j < i ==> hb@[j] == ordered_leaves(dv)[j],
        decreases n - i,
    {
        let j = adjust_index_for_rlp(i, n);
        let jb = rlp_encode_scalar(j as u64);
        let path = unpack_nibbles(&jb);
        let value = copy_bytes(&items[i]);
        proof {
            assert(dv[i as int] =~= items@[i as int]@);
        }
        hb.add_leaf(path, value, false);
        i += 1;
    }
    proof {
        assert(hb@ =~= ordered_leaves(dv));
    }
    hb.root()
}


/// The buffers hold, for each item in order, one output the encoder
/// admits for it.
pub open spec fn encodes<T, F: Fn(&T) -> Vec<u8>>(
    encode: F,
    items: &Vec<T>,
    buffers: Seq<Vec<u8>>,
) -> bool {
    &&& buffers.len() == items@.len()
    &&& forall|i: int|
        0 <= i < items@.len() ==> #[trigger] call_ensures(encode, (&items@[i],), buffers[i])
}

/// The byte strings the buffers hold.
pub open spec fn buffer_views(buffers: Seq<Vec<u8>>) -> Seq<Seq<u8>> {
    buffers.map_values(|v: Vec<u8>| v@)
}

/// Computes the root of an ordered collection, serializing each item
/// with the caller's encoder; the encoder is called once per item, on a
/// fresh buffer.
pub fn ordered_trie_root_with_encoder<T, F: Fn(&T) -> Vec<u8>>(items: &Vec<T>, encode: F) -> (r:
    B256)
    requires
        forall|i: int| 0 <= i < items@.len() ==> call_requires(encode, (&items@[i],)),
    ensures
        exists|buffers: Seq<Vec<u8>>|
            #[trigger] encodes(encode, items, buffers) && r@ == ordered_root_spec(
                buffer_views(buffers),
            ),
        r.wf(),
        items@.len() == 0 ==> r@ == empty_root_seq(),
{
    let mut encoded: Vec<Vec<u8>> = Vec::new();
    let mut i: usize = 0;
    while i < items.len()
        invariant
            i <= items@.len(),
            encoded@.len() == i,
            forall|j: int|
                0 <= j < i ==> #[trigger] call_ensures(encode, (&items@[j],), encoded@[j]),
            forall|j: int| 0 <= j < items@.len() ==> call_requires(encode, (&items@[j],)),
        decreases items@.len() - i,
    {
        let e = encode(&items[i]);
        encoded.push(e);
        i += 1;
    }
    let r = ordered_trie_root(&encoded);
    proof {
        assert(encodes(encode, items, encoded@));
        assert(buffer_views(encoded@) =~~= encoded.deep_view());
        assert(encodes(encode, items, encoded@) && r@ == ordered_root_spec(
            buffer_views(encoded@),
        ));
    }
    r
}

/// The same input always yields the same root: the root is a function of
/// the serialized item sequence alone.
pub proof fn lemma_ordered_trie_root_deterministic(items1: Seq<Seq<u8>>, items2: Seq<Seq<u8>>)
    requires
        items1 == items2,
    ensures
        ordered_root_spec(items1) == ordered_root_spec(items2),
{
}

/// The root of the empty collection is the reserved constant.
pub proof fn lemma_ordered_trie_root_empty()
    ensures
        ordered_root_spec(Seq::<Seq<u8>>::empty()) == empty_root_seq(),
{
}

/// Every storage entry is well-formed: a 32-byte key and a 32-byte
/// big-endian value.
pub open spec fn wf_storage_entries(s: Seq<(Seq<u8>, (Seq<u8>, bool))>) -> bool {
    forall|i: int|
        0 <= i < s.len() ==> (#[trigger] s[i]).0.len() == 32 && s[i].1.0.len() == 32
}

/// The leaf schedule of a storage collection: each entry keyed by the
/// nibble path of its hashed slot, valued by its integer's minimal
/// big-endian serialization, with its own privacy flag.
pub open spec fn storage_leaves(s: Seq<(Seq<u8>, (Seq<u8>, bool))>) -> Seq<LeafModel> {
    Seq::new(
        s.len(),
        |i: int|
            LeafModel {
                path: unpack_spec(s[i].0),
                value: rlp_uint_be(s[i].1.0),
                is_private: s[i].1.1,
            },
    )
}

/// The root of an already key-sorted storage collection.
pub open spec fn storage_root_spec(s: Seq<(Seq<u8>, (Seq<u8>, bool))>) -> Seq<u8> {
    root_of(storage_leaves(s))
}

/// The root of a storage collection in any order: it is sorted by key
/// first.
pub open spec fn storage_root_unsorted_spec(s: Seq<(Seq<u8>, (Seq<u8>, bool))>) -> Seq<u8> {
    storage_root_spec(sort_spec(s))
}

/// Each entry's key replaced by its digest.
pub open spec fn hash_keys<M>(s: Seq<(Seq<u8>, M)>) -> Seq<(Seq<u8>, M)> {
    Seq::new(s.len(), |i: int| (keccak_of(s[i].0), s[i].1))
}

/// The root of a storage collection given by raw slot identifiers: keys
/// are hashed, then sorted.
pub open spec fn storage_root_unhashed_spec(s: Seq<(Seq<u8>, (Seq<u8>, bool))>) -> Seq<u8> {
    storage_root_unsorted_spec(hash_keys(s))
}

/// Computes the root of account storage whose hashed keys are already in
/// strictly ascending order.
pub fn storage_root(storage: &Vec<(B256, StorageValue)>) -> (r: B256)
    requires
        wf_storage_entries(entry_views(storage@)),
        strictly_ascending(entry_views(storage@)),
    ensures
        r@ == storage_root_spec(entry_views(storage@)),
        r.wf(),
{
    let ghost evs = entry_views(storage@);
    let mut hb = HashBuilder::new();
    let mut i: usize = 0;
    while i < storage.len()
        invariant
            evs == entry_views(storage@),
            wf_storage_entries(evs),
            i <= storage@.len(),
            hb@.len() == i,
            forall|j: int| 0 <= j < i ==> hb@[j] == storage_leaves(evs)[j],
        decreases storage@.len() - i,
    {
        let entry = &storage[i];
        proof {
            assert(evs[i as int] == (storage@[i as int].0@, storage@[i as int].1@));
        }
        let path = unpack_nibbles(&entry.0.bytes);
        let value = rlp_encode_uint_be(&entry.1.value().bytes);
        let is_private = entry.1.is_private();
        hb.add_leaf(path, value, is_private);
        i += 1;
    }
    proof {
        assert(hb@ =~= storage_leaves(evs));
    }
    hb.root()
}

/// Sorts account storage by hashed key, then computes its root; entries
/// must not share a key.
pub fn storage_root_unsorted(storage: Vec<(B256, StorageValue)>) -> (r: B256)
    requires
        wf_storage_entries(entry_views(storage@)),
        key_distinct(entry_views(storage@)),
    ensures
        r@ == storage_root_unsorted_spec(entry_views(storage@)),
        r.wf(),
{
    let ghost evs = entry_views(storage@);
    let sorted = crate::sorting::sort_entries(storage);
    proof {
        lemma_sort_sorted(evs);
        lemma_sort_distinct(evs);
        lemma_sorted_distinct_strict(sort_spec(evs));
        lemma_sort_preserves(
            evs,
            |e: (Seq<u8>, (Seq<u8>, bool))| e.0.len() == 32 && e.1.0.len() == 32,
        );
    }
    storage_root(&sorted)
}

/// Hashes each raw slot key, then sorts and computes the storage root;
/// the hashed keys must not collide.
pub fn storage_root_unhashed(storage: Vec<(B256, StorageValue)>) -> (r: B256)
    requires
        wf_storage_entries(entry_views(storage@)),
        key_distinct(hash_keys(entry_views(storage@))),
    ensures
        r@ == storage_root_unhashed_spec(entry_views(storage@)),
        r.wf(),
{
    let ghost evs = entry_views(storage@);
    let mut storage = storage;
    let mut hashed: Vec<(B256, StorageValue)> = Vec::new();
    let ghost mut k: int = 0;
    while storage.len() > 0
        invariant
            0 <= k <= evs.len(),
            entry_views(storage@) =~= evs.subrange(k, evs.len() as int),
            storage@.len() == evs.len() - k,
            entry_views(hashed@) =~= hash_keys(evs).subrange(0, k),
            wf_storage_entries(entry_views(hashed@)),
            wf_storage_entries(evs),
        decreases storage@.len(),
    {
        let ghost pre = storage@;
        proof {
            assert(entry_views(storage@)[0] == evs[k]);
            assert((storage@[0].0@, storage@[0].1@) == evs[k]);
            assert(hash_keys(evs)[k] == (keccak_of(evs[k].0), evs[k].1));
        }
        let (key, value) = storage.remove(0);
        let hk = keccak256(&key.bytes);
        let ghost hkv = hk@;
        let ghost vv = value@;
        let ghost oldh = hashed@;
        hashed.push((hk, value));
        proof {
            assert(hkv == keccak_of(evs[k].0));
            assert(vv == evs[k].1);
            assert(entry_views(oldh).len() == k);
            assert(oldh.len() == k);
            assert(hashed@.len() == k + 1);
            assert(hashed@[k as int] == (hashed@[k as int].0, hashed@[k as int].1));
            assert(hashed@[k as int].0@ == hkv);
            assert(hashed@[k as int].1@ == vv);
            assert forall|j: int| 0 <= j < k + 1 implies entry_views(hashed@)[j] == hash_keys(
                evs,
            ).subrange(0, k + 1)[j] by {
                if j == k {
                    assert(entry_views(hashed@)[j] == (hashed@[j].0@, hashed@[j].1@));
                } else {
                    assert(hashed@[j] == oldh[j]);
                    assert(entry_views(oldh)[j] == hash_keys(evs).subrange(0, k)[j]);
                }
            }
            assert(entry_views(storage@) =~= evs.subrange(k + 1, evs.len() as int)) by {
                assert(storage@ =~= pre.subrange(1, pre.len() as int));
                assert forall|j: int| 0 <= j < storage@.len() implies entry_views(storage@)[j]
                    == evs.subrange(k + 1, evs.len() as int)[j] by {
                    assert(entry_views(pre)[j + 1] == evs.subrange(k, evs.len() as int)[j + 1]);
                }
            }
            assert(entry_views(hashed@) =~= hash_keys(evs).subrange(0, k + 1));
            k = k + 1;
        }
    }
    proof {
        assert(entry_views(hashed@) =~= hash_keys(evs));
        assert(entry_views(hashed@) == hash_keys(evs));
    }
    storage_root_unsorted(hashed)
}

/// Hashes each raw slot key and checks the digests for collisions: the
/// storage root where they are distinct, nothing where they are not.
pub fn storage_root_unhashed_checked(storage: Vec<(B256, StorageValue)>) -> (r: Option<B256>)
    requires
        wf_storage_entries(entry_views(storage@)),
    ensures
        match r {
            Some(root) => key_distinct(hash_keys(entry_views(storage@))) && root@
                == storage_root_unhashed_spec(entry_views(storage@)) && root.wf(),
            None => !key_distinct(hash_keys(entry_views(storage@))),
        },
{
    let ghost evs = entry_views(storage@);
    let mut digests: Vec<B256> = Vec::new();
    let mut i: usize = 0;
    while i < storage.len()
        invariant
            evs == entry_views(storage@),
            i <= storage@.len(),
            digests@.len() == i,
            forall|j: int| 0 <= j < i ==> (#[trigger] digests@[j])@ == hash_keys(evs)[j].0,
        decreases storage@.len() - i,
    {
        proof {
            assert(evs[i as int] == (storage@[i as int].0@, storage@[i as int].1@));
        }
        let hk = keccak256(&storage[i].0.bytes);
        digests.push(hk);
        i += 1;
    }
    if distinct_digests(&digests) {
        proof {
            assert forall|a: int, b: int|
                #![trigger hash_keys(evs)[a].0, hash_keys(evs)[b].0]
                0 <= a < hash_keys(evs).len() && 0 <= b < hash_keys(evs).len() && a != b implies
            hash_keys(evs)[a].0 != hash_keys(evs)[b].0 by {
                assert(digests@[a]@ != digests@[b]@);
            }
        }
        Some(storage_root_unhashed(storage))
    } else {
        proof {
            let (a, b): (int, int) = choose|a: int, b: int|
                #![trigger digests@[a], digests@[b]]
                0 <= a < digests@.len() && 0 <= b < digests@.len() && a != b && digests@[a]@
                    == digests@[b]@;
            assert(hash_keys(evs)[a].0 == hash_keys(evs)[b].0);
        }
        None
    }
}

/// Tests whether the given digests are pairwise distinct.
fn distinct_digests(digests: &Vec<B256>) -> (r: bool)
    ensures
        r == (forall|a: int, b: int|
            #![trigger digests@[a], digests@[b]]
            0 <= a < digests@.len() && 0 <= b < digests@.len() && a != b ==> digests@[a]@
                != digests@[b]@),
{
    let n = digests.len();
    let mut i: usize = 0;
    while i < n
        invariant
            n == digests@.len(),
            i <= n,
            forall|a: int, b: int|
                #![trigger digests@[a], digests@[b]]
                0 <= a < i && a < b < n ==> digests@[a]@ != digests@[b]@,
        decreases n - i,
    {
        let mut j: usize = i + 1;
        while j < n
            invariant
                n == digests@.len(),
                i < j <= n,
                i < n,
                forall|b: int| i < b < j ==> (#[trigger] digests@[b])@ != digests@[i as int]@,
            decreases n - j,
        {
            if crate::keys::bytes_eq(&digests[i].bytes, &digests[j].bytes) {
                return false;
            }
            j += 1;
        }
        i += 1;
    }
    proof {
        assert forall|a: int, b: int|
            #![trigger digests@[a], digests@[b]]
            0 <= a < digests@.len() && 0 <= b < digests@.len() && a != b implies digests@[a]@
            != digests@[b]@ by {
            if a < b {
            } else {
                assert(digests@[b]@ != digests@[a]@);
            }
        }
    }
    true
}

/// The storage root of unsorted entries does not depend on their order,
/// as long as no two entries share a key.
pub proof fn lemma_storage_root_unsorted_permutation(
    s1: Seq<(Seq<u8>, (Seq<u8>, bool))>,
    s2: Seq<(Seq<u8>, (Seq<u8>, bool))>,
)
    requires
        s1.to_multiset() == s2.to_multiset(),
        key_distinct(s1),
    ensures
        storage_root_unsorted_spec(s1) == storage_root_unsorted_spec(s2),
{
    lemma_sort_sorted(s1);
    lemma_sort_sorted(s2);
    lemma_sort_multiset(s1);
    lemma_sort_multiset(s2);
    lemma_sort_distinct(s1);
    lemma_sorted_distinct_unique(sort_spec(s1), sort_spec(s2));
}

/// Every state entry is well-formed: a 32-byte key and an account whose
/// balance and hashes have their fixed widths.
pub open spec fn wf_state_entries(s: Seq<(Seq<u8>, AccountModel)>) -> bool {
    forall|i: int|
        0 <= i < s.len() ==> (#[trigger] s[i]).0.len() == 32 && wf_account(s[i].1)
}

/// A well-formed account record: balance, storage root and code hash of
/// their fixed widths.
pub open spec fn wf_account(a: AccountModel) -> bool {
    a.balance.len() == 32 && a.storage_root.len() == 32 && a.code_hash.len() == 32
}

/// Every raw state entry is well-formed: a 20-byte address and a
/// well-formed account.
pub open spec fn wf_address_entries(s: Seq<(Seq<u8>, AccountModel)>) -> bool {
    forall|i: int|
        0 <= i < s.len() ==> (#[trigger] s[i]).0.len() == 20 && wf_account(s[i].1)
}

/// The leaf schedule of a state collection: each account record
/// serialized in canonical form, keyed by the nibble path of its hashed
/// address, always public.
pub open spec fn state_leaves(s: Seq<(Seq<u8>, AccountModel)>) -> Seq<LeafModel> {
    Seq::new(
        s.len(),
        |i: int|
            LeafModel { path: unpack_spec(s[i].0), value: account_rlp(s[i].1), is_private: false },
    )
}

/// The root of an already key-sorted state collection.
pub open spec fn state_root_spec(s: Seq<(Seq<u8>, AccountModel)>) -> Seq<u8> {
    root_of(state_leaves(s))
}

/// The root of a state collection in any order: it is sorted by key
/// first.
pub open spec fn state_root_unsorted_spec(s: Seq<(Seq<u8>, AccountModel)>) -> Seq<u8> {
    state_root_spec(sort_spec(s))
}

/// The root of a state collection given by raw addresses: keys are
/// hashed, then sorted.
pub open spec fn state_root_unhashed_spec(s: Seq<(Seq<u8>, AccountModel)>) -> Seq<u8> {
    state_root_unsorted_spec(hash_keys(s))
}

/// Computes the root of the state whose hashed account keys are already
/// in strictly ascending order.
pub fn state_root(state: &Vec<(B256, TrieAccount)>) -> (r: B256)
    requires
        wf_state_entries(entry_views(state@)),
        strictly_ascending(entry_views(state@)),
    ensures
        r@ == state_root_spec(entry_views(state@)),
        r.wf(),
{
    let ghost evs = entry_views(state@);
    let mut hb = HashBuilder::new();
    let mut i: usize = 0;
    while i < state.len()
        invariant
            evs == entry_views(state@),
            wf_state_entries(evs),
            i <= state@.len(),
            hb@.len() == i,
            forall|j: int| 0 <= j < i ==> hb@[j] == state_leaves(evs)[j],
        decreases state@.len() - i,
    {
        let entry = &state[i];
        proof {
            assert(evs[i as int] == (state@[i as int].0@, state@[i as int].1@));
        }
        let path = unpack_nibbles(&entry.0.bytes);
        let value = encode_account(&entry.1);
        hb.add_leaf(path, value, false);
        i += 1;
    }
    proof {
        assert(hb@ =~= state_leaves(evs));
    }
    hb.root()
}

/// Sorts the state by hashed account key, then computes its root;
/// entries must not share a key.
pub fn state_root_unsorted(state: Vec<(B256, TrieAccount)>) -> (r: B256)
    requires
        wf_state_entries(entry_views(state@)),
        key_distinct(entry_views(state@)),
    ensures
        r@ == state_root_unsorted_spec(entry_views(state@)),
        r.wf(),
{
    let ghost evs = entry_views(state@);
    let sorted = crate::sorting::sort_entries(state);
    proof {
        lemma_sort_sorted(evs);
        lemma_sort_distinct(evs);
        lemma_sorted_distinct_strict(sort_spec(evs));
        lemma_sort_preserves(evs, |e: (Seq<u8>, AccountModel)| e.0.len() == 32 && wf_account(e.1));
    }
    state_root(&sorted)
}

/// Hashes each account address, then sorts and computes the state root;
/// the input is consumed, and the hashed keys must not collide.
pub fn state_root_unhashed(state: Vec<(Address, TrieAccount)>) -> (r: B256)
    requires
        wf_address_entries(entry_views(state@)),
        key_distinct(hash_keys(entry_views(state@))),
    ensures
        r@ == state_root_unhashed_spec(entry_views(state@)),
        r.wf(),
{
    let ghost evs = entry_views(state@);
    let mut state = state;
    let mut hashed: Vec<(B256, TrieAccount)> = Vec::new();
    let ghost mut k: int = 0;
    while state.len() > 0
        invariant
            0 <= k <= evs.len(),
            entry_views(state@) =~= evs.subrange(k, evs.len() as int),
            state@.len() == evs.len() - k,
            entry_views(hashed@) =~= hash_keys(evs).subrange(0, k),
            wf_state_entries(entry_views(hashed@)),
            wf_address_entries(evs),
        decreases state@.len(),
    {
        let ghost pre = state@;
        proof {
            assert(entry_views(state@)[0] == evs[k]);
            assert((state@[0].0@, state@[0].1@) == evs[k]);
            assert(hash_keys(evs)[k] == (keccak_of(evs[k].0), evs[k].1));
        }
        let (addr, account) = state.remove(0);
        let hk = keccak256(&addr.bytes);
        let ghost hkv = hk@;
        let ghost vv = account@;
        let ghost oldh = hashed@;
        hashed.push((hk, account));
        proof {
            assert(hkv == keccak_of(evs[k].0));
            assert(vv == evs[k].1);
            assert(entry_views(oldh).len() == k);
            assert(oldh.len() == k);
            assert(hashed@.len() == k + 1);
            assert(hashed@[k as int] == (hashed@[k as int].0, hashed@[k as int].1));
            assert(hashed@[k as int].0@ == hkv);
            assert(hashed@[k as int].1@ == vv);
            assert forall|j: int| 0 <= j < k + 1 implies entry_views(hashed@)[j] == hash_keys(
                evs,
            ).subrange(0, k + 1)[j] by {
                if j == k {
                    assert(entry_views(hashed@)[j] == (hashed@[j].0@, hashed@[j].1@));
                } else {
                    assert(hashed@[j] == oldh[j]);
                    assert(entry_views(oldh)[j] == hash_keys(evs).subrange(0, k)[j]);
                }
            }
            assert(entry_views(state@) =~= evs.subrange(k + 1, evs.len() as int)) by {
                assert(state@ =~= pre.subrange(1, pre.len() as int));
                assert forall|j: int| 0 <= j < state@.len() implies entry_views(state@)[j]
                    == evs.subrange(k + 1, evs.len() as int)[j] by {
                    assert(entry_views(pre)[j + 1] == evs.subrange(k, evs.len() as int)[j + 1]);
                }
            }
            assert(entry_views(hashed@) =~= hash_keys(evs).subrange(0, k + 1));
            k = k + 1;
        }
    }
    proof {
        assert(entry_views(hashed@) =~= hash_keys(evs));
        assert(entry_views(hashed@) == hash_keys(evs));
    }
    state_root_unsorted(hashed)
}

/// As state_root_unhashed, over borrowed entries: each account is copied
/// at the point of serialization, so the caller keeps its collection.
pub fn state_root_ref_unhashed(state: &Vec<(Address, TrieAccount)>) -> (r: B256)
    requires
        wf_address_entries(entry_views(state@)),
        key_distinct(hash_keys(entry_views(state@))),
    ensures
        r@ == state_root_unhashed_spec(entry_views(state@)),
        r.wf(),
{
    let ghost evs = entry_views(state@);
    let mut hashed: Vec<(B256, TrieAccount)> = Vec::new();
    let mut i: usize = 0;
    while i < state.len()
        invariant
            evs == entry_views(state@),
            i <= state@.len(),
            entry_views(hashed@) =~= hash_keys(evs).subrange(0, i as int),
            wf_state_entries(entry_views(hashed@)),
            wf_address_entries(evs),
        decreases state@.len() - i,
    {
        proof {
            assert(evs[i as int] == (state@[i as int].0@, state@[i as int].1@));
            assert(hash_keys(evs)[i as int] == (keccak_of(evs[i as int].0), evs[i as int].1));
        }
        let hk = keccak256(&state[i].0.bytes);
        let account = state[i].1.dup();
        let ghost hkv = hk@;
        let ghost vv = account@;
        let ghost oldh = hashed@;
        hashed.push((hk, account));
        proof {
            assert(hkv == keccak_of(evs[i as int].0));
            assert(vv == evs[i as int].1);
            assert(entry_views(oldh).len() == i as int);
            assert(oldh.len() == i as int);
            assert(hashed@.len() == i + 1);
            assert(hashed@[i as int].0@ == hkv);
            assert(hashed@[i as int].1@ == vv);
            assert forall|j: int| 0 <= j < i + 1 implies entry_views(hashed@)[j] == hash_keys(
                evs,
            ).subrange(0, i + 1)[j] by {
                if j == i {
                    assert(entry_views(hashed@)[j] == (hashed@[j].0@, hashed@[j].1@));
                } else {
                    assert(hashed@[j] == oldh[j]);
                    assert(entry_views(oldh)[j] == hash_keys(evs).subrange(0, i as int)[j]);
                }
            }
            assert(entry_views(hashed@) =~= hash_keys(evs).subrange(0, i + 1));
        }
        i += 1;
    }
    proof {
        assert(entry_views(hashed@) =~= hash_keys(evs));
        assert(entry_views(hashed@) == hash_keys(evs));
    }
    state_root_unsorted(hashed)
}

/// Hashes each account address and checks the digests for collisions:
/// the state root where they are distinct, nothing where they are not.
pub fn state_root_unhashed_checked(state: Vec<(Address, TrieAccount)>) -> (r: Option<B256>)
    requires
        wf_address_entries(entry_views(state@)),
    ensures
        match r {
            Some(root) => key_distinct(hash_keys(entry_views(state@))) && root@
                == state_root_unhashed_spec(entry_views(state@)) && root.wf(),
            None => !key_distinct(hash_keys(entry_views(state@))),
        },
{
    let ghost evs = entry_views(state@);
    let mut digests: Vec<B256> = Vec::new();
    let mut i: usize = 0;
    while i < state.len()
        invariant
            evs == entry_views(state@),
            i <= state@.len(),
            digests@.len() == i,
            forall|j: int| 0 <= j < i ==> (#[trigger] digests@[j])@ == hash_keys(evs)[j].0,
        decreases state@.len() - i,
    {
        proof {
            assert(evs[i as int] == (state@[i as int].0@, state@[i as int].1@));
        }
        let hk = keccak256(&state[i].0.bytes);
        digests.push(hk);
        i += 1;
    }
    if distinct_digests(&digests) {
        proof {
            assert forall|a: int, b: int|
                #![trigger hash_keys(evs)[a].0, hash_keys(evs)[b].0]
                0 <= a < hash_keys(evs).len() && 0 <= b < hash_keys(evs).len() && a != b implies
            hash_keys(evs)[a].0 != hash_keys(evs)[b].0 by {
                assert(digests@[a]@ != digests@[b]@);
            }
        }
        Some(state_root_unhashed(state))
    } else {
        proof {
            let (a, b): (int, int) = choose|a: int, b: int|
                #![trigger digests@[a], digests@[b]]
                0 <= a < digests@.len() && 0 <= b < digests@.len() && a != b && digests@[a]@
                    == digests@[b]@;
            assert(hash_keys(evs)[a].0 == hash_keys(evs)[b].0);
        }
        None
    }
}

/// Hashing the addresses first and then taking the unsorted-tier root is
/// exactly the raw-address state root.
pub proof fn lemma_state_root_unhashed_is_unsorted_of_hashed(s: Seq<(Seq<u8>, AccountModel)>)
    ensures
        state_root_unhashed_spec(s) == state_root_unsorted_spec(hash_keys(s)),
{
}

/// The state root of unsorted entries does not depend on their order, as
/// long as no two entries share a key.
pub proof fn lemma_state_root_unsorted_permutation(
    s1: Seq<(Seq<u8>, AccountModel)>,
    s2: Seq<(Seq<u8>, AccountModel)>,
)
    requires
        s1.to_multiset() == s2.to_multiset(),
        key_distinct(s1),
    ensures
        state_root_unsorted_spec(s1) == state_root_unsorted_spec(s2),
{
    lemma_sort_sorted(s1);
    lemma_sort_sorted(s2);
    lemma_sort_multiset(s1);
    lemma_sort_multiset(s2);
    lemma_sort_distinct(s1);
    lemma_sorted_distinct_unique(sort_spec(s1), sort_spec(s2));
}

} // verus!
