use trie_root::{
    adjust_index_for_rlp, empty_root, ordered_trie_root, ordered_trie_root_with_encoder,
    state_root, state_root_ref_unhashed, state_root_unhashed, state_root_unhashed_checked,
    state_root_unsorted, storage_root, storage_root_unhashed, storage_root_unhashed_checked,
    storage_root_unsorted, Address, HashBuilder, StorageValue, TrieAccount, B256, U256,
};

fn b256(bytes: [u8; 32]) -> B256 {
    B256::new(bytes.to_vec()).unwrap()
}

fn addr(bytes: [u8; 20]) -> Address {
    Address::new(bytes.to_vec()).unwrap()
}

fn key_with_last(last: u8) -> B256 {
    let mut k = [0u8; 32];
    k[31] = last;
    b256(k)
}

fn nibbles_of(bytes: &[u8]) -> Vec<u8> {
    let mut out = Vec::new();
    for b in bytes {
        out.push(*b >> 4);
        out.push(*b & 0x0f);
    }
    out
}

/// The single-byte serialization of a small adjusted index.
fn index_key_bytes(j: usize) -> Vec<u8> {
    if j == 0 {
        vec![0x80]
    } else {
        assert!(j < 0x80);
        vec![j as u8]
    }
}

#[test]
fn adjust_index_small_collections() {
    for len in 1..=128usize {
        for i in 0..len {
            let r = adjust_index_for_rlp(i, len);
            if i == len - 1 || i == 0x7f {
                assert_eq!(r, 0);
            } else {
                assert_eq!(r, i + 1);
            }
        }
    }
}

#[test]
fn adjust_index_large_indices() {
    assert_eq!(adjust_index_for_rlp(128, 300), 128);
    assert_eq!(adjust_index_for_rlp(299, 300), 299);
    assert_eq!(adjust_index_for_rlp(127, 300), 0);
    assert_eq!(adjust_index_for_rlp(5, 300), 6);
}

#[test]
fn empty_ordered_root_is_reserved_constant() {
    let items: Vec<Vec<u8>> = Vec::new();
    let root = ordered_trie_root(&items);
    assert_eq!(root.bytes, empty_root().bytes);
    // The reserved constant is the digest of the serialized empty string.
    let expected = alloy_primitives::keccak256([0x80u8]);
    assert_eq!(root.bytes.as_slice(), expected.as_slice());
}

#[test]
fn ordered_root_is_deterministic() {
    let items: Vec<Vec<u8>> = vec![vec![1, 2, 3], vec![], vec![0xff; 40]];
    let r1 = ordered_trie_root(&items);
    let r2 = ordered_trie_root(&items.clone());
    assert_eq!(r1.bytes, r2.bytes);
}

#[test]
fn ordered_root_with_encoder_matches_preencoded() {
    let items: Vec<u16> = vec![5, 1000, 0];
    let encoded: Vec<Vec<u8>> = items.iter().map(|x| x.to_be_bytes().to_vec()).collect();
    let r1 = ordered_trie_root_with_encoder(&items, |x: &u16| x.to_be_bytes().to_vec());
    let r2 = ordered_trie_root(&encoded);
    assert_eq!(r1.bytes, r2.bytes);
}

#[test]
fn ordered_root_of_128_items_uses_adjusted_keys() {
    // A collection of exactly 128 items: the item of logical index 127 is
    // keyed by adjusted index 0, and the item of logical index 0 by
    // adjusted index 1.
    let items: Vec<Vec<u8>> = (0..128u32).map(|i| i.to_be_bytes().to_vec()).collect();
    let root = ordered_trie_root(&items);

    let mut hb = HashBuilder::new();
    for (i, item) in items.iter().enumerate() {
        let j = if i == 127 { 0 } else { i + 1 };
        hb.add_leaf(nibbles_of(&index_key_bytes(j)), item.clone(), false);
    }
    assert_eq!(root.bytes, hb.root().bytes);
}

#[test]
fn single_storage_entry_scenario() {
    // One public entry: slot key 0x00..01, value 42.
    let entries = vec![(key_with_last(1), StorageValue::Plain(U256::from_u64(42)))];
    let root = storage_root(&entries);

    // The same root, built from the leaf the entry must produce: the key's
    // 64 half-byte digits as the path, the value's one-byte minimal
    // big-endian serialization, public.
    let mut hb = HashBuilder::new();
    let mut key = [0u8; 32];
    key[31] = 1;
    hb.add_leaf(nibbles_of(&key), vec![42], false);
    assert_eq!(root.bytes, hb.root().bytes);

    // And pinned byte for byte over the leaf framing.
    let mut framing: Vec<u8> = Vec::new();
    framing.extend_from_slice(&64u64.to_be_bytes());
    framing.extend_from_slice(&nibbles_of(&key));
    framing.extend_from_slice(&1u64.to_be_bytes());
    framing.push(42);
    framing.push(0);
    let expected = alloy_primitives::keccak256(&framing);
    assert_eq!(root.bytes.as_slice(), expected.as_slice());
}

#[test]
fn storage_value_widths_and_privacy() {
    // A value above 0x7f gains a length prefix, and the privacy flag of an
    // entry is carried into its leaf.
    let entries = vec![(key_with_last(9), StorageValue::WithPrivacy(U256::from_u64(300), true))];
    let root = storage_root(&entries);

    let mut key = [0u8; 32];
    key[31] = 9;
    let mut hb = HashBuilder::new();
    hb.add_leaf(nibbles_of(&key), vec![0x82, 0x01, 0x2c], true);
    assert_eq!(root.bytes, hb.root().bytes);

    // The minimal big-endian serialization agrees with the rlp crate.
    assert_eq!(alloy_rlp::encode(300u64), vec![0x82, 0x01, 0x2c]);
    assert_eq!(alloy_rlp::encode(42u64), vec![42]);
    assert_eq!(alloy_rlp::encode(0u64), vec![0x80]);
}

#[test]
fn storage_root_empty_is_reserved_constant() {
    let entries: Vec<(B256, StorageValue)> = Vec::new();
    let root = storage_root(&entries);
    assert_eq!(root.bytes, empty_root().bytes);
}

#[test]
fn storage_root_unsorted_is_permutation_invariant() {
    let e1 = (key_with_last(3), StorageValue::Plain(U256::from_u64(7)));
    let e2 = (key_with_last(1), StorageValue::Plain(U256::from_u64(8)));
    let e3 = (key_with_last(2), StorageValue::WithPrivacy(U256::from_u64(9), true));
    let dup = |e: &(B256, StorageValue)| {
        let v = match &e.1 {
            StorageValue::Plain(v) => StorageValue::Plain(v.dup()),
            StorageValue::WithPrivacy(v, p) => StorageValue::WithPrivacy(v.dup(), *p),
        };
        (e.0.dup(), v)
    };
    let perm_a = vec![dup(&e1), dup(&e2), dup(&e3)];
    let perm_b = vec![dup(&e3), dup(&e1), dup(&e2)];
    let perm_c = vec![e2, e3, e1];
    let root_a = storage_root_unsorted(perm_a);
    let root_b = storage_root_unsorted(perm_b);
    let root_c = storage_root_unsorted(perm_c);
    assert_eq!(root_a.bytes, root_b.bytes);
    assert_eq!(root_a.bytes, root_c.bytes);
}

#[test]
fn storage_root_unsorted_matches_sorted_tier() {
    let sorted = vec![
        (key_with_last(1), StorageValue::Plain(U256::from_u64(10))),
        (key_with_last(2), StorageValue::Plain(U256::from_u64(20))),
    ];
    let shuffled = vec![
        (key_with_last(2), StorageValue::Plain(U256::from_u64(20))),
        (key_with_last(1), StorageValue::Plain(U256::from_u64(10))),
    ];
    let r1 = storage_root(&sorted);
    let r2 = storage_root_unsorted(shuffled);
    assert_eq!(r1.bytes, r2.bytes);
}

#[test]
fn storage_root_unhashed_hashes_each_slot() {
    let raw = vec![(key_with_last(1), StorageValue::Plain(U256::from_u64(42)))];
    let root = storage_root_unhashed(raw);

    let hashed_key = alloy_primitives::keccak256(key_with_last(1).bytes.as_slice());
    let mut expected_key = [0u8; 32];
    expected_key.copy_from_slice(hashed_key.as_slice());
    let hashed = vec![(b256(expected_key), StorageValue::Plain(U256::from_u64(42)))];
    let expected = storage_root_unsorted(hashed);
    assert_eq!(root.bytes, expected.bytes);
}

#[test]
fn storage_root_unhashed_checked_accepts_distinct_slots() {
    let raw = vec![
        (key_with_last(1), StorageValue::Plain(U256::from_u64(1))),
        (key_with_last(2), StorageValue::Plain(U256::from_u64(2))),
    ];
    let raw_again = vec![
        (key_with_last(1), StorageValue::Plain(U256::from_u64(1))),
        (key_with_last(2), StorageValue::Plain(U256::from_u64(2))),
    ];
    let checked = storage_root_unhashed_checked(raw).unwrap();
    let direct = storage_root_unhashed(raw_again);
    assert_eq!(checked.bytes, direct.bytes);
}

#[test]
fn storage_root_unhashed_checked_rejects_equal_slots() {
    let raw = vec![
        (key_with_last(1), StorageValue::Plain(U256::from_u64(1))),
        (key_with_last(1), StorageValue::Plain(U256::from_u64(2))),
    ];
    assert!(storage_root_unhashed_checked(raw).is_none());
}

fn sample_account(nonce: u64, balance: u64) -> TrieAccount {
    TrieAccount {
        nonce,
        balance: U256::from_u64(balance),
        storage_root: empty_root(),
        code_hash: b256([0x11; 32]),
    }
}

#[test]
fn single_account_state_scenario() {
    let key = key_with_last(5);
    let state = vec![(key.dup(), sample_account(1, 1000))];
    let root = state_root(&state);

    // The canonical record: a framed list of nonce, balance, storage root
    // and code hash.
    let mut payload: Vec<u8> = Vec::new();
    payload.extend_from_slice(&alloy_rlp::encode(1u64));
    payload.extend_from_slice(&alloy_rlp::encode(1000u64));
    payload.extend_from_slice(&alloy_rlp::encode(empty_root().bytes.as_slice()));
    payload.extend_from_slice(&alloy_rlp::encode([0x11u8; 32].as_slice()));
    let mut record: Vec<u8> = vec![0xf8, payload.len() as u8];
    record.extend_from_slice(&payload);

    let mut hb = HashBuilder::new();
    hb.add_leaf(nibbles_of(key.bytes.as_slice()), record, false);
    assert_eq!(root.bytes, hb.root().bytes);
}

#[test]
fn state_root_empty_is_reserved_constant() {
    let entries: Vec<(B256, TrieAccount)> = Vec::new();
    let root = state_root(&entries);
    assert_eq!(root.bytes, empty_root().bytes);
}

#[test]
fn state_root_unsorted_is_permutation_invariant() {
    let perm_a = vec![
        (key_with_last(2), sample_account(1, 10)),
        (key_with_last(1), sample_account(2, 20)),
    ];
    let perm_b = vec![
        (key_with_last(1), sample_account(2, 20)),
        (key_with_last(2), sample_account(1, 10)),
    ];
    assert_eq!(state_root_unsorted(perm_a).bytes, state_root_unsorted(perm_b).bytes);
}

#[test]
fn state_root_unhashed_equals_unsorted_of_hashed() {
    let a1 = addr([1; 20]);
    let a2 = addr([2; 20]);
    let pairs = vec![(a1, sample_account(1, 100)), (a2, sample_account(2, 200))];
    let root = state_root_unhashed(pairs);

    let mut hashed = Vec::new();
    for (raw, nonce, balance) in [([1u8; 20], 1u64, 100u64), ([2; 20], 2, 200)] {
        let digest = alloy_primitives::keccak256(raw.as_slice());
        let mut key = [0u8; 32];
        key.copy_from_slice(digest.as_slice());
        hashed.push((b256(key), sample_account(nonce, balance)));
    }
    let expected = state_root_unsorted(hashed);
    assert_eq!(root.bytes, expected.bytes);
}

#[test]
fn state_root_ref_unhashed_matches_owned_variant() {
    let pairs = vec![
        (addr([7; 20]), sample_account(3, 300)),
        (addr([8; 20]), sample_account(4, 400)),
    ];
    let by_ref = state_root_ref_unhashed(&pairs);
    let owned = state_root_unhashed(pairs);
    assert_eq!(by_ref.bytes, owned.bytes);
}

#[test]
fn state_root_unhashed_checked_rejects_equal_addresses() {
    let pairs = vec![
        (addr([7; 20]), sample_account(3, 300)),
        (addr([7; 20]), sample_account(4, 400)),
    ];
    assert!(state_root_unhashed_checked(pairs).is_none());
}

#[test]
fn state_root_unhashed_checked_accepts_distinct_addresses() {
    let pairs = vec![
        (addr([7; 20]), sample_account(3, 300)),
        (addr([8; 20]), sample_account(4, 400)),
    ];
    let again = vec![
        (addr([7; 20]), sample_account(3, 300)),
        (addr([8; 20]), sample_account(4, 400)),
    ];
    let checked = state_root_unhashed_checked(pairs).unwrap();
    assert_eq!(checked.bytes, state_root_unhashed(again).bytes);
}

#[test]
fn storage_value_accessors() {
    let plain = StorageValue::Plain(U256::from_u64(5));
    assert!(!plain.is_private());
    assert_eq!(plain.value().bytes[31], 5);
    let private = StorageValue::WithPrivacy(U256::from_u64(6), true);
    assert!(private.is_private());
    assert_eq!(private.value().bytes[31], 6);
}
