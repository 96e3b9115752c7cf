//! Deterministic trie-root computation over ordered and keyed collections.
//!
//! The crate derives the exact leaf schedule (nibble paths, values and
//! privacy flags) that the Merkle-Patricia-Trie convention mandates for
//! ordered item lists, account storage slots and global account state, and
//! commits to that schedule with a 32-byte root.

pub mod types;
pub mod hash;
pub mod rlp;
pub mod nibbles;
pub mod keys;
pub mod sorting;
pub mod builder;
pub mod root;

pub use types::{B256, U256, Address, StorageValue, TrieAccount};
pub use hash::empty_root;
pub use builder::{HashBuilder, TrieLeaf};
pub use root::{adjust_index_for_rlp, ordered_trie_root, ordered_trie_root_with_encoder,
    storage_root, storage_root_unsorted, storage_root_unhashed, storage_root_unhashed_checked,
    state_root, state_root_unsorted, state_root_unhashed, state_root_ref_unhashed,
    state_root_unhashed_checked};
