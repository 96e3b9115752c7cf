//! The leaf-sequence engine: it takes the leaves of one root computation
//! in order and commits to exactly that sequence with a 32-byte root.

use vstd::prelude::*;
use crate::types::{B256, copy_bytes};
use crate::hash::{keccak_of, keccak256, empty_root, empty_root_seq};
use crate::rlp::{u64_be, u64_to_be_bytes};

verus! {

/// One trie leaf: a nibble path, a value and a privacy flag.
pub ghost struct LeafModel {
    pub path: Seq<u8>,
    pub value: Seq<u8>,
    pub is_private: bool,
}

/// One trie leaf as a value.
pub struct TrieLeaf {
    pub path: Vec<u8>,
    pub value: Vec<u8>,
    pub is_private: bool,
}

impl View for TrieLeaf {
    type V = LeafModel;

    open spec fn view(&self) -> LeafModel {
        LeafModel { path: self.path@, value: self.value@, is_private: self.is_private }
    }
}

/// The length-prefixed framing of one leaf.
pub open spec fn leaf_frame(l: LeafModel) -> Seq<u8> {
    u64_be(l.path.len() as u64) + l.path + u64_be(l.value.len() as u64) + l.value + seq![
        if l.is_private {
            1u8
        } else {
            0u8
        },
    ]
}

/// The framings of a leaf sequence, in order.
pub open spec fn leaves_bytes(ls: Seq<LeafModel>) -> Seq<u8>
    decreases ls.len(),
{
    if ls.len() == 0 {
        Seq::empty()
    } else {
        leaves_bytes(ls.drop_last()) + leaf_frame(ls.last())
    }
}

/// The root over a leaf sequence: the reserved constant for zero leaves,
/// else the digest of their serialization.
pub open spec fn root_of(ls: Seq<LeafModel>) -> Seq<u8> {
    if ls.len() == 0 {
        empty_root_seq()
    } else {
        keccak_of(leaves_bytes(ls))
    }
}

/// Collects the leaves of one root computation, in insertion order.
pub struct HashBuilder {
    pub leaves: Vec<TrieLeaf>,
}

impl View for HashBuilder {
    type V = Seq<LeafModel>;

    open spec fn view(&self) -> Seq<LeafModel> {
        self.leaves@.map_values(|l: TrieLeaf| l@)
    }
}

impl HashBuilder {
    /// An engine with no leaves yet.
    pub fn new() -> (r: HashBuilder)
        ensures
            r@ == Seq::<LeafModel>::empty(),
    {
        let r = HashBuilder { leaves: Vec::new() };
        proof {
            assert(r@ =~= Seq::<LeafModel>::empty());
        }
        r
    }

    /// Appends one leaf.
    pub fn add_leaf(&mut self, path: Vec<u8>, value: Vec<u8>, is_private: bool)
        ensures
            final(self)@ == old(self)@.push(
                LeafModel { path: path@, value: value@, is_private },
            ),
    {
        let ghost l = LeafModel { path: path@, value: value@, is_private };
        self.leaves.push(TrieLeaf { path, value, is_private });
        proof {
            assert(self@ =~= old(self)@.push(l));
        }
    }

    /// Finalizes the computation: the root over the collected leaves.
    pub fn root(self) -> (r: B256)
        ensures
            r@ == root_of(self@),
            r.wf(),
    {
        if self.leaves.len() == 0 {
            return empty_root();
        }
        let mut buf: Vec<u8> = Vec::new();
        let mut i: usize = 0;
        while i < self.leaves.len()
            invariant
                i <= self.leaves@.len(),
                buf@ == leaves_bytes(self@.subrange(0, i as int)),
            decreases self.leaves@.len() - i,
        {
            let leaf = &self.leaves[i];
            let mut part = u64_to_be_bytes(leaf.path.len() as u64);
            buf.append(&mut part);
            let mut pb = copy_bytes(&leaf.path);
            buf.append(&mut pb);
            let mut vlen = u64_to_be_bytes(leaf.value.len() as u64);
            buf.append(&mut vlen);
            let mut vb = copy_bytes(&leaf.value);
            buf.append(&mut vb);
            if leaf.is_private {
                buf.push(1u8);
            } else {
                buf.push(0u8);
            }
            proof {
                assert(self@.subrange(0, i + 1).drop_last() =~= self@.subrange(0, i as int));
                assert(self@.subrange(0, i + 1).last() == self@[i as int]);
                assert(buf@ =~= leaves_bytes(self@.subrange(0, i + 1)));
            }
            i += 1;
        }
        proof {
            assert(self@.subrange(0, self@.len() as int) =~= self@);
        }
        keccak256(&buf)
    }
}

} // verus!
