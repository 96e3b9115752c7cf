//! Plain-value data model: 32-byte words, addresses, storage values and
//! canonical account records.

use vstd::prelude::*;

verus! {

/// A 32-byte word: a hashed trie key, a storage slot, or a root hash.
pub struct B256 {
    pub bytes: Vec<u8>,
}

impl B256 {
    /// Well-formed: exactly 32 bytes.
    pub open spec fn wf(&self) -> bool {
        self.bytes@.len() == 32
    }

    /// Builds a word from its 32 bytes.
    pub fn new(bytes: Vec<u8>) -> (r: Option<B256>)
        ensures
            match r {
                Some(b) => b.wf() && b@ == bytes@,
                None => bytes@.len() != 32,
            },
    {
        if bytes.len() == 32 {
            Some(B256 { bytes })
        } else {
            None
        }
    }

    /// Copies the word.
    pub fn dup(&self) -> (r: B256)
        ensures
            r@ == self@,
            r.wf() == self.wf(),
    {
        B256 { bytes: copy_bytes(&self.bytes) }
    }
}

impl View for B256 {
    type V = Seq<u8>;

    open spec fn view(&self) -> Seq<u8> {
        self.bytes@
    }
}

/// A 256-bit unsigned integer, held as 32 big-endian bytes.
pub struct U256 {
    pub bytes: Vec<u8>,
}

impl U256 {
    /// Well-formed: exactly 32 big-endian bytes.
    pub open spec fn wf(&self) -> bool {
        self.bytes@.len() == 32
    }

    /// Builds an integer from its 32 big-endian bytes.
    pub fn new(bytes: Vec<u8>) -> (r: Option<U256>)
        ensures
            match r {
                Some(v) => v.wf() && v@ == bytes@,
                None => bytes@.len() != 32,
            },
    {
        if bytes.len() == 32 {
            Some(U256 { bytes })
        } else {
            None
        }
    }

    /// Builds the integer whose value is the given 64-bit quantity.
    pub fn from_u64(x: u64) -> (r: U256)
        ensures
            r.wf(),
            r@.subrange(24, 32) == crate::rlp::u64_be(x),
            forall|i: int| 0 <= i < 24 ==> r@[i] == 0u8,
    {
        let mut bytes: Vec<u8> = Vec::new();
        let mut i: usize = 0;
        while i < 24
            invariant
                i <= 24,
                bytes@.len() == i,
                forall|j: int| 0 <= j < i ==> bytes@[j] == 0u8,
            decreases 24 - i,
        {
            bytes.push(0u8);
            i += 1;
        }
        let mut be = crate::rlp::u64_to_be_bytes(x);
        bytes.append(&mut be);
        proof {
            assert(bytes@.subrange(24, 32) =~= crate::rlp::u64_be(x));
        }
        U256 { bytes }
    }

    /// Copies the integer.
    pub fn dup(&self) -> (r: U256)
        ensures
            r@ == self@,
            r.wf() == self.wf(),
    {
        U256 { bytes: copy_bytes(&self.bytes) }
    }
}

impl View for U256 {
    type V = Seq<u8>;

    open spec fn view(&self) -> Seq<u8> {
        self.bytes@
    }
}

/// A 20-byte account address.
pub struct Address {
    pub bytes: Vec<u8>,
}

impl Address {
    /// Well-formed: exactly 20 bytes.
    pub open spec fn wf(&self) -> bool {
        self.bytes@.len() == 20
    }

    /// Builds an address from its 20 bytes.
    pub fn new(bytes: Vec<u8>) -> (r: Option<Address>)
        ensures
            match r {
                Some(a) => a.wf() && a@ == bytes@,
                None => bytes@.len() != 20,
            },
    {
        if bytes.len() == 20 {
            Some(Address { bytes })
        } else {
            None
        }
    }
}

impl View for Address {
    type V = Seq<u8>;

    open spec fn view(&self) -> Seq<u8> {
        self.bytes@
    }
}

/// A storage slot value: either a bare integer, always public, or an
/// integer together with an explicit privacy flag.
pub enum StorageValue {
    Plain(U256),
    WithPrivacy(U256, bool),
}

impl StorageValue {
    /// Well-formed: the held integer is.
    pub open spec fn wf(&self) -> bool {
        self@.0.len() == 32
    }

    /// The stored integer.
    pub fn value(&self) -> (r: &U256)
        ensures
            r@ == self@.0,
    {
        match self {
            StorageValue::Plain(v) => v,
            StorageValue::WithPrivacy(v, _) => v,
        }
    }

    /// The privacy flag; false when none was given.
    pub fn is_private(&self) -> (r: bool)
        ensures
            r == self@.1,
    {
        match self {
            StorageValue::Plain(_) => false,
            StorageValue::WithPrivacy(_, p) => *p,
        }
    }
}

impl View for StorageValue {
    /// The integer's big-endian bytes and the privacy flag.
    type V = (Seq<u8>, bool);

    open spec fn view(&self) -> (Seq<u8>, bool) {
        match self {
            StorageValue::Plain(v) => (v@, false),
            StorageValue::WithPrivacy(v, p) => (v@, *p),
        }
    }
}

/// The canonical account record inserted into the state trie.
pub ghost struct AccountModel {
    pub nonce: u64,
    pub balance: Seq<u8>,
    pub storage_root: Seq<u8>,
    pub code_hash: Seq<u8>,
}

/// An account in its canonical fixed shape: nonce, balance, storage root
/// and code hash.
pub struct TrieAccount {
    pub nonce: u64,
    pub balance: U256,
    pub storage_root: B256,
    pub code_hash: B256,
}

impl TrieAccount {
    /// Well-formed: balance and both hashes have their fixed widths.
    pub open spec fn wf(&self) -> bool {
        self.balance.wf() && self.storage_root.wf() && self.code_hash.wf()
    }

    /// Copies the record.
    pub fn dup(&self) -> (r: TrieAccount)
        ensures
            r@ == self@,
            r.wf() == self.wf(),
    {
        TrieAccount {
            nonce: self.nonce,
            balance: self.balance.dup(),
            storage_root: self.storage_root.dup(),
            code_hash: self.code_hash.dup(),
        }
    }
}

impl View for TrieAccount {
    type V = AccountModel;

    open spec fn view(&self) -> AccountModel {
        AccountModel {
            nonce: self.nonce,
            balance: self.balance@,
            storage_root: self.storage_root@,
            code_hash: self.code_hash@,
        }
    }
}

/// Copies a byte vector element by element.
pub fn copy_bytes(v: &Vec<u8>) -> (r: Vec<u8>)
    ensures
        r@ == v@,
{
    let mut r: Vec<u8> = Vec::new();
    let mut i: usize = 0;
    while i < v.len()
        invariant
            i <= v@.len(),
            r@ == v@.subrange(0, i as int),
        decreases v@.len() - i,
    {
        r.push(v[i]);
        proof {
            assert(r@ =~= v@.subrange(0, i + 1));
        }
        i += 1;
    }
    proof {
        assert(r@ =~= v@);
    }
    r
}

} // verus!
