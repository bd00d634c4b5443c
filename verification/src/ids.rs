//! Fixed-width byte identifiers and the key abstraction used by the indexes.
use vstd::prelude::*;
use vstd::bytes::{spec_u64_to_le_bytes, u64_to_le_bytes, lemma_auto_spec_u64_to_from_le_bytes};

verus! {

/// A key of an index. Indexes only ever look at a key through its byte
/// encoding: two keys are the same key exactly when their bytes agree.
pub trait IndexKey: Sized {
    /// The canonical byte encoding of the key.
    spec fn key_bytes(&self) -> Seq<u8>;

    /// Produce the canonical byte encoding.
    fn to_key_bytes(&self) -> (r: Vec<u8>)
        ensures
            r@ == self.key_bytes(),
    ;

    /// Whether two keys are the same key.
    fn same_key(&self, other: &Self) -> (r: bool)
        ensures
            r == (self.key_bytes() == other.key_bytes()),
    ;

    /// A copy of the key.
    fn clone_key(&self) -> (r: Self)
        ensures
            r.key_bytes() == self.key_bytes(),
    ;
}

/// Copy a byte slice into a new vector.
pub fn copy_bytes(a: &[u8]) -> (r: Vec<u8>)
    ensures
        r@ == a@,
{
    let mut v: Vec<u8> = Vec::new();
    let mut i: usize = 0;
    while i < a.len()
        invariant
            0 <= i <= a@.len(),
            v@ == a@.subrange(0, i as int),
        decreases a@.len() - i,
    {
        v.push(a[i]);
        i = i + 1;
    }
    assert(v@ =~= a@);
    v
}

/// Compare two byte slices for equality.
pub fn bytes_equal(a: &[u8], b: &[u8]) -> (r: bool)
    ensures
        r == (a@ == b@),
{
    if a.len() != b.len() {
        return false;
    }
    let mut i: usize = 0;
    while i < a.len()
        invariant
            a@.len() == b@.len(),
            0 <= i <= a@.len(),
            forall|j: int| 0 <= j < i ==> a@[j] == b@[j],
        decreases a@.len() - i,
    {
        if a[i] != b[i] {
            return false;
        }
        i = i + 1;
    }
    assert(a@ =~= b@);
    true
}

/// Two integers are the same key exactly when they are equal: the key
/// encoding of a `u64` (its little-endian bytes) is one to one.
pub proof fn lemma_u64_key_injective(a: u64, b: u64)
    ensures
        a.key_bytes().len() == 8,
        (a.key_bytes() == b.key_bytes()) <==> (a == b),
{
    lemma_auto_spec_u64_to_from_le_bytes();
}

/// Two `usize` values are the same key exactly when they are equal.
pub proof fn lemma_usize_key_injective(a: usize, b: usize)
    ensures
        a.key_bytes().len() == 8,
        (a.key_bytes() == b.key_bytes()) <==> (a == b),
{
    lemma_auto_spec_u64_to_from_le_bytes();
    assert((a as u64 == b as u64) ==> a == b);
}

impl IndexKey for u64 {
    open spec fn key_bytes(&self) -> Seq<u8> {
        spec_u64_to_le_bytes(*self)
    }

    fn to_key_bytes(&self) -> (r: Vec<u8>) {
        u64_to_le_bytes(*self)
    }

    fn same_key(&self, other: &Self) -> (r: bool) {
        proof {
            lemma_auto_spec_u64_to_from_le_bytes();
        }
        *self == *other
    }

    fn clone_key(&self) -> (r: Self) {
        *self
    }
}

impl IndexKey for usize {
    open spec fn key_bytes(&self) -> Seq<u8> {
        spec_u64_to_le_bytes(*self as u64)
    }

    fn to_key_bytes(&self) -> (r: Vec<u8>) {
        u64_to_le_bytes(*self as u64)
    }

    fn same_key(&self, other: &Self) -> (r: bool) {
        proof {
            lemma_auto_spec_u64_to_from_le_bytes();
        }
        *self == *other
    }

    fn clone_key(&self) -> (r: Self) {
        *self
    }
}

/// Eight-byte identifier.
#[derive(Clone, Copy, Debug, PartialEq, Eq, Hash, Default)]
pub struct ID8 {
    bytes: [u8; 8],
}

/// Sixteen-byte identifier.
#[derive(Clone, Copy, Debug, PartialEq, Eq, Hash, Default)]
pub struct ID16 {
    bytes: [u8; 16],
}

/// Thirty-two-byte identifier.
#[derive(Clone, Copy, Debug, PartialEq, Eq, Hash, Default)]
pub struct ID32 {
    bytes: [u8; 32],
}

impl ID8 {
    /// The identifier's bytes.
    pub closed spec fn view(&self) -> Seq<u8> {
        self.bytes@
    }

    /// An identifier has 8 bytes, and it is encoded as a key by all of
    /// them: two identifiers are the same key exactly when all their bytes
    /// agree.
    pub proof fn lemma_key_is_bytes(a: ID8, b: ID8)
        ensures
            a@.len() == 8,
            a.key_bytes() == a@,
            (a.key_bytes() == b.key_bytes()) <==> (a@ == b@),
    {
    }

    /// Identifier made of the given bytes.
    pub fn new(bytes: [u8; 8]) -> (r: Self)
        ensures
            r@ == bytes@,
    {
        ID8 { bytes }
    }

    /// Borrow the identifier's bytes.
    pub fn as_bytes(&self) -> (r: &[u8; 8])
        ensures
            r@ == self@,
    {
        &self.bytes
    }
}

impl ID16 {
    /// The identifier's bytes.
    pub closed spec fn view(&self) -> Seq<u8> {
        self.bytes@
    }

    /// An identifier has 16 bytes, and it is encoded as a key by all of
    /// them: two identifiers are the same key exactly when all their bytes
    /// agree.
    pub proof fn lemma_key_is_bytes(a: ID16, b: ID16)
        ensures
            a@.len() == 16,
            a.key_bytes() == a@,
            (a.key_bytes() == b.key_bytes()) <==> (a@ == b@),
    {
    }

    /// Identifier made of the given bytes.
    pub fn from_bytes(bytes: [u8; 16]) -> (r: Self)
        ensures
            r@ == bytes@,
    {
        ID16 { bytes }
    }

    /// Borrow the identifier's bytes.
    pub fn as_bytes(&self) -> (r: &[u8; 16])
        ensures
            r@ == self@,
    {
        &self.bytes
    }
}

impl ID32 {
    /// The identifier's bytes.
    pub closed spec fn view(&self) -> Seq<u8> {
        self.bytes@
    }

    /// An identifier has 32 bytes, and it is encoded as a key by all of
    /// them: two identifiers are the same key exactly when all their bytes
    /// agree.
    pub proof fn lemma_key_is_bytes(a: ID32, b: ID32)
        ensures
            a@.len() == 32,
            a.key_bytes() == a@,
            (a.key_bytes() == b.key_bytes()) <==> (a@ == b@),
    {
    }

    /// Identifier made of the given bytes.
    pub fn new(bytes: [u8; 32]) -> (r: Self)
        ensures
            r@ == bytes@,
    {
        ID32 { bytes }
    }

    /// Borrow the identifier's bytes.
    pub fn as_bytes(&self) -> (r: &[u8; 32])
        ensures
            r@ == self@,
    {
        &self.bytes
    }
}

impl IndexKey for ID8 {
    open spec fn key_bytes(&self) -> Seq<u8> {
        self@
    }

    fn to_key_bytes(&self) -> (r: Vec<u8>)
        ensures
            r@ == self@,
            r@.len() == 8,
    {
        copy_bytes(self.bytes.as_slice())
    }

    fn same_key(&self, other: &Self) -> (r: bool)
        ensures
            r == (self@ == other@),
    {
        bytes_equal(self.bytes.as_slice(), other.bytes.as_slice())
    }

    fn clone_key(&self) -> (r: Self) {
        ID8 { bytes: self.bytes }
    }
}

impl IndexKey for ID16 {
    open spec fn key_bytes(&self) -> Seq<u8> {
        self@
    }

    fn to_key_bytes(&self) -> (r: Vec<u8>)
        ensures
            r@ == self@,
            r@.len() == 16,
    {
        copy_bytes(self.bytes.as_slice())
    }

    fn same_key(&self, other: &Self) -> (r: bool)
        ensures
            r == (self@ == other@),
    {
        bytes_equal(self.bytes.as_slice(), other.bytes.as_slice())
    }

    fn clone_key(&self) -> (r: Self) {
        ID16 { bytes: self.bytes }
    }
}

impl IndexKey for ID32 {
    open spec fn key_bytes(&self) -> Seq<u8> {
        self@
    }

    fn to_key_bytes(&self) -> (r: Vec<u8>)
        ensures
            r@ == self@,
            r@.len() == 32,
    {
        copy_bytes(self.bytes.as_slice())
    }

    fn same_key(&self, other: &Self) -> (r: bool)
        ensures
            r == (self@ == other@),
    {
        bytes_equal(self.bytes.as_slice(), other.bytes.as_slice())
    }

    fn clone_key(&self) -> (r: Self) {
        ID32 { bytes: self.bytes }
    }
}

} // verus!
