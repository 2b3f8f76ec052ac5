//! Nodes of the tree, and what a key and a value must offer.

use crate::hashor::{be_bytes, push_be_bytes, push_bytes, Hashor};
use vstd::prelude::*;
use vstd::std_specs::hash::obeys_key_model;

verus! {

/// A totally ordered key with a least value, the sentinel. The sentinel is the
/// key of the node that anchors the list, and as a `next_key` it means "no
/// successor".
pub trait Key: Copy + Eq + core::hash::Hash {
    /// The place of the key in the order: `a` comes before `b` exactly when
    /// `a.rank() < b.rank()`.
    spec fn rank(self) -> int;

    /// The least key.
    spec fn sentinel_spec() -> Self;

    /// The bytes that stand for the key in a node's digest.
    spec fn key_bytes(self) -> Seq<u8>;

    /// Keys of equal rank are equal.
    proof fn lemma_rank_injective(a: Self, b: Self)
        requires
            a.rank() == b.rank(),
        ensures
            a == b,
    ;

    /// No key comes before the sentinel.
    proof fn lemma_sentinel_least(k: Self)
        ensures
            Self::sentinel_spec().rank() <= k.rank(),
    ;

    /// The key's `Eq`, `Hash` and `Clone` are those of a hash-table key.
    proof fn lemma_key_model()
        ensures
            obeys_key_model::<Self>(),
    ;

    /// The least key.
    fn sentinel() -> (k: Self)
        ensures
            k == Self::sentinel_spec(),
    ;

    /// Whether `self` comes strictly before `other`.
    fn precedes(&self, other: &Self) -> (b: bool)
        ensures
            b == (self.rank() < other.rank()),
    ;

    /// Appends the key's bytes to `buf`.
    fn write_key(&self, buf: &mut Vec<u8>)
        ensures
            final(buf)@ == old(buf)@ + self.key_bytes(),
    ;
}

/// A payload with a zero value, which the sentinel node carries.
pub trait Value: Copy {
    /// The zero value.
    spec fn zero_spec() -> Self;

    /// The bytes that stand for the value in a node's digest.
    spec fn value_bytes(self) -> Seq<u8>;

    /// The zero value.
    fn zero() -> (v: Self)
        ensures
            v == Self::zero_spec(),
    ;

    /// Appends the value's bytes to `buf`.
    fn write_value(&self, buf: &mut Vec<u8>)
        ensures
            final(buf)@ == old(buf)@ + self.value_bytes(),
    ;
}

impl Key for u64 {
    open spec fn rank(self) -> int {
        self as int
    }

    open spec fn sentinel_spec() -> Self {
        0
    }

    open spec fn key_bytes(self) -> Seq<u8> {
        be_bytes(self)
    }

    proof fn lemma_rank_injective(a: Self, b: Self) {
    }

    proof fn lemma_sentinel_least(k: Self) {
    }

    proof fn lemma_key_model() {
        broadcast use vstd::std_specs::hash::axiom_u64_obeys_hash_table_key_model;

    }

    fn sentinel() -> (k: Self) {
        0
    }

    fn precedes(&self, other: &Self) -> (b: bool) {
        *self < *other
    }

    fn write_key(&self, buf: &mut Vec<u8>) {
        push_be_bytes(buf, *self);
    }
}

impl Value for u64 {
    open spec fn zero_spec() -> Self {
        0
    }

    open spec fn value_bytes(self) -> Seq<u8> {
        be_bytes(self)
    }

    fn zero() -> (v: Self) {
        0
    }

    fn write_value(&self, buf: &mut Vec<u8>) {
        push_be_bytes(buf, *self);
    }
}

impl Value for [u8; 32] {
    open spec fn zero_spec() -> Self {
        vstd::array::spec_array_fill_for_copy_type::<u8, 32>(0u8)
    }

    open spec fn value_bytes(self) -> Seq<u8> {
        self@
    }

    fn zero() -> (v: Self) {
        [0u8; 32]
    }

    fn write_value(&self, buf: &mut Vec<u8>) {
        push_bytes(buf, self.as_slice());
    }
}

/// One occupied leaf of the tree.
#[derive(Clone, Copy, Debug, PartialEq, Eq)]
pub struct IMTNode<K: Key, V: Value> {
    /// The leaf position, given at insertion and never reused.
    pub index: u64,
    /// The key.
    pub key: K,
    /// The payload.
    pub value: V,
    /// The key of the successor in key order, or the sentinel if there is none.
    pub next_key: K,
}

impl<K: Key, V: Value> IMTNode<K, V> {
    /// The bytes that are hashed into the node's digest: the index, the key,
    /// the value and the successor's key, in this order.
    pub open spec fn bytes(self) -> Seq<u8> {
        be_bytes(self.index) + self.key.key_bytes() + self.value.value_bytes()
            + self.next_key.key_bytes()
    }

    /// The digest of the node under `hasher`.
    pub open spec fn digest<H: Hashor>(self, hasher: H) -> Seq<u8> {
        hasher.digest(self.bytes())
    }

    /// Whether the node is the predecessor of `key`: its key comes before
    /// `key`, and its successor comes after `key` or does not exist.
    pub open spec fn is_ln_of_spec(self, key: K) -> bool {
        &&& self.key.rank() < key.rank()
        &&& (key.rank() < self.next_key.rank() || self.next_key == K::sentinel_spec())
    }

    /// Computes the node's digest.
    pub fn hash<H: Hashor>(&self, hasher: &H) -> (out: crate::Hash)
        ensures
            out@ == self.digest(*hasher),
    {
        let mut buf: Vec<u8> = Vec::new();
        push_be_bytes(&mut buf, self.index);
        self.key.write_key(&mut buf);
        self.value.write_value(&mut buf);
        self.next_key.write_key(&mut buf);
        hasher.hash(buf.as_slice())
    }

    /// Whether the node is the predecessor (the low nullifier) of `key`.
    pub fn is_ln_of(&self, key: &K) -> (b: bool)
        ensures
            b == self.is_ln_of_spec(*key),
    {
        proof {
            K::lemma_sentinel_least(self.next_key);
            if self.next_key.rank() == K::sentinel_spec().rank() {
                K::lemma_rank_injective(self.next_key, K::sentinel_spec());
            }
        }
        let least = K::sentinel();
        self.key.precedes(key) && (key.precedes(&self.next_key) || !least.precedes(
            &self.next_key,
        ))
    }
}

} // verus!
