//! Digests and the hash function capability.

use tiny_keccak::{Hasher, Keccak};
use vstd::prelude::*;

verus! {

/// The Keccak-256 digest of a byte string, as `tiny_keccak` computes it.
pub uninterp spec fn keccak256(data: Seq<u8>) -> Seq<u8>;

/// Feeds `data` to a fresh `tiny_keccak::Keccak::v256()` with `Hasher::update`
/// and reads 32 bytes out with `Hasher::finalize`. Trusted: the output is a
/// function of the input bytes alone, named [`keccak256`].
#[verifier::external_body]
fn keccak256_of(data: &[u8]) -> (out: crate::Hash)
    ensures
        out@ == keccak256(data@),
{
    let mut out = [0u8; 32];
    let mut sponge = Keccak::v256();
    sponge.update(data);
    sponge.finalize(&mut out);
    out
}

/// A deterministic hash function from byte strings to digests.
pub trait Hashor {
    /// The digest that this hasher assigns to `data`.
    spec fn digest(&self, data: Seq<u8>) -> Seq<u8>;

    /// Hashes `data`.
    fn hash(&self, data: &[u8]) -> (out: crate::Hash)
        ensures
            out@ == self.digest(data@),
    ;
}

/// Keccak-256.
#[derive(Clone, Copy, Debug, Default)]
pub struct Keccak256;

impl Hashor for Keccak256 {
    open spec fn digest(&self, data: Seq<u8>) -> Seq<u8> {
        keccak256(data)
    }

    fn hash(&self, data: &[u8]) -> (out: crate::Hash) {
        keccak256_of(data)
    }
}

/// The eight bytes of `x`, most significant first.
pub open spec fn be_bytes(x: u64) -> Seq<u8> {
    Seq::new(8, |i: int| ((x >> ((56 - 8 * i) as u64)) & 0xff) as u8)
}

/// Appends the big-endian encoding of `x` to `buf`.
pub fn push_be_bytes(buf: &mut Vec<u8>, x: u64)
    ensures
        final(buf)@ == old(buf)@ + be_bytes(x),
{
    let mut i: u8 = 0;
    while i < 8
        invariant
            i <= 8,
            buf@ == old(buf)@ + be_bytes(x).take(i as int),
        decreases 8 - i,
    {
        let shift: u64 = 56 - 8 * (i as u64);
        let b: u8 = ((x >> shift) & 0xff) as u8;
        buf.push(b);
        i = i + 1;
    }
}

/// Appends `bytes` to `buf`.
pub fn push_bytes(buf: &mut Vec<u8>, bytes: &[u8])
    ensures
        final(buf)@ == old(buf)@ + bytes@,
{
    let mut i: usize = 0;
    while i < bytes.len()
        invariant
            i <= bytes.len(),
            buf@ == old(buf)@ + bytes@.take(i as int),
        decreases bytes.len() - i,
    {
        buf.push(bytes[i]);
        i = i + 1;
    }
}

/// Distinct integers have distinct big-endian encodings.
pub proof fn lemma_be_bytes_injective(x: u64, y: u64)
    requires
        be_bytes(x) == be_bytes(y),
    ensures
        x == y,
{
    let a = be_bytes(x);
    let b = be_bytes(y);
    assert(a[0] == b[0] && a[1] == b[1] && a[2] == b[2] && a[3] == b[3]);
    assert(a[4] == b[4] && a[5] == b[5] && a[6] == b[6] && a[7] == b[7]);
    assert(x == y) by (bit_vector)
        requires
            ((x >> 56u64) & 0xff) as u8 == ((y >> 56u64) & 0xff) as u8,
            ((x >> 48u64) & 0xff) as u8 == ((y >> 48u64) & 0xff) as u8,
            ((x >> 40u64) & 0xff) as u8 == ((y >> 40u64) & 0xff) as u8,
            ((x >> 32u64) & 0xff) as u8 == ((y >> 32u64) & 0xff) as u8,
            ((x >> 24u64) & 0xff) as u8 == ((y >> 24u64) & 0xff) as u8,
            ((x >> 16u64) & 0xff) as u8 == ((y >> 16u64) & 0xff) as u8,
            ((x >> 8u64) & 0xff) as u8 == ((y >> 8u64) & 0xff) as u8,
            ((x >> 0u64) & 0xff) as u8 == ((y >> 0u64) & 0xff) as u8,
    ;
}

} // verus!
