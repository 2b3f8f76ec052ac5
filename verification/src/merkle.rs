//! The tree as a function of its leaves: the digest of every subtree, the path
//! from a leaf to the top, and the root; and the two hashing steps that build
//! them.

use crate::cache::digest_view;
use crate::hashor::{be_bytes, lemma_be_bytes_injective, push_be_bytes, push_bytes, Hashor};
use vstd::arithmetic::power2::{lemma_pow2_unfold, pow2};
use vstd::prelude::*;

verus! {

/// The digest in leaf `pos`, if that leaf is occupied. Leaves are occupied from
/// position 0 on, without gaps.
pub open spec fn leaf_at(leaves: Seq<Seq<u8>>, pos: nat) -> Option<Seq<u8>> {
    if pos < leaves.len() {
        Some(leaves[pos as int])
    } else {
        None
    }
}

/// The digest of a parent from those of its children. An empty child is left
/// out of the hash; a parent of two empty children is empty.
pub open spec fn combine<H: Hashor>(hasher: H, left: Option<Seq<u8>>, right: Option<Seq<u8>>)
    -> Option<Seq<u8>> {
    match (left, right) {
        (None, None) => None,
        (Some(l), None) => Some(hasher.digest(l)),
        (None, Some(r)) => Some(hasher.digest(r)),
        (Some(l), Some(r)) => Some(hasher.digest(l + r)),
    }
}

/// The digest of the subtree rooted at position `pos` of level `level`, in a
/// tree of depth `depth`. Level `depth` holds the leaves, level 0 the top.
pub open spec fn subtree<H: Hashor>(
    hasher: H,
    leaves: Seq<Seq<u8>>,
    depth: nat,
    level: nat,
    pos: nat,
) -> Option<Seq<u8>>
    decreases depth - level,
{
    if level >= depth {
        leaf_at(leaves, pos)
    } else {
        combine(
            hasher,
            subtree(hasher, leaves, depth, level + 1, 2 * pos),
            subtree(hasher, leaves, depth, level + 1, 2 * pos + 1),
        )
    }
}

/// The position, at level `level`, of the subtree that holds leaf `index`.
pub open spec fn ancestor(index: nat, depth: nat, level: nat) -> nat
    decreases depth - level,
{
    if level >= depth {
        index
    } else {
        ancestor(index, depth, level + 1) / 2
    }
}

/// The other child of the parent of `pos`.
pub open spec fn sibling(pos: nat) -> nat {
    if pos % 2 == 0 {
        pos + 1
    } else {
        (pos - 1) as nat
    }
}

/// The sibling path of leaf `index`: the digest beside each of its ancestors,
/// from the leaf level up to level 1.
pub open spec fn merkle_path<H: Hashor>(hasher: H, leaves: Seq<Seq<u8>>, depth: nat, index: nat)
    -> Seq<Option<Seq<u8>>> {
    Seq::new(
        depth,
        |j: int|
            subtree(
                hasher,
                leaves,
                depth,
                (depth - j) as nat,
                sibling(ancestor(index, depth, (depth - j) as nat)),
            ),
    )
}

/// What is hashed into the root: the top digest, then the node count.
pub open spec fn root_preimage(top: Seq<u8>, size: u64) -> Seq<u8> {
    top + be_bytes(size)
}

/// The root of a tree with top digest `top` and `size` inserted nodes.
pub open spec fn root_of<H: Hashor>(hasher: H, top: Seq<u8>, size: u64) -> Seq<u8> {
    hasher.digest(root_preimage(top, size))
}

/// The root computed from the leaves alone.
pub open spec fn merkle_root<H: Hashor>(hasher: H, leaves: Seq<Seq<u8>>, depth: nat, size: u64)
    -> Seq<u8> {
    root_of(hasher, subtree(hasher, leaves, depth, 0, 0).unwrap(), size)
}

/// Hashes two children into their parent.
pub fn hash_pair<H: Hashor>(
    hasher: &H,
    left: Option<crate::Hash>,
    right: Option<crate::Hash>,
) -> (parent: Option<crate::Hash>)
    ensures
        digest_view(parent) == combine(*hasher, digest_view(left), digest_view(right)),
{
    match (left, right) {
        (None, None) => None,
        (Some(l), None) => Some(hasher.hash(l.as_slice())),
        (None, Some(r)) => Some(hasher.hash(r.as_slice())),
        (Some(l), Some(r)) => {
            let mut buf: Vec<u8> = Vec::with_capacity(64);
            push_bytes(&mut buf, l.as_slice());
            push_bytes(&mut buf, r.as_slice());
            Some(hasher.hash(buf.as_slice()))
        },
    }
}

/// Hashes the top digest and the node count into the root.
pub fn hash_root<H: Hashor>(hasher: &H, top: &crate::Hash, size: u64) -> (root: crate::Hash)
    ensures
        root@ == root_of(*hasher, top@, size),
{
    let mut buf: Vec<u8> = Vec::with_capacity(40);
    push_bytes(&mut buf, top.as_slice());
    push_be_bytes(&mut buf, size);
    hasher.hash(buf.as_slice())
}

/// A subtree's digest depends only on the leaves below it: two leaf sequences
/// that differ at most in leaf `index` agree on every subtree off the path
/// from that leaf to the top.
pub proof fn lemma_subtree_off_path<H: Hashor>(
    hasher: H,
    a: Seq<Seq<u8>>,
    b: Seq<Seq<u8>>,
    depth: nat,
    level: nat,
    pos: nat,
    index: nat,
)
    requires
        forall|j: nat| j != index ==> leaf_at(a, j) == leaf_at(b, j),
        level <= depth,
        pos != ancestor(index, depth, level),
    ensures
        subtree(hasher, a, depth, level, pos) == subtree(hasher, b, depth, level, pos),
    decreases depth - level,
{
    if level < depth {
        lemma_subtree_off_path(hasher, a, b, depth, level + 1, 2 * pos, index);
        lemma_subtree_off_path(hasher, a, b, depth, level + 1, 2 * pos + 1, index);
    }
}

/// Without leaves every subtree is empty.
pub proof fn lemma_subtree_empty<H: Hashor>(hasher: H, depth: nat, level: nat, pos: nat)
    ensures
        subtree(hasher, Seq::<Seq<u8>>::empty(), depth, level, pos) is None,
    decreases depth - level,
{
    if level < depth {
        lemma_subtree_empty(hasher, depth, level + 1, 2 * pos);
        lemma_subtree_empty(hasher, depth, level + 1, 2 * pos + 1);
    }
}

/// Every subtree above an occupied leaf has a digest.
pub proof fn lemma_subtree_on_path<H: Hashor>(
    hasher: H,
    leaves: Seq<Seq<u8>>,
    depth: nat,
    level: nat,
    index: nat,
)
    requires
        index < leaves.len(),
        level <= depth,
    ensures
        subtree(hasher, leaves, depth, level, ancestor(index, depth, level)) is Some,
    decreases depth - level,
{
    if level < depth {
        lemma_subtree_on_path(hasher, leaves, depth, level + 1, index);
        // The subtree one level down is the left or the right child.
        let child = ancestor(index, depth, level + 1);
        assert(child == 2 * (child / 2) || child == 2 * (child / 2) + 1);
    }
}

/// A leaf of a tree of depth `depth` lies below position less than `2^level`
/// at each level; at level 0 that is position 0.
pub proof fn lemma_ancestor_bound(index: nat, depth: nat, level: nat)
    requires
        index < pow2(depth),
        level <= depth,
    ensures
        ancestor(index, depth, level) < pow2(level),
        level == 0 ==> ancestor(index, depth, level) == 0,
    decreases depth - level,
{
    if level < depth {
        lemma_ancestor_bound(index, depth, level + 1);
        lemma_pow2_unfold(level + 1);
    }
    if level == 0 {
        vstd::arithmetic::power2::lemma2_to64();
    }
}

/// Whether `hasher` tells `a` from `b`: it gives them one digest only if they
/// are one byte string.
pub open spec fn distinguishes<H: Hashor>(hasher: H, a: Seq<u8>, b: Seq<u8>) -> bool {
    hasher.digest(a) == hasher.digest(b) ==> a == b
}

/// The node count is bound into the root: with the same top digest, two
/// different counts give different preimages.
pub proof fn lemma_root_preimage_binds_size(top: Seq<u8>, size_a: u64, size_b: u64)
    requires
        size_a != size_b,
    ensures
        root_preimage(top, size_a) != root_preimage(top, size_b),
{
    let pa = root_preimage(top, size_a);
    let pb = root_preimage(top, size_b);
    if pa == pb {
        assert(pa.subrange(top.len() as int, pa.len() as int) == be_bytes(size_a));
        assert(pb.subrange(top.len() as int, pb.len() as int) == be_bytes(size_b));
        lemma_be_bytes_injective(size_a, size_b);
    }
}

/// Two trees with the same leaves and different node counts have different
/// roots, as long as the hasher does not collide on the two preimages.
pub proof fn lemma_root_binds_size<H: Hashor>(
    hasher: H,
    leaves: Seq<Seq<u8>>,
    depth: nat,
    size_a: u64,
    size_b: u64,
)
    requires
        size_a != size_b,
        distinguishes(
            hasher,
            root_preimage(subtree(hasher, leaves, depth, 0, 0).unwrap(), size_a),
            root_preimage(subtree(hasher, leaves, depth, 0, 0).unwrap(), size_b),
        ),
    ensures
        merkle_root(hasher, leaves, depth, size_a) != merkle_root(hasher, leaves, depth, size_b),
{
    lemma_root_preimage_binds_size(subtree(hasher, leaves, depth, 0, 0).unwrap(), size_a, size_b);
}

} // verus!
