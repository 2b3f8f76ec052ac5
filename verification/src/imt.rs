//! The indexed Merkle tree.

use crate::cache::{digest_view, path_view, HashCache};
use crate::hashor::Hashor;
use crate::merkle::{
    ancestor, hash_pair, hash_root, leaf_at, lemma_ancestor_bound, lemma_subtree_empty,
    lemma_subtree_off_path, lemma_subtree_on_path, merkle_path, merkle_root, subtree,
};
use crate::mutate::{IMTMutate, ImtError};
use crate::node::{IMTNode, Key, Value};
use std::collections::HashMap;
use vstd::arithmetic::power2::pow2;
use vstd::prelude::*;
use vstd::std_specs::iter::IteratorSpec;

verus! {

/// An indexed Merkle tree of fixed depth. The node of index 0 is the sentinel;
/// each insertion takes the next index.
pub struct Imt<H: Hashor, K: Key, V: Value> {
    /// The root: the digest of the top of the tree and the node count.
    pub root: crate::Hash,
    hasher: H,
    depth: u8,
    size: u64,
    nodes: HashMap<K, IMTNode<K, V>>,
    hashes: HashCache,
    order: Ghost<Seq<K>>,
}

/// Whether `node` points at its successor among the keys of `entries`: at the
/// least key above its own, or at the sentinel if its own key is the greatest.
pub open spec fn link_ok<K: Key, V: Value>(
    entries: Map<K, IMTNode<K, V>>,
    node: IMTNode<K, V>,
) -> bool {
    if node.next_key == K::sentinel_spec() {
        forall|k: K| #[trigger] entries.contains_key(k) ==> k.rank() <= node.key.rank()
    } else {
        &&& entries.contains_key(node.next_key)
        &&& node.key.rank() < node.next_key.rank()
        &&& forall|k: K| #[trigger]
            entries.contains_key(k) ==> !(node.key.rank() < k.rank() < node.next_key.rank())
    }
}

/// Splicing a new node in behind its predecessor keeps the list sorted, and
/// leaves the predecessor as the one node that points at the new key.
proof fn lemma_splice_keeps_links<K: Key, V: Value>(
    entries: Map<K, IMTNode<K, V>>,
    ln: IMTNode<K, V>,
    node: IMTNode<K, V>,
)
    requires
        forall|k: K| #[trigger] entries.contains_key(k) ==> entries[k].key == k,
        forall|k: K| #[trigger] entries.contains_key(k) ==> link_ok(entries, entries[k]),
        entries.contains_key(K::sentinel_spec()),
        entries.contains_key(ln.key),
        entries[ln.key] == ln,
        !entries.contains_key(node.key),
        ln.is_ln_of_spec(node.key),
        node.next_key == ln.next_key,
    ensures
        ({
            let spliced = entries.insert(
                ln.key,
                IMTNode { index: ln.index, key: ln.key, value: ln.value, next_key: node.key },
            ).insert(node.key, node);
            &&& forall|k: K| #[trigger]
                spliced.contains_key(k) ==> link_ok(spliced, spliced[k])
            &&& forall|k: K| #[trigger]
                spliced.contains_key(k) ==> (spliced[k].next_key == node.key <==> k == ln.key)
        }),
{
    let new_ln = IMTNode { index: ln.index, key: ln.key, value: ln.value, next_key: node.key };
    let spliced = entries.insert(ln.key, new_ln).insert(node.key, node);
    assert forall|k: K| #[trigger] spliced.contains_key(k) implies link_ok(spliced, spliced[k])
        && (spliced[k].next_key == node.key <==> k == ln.key) by {
        if k != node.key && k != ln.key {
            // Another node: the new key does not fall between it and its
            // successor, since it falls between the predecessor and its own.
            let other = entries[k];
            if k.rank() == ln.key.rank() {
                K::lemma_rank_injective(k, ln.key);
            }
        }
    }
}

/// The most nodes that a tree of depth `depth` takes besides the sentinel.
fn max_size(depth: u8) -> (max: u64)
    requires
        depth <= 64,
    ensures
        max == pow2(depth as nat) - 1,
{
    if depth == 64 {
        proof {
            vstd::arithmetic::power2::lemma2_to64();
        }
        u64::MAX
    } else {
        proof {
            vstd::bits::lemma_u64_pow2_no_overflow(depth as nat);
            vstd::bits::lemma_u64_shl_is_mul(1, depth as u64);
        }
        (1u64 << (depth as u64)) - 1
    }
}

impl<H: Hashor, K: Key, V: Value> Imt<H, K, V> {
    /// The hash function.
    pub closed spec fn spec_hasher(&self) -> H {
        self.hasher
    }

    /// The depth.
    pub closed spec fn spec_depth(&self) -> u8 {
        self.depth
    }

    /// The number of nodes inserted, the sentinel not counted.
    pub closed spec fn spec_size(&self) -> u64 {
        self.size
    }

    /// The root.
    pub closed spec fn spec_root(&self) -> crate::Hash {
        self.root
    }

    /// The nodes by key.
    pub closed spec fn entries(&self) -> Map<K, IMTNode<K, V>> {
        self.nodes@
    }

    /// The keys in the order of their nodes' indices.
    pub closed spec fn keys_by_index(&self) -> Seq<K> {
        self.order@
    }

    /// The cached digest at `pos` of `level`.
    pub closed spec fn cached(&self, level: u8, pos: u64) -> Option<Seq<u8>> {
        digest_view(self.hashes.at(level, pos))
    }

    /// The nodes in the order of their indices.
    pub open spec fn nodes_by_index(&self) -> Seq<IMTNode<K, V>> {
        Seq::new(self.keys_by_index().len(), |i: int| self.entries()[self.keys_by_index()[i]])
    }

    /// The digests of the nodes, in the order of their indices: the leaves.
    pub open spec fn leaves(&self) -> Seq<Seq<u8>> {
        Seq::new(
            self.keys_by_index().len(),
            |i: int| self.entries()[self.keys_by_index()[i]].digest(self.spec_hasher()),
        )
    }

    /// Whether the tree holds `key`.
    pub open spec fn contains(&self, key: K) -> bool {
        self.entries().contains_key(key)
    }

    /// The most nodes that a tree of depth `depth` takes besides the sentinel.
    pub open spec fn capacity(depth: u8) -> int {
        pow2(depth as nat) - 1
    }

    /// The registry is sound: every index up to the last is taken by one node,
    /// each node is filed under its own key, and the sentinel has index 0.
    pub open spec fn registry_ok(&self) -> bool {
        let order = self.keys_by_index();
        let entries = self.entries();
        &&& self.spec_depth() <= 64
        &&& 1 <= order.len() <= pow2(self.spec_depth() as nat)
        &&& order[0] == K::sentinel_spec()
        &&& forall|i: int|
            0 <= i < order.len() ==> entries.contains_key(#[trigger] order[i])
                && entries[order[i]].index == i
        &&& forall|k: K| #[trigger]
            entries.contains_key(k) ==> entries[k].key == k && entries[k].index < order.len()
                && order[entries[k].index as int] == k
    }

    /// The nodes form a list sorted by key: each points at its successor.
    pub open spec fn links_ok(&self) -> bool {
        forall|k: K| #[trigger]
            self.entries().contains_key(k) ==> link_ok(self.entries(), self.entries()[k])
    }

    /// The cache holds, at every position, the digest of the subtree below it.
    pub open spec fn cache_ok(&self) -> bool {
        forall|level: u8, pos: u64|
            level <= self.spec_depth() ==> #[trigger] self.cached(level, pos) == subtree(
                self.spec_hasher(),
                self.leaves(),
                self.spec_depth() as nat,
                level as nat,
                pos as nat,
            )
    }

    /// The tree is well formed.
    pub open spec fn wf(&self) -> bool {
        &&& self.registry_ok()
        &&& self.keys_by_index().len() == self.spec_size() + 1
        &&& self.links_ok()
        &&& self.cache_ok()
        &&& self.spec_root()@ == merkle_root(
            self.spec_hasher(),
            self.leaves(),
            self.spec_depth() as nat,
            self.spec_size(),
        )
    }

    /// The cache is sound off the path from leaf `index` to the top.
    spec fn cache_ok_off_path(&self, index: nat) -> bool {
        forall|level: u8, pos: u64|
            level <= self.depth && pos != ancestor(index, self.depth as nat, level as nat)
                ==> #[trigger] self.cached(level, pos) == subtree(
                self.hasher,
                self.leaves(),
                self.depth as nat,
                level as nat,
                pos as nat,
            )
    }

    /// The root.
    #[verifier::when_used_as_spec(spec_root)]
    pub fn root(&self) -> (root: crate::Hash)
        ensures
            root == self.spec_root(),
    {
        self.root
    }

    /// The depth.
    #[verifier::when_used_as_spec(spec_depth)]
    pub fn depth(&self) -> (depth: u8)
        ensures
            depth == self.spec_depth(),
    {
        self.depth
    }

    /// The number of nodes inserted, the sentinel not counted.
    #[verifier::when_used_as_spec(spec_size)]
    pub fn size(&self) -> (size: u64)
        ensures
            size == self.spec_size(),
    {
        self.size
    }

    /// The node under `key`, if the tree holds one.
    pub fn get(&self, key: &K) -> (node: Option<IMTNode<K, V>>)
        ensures
            node == if self.contains(*key) {
                Some(self.entries()[*key])
            } else {
                None
            },
    {
        broadcast use vstd::std_specs::hash::group_hash_axioms;

        proof {
            K::lemma_key_model();
        }
        match self.nodes.get(key) {
            Some(node) => Some(*node),
            None => None,
        }
    }

    /// The sibling path of the node under `node_key`, read from the cache:
    /// the digest beside each ancestor of its leaf, from the leaf level up.
    pub fn siblings(&self, node_key: &K) -> (path: Vec<Option<crate::Hash>>)
        requires
            self.wf(),
            self.contains(*node_key),
        ensures
            path_view(path@) == merkle_path(
                self.spec_hasher(),
                self.leaves(),
                self.spec_depth() as nat,
                self.entries()[*node_key].index as nat,
            ),
    {
        broadcast use vstd::std_specs::hash::group_hash_axioms;

        proof {
            K::lemma_key_model();
        }
        let node = self.nodes.get(node_key).unwrap();
        let ghost leaf = node.index as nat;
        let ghost goal = merkle_path(self.hasher, self.leaves(), self.depth as nat, leaf);
        let mut siblings: Vec<Option<crate::Hash>> = Vec::with_capacity(self.depth as usize);
        let mut index: u64 = node.index;
        let mut level: u8 = self.depth;
        while level > 0
            invariant
                self.cache_ok(),
                level <= self.depth,
                index == ancestor(leaf, self.depth as nat, level as nat),
                siblings@.len() == self.depth - level,
                goal == merkle_path(self.hasher, self.leaves(), self.depth as nat, leaf),
                forall|j: int|
                    0 <= j < siblings@.len() ==> digest_view(#[trigger] siblings@[j]) == goal[j],
            decreases level,
        {
            let sibling_index: u64 = if index % 2 == 0 {
                index + 1
            } else {
                index - 1
            };
            let sibling_hash = self.hashes.get(level, sibling_index);
            assert(self.cached(level, sibling_index) == digest_view(sibling_hash));
            siblings.push(sibling_hash);
            index = index / 2;
            level = level - 1;
        }
        siblings
    }

    /// The root that the tree keeps while it grows is the root computed anew
    /// from all of its nodes: their digests are the leaves, the top digest is
    /// built from the leaves level by level, and the node count is hashed in.
    pub proof fn lemma_root_is_recomputed(&self)
        requires
            self.wf(),
        ensures
            subtree(self.spec_hasher(), self.leaves(), self.spec_depth() as nat, 0, 0) is Some,
            self.spec_root()@ == merkle_root(
                self.spec_hasher(),
                self.leaves(),
                self.spec_depth() as nat,
                self.spec_size(),
            ),
    {
        let depth = self.spec_depth() as nat;
        vstd::arithmetic::power2::lemma_pow2_pos(depth);
        lemma_subtree_on_path(self.spec_hasher(), self.leaves(), depth, 0, 0);
        lemma_ancestor_bound(0, depth, 0);
    }

    /// Among the first `n` keys by index, one of greatest rank below `key`.
    proof fn lemma_greatest_below(&self, key: K, n: nat) -> (best: int)
        requires
            self.registry_ok(),
            K::sentinel_spec().rank() < key.rank(),
            1 <= n <= self.keys_by_index().len(),
        ensures
            0 <= best < n,
            self.keys_by_index()[best].rank() < key.rank(),
            forall|j: int|
                0 <= j < n && (#[trigger] self.keys_by_index()[j]).rank() < key.rank()
                    ==> self.keys_by_index()[j].rank() <= self.keys_by_index()[best].rank(),
        decreases n,
    {
        let order = self.keys_by_index();
        if n == 1 {
            0
        } else {
            let prev = self.lemma_greatest_below(key, (n - 1) as nat);
            let last = order[n - 1];
            if last.rank() < key.rank() && order[prev].rank() < last.rank() {
                n - 1
            } else {
                prev
            }
        }
    }

    /// Every key that the tree does not hold has a predecessor in it.
    pub proof fn lemma_low_nullifier_exists(&self, key: K) -> (ln_key: K)
        requires
            self.wf(),
            !self.contains(key),
        ensures
            self.contains(ln_key),
            self.entries()[ln_key].is_ln_of_spec(key),
    {
        let order = self.keys_by_index();
        K::lemma_sentinel_least(key);
        if order[0].rank() == key.rank() {
            K::lemma_rank_injective(order[0], key);
        }
        let best = self.lemma_greatest_below(key, order.len());
        let ln = self.entries()[order[best]];
        if ln.next_key != K::sentinel_spec() && ln.next_key.rank() == key.rank() {
            K::lemma_rank_injective(ln.next_key, key);
        }
        order[best]
    }

    /// The list reaches every node: each key of the tree but the sentinel is
    /// the successor of exactly one node, whose key comes before it.
    pub proof fn lemma_one_node_points_at(&self, key: K) -> (pred: K)
        requires
            self.wf(),
            self.contains(key),
            key != K::sentinel_spec(),
        ensures
            self.contains(pred),
            self.entries()[pred].next_key == key,
            pred.rank() < key.rank(),
            forall|other: K|
                self.contains(other) && self.entries()[other].next_key == key ==> other == pred,
    {
        let order = self.keys_by_index();
        K::lemma_sentinel_least(key);
        if order[0].rank() == key.rank() {
            K::lemma_rank_injective(order[0], key);
        }
        let best = self.lemma_greatest_below(key, order.len());
        let pred = order[best];
        let next = self.entries()[pred].next_key;
        assert(link_ok(self.entries(), self.entries()[pred]));
        assert(order[self.entries()[key].index as int] == key);
        if next != K::sentinel_spec() {
            assert(order[self.entries()[next].index as int] == next);
            if next.rank() == key.rank() {
                K::lemma_rank_injective(next, key);
            }
        }
        assert forall|other: K|
            self.contains(other) && self.entries()[other].next_key == key implies other
            == pred by {
            assert(link_ok(self.entries(), self.entries()[other]));
            if other.rank() == pred.rank() {
                K::lemma_rank_injective(other, pred);
            }
        }
        pred
    }

    /// The list ends at the greatest key: a node has no successor exactly when
    /// no key of the tree comes after its own.
    pub proof fn lemma_last_node_is_greatest(&self, key: K)
        requires
            self.wf(),
            self.contains(key),
        ensures
            self.entries()[key].next_key == K::sentinel_spec() <==> (forall|other: K|
                self.contains(other) ==> other.rank() <= key.rank()),
    {
        let node = self.entries()[key];
        assert(link_ok(self.entries(), node));
        if node.next_key != K::sentinel_spec() {
            assert(self.contains(node.next_key));
        }
    }

    /// No key has two predecessors in the tree.
    pub proof fn lemma_low_nullifier_unique(&self, key: K, a: K, b: K)
        requires
            self.wf(),
            self.contains(a),
            self.contains(b),
            self.entries()[a].is_ln_of_spec(key),
            self.entries()[b].is_ln_of_spec(key),
        ensures
            a == b,
    {
        K::lemma_rank_injective(a, b);
    }

    /// The predecessor of `node_key`, a key that the tree does not hold: the
    /// node whose key comes before `node_key` and whose successor comes after
    /// it or does not exist.
    pub fn low_nullifier(&self, node_key: &K) -> (ln: IMTNode<K, V>)
        requires
            self.wf(),
            !self.contains(*node_key),
        ensures
            self.contains(ln.key),
            self.entries()[ln.key] == ln,
            ln.is_ln_of_spec(*node_key),
    {
        broadcast use vstd::std_specs::hash::group_hash_axioms;

        proof {
            K::lemma_key_model();
        }
        let ghost all: Seq<&IMTNode<K, V>> = self.nodes.values().remaining();
        proof {
            // The predecessor is among the nodes that the loop will visit.
            let ln_key = self.lemma_low_nullifier_exists(*node_key);
            assert(all.unref().to_set().contains(self.entries()[ln_key]));
        }
        for node in it: self.nodes.values()
            invariant
                self.registry_ok(),
                it.seq() == all,
                forall|j: int|
                    0 <= j < it.index() ==> !(*(#[trigger] all[j])).is_ln_of_spec(*node_key),
        {
            if node.is_ln_of(node_key) {
                proof {
                    // The node is filed under its own key.
                    assert(self.entries().values().contains(*node));
                }
                return *node;
            }
        }
        // Every node was visited and refused, the predecessor among them.
        assert(false);
        vstd::pervasive::unreached()
    }

    /// Recomputes the digests from the leaf of the node under `node_key` up to
    /// the top, and then the root. Returns the siblings met on the way, from
    /// the leaf level up.
    fn refresh_tree(&mut self, node_key: &K) -> (path: Vec<Option<crate::Hash>>)
        requires
            old(self).registry_ok(),
            old(self).nodes@.contains_key(*node_key),
            old(self).cache_ok_off_path(old(self).nodes@[*node_key].index as nat),
        ensures
            final(self).hasher == old(self).hasher,
            final(self).depth == old(self).depth,
            final(self).size == old(self).size,
            final(self).nodes@ == old(self).nodes@,
            final(self).order@ == old(self).order@,
            final(self).cache_ok(),
            final(self).root@ == merkle_root(
                final(self).hasher,
                final(self).leaves(),
                final(self).depth as nat,
                final(self).size,
            ),
            path_view(path@) == merkle_path(
                final(self).hasher,
                final(self).leaves(),
                final(self).depth as nat,
                old(self).nodes@[*node_key].index as nat,
            ),
            forall|level: u8, pos: u64|
                !(level <= old(self).depth && pos == ancestor(
                    old(self).nodes@[*node_key].index as nat,
                    old(self).depth as nat,
                    level as nat,
                )) ==> #[trigger] final(self).cached(level, pos) == old(self).cached(level, pos),
    {
        broadcast use vstd::std_specs::hash::group_hash_axioms;

        proof {
            K::lemma_key_model();
        }
        let ghost before = *self;
        let node = *self.nodes.get(node_key).unwrap();
        let mut index: u64 = node.index;
        let ghost leaf = index as nat;
        let ghost depth = self.depth as nat;
        let ghost leaves = self.leaves();
        let ghost goal = merkle_path(self.hasher, leaves, depth, leaf);

        // The leaf.
        let mut hash = node.hash(&self.hasher);
        self.hashes.set(self.depth, index, hash);
        proof {
            assert forall|l: u8, p: u64|
                l <= self.depth && (p != ancestor(leaf, depth, l as nat) || l >= self.depth)
                implies #[trigger] self.cached(l, p) == subtree(
                self.hasher,
                leaves,
                depth,
                l as nat,
                p as nat,
            ) by {
                if !(l == self.depth && p == index) {
                    assert(self.cached(l, p) == before.cached(l, p));
                }
            }
            assert forall|l: u8, p: u64|
                !(l <= self.depth && p == ancestor(
                    leaf,
                    depth,
                    l as nat,
                )) implies #[trigger] self.cached(l, p) == before.cached(l, p) by {
            }
        }

        // From the leaf level up, each parent from the child on the path and
        // the cached sibling.
        let mut siblings: Vec<Option<crate::Hash>> = Vec::with_capacity(self.depth as usize);
        let mut level: u8 = self.depth;
        while level > 0
            invariant
                self.hasher == old(self).hasher,
                self.depth == old(self).depth,
                self.size == old(self).size,
                self.nodes@ == old(self).nodes@,
                self.order@ == old(self).order@,
                depth == self.depth,
                leaves == self.leaves(),
                before == *old(self),
                goal == merkle_path(self.hasher, leaves, depth, leaf),
                level <= self.depth,
                index == ancestor(leaf, depth, level as nat),
                Some(hash@) == subtree(self.hasher, leaves, depth, level as nat, index as nat),
                forall|l: u8, p: u64|
                    l <= self.depth && (p != ancestor(leaf, depth, l as nat) || l >= level)
                        ==> #[trigger] self.cached(l, p) == subtree(
                        self.hasher,
                        leaves,
                        depth,
                        l as nat,
                        p as nat,
                    ),
                forall|l: u8, p: u64|
                    !(l <= self.depth && p == ancestor(leaf, depth, l as nat))
                        ==> #[trigger] self.cached(l, p) == before.cached(l, p),
                siblings@.len() == self.depth - level,
                forall|j: int|
                    0 <= j < siblings@.len() ==> digest_view(#[trigger] siblings@[j]) == goal[j],
            decreases level,
        {
            let sibling_index: u64 = if index % 2 == 0 {
                index + 1
            } else {
                index - 1
            };
            let sibling_hash = self.hashes.get(level, sibling_index);
            assert(self.cached(level, sibling_index) == digest_view(sibling_hash));
            siblings.push(sibling_hash);

            let parent = if index % 2 == 0 {
                hash_pair(&self.hasher, Some(hash), sibling_hash)
            } else {
                hash_pair(&self.hasher, sibling_hash, Some(hash))
            };
            hash = parent.unwrap();
            index = index / 2;
            let ghost mid = *self;
            self.hashes.set(level - 1, index, hash);
            proof {
                assert forall|l: u8, p: u64|
                    l <= self.depth && (p != ancestor(leaf, depth, l as nat) || l >= level - 1)
                    implies #[trigger] self.cached(l, p) == subtree(
                    self.hasher,
                    leaves,
                    depth,
                    l as nat,
                    p as nat,
                ) by {
                    if !(l == level - 1 && p == index) {
                        assert(self.cached(l, p) == mid.cached(l, p));
                    }
                }
                assert forall|l: u8, p: u64|
                    !(l <= self.depth && p == ancestor(
                        leaf,
                        depth,
                        l as nat,
                    )) implies #[trigger] self.cached(l, p) == before.cached(l, p) by {
                    assert(self.cached(l, p) == mid.cached(l, p));
                }
            }
            level = level - 1;
        }

        // The root binds the node count to the top digest.
        proof {
            lemma_ancestor_bound(leaf, depth, 0);
        }
        let ghost climbed = *self;
        self.root = hash_root(&self.hasher, &hash, self.size);
        proof {
            assert forall|l: u8, p: u64| #[trigger] self.cached(l, p) == climbed.cached(l, p) by {}
        }
        siblings
    }

    /// A tree of depth `depth` that holds the sentinel node alone.
    pub fn new(hasher: H, depth: u8) -> (imt: Self)
        requires
            depth <= 64,
        ensures
            imt.wf(),
            imt.spec_hasher() == hasher,
            imt.spec_depth() == depth,
            imt.spec_size() == 0,
            imt.keys_by_index() == seq![K::sentinel_spec()],
            imt.entries() == Map::<K, IMTNode<K, V>>::empty().insert(
                K::sentinel_spec(),
                IMTNode {
                    index: 0,
                    key: K::sentinel_spec(),
                    value: V::zero_spec(),
                    next_key: K::sentinel_spec(),
                },
            ),
    {
        broadcast use vstd::std_specs::hash::group_hash_axioms;

        proof {
            K::lemma_key_model();
            vstd::arithmetic::power2::lemma_pow2_pos(depth as nat);
        }
        let init_node_key = K::sentinel();
        let init_node = IMTNode {
            index: 0,
            key: init_node_key,
            value: V::zero(),
            next_key: init_node_key,
        };
        let mut nodes: HashMap<K, IMTNode<K, V>> = HashMap::new();
        nodes.insert(init_node_key, init_node);
        let ghost order = Seq::<K>::empty().push(init_node_key);
        let mut imt = Imt {
            root: [0u8; 32],
            hasher,
            depth,
            size: 0,
            nodes,
            hashes: HashCache::new(),
            order: Ghost(order),
        };
        proof {
            assert forall|level: u8, pos: u64|
                level <= imt.depth && pos != ancestor(0, imt.depth as nat, level as nat)
                implies #[trigger] imt.cached(level, pos) == subtree(
                imt.hasher,
                imt.leaves(),
                imt.depth as nat,
                level as nat,
                pos as nat,
            ) by {
                lemma_subtree_off_path(
                    imt.hasher,
                    imt.leaves(),
                    Seq::<Seq<u8>>::empty(),
                    imt.depth as nat,
                    level as nat,
                    pos as nat,
                    0,
                );
                lemma_subtree_empty(imt.hasher, imt.depth as nat, level as nat, pos as nat);
            }
        }
        imt.refresh_tree(&init_node_key);
        imt
    }

    /// After the node of index `index` alone has changed, or has been added as
    /// the last one, the cache is still sound off the path from its leaf.
    proof fn lemma_cache_off_path(&self, before: Self, index: nat)
        requires
            before.cache_ok(),
            self.hashes == before.hashes,
            self.hasher == before.hasher,
            self.depth == before.depth,
            forall|j: nat| j != index ==> leaf_at(before.leaves(), j) == leaf_at(self.leaves(), j),
        ensures
            self.cache_ok_off_path(index),
    {
        assert forall|level: u8, pos: u64|
            level <= self.depth && pos != ancestor(
                index,
                self.depth as nat,
                level as nat,
            ) implies #[trigger] self.cached(level, pos) == subtree(
            self.hasher,
            self.leaves(),
            self.depth as nat,
            level as nat,
            pos as nat,
        ) by {
            assert(self.cached(level, pos) == before.cached(level, pos));
            lemma_subtree_off_path(
                self.hasher,
                before.leaves(),
                self.leaves(),
                self.depth as nat,
                level as nat,
                pos as nat,
                index,
            );
        }
    }

    /// Replaces the value of the node under `key` and refreshes the digests
    /// from its leaf to the root. Nothing else changes: not the node's index,
    /// key or successor, no other node, no digest off that path.
    pub fn update_node(&mut self, key: K, value: V) -> (res: Result<IMTMutate<K, V>, ImtError>)
        requires
            old(self).wf(),
        ensures
            final(self).wf(),
            final(self).spec_hasher() == old(self).spec_hasher(),
            final(self).spec_depth() == old(self).spec_depth(),
            final(self).spec_size() == old(self).spec_size(),
            final(self).keys_by_index() == old(self).keys_by_index(),
            match res {
                Err(e) => {
                    &&& e == ImtError::UnknownKey
                    &&& !old(self).contains(key)
                    &&& *final(self) == *old(self)
                },
                Ok(IMTMutate::Update(update)) => {
                    let before = old(self).entries()[key];
                    let node = IMTNode {
                        index: before.index,
                        key: before.key,
                        value,
                        next_key: before.next_key,
                    };
                    &&& old(self).contains(key)
                    &&& final(self).entries() == old(self).entries().insert(key, node)
                    &&& final(self).nodes_by_index() == old(self).nodes_by_index().update(
                        node.index as int,
                        node,
                    )
                    &&& forall|level: u8, pos: u64|
                        !(level <= old(self).spec_depth() && pos == ancestor(
                            node.index as nat,
                            old(self).spec_depth() as nat,
                            level as nat,
                        )) ==> #[trigger] final(self).cached(level, pos) == old(self).cached(
                            level,
                            pos,
                        )
                    &&& update.old_root == old(self).spec_root()
                    &&& update.size == old(self).spec_size()
                    &&& update.node == node
                    &&& path_view(update.node_siblings@) == merkle_path(
                        final(self).spec_hasher(),
                        final(self).leaves(),
                        final(self).spec_depth() as nat,
                        node.index as nat,
                    )
                    &&& update.new_value == value
                },
                Ok(IMTMutate::Insert(_)) => false,
            },
    {
        broadcast use vstd::std_specs::hash::group_hash_axioms;

        proof {
            K::lemma_key_model();
        }
        let ghost before = *self;
        let found = match self.nodes.get(&key) {
            Some(node) => *node,
            None => {
                return Err(ImtError::UnknownKey);
            },
        };
        let old_root = self.root;
        let size = self.size;

        let node = IMTNode { index: found.index, key: found.key, value, next_key: found.next_key };
        self.nodes.insert(key, node);
        proof {
            assert forall|k: K| #[trigger] self.entries().contains_key(k) implies link_ok(
                self.entries(),
                self.entries()[k],
            ) by {
            }
            self.lemma_cache_off_path(before, node.index as nat);
        }
        let node_siblings = self.refresh_tree(&key);

        Ok(IMTMutate::update(old_root, size, node, node_siblings, value))
    }

    /// Inserts `key` with `value`: splices a new node into the list behind the
    /// predecessor of `key`, gives it the next index, and refreshes the digests
    /// first from the predecessor's leaf and then from the new one.
    pub fn insert_node(&mut self, key: K, value: V) -> (res: Result<IMTMutate<K, V>, ImtError>)
        requires
            old(self).wf(),
        ensures
            final(self).wf(),
            final(self).spec_hasher() == old(self).spec_hasher(),
            final(self).spec_depth() == old(self).spec_depth(),
            match res {
                Err(e) => {
                    &&& *final(self) == *old(self)
                    &&& e == if old(self).spec_size() == Self::capacity(old(self).spec_depth()) {
                        ImtError::Overflow
                    } else {
                        ImtError::KeyConflict
                    }
                    &&& old(self).spec_size() == Self::capacity(old(self).spec_depth())
                        || old(self).contains(key)
                },
                Ok(IMTMutate::Insert(insert)) => {
                    let ln = insert.ln_node;
                    let new_ln = IMTNode {
                        index: ln.index,
                        key: ln.key,
                        value: ln.value,
                        next_key: key,
                    };
                    let node = IMTNode {
                        index: (old(self).spec_size() + 1) as u64,
                        key,
                        value,
                        next_key: ln.next_key,
                    };
                    &&& old(self).spec_size() < Self::capacity(old(self).spec_depth())
                    &&& !old(self).contains(key)
                    &&& old(self).contains(ln.key)
                    &&& old(self).entries()[ln.key] == ln
                    &&& ln.is_ln_of_spec(key)
                    &&& final(self).spec_size() == old(self).spec_size() + 1
                    &&& final(self).entries() == old(self).entries().insert(ln.key, new_ln).insert(
                        key,
                        node,
                    )
                    &&& final(self).keys_by_index() == old(self).keys_by_index().push(key)
                    &&& final(self).nodes_by_index() == old(self).nodes_by_index().update(
                        ln.index as int,
                        new_ln,
                    ).push(node)
                    &&& forall|k: K| #[trigger]
                        final(self).contains(k) ==> (final(self).entries()[k].next_key == key
                            <==> k == ln.key)
                    &&& insert.old_root == old(self).spec_root()
                    &&& insert.old_size == old(self).spec_size()
                    &&& path_view(insert.ln_siblings@) == merkle_path(
                        old(self).spec_hasher(),
                        old(self).leaves(),
                        old(self).spec_depth() as nat,
                        ln.index as nat,
                    )
                    &&& insert.node == node
                    &&& path_view(insert.node_siblings@) == merkle_path(
                        final(self).spec_hasher(),
                        final(self).leaves(),
                        final(self).spec_depth() as nat,
                        node.index as nat,
                    )
                    &&& path_view(insert.updated_ln_siblings@) == merkle_path(
                        final(self).spec_hasher(),
                        final(self).leaves(),
                        final(self).spec_depth() as nat,
                        ln.index as nat,
                    )
                },
                Ok(IMTMutate::Update(_)) => false,
            },
    {
        broadcast use vstd::std_specs::hash::group_hash_axioms;

        proof {
            K::lemma_key_model();
        }
        let ghost before = *self;

        // A full tree takes no more nodes.
        let max_size = max_size(self.depth);
        if self.size >= max_size {
            return Err(ImtError::Overflow);
        }
        // Keys are unique.
        if self.nodes.contains_key(&key) {
            return Err(ImtError::KeyConflict);
        }
        let old_root = self.root;
        let old_size = self.size;

        // The predecessor and its path, before anything changes.
        let ln_node = self.low_nullifier(&key);
        let ln_siblings = self.siblings(&ln_node.key);

        self.size = self.size + 1;
        let node_index = self.size;

        // Point the predecessor at the new key and refresh from its leaf.
        let new_ln = IMTNode {
            index: ln_node.index,
            key: ln_node.key,
            value: ln_node.value,
            next_key: key,
        };
        self.nodes.insert(ln_node.key, new_ln);
        proof {
            self.lemma_cache_off_path(before, ln_node.index as nat);
        }
        self.refresh_tree(&ln_node.key);
        let ghost linked = *self;

        // The new node takes over the predecessor's former successor.
        let node = IMTNode { index: node_index, key, value, next_key: ln_node.next_key };
        self.nodes.insert(key, node);
        proof {
            self.order@ = self.order@.push(key);
            vstd::arithmetic::power2::lemma_pow2_pos(self.depth as nat);
            self.lemma_cache_off_path(linked, node_index as nat);
        }
        let node_siblings = self.refresh_tree(&key);
        proof {
            lemma_splice_keeps_links(before.entries(), ln_node, node);
        }

        // The predecessor's path once more: the new leaf may lie beside it.
        let updated_ln_siblings = self.siblings(&ln_node.key);

        Ok(
            IMTMutate::insert(
                old_root,
                old_size,
                ln_node,
                ln_siblings,
                node,
                node_siblings,
                updated_ln_siblings,
            ),
        )
    }
}

} // verus!
