//! What an insertion or an update hands to the outside verifier.

use crate::node::{IMTNode, Key, Value};
use vstd::prelude::*;

verus! {

/// Why a mutation was refused. A refused mutation leaves the tree as it was.
#[derive(Clone, Copy, Debug, PartialEq, Eq)]
pub enum ImtError {
    /// The tree already holds as many nodes as its depth allows.
    Overflow,
    /// The key to insert is already in the tree.
    KeyConflict,
    /// The key to update is not in the tree.
    UnknownKey,
}

/// The record of an insertion.
#[derive(Clone, Debug, PartialEq, Eq)]
pub struct IMTInsert<K: Key, V: Value> {
    /// The root before the insertion.
    pub old_root: crate::Hash,
    /// The node count before the insertion.
    pub old_size: u64,
    /// The predecessor of the new key, as it was before the insertion.
    pub ln_node: IMTNode<K, V>,
    /// The predecessor's sibling path before the insertion.
    pub ln_siblings: Vec<Option<crate::Hash>>,
    /// The new node.
    pub node: IMTNode<K, V>,
    /// The new node's sibling path.
    pub node_siblings: Vec<Option<crate::Hash>>,
    /// The predecessor's sibling path after the insertion.
    pub updated_ln_siblings: Vec<Option<crate::Hash>>,
}

/// The record of an update.
#[derive(Clone, Debug, PartialEq, Eq)]
pub struct IMTUpdate<K: Key, V: Value> {
    /// The root before the update.
    pub old_root: crate::Hash,
    /// The node count, which an update leaves as it is.
    pub size: u64,
    /// The node, with its new value.
    pub node: IMTNode<K, V>,
    /// The node's sibling path.
    pub node_siblings: Vec<Option<crate::Hash>>,
    /// The new value.
    pub new_value: V,
}

/// The record of a mutation, from which the step from the old root to the new
/// one can be checked.
#[derive(Clone, Debug, PartialEq, Eq)]
pub enum IMTMutate<K: Key, V: Value> {
    /// A node was inserted.
    Insert(IMTInsert<K, V>),
    /// A node's value was replaced.
    Update(IMTUpdate<K, V>),
}

impl<K: Key, V: Value> IMTMutate<K, V> {
    /// The record of an insertion.
    pub fn insert(
        old_root: crate::Hash,
        old_size: u64,
        ln_node: IMTNode<K, V>,
        ln_siblings: Vec<Option<crate::Hash>>,
        node: IMTNode<K, V>,
        node_siblings: Vec<Option<crate::Hash>>,
        updated_ln_siblings: Vec<Option<crate::Hash>>,
    ) -> (mutate: Self)
        ensures
            mutate == IMTMutate::Insert(
                IMTInsert {
                    old_root,
                    old_size,
                    ln_node,
                    ln_siblings,
                    node,
                    node_siblings,
                    updated_ln_siblings,
                },
            ),
    {
        IMTMutate::Insert(
            IMTInsert {
                old_root,
                old_size,
                ln_node,
                ln_siblings,
                node,
                node_siblings,
                updated_ln_siblings,
            },
        )
    }

    /// The record of an update.
    pub fn update(
        old_root: crate::Hash,
        size: u64,
        node: IMTNode<K, V>,
        node_siblings: Vec<Option<crate::Hash>>,
        new_value: V,
    ) -> (mutate: Self)
        ensures
            mutate == IMTMutate::Update(
                IMTUpdate { old_root, size, node, node_siblings, new_value },
            ),
    {
        IMTMutate::Update(IMTUpdate { old_root, size, node, node_siblings, new_value })
    }
}

} // verus!
