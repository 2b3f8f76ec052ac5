//! An indexed Merkle tree: an authenticated key/value map whose nodes form a
//! sorted linked list by key, laid over a fixed-depth Merkle tree. Insertions
//! and updates return the sibling paths that let an outside verifier check the
//! transition from the old root to the new one.

use vstd::prelude::*;

pub mod hashor;
pub mod node;
pub mod merkle;
pub mod cache;
pub mod mutate;
pub mod imt;

verus! {

/// A fixed-size digest.
pub type Hash = [u8; 32];

} // verus!
