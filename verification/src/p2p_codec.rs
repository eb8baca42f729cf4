use vstd::prelude::*;

use crate::dag::MerkleNode;

verus! {

/// The shape of a peer's answer: one node, or a whole subtree of nodes.
#[derive(Clone, Debug)]
pub enum ResponseType {
    Array(Vec<MerkleNode>),
    Single(MerkleNode),
}

/// A peer's answer to a node request.
#[derive(Clone, Debug)]
pub struct Response {
    block: MerkleNode,
}

/// How deep a node request reaches: the node alone, or its whole subtree.
#[derive(Clone, Debug)]
pub enum Depth {
    Full,
    Single,
}

/// A request for the node (or subtree) under a CID, sent to a peer that
/// may hold nodes missing from the local store.
#[derive(Clone, Debug)]
pub struct Request {
    cid: String,
    depth: Depth,
}

} // verus!
