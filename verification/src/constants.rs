use vstd::prelude::*;

use crate::dag::leaf_node;
use crate::dag::MerkleNode;
use crate::hashing::cid_of;
use crate::hashing::generate_cid;
use crate::hashing::ContentId;
use vstd::slice::slice_to_vec;

verus! {

/// Size in bytes of the chunks a file is split into.
pub const CHUNK_SIZE: usize = 1024;

/// The sample payload behind the default identifier and node.
pub open spec fn default_data() -> Seq<u8> {
    seq![1u8, 2u8, 3u8, 4u8, 5u8]
}

/// The identifier of the default sample payload.
pub fn default_cid() -> (r: ContentId)
    ensures
        r@ == cid_of(default_data()),
{
    let data: [u8; 5] = [1, 2, 3, 4, 5];
    let r = generate_cid(data.as_slice());
    proof {
        assert(data@ =~= default_data());
    }
    r
}

/// A leaf node carrying the default sample payload.
pub fn default_merkle_node() -> (r: MerkleNode)
    ensures
        r@ == leaf_node(default_data()),
{
    let data: [u8; 5] = [1, 2, 3, 4, 5];
    let r = MerkleNode {
        cid: generate_cid(data.as_slice()),
        data: Some(slice_to_vec(data.as_slice())),
        links: Vec::new(),
        is_dup: false,
    };
    proof {
        assert(data@ =~= default_data());
        assert(r@ =~~= leaf_node(default_data()));
    }
    r
}

} // verus!
