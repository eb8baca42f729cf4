use vstd::prelude::*;

use crate::hashing::cid_of;
use crate::hashing::cid_str_of;
use crate::hashing::cid_wf;
use crate::hashing::copy_bytes;
use crate::hashing::generate_cid;
use crate::hashing::ContentId;
use crate::helpers::convert_file_extension_to_raw;
use vstd::slice::slice_subrange;
use vstd::slice::slice_to_vec;
use vstd::utf8::encode_utf8;

verus! {

/// Errors of the Merkle DAG builder.
#[derive(Debug, PartialEq, Eq, Structural)]
pub enum DagErrors {
    /// The vector of leaves was empty.
    EmptyError,
    /// The file extension is invalid (empty).
    InvalidFileExtensionError,
}

/// A node of the Merkle DAG.  Leaves carry chunk bytes and have no links;
/// internal nodes link to their two children and carry no data; the root
/// additionally carries the encoded file extension as its data.
#[derive(Clone, Debug, PartialEq)]
pub struct MerkleNode {
    /// Content identifier of this node: the hash of its chunk bytes for a
    /// leaf, or of its children's identifiers for an internal node.
    pub cid: ContentId,
    /// Identifiers of the children, in left-to-right order.
    pub links: Vec<ContentId>,
    /// Chunk bytes (leaves) or encoded file extension (root).
    pub data: Option<Vec<u8>>,
    /// True only for a node synthesized to pad an odd-length level.
    pub is_dup: bool,
}

/// The mathematical value of a [`MerkleNode`].
#[verifier::ext_equal]
pub ghost struct NodeV {
    pub cid: Seq<u8>,
    pub links: Seq<Seq<u8>>,
    pub data: Option<Seq<u8>>,
    pub is_dup: bool,
}

impl View for MerkleNode {
    type V = NodeV;

    open spec fn view(&self) -> NodeV {
        NodeV {
            cid: self.cid@,
            links: self.links@.map_values(|c: ContentId| c@),
            data: match self.data {
                Some(d) => Some(d@),
                None => None,
            },
            is_dup: self.is_dup,
        }
    }
}

/// The values of a sequence of nodes.
pub open spec fn nodes_view(ns: Seq<MerkleNode>) -> Seq<NodeV> {
    ns.map_values(|n: MerkleNode| n@)
}

/// The identifiers of a sequence of nodes, in order.
pub open spec fn cids_of(ns: Seq<NodeV>) -> Seq<Seq<u8>> {
    ns.map_values(|n: NodeV| n.cid)
}

/// A well-formed node: its identifier and its links are in canonical
/// binary CID form, it has at most two children, and its data fits a
/// store value.
pub open spec fn node_wf(n: NodeV) -> bool {
    &&& cid_wf(n.cid)
    &&& n.links.len() <= 2
    &&& forall|i: int| 0 <= i < n.links.len() ==> cid_wf(#[trigger] n.links[i])
    &&& n.data matches Some(d) ==> d.len() <= 0xFFFF_0000
}

/// Every node of the sequence is well formed.
pub open spec fn nodes_wf(ns: Seq<NodeV>) -> bool {
    forall|i: int| 0 <= i < ns.len() ==> node_wf(#[trigger] ns[i])
}

/// The ordered chunks of a byte buffer: each of length `size` except
/// possibly the last, which is shorter but never empty.  An empty buffer
/// has no chunks.
pub open spec fn chunks_of(data: Seq<u8>, size: nat) -> Seq<Seq<u8>>
    decreases data.len(),
{
    if size == 0 {
        seq![]
    } else if data.len() == 0 {
        seq![]
    } else if data.len() <= size {
        seq![data]
    } else {
        seq![data.take(size as int)] + chunks_of(data.skip(size as int), size)
    }
}

/// Chunking is lossless: concatenating the chunks gives the buffer back.
pub proof fn lemma_chunks_concat(data: Seq<u8>, size: nat)
    requires
        size > 0,
    ensures
        chunks_of(data, size).flatten() == data,
    decreases data.len(),
{
    if data.len() == 0 {
        assert(chunks_of(data, size) =~~= Seq::<Seq<u8>>::empty());
        assert(Seq::<Seq<u8>>::empty().flatten() =~= data);
    } else if data.len() <= size {
        assert(chunks_of(data, size) =~~= seq![data]);
        seq![data].lemma_flatten_one_element();
        assert(chunks_of(data, size).flatten() =~= data);
    } else {
        lemma_chunks_concat(data.skip(size as int), size);
        let chunks = chunks_of(data, size);
        assert(chunks.drop_first() =~~= chunks_of(data.skip(size as int), size));
        assert(chunks.first() == data.take(size as int));
        assert(chunks.flatten() == chunks.first() + chunks.drop_first().flatten());
        assert(chunks.flatten() =~= data.take(size as int) + data.skip(size as int));
        assert(chunks.flatten() =~= data);
    }
}

/// Every chunk is non-empty and no longer than the chunk size.
pub proof fn lemma_chunks_lens(data: Seq<u8>, size: nat)
    requires
        size > 0,
    ensures
        forall|i: int|
            0 <= i < chunks_of(data, size).len() ==> 0 < (
            #[trigger] chunks_of(data, size)[i]).len() <= size,
        chunks_of(data, size).len() > 0 <==> data.len() > 0,
    decreases data.len(),
{
    if data.len() > size {
        lemma_chunks_lens(data.skip(size as int), size);
        assert forall|i: int| 0 <= i < chunks_of(data, size).len() implies 0 < (
        #[trigger] chunks_of(data, size)[i]).len() <= size by {
            if i > 0 {
                assert(chunks_of(data, size)[i] == chunks_of(data.skip(size as int), size)[i - 1]);
            }
        }
    }
}

/// Every chunk except the last has exactly the chunk size.
pub proof fn lemma_chunks_exact(data: Seq<u8>, size: nat)
    requires
        size > 0,
    ensures
        forall|i: int|
            0 <= i < chunks_of(data, size).len() - 1 ==> (#[trigger] chunks_of(data, size)[i]).len()
                == size,
    decreases data.len(),
{
    if data.len() > size {
        lemma_chunks_exact(data.skip(size as int), size);
        assert forall|i: int|
            0 <= i < chunks_of(data, size).len() - 1 implies (#[trigger] chunks_of(
            data,
            size,
        )[i]).len() == size by {
            if i > 0 {
                assert(chunks_of(data, size)[i] == chunks_of(data.skip(size as int), size)[i - 1]);
            }
        }
    }
}

/// The leaf node of one chunk.
pub open spec fn leaf_node(chunk: Seq<u8>) -> NodeV {
    NodeV { cid: cid_of(chunk), links: seq![], data: Some(chunk), is_dup: false }
}

/// The ordered leaf nodes of a byte buffer.
pub open spec fn leaves_of(data: Seq<u8>, size: nat) -> Seq<NodeV> {
    chunks_of(data, size).map_values(|c: Seq<u8>| leaf_node(c))
}

/// The padding clone of a node: the same content, marked as a duplicate.
pub open spec fn dup_of(n: NodeV) -> NodeV {
    NodeV { cid: n.cid, links: n.links, data: n.data, is_dup: true }
}

/// The parent of two sibling nodes: its identifier is the hash of the
/// children's identifiers concatenated, in order.
pub open spec fn parent_node(l: NodeV, r: NodeV) -> NodeV {
    NodeV { cid: cid_of(l.cid + r.cid), links: seq![l.cid, r.cid], data: None, is_dup: false }
}

/// A level padded to even length by a duplicate of its last node.
pub open spec fn pad_even(level: Seq<NodeV>) -> Seq<NodeV> {
    if level.len() % 2 == 1 {
        level.push(dup_of(level.last()))
    } else {
        level
    }
}

/// The parents of an even-length level, pairing left to right.
pub open spec fn reduce_level(level: Seq<NodeV>) -> Seq<NodeV> {
    Seq::new(level.len() / 2, |i: int| parent_node(level[2 * i], level[2 * i + 1]))
}

/// All nodes appended above a level during the bottom-up reduction: the
/// padding duplicate of this level if its length is odd, then this
/// level's parents, then everything above them.
pub open spec fn upper_nodes(level: Seq<NodeV>) -> Seq<NodeV>
    decreases level.len(),
{
    if level.len() <= 1 {
        seq![]
    } else {
        let dups: Seq<NodeV> = if level.len() % 2 == 1 {
            seq![dup_of(level.last())]
        } else {
            seq![]
        };
        let parents = reduce_level(pad_even(level));
        dups + parents + upper_nodes(parents)
    }
}

/// The full node set of the Merkle DAG over the given leaves, in creation
/// order: the leaves themselves, then every padding and parent node level
/// by level.  The last node is the root.
pub open spec fn build_tree(leaves: Seq<NodeV>) -> Seq<NodeV> {
    leaves + upper_nodes(leaves)
}

/// The tree with the encoded extension attached to the root (last) node,
/// overwriting whatever data it carried.
pub open spec fn attach_ext(tree: Seq<NodeV>, ext: Seq<char>) -> Seq<NodeV> {
    tree.update(
        tree.len() - 1,
        NodeV {
            cid: tree.last().cid,
            links: tree.last().links,
            data: Some(encode_utf8(ext)),
            is_dup: tree.last().is_dup,
        },
    )
}

/// The complete result of the Merkle DAG builder.
pub open spec fn merkle_tree_spec(leaves: Seq<NodeV>, ext: Seq<char>) -> Seq<NodeV> {
    attach_ext(build_tree(leaves), ext)
}

impl MerkleNode {
    /// A copy of this node with the same value.
    pub fn duplicate(&self) -> (r: MerkleNode)
        ensures
            r@ == self@,
    {
        let data: Option<Vec<u8>> = match &self.data {
            Some(d) => Some(copy_bytes(d)),
            None => None,
        };
        let mut links: Vec<ContentId> = Vec::new();
        let mut i: usize = 0;
        while i < self.links.len()
            invariant
                i <= self.links.len(),
                links@.len() == i,
                forall|j: int| 0 <= j < i ==> links@[j]@ == self.links@[j]@,
            decreases self.links.len() - i,
        {
            links.push(self.links[i].duplicate());
            i = i + 1;
        }
        assert(links@.map_values(|c: ContentId| c@) =~~= self.links@.map_values(
            |c: ContentId| c@,
        ));
        let r = MerkleNode { cid: self.cid.duplicate(), links, data, is_dup: self.is_dup };
        assert(r@ =~= self@);
        r
    }
}

/// Creates the leaf node of one chunk of file data.
pub fn create_leaf(data: &[u8]) -> (r: MerkleNode)
    ensures
        r@ == leaf_node(data@),
        node_wf(r@) <==> data@.len() <= 0xFFFF_0000,
{
    let r = MerkleNode {
        cid: generate_cid(data),
        links: Vec::new(),
        data: Some(slice_to_vec(data)),
        is_dup: false,
    };
    assert(r@ =~= leaf_node(data@));
    r
}

/// Splits file bytes into ordered chunks of at most `chunk_size` bytes;
/// only the last chunk may be shorter.  Order is preserved exactly.
pub fn chunk_bytes(data: &[u8], chunk_size: usize) -> (r: Vec<Vec<u8>>)
    requires
        chunk_size > 0,
    ensures
        r@.map_values(|v: Vec<u8>| v@) == chunks_of(data@, chunk_size as nat),
{
    let mut out: Vec<Vec<u8>> = Vec::new();
    let mut i: usize = 0;
    proof {
        assert(data@.skip(0) =~= data@);
        assert(out@.map_values(|v: Vec<u8>| v@) + chunks_of(data@, chunk_size as nat) =~~=
        chunks_of(data@, chunk_size as nat));
    }
    while i < data.len()
        invariant
            chunk_size > 0,
            i <= data.len(),
            chunks_of(data@, chunk_size as nat) =~~= out@.map_values(|v: Vec<u8>| v@)
                + chunks_of(data@.skip(i as int), chunk_size as nat),
        decreases data.len() - i,
    {
        let end = if data.len() - i > chunk_size {
            i + chunk_size
        } else {
            data.len()
        };
        let piece = slice_to_vec(slice_subrange(data, i, end));
        proof {
            let rest = data@.skip(i as int);
            if data@.len() - i > chunk_size {
                assert(rest.take(chunk_size as int) =~= data@.subrange(i as int, end as int));
                assert(rest.skip(chunk_size as int) =~= data@.skip(end as int));
                assert(chunks_of(rest, chunk_size as nat) =~~= seq![
                    data@.subrange(i as int, end as int),
                ] + chunks_of(data@.skip(end as int), chunk_size as nat));
            } else {
                assert(rest =~= data@.subrange(i as int, end as int));
                assert(data@.skip(end as int).len() == 0);
                assert(chunks_of(data@.skip(end as int), chunk_size as nat) =~~= Seq::<
                    Seq<u8>,
                >::empty());
                assert(chunks_of(rest, chunk_size as nat) =~~= seq![
                    data@.subrange(i as int, end as int),
                ] + chunks_of(data@.skip(end as int), chunk_size as nat));
            }
        }
        out.push(piece);
        proof {
            assert(chunks_of(data@, chunk_size as nat) =~~= out@.map_values(|v: Vec<u8>| v@)
                + chunks_of(data@.skip(end as int), chunk_size as nat));
        }
        i = end;
    }
    proof {
        assert(chunks_of(data@.skip(i as int), chunk_size as nat) =~~= Seq::<Seq<u8>>::empty());
        assert(out@.map_values(|v: Vec<u8>| v@) =~~= chunks_of(data@, chunk_size as nat));
    }
    out
}

/// Splits file bytes into chunks and creates one leaf node per chunk, in
/// order.  An empty buffer yields no leaves.
pub fn generate_leaves(data: &[u8], chunk_size: usize) -> (r: Vec<MerkleNode>)
    requires
        chunk_size > 0,
    ensures
        nodes_view(r@) == leaves_of(data@, chunk_size as nat),
{
    let chunks = chunk_bytes(data, chunk_size);
    let mut out: Vec<MerkleNode> = Vec::new();
    let mut i: usize = 0;
    while i < chunks.len()
        invariant
            i <= chunks.len(),
            chunks@.map_values(|v: Vec<u8>| v@) == chunks_of(data@, chunk_size as nat),
            out@.len() == i,
            forall|j: int| 0 <= j < i ==> (#[trigger] out@[j])@ == leaf_node(chunks@[j]@),
        decreases chunks.len() - i,
    {
        let leaf = create_leaf(chunks[i].as_slice());
        out.push(leaf);
        i = i + 1;
    }
    proof {
        assert forall|j: int| 0 <= j < out@.len() implies (#[trigger] out@[j])@ == leaves_of(
            data@,
            chunk_size as nat,
        )[j] by {
            assert(chunks@.map_values(|v: Vec<u8>| v@)[j] == chunks@[j]@);
        }
        assert(nodes_view(out@) =~~= leaves_of(data@, chunk_size as nat));
    }
    out
}

/// Builds the Merkle DAG over the given ordered leaves and attaches the
/// encoded file extension to the root.  Pairing is strictly left to
/// right, so the identical ordered leaf set and extension always yield
/// the identical node set (and so the identical root identifier).
pub fn generate_merkle_tree(leaves: Vec<MerkleNode>, file_extension: &str) -> (r: Result<
    Vec<MerkleNode>,
    DagErrors,
>)
    ensures
        r is Ok <==> leaves@.len() > 0 && file_extension@.len() > 0,
        r matches Ok(t) ==> nodes_view(t@) == merkle_tree_spec(
            nodes_view(leaves@),
            file_extension@,
        ),
        r matches Err(e) ==> (e == DagErrors::EmptyError <==> leaves@.len() == 0),
        r matches Err(e) ==> (e == DagErrors::InvalidFileExtensionError <==> leaves@.len() > 0
            && file_extension@.len() == 0),
{
    if leaves.len() == 0 {
        return Err(DagErrors::EmptyError);
    }
    if file_extension.is_empty() {
        return Err(DagErrors::InvalidFileExtensionError);
    }
    let ghost leaves0: Seq<NodeV> = nodes_view(leaves@);

    let mut tree: Vec<MerkleNode> = Vec::new();
    let mut i: usize = 0;
    while i < leaves.len()
        invariant
            i <= leaves.len(),
            tree@.len() == i,
            forall|j: int| 0 <= j < i ==> (#[trigger] tree@[j])@ == leaves@[j]@,
        decreases leaves.len() - i,
    {
        tree.push(leaves[i].duplicate());
        i = i + 1;
    }
    let current_init: Vec<MerkleNode> = leaves;
    let mut current: Vec<MerkleNode> = current_init;
    proof {
        assert(nodes_view(tree@) =~~= leaves0);
        assert(upper_nodes(nodes_view(current@)) =~~= upper_nodes(leaves0));
        assert(nodes_view(tree@) + upper_nodes(nodes_view(current@)) =~~= build_tree(leaves0));
    }
    while current.len() > 1
        invariant
            current@.len() >= 1,
            nodes_view(tree@) + upper_nodes(nodes_view(current@)) =~~= build_tree(leaves0),
        decreases current@.len(),
    {
        let ghost cur0: Seq<NodeV> = nodes_view(current@);
        let ghost tree_pre: Seq<NodeV> = nodes_view(tree@);
        let ghost dups: Seq<NodeV> = if cur0.len() % 2 == 1 {
            seq![dup_of(cur0.last())]
        } else {
            seq![]
        };
        if current.len() % 2 == 1 {
            let mut last = current[current.len() - 1].duplicate();
            last.is_dup = true;
            let last_for_tree = last.duplicate();
            proof {
                assert(last@ =~~= dup_of(cur0.last()));
            }
            current.push(last);
            tree.push(last_for_tree);
        }
        proof {
            assert(nodes_view(current@) =~~= pad_even(cur0));
            assert(nodes_view(tree@) =~~= tree_pre + dups);
        }
        let ghost padded: Seq<NodeV> = pad_even(cur0);
        let mut next: Vec<MerkleNode> = Vec::new();
        let mut j: usize = 0;
        while j < current.len()
            invariant
                nodes_view(current@) == padded,
                current@.len() % 2 == 0,
                j % 2 == 0,
                j <= current@.len(),
                next@.len() == j / 2,
                forall|k: int|
                    0 <= k < j / 2 ==> (#[trigger] next@[k])@ == parent_node(
                        padded[2 * k],
                        padded[2 * k + 1],
                    ),
            decreases current@.len() - j,
        {
            let mut combined = copy_bytes(&current[j].cid.bytes);
            let mut right_bytes = copy_bytes(&current[j + 1].cid.bytes);
            combined.append(&mut right_bytes);
            let parent_cid = generate_cid(combined.as_slice());
            let mut plinks: Vec<ContentId> = Vec::new();
            plinks.push(current[j].cid.duplicate());
            plinks.push(current[j + 1].cid.duplicate());
            let parent = MerkleNode { cid: parent_cid, links: plinks, data: None, is_dup: false };
            proof {
                assert(padded[j as int] == current@[j as int]@);
                assert(padded[j + 1] == current@[j + 1]@);
                assert(combined@ == padded[j as int].cid + padded[j + 1].cid);
                assert(parent@ =~~= parent_node(padded[j as int], padded[j + 1]));
            }
            next.push(parent);
            j = j + 2;
        }
        proof {
            assert(nodes_view(next@) =~~= reduce_level(padded));
        }
        let ghost tree_mid: Seq<NodeV> = nodes_view(tree@);
        let mut k: usize = 0;
        while k < next.len()
            invariant
                k <= next.len(),
                tree@.len() == tree_mid.len() + k,
                forall|m: int| 0 <= m < tree_mid.len() ==> (#[trigger] tree@[m])@ == tree_mid[m],
                forall|m: int|
                    tree_mid.len() <= m < tree@.len() ==> (#[trigger] tree@[m])@ == nodes_view(
                        next@,
                    )[m - tree_mid.len()],
            decreases next.len() - k,
        {
            tree.push(next[k].duplicate());
            k = k + 1;
        }
        proof {
            let parents = reduce_level(padded);
            assert(nodes_view(tree@) =~~= tree_mid + parents);
            assert(upper_nodes(cur0) =~~= dups + parents + upper_nodes(parents));
            assert(nodes_view(tree@) + upper_nodes(parents) =~~= tree_pre + upper_nodes(cur0));
            assert(tree_pre + upper_nodes(cur0) =~~= build_tree(leaves0));
        }
        current = next;
        proof {
            assert(nodes_view(current@) =~~= reduce_level(padded));
        }
    }
    proof {
        assert(upper_nodes(nodes_view(current@)) =~~= Seq::<NodeV>::empty());
        assert(nodes_view(tree@) =~~= build_tree(leaves0));
        assert(tree@.len() == build_tree(leaves0).len());
        assert(tree@.len() >= 1);
    }
    let ext_bytes = match convert_file_extension_to_raw(file_extension) {
        Some(b) => b,
        None => {
            return Err(DagErrors::InvalidFileExtensionError);
        },
    };
    let ghost tree_built: Seq<NodeV> = nodes_view(tree@);
    let mut root = match tree.pop() {
        Some(n) => n,
        None => {
            return Err(DagErrors::EmptyError);
        },
    };
    proof {
        assert(root@ == tree_built.last());
    }
    root.data = Some(ext_bytes);
    tree.push(root);
    proof {
        assert(nodes_view(tree@) =~~= attach_ext(tree_built, file_extension@));
        assert(nodes_view(tree@) =~~= merkle_tree_spec(leaves0, file_extension@));
    }
    Ok(tree)
}

/// Padding an odd level: the node set holds, directly after the level's
/// nodes, a clone of the level's last node marked as a duplicate.
pub proof fn lemma_odd_level_padding(leaves: Seq<NodeV>)
    requires
        leaves.len() > 1,
        leaves.len() % 2 == 1,
    ensures
        build_tree(leaves)[leaves.len() as int] == dup_of(leaves.last()),
        build_tree(leaves)[leaves.len() as int].is_dup,
        build_tree(leaves)[leaves.len() as int].cid == leaves.last().cid,
{
    assert(build_tree(leaves)[leaves.len() as int] == upper_nodes(leaves)[0]);
    assert(upper_nodes(leaves)[0] == dup_of(leaves.last()));
}

} // verus!
