use ipfs_rust::dag::chunk_bytes;
use ipfs_rust::dag::create_leaf;
use ipfs_rust::dag::generate_leaves;
use ipfs_rust::dag::generate_merkle_tree;
use ipfs_rust::dag::DagErrors;
use ipfs_rust::helpers::convert_raw_to_file_extension;
use ipfs_rust::node_codec::decode_node_bytes;
use ipfs_rust::node_codec::encode_node_bytes;

#[test]
fn test_generate_merkle_tree() {
    let leaves = vec![
        create_leaf(b"File Chunk 1"),
        create_leaf(b"File Chunk 2"),
        create_leaf(b"File Chunk 3"),
        create_leaf(b"File Chunk 4"),
    ];

    let tree = generate_merkle_tree(leaves.clone(), "png").unwrap();
    assert!(!tree.is_empty());
    assert_eq!(
        convert_raw_to_file_extension(tree.last().unwrap().data.as_ref().unwrap().clone())
            .unwrap(),
        "png".to_string()
    );
    assert_eq!(tree.last().unwrap().links.len(), 2); // Root should have 2 children
}

#[test]
fn test_tree_structure_four_leaves() {
    // 4 leaves -> 2 parents -> 1 root: three levels, 7 nodes in all.
    let leaves = vec![
        create_leaf(b"File Chunk 1"),
        create_leaf(b"File Chunk 2"),
        create_leaf(b"File Chunk 3"),
        create_leaf(b"File Chunk 4"),
    ];
    let tree = generate_merkle_tree(leaves, "png").unwrap();
    assert_eq!(tree.len(), 7);
    let root = tree.last().unwrap();
    assert_eq!(root.links[0].bytes, tree[4].cid.bytes);
    assert_eq!(root.links[1].bytes, tree[5].cid.bytes);
}

#[test]
fn test_odd_leaf_padding() {
    // 5 leaves: level 0 is padded with a duplicate-marked clone of leaf 5.
    let leaves = vec![
        create_leaf(b"chunk one"),
        create_leaf(b"chunk two"),
        create_leaf(b"chunk three"),
        create_leaf(b"chunk four"),
        create_leaf(b"chunk five"),
    ];
    let tree = generate_merkle_tree(leaves, "bin").unwrap();
    // 5 leaves, 1 padding clone, 3 parents, 1 padding clone, 2 parents, 1 root.
    assert_eq!(tree.len(), 13);
    assert!(tree[5].is_dup);
    assert_eq!(tree[5].cid.bytes, tree[4].cid.bytes);
    assert_eq!(tree[5].data, tree[4].data);
    assert!(tree[9].is_dup);
    assert_eq!(tree[9].cid.bytes, tree[8].cid.bytes);
}

#[test]
fn test_deterministic_tree() {
    let mk = || {
        vec![
            create_leaf(b"File Chunk 1"),
            create_leaf(b"File Chunk 2"),
            create_leaf(b"File Chunk 3"),
        ]
    };
    let t1 = generate_merkle_tree(mk(), "png").unwrap();
    let t2 = generate_merkle_tree(mk(), "png").unwrap();
    assert_eq!(
        t1.last().unwrap().cid.bytes,
        t2.last().unwrap().cid.bytes
    );
}

#[test]
fn test_empty_leaves_error() {
    let r = generate_merkle_tree(Vec::new(), "png");
    assert_eq!(r.unwrap_err(), DagErrors::EmptyError);
}

#[test]
fn test_empty_extension_error() {
    let r = generate_merkle_tree(vec![create_leaf(b"data")], "");
    assert_eq!(r.unwrap_err(), DagErrors::InvalidFileExtensionError);
}

#[test]
fn test_chunk_bytes() {
    let data: Vec<u8> = (0u8..=255).collect();
    let chunks = chunk_bytes(&data, 100);
    assert_eq!(chunks.len(), 3);
    assert_eq!(chunks[0].len(), 100);
    assert_eq!(chunks[1].len(), 100);
    assert_eq!(chunks[2].len(), 56);
    let rejoined: Vec<u8> = chunks.concat();
    assert_eq!(rejoined, data);
    assert!(chunk_bytes(&[], 100).is_empty());
}

#[test]
fn test_generate_leaves() {
    let data = b"abcdefghij";
    let leaves = generate_leaves(data, 4);
    assert_eq!(leaves.len(), 3);
    assert_eq!(leaves[0].data, Some(b"abcd".to_vec()));
    assert_eq!(leaves[2].data, Some(b"ij".to_vec()));
    for leaf in &leaves {
        assert!(leaf.links.is_empty());
        assert!(!leaf.is_dup);
    }
}

#[test]
fn test_node_codec_round_trip() {
    let leaves = vec![create_leaf(b"left"), create_leaf(b"right")];
    let tree = generate_merkle_tree(leaves, "txt").unwrap();
    for node in &tree {
        let bytes = encode_node_bytes(node);
        let back = decode_node_bytes(&bytes).unwrap();
        assert_eq!(&back, node);
    }
}

#[test]
fn test_node_codec_rejects_garbage() {
    assert!(decode_node_bytes(&vec![]).is_none());
    assert!(decode_node_bytes(&vec![7u8; 60]).is_none());
    let mut bytes = encode_node_bytes(&create_leaf(b"x"));
    bytes.push(0); // trailing byte
    assert!(decode_node_bytes(&bytes).is_none());
}
