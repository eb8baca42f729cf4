use ipfs_rust::dag::create_leaf;
use ipfs_rust::dag::generate_leaves;
use ipfs_rust::dag::generate_merkle_tree;
use ipfs_rust::hashing::generate_cid;
use ipfs_rust::reassemble::detect_file_type;
use ipfs_rust::reassemble::get_leaves_from_root_node_cid;
use ipfs_rust::reassemble::reassemble;
use ipfs_rust::reassemble::return_node_from_db;
use ipfs_rust::reassemble::ReassembleErrors;
use ipfs_rust::store::init_db;
use ipfs_rust::store::store_file;

fn open_temp_store() -> (tempfile::TempDir, ipfs_rust::store::NodeStore) {
    let dir = tempfile::tempdir().expect("temp dir");
    let store = init_db(dir.path().to_str().unwrap()).expect("open store");
    (dir, store)
}

#[test]
fn test_detect_file_type() {
    let data: Vec<u8> = vec![0x89, 0x50, 0x4E, 0x47, 0x0D, 0x0A, 0x1A, 0x0A];
    let kind = detect_file_type(&data).unwrap();
    assert_eq!(kind, "image/png");
}

#[test]
fn test_detect_file_type_unknown() {
    assert_eq!(detect_file_type(b"plain text, no magic"), None);
}

#[test]
fn test_insertion_and_retrieval() {
    let (_dir, mut store) = open_temp_store();
    let leaves = vec![
        create_leaf(b"File Chunk 1"),
        create_leaf(b"File Chunk 2"),
        create_leaf(b"File Chunk 3"),
        create_leaf(b"File Chunk 4"),
        create_leaf(b"File Chunk 2"),
    ];

    let tree = generate_merkle_tree(leaves.clone(), "png").unwrap();
    let root_node = tree.last().unwrap().cid.to_string_form();
    let res = store_file(&mut store, &tree);
    // check if the file is stored correctly
    assert_eq!(res.is_ok(), true);
    let retrieved = return_node_from_db(&store, root_node.clone())
        .unwrap()
        .cid
        .to_string_form();
    assert_eq!(root_node, retrieved);
}

#[test]
fn test_get_leaves_from_root_node_cid() {
    let (_dir, mut store) = open_temp_store();
    let leaves = vec![
        create_leaf(b"File Chunk 12"),
        create_leaf(b"File Chunk 22"),
        create_leaf(b"File Chunk 32"),
        create_leaf(b"File Chunk 42"),
        create_leaf(b"File Chunk 42"),
    ];
    let tree = generate_merkle_tree(leaves.clone(), "png").unwrap();
    let root_node = tree.last().unwrap().cid.to_string_form();
    let res = store_file(&mut store, &tree);
    assert_eq!(res.is_ok(), true);
    let retrieved_leaves = get_leaves_from_root_node_cid(&store, root_node).unwrap();
    // Repeated content is collected exactly once, in first-occurrence order.
    let datas: Vec<Vec<u8>> = retrieved_leaves
        .iter()
        .map(|n| n.data.clone().unwrap())
        .collect();
    assert_eq!(
        datas,
        vec![
            b"File Chunk 12".to_vec(),
            b"File Chunk 22".to_vec(),
            b"File Chunk 32".to_vec(),
            b"File Chunk 42".to_vec(),
        ]
    );
}

#[test]
fn test_round_trip_four_chunks() {
    // Four equal-length chunks, extension "png": the tree has three
    // levels and a two-link root, and reassembly returns the chunks
    // concatenated in original order together with the extension.
    let (_dir, mut store) = open_temp_store();
    let original: Vec<u8> = b"File Chunk 1File Chunk 2File Chunk 3File Chunk 4".to_vec();
    let leaves = generate_leaves(&original, 12);
    assert_eq!(leaves.len(), 4);
    let tree = generate_merkle_tree(leaves, "png").unwrap();
    assert_eq!(tree.len(), 7);
    let root = tree.last().unwrap();
    assert_eq!(root.links.len(), 2);
    store_file(&mut store, &tree).unwrap();
    let (bytes, ext) = reassemble(&store, root.cid.to_string_form()).unwrap();
    assert_eq!(bytes, original);
    assert_eq!(ext, "png");
}

#[test]
fn test_round_trip_odd_chunks() {
    // Five distinct chunks: the padding clone is persisted but its data
    // is never double-counted during reconstruction.
    let (_dir, mut store) = open_temp_store();
    let original: Vec<u8> = (0u8..=250).collect();
    let leaves = generate_leaves(&original, 51);
    assert_eq!(leaves.len(), 5);
    let tree = generate_merkle_tree(leaves, "bin").unwrap();
    store_file(&mut store, &tree).unwrap();
    let root = tree.last().unwrap();
    let (bytes, ext) = reassemble(&store, root.cid.to_string_form()).unwrap();
    assert_eq!(bytes, original);
    assert_eq!(ext, "bin");
}

#[test]
fn test_reassemble_unknown_root() {
    let (_dir, store) = open_temp_store();
    let missing = generate_cid(b"never stored").to_string_form();
    let err = reassemble(&store, missing.clone()).unwrap_err();
    assert_eq!(err, ReassembleErrors::RootNodeNotFoundError);
    let err2 = get_leaves_from_root_node_cid(&store, missing).unwrap_err();
    assert_eq!(err2, ReassembleErrors::RootNodeNotFoundError);
}

#[test]
fn test_missing_descendant_aborts() {
    // A tree stored without one of its leaves must not reassemble into a
    // truncated payload: the traversal aborts with a not-found error.
    let (_dir, mut store) = open_temp_store();
    let leaves = vec![
        create_leaf(b"File Chunk 1"),
        create_leaf(b"File Chunk 2"),
        create_leaf(b"File Chunk 3"),
        create_leaf(b"File Chunk 4"),
    ];
    let tree = generate_merkle_tree(leaves, "png").unwrap();
    let partial: Vec<_> = tree
        .iter()
        .filter(|n| n.data != Some(b"File Chunk 3".to_vec()))
        .cloned()
        .collect();
    store_file(&mut store, &partial).unwrap();
    let root = tree.last().unwrap();
    let err = reassemble(&store, root.cid.to_string_form()).unwrap_err();
    assert_eq!(err, ReassembleErrors::NotFoundError);
}
