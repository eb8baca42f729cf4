use ipfs_rust::constants::default_merkle_node;
use ipfs_rust::dag::create_leaf;
use ipfs_rust::dag::generate_merkle_tree;
use ipfs_rust::reassemble::return_node_from_db;
use ipfs_rust::store::init_db;
use ipfs_rust::store::put_node;
use ipfs_rust::store::store_file;
use ipfs_rust::store::stored_node_count;

fn temp_store() -> (tempfile::TempDir, ipfs_rust::store::NodeStore) {
    let dir = tempfile::tempdir().expect("temp dir");
    let store = init_db(dir.path().to_str().unwrap()).expect("open store");
    (dir, store)
}

#[test]
fn test_insert() {
    let (_dir, mut store) = temp_store();
    let node = default_merkle_node();
    put_node(&mut store, &node).unwrap();
    assert_eq!(stored_node_count(&store).unwrap(), 1);
    let got = return_node_from_db(&store, node.cid.to_string_form()).unwrap();
    assert_eq!(got, node);
}

#[test]
fn test_put_idempotent() {
    // Persisting the same node twice leaves the store as one persistence does.
    let (_dir, mut store) = temp_store();
    let node = create_leaf(b"idempotent chunk");
    put_node(&mut store, &node).unwrap();
    put_node(&mut store, &node).unwrap();
    assert_eq!(stored_node_count(&store).unwrap(), 1);
    let got = return_node_from_db(&store, node.cid.to_string_form()).unwrap();
    assert_eq!(got, node);
}

#[test]
fn test_file_insert() {
    let (_dir, mut store) = temp_store();
    let leaves = vec![create_leaf(b"File Chunk 1"), create_leaf(b"File Chunk 2")];
    let tree = generate_merkle_tree(leaves, "png").unwrap();
    store_file(&mut store, &tree).unwrap();
    assert_eq!(stored_node_count(&store).unwrap(), 3);
    for node in &tree {
        let got = return_node_from_db(&store, node.cid.to_string_form()).unwrap();
        assert_eq!(&got, node);
    }
}

#[test]
fn test_dedup_shared_subtree() {
    // Two files sharing an identical chunk persist that chunk's node once:
    // the store holds the number of unique nodes, not the sum of all nodes.
    let (_dir, mut store) = temp_store();
    let tree1 = generate_merkle_tree(
        vec![create_leaf(b"shared chunk"), create_leaf(b"first only")],
        "png",
    )
    .unwrap();
    let tree2 = generate_merkle_tree(
        vec![create_leaf(b"shared chunk"), create_leaf(b"second only")],
        "png",
    )
    .unwrap();
    assert_eq!(tree1.len(), 3);
    assert_eq!(tree2.len(), 3);
    store_file(&mut store, &tree1).unwrap();
    assert_eq!(stored_node_count(&store).unwrap(), 3);
    store_file(&mut store, &tree2).unwrap();
    // 6 nodes stored in all, but the shared leaf is stored exactly once.
    assert_eq!(stored_node_count(&store).unwrap(), 5);
}

#[test]
fn test_store_whole_file_twice() {
    // Re-inserting a whole identical file changes nothing.
    let (_dir, mut store) = temp_store();
    let mk = || {
        generate_merkle_tree(
            vec![create_leaf(b"File Chunk 1"), create_leaf(b"File Chunk 2")],
            "png",
        )
        .unwrap()
    };
    store_file(&mut store, &mk()).unwrap();
    let count1 = stored_node_count(&store).unwrap();
    store_file(&mut store, &mk()).unwrap();
    assert_eq!(stored_node_count(&store).unwrap(), count1);
}
