use ipfs_rust::constants::default_cid;
use ipfs_rust::constants::default_merkle_node;
use ipfs_rust::hashing::generate_cid;
use ipfs_rust::helpers::convert_file_extension_to_raw;
use ipfs_rust::helpers::convert_raw_to_file_extension;
use sha2::Digest;

#[test]
fn test_generate_cid() {
    const SHA2_256: u64 = 0x12;
    let data: [u8; 8] = [0x89, 0x50, 0x4E, 0x47, 0x0D, 0x0A, 0x1A, 0x0A];
    let digest = sha2::Sha256::digest(&data);
    let hash: multihash::Multihash<64> =
        multihash::Multihash::<64>::wrap(SHA2_256, &digest).expect("Could not hash slice");
    let cid = cid::Cid::new_v1(0x55, hash);
    assert_eq!(generate_cid(&data).bytes, cid.to_bytes());
}

#[test]
fn test_generate_cid_deterministic() {
    let a = generate_cid(b"same content");
    let b = generate_cid(b"same content");
    assert_eq!(a.bytes, b.bytes);
    assert_eq!(a.to_string_form(), b.to_string_form());
    let c = generate_cid(b"other content");
    assert_ne!(a.bytes, c.bytes);
}

#[test]
fn test_cid_string_form() {
    let a = generate_cid(b"some bytes");
    let s = a.to_string_form();
    assert_eq!(s.len(), 59);
    assert!(s.starts_with('b'));
}

#[test]
fn test_extension_round_trip() {
    let raw = convert_file_extension_to_raw("png").unwrap();
    assert_eq!(raw, b"png".to_vec());
    let back = convert_raw_to_file_extension(raw).unwrap();
    assert_eq!(back, "png".to_string());
}

#[test]
fn test_extension_invalid_utf8() {
    assert_eq!(convert_raw_to_file_extension(vec![0xFF, 0xFE]), None);
}

#[test]
fn test_default_merkle_node() {
    let n = default_merkle_node();
    assert_eq!(n.cid.bytes, default_cid().bytes);
    assert_eq!(n.data, Some(vec![1, 2, 3, 4, 5]));
    assert!(n.links.is_empty());
    assert!(!n.is_dup);
}
