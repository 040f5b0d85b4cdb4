use sha2::{Digest, Sha256};
use zkp_learn::merkle::{hash_internal, hash_leaf, verify, MerkleTree};

fn sha256(data: &[u8]) -> [u8; 32] {
    let mut h = Sha256::new();
    h.update(data);
    let out = h.finalize();
    let mut r = [0u8; 32];
    r.copy_from_slice(&out);
    r
}

#[test]
fn test_deterministic_root() {
    let leaves = vec![
        b"leaf1".to_vec(),
        b"leaf2".to_vec(),
        b"leaf3".to_vec(),
        b"leaf4".to_vec(),
    ];

    let tree1 = MerkleTree::from_leaves(leaves.clone());
    let tree2 = MerkleTree::from_leaves(leaves);

    assert_eq!(tree1.root(), tree2.root());
}

#[test]
fn test_valid_proof_verifies() {
    let leaves = vec![
        b"apple".to_vec(),
        b"banana".to_vec(),
        b"cherry".to_vec(),
        b"date".to_vec(),
    ];

    let tree = MerkleTree::from_leaves(leaves.clone());
    let root = tree.root();

    for (i, leaf) in leaves.iter().enumerate() {
        let proof = tree.prove(i);
        assert!(verify(root, leaf, proof));
    }
}

#[test]
fn test_tampered_leaf_fails() {
    let leaves = vec![b"original".to_vec(), b"data".to_vec()];

    let tree = MerkleTree::from_leaves(leaves.clone());
    let root = tree.root();
    let proof = tree.prove(0);

    let tampered_leaf = b"tampered";
    assert!(!verify(root, tampered_leaf, proof));
}

#[test]
fn test_tampered_proof_fails() {
    let leaves = vec![b"test".to_vec(), b"data".to_vec()];

    let tree = MerkleTree::from_leaves(leaves.clone());
    let root = tree.root();
    let mut proof = tree.prove(0);

    proof.siblings[0] = [0u8; 32];

    assert!(!verify(root, &leaves[0], proof));
}

#[test]
fn test_tampered_root_fails() {
    let leaves = vec![b"verify".to_vec(), b"test".to_vec()];

    let tree = MerkleTree::from_leaves(leaves.clone());
    let proof = tree.prove(0);
    let fake_root = [0u8; 32];

    assert!(!verify(fake_root, &leaves[0], proof));
}

#[test]
fn test_odd_number_of_leaves() {
    let leaves = vec![b"one".to_vec(), b"two".to_vec(), b"three".to_vec()];

    let tree = MerkleTree::from_leaves(leaves.clone());
    let root = tree.root();

    for (i, leaf) in leaves.iter().enumerate() {
        let proof = tree.prove(i);
        assert!(verify(root, leaf, proof));
    }
}

#[test]
fn test_single_leaf() {
    let leaves = vec![b"single".to_vec()];

    let tree = MerkleTree::from_leaves(leaves.clone());
    let root = tree.root();
    let proof = tree.prove(0);

    assert!(verify(root, &leaves[0], proof.clone()));
    assert_eq!(proof.siblings.len(), 0);
    assert_eq!(proof.path_bits.len(), 0);
}

#[test]
fn test_large_tree() {
    let leaves: Vec<Vec<u8>> = (0..1000).map(|i| format!("leaf_{}", i).into_bytes()).collect();

    let tree = MerkleTree::from_leaves(leaves.clone());
    let root = tree.root();

    for i in [0, 123, 456, 999] {
        let proof = tree.prove(i);
        assert!(verify(root, &leaves[i], proof));
    }
}

#[test]
fn leaf_hash_is_sha256_of_tagged_data() {
    let mut tagged = vec![0u8];
    tagged.extend_from_slice(b"abc");
    assert_eq!(hash_leaf(b"abc"), sha256(&tagged));
    assert_eq!(MerkleTree::hash_leaf(b"abc"), sha256(&tagged));
}

#[test]
fn node_hash_is_sha256_of_tagged_children() {
    let l = hash_leaf(b"l");
    let r = hash_leaf(b"r");
    let mut tagged = vec![1u8];
    tagged.extend_from_slice(&l);
    tagged.extend_from_slice(&r);
    assert_eq!(hash_internal(&l, &r), sha256(&tagged));
    assert_ne!(hash_internal(&l, &r), hash_internal(&r, &l));
}

#[test]
fn root_of_two_leaves_is_node_of_leaf_hashes() {
    let tree = MerkleTree::from_leaves(vec![b"a".to_vec(), b"b".to_vec()]);
    assert_eq!(tree.root(), hash_internal(&hash_leaf(b"a"), &hash_leaf(b"b")));
    assert_eq!(tree.leaves(), vec![hash_leaf(b"a"), hash_leaf(b"b")]);
}

#[test]
fn odd_level_duplicates_last_node() {
    let tree = MerkleTree::from_leaves(vec![b"a".to_vec(), b"b".to_vec(), b"c".to_vec()]);
    let ab = hash_internal(&hash_leaf(b"a"), &hash_leaf(b"b"));
    let cc = hash_internal(&hash_leaf(b"c"), &hash_leaf(b"c"));
    assert_eq!(tree.root(), hash_internal(&ab, &cc));
}

#[test]
fn single_leaf_root_is_leaf_hash() {
    let tree = MerkleTree::from_leaves(vec![b"only".to_vec()]);
    assert_eq!(tree.root(), hash_leaf(b"only"));
}

#[test]
fn proof_path_bits_follow_index() {
    let leaves: Vec<Vec<u8>> = (0..4u8).map(|i| vec![i]).collect();
    let tree = MerkleTree::from_leaves(leaves);
    let proof = tree.prove(2);
    assert_eq!(proof.path_bits, vec![false, true]);
    assert_eq!(proof.siblings[0], hash_leaf(&[3u8]));
    let p1 = tree.prove(1);
    assert_eq!(p1.path_bits, vec![true, false]);
    assert_eq!(p1.siblings[0], hash_leaf(&[0u8]));
}

#[test]
fn proof_for_other_leaf_does_not_verify() {
    let leaves = vec![b"x".to_vec(), b"y".to_vec(), b"z".to_vec(), b"w".to_vec()];
    let tree = MerkleTree::from_leaves(leaves.clone());
    let proof = tree.prove(0);
    assert!(!verify(tree.root(), &leaves[1], proof));
}

#[test]
fn flipped_path_bit_fails() {
    let leaves = vec![b"p".to_vec(), b"q".to_vec()];
    let tree = MerkleTree::from_leaves(leaves.clone());
    let mut proof = tree.prove(0);
    proof.path_bits[0] = !proof.path_bits[0];
    assert!(!verify(tree.root(), &leaves[0], proof));
}
