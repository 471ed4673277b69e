//! Merkle trees over the leaves of a piece.

use p2p_distribute::merkle::{MerkleTree, LEAF_SIZE};
use sha2::{Digest, Sha256};

/// The SHA-256 hash of some bytes.
fn hash_sha256(data: &[u8]) -> [u8; 32] {
    Sha256::digest(data).into()
}

/// The hash of a pair of nodes.
fn combine_hashes(left: &[u8; 32], right: &[u8; 32]) -> [u8; 32] {
    let mut both = left.to_vec();
    both.extend_from_slice(right);
    hash_sha256(&both)
}

/// Empty data produces a tree with zero leaves.
#[test]
fn empty_data_tree() {
    let tree = MerkleTree::build(&[]);
    assert_eq!(tree.leaf_count(), 0);
    assert_eq!(*tree.root_hash(), hash_sha256(&[]));
}

/// Single leaf tree: root hash equals the leaf hash.
#[test]
fn single_leaf_root_equals_leaf() {
    let data = vec![0xAAu8; LEAF_SIZE];
    let tree = MerkleTree::build(&data);
    assert_eq!(tree.leaf_count(), 1);
    assert_eq!(tree.depth(), 1);
    assert_eq!(*tree.root_hash(), hash_sha256(&data));
}

/// Two-leaf tree has correct structure.
#[test]
fn two_leaf_tree_structure() {
    let data = vec![0xBBu8; LEAF_SIZE * 2];
    let tree = MerkleTree::build(&data);
    assert_eq!(tree.leaf_count(), 2);
    assert_eq!(tree.depth(), 2);

    let leaf0 = hash_sha256(&data[..LEAF_SIZE]);
    let leaf1 = hash_sha256(&data[LEAF_SIZE..]);
    let expected_root = combine_hashes(&leaf0, &leaf1);
    assert_eq!(*tree.root_hash(), expected_root);
}

/// Three-leaf tree: odd count promotes the last leaf unpaired.
#[test]
fn three_leaf_odd_promotion() {
    let data = vec![0xCCu8; LEAF_SIZE * 3];
    let tree = MerkleTree::build(&data);
    assert_eq!(tree.leaf_count(), 3);
    assert!(tree.depth() >= 2);
}

/// Partial last leaf (data not a multiple of LEAF_SIZE).
#[test]
fn partial_last_leaf() {
    let data = vec![0xDDu8; LEAF_SIZE + 100];
    let tree = MerkleTree::build(&data);
    assert_eq!(tree.leaf_count(), 2);

    // Verify the partial leaf.
    assert!(tree.verify_leaf(1, &data[LEAF_SIZE..]));
}

/// Intact leaf passes verification.
#[test]
fn verify_intact_leaf() {
    let data = vec![0xEEu8; LEAF_SIZE * 2];
    let tree = MerkleTree::build(&data);
    assert!(tree.verify_leaf(0, &data[..LEAF_SIZE]));
    assert!(tree.verify_leaf(1, &data[LEAF_SIZE..]));
}

/// Corrupted leaf fails verification.
#[test]
fn verify_corrupt_leaf_fails() {
    let data = vec![0xFFu8; LEAF_SIZE * 2];
    let tree = MerkleTree::build(&data);

    let mut corrupted = data[..LEAF_SIZE].to_vec();
    corrupted[0] = 0x00;
    assert!(!tree.verify_leaf(0, &corrupted));
}

/// Out-of-bounds leaf index returns false.
#[test]
fn verify_out_of_bounds_leaf() {
    let data = vec![0x11u8; LEAF_SIZE];
    let tree = MerkleTree::build(&data);
    assert!(!tree.verify_leaf(99, &[0x11u8; LEAF_SIZE]));
}

/// find_corrupt_leaves identifies the corrupted leaf.
#[test]
fn find_corrupt_leaves_identifies_bad_leaf() {
    let mut data = vec![0xAAu8; LEAF_SIZE * 3];
    let tree = MerkleTree::build(&data);

    // Corrupt the second leaf.
    data[LEAF_SIZE] = 0x00;

    let corrupt = tree.find_corrupt_leaves(&data);
    assert_eq!(corrupt, vec![1]);
}

/// All intact data returns no corrupt leaves.
#[test]
fn find_corrupt_leaves_all_intact() {
    let data = vec![0xBBu8; LEAF_SIZE * 2];
    let tree = MerkleTree::build(&data);
    let corrupt = tree.find_corrupt_leaves(&data);
    assert!(corrupt.is_empty());
}

/// Valid proof verifies against the root.
#[test]
fn valid_proof_verifies() {
    let data = vec![0xCCu8; LEAF_SIZE * 4];
    let tree = MerkleTree::build(&data);

    for i in 0..4 {
        let start = i * LEAF_SIZE;
        let end = start + LEAF_SIZE;
        let leaf_data = &data[start..end];
        let proof = tree.inclusion_proof(i).expect("valid index");
        assert!(
            tree.verify_proof(leaf_data, &proof),
            "proof for leaf {i} should verify"
        );
    }
}

/// Proof for corrupted data fails verification.
#[test]
fn corrupt_data_fails_proof() {
    let data = vec![0xDDu8; LEAF_SIZE * 2];
    let tree = MerkleTree::build(&data);

    let proof = tree.inclusion_proof(0).expect("valid index");
    let mut bad_data = data[..LEAF_SIZE].to_vec();
    bad_data[0] = 0xFF;
    assert!(!tree.verify_proof(&bad_data, &proof));
}

/// Proof for out-of-bounds index returns None.
#[test]
fn proof_out_of_bounds_returns_none() {
    let data = vec![0xEEu8; LEAF_SIZE];
    let tree = MerkleTree::build(&data);
    assert!(tree.inclusion_proof(5).is_none());
}

/// Building the same data twice produces identical trees.
#[test]
fn tree_build_deterministic() {
    let data = vec![0x42u8; LEAF_SIZE * 3];
    let tree1 = MerkleTree::build(&data);
    let tree2 = MerkleTree::build(&data);
    assert_eq!(tree1.root_hash(), tree2.root_hash());
    assert_eq!(tree1.leaf_count(), tree2.leaf_count());
}

/// The root of three leaves pairs the odd leaf with the first two.
#[test]
fn three_leaf_root() {
    let mut data = vec![1u8; LEAF_SIZE * 2];
    data.extend_from_slice(&[2u8; 10]);
    let tree = MerkleTree::build(&data);
    let a = hash_sha256(&data[..LEAF_SIZE]);
    let c = hash_sha256(&data[LEAF_SIZE * 2..]);
    let expected = combine_hashes(&combine_hashes(&a, &a), &c);
    assert_eq!(*tree.root_hash(), expected);
    assert_eq!(tree.depth(), 3);
    assert_eq!(tree.leaf_hash(2), Some(&c));
    assert_eq!(tree.leaf_hash(3), None);
}

/// The odd leaf has one sibling only, on the left.
#[test]
fn odd_leaf_proof() {
    let mut data = vec![1u8; LEAF_SIZE * 2];
    data.extend_from_slice(&[2u8; 10]);
    let tree = MerkleTree::build(&data);
    let nodes = tree.inclusion_proof(2).unwrap();
    assert_eq!(nodes.len(), 1);
    assert!(nodes[0].is_left);
    assert!(tree.verify_proof(&[2u8; 10], &nodes));
}

/// Data of another length has leaves that differ where it ends.
#[test]
fn shorter_data_differs_in_its_last_leaf() {
    let data = vec![5u8; LEAF_SIZE * 2];
    let tree = MerkleTree::build(&data);
    assert_eq!(tree.find_corrupt_leaves(&data[..LEAF_SIZE + 1]), vec![1]);
    assert!(tree.find_corrupt_leaves(&[]).is_empty());
}
