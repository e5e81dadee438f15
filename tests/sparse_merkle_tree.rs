use merkle_structures::{leaf_hash, pair_hash, SparseMerkleTree};

fn setup_tree() -> SparseMerkleTree {
    let mut tree = SparseMerkleTree::new();

    let key1 = [0u8; 16];
    let value1 = b"value1";
    tree.insert(&key1, value1);

    let key2 = [1u8; 16];
    let value2 = b"value2";
    tree.insert(&key2, value2);

    let key3 = [2u8; 16];
    let value3 = b"value3";
    tree.insert(&key3, value3);

    tree
}

fn empty_subtree_digests() -> Vec<Vec<u8>> {
    let mut nodes = vec![leaf_hash(&[0u8; 32]); 129];
    for i in (0..128).rev() {
        nodes[i] = pair_hash(&nodes[i + 1], &nodes[i + 1]);
    }
    nodes
}

#[test]
fn test_smt_insertion() {
    let tree = setup_tree();
    assert_ne!(tree.root(), SparseMerkleTree::new().root());
}

#[test]
fn test_inclusion_proof() {
    let tree = setup_tree();
    let key1 = [2u8; 16];
    let value1 = b"value3";

    let proof1 = tree.generate_proof(&key1);
    assert!(tree.verify_proof(&key1, Some(value1), &proof1));
}

#[test]
fn test_non_inclusion_proof() {
    let tree = setup_tree();
    let non_existent_key = [2u8; 16];

    let proof_non_existent = tree.generate_proof(&non_existent_key);
    assert!(!tree.verify_proof(&non_existent_key, None, &proof_non_existent));
}

#[test]
fn test_proof_fails_for_wrong_key() {
    let tree = setup_tree();
    let key1 = [0u8; 16];
    let key2 = [1u8; 16];
    let value1 = b"value1";

    let proof1 = tree.generate_proof(&key1);
    assert!(!tree.verify_proof(&key2, Some(value1), &proof1));
}

#[test]
fn test_proof_fails_for_wrong_value() {
    let tree = setup_tree();
    let key1 = [0u8; 16];
    let wrong_value = b"wrong_value";

    let proof1 = tree.generate_proof(&key1);
    assert!(!tree.verify_proof(&key1, Some(wrong_value), &proof1));
}

#[test]
fn empty_leaf_is_the_digest_of_zero_bytes() {
    let tree = SparseMerkleTree::new();
    let key = [0u8; 16];
    let proof = tree.generate_proof(&key);
    assert_eq!(proof[0], leaf_hash(&[0u8; 32]));
    assert_ne!(proof[0], vec![0u8; 32]);
    assert!(tree.verify_proof(&key, None, &proof));
    assert!(tree.verify_proof(&key, Some(&[0u8; 32]), &proof));
}

#[test]
fn fresh_root_is_the_empty_tree_digest() {
    let defaults = empty_subtree_digests();
    assert_eq!(SparseMerkleTree::new().root(), &defaults[0]);
}

#[test]
fn proof_is_the_empty_subtree_digests_for_every_key() {
    let defaults = empty_subtree_digests();
    let tree = setup_tree();
    let proof = tree.generate_proof(&[7u8; 16]);
    assert_eq!(proof.len(), 128);
    for k in 0..128 {
        assert_eq!(proof[k], defaults[128 - k]);
    }
    assert_eq!(proof, tree.generate_proof(&[0u8; 16]));
}

#[test]
fn insert_root_follows_the_key_bits() {
    let defaults = empty_subtree_digests();
    let mut key = [0u8; 16];
    key[0] = 0b0000_0101;
    key[15] = 0b1000_0000;
    let mut tree = SparseMerkleTree::new();
    tree.insert(&key, b"v");
    let mut current = leaf_hash(b"v");
    for i in (0..128usize).rev() {
        let right = (key[i / 8] >> (i % 8)) & 1 == 1;
        current = if right {
            pair_hash(&defaults[i + 1], &current)
        } else {
            pair_hash(&current, &defaults[i + 1])
        };
    }
    assert_eq!(tree.root(), &current);
}

#[test]
fn only_the_latest_insert_verifies() {
    let tree = setup_tree();
    let proof = tree.generate_proof(&[0u8; 16]);
    assert!(!tree.verify_proof(&[0u8; 16], Some(b"value1"), &proof));
    assert!(tree.verify_proof(&[2u8; 16], Some(b"value3"), &proof));
}

#[test]
fn altering_one_key_bit_breaks_the_proof() {
    let mut tree = SparseMerkleTree::new();
    let key = [0x5au8; 16];
    tree.insert(&key, b"payload");
    let proof = tree.generate_proof(&key);
    assert!(tree.verify_proof(&key, Some(b"payload"), &proof));
    for byte in 0..16 {
        for bit in 0..8 {
            let mut other = key;
            other[byte] ^= 1 << bit;
            assert!(!tree.verify_proof(&other, Some(b"payload"), &proof));
        }
    }
}

#[test]
fn empty_tree_proves_absence_of_any_key() {
    let tree = SparseMerkleTree::new();
    let key = [9u8; 16];
    let proof = tree.generate_proof(&key);
    assert!(tree.verify_proof(&key, None, &proof));
    assert!(!tree.verify_proof(&key, Some(b"x"), &proof));
}

#[test]
fn short_proof_is_rejected() {
    let mut tree = SparseMerkleTree::new();
    let key = [3u8; 16];
    tree.insert(&key, b"v");
    let mut proof = tree.generate_proof(&key);
    proof.pop();
    assert!(!tree.verify_proof(&key, Some(b"v"), &proof));
}
