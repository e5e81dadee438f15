use merkle_structures::{leaf_hash, pair_hash, MerkleError, MerkleTree};

fn hex_bytes(s: &str) -> Vec<u8> {
    (0..s.len() / 2)
        .map(|i| u8::from_str_radix(&s[2 * i..2 * i + 2], 16).unwrap())
        .collect()
}

#[test]
fn test_merkle_tree() {
    let data = &["a", "b", "c", "d"];
    let tree = MerkleTree::new(data).unwrap();
    println!("Root: {:?}", tree.root());
    let leaf_a = MerkleTree::hash_leaf("a");
    let leaf_b = MerkleTree::hash_leaf("b");
    let leaf_c = MerkleTree::hash_leaf("c");
    let leaf_d = MerkleTree::hash_leaf("d");

    let hash_ab = MerkleTree::hash_pair(&leaf_a, &leaf_b);
    let hash_cd = MerkleTree::hash_pair(&leaf_c, &leaf_d);

    let expected_root = MerkleTree::hash_pair(&hash_ab, &hash_cd);
    println!("Expected Root: {:?}", tree.root());

    assert_eq!(tree.root(), &expected_root);
}

#[test]
fn test_merkle_proof() {
    let data = &["a", "b", "c", "d"];
    let tree = MerkleTree::new(data).unwrap();

    // Generate and verify proof for leaf "b" (index 1)
    let leaf_b = MerkleTree::hash_leaf("b");
    let proof = tree.generate_proof(1).unwrap();
    assert!(MerkleTree::verify_proof(tree.root(), &leaf_b, &proof) == true);

    // Verify that the proof fails for a different leaf
    let leaf_c = MerkleTree::hash_leaf("c");
    assert!(MerkleTree::verify_proof(tree.root(), &leaf_c, &proof) == false);

    // Tamper with the proof and verify it fails
    let mut tampered_proof = proof.clone();
    tampered_proof[0].0[0] ^= 1; // Flip a bit in the first hash
    assert!(MerkleTree::verify_proof(tree.root(), &leaf_b, &tampered_proof) == false);
}

#[test]
fn leaf_hash_is_sha256_of_the_bytes() {
    let expected = hex_bytes("ba7816bf8f01cfea414140de5dae2223b00361a396177a9cb410ff61f20015ad");
    assert_eq!(leaf_hash(b"abc"), expected);
    assert_eq!(MerkleTree::hash_leaf("abc"), expected);
    let empty = hex_bytes("e3b0c44298fc1c149afbf4c8996fb92427ae41e4649b934ca495991b7852b855");
    assert_eq!(leaf_hash(b""), empty);
}

#[test]
fn pair_hash_hashes_the_concatenation() {
    let left = leaf_hash(b"left");
    let right = leaf_hash(b"right");
    let mut joined = left.clone();
    joined.extend_from_slice(&right);
    assert_eq!(pair_hash(&left, &right), leaf_hash(&joined));
    assert_eq!(pair_hash(&left, &right).len(), 32);
    assert_ne!(pair_hash(&left, &right), pair_hash(&right, &left));
    assert_eq!(pair_hash(b"ab", b"c"), leaf_hash(b"abc"));
}

#[test]
fn empty_input_is_refused() {
    let data: &[&str] = &[];
    assert!(matches!(MerkleTree::new(data), Err(MerkleError::EmptyInput)));
}

#[test]
fn proof_index_out_of_range_is_refused() {
    let tree = MerkleTree::new(&["a", "b", "c", "d"]).unwrap();
    assert!(matches!(tree.generate_proof(4), Err(MerkleError::IndexOutOfRange)));
    assert!(matches!(tree.generate_proof(usize::MAX), Err(MerkleError::IndexOutOfRange)));
    assert!(tree.generate_proof(3).is_ok());
}

#[test]
fn single_item_root_is_its_leaf() {
    let tree = MerkleTree::new(&["only"]).unwrap();
    assert_eq!(tree.root(), &MerkleTree::hash_leaf("only"));
    let proof = tree.generate_proof(0).unwrap();
    assert!(proof.is_empty());
    assert!(MerkleTree::verify_proof(tree.root(), &MerkleTree::hash_leaf("only"), &proof));
}

#[test]
fn odd_leftover_is_carried_unchanged() {
    let h = |s: &str| MerkleTree::hash_leaf(s);
    let three = MerkleTree::new(&["a", "b", "c"]).unwrap();
    let ab = pair_hash(&h("a"), &h("b"));
    assert_eq!(three.root(), &pair_hash(&ab, &h("c")));

    let five = MerkleTree::new(&["a", "b", "c", "d", "e"]).unwrap();
    let cd = pair_hash(&h("c"), &h("d"));
    let abcd = pair_hash(&ab, &cd);
    assert_eq!(five.root(), &pair_hash(&abcd, &h("e")));
}

#[test]
fn proof_of_carried_leaf_skips_levels_without_sibling() {
    let items = ["a", "b", "c", "d", "e"];
    let tree = MerkleTree::new(&items).unwrap();
    let proof = tree.generate_proof(4).unwrap();
    assert_eq!(proof.len(), 1);
    let h = |s: &str| MerkleTree::hash_leaf(s);
    let abcd = pair_hash(&pair_hash(&h("a"), &h("b")), &pair_hash(&h("c"), &h("d")));
    assert_eq!(proof[0], (abcd, false));

    let proof0 = tree.generate_proof(0).unwrap();
    assert_eq!(proof0.len(), 3);
    assert_eq!(proof0[0], (h("b"), true));
    assert_eq!(proof0[2], (h("e"), true));
}

#[test]
fn every_generated_proof_verifies() {
    let items = ["a", "b", "c", "d", "e", "f", "g"];
    let tree = MerkleTree::new(&items).unwrap();
    for (i, item) in items.iter().enumerate() {
        let proof = tree.generate_proof(i).unwrap();
        let leaf = MerkleTree::hash_leaf(item);
        assert!(MerkleTree::verify_proof(tree.root(), &leaf, &proof));
        let other = MerkleTree::hash_leaf(items[(i + 1) % items.len()]);
        assert!(!MerkleTree::verify_proof(tree.root(), &other, &proof));
    }
}

#[test]
fn flipping_any_bit_of_a_proof_breaks_it() {
    let items = ["a", "b", "c", "d", "e"];
    let tree = MerkleTree::new(&items).unwrap();
    let leaf = MerkleTree::hash_leaf("c");
    let proof = tree.generate_proof(2).unwrap();
    for step in 0..proof.len() {
        for byte in 0..32 {
            for bit in 0..8 {
                let mut tampered = proof.clone();
                tampered[step].0[byte] ^= 1 << bit;
                assert!(!MerkleTree::verify_proof(tree.root(), &leaf, &tampered));
            }
        }
        let mut flipped_side = proof.clone();
        flipped_side[step].1 = !flipped_side[step].1;
        assert!(!MerkleTree::verify_proof(tree.root(), &leaf, &flipped_side));
    }
}

#[test]
fn same_items_give_same_root_and_order_matters() {
    let a = MerkleTree::new(&["x", "y", "z"]).unwrap();
    let b = MerkleTree::new(&["x", "y", "z"]).unwrap();
    let c = MerkleTree::new(&["y", "x", "z"]).unwrap();
    assert_eq!(a.root(), b.root());
    assert_ne!(a.root(), c.root());
}
