use rustchain::chain::merkle::MerkleTree;

#[test]
fn test_empty_tree() {
    let tree = MerkleTree::new(vec![]);
    assert_eq!(tree.transaction_count(), 0);
}

#[test]
fn test_single_transaction() {
    let tree = MerkleTree::new(vec!["tx1_hash".to_string()]);
    assert_eq!(tree.transaction_count(), 1);
    assert!(!tree.root.is_empty());
}

#[test]
fn test_multiple_transactions() {
    let hashes = vec![
        "tx1".to_string(),
        "tx2".to_string(),
        "tx3".to_string(),
        "tx4".to_string(),
    ];
    let tree = MerkleTree::new(hashes);

    assert_eq!(tree.transaction_count(), 4);
    assert!(!tree.root.is_empty());
    assert_eq!(tree.root.len(), 64);
}

#[test]
fn test_odd_number_transactions() {
    let hashes = vec!["tx1".to_string(), "tx2".to_string(), "tx3".to_string()];
    let tree = MerkleTree::new(hashes);

    assert_eq!(tree.transaction_count(), 3);
    assert!(!tree.root.is_empty());
}

#[test]
fn test_same_input_same_root() {
    let hashes1 = vec!["a".to_string(), "b".to_string()];
    let hashes2 = vec!["a".to_string(), "b".to_string()];

    let tree1 = MerkleTree::new(hashes1);
    let tree2 = MerkleTree::new(hashes2);

    assert_eq!(tree1.root, tree2.root);
}

#[test]
fn test_different_input_different_root() {
    let tree1 = MerkleTree::new(vec!["a".to_string(), "b".to_string()]);
    let tree2 = MerkleTree::new(vec!["a".to_string(), "c".to_string()]);

    assert_ne!(tree1.root, tree2.root);
}

#[test]
fn duplicated_last_leaf_changes_the_root() {
    let three = MerkleTree::new(vec!["a".to_string(), "b".to_string(), "c".to_string()]);
    let three_plus_duplicate = MerkleTree::new(vec![
        "a".to_string(),
        "b".to_string(),
        "c".to_string(),
        "c".to_string(),
    ]);

    assert_ne!(three.root, three_plus_duplicate.root);
}

#[test]
fn proofs_verify_against_the_root_for_every_size() {
    for leaf_count in 1..=9 {
        let hashes: Vec<String> = (0..leaf_count).map(|i| format!("tx{}", i)).collect();
        let tree = MerkleTree::new(hashes.clone());

        for (index, hash) in hashes.iter().enumerate() {
            let proof = tree
                .generate_proof(index)
                .unwrap_or_else(|| panic!("no proof for leaf {} of {}", index, leaf_count));

            assert!(
                MerkleTree::verify_proof(hash, &proof, &tree.root),
                "proof for leaf {} of {} did not verify",
                index,
                leaf_count
            );
        }
    }
}

#[test]
fn proof_of_a_foreign_transaction_is_refused() {
    let tree = MerkleTree::new(vec!["a".to_string(), "b".to_string(), "c".to_string()]);
    let proof = tree.generate_proof(0).expect("leaf 0 exists");

    assert!(!MerkleTree::verify_proof(
        "not_in_the_tree",
        &proof,
        &tree.root
    ));
}

#[test]
fn proof_out_of_range_is_none() {
    let tree = MerkleTree::new(vec!["a".to_string(), "b".to_string()]);

    assert!(tree.generate_proof(2).is_none());
    assert!(MerkleTree::new(vec![]).generate_proof(0).is_none());
}

#[test]
fn test_domain_separation() {
    let leaf = MerkleTree::hash_leaf("test");
    let node = MerkleTree::hash_node("test", "");
    assert_ne!(leaf, node);
}

#[test]
fn a_single_leaf_tree_has_the_leaf_hash_as_root_and_an_empty_proof() {
    let tree = MerkleTree::new(vec!["only".to_string()]);

    assert_eq!(tree.root, MerkleTree::hash_leaf("only"));
    assert_eq!(tree.root_hash(), tree.root);
    assert_eq!(tree.generate_proof(0), Some(vec![]));
}

#[test]
fn a_two_leaf_root_is_the_node_hash_of_the_two_leaf_hashes() {
    let tree = MerkleTree::new(vec!["a".to_string(), "b".to_string()]);
    let a = MerkleTree::hash_leaf("a");
    let b = MerkleTree::hash_leaf("b");

    assert_eq!(tree.root, MerkleTree::hash_node(&a, &b));
    assert_eq!(tree.generate_proof(0), Some(vec![(b.clone(), false)]));
    assert_eq!(tree.generate_proof(1), Some(vec![(a, true)]));
}

#[test]
fn a_proof_against_another_root_is_refused() {
    let tree = MerkleTree::new(vec!["a".to_string(), "b".to_string()]);
    let other = MerkleTree::new(vec!["a".to_string(), "c".to_string()]);
    let proof = tree.generate_proof(0).expect("leaf 0 exists");

    assert!(MerkleTree::verify_proof("a", &proof, &tree.root));
    assert!(!MerkleTree::verify_proof("a", &proof, &other.root));
}

#[test]
fn the_empty_tree_root_lies_in_its_own_domain() {
    let empty = MerkleTree::new(vec![]);
    let one = MerkleTree::new(vec!["empty".to_string()]);

    assert_eq!(
        empty.root,
        "336f429f7bad10b86dd4c812c8a7ebc675c0316b28d8669df23b5fbd39395263"
    );
    assert_ne!(empty.root, one.root);
    assert_ne!(empty.root, MerkleTree::hash_leaf("empty"));
    assert!(!MerkleTree::verify_proof("empty", &[], &empty.root));
}

#[test]
fn a_leaf_hashes_the_canonical_encoding_under_the_leaf_domain() {
    assert_eq!(
        MerkleTree::hash_leaf("a"),
        "81a28ef3b7746994a554b667d942670e5f07d41ac5ca530e2b77e038d7abccdb"
    );
}

#[test]
fn the_boundary_between_two_children_cannot_move() {
    assert_ne!(
        MerkleTree::hash_node("ab", "c"),
        MerkleTree::hash_node("a", "bc")
    );
}

#[test]
fn an_odd_level_is_padded_with_the_sentinel() {
    let tree = MerkleTree::new(vec!["a".to_string(), "b".to_string(), "c".to_string()]);

    assert_eq!(
        tree.root,
        "e932bc947fed8e5dcd61a94c82661b691e153dd234ead2430db138c099b229c1"
    );
}

#[test]
fn a_proof_has_one_step_per_level_and_its_flags_are_the_index_bits() {
    let hashes: Vec<String> = (0..5).map(|i| format!("tx{}", i)).collect();
    let tree = MerkleTree::new(hashes);

    for index in 0..5usize {
        let proof = tree.generate_proof(index).expect("a leaf position");
        assert_eq!(proof.len(), 3);
        let flags: Vec<bool> = proof.iter().map(|step| step.1).collect();
        let bits: Vec<bool> = (0..3).map(|k| (index >> k) & 1 == 1).collect();
        assert_eq!(flags, bits);
    }
}

#[test]
fn every_proof_step_carries_a_hex_digest() {
    let hashes: Vec<String> = (0..7).map(|i| format!("tx{}", i)).collect();
    let tree = MerkleTree::new(hashes);

    assert_eq!(tree.root.len(), 64);
    for index in 0..7usize {
        for (sibling, _) in tree.generate_proof(index).expect("a leaf position") {
            assert_eq!(sibling.len(), 64);
            assert!(sibling.chars().all(|c| c.is_ascii_digit() || ('a'..='f').contains(&c)));
        }
    }
}
