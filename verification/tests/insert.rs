use sparse_merkle::{prove_insert, Element, ProofGenerationFailed, Tree};

#[test]
fn simple_test() {
    let tree = Tree::<64>::new();
    let proof = prove_insert(&tree, Element::from_u64(123));
    assert!(proof.is_ok());
}

#[test]
fn witness_of_insert_into_empty_tree() {
    let mut tree = Tree::<64>::new();
    let e = Element::from_u64(123);
    let witness = prove_insert(&tree, e).unwrap();
    assert_eq!(witness.hash, e);
    assert_eq!(witness.old_root, tree.root_hash());
    assert_eq!(witness.path.compute_root(Element::null()), witness.old_root);
    assert_eq!(witness.path.compute_root(e), witness.new_root);
    assert_eq!(witness.path.bits(), &e.least_significant_bits(63));
    assert_eq!(tree.insert(e), Ok(()));
    assert_eq!(witness.new_root, tree.root_hash());
}

#[test]
fn witness_of_insert_into_filled_tree() {
    let mut tree = Tree::<16>::new();
    for i in 0..40 {
        assert_eq!(tree.insert(Element::from_u64(i * 7)), Ok(()));
    }
    let e = Element::from_u64(5);
    let witness = prove_insert(&tree, e).unwrap();
    assert_eq!(witness.old_root, tree.root_hash());
    assert_eq!(tree.insert(e), Ok(()));
    assert_eq!(witness.new_root, tree.root_hash());
}

#[test]
fn no_witness_for_an_occupied_leaf() {
    let mut tree = Tree::<64>::new();
    let e = Element::from_u64(123);
    assert_eq!(tree.insert(e), Ok(()));
    assert_eq!(prove_insert(&tree, e), Err(ProofGenerationFailed));
    let mut small = Tree::<2>::new();
    assert_eq!(small.insert(Element::from_u64(1)), Ok(()));
    assert_eq!(prove_insert(&small, Element::from_u64(3)), Err(ProofGenerationFailed));
    assert!(prove_insert(&small, Element::from_u64(2)).is_ok());
}

#[test]
fn proof_carries_the_public_inputs() {
    let tree = Tree::<8>::new();
    let e = Element::from_u64(200);
    let witness = prove_insert(&tree, e).unwrap();
    let (old_root, new_root) = (witness.old_root, witness.new_root);
    let proof = witness.into_proof(Some(vec![1, 2, 3])).unwrap();
    assert_eq!(proof.old_root, old_root);
    assert_eq!(proof.new_root, new_root);
    assert_eq!(proof.hash, e);
    assert_eq!(proof.payload, vec![1, 2, 3]);
}

#[test]
fn no_proof_without_a_payload() {
    let tree = Tree::<8>::new();
    let witness = prove_insert(&tree, Element::from_u64(200)).unwrap();
    assert_eq!(witness.into_proof(None), Err(ProofGenerationFailed));
}
