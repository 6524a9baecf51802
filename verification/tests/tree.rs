use sparse_merkle::{hash_merge, hash_table, Element, OccupiedSlot, Tree};
use std::collections::HashSet;

#[test]
fn path_test() {
    let mut tree = Tree::<64>::new();

    for i in 0..10 {
        let _ = tree.insert(Element::from_u64(i));
    }

    for i in 0..10 {
        let e = Element::from_u64(i);
        let path = tree.path_for(e);
        assert_eq!(path.compute_root(e), tree.root_hash());
    }

    for i in 10..20 {
        let e = Element::from_u64(i);
        let path = tree.path_for(e);
        assert_eq!(path.compute_root(Element::null()), tree.root_hash());
    }
}

#[test]
fn single_insert_path_recomputes_root() {
    let mut tree = Tree::<64>::new();
    let e = Element::from_u64(123);
    assert_eq!(tree.insert(e), Ok(()));
    assert_eq!(tree.path_for(e).compute_root(e), tree.root_hash());
}

#[test]
fn inserted_elements_are_contained() {
    let mut tree = Tree::<64>::new();
    for i in 0..10 {
        assert_eq!(tree.insert(Element::from_u64(i)), Ok(()));
    }
    for i in 0..10 {
        assert!(tree.contains(Element::from_u64(i)));
    }
    for i in 10..20 {
        assert!(!tree.contains(Element::from_u64(i)));
    }
    assert_eq!(tree.len(), 10);
    let expected: HashSet<Element> = (0..10).map(Element::from_u64).collect();
    let elements = tree.elements();
    assert_eq!(elements.len(), 10);
    assert_eq!(elements.into_iter().collect::<HashSet<_>>(), expected);
}

#[test]
fn empty_tree() {
    let tree = Tree::<64>::new();
    assert!(tree.is_empty());
    assert_eq!(tree.len(), 0);
    assert_eq!(tree.elements(), Vec::<Element>::new());
    assert!(!tree.contains(Element::from_u64(0)));
    assert_eq!(tree.root_hash(), hash_table()[63]);
    assert_ne!(tree.root_hash(), hash_table()[62]);
}

#[test]
fn empty_tree_of_each_depth_has_the_null_hash_of_its_depth() {
    let table = hash_table();
    assert_eq!(Tree::<1>::new().root_hash(), table[0]);
    assert_eq!(Tree::<1>::new().root_hash(), Element::null());
    assert_eq!(Tree::<2>::new().root_hash(), table[1]);
    assert_eq!(Tree::<2>::new().root_hash(), hash_merge(Element::null(), Element::null()));
    assert_eq!(Tree::<3>::new().root_hash(), table[2]);
    assert_eq!(Tree::<128>::new().root_hash(), table[127]);
}

#[test]
fn depth_three_insert_one() {
    let mut tree = Tree::<3>::new();
    let one = Element::from_u64(1);
    assert_eq!(tree.insert(one), Ok(()));
    let null = Element::null();
    assert_eq!(
        tree.root_hash(),
        hash_merge(hash_merge(null, one), hash_merge(null, null))
    );
    let path = tree.path_for(one);
    assert_eq!(path.bits(), &vec![false, true]);
    assert_eq!(path.siblings(), &vec![null, hash_merge(null, null)]);
    assert_eq!(path.compute_root(one), tree.root_hash());
}

#[test]
fn second_insert_of_same_element_fails() {
    let mut tree = Tree::<64>::new();
    let e = Element::from_u64(77);
    assert_eq!(tree.insert(e), Ok(()));
    let before = tree.clone();
    assert_eq!(tree.insert(e), Err(OccupiedSlot));
    assert_eq!(tree, before);
    assert_eq!(tree.len(), 1);
    assert_eq!(tree.root_hash(), before.root_hash());
}

#[test]
fn colliding_elements_share_a_leaf() {
    let mut tree = Tree::<2>::new();
    assert_eq!(tree.insert(Element::from_u64(0)), Ok(()));
    let before = tree.clone();
    assert_eq!(tree.insert(Element::from_u64(2)), Err(OccupiedSlot));
    assert_eq!(tree, before);
    assert!(tree.contains(Element::from_u64(2)));
    assert_eq!(tree.elements(), vec![Element::from_u64(0)]);
    assert_eq!(tree.insert(Element::from_u64(1)), Ok(()));
    assert_eq!(tree.len(), 2);
    assert_eq!(
        tree.root_hash(),
        hash_merge(Element::from_u64(0), Element::from_u64(1))
    );
}

#[test]
fn tree_of_depth_one_holds_one_element() {
    let mut tree = Tree::<1>::new();
    let e = Element::from_u64(5);
    let path = tree.path_for(e);
    assert!(path.siblings().is_empty());
    assert!(path.bits().is_empty());
    assert_eq!(path.compute_root(Element::null()), tree.root_hash());
    assert_eq!(tree.insert(e), Ok(()));
    assert_eq!(tree.root_hash(), e);
    assert_eq!(tree.path_for(e).compute_root(e), e);
    assert_eq!(tree.insert(Element::from_u64(6)), Err(OccupiedSlot));
}

#[test]
fn path_of_empty_leaf_in_empty_tree_is_null_hashes() {
    let tree = Tree::<5>::new();
    let table = hash_table();
    let path = tree.path_for(Element::from_u64(9));
    assert_eq!(path.siblings(), &table[0..4].to_vec());
    assert_eq!(path.bits(), &vec![true, false, false, true]);
    assert_eq!(path.compute_root(Element::null()), table[4]);
}

#[test]
fn path_has_one_sibling_per_level_below_the_root() {
    let mut tree = Tree::<64>::new();
    for i in [3u64, 1 << 40, u64::MAX] {
        assert_eq!(tree.insert(Element::from_u64(i)), Ok(()));
    }
    for i in [3u64, 4, 1 << 40, u64::MAX, 0] {
        let path = tree.path_for(Element::from_u64(i));
        assert_eq!(path.siblings().len(), 63);
        assert_eq!(path.bits().len(), 63);
        assert_eq!(path.bits(), &Element::from_u64(i).least_significant_bits(63));
    }
}

#[test]
fn path_before_insert_leads_to_root_after_insert() {
    let mut tree = Tree::<64>::new();
    for i in 0..5 {
        assert_eq!(tree.insert(Element::from_u64(i * 3)), Ok(()));
    }
    let e = Element::from_u64(1000);
    let path = tree.path_for(e);
    assert_eq!(path.compute_root(Element::null()), tree.root_hash());
    assert_eq!(tree.insert(e), Ok(()));
    assert_eq!(path.compute_root(e), tree.root_hash());
    assert_eq!(tree.path_for(e).siblings(), path.siblings());
}

#[test]
fn compute_root_goes_by_the_way_of_the_path() {
    let mut tree = Tree::<3>::new();
    let two = Element::from_u64(2);
    assert_eq!(tree.insert(two), Ok(()));
    let null = Element::null();
    // the leaf of 3 is empty, and lies to the right of that of 2
    let path = tree.path_for(Element::from_u64(3));
    assert_eq!(path.siblings(), &vec![two, hash_merge(null, null)]);
    assert_eq!(
        path.compute_root(null),
        hash_merge(hash_merge(null, null), hash_merge(two, null))
    );
    assert_eq!(path.compute_root(null), tree.root_hash());
    let other = Element::from_u64(11);
    assert_eq!(
        path.compute_root(other),
        hash_merge(hash_merge(null, null), hash_merge(two, other))
    );
}

#[test]
fn greatest_depth() {
    let mut tree = Tree::<128>::new();
    let e = Element::from_limbs([u64::MAX, u64::MAX >> 1, 5, 1]).unwrap();
    let f = Element::from_limbs([u64::MAX, u64::MAX, 5, 1]).unwrap();
    assert_eq!(tree.insert(e), Ok(()));
    assert_eq!(tree.insert(f), Err(OccupiedSlot));
    let g = Element::from_limbs([u64::MAX - 1, u64::MAX, 0, 0]).unwrap();
    assert_eq!(tree.insert(g), Ok(()));
    assert_eq!(tree.path_for(e).compute_root(e), tree.root_hash());
    assert_eq!(tree.path_for(g).compute_root(g), tree.root_hash());
    assert_eq!(tree.path_for(g).siblings().len(), 127);
    assert_eq!(tree.len(), 2);
}

#[test]
fn elements_come_each_once() {
    let mut tree = Tree::<10>::new();
    let inserted = [5u64, 17, 300, 511, 0, 256];
    for i in inserted {
        assert_eq!(tree.insert(Element::from_u64(i)), Ok(()));
    }
    // 517 = 512 + 5 shares its nine lowest bits with 5
    assert_eq!(tree.insert(Element::from_u64(517)), Err(OccupiedSlot));
    let mut elements = tree.elements();
    elements.sort();
    let mut expected: Vec<Element> = inserted.iter().map(|i| Element::from_u64(*i)).collect();
    expected.sort();
    assert_eq!(elements, expected);
    assert_eq!(tree.elements().len(), tree.len());
}

#[test]
fn tree_with_a_given_table() {
    let table = hash_table();
    let mut shared = Tree::<64>::with_table(table.clone());
    let mut own = Tree::<64>::new();
    assert_eq!(shared, own);
    for i in [1u64, 2, 99] {
        assert_eq!(shared.insert(Element::from_u64(i)), Ok(()));
        assert_eq!(own.insert(Element::from_u64(i)), Ok(()));
    }
    assert_eq!(shared.root_hash(), own.root_hash());
    assert_eq!(shared, own);
}

#[test]
fn root_hash_is_that_of_the_complete_tree() {
    let mut tree = Tree::<3>::new();
    let a = Element::from_u64(0b01);
    let b = Element::from_u64(0b10);
    assert_eq!(tree.insert(a), Ok(()));
    assert_eq!(tree.insert(b), Ok(()));
    let null = Element::null();
    assert_eq!(
        tree.root_hash(),
        hash_merge(hash_merge(null, a), hash_merge(b, null))
    );
}

#[test]
fn root_hash_does_not_depend_on_the_order_of_insertion() {
    let mut forward = Tree::<32>::new();
    let mut backward = Tree::<32>::new();
    for i in 0..20u64 {
        assert_eq!(forward.insert(Element::from_u64(i * i)), Ok(()));
        assert_eq!(backward.insert(Element::from_u64((19 - i) * (19 - i))), Ok(()));
    }
    assert_eq!(forward.root_hash(), backward.root_hash());
}
