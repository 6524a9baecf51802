use sparse_merkle::{hash_merge, hash_table, Element, Node, OccupiedSlot};

#[test]
fn depth_test() {
    for i in 1..128 {
        let tree = Node::new(i);
        assert_eq!(tree.depth(), i);
    }
}

#[test]
fn root_hash_makes_sense() {
    let table = hash_table();
    for i in 1..100 {
        assert_eq!(Node::new(i).hash(&table), table[i - 1]);
    }
}

#[test]
fn simple_manual_insert() {
    let table = hash_table();
    let mut tree = Node::new(3);

    let element = Element::from_u64(1);
    let bits = element.least_significant_bits(2);

    assert_eq!(tree.insert(&bits, element, &table), Ok(()));

    let ll = Element::null();
    let lr = Element::from_u64(1);
    let rl = Element::null();
    let rr = Element::null();

    let l = hash_merge(ll, lr);
    let r = hash_merge(rl, rr);

    let expected_root = hash_merge(l, r);

    let expected_tree = Node::Parent {
        left: Box::new(Node::Parent {
            left: Box::new(Node::Nulls(0)),
            right: Box::new(Node::Leaf(element)),
            hash: l,
        }),
        right: Box::new(Node::Nulls(1)),
        hash: expected_root,
    };

    assert_eq!(tree, expected_tree);

    assert_eq!(tree.hash(&table), expected_root);
}

#[test]
fn new_node_is_one_empty_region() {
    assert_eq!(Node::new(1), Node::Nulls(0));
    assert_eq!(Node::new(128), Node::Nulls(127));
    assert_eq!(Node::new(128).depth(), 128);
    let table = hash_table();
    assert_eq!(Node::new(128).hash(&table), table[127]);
}

#[test]
fn insert_into_single_leaf() {
    let table = hash_table();
    let mut tree = Node::new(1);
    let element = Element::from_u64(9);
    assert_eq!(tree.insert(&[], element, &table), Ok(()));
    assert_eq!(tree, Node::Leaf(element));
    assert_eq!(tree.hash(&table), element);
    assert_eq!(tree.depth(), 1);
}

#[test]
fn insert_into_occupied_leaf_fails_and_changes_nothing() {
    let table = hash_table();
    let mut tree = Node::new(3);
    let first = Element::from_u64(1);
    assert_eq!(tree.insert(&[false, true], first, &table), Ok(()));
    let before = tree.clone();
    assert_eq!(tree.insert(&[false, true], Element::from_u64(5), &table), Err(OccupiedSlot));
    assert_eq!(tree, before);
    assert_eq!(tree.insert(&[false, true], first, &table), Err(OccupiedSlot));
    assert_eq!(tree, before);
}

#[test]
fn insert_keeps_depth_and_expands_only_the_way() {
    let table = hash_table();
    let mut tree = Node::new(4);
    let a = Element::from_u64(6);
    assert_eq!(tree.insert(&[true, true, false], a, &table), Ok(()));
    assert_eq!(tree.depth(), 4);
    let low = hash_merge(a, Element::null());
    let mid = hash_merge(table[1], low);
    let top = hash_merge(table[2], mid);
    let expected = Node::Parent {
        left: Box::new(Node::Nulls(2)),
        right: Box::new(Node::Parent {
            left: Box::new(Node::Nulls(1)),
            right: Box::new(Node::Parent {
                left: Box::new(Node::Leaf(a)),
                right: Box::new(Node::Nulls(0)),
                hash: low,
            }),
            hash: mid,
        }),
        hash: top,
    };
    assert_eq!(tree, expected);
    let b = Element::from_u64(7);
    assert_eq!(tree.insert(&[true, true, true], b, &table), Ok(()));
    assert_eq!(tree.hash(&table), hash_merge(table[2], hash_merge(table[1], hash_merge(a, b))));
    assert_eq!(tree.depth(), 4);
}

#[test]
fn insert_does_not_read_bits_beyond_the_leaf() {
    let table = hash_table();
    let mut short = Node::new(2);
    let mut long = Node::new(2);
    let e = Element::from_u64(3);
    assert_eq!(short.insert(&[true], e, &table), Ok(()));
    assert_eq!(long.insert(&[true, false, true], e, &table), Ok(()));
    assert_eq!(short, long);
}

#[test]
fn clone_is_equal() {
    let table = hash_table();
    let mut tree = Node::new(5);
    assert_eq!(tree.insert(&[true, false, true, false], Element::from_u64(10), &table), Ok(()));
    assert_eq!(tree.clone(), tree);
}
