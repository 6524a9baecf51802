//! What holds of every tree: how insertion changes it, and that the hashes
//! beside the way to a leaf lead back to the root.

use crate::element::{low_bits, null_value};
use crate::hash::null_hash;
use crate::tree::model::{climb, merkle_root, Subtree};
use vstd::prelude::*;

verus! {

/// Two bit strings with the same first bit and the same rest are the same.
proof fn lemma_same_head_and_tail(a: Seq<bool>, b: Seq<bool>)
    requires
        a.len() > 0,
        b.len() > 0,
        a[0] == b[0],
        a.drop_first() == b.drop_first(),
    ensures
        a == b,
{
    assert(a.len() == b.len()) by {
        assert(a.drop_first().len() == a.len() - 1);
        assert(b.drop_first().len() == b.len() - 1);
    }
    assert forall|i: int| 0 <= i < a.len() implies a[i] == b[i] by {
        if i > 0 {
            assert(a[i] == a.drop_first()[i - 1]);
            assert(b[i] == b.drop_first()[i - 1]);
        }
    }
    assert(a =~= b);
}

/// There is one sibling for each level below the root.
pub proof fn lemma_siblings_len(t: Subtree, bits: Seq<bool>)
    requires
        t.balanced(),
        bits.len() >= t.depth() - 1,
    ensures
        t.siblings(bits).len() == t.depth() - 1,
    decreases t,
{
    match t {
        Subtree::Leaf(_) => {},
        Subtree::Nulls(_) => {},
        Subtree::Parent(left, right) => {
            if bits[0] {
                lemma_siblings_len(*right, bits.drop_first());
            } else {
                lemma_siblings_len(*left, bits.drop_first());
            }
        },
    }
}

/// Climbing from the null value past the null hashes of the first `d` levels
/// gives the null hash of level `d`, whichever way the bits point.
pub proof fn lemma_climb_nulls(d: nat, bits: Seq<bool>)
    requires
        bits.len() >= d,
    ensures
        climb(null_value(), Seq::new(d, |i: int| null_hash(i as nat)), bits) == null_hash(d),
    decreases d,
{
    if d > 0 {
        let all = Seq::new(d, |i: int| null_hash(i as nat));
        let lower = Seq::new((d - 1) as nat, |i: int| null_hash(i as nat));
        assert(all.drop_last() =~= lower);
        lemma_climb_nulls((d - 1) as nat, bits.drop_first());
    }
}

/// Membership: from an element in the tree, the hashes of the siblings
/// beside its way lead to the root hash.
pub proof fn lemma_membership(t: Subtree, bits: Seq<bool>, v: nat)
    requires
        t.balanced(),
        bits.len() >= t.depth() - 1,
        t.lookup(bits) == Some(v),
    ensures
        climb(v, t.siblings(bits), bits) == t.hash(),
    decreases t,
{
    match t {
        Subtree::Leaf(_) => {},
        Subtree::Nulls(_) => {},
        Subtree::Parent(left, right) => {
            let tail = bits.drop_first();
            if bits[0] {
                lemma_membership(*right, tail, v);
                assert(t.siblings(bits).drop_last() =~= right.siblings(tail));
            } else {
                lemma_membership(*left, tail, v);
                assert(t.siblings(bits).drop_last() =~= left.siblings(tail));
            }
        },
    }
}

/// Non-membership: from the null value at a leaf that is not occupied, the
/// hashes of the siblings beside its way lead to the root hash.
pub proof fn lemma_non_membership(t: Subtree, bits: Seq<bool>)
    requires
        t.balanced(),
        bits.len() >= t.depth() - 1,
        t.lookup(bits) is None,
    ensures
        climb(null_value(), t.siblings(bits), bits) == t.hash(),
    decreases t,
{
    match t {
        Subtree::Leaf(_) => {},
        Subtree::Nulls(d) => {
            lemma_climb_nulls(d, bits);
        },
        Subtree::Parent(left, right) => {
            let tail = bits.drop_first();
            if bits[0] {
                lemma_non_membership(*right, tail);
                assert(t.siblings(bits).drop_last() =~= right.siblings(tail));
            } else {
                lemma_non_membership(*left, tail);
                assert(t.siblings(bits).drop_last() =~= left.siblings(tail));
            }
        },
    }
}

/// A subtree with a single occupied leaf: its shape, what it holds, and the
/// siblings of that leaf, which are the null hashes.
pub proof fn lemma_single(d: nat, bits: Seq<bool>, v: nat)
    requires
        bits.len() >= d,
    ensures
        Subtree::single(d, bits, v).balanced(),
        Subtree::single(d, bits, v).depth() == d + 1,
        Subtree::single(d, bits, v).count() == 1,
        Subtree::single(d, bits, v).lookup(bits) == Some(v),
        Subtree::single(d, bits, v).siblings(bits) == Subtree::Nulls(d).siblings(bits),
    decreases d,
{
    if d > 0 {
        let tail = bits.drop_first();
        lemma_single((d - 1) as nat, tail, v);
        let nulls = Subtree::Nulls((d - 1) as nat);
        assert(nulls.balanced() && nulls.depth() == d && nulls.count() == 0);
        let lower = Seq::new((d - 1) as nat, |i: int| null_hash(i as nat));
        assert(Subtree::Nulls((d - 1) as nat).siblings(tail) == lower);
        assert(lower.push(null_hash((d - 1) as nat)) =~= Seq::new(d, |i: int| null_hash(i as nat)));
    }
}

/// In a subtree with a single occupied leaf, every other leaf is empty.
pub proof fn lemma_single_lookup_other(d: nat, bits: Seq<bool>, v: nat, other: Seq<bool>)
    requires
        bits.len() == d,
        other.len() == d,
        other != bits,
    ensures
        Subtree::single(d, bits, v).lookup(other) is None,
    decreases d,
{
    if d > 0 {
        assert(Subtree::Nulls((d - 1) as nat).lookup(other.drop_first()) is None);
        if other[0] == bits[0] {
            if other.drop_first() == bits.drop_first() {
                lemma_same_head_and_tail(other, bits);
            }
            lemma_single_lookup_other((d - 1) as nat, bits.drop_first(), v, other.drop_first());
        }
    } else {
        assert(other =~= bits);
    }
}

/// Insertion keeps the depth and the balance of the tree.
pub proof fn lemma_insert_shape(t: Subtree, bits: Seq<bool>, v: nat)
    requires
        t.balanced(),
        bits.len() >= t.depth() - 1,
    ensures
        t.insert(bits, v).balanced(),
        t.insert(bits, v).depth() == t.depth(),
    decreases t,
{
    match t {
        Subtree::Leaf(_) => {},
        Subtree::Nulls(d) => {
            lemma_single(d, bits, v);
        },
        Subtree::Parent(left, right) => {
            if bits[0] {
                lemma_insert_shape(*right, bits.drop_first(), v);
            } else {
                lemma_insert_shape(*left, bits.drop_first(), v);
            }
        },
    }
}

/// Insertion at an occupied leaf changes nothing.
pub proof fn lemma_insert_occupied(t: Subtree, bits: Seq<bool>, v: nat)
    requires
        t.lookup(bits) is Some,
    ensures
        t.insert(bits, v) == t,
    decreases t,
{
    match t {
        Subtree::Leaf(_) => {},
        Subtree::Nulls(_) => {},
        Subtree::Parent(left, right) => {
            if bits.len() > 0 {
                if bits[0] {
                    lemma_insert_occupied(*right, bits.drop_first(), v);
                } else {
                    lemma_insert_occupied(*left, bits.drop_first(), v);
                }
            }
        },
    }
}

/// After insertion at an empty leaf, that leaf holds the element, and the
/// tree holds one element more.
pub proof fn lemma_insert_lookup_same(t: Subtree, bits: Seq<bool>, v: nat)
    requires
        t.balanced(),
        bits.len() >= t.depth() - 1,
        t.lookup(bits) is None,
    ensures
        t.insert(bits, v).lookup(bits) == Some(v),
        t.insert(bits, v).count() == t.count() + 1,
    decreases t,
{
    match t {
        Subtree::Leaf(_) => {},
        Subtree::Nulls(d) => {
            lemma_single(d, bits, v);
        },
        Subtree::Parent(left, right) => {
            if bits[0] {
                lemma_insert_lookup_same(*right, bits.drop_first(), v);
            } else {
                lemma_insert_lookup_same(*left, bits.drop_first(), v);
            }
        },
    }
}

/// Insertion changes no leaf but the one it aims at.
pub proof fn lemma_insert_lookup_other(t: Subtree, bits: Seq<bool>, v: nat, other: Seq<bool>)
    requires
        t.balanced(),
        bits.len() == t.depth() - 1,
        other.len() == t.depth() - 1,
        other != bits,
    ensures
        t.insert(bits, v).lookup(other) == t.lookup(other),
    decreases t,
{
    match t {
        Subtree::Leaf(_) => {},
        Subtree::Nulls(d) => {
            lemma_single_lookup_other(d, bits, v, other);
        },
        Subtree::Parent(left, right) => {
            if other[0] == bits[0] {
                if other.drop_first() == bits.drop_first() {
                    lemma_same_head_and_tail(other, bits);
                }
                if bits[0] {
                    lemma_insert_lookup_other(*right, bits.drop_first(), v, other.drop_first());
                } else {
                    lemma_insert_lookup_other(*left, bits.drop_first(), v, other.drop_first());
                }
            }
        },
    }
}

/// Insertion at an empty leaf changes no hash beside the way to that leaf:
/// its siblings before the insertion are its siblings after it.
pub proof fn lemma_insert_siblings(t: Subtree, bits: Seq<bool>, v: nat)
    requires
        t.balanced(),
        bits.len() >= t.depth() - 1,
        t.lookup(bits) is None,
    ensures
        t.insert(bits, v).siblings(bits) == t.siblings(bits),
    decreases t,
{
    match t {
        Subtree::Leaf(_) => {},
        Subtree::Nulls(d) => {
            lemma_single(d, bits, v);
        },
        Subtree::Parent(left, right) => {
            if bits[0] {
                lemma_insert_siblings(*right, bits.drop_first(), v);
            } else {
                lemma_insert_siblings(*left, bits.drop_first(), v);
            }
        },
    }
}

/// One path serves before and after an insertion: the siblings of an empty
/// leaf lead from the null value to the root hash of the tree as it is, and
/// from an element to the root hash of the tree with that element inserted.
pub proof fn lemma_insert_root(t: Subtree, bits: Seq<bool>, v: nat)
    requires
        t.balanced(),
        bits.len() >= t.depth() - 1,
        t.lookup(bits) is None,
    ensures
        climb(null_value(), t.siblings(bits), bits) == t.hash(),
        climb(v, t.siblings(bits), bits) == t.insert(bits, v).hash(),
{
    lemma_non_membership(t, bits);
    lemma_insert_shape(t, bits, v);
    lemma_insert_lookup_same(t, bits, v);
    lemma_insert_siblings(t, bits, v);
    lemma_membership(t.insert(bits, v), bits, v);
}

/// An empty tree holds nothing.
pub proof fn lemma_empty(d: nat)
    ensures
        Subtree::Nulls(d).count() == 0,
        Subtree::Nulls(d).leaves() == Set::<nat>::empty(),
        Subtree::Nulls(d).hash() == null_hash(d),
        forall|bits: Seq<bool>| Subtree::Nulls(d).lookup(bits) is None,
{
    assert(Subtree::Nulls(d).leaves() =~= Set::<nat>::empty());
}

/// A second insertion at the same leaf changes nothing, whatever element it
/// brings.
pub proof fn lemma_insert_twice(t: Subtree, bits: Seq<bool>, v: nat, w: nat)
    requires
        t.balanced(),
        bits.len() >= t.depth() - 1,
    ensures
        t.insert(bits, v).lookup(bits) is Some,
        t.insert(bits, v).insert(bits, w) == t.insert(bits, v),
{
    if t.lookup(bits) is None {
        lemma_insert_lookup_same(t, bits, v);
    } else {
        lemma_insert_occupied(t, bits, v);
    }
    lemma_insert_occupied(t.insert(bits, v), bits, w);
}

/// After insertion at an empty leaf, the tree holds the elements that it
/// held and the new one.
pub proof fn lemma_insert_leaves(t: Subtree, bits: Seq<bool>, v: nat)
    requires
        t.balanced(),
        bits.len() == t.depth() - 1,
        t.lookup(bits) is None,
    ensures
        t.insert(bits, v).leaves() == t.leaves().insert(v),
{
    let after = t.insert(bits, v);
    lemma_insert_shape(t, bits, v);
    lemma_insert_lookup_same(t, bits, v);
    assert forall|x: nat| after.leaves().contains(x) implies t.leaves().insert(v).contains(x) by {
        let way = choose|way: Seq<bool>|
            way.len() == after.depth() - 1 && #[trigger] after.lookup(way) == Some(x);
        if way != bits {
            lemma_insert_lookup_other(t, bits, v, way);
            assert(t.lookup(way) == Some(x));
        }
    }
    assert forall|x: nat| t.leaves().insert(v).contains(x) implies after.leaves().contains(x) by {
        if x == v {
            assert(after.lookup(bits) == Some(x));
        } else {
            let way = choose|way: Seq<bool>|
                way.len() == t.depth() - 1 && #[trigger] t.lookup(way) == Some(x);
            lemma_insert_lookup_other(t, bits, v, way);
            assert(after.lookup(way) == Some(x));
        }
    }
    assert(after.leaves() =~= t.leaves().insert(v));
}

/// The tree after the elements have been inserted into `t` one after the
/// other, each at the leaf that its own lowest bits lead to.
pub open spec fn insert_all(t: Subtree, elements: Seq<nat>) -> Subtree
    decreases elements.len(),
{
    if elements.len() == 0 {
        t
    } else {
        insert_all(t, elements.drop_last()).insert(
            low_bits(elements.last(), (t.depth() - 1) as nat),
            elements.last(),
        )
    }
}

/// Each of the elements, inserted in turn into `t`, finds its leaf empty.
pub open spec fn all_find_room(t: Subtree, elements: Seq<nat>) -> bool
    decreases elements.len(),
{
    if elements.len() == 0 {
        true
    } else {
        &&& all_find_room(t, elements.drop_last())
        &&& insert_all(t, elements.drop_last()).lookup(
            low_bits(elements.last(), (t.depth() - 1) as nat),
        ) is None
    }
}

/// Inserting one element after the other keeps the depth and the balance.
pub proof fn lemma_insert_all_shape(t: Subtree, elements: Seq<nat>)
    requires
        t.balanced(),
    ensures
        insert_all(t, elements).balanced(),
        insert_all(t, elements).depth() == t.depth(),
    decreases elements.len(),
{
    if elements.len() > 0 {
        lemma_insert_all_shape(t, elements.drop_last());
        lemma_insert_shape(
            insert_all(t, elements.drop_last()),
            low_bits(elements.last(), (t.depth() - 1) as nat),
            elements.last(),
        );
    }
}

/// A tree that was empty and into which elements were inserted, each finding
/// its leaf empty, holds exactly these elements, each at its own leaf.
pub proof fn lemma_insert_all(d: nat, elements: Seq<nat>)
    requires
        all_find_room(Subtree::Nulls(d), elements),
    ensures
        insert_all(Subtree::Nulls(d), elements).leaves() == elements.to_set(),
        insert_all(Subtree::Nulls(d), elements).count() == elements.len(),
        forall|i: int|
            0 <= i < elements.len() ==> insert_all(Subtree::Nulls(d), elements).lookup(
                #[trigger] low_bits(elements[i], d),
            ) == Some(elements[i]),
    decreases elements.len(),
{
    let empty = Subtree::Nulls(d);
    let after = insert_all(empty, elements);
    if elements.len() == 0 {
        lemma_empty(d);
        assert(elements.to_set() =~= Set::<nat>::empty());
    } else {
        let earlier = elements.drop_last();
        let before = insert_all(empty, earlier);
        let v = elements.last();
        let bits = low_bits(v, d);
        lemma_insert_all(d, earlier);
        lemma_insert_all_shape(empty, earlier);
        lemma_insert_leaves(before, bits, v);
        lemma_insert_lookup_same(before, bits, v);
        assert(elements =~= earlier.push(v));
        assert(elements.to_set() =~= earlier.to_set().insert(v)) by {
            assert forall|x: nat| elements.to_set().contains(x) implies earlier.to_set().insert(
                v,
            ).contains(x) by {
                let i = choose|i: int| 0 <= i < elements.len() && elements[i] == x;
                if i < earlier.len() {
                    assert(earlier[i] == x);
                }
            }
            assert forall|x: nat| earlier.to_set().insert(v).contains(x) implies elements.to_set().contains(
                x,
            ) by {
                if x == v {
                    assert(elements[elements.len() - 1] == x);
                } else {
                    let i = choose|i: int| 0 <= i < earlier.len() && earlier[i] == x;
                    assert(elements[i] == x);
                }
            }
        }
        assert forall|i: int| 0 <= i < elements.len() implies after.lookup(
            #[trigger] low_bits(elements[i], d),
        ) == Some(elements[i]) by {
            if i < earlier.len() {
                let way = low_bits(earlier[i], d);
                assert(before.lookup(way) == Some(earlier[i]));
                lemma_insert_lookup_other(before, bits, v, way);
            }
        }
    }
}

/// The root hash of a complete tree depends on what its leaves hold, and on
/// nothing else.
pub proof fn lemma_merkle_root_of_same_leaves(
    height: nat,
    f: spec_fn(Seq<bool>) -> nat,
    g: spec_fn(Seq<bool>) -> nat,
)
    requires
        forall|way: Seq<bool>| way.len() == height ==> #[trigger] f(way) == g(way),
    ensures
        merkle_root(height, f) == merkle_root(height, g),
    decreases height,
{
    if height > 0 {
        let below = (height - 1) as nat;
        lemma_merkle_root_of_same_leaves(
            below,
            |way: Seq<bool>| f(seq![false] + way),
            |way: Seq<bool>| g(seq![false] + way),
        );
        lemma_merkle_root_of_same_leaves(
            below,
            |way: Seq<bool>| f(seq![true] + way),
            |way: Seq<bool>| g(seq![true] + way),
        );
    }
}

/// The root hash of a complete tree whose leaves all hold the null value is
/// a null hash.
pub proof fn lemma_merkle_root_of_nulls(height: nat, f: spec_fn(Seq<bool>) -> nat)
    requires
        forall|way: Seq<bool>| way.len() == height ==> #[trigger] f(way) == null_value(),
    ensures
        merkle_root(height, f) == null_hash(height),
    decreases height,
{
    if height > 0 {
        let below = (height - 1) as nat;
        lemma_merkle_root_of_nulls(below, |way: Seq<bool>| f(seq![false] + way));
        lemma_merkle_root_of_nulls(below, |way: Seq<bool>| f(seq![true] + way));
    }
}

/// Keeping the empty regions unexpanded changes no hash: the hash of a tree
/// is the root hash of the complete tree of its depth that holds the same
/// elements at the same leaves, and the null value at every other leaf.
pub proof fn lemma_hash_is_merkle_root(t: Subtree)
    requires
        t.balanced(),
    ensures
        t.hash() == merkle_root((t.depth() - 1) as nat, |way: Seq<bool>| t.leaf_value(way)),
    decreases t,
{
    let height = (t.depth() - 1) as nat;
    let leaf = |way: Seq<bool>| t.leaf_value(way);
    match t {
        Subtree::Leaf(_) => {},
        Subtree::Nulls(d) => {
            lemma_merkle_root_of_nulls(d, leaf);
        },
        Subtree::Parent(left, right) => {
            let below = (height - 1) as nat;
            lemma_hash_is_merkle_root(*left);
            lemma_hash_is_merkle_root(*right);
            assert forall|way: Seq<bool>| way.len() == below implies #[trigger] leaf(
                seq![false] + way,
            ) == left.leaf_value(way) by {
                assert((seq![false] + way).drop_first() =~= way);
            }
            assert forall|way: Seq<bool>| way.len() == below implies #[trigger] leaf(
                seq![true] + way,
            ) == right.leaf_value(way) by {
                assert((seq![true] + way).drop_first() =~= way);
            }
            lemma_merkle_root_of_same_leaves(
                below,
                |way: Seq<bool>| leaf(seq![false] + way),
                |way: Seq<bool>| left.leaf_value(way),
            );
            lemma_merkle_root_of_same_leaves(
                below,
                |way: Seq<bool>| leaf(seq![true] + way),
                |way: Seq<bool>| right.leaf_value(way),
            );
        },
    }
}

} // verus!
