//! The sparse Merkle tree: a set of elements, each at the leaf that its own
//! lowest bits lead to.

pub mod iter;
pub mod laws;
pub mod model;
pub mod path;
pub mod repr;

use crate::element::{low_bits, values, Element};
use crate::hash::{hash_table, is_null_table, MAX_DEPTH};
use crate::tree::laws::{
    lemma_insert_leaves, lemma_insert_lookup_other, lemma_insert_lookup_same, lemma_insert_occupied,
    lemma_insert_shape,
};
use crate::tree::model::Subtree;
use crate::tree::repr::{Node, OccupiedSlot};
use std::collections::HashMap;
use vstd::arithmetic::power2::{
    lemma2_to64, lemma2_to64_rest, lemma_pow2_adds, lemma_pow2_strictly_increases, pow2,
};
use vstd::prelude::*;

verus! {

broadcast use vstd::std_specs::hash::group_hash_axioms;

/// The number of the leaf that `bits` leads to, counted from the left: the
/// number whose binary digits, most significant first, are `bits`.
spec fn slot(bits: Seq<bool>) -> nat
    decreases bits.len(),
{
    if bits.len() == 0 {
        0
    } else {
        2 * slot(bits.drop_last()) + if bits.last() {
            1nat
        } else {
            0nat
        }
    }
}

/// A leaf number has as many binary digits as the way to the leaf has bits.
proof fn lemma_slot_bound(bits: Seq<bool>)
    ensures
        slot(bits) < pow2(bits.len()),
    decreases bits.len(),
{
    if bits.len() == 0 {
        lemma2_to64();
    } else {
        lemma_slot_bound(bits.drop_last());
        lemma_pow2_adds(1, (bits.len() - 1) as nat);
        lemma2_to64();
    }
}

/// The number of a leaf of a tree of no more than the greatest depth fits
/// in 127 bits.
proof fn lemma_slot_fits(bits: Seq<bool>)
    requires
        bits.len() < MAX_DEPTH,
    ensures
        slot(bits) < 0x8000_0000_0000_0000_0000_0000_0000_0000,
{
    lemma_slot_bound(bits);
    if bits.len() < 127 {
        lemma_pow2_strictly_increases(bits.len(), 127);
    }
    lemma_pow2_adds(64, 63);
    lemma2_to64();
    lemma2_to64_rest();
    assert(pow2(127) == 0x8000_0000_0000_0000_0000_0000_0000_0000) by (nonlinear_arith)
        requires
            pow2(127) == pow2(64) * pow2(63),
            pow2(64) == 0x1_0000_0000_0000_0000,
            pow2(63) == 0x8000_0000_0000_0000,
    ;
}

/// Two ways of the same length that lead to the leaf of the same number are
/// the same way.
proof fn lemma_slot_injective(a: Seq<bool>, b: Seq<bool>)
    requires
        a.len() == b.len(),
        slot(a) == slot(b),
    ensures
        a == b,
    decreases a.len(),
{
    if a.len() > 0 {
        lemma_slot_injective(a.drop_last(), b.drop_last());
        assert(a.last() == b.last());
        assert(a =~= a.drop_last().push(a.last()));
        assert(b =~= b.drop_last().push(b.last()));
    } else {
        assert(a =~= b);
    }
}

/// Computes the number of the leaf that `bits` leads to.
fn slot_of(bits: &Vec<bool>) -> (key: u128)
    requires
        bits@.len() < MAX_DEPTH,
    ensures
        key == slot(bits@),
{
    let mut key: u128 = 0;
    let mut i: usize = 0;
    while i < bits.len()
        invariant
            i <= bits@.len() < MAX_DEPTH,
            key == slot(bits@.take(i as int)),
        decreases bits@.len() - i,
    {
        proof {
            let prefix = bits@.take(i as int);
            lemma_slot_fits(prefix);
            assert(bits@.take(i + 1).drop_last() =~= prefix);
        }
        key = key * 2 + if bits[i] {
            1
        } else {
            0
        };
        i += 1;
    }
    assert(bits@.take(i as int) =~= bits@);
    key
}

/// A sparse Merkle tree of depth `N`: the root is at level 1, the `2^(N-1)`
/// leaves at level `N`.
#[derive(Debug, Clone, PartialEq, Eq)]
pub struct Tree<const N: usize> {
    /// The nodes, from the root down.
    tree_repr: Node,
    /// The elements by the number of their leaf.
    nodes: HashMap<u128, Element>,
    /// The hashes of the empty subtrees.
    nulls: Vec<Element>,
}

impl<const N: usize> View for Tree<N> {
    type V = Subtree;

    /// The tree as a mathematical object.
    closed spec fn view(&self) -> Subtree {
        self.tree_repr@
    }
}

impl<const N: usize> Tree<N> {
    /// The way from the root to the leaf of an element: the `N - 1` lowest
    /// bits of its representative, most significant first.
    pub open spec fn path_of(element: nat) -> Seq<bool> {
        low_bits(element, (N - 1) as nat)
    }

    /// The element that the index holds for the leaf at `bits`, if any.
    spec fn indexed(&self, bits: Seq<bool>) -> Option<nat> {
        let key = slot(bits) as u128;
        if self.nodes@.contains_key(key) {
            Some(self.nodes@[key]@)
        } else {
            None
        }
    }

    /// The tree is valid: its nodes are, its depth is `N`, and the index
    /// holds exactly the occupied leaves, each under the number of its leaf.
    pub closed spec fn wf(&self) -> bool {
        &&& 1 <= N <= MAX_DEPTH
        &&& self.tree_repr.wf()
        &&& self.tree_repr@.depth() == N
        &&& is_null_table(self.nulls@)
        &&& self.nodes@.len() == self.tree_repr@.count()
        &&& forall|bits: Seq<bool>|
            bits.len() == N - 1 ==> #[trigger] self.tree_repr@.lookup(bits) == self.indexed(bits)
        &&& forall|key: u128| #[trigger]
            self.nodes@.contains_key(key) ==> exists|bits: Seq<bool>|
                bits.len() == N - 1 && #[trigger] slot(bits) == key
        &&& self.placed()
    }

    /// Every element is at the leaf that its own lowest bits lead to.
    pub open spec fn placed(&self) -> bool {
        forall|bits: Seq<bool>|
            bits.len() == N - 1 ==> (#[trigger] self@.lookup(bits) matches Some(v) ==> Self::path_of(
                v,
            ) == bits)
    }

    /// A valid tree is balanced and has depth `N`.
    pub proof fn lemma_wf(&self)
        requires
            self.wf(),
        ensures
            1 <= N <= MAX_DEPTH,
            self@.balanced(),
            self@.depth() == N,
            self.placed(),
    {
        self.tree_repr.lemma_wf();
    }

    /// A sequence that holds each entry of the index once, holds the
    /// elements at the occupied leaves, each once.
    proof fn lemma_index_values(&self, entries: Seq<(u128, Element)>)
        requires
            self.wf(),
            entries.no_duplicates(),
            forall|j: int|
                0 <= j < entries.len() ==> self.nodes@.contains_key((#[trigger] entries[j]).0)
                    && self.nodes@[entries[j].0] == entries[j].1,
            forall|key: u128| #[trigger]
                self.nodes@.contains_key(key) ==> entries.contains((key, self.nodes@[key])),
        ensures
            values(entries.map_values(|entry: (u128, Element)| entry.1)).to_set()
                == self@.leaves(),
            values(entries.map_values(|entry: (u128, Element)| entry.1)).no_duplicates(),
    {
        self.tree_repr.lemma_wf();
        let held = values(entries.map_values(|entry: (u128, Element)| entry.1));
        assert forall|v: nat| held.to_set().contains(v) implies self@.leaves().contains(v) by {
            let j = choose|j: int| 0 <= j < held.len() && held[j] == v;
            let key = entries[j].0;
            let bits = choose|bits: Seq<bool>| bits.len() == N - 1 && #[trigger] slot(bits) == key;
            assert(self.tree_repr@.lookup(bits) == self.indexed(bits));
        }
        assert forall|v: nat| self@.leaves().contains(v) implies held.to_set().contains(v) by {
            let bits = choose|bits: Seq<bool>|
                bits.len() == self@.depth() - 1 && #[trigger] self@.lookup(bits) == Some(v);
            assert(self.tree_repr@.lookup(bits) == self.indexed(bits));
            lemma_slot_fits(bits);
            let key = slot(bits) as u128;
            let j = choose|j: int|
                0 <= j < entries.len() && entries[j] == (key, self.nodes@[key]);
            assert(held[j] == v);
        }
        assert(held.to_set() =~= self@.leaves());
        assert forall|i: int, j: int| 0 <= i < held.len() && 0 <= j < held.len() && i != j implies
            held[i] != held[j] by {
            let (a, b) = (entries[i].0, entries[j].0);
            let way_a = choose|bits: Seq<bool>| bits.len() == N - 1 && #[trigger] slot(bits) == a;
            let way_b = choose|bits: Seq<bool>| bits.len() == N - 1 && #[trigger] slot(bits) == b;
            assert(self.tree_repr@.lookup(way_a) == self.indexed(way_a));
            assert(self.tree_repr@.lookup(way_b) == self.indexed(way_b));
            if held[i] == held[j] {
                assert(way_a == way_b);
                assert(entries[i] == entries[j]);
            }
        }
    }

    /// Create a new, empty tree. The table of null hashes is computed for it.
    pub fn new() -> (tree: Self)
        requires
            1 <= N <= MAX_DEPTH,
        ensures
            tree.wf(),
            tree@ == Subtree::Nulls((N - 1) as nat),
    {
        Self::with_table(hash_table())
    }

    /// Create a new, empty tree that reads the null hashes from `nulls`, a
    /// table that was computed before.
    pub fn with_table(nulls: Vec<Element>) -> (tree: Self)
        requires
            1 <= N <= MAX_DEPTH,
            is_null_table(nulls@),
        ensures
            tree.wf(),
            tree@ == Subtree::Nulls((N - 1) as nat),
            tree.null_hashes() == nulls@,
    {
        let tree = Tree { tree_repr: Node::new(N), nodes: HashMap::new(), nulls };
        assert(tree.nodes@.len() == 0);
        tree
    }

    /// The table that this tree reads the hashes of its empty subtrees from.
    pub closed spec fn null_hashes(&self) -> Seq<Element> {
        self.nulls@
    }

    /// The table of a valid tree holds the null hashes.
    pub proof fn lemma_null_hashes(&self)
        requires
            self.wf(),
        ensures
            is_null_table(self.null_hashes()),
    {
    }

    /// The number of elements in the tree.
    pub fn len(&self) -> (len: usize)
        requires
            self.wf(),
        ensures
            len == self@.count(),
    {
        self.nodes.len()
    }

    /// Returns `true` if the tree contains no elements.
    pub fn is_empty(&self) -> (empty: bool)
        requires
            self.wf(),
        ensures
            empty == (self@.count() == 0),
    {
        self.nodes.len() == 0
    }

    /// The root hash of this tree.
    pub fn root_hash(&self) -> (hash: Element)
        requires
            self.wf(),
        ensures
            hash@ == self@.hash(),
    {
        self.tree_repr.hash(&self.nulls)
    }

    /// Whether the leaf of `element` is occupied. The answer is read from
    /// the index, without a walk through the nodes.
    pub fn contains(&self, element: Element) -> (found: bool)
        requires
            self.wf(),
        ensures
            found == self@.lookup(Self::path_of(element@)) is Some,
    {
        let bits = Self::bits_for_element(element);
        let key = slot_of(&bits);
        assert(self.tree_repr@.lookup(bits@) == self.indexed(bits@));
        self.nodes.contains_key(&key)
    }

    /// Insert an element into the tree, at the leaf that its lowest bits lead
    /// to. Fails, and changes nothing, if that leaf is occupied.
    pub fn insert(&mut self, element: Element) -> (result: Result<(), OccupiedSlot>)
        requires
            old(self).wf(),
        ensures
            final(self).wf(),
            final(self)@ == old(self)@.insert(Self::path_of(element@), element@),
            result is Ok <==> old(self)@.lookup(Self::path_of(element@)) is None,
            result is Err ==> final(self)@ == old(self)@,
            result is Ok ==> {
                &&& final(self)@.lookup(Self::path_of(element@)) == Some(element@)
                &&& final(self)@.count() == old(self)@.count() + 1
                &&& final(self)@.leaves() == old(self)@.leaves().insert(element@)
            },
    {
        let bits = Self::bits_for_element(element);
        let key = slot_of(&bits);
        let ghost before = *self;
        proof {
            self.tree_repr.lemma_wf();
            assert(before.tree_repr@.lookup(bits@) == before.indexed(bits@));
        }
        let result = self.tree_repr.insert(bits.as_slice(), element, &self.nulls);
        if result.is_ok() {
            self.nodes.insert(key, element);
            proof {
                lemma_insert_lookup_same(before.tree_repr@, bits@, element@);
                lemma_insert_leaves(before.tree_repr@, bits@, element@);
                lemma_insert_shape(before.tree_repr@, bits@, element@);
                assert forall|other: Seq<bool>| other.len() == N - 1 implies #[trigger]
                    self.tree_repr@.lookup(other) == self.indexed(other) by {
                    assert(before.tree_repr@.lookup(other) == before.indexed(other));
                    if other != bits@ {
                        lemma_insert_lookup_other(before.tree_repr@, bits@, element@, other);
                        if slot(other) == slot(bits@) {
                            lemma_slot_injective(other, bits@);
                        }
                        lemma_slot_fits(other);
                        lemma_slot_fits(bits@);
                    }
                }
                assert forall|other: Seq<bool>| other.len() == N - 1 implies (
                #[trigger] self@.lookup(other) matches Some(v) ==> Self::path_of(v) == other) by {
                    if other != bits@ {
                        lemma_insert_lookup_other(before.tree_repr@, bits@, element@, other);
                        assert(before@.lookup(other) == self@.lookup(other));
                    }
                }
                assert forall|k: u128| #[trigger] self.nodes@.contains_key(k) implies exists|
                    way: Seq<bool>,
                | way.len() == N - 1 && #[trigger] slot(way) == k by {
                    if k == key {
                        assert(bits@.len() == N - 1 && slot(bits@) == k);
                    } else {
                        assert(before.nodes@.contains_key(k));
                    }
                }
            }
        } else {
            proof {
                lemma_insert_occupied(before.tree_repr@, bits@, element@);
            }
        }
        result
    }

    /// The way from the root to the leaf of `element`.
    fn bits_for_element(element: Element) -> (bits: Vec<bool>)
        requires
            1 <= N <= MAX_DEPTH,
        ensures
            bits@ == Self::path_of(element@),
            bits@.len() == N - 1,
    {
        element.least_significant_bits(N - 1)
    }
}

} // verus!
