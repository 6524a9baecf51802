//! The tree as a mathematical object: what a subtree holds, what its hash is,
//! and which hashes lie beside the way to a leaf.

use crate::element::null_value;
use crate::hash::{null_hash, poseidon_merge};
use vstd::prelude::*;

verus! {

/// A subtree. Element values are held as the numbers that represent them.
pub enum Subtree {
    /// An occupied leaf.
    Leaf(nat),
    /// `Nulls(d)` is an empty subtree with `2^d` leaves, none of them
    /// occupied; `Nulls(0)` is an empty leaf.
    Nulls(nat),
    /// An inner node with its left and right child.
    Parent(Box<Subtree>, Box<Subtree>),
}

impl Subtree {
    /// The number of levels, a single leaf having depth 1. It is measured
    /// along the leftmost branch.
    pub open spec fn depth(self) -> nat
        decreases self,
    {
        match self {
            Subtree::Leaf(_) => 1,
            Subtree::Nulls(d) => d + 1,
            Subtree::Parent(left, _) => left.depth() + 1,
        }
    }

    /// Both children of every inner node have the same depth.
    pub open spec fn balanced(self) -> bool
        decreases self,
    {
        match self {
            Subtree::Leaf(_) => true,
            Subtree::Nulls(_) => true,
            Subtree::Parent(left, right) => {
                &&& left.balanced()
                &&& right.balanced()
                &&& left.depth() == right.depth()
            },
        }
    }

    /// The Merkle hash: a leaf hashes to its element, an empty subtree to its
    /// null hash, an inner node to the merge of its children's hashes.
    pub open spec fn hash(self) -> nat
        decreases self,
    {
        match self {
            Subtree::Leaf(v) => v,
            Subtree::Nulls(d) => null_hash(d),
            Subtree::Parent(left, right) => poseidon_merge(left.hash(), right.hash()),
        }
    }

    /// The number of occupied leaves.
    pub open spec fn count(self) -> nat
        decreases self,
    {
        match self {
            Subtree::Leaf(_) => 1,
            Subtree::Nulls(_) => 0,
            Subtree::Parent(left, right) => left.count() + right.count(),
        }
    }

    /// The element at the end of the way that `bits` describes from the root
    /// down, `false` for left and `true` for right, if that leaf is occupied.
    /// Bits beyond the leaf are not read.
    pub open spec fn lookup(self, bits: Seq<bool>) -> Option<nat>
        decreases self,
    {
        match self {
            Subtree::Leaf(v) => Some(v),
            Subtree::Nulls(_) => None,
            Subtree::Parent(left, right) => if bits.len() == 0 {
                None
            } else if bits[0] {
                right.lookup(bits.drop_first())
            } else {
                left.lookup(bits.drop_first())
            },
        }
    }

    /// The subtree with `2^d` leaves of which only the one at `bits` is
    /// occupied, by `v`. Empty regions stay unexpanded.
    pub open spec fn single(d: nat, bits: Seq<bool>, v: nat) -> Subtree
        decreases d,
    {
        if d == 0 {
            Subtree::Leaf(v)
        } else if bits.len() > 0 && bits[0] {
            Subtree::Parent(
                Box::new(Subtree::Nulls((d - 1) as nat)),
                Box::new(Subtree::single((d - 1) as nat, bits.drop_first(), v)),
            )
        } else {
            Subtree::Parent(
                Box::new(Subtree::single((d - 1) as nat, bits.drop_first(), v)),
                Box::new(Subtree::Nulls((d - 1) as nat)),
            )
        }
    }

    /// The subtree after `v` has been put at the leaf at `bits`. Where that
    /// leaf is occupied already, the subtree stays as it is.
    pub open spec fn insert(self, bits: Seq<bool>, v: nat) -> Subtree
        decreases self,
    {
        match self {
            Subtree::Leaf(_) => self,
            Subtree::Nulls(d) => Subtree::single(d, bits, v),
            Subtree::Parent(left, right) => if bits.len() == 0 {
                self
            } else if bits[0] {
                Subtree::Parent(left, Box::new(right.insert(bits.drop_first(), v)))
            } else {
                Subtree::Parent(Box::new(left.insert(bits.drop_first(), v)), right)
            },
        }
    }

    /// The hashes of the siblings along the way to the leaf at `bits`, from
    /// the leaf's sibling up to the child of the root.
    pub open spec fn siblings(self, bits: Seq<bool>) -> Seq<nat>
        decreases self,
    {
        match self {
            Subtree::Leaf(_) => Seq::empty(),
            Subtree::Nulls(d) => Seq::new(d, |i: int| null_hash(i as nat)),
            Subtree::Parent(left, right) => if bits.len() == 0 {
                Seq::empty()
            } else if bits[0] {
                right.siblings(bits.drop_first()).push(left.hash())
            } else {
                left.siblings(bits.drop_first()).push(right.hash())
            },
        }
    }

    /// What the leaf at `bits` counts as in the hash: its element, or the
    /// null value if it is empty.
    pub open spec fn leaf_value(self, bits: Seq<bool>) -> nat {
        match self.lookup(bits) {
            Some(v) => v,
            None => null_value(),
        }
    }

    /// The elements at the occupied leaves.
    pub open spec fn leaves(self) -> Set<nat> {
        Set::new(
            |v: nat|
                exists|bits: Seq<bool>|
                    bits.len() == self.depth() - 1 && #[trigger] self.lookup(bits) == Some(v),
        )
    }
}

/// The root hash of the complete tree with `2^height` leaves, in which the
/// leaf at the end of `way` holds `leaf(way)`.
pub open spec fn merkle_root(height: nat, leaf: spec_fn(Seq<bool>) -> nat) -> nat
    decreases height,
{
    if height == 0 {
        leaf(Seq::empty())
    } else {
        poseidon_merge(
            merkle_root((height - 1) as nat, |way: Seq<bool>| leaf(seq![false] + way)),
            merkle_root((height - 1) as nat, |way: Seq<bool>| leaf(seq![true] + way)),
        )
    }
}

/// The root that results from `start` at a leaf and the sibling hashes beside
/// the way up. `siblings` runs from the leaf upwards, `bits` from the root
/// downwards: the first bit goes with the last sibling. A `false` bit puts the
/// hash so far on the left of its sibling, a `true` bit on the right.
pub open spec fn climb(start: nat, siblings: Seq<nat>, bits: Seq<bool>) -> nat
    decreases siblings.len(),
{
    if siblings.len() == 0 || bits.len() == 0 {
        start
    } else {
        let below = climb(start, siblings.drop_last(), bits.drop_first());
        if bits[0] {
            poseidon_merge(siblings.last(), below)
        } else {
            poseidon_merge(below, siblings.last())
        }
    }
}

} // verus!
