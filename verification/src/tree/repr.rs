//! The nodes of the tree as they are held in memory: empty regions are kept
//! as a single node, and every inner node carries its hash.

use crate::element::Element;
use crate::hash::{hash_merge, is_null_table, null_hash, poseidon_merge, MAX_DEPTH};
use crate::tree::laws::lemma_insert_shape;
use crate::tree::model::Subtree;
use vstd::prelude::*;
use vstd::slice::slice_subrange;

verus! {

/// The leaf that an insertion aims at holds an element already.
#[derive(Debug, Clone, Copy, PartialEq, Eq, Structural)]
pub struct OccupiedSlot;

/// A subtree as it is held in memory.
#[derive(Debug, PartialEq, Eq)]
pub enum Node {
    /// An occupied leaf.
    Leaf(Element),
    /// `Nulls(d)` is an empty subtree with `2^d` leaves, held without its
    /// children; `Nulls(0)` is an empty leaf.
    Nulls(usize),
    /// An inner node. `hash` is the merge of the hashes of `left` and `right`.
    Parent { left: Box<Node>, right: Box<Node>, hash: Element },
}

impl Clone for Node {
    fn clone(&self) -> (copy: Self)
        ensures
            copy == *self,
        decreases self,
    {
        match self {
            Node::Leaf(element) => Node::Leaf(*element),
            Node::Nulls(d) => Node::Nulls(*d),
            Node::Parent { left, right, hash } => Node::Parent {
                left: Box::new((&**left).clone()),
                right: Box::new((&**right).clone()),
                hash: *hash,
            },
        }
    }
}

impl View for Node {
    type V = Subtree;

    open spec fn view(&self) -> Subtree {
        self.model()
    }
}

impl Node {
    /// The subtree that this node stands for: its shape and its elements,
    /// without the hashes that the inner nodes carry.
    pub open spec fn model(&self) -> Subtree
        decreases self,
    {
        match self {
            Node::Leaf(element) => Subtree::Leaf(element@),
            Node::Nulls(d) => Subtree::Nulls(*d as nat),
            Node::Parent { left, right, .. } => Subtree::Parent(
                Box::new(left.model()),
                Box::new(right.model()),
            ),
        }
    }

    /// The node is valid: no subtree is deeper than the table of null hashes
    /// reaches, the children of an inner node have the same depth, and the
    /// hash that an inner node carries is the merge of its children's hashes.
    pub open spec fn wf(&self) -> bool
        decreases self,
    {
        match self {
            Node::Leaf(_) => true,
            Node::Nulls(d) => *d < MAX_DEPTH,
            Node::Parent { left, right, hash } => {
                &&& left.wf()
                &&& right.wf()
                &&& left@.depth() == right@.depth()
                &&& left@.depth() < MAX_DEPTH
                &&& hash@ == poseidon_merge(left@.hash(), right@.hash())
            },
        }
    }

    /// A valid node is balanced and not deeper than the table reaches.
    pub proof fn lemma_wf(&self)
        requires
            self.wf(),
        ensures
            self@.balanced(),
            1 <= self@.depth() <= MAX_DEPTH,
        decreases self,
    {
        match self {
            Node::Leaf(_) => {},
            Node::Nulls(_) => {},
            Node::Parent { left, right, .. } => {
                left.lemma_wf();
                right.lemma_wf();
            },
        }
    }

    /// An empty subtree of the given depth.
    pub fn new(depth: usize) -> (node: Node)
        requires
            depth >= 1,
        ensures
            node == Node::Nulls((depth - 1) as usize),
            node@.depth() == depth,
            node@.count() == 0,
            depth <= MAX_DEPTH ==> node.wf(),
    {
        Node::Nulls(depth - 1)
    }

    /// The hash of this node. That of an empty subtree is read from the
    /// table of null hashes.
    pub fn hash(&self, table: &Vec<Element>) -> (hash: Element)
        requires
            self.wf(),
            is_null_table(table@),
        ensures
            hash@ == self@.hash(),
    {
        match self {
            Node::Leaf(element) => *element,
            Node::Parent { hash, .. } => *hash,
            Node::Nulls(d) => table[*d],
        }
    }

    /// Puts `element` at the leaf that `bits` leads to, `false` for left and
    /// `true` for right. Empty regions on the way are expanded, and the
    /// hashes on the way are brought up to date. Fails, and changes nothing,
    /// if the leaf is occupied.
    pub fn insert(&mut self, bits: &[bool], element: Element, table: &Vec<Element>) -> (result:
        Result<(), OccupiedSlot>)
        requires
            old(self).wf(),
            is_null_table(table@),
            bits@.len() >= old(self)@.depth() - 1,
        ensures
            final(self).wf(),
            final(self)@ == old(self)@.insert(bits@, element@),
            result is Ok <==> old(self)@.lookup(bits@) is None,
            result is Err ==> *final(self) == *old(self),
        decreases old(self)@.depth(), (if *old(self) is Nulls { 1nat } else { 0nat }),
    {
        match self {
            Node::Leaf(_) => Err(OccupiedSlot),
            Node::Parent { left, right, hash } => {
                let tail = slice_subrange(bits, 1, bits.len());
                let ghost old_left = **left;
                let ghost old_right = **right;
                proof {
                    assert(tail@ == bits@.drop_first());
                    old_left.lemma_wf();
                    old_right.lemma_wf();
                    lemma_insert_shape(old_left@, tail@, element@);
                    lemma_insert_shape(old_right@, tail@, element@);
                }
                let result = if bits[0] {
                    right.insert(tail, element, table)
                } else {
                    left.insert(tail, element, table)
                };
                if result.is_ok() {
                    *hash = hash_merge(left.hash(table), right.hash(table));
                }
                result
            },
            Node::Nulls(d) => {
                let d: usize = *d;
                if d == 0 {
                    *self = Node::Leaf(element);
                    Ok(())
                } else {
                    *self = Node::Parent {
                        left: Box::new(Node::Nulls(d - 1)),
                        right: Box::new(Node::Nulls(d - 1)),
                        hash: table[d],
                    };
                    proof {
                        let child = Node::Nulls((d - 1) as usize);
                        let below = Subtree::Nulls((d - 1) as nat);
                        let tail = bits@.drop_first();
                        assert(child.wf() && child@ == below);
                        assert(below.depth() == d && below.hash() == null_hash((d - 1) as nat));
                        assert(null_hash(d as nat) == poseidon_merge(below.hash(), below.hash()));
                        assert(self@ == Subtree::Parent(Box::new(below), Box::new(below)));
                        assert(self@.depth() == d + 1);
                        assert(self.wf());
                        assert(below.lookup(tail) is None);
                        assert(self@.lookup(bits@) is None);
                        assert(below.insert(tail, element@) == Subtree::single(
                            (d - 1) as nat,
                            tail,
                            element@,
                        ));
                        assert(self@.insert(bits@, element@) == old(self)@.insert(bits@, element@));
                    }
                    self.insert(bits, element, table)
                }
            },
        }
    }

    /// The number of levels of this node, a single leaf having depth 1.
    pub fn depth(&self) -> (depth: usize)
        requires
            self.wf(),
        ensures
            depth == self@.depth(),
        decreases self,
    {
        match self {
            Node::Leaf(_) => 1,
            Node::Nulls(d) => *d + 1,
            Node::Parent { left, .. } => left.depth() + 1,
        }
    }
}

} // verus!
