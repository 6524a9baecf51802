//! The path of an element: the hashes of the siblings beside the way from
//! its leaf to the root, from which the root hash can be computed again.

use crate::element::{null_value, values, Element};
use crate::hash::{hash_merge, null_hash, MAX_DEPTH};
use crate::tree::laws::{lemma_membership, lemma_non_membership, lemma_siblings_len};
use crate::tree::model::climb;
use crate::tree::repr::Node;
use crate::tree::Tree;
use vstd::prelude::*;

verus! {

/// What a path holds.
pub struct PathView {
    /// The hashes of the siblings, from the leaf's sibling up to the child of
    /// the root.
    pub siblings: Seq<nat>,
    /// The way from the root down to the leaf, `false` for left and `true`
    /// for right.
    pub bits: Seq<bool>,
}

/// The path to one leaf of a tree of depth `N`.
#[derive(Debug, Clone, PartialEq, Eq)]
pub struct Path<const N: usize> {
    /// The siblings that form the hash, from the leaf upwards.
    pub(crate) siblings: Vec<Element>,
    /// The way from the root to the leaf.
    pub(crate) bits: Vec<bool>,
}

impl<const N: usize> View for Path<N> {
    type V = PathView;

    closed spec fn view(&self) -> PathView {
        PathView { siblings: values(self.siblings@), bits: self.bits@ }
    }
}

/// The elements of `v` in the opposite order.
fn reversed(v: &Vec<Element>) -> (r: Vec<Element>)
    ensures
        r@ == v@.reverse(),
{
    let n = v.len();
    let mut r: Vec<Element> = Vec::with_capacity(n);
    let mut i: usize = 0;
    while i < n
        invariant
            n == v@.len(),
            i <= n,
            r@.len() == i,
            forall|j: int| 0 <= j < i ==> r@[j] == v@[n - 1 - j],
        decreases n - i,
    {
        r.push(v[n - 1 - i]);
        i += 1;
    }
    assert(r@ =~= v@.reverse());
    r
}

impl<const N: usize> Tree<N> {
    /// The path to the leaf of `element`, whether that leaf is occupied or
    /// not. Below an empty region the siblings are null hashes, which are
    /// read from the table.
    pub fn path_for(&self, element: Element) -> (path: Path<N>)
        requires
            self.wf(),
        ensures
            path.wf(),
            path@.bits == Self::path_of(element@),
            path@.siblings == self@.siblings(Self::path_of(element@)),
            // membership: from the element at the leaf, the path leads to the root hash
            self@.lookup(Self::path_of(element@)) matches Some(held) ==> climb(
                held,
                path@.siblings,
                path@.bits,
            ) == self@.hash(),
            // non-membership: so it does from the null value, if the leaf is empty
            self@.lookup(Self::path_of(element@)) is None ==> climb(
                null_value(),
                path@.siblings,
                path@.bits,
            ) == self@.hash(),
    {
        proof {
            self.lemma_wf();
            let way = Self::path_of(element@);
            match self@.lookup(way) {
                Some(held) => lemma_membership(self@, way, held),
                None => lemma_non_membership(self@, way),
            }
        }
        let bits = Self::bits_for_element(element);
        let mut current_node = &self.tree_repr;
        let mut siblings: Vec<Element> = Vec::with_capacity(N);
        let ghost all = self.tree_repr@.siblings(bits@);
        let mut i: usize = 0;
        proof {
            assert(bits@.skip(0) =~= bits@);
            assert(all + values(siblings@).reverse() =~= all);
        }
        while i < bits.len()
            invariant
                self.wf(),
                bits@.len() == N - 1,
                i <= bits@.len(),
                current_node.wf(),
                current_node@.depth() + i == N,
                all == current_node@.siblings(bits@.skip(i as int)) + values(siblings@).reverse(),
            ensures
                !(current_node is Parent),
                i <= bits@.len(),
                current_node.wf(),
                current_node@.depth() + i == N,
                all == current_node@.siblings(bits@.skip(i as int)) + values(siblings@).reverse(),
            decreases bits@.len() - i,
        {
            let ghost rest = bits@.skip(i as int);
            let ghost above = values(siblings@).reverse();
            match current_node {
                Node::Parent { left, right, .. } => {
                    proof {
                        left.lemma_wf();
                        right.lemma_wf();
                        assert(rest[0] == bits@[i as int]);
                        assert(rest.drop_first() =~= bits@.skip(i + 1));
                    }
                    if bits[i] {
                        let sibling = left.hash(&self.nulls);
                        siblings.push(sibling);
                        current_node = right;
                        proof {
                            let below = right@.siblings(bits@.skip(i + 1));
                            assert(values(siblings@).reverse() =~= seq![sibling@] + above);
                            assert(below.push(sibling@) + above =~= below + (seq![sibling@]
                                + above));
                        }
                    } else {
                        let sibling = right.hash(&self.nulls);
                        siblings.push(sibling);
                        current_node = left;
                        proof {
                            let below = left@.siblings(bits@.skip(i + 1));
                            assert(values(siblings@).reverse() =~= seq![sibling@] + above);
                            assert(below.push(sibling@) + above =~= below + (seq![sibling@]
                                + above));
                        }
                    }
                    i += 1;
                },
                _ => {
                    break ;
                },
            }
        }
        proof {
            current_node.lemma_wf();
        }
        match current_node {
            Node::Nulls(n) => {
                let ghost above = values(siblings@).reverse();
                let mut k: usize = *n;
                while k > 0
                    invariant
                        self.wf(),
                        k <= *n < MAX_DEPTH,
                        values(siblings@).reverse() == Seq::new(
                            (*n - k) as nat,
                            |j: int| null_hash((k + j) as nat),
                        ) + above,
                    decreases k,
                {
                    let ghost before = values(siblings@).reverse();
                    k -= 1;
                    let sibling = self.null_hash_at(k);
                    siblings.push(sibling);
                    proof {
                        assert(values(siblings@).reverse() =~= seq![sibling@] + before);
                        assert(seq![sibling@] + (Seq::new(
                            (*n - k - 1) as nat,
                            |j: int| null_hash((k + 1 + j) as nat),
                        ) + above) =~= Seq::new(
                            (*n - k) as nat,
                            |j: int| null_hash((k + j) as nat),
                        ) + above);
                    }
                }
                assert(Seq::new(*n as nat, |j: int| null_hash((0 + j) as nat)) =~= Seq::new(
                    *n as nat,
                    |j: int| null_hash(j as nat),
                ));
            },
            _ => {},
        }
        let siblings = reversed(&siblings);
        proof {
            assert(values(siblings@) =~= all);
            lemma_siblings_len(self.tree_repr@, bits@);
        }
        Path { siblings, bits }
    }

    /// The hash of the empty subtree with `2^d` leaves.
    fn null_hash_at(&self, d: usize) -> (hash: Element)
        requires
            self.wf(),
            d < MAX_DEPTH,
        ensures
            hash@ == null_hash(d as nat),
    {
        self.nulls[d]
    }
}

impl<const N: usize> Path<N> {
    /// The path has a sibling and a bit for each level below the root.
    pub open spec fn wf(&self) -> bool {
        &&& self@.siblings.len() == N - 1
        &&& self@.bits.len() == N - 1
    }

    /// The hashes of the siblings, from the leaf's sibling up to the child of
    /// the root.
    pub fn siblings(&self) -> (siblings: &Vec<Element>)
        ensures
            values(siblings@) == self@.siblings,
    {
        &self.siblings
    }

    /// The way from the root down to the leaf, `false` for left and `true`
    /// for right.
    pub fn bits(&self) -> (bits: &Vec<bool>)
        ensures
            bits@ == self@.bits,
    {
        &self.bits
    }

    /// The root that this path leads to from `element` at its leaf: the
    /// element is merged with one sibling after the other, on the side that
    /// the bit of the level tells. With the element of an occupied leaf this
    /// is the root hash of the tree; with the null value it is the root hash
    /// if the leaf is empty.
    pub fn compute_root(&self, element: Element) -> (root: Element)
        requires
            self.wf(),
        ensures
            root@ == climb(element@, self@.siblings, self@.bits),
    {
        let n = self.siblings.len();
        let mut root = element;
        let mut i: usize = 0;
        while i < n
            invariant
                n == self.siblings@.len(),
                n == self.bits@.len(),
                i <= n,
                root@ == climb(element@, self@.siblings.take(i as int), self@.bits.skip(n - i)),
            decreases n - i,
        {
            let sibling = self.siblings[i];
            proof {
                let upto = self@.siblings.take(i + 1);
                let from = self@.bits.skip(n - i - 1);
                assert(upto.drop_last() =~= self@.siblings.take(i as int));
                assert(from.drop_first() =~= self@.bits.skip(n - i));
                assert(upto.last() == sibling@);
                assert(from[0] == self.bits@[n - 1 - i]);
            }
            root = if self.bits[n - 1 - i] {
                // bit is 1, we are on the right
                hash_merge(sibling, root)
            } else {
                // bit is 0, we are on the left
                hash_merge(root, sibling)
            };
            i += 1;
        }
        proof {
            assert(self@.siblings.take(n as int) =~= self@.siblings);
            assert(self@.bits.skip(0) =~= self@.bits);
        }
        root
    }
}

} // verus!
