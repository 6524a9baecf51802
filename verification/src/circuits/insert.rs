//! The statement of an insertion:
//!
//! Given a sparse merkle tree with root hash `old_root`, after inserting the
//! key `hash`, the root hash becomes `new_root`. Additionally, prior to the
//! insert, `hash` was not present in the tree.
//!
//! `old_root`, `new_root` and `hash` are public inputs. The full contents of
//! the tree remain private.
//!
//! One path serves for both halves of the statement. That the leaf of `hash`
//! was empty is shown by the path leading from the null value to `old_root`;
//! that the new tree is the old one with `hash` inserted, by the same path
//! leading from `hash` to `new_root`. Inserting changes the hashes on the way
//! to the leaf and none beside it, so the siblings are the same before and
//! after.

use crate::element::{lemma_view_injective, low_bits, null_value, Element};
use crate::tree::laws::lemma_insert_root;
use crate::tree::model::climb;
use crate::tree::path::Path;
use crate::tree::Tree;
use vstd::prelude::*;

verus! {

/// No proof can be made: the witness does not satisfy the relation, or the
/// proving system gave no proof.
#[derive(Debug, Clone, Copy, PartialEq, Eq, Structural)]
pub struct ProofGenerationFailed;

/// The relation between the public inputs `old_root`, `new_root` and `hash`
/// and the witness, which is the path of `hash`.
pub open spec fn relation(
    old_root: nat,
    new_root: nat,
    hash: nat,
    siblings: Seq<nat>,
    bits: Seq<bool>,
) -> bool {
    // the way is the one that the lowest bits of `hash` describe
    &&& bits == low_bits(hash, bits.len())
    &&& siblings.len() == bits.len()
    // before the insertion the leaf was empty
    &&& climb(null_value(), siblings, bits) == old_root
    // after the insertion the leaf holds `hash`, and nothing else has changed
    &&& climb(hash, siblings, bits) == new_root
}

/// The public inputs of an insertion, and the path that is its witness.
#[derive(Debug, Clone, PartialEq, Eq)]
pub struct InsertWitness<const N: usize> {
    /// The root hash before the insertion.
    pub old_root: Element,
    /// The root hash after the insertion.
    pub new_root: Element,
    /// The inserted element.
    pub hash: Element,
    /// The path of `hash` in the tree before the insertion. It stays private.
    pub path: Path<N>,
}

/// A proof of an insertion: the public inputs, and what the proving system
/// made of the witness.
#[derive(Debug, Clone, PartialEq, Eq)]
pub struct Proof {
    /// The root hash before the insertion.
    pub old_root: Element,
    /// The root hash after the insertion.
    pub new_root: Element,
    /// The inserted element.
    pub hash: Element,
    /// The succinct proof, as the proving system gave it.
    pub payload: Vec<u8>,
}

impl<const N: usize> InsertWitness<N> {
    /// The witness satisfies the relation.
    pub open spec fn valid(&self) -> bool {
        relation(self.old_root@, self.new_root@, self.hash@, self.path@.siblings, self.path@.bits)
    }

    /// Joins the public inputs with the outcome of the proving system, which
    /// is `None` if it could not make a proof.
    pub fn into_proof(self, payload: Option<Vec<u8>>) -> (result: Result<
        Proof,
        ProofGenerationFailed,
    >)
        ensures
            match result {
                Ok(proof) => {
                    &&& payload == Some(proof.payload)
                    &&& proof.old_root == self.old_root
                    &&& proof.new_root == self.new_root
                    &&& proof.hash == self.hash
                },
                Err(_) => payload is None,
            },
    {
        match payload {
            Some(payload) => Ok(
                Proof {
                    old_root: self.old_root,
                    new_root: self.new_root,
                    hash: self.hash,
                    payload,
                },
            ),
            None => Err(ProofGenerationFailed),
        }
    }
}

/// Derives the public inputs and the witness of the insertion of `new_hash`
/// into `tree`, which is left as it is. Fails if the path of `new_hash` does
/// not lead from the null value to the root hash, as it does whenever the
/// leaf of `new_hash` is empty.
pub fn prove_insert<const N: usize>(tree: &Tree<N>, new_hash: Element) -> (result: Result<
    InsertWitness<N>,
    ProofGenerationFailed,
>)
    requires
        tree.wf(),
    ensures
        match result {
            Ok(witness) => {
                &&& witness.valid()
                &&& witness.hash == new_hash
                &&& witness.old_root@ == tree@.hash()
                &&& witness.path@.bits == Tree::<N>::path_of(new_hash@)
                &&& witness.path@.siblings == tree@.siblings(Tree::<N>::path_of(new_hash@))
            },
            Err(_) => climb(
                null_value(),
                tree@.siblings(Tree::<N>::path_of(new_hash@)),
                Tree::<N>::path_of(new_hash@),
            ) != tree@.hash(),
        },
        tree@.lookup(Tree::<N>::path_of(new_hash@)) is None ==> (result matches Ok(witness)
            && witness.new_root@ == tree@.insert(
            Tree::<N>::path_of(new_hash@),
            new_hash@,
        ).hash()),
{
    let path = tree.path_for(new_hash);
    let old_root = tree.root_hash();
    let from_null = path.compute_root(Element::null());
    proof {
        tree.lemma_wf();
        let bits = Tree::<N>::path_of(new_hash@);
        if tree@.lookup(bits) is None {
            lemma_insert_root(tree@, bits, new_hash@);
        }
        if from_null@ == old_root@ {
            lemma_view_injective(from_null, old_root);
        }
    }
    if from_null == old_root {
        let new_root = path.compute_root(new_hash);
        Ok(InsertWitness { old_root, new_root, hash: new_hash, path })
    } else {
        Err(ProofGenerationFailed)
    }
}

} // verus!
