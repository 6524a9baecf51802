//! The two-to-one compression function of the tree, and the hashes of empty
//! subtrees that follow from it.

use crate::element::{null_value, Element};
use halo2_gadgets::poseidon::primitives::{ConstantLength, P128Pow5T3};
use halo2_proofs::pasta::group::ff::PrimeField;
use halo2_proofs::pasta::pallas;
use vstd::prelude::*;

verus! {

/// The Poseidon hash of the two field elements with representatives `left`
/// and `right`, as the representative of the result.
pub uninterp spec fn poseidon_merge(left: nat, right: nat) -> nat;

/// Merges two hashes into the hash of their parent.
///
/// This is not proved but believed of the Poseidon primitives: the body
/// calls their `Hash::hash`, with the `P128Pow5T3` parameters and the domain
/// of messages of length two, on the two elements. The contract claims that
/// the result is a function of the two representatives alone, and that it
/// comes in canonical form. The arguments go in through `from_raw` of the
/// field, which takes the limbs of a representative; the result comes out
/// through `PrimeField::to_repr`, which gives the canonical representative
/// as little-endian bytes.
#[verifier::external_body]
pub fn hash_merge(left: Element, right: Element) -> (parent: Element)
    ensures
        parent@ == poseidon_merge(left@, right@),
        parent.is_canonical(),
{
    let l = pallas::Base::from_raw([left.l0, left.l1, left.l2, left.l3]);
    let r = pallas::Base::from_raw([right.l0, right.l1, right.l2, right.l3]);
    let hasher =
        halo2_gadgets::poseidon::primitives::Hash::<_, P128Pow5T3, ConstantLength<2>, 3, 2>::init();
    let h = hasher.hash([l, r]).to_repr();
    Element {
        l3: u64::from_le_bytes(h[24..32].try_into().unwrap()),
        l2: u64::from_le_bytes(h[16..24].try_into().unwrap()),
        l1: u64::from_le_bytes(h[8..16].try_into().unwrap()),
        l0: u64::from_le_bytes(h[0..8].try_into().unwrap()),
    }
}

/// The hash of an empty subtree with `2^d` leaves: the null value merged
/// with itself `d` times over.
pub open spec fn null_hash(d: nat) -> nat
    decreases d,
{
    if d == 0 {
        null_value()
    } else {
        poseidon_merge(null_hash((d - 1) as nat), null_hash((d - 1) as nat))
    }
}

/// The number of entries of the table of null hashes, and so the greatest
/// depth of a tree.
pub const MAX_DEPTH: usize = 128;

/// `table` holds the hashes of the empty subtrees, entry `d` for `2^d` leaves.
pub open spec fn is_null_table(table: Seq<Element>) -> bool {
    &&& table.len() == MAX_DEPTH
    &&& forall|d: int| 0 <= d < MAX_DEPTH ==> (#[trigger] table[d])@ == null_hash(d as nat)
}

/// Computes the table of null hashes: the null value, then each entry merged
/// with itself.
pub fn hash_table() -> (table: Vec<Element>)
    ensures
        is_null_table(table@),
        table@[0]@ == null_value(),
        forall|i: int|
            0 <= i < MAX_DEPTH - 1 ==> (#[trigger] table@[i + 1])@ == poseidon_merge(
                table@[i]@,
                table@[i]@,
            ),
{
    let mut table: Vec<Element> = Vec::with_capacity(MAX_DEPTH);
    let mut hash = Element::null();
    let mut i: usize = 0;
    while i < MAX_DEPTH
        invariant
            i <= MAX_DEPTH,
            table@.len() == i,
            hash@ == null_hash(i as nat),
            forall|d: int| 0 <= d < i ==> (#[trigger] table@[d])@ == null_hash(d as nat),
        decreases MAX_DEPTH - i,
    {
        table.push(hash);
        hash = hash_merge(hash, hash);
        i += 1;
    }
    assert forall|i: int| 0 <= i < MAX_DEPTH - 1 implies (#[trigger] table@[i + 1])@
        == poseidon_merge(table@[i]@, table@[i]@) by {
        assert(table@[i]@ == null_hash(i as nat));
    }
    table
}

} // verus!
