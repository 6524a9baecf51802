//! Enumeration of the elements of a tree.

use crate::element::{values, Element};
use crate::tree::Tree;
use vstd::prelude::*;
use vstd::std_specs::hash::spec_hash_map_iter;
use vstd::std_specs::iter::IteratorSpec;

verus! {

broadcast use vstd::std_specs::hash::group_hash_axioms;

impl<const N: usize> Tree<N> {
    /// The elements of the tree, each once, in no particular order. They are
    /// read from the index.
    pub fn elements(&self) -> (elements: Vec<Element>)
        requires
            self.wf(),
        ensures
            elements@.len() == self@.count(),
            values(elements@).to_set() == self@.leaves(),
            values(elements@).no_duplicates(),
    {
        let mut elements: Vec<Element> = Vec::with_capacity(self.nodes.len());
        let ghost held = spec_hash_map_iter(&self.nodes).remaining();
        for entry in it: self.nodes.iter()
            invariant
                it.seq() == held,
                elements@.len() == it.index(),
                forall|j: int| 0 <= j < elements@.len() ==> elements@[j] == *it.seq()[j].1,
        {
            elements.push(*entry.1);
        }
        proof {
            let entries = held.map_values(|entry: (&u128, &Element)| (*entry.0, *entry.1));
            assert forall|i: int, j: int|
                0 <= i < entries.len() && 0 <= j < entries.len() && i != j implies entries[i]
                != entries[j] by {
                assert(held[i] != held[j]);
            }
            assert forall|key: u128| #[trigger] self.nodes@.contains_key(key) implies entries.contains(
                (key, self.nodes@[key]),
            ) by {
                assert(held.contains((&key, &self.nodes@[key])));
                let j = choose|j: int|
                    0 <= j < held.len() && held[j] == (&key, &self.nodes@[key]);
                assert(entries[j] == (key, self.nodes@[key]));
            }
            assert(elements@ =~= entries.map_values(|entry: (u128, Element)| entry.1));
            self.lemma_index_values(entries);
        }
        elements
    }
}

} // verus!
