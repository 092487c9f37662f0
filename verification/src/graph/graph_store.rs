//! Stores that a graph exploration fills, and that tell it which nodes are
//! new.

use crate::graph::adjacency_map::AdjacencyMap;
use crate::graph::adjacency_map::AdjacencyView;
use std::collections::HashSet;
use std::hash::Hash;
use vstd::prelude::*;
use vstd::std_specs::hash::obeys_key_model;

verus! {

/// An adjacency map that remembers which nodes were inserted before, so that
/// an exploration expands each node once. Every edge is recorded, also one
/// to a node that is known already.
pub struct SkipDuplicates<T> where T: Eq + Hash + Copy {
    store: AdjacencyMap<T>,
    visited: HashSet<T>,
}

impl<T> SkipDuplicates<T> where T: Eq + Hash + Copy {
    /// What the wrapped adjacency map holds.
    pub closed spec fn store(&self) -> AdjacencyView<T> {
        self.store@
    }

    /// The nodes that were inserted so far.
    pub closed spec fn visited(&self) -> Set<T> {
        self.visited@
    }

    /// Wraps `store`, with no node seen yet.
    pub fn new(store: AdjacencyMap<T>) -> (result: Self)
        ensures
            result.store() == store@,
            result.visited() == Set::<T>::empty(),
    {
        SkipDuplicates { store, visited: HashSet::new() }
    }

    /// Records `node` below `from_handle`, or as a root. Returns the node's
    /// handle and the node where it is new, and `None` where it was inserted
    /// before.
    pub fn insert(&mut self, from_handle: Option<T>, node: T) -> (result: Option<(T, T)>)
        requires
            obeys_key_model::<T>(),
        ensures
            final(self).store() == old(self).store().insert(from_handle, node),
            final(self).visited() == old(self).visited().insert(node),
            result == if old(self).visited().contains(node) {
                None
            } else {
                Some((node, node))
            },
    {
        if !self.visited.contains(&node) {
            self.visited.insert(node);
            self.store.insert(from_handle, node)
        } else {
            let _ = self.store.insert(from_handle, node);
            assert(self.visited@ =~= old(self).visited@.insert(node));
            None
        }
    }

    /// The adjacency map that was filled.
    pub fn into_inner(self) -> (result: AdjacencyMap<T>)
        ensures
            result@ == self.store(),
    {
        self.store
    }
}

impl<T> AdjacencyMap<T> where T: Eq + Hash + Copy {
    /// Wraps the map so that it reports nodes that were inserted before.
    pub fn skip_duplicates(self) -> (result: SkipDuplicates<T>)
        ensures
            result.store() == self@,
            result.visited() == Set::<T>::empty(),
    {
        SkipDuplicates::new(self)
    }
}

} // verus!
