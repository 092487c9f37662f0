//! An adjacency map that is filled edge by edge, and the traversals that walk
//! it in reverse topological order.

use std::collections::HashMap;
use std::collections::HashSet;
use std::hash::Hash;
use vstd::prelude::*;
use vstd::std_specs::hash::obeys_key_model;

verus! {

/// The two phases in which a node can sit on the traversal stack.
#[derive(Debug, Clone, Copy, PartialEq, Eq)]
pub enum ReverseTopologicalPass {
    /// The node has been discovered and still has to be expanded.
    Pre,
    /// The node has been expanded; everything pushed above it comes out first.
    Post,
}

/// Stack entries that ask for each of `nodes` to be expanded.
pub open spec fn pre_entries<T>(nodes: Seq<T>) -> Seq<(ReverseTopologicalPass, T)> {
    nodes.map_values(|node: T| (ReverseTopologicalPass::Pre, node))
}

/// The nodes with recorded children that have not been visited yet.
pub open spec fn unvisited<T>(edges: Map<T, Seq<T>>, visited: Set<T>) -> Set<T> {
    edges.dom().difference(visited)
}

/// Taking an item that was still left leaves fewer items.
pub proof fn lemma_taking_shrinks_rest<T>(all: Set<T>, taken: Set<T>, item: T)
    requires
        all.finite(),
        all.contains(item),
        !taken.contains(item),
    ensures
        all.difference(taken.insert(item)).len() < all.difference(taken).len(),
{
    vstd::set_lib::lemma_len_difference(all, taken);
    assert(all.difference(taken.insert(item)) =~= all.difference(taken).remove(item));
}

/// Visiting a node with recorded children leaves fewer such nodes unvisited.
pub proof fn lemma_visit_shrinks_unvisited<T>(edges: Map<T, Seq<T>>, visited: Set<T>, node: T)
    requires
        edges.dom().finite(),
        !visited.contains(node),
    ensures
        unvisited(edges, visited).finite(),
        edges.contains_key(node) ==> unvisited(edges, visited.insert(node)).len() < unvisited(
            edges,
            visited,
        ).len(),
        !edges.contains_key(node) ==> unvisited(edges, visited.insert(node)) == unvisited(
            edges,
            visited,
        ),
{
    let before = unvisited(edges, visited);
    let after = unvisited(edges, visited.insert(node));
    vstd::set_lib::lemma_len_difference(edges.dom(), visited);
    if edges.contains_key(node) {
        assert(after =~= before.remove(node));
    } else {
        assert(after =~= before);
    }
}

/// The nodes that a traversal still emits, in order, when it stands at `stack`
/// (top at the end) having visited `visited`.
///
/// Popping a `Post` entry emits its node. Popping a `Pre` entry of a visited
/// node does nothing. Popping a `Pre` entry of an unvisited node marks it
/// visited; a node without recorded children is emitted at once, any other is
/// pushed back as `Post` below a `Pre` entry for each of its children.
pub open spec fn emission_order<T>(
    edges: Map<T, Seq<T>>,
    stack: Seq<(ReverseTopologicalPass, T)>,
    visited: Set<T>,
) -> Seq<T>
    decreases unvisited(edges, visited).len(), stack.len(),
    when edges.dom().finite()
{
    if stack.len() == 0 {
        Seq::empty()
    } else {
        let node = stack.last().1;
        let rest = stack.drop_last();
        match stack.last().0 {
            ReverseTopologicalPass::Post => seq![node] + emission_order(edges, rest, visited),
            ReverseTopologicalPass::Pre => {
                if visited.contains(node) {
                    emission_order(edges, rest, visited)
                } else {
                    proof {
                        lemma_visit_shrinks_unvisited(edges, visited, node);
                    }
                    if edges.contains_key(node) {
                        emission_order(
                            edges,
                            rest.push((ReverseTopologicalPass::Post, node)) + pre_entries(
                                edges[node],
                            ),
                            visited.insert(node),
                        )
                    } else {
                        seq![node] + emission_order(edges, rest, visited.insert(node))
                    }
                }
            },
        }
    }
}

/// The recorded children of every node of a hash map, as sequences.
pub open spec fn edges_of<T>(adjacency: Map<T, Vec<T>>) -> Map<T, Seq<T>> {
    adjacency.map_values(|children: Vec<T>| children@)
}

/// What an [`AdjacencyMap`] holds: the children recorded for each node, in the
/// order in which they were inserted, and the roots in insertion order.
#[verifier::reject_recursive_types(T)]
pub struct AdjacencyView<T> {
    pub edges: Map<T, Seq<T>>,
    pub roots: Seq<T>,
}

impl<T> AdjacencyView<T> {
    /// The view after `node` was inserted below `from`, or as a root.
    pub open spec fn insert(self, from: Option<T>, node: T) -> AdjacencyView<T> {
        match from {
            Some(parent) => AdjacencyView {
                edges: self.edges.insert(
                    parent,
                    if self.edges.contains_key(parent) {
                        self.edges[parent].push(node)
                    } else {
                        seq![node]
                    },
                ),
                roots: self.roots,
            },
            None => AdjacencyView { edges: self.edges, roots: self.roots.push(node) },
        }
    }

    /// The nodes that a traversal from all roots emits, in order.
    pub open spec fn reverse_topological(self) -> Seq<T> {
        emission_order(self.edges, pre_entries(self.roots), Set::empty())
    }

    /// The nodes that a traversal from `node` emits, in order.
    pub open spec fn reverse_topological_from(self, node: T) -> Seq<T> {
        emission_order(self.edges, pre_entries(seq![node]), Set::empty())
    }
}

/// A graph given by the children of each node and a list of roots.
pub struct AdjacencyMap<T> where T: Eq + Hash + Copy {
    adjacency_map: HashMap<T, Vec<T>>,
    roots: Vec<T>,
}

impl<T> View for AdjacencyMap<T> where T: Eq + Hash + Copy {
    type V = AdjacencyView<T>;

    closed spec fn view(&self) -> AdjacencyView<T> {
        AdjacencyView { edges: edges_of(self.adjacency_map@), roots: self.roots@ }
    }
}

impl<T> AdjacencyMap<T> where T: Eq + Hash + Copy {
    /// Creates an empty adjacency map.
    pub fn new() -> (result: Self)
        ensures
            result@.edges == Map::<T, Seq<T>>::empty(),
            result@.roots == Seq::<T>::empty(),
    {
        let result = Self { adjacency_map: HashMap::new(), roots: Vec::new() };
        assert(result@.edges =~= Map::<T, Seq<T>>::empty());
        result
    }

    /// A map in memory records children for finitely many nodes.
    pub proof fn lemma_finite(&self)
        ensures
            self@.edges.dom().finite(),
    {
        assert(self@.edges.dom() =~= self.adjacency_map@.dom());
    }

    /// The root nodes of the graph, in insertion order.
    pub fn roots(&self) -> (result: &Vec<T>)
        ensures
            result@ == self@.roots,
    {
        &self.roots
    }

    /// The children of `node`, if any were ever inserted for it.
    pub fn get(&self, node: &T) -> (result: Option<&Vec<T>>)
        requires
            obeys_key_model::<T>(),
        ensures
            match result {
                Some(children) => self@.edges.contains_key(*node) && children@
                    == self@.edges[*node],
                None => !self@.edges.contains_key(*node),
            },
    {
        self.adjacency_map.get(node)
    }

    /// Records `node` as the next child of `from_handle`, or as the next root
    /// where there is no parent. Duplicate edges are kept. Returns the handle
    /// of the inserted node and the node itself.
    pub fn insert(&mut self, from_handle: Option<T>, node: T) -> (result: Option<(T, T)>)
        requires
            obeys_key_model::<T>(),
        ensures
            final(self)@ == old(self)@.insert(from_handle, node),
            result == Some((node, node)),
    {
        match from_handle {
            Some(parent) => {
                let mut children = match self.adjacency_map.remove(&parent) {
                    Some(children) => children,
                    None => Vec::with_capacity(1),
                };
                children.push(node);
                self.adjacency_map.insert(parent, children);
                assert(self@.edges =~= old(self)@.insert(from_handle, node).edges);
            },
            None => {
                self.roots.push(node);
            },
        }
        Some((node, node))
    }
}

/// Runs the traversal up to its next emission: pops entries until one emits
/// a node, and returns `None` once the stack is empty.
fn next_emitted<T>(
    adjacency_map: &HashMap<T, Vec<T>>,
    stack: &mut Vec<(ReverseTopologicalPass, T)>,
    visited: &mut HashSet<T>,
) -> (result: Option<T>) where T: Eq + Hash + Copy
    requires
        obeys_key_model::<T>(),
    ensures
        ({
            let edges = edges_of(adjacency_map@);
            let before = emission_order(edges, old(stack)@, old(visited)@);
            let after = emission_order(edges, final(stack)@, final(visited)@);
            match result {
                Some(node) => before.len() > 0 && before[0] == node && after
                    == before.drop_first(),
                None => before.len() == 0 && after.len() == 0 && final(stack)@.len() == 0,
            }
        }),
{
    let ghost edges = edges_of(adjacency_map@);
    let ghost before = emission_order(edges, stack@, visited@);
    assert(edges.dom() =~= adjacency_map@.dom());
    loop
        invariant
            obeys_key_model::<T>(),
            edges == edges_of(adjacency_map@),
            edges.dom().finite(),
            before == emission_order(edges, old(stack)@, old(visited)@),
            emission_order(edges, stack@, visited@) == before,
        decreases unvisited(edges, visited@).len(), stack@.len(),
    {
        let ghost entries = stack@;
        let ghost seen = visited@;
        match stack.pop() {
            None => {
                return None;
            },
            Some((pass, current)) => {
                assert(entries.last() == (pass, current));
                assert(stack@ == entries.drop_last());
                match pass {
                    ReverseTopologicalPass::Post => {
                        assert(before.drop_first() =~= emission_order(edges, stack@, seen));
                        return Some(current);
                    },
                    ReverseTopologicalPass::Pre => {
                        if !visited.contains(&current) {
                            proof {
                                lemma_visit_shrinks_unvisited(edges, seen, current);
                            }
                            visited.insert(current);
                            match adjacency_map.get(&current) {
                                None => {
                                    assert(before.drop_first() =~= emission_order(
                                        edges,
                                        stack@,
                                        visited@,
                                    ));
                                    return Some(current);
                                },
                                Some(neighbors) => {
                                    stack.push((ReverseTopologicalPass::Post, current));
                                    let ghost base = stack@;
                                    let mut i: usize = 0;
                                    while i < neighbors.len()
                                        invariant
                                            i <= neighbors.len(),
                                            stack@ == base + pre_entries(
                                                neighbors@.take(i as int),
                                            ),
                                        decreases neighbors.len() - i,
                                    {
                                        stack.push((ReverseTopologicalPass::Pre, neighbors[i]));
                                        i += 1;
                                        assert(stack@ =~= base + pre_entries(
                                            neighbors@.take(i as int),
                                        ));
                                    }
                                    assert(neighbors@.take(i as int) =~= neighbors@);
                                    assert(neighbors@ == edges[current]);
                                },
                            }
                        }
                    },
                }
            },
        }
    }
}

/// A traversal that owns its graph and emits every node reachable from the
/// roots once, each after the nodes that its expansion pushed.
pub struct ReverseTopologicalIter<T> where T: Eq + Hash + Copy {
    adjacency_map: HashMap<T, Vec<T>>,
    stack: Vec<(ReverseTopologicalPass, T)>,
    visited: HashSet<T>,
}

impl<T> ReverseTopologicalIter<T> where T: Eq + Hash + Copy {
    /// The children recorded for each node of the graph being walked.
    pub closed spec fn edges(&self) -> Map<T, Seq<T>> {
        edges_of(self.adjacency_map@)
    }

    /// The pending entries, top at the end.
    pub closed spec fn stack(&self) -> Seq<(ReverseTopologicalPass, T)> {
        self.stack@
    }

    /// The nodes that have been expanded so far.
    pub closed spec fn visited(&self) -> Set<T> {
        self.visited@
    }

    /// The nodes that are still to come, in order.
    pub open spec fn remaining(&self) -> Seq<T> {
        emission_order(self.edges(), self.stack(), self.visited())
    }

    /// The next node of the traversal, or `None` when it is over.
    pub fn next(&mut self) -> (result: Option<T>)
        requires
            obeys_key_model::<T>(),
        ensures
            final(self).edges() == old(self).edges(),
            match result {
                Some(node) => old(self).remaining().len() > 0 && node == old(self).remaining()[0]
                    && final(self).remaining() == old(self).remaining().drop_first(),
                None => old(self).remaining().len() == 0 && final(self).remaining().len() == 0,
            },
    {
        next_emitted(&self.adjacency_map, &mut self.stack, &mut self.visited)
    }
}

/// A traversal that borrows its graph and emits every node reachable from one
/// start node once, each after the nodes that its expansion pushed.
pub struct ReverseTopologicalFromNodeIter<'graph, T> where T: Eq + Hash + Copy {
    adjacency_map: &'graph HashMap<T, Vec<T>>,
    stack: Vec<(ReverseTopologicalPass, T)>,
    visited: HashSet<T>,
}

impl<'graph, T> ReverseTopologicalFromNodeIter<'graph, T> where T: Eq + Hash + Copy {
    /// The children recorded for each node of the graph being walked.
    pub closed spec fn edges(&self) -> Map<T, Seq<T>> {
        edges_of(self.adjacency_map@)
    }

    /// The pending entries, top at the end.
    pub closed spec fn stack(&self) -> Seq<(ReverseTopologicalPass, T)> {
        self.stack@
    }

    /// The nodes that have been expanded so far.
    pub closed spec fn visited(&self) -> Set<T> {
        self.visited@
    }

    /// The nodes that are still to come, in order.
    pub open spec fn remaining(&self) -> Seq<T> {
        emission_order(self.edges(), self.stack(), self.visited())
    }

    /// The next node of the traversal, or `None` when it is over.
    pub fn next(&mut self) -> (result: Option<T>)
        requires
            obeys_key_model::<T>(),
        ensures
            final(self).edges() == old(self).edges(),
            match result {
                Some(node) => old(self).remaining().len() > 0 && node == old(self).remaining()[0]
                    && final(self).remaining() == old(self).remaining().drop_first(),
                None => old(self).remaining().len() == 0 && final(self).remaining().len() == 0,
            },
    {
        next_emitted(self.adjacency_map, &mut self.stack, &mut self.visited)
    }
}

impl<T> AdjacencyMap<T> where T: Eq + Hash + Copy {
    /// A traversal in reverse topological order that starts from the roots.
    pub fn into_reverse_topological(self) -> (result: ReverseTopologicalIter<T>)
        ensures
            result.edges() == self@.edges,
            result.stack() == pre_entries(self@.roots),
            result.visited() == Set::<T>::empty(),
            result.remaining() == self@.reverse_topological(),
    {
        let mut stack: Vec<(ReverseTopologicalPass, T)> = Vec::new();
        let mut i: usize = 0;
        while i < self.roots.len()
            invariant
                i <= self.roots.len(),
                stack@ == pre_entries(self.roots@.take(i as int)),
            decreases self.roots.len() - i,
        {
            stack.push((ReverseTopologicalPass::Pre, self.roots[i]));
            i += 1;
            assert(stack@ =~= pre_entries(self.roots@.take(i as int)));
        }
        assert(self.roots@.take(i as int) =~= self.roots@);
        ReverseTopologicalIter { adjacency_map: self.adjacency_map, stack, visited: HashSet::new() }
    }

    /// A traversal in reverse topological order that starts from `node`.
    pub fn reverse_topological_from_node<'graph>(&'graph self, node: &'graph T) -> (result:
        ReverseTopologicalFromNodeIter<'graph, T>)
        ensures
            result.edges() == self@.edges,
            result.stack() == pre_entries(seq![*node]),
            result.visited() == Set::<T>::empty(),
            result.remaining() == self@.reverse_topological_from(*node),
    {
        let mut stack: Vec<(ReverseTopologicalPass, T)> = Vec::new();
        stack.push((ReverseTopologicalPass::Pre, *node));
        assert(stack@ =~= pre_entries(seq![*node]));
        ReverseTopologicalFromNodeIter {
            adjacency_map: &self.adjacency_map,
            stack,
            visited: HashSet::new(),
        }
    }
}

} // verus!
