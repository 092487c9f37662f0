//! What holds of the order in which a traversal emits nodes.

use crate::graph::adjacency_map::emission_order;
use crate::graph::adjacency_map::lemma_visit_shrinks_unvisited;
use crate::graph::adjacency_map::pre_entries;
use crate::graph::adjacency_map::unvisited;
use crate::graph::adjacency_map::ReverseTopologicalPass;
use crate::graph::reachability::has_edge;
use crate::graph::reachability::is_path;
use crate::graph::reachability::is_path_between;
use crate::graph::reachability::lemma_last_occurrence;
use crate::graph::reachability::lemma_path_suffix;
use crate::graph::reachability::lemma_reachable_self;
use crate::graph::reachability::lemma_reachable_step;
use crate::graph::reachability::lemma_reachable_transitive;
use crate::graph::reachability::path_step;
use crate::graph::reachability::reachable;
use vstd::prelude::*;

verus! {

/// The `Post` entry of `node`.
pub open spec fn post<T>(node: T) -> (ReverseTopologicalPass, T) {
    (ReverseTopologicalPass::Post, node)
}

/// The `Pre` entry of `node`.
pub open spec fn pre<T>(node: T) -> (ReverseTopologicalPass, T) {
    (ReverseTopologicalPass::Pre, node)
}

/// Whether a stack can occur in a traversal that has visited `visited`: the
/// nodes with a `Post` entry were visited, and none has two such entries.
pub open spec fn consistent<T>(stack: Seq<(ReverseTopologicalPass, T)>, visited: Set<T>) -> bool {
    &&& forall|i: int|
        0 <= i < stack.len() && (#[trigger] stack[i]).0 is Post ==> visited.contains(stack[i].1)
    &&& forall|i: int, j: int|
        0 <= i < j < stack.len() && (#[trigger] stack[i]).0 is Post && (#[trigger] stack[j]).0
            is Post ==> stack[i].1 != stack[j].1
}

/// The stack that expanding `node` leaves: its `Post` entry on what was below
/// it, and above that a `Pre` entry for each child.
pub open spec fn expanded_stack<T>(
    rest: Seq<(ReverseTopologicalPass, T)>,
    node: T,
    children: Seq<T>,
) -> Seq<(ReverseTopologicalPass, T)> {
    rest.push(post(node)) + pre_entries(children)
}

/// Expanding an unvisited node on top of a consistent stack leaves a
/// consistent stack.
pub proof fn lemma_expansion_consistent<T>(
    stack: Seq<(ReverseTopologicalPass, T)>,
    visited: Set<T>,
    children: Seq<T>,
)
    requires
        stack.len() > 0,
        consistent(stack, visited),
        !visited.contains(stack.last().1),
    ensures
        consistent(
            expanded_stack(stack.drop_last(), stack.last().1, children),
            visited.insert(stack.last().1),
        ),
{
    let rest = stack.drop_last();
    let node = stack.last().1;
    let next = expanded_stack(rest, node, children);
    assert forall|i: int| 0 <= i < next.len() && (#[trigger] next[i]).0 is Post implies visited.insert(
        node,
    ).contains(next[i].1) by {
        if i < rest.len() {
            assert(stack[i] == next[i]);
        }
    }
    assert forall|i: int, j: int|
        0 <= i < j < next.len() && (#[trigger] next[i]).0 is Post && (#[trigger] next[j]).0
            is Post implies next[i].1 != next[j].1 by {
        assert(stack[i] == next[i]);
        if j < rest.len() {
            assert(stack[j] == next[j]);
        }
    }
}

/// A traversal from a consistent state emits no node twice, and emits only
/// nodes that have a `Post` entry or were not visited yet.
pub proof fn lemma_emission_no_duplicates<T>(
    edges: Map<T, Seq<T>>,
    stack: Seq<(ReverseTopologicalPass, T)>,
    visited: Set<T>,
)
    requires
        edges.dom().finite(),
        consistent(stack, visited),
    ensures
        emission_order(edges, stack, visited).no_duplicates(),
        forall|node: T| #[trigger]
            emission_order(edges, stack, visited).contains(node) ==> stack.contains(post(node))
                || !visited.contains(node),
    decreases unvisited(edges, visited).len(), stack.len(),
{
    let order = emission_order(edges, stack, visited);
    if stack.len() > 0 {
        let node = stack.last().1;
        let rest = stack.drop_last();
        let top = stack.len() - 1;
        assert(stack[top] == stack.last());
        assert forall|i: int| 0 <= i < rest.len() implies rest[i] == stack[i] by {}
        match stack.last().0 {
            ReverseTopologicalPass::Post => {
                let tail = emission_order(edges, rest, visited);
                lemma_emission_no_duplicates(edges, rest, visited);
                if tail.contains(node) {
                    if rest.contains(post(node)) {
                        let k = choose|k: int| 0 <= k < rest.len() && rest[k] == post(node);
                        assert(stack[k] == post(node));
                    }
                }
                lemma_cons_no_duplicates(node, tail);
                assert forall|other: T| #[trigger] order.contains(other) implies stack.contains(
                    post(other),
                ) || !visited.contains(other) by {
                    lemma_cons_contains(node, tail, other);
                    if other == node {
                        assert(stack[top] == post(other));
                    } else if rest.contains(post(other)) {
                        let k = choose|k: int| 0 <= k < rest.len() && rest[k] == post(other);
                        assert(stack[k] == post(other));
                    }
                }
            },
            ReverseTopologicalPass::Pre => {
                if visited.contains(node) {
                    lemma_emission_no_duplicates(edges, rest, visited);
                    assert forall|other: T| #[trigger] order.contains(other) implies stack.contains(
                        post(other),
                    ) || !visited.contains(other) by {
                        if rest.contains(post(other)) {
                            let k = choose|k: int| 0 <= k < rest.len() && rest[k] == post(other);
                            assert(stack[k] == post(other));
                        }
                    }
                } else {
                    lemma_visit_shrinks_unvisited(edges, visited, node);
                    let seen = visited.insert(node);
                    if edges.contains_key(node) {
                        let next = expanded_stack(rest, node, edges[node]);
                        lemma_expansion_consistent(stack, visited, edges[node]);
                        lemma_emission_no_duplicates(edges, next, seen);
                        assert forall|other: T| #[trigger]
                            order.contains(other) implies stack.contains(post(other))
                            || !visited.contains(other) by {
                            if next.contains(post(other)) {
                                let k = choose|k: int|
                                    0 <= k < next.len() && next[k] == post(other);
                                if k < rest.len() {
                                    assert(stack[k] == post(other));
                                }
                            }
                        }
                    } else {
                        let tail = emission_order(edges, rest, seen);
                        lemma_emission_no_duplicates(edges, rest, seen);
                        if tail.contains(node) {
                            if rest.contains(post(node)) {
                                let k = choose|k: int| 0 <= k < rest.len() && rest[k] == post(node);
                                assert(stack[k] == post(node));
                            }
                        }
                        lemma_cons_no_duplicates(node, tail);
                        assert forall|other: T| #[trigger]
                            order.contains(other) implies stack.contains(post(other))
                            || !visited.contains(other) by {
                            lemma_cons_contains(node, tail, other);
                            if other != node && rest.contains(post(other)) {
                                let k = choose|k: int|
                                    0 <= k < rest.len() && rest[k] == post(other);
                                assert(stack[k] == post(other));
                            }
                        }
                    }
                }
            },
        }
    }
}

/// Putting a value in front of a duplicate-free sequence that lacks it keeps
/// it duplicate-free.
pub proof fn lemma_cons_no_duplicates<T>(head: T, tail: Seq<T>)
    requires
        tail.no_duplicates(),
        !tail.contains(head),
    ensures
        (seq![head] + tail).no_duplicates(),
{
    let all = seq![head] + tail;
    assert forall|i: int, j: int| 0 <= i < all.len() && 0 <= j < all.len() && i != j implies all[i]
        != all[j] by {
        if i > 0 && j > 0 {
            assert(all[i] == tail[i - 1] && all[j] == tail[j - 1]);
        } else if i > 0 {
            assert(tail.contains(tail[i - 1]));
        } else {
            assert(tail.contains(tail[j - 1]));
        }
    }
}

/// What a sequence with a value put in front holds is that value or a value
/// of the sequence.
pub proof fn lemma_cons_contains<T>(head: T, tail: Seq<T>, value: T)
    ensures
        (seq![head] + tail).contains(value) <==> value == head || tail.contains(value),
{
    let all = seq![head] + tail;
    if all.contains(value) {
        let i = choose|i: int| 0 <= i < all.len() && all[i] == value;
        if i > 0 {
            assert(tail[i - 1] == value);
        }
    }
    if value == head {
        assert(all[0] == value);
    }
    if tail.contains(value) {
        let i = choose|i: int| 0 <= i < tail.len() && tail[i] == value;
        assert(all[i + 1] == value);
    }
}

/// Whether two graphs record the same children for every node of `closed`,
/// all of them in `closed`.
pub open spec fn agree_on<T>(first: Map<T, Seq<T>>, second: Map<T, Seq<T>>, closed: Set<T>) -> bool {
    forall|node: T| #[trigger]
        closed.contains(node) ==> {
            &&& first.contains_key(node) <==> second.contains_key(node)
            &&& first.contains_key(node) ==> first[node] == second[node] && forall|k: int|
                0 <= k < first[node].len() ==> closed.contains(#[trigger] first[node][k])
        }
}

/// Whether every node on the stack is in `closed`.
pub open spec fn stack_within<T>(stack: Seq<(ReverseTopologicalPass, T)>, closed: Set<T>) -> bool {
    forall|i: int| 0 <= i < stack.len() ==> closed.contains((#[trigger] stack[i]).1)
}

/// A traversal depends only on the part of the graph that it can reach: two
/// graphs that agree on a set that holds the stack's nodes and their
/// descendants give the same order.
pub proof fn lemma_emission_agrees<T>(
    first: Map<T, Seq<T>>,
    second: Map<T, Seq<T>>,
    closed: Set<T>,
    stack: Seq<(ReverseTopologicalPass, T)>,
    visited: Set<T>,
)
    requires
        first.dom().finite(),
        second.dom().finite(),
        agree_on(first, second, closed),
        stack_within(stack, closed),
    ensures
        emission_order(first, stack, visited) == emission_order(second, stack, visited),
    decreases unvisited(first, visited).len(), stack.len(),
{
    if stack.len() > 0 {
        let node = stack.last().1;
        let rest = stack.drop_last();
        assert(stack[stack.len() - 1] == stack.last());
        assert(closed.contains(node));
        assert forall|i: int| 0 <= i < rest.len() implies closed.contains((#[trigger] rest[i]).1) by {
            assert(rest[i] == stack[i]);
        }
        match stack.last().0 {
            ReverseTopologicalPass::Post => {
                lemma_emission_agrees(first, second, closed, rest, visited);
            },
            ReverseTopologicalPass::Pre => {
                if visited.contains(node) {
                    lemma_emission_agrees(first, second, closed, rest, visited);
                } else {
                    lemma_visit_shrinks_unvisited(first, visited, node);
                    if first.contains_key(node) {
                        let next = expanded_stack(rest, node, first[node]);
                        assert forall|i: int| 0 <= i < next.len() implies closed.contains(
                            (#[trigger] next[i]).1,
                        ) by {
                            if i < rest.len() {
                                assert(next[i] == rest[i]);
                            } else if i > rest.len() {
                                assert(next[i].1 == first[node][i - rest.len() - 1]);
                            }
                        }
                        lemma_emission_agrees(first, second, closed, next, visited.insert(node));
                    } else {
                        lemma_emission_agrees(first, second, closed, rest, visited.insert(node));
                    }
                }
            },
        }
    }
}

/// The node whose `Post` entry lies at the bottom of the stack is emitted
/// last.
pub proof fn lemma_bottom_post_emitted_last<T>(
    edges: Map<T, Seq<T>>,
    stack: Seq<(ReverseTopologicalPass, T)>,
    visited: Set<T>,
)
    requires
        edges.dom().finite(),
        stack.len() > 0,
        stack[0].0 is Post,
    ensures
        emission_order(edges, stack, visited).len() > 0,
        emission_order(edges, stack, visited).last() == stack[0].1,
    decreases unvisited(edges, visited).len(), stack.len(),
{
    let node = stack.last().1;
    let rest = stack.drop_last();
    if stack.len() == 1 {
        assert(emission_order(edges, rest, visited) =~= Seq::<T>::empty());
        assert(emission_order(edges, stack, visited) =~= seq![node]);
    } else {
        assert(rest[0] == stack[0]);
        match stack.last().0 {
            ReverseTopologicalPass::Post => {
                lemma_bottom_post_emitted_last(edges, rest, visited);
            },
            ReverseTopologicalPass::Pre => {
                if visited.contains(node) {
                    lemma_bottom_post_emitted_last(edges, rest, visited);
                } else {
                    lemma_visit_shrinks_unvisited(edges, visited, node);
                    if edges.contains_key(node) {
                        let next = expanded_stack(rest, node, edges[node]);
                        assert(next[0] == stack[0]);
                        lemma_bottom_post_emitted_last(edges, next, visited.insert(node));
                    } else {
                        lemma_bottom_post_emitted_last(edges, rest, visited.insert(node));
                    }
                }
            },
        }
    }
}

/// A traversal from a single node emits that node last, and no node twice:
/// every other node that it emits comes before the start node.
pub proof fn lemma_start_emitted_last<T>(edges: Map<T, Seq<T>>, start: T)
    requires
        edges.dom().finite(),
    ensures
        ({
            let order = emission_order(edges, pre_entries(seq![start]), Set::empty());
            &&& order.len() > 0
            &&& order.last() == start
            &&& order.no_duplicates()
            &&& forall|i: int| 0 <= i < order.len() - 1 ==> order[i] != start
        }),
{
    let stack = pre_entries(seq![start]);
    let visited = Set::<T>::empty();
    let order = emission_order(edges, stack, visited);
    assert(stack.last() == pre(start));
    assert(stack.drop_last() =~= Seq::<(ReverseTopologicalPass, T)>::empty());
    lemma_emission_no_duplicates(edges, stack, visited);
    if edges.contains_key(start) {
        let next = expanded_stack(stack.drop_last(), start, edges[start]);
        assert(next[0] == post(start));
        lemma_bottom_post_emitted_last(edges, next, visited.insert(start));
    } else {
        assert(emission_order(edges, stack.drop_last(), visited.insert(start)) =~= Seq::<
            T,
        >::empty());
        assert(order =~= seq![start]);
    }
}

/// Whether some node on the stack reaches `node`.
pub open spec fn reachable_from_stack<T>(
    edges: Map<T, Seq<T>>,
    stack: Seq<(ReverseTopologicalPass, T)>,
    node: T,
) -> bool {
    exists|i: int| 0 <= i < stack.len() && reachable(edges, (#[trigger] stack[i]).1, node)
}

/// A traversal emits only nodes that a node on its stack reaches.
pub proof fn lemma_emitted_is_reachable<T>(
    edges: Map<T, Seq<T>>,
    stack: Seq<(ReverseTopologicalPass, T)>,
    visited: Set<T>,
    emitted: T,
)
    requires
        edges.dom().finite(),
        emission_order(edges, stack, visited).contains(emitted),
    ensures
        reachable_from_stack(edges, stack, emitted),
    decreases unvisited(edges, visited).len(), stack.len(),
{
    if stack.len() > 0 {
        let node = stack.last().1;
        let rest = stack.drop_last();
        let top = stack.len() - 1;
        assert(stack[top] == stack.last());
        lemma_reachable_self(edges, node);
        match stack.last().0 {
            ReverseTopologicalPass::Post => {
                let tail = emission_order(edges, rest, visited);
                lemma_cons_contains(node, tail, emitted);
                if emitted != node {
                    lemma_emitted_is_reachable(edges, rest, visited, emitted);
                    let i = choose|i: int|
                        0 <= i < rest.len() && reachable(edges, (#[trigger] rest[i]).1, emitted);
                    assert(stack[i] == rest[i]);
                }
            },
            ReverseTopologicalPass::Pre => {
                if visited.contains(node) {
                    lemma_emitted_is_reachable(edges, rest, visited, emitted);
                    let i = choose|i: int|
                        0 <= i < rest.len() && reachable(edges, (#[trigger] rest[i]).1, emitted);
                    assert(stack[i] == rest[i]);
                } else {
                    lemma_visit_shrinks_unvisited(edges, visited, node);
                    let seen = visited.insert(node);
                    if edges.contains_key(node) {
                        let next = expanded_stack(rest, node, edges[node]);
                        lemma_emitted_is_reachable(edges, next, seen, emitted);
                        let i = choose|i: int|
                            0 <= i < next.len() && reachable(
                                edges,
                                (#[trigger] next[i]).1,
                                emitted,
                            );
                        if i < rest.len() {
                            assert(stack[i] == next[i]);
                        } else if i > rest.len() {
                            let child = edges[node][i - rest.len() - 1];
                            assert(next[i].1 == child);
                            assert(edges[node].contains(child));
                            lemma_reachable_step(edges, node, node, child);
                            lemma_reachable_transitive(edges, node, child, emitted);
                        }
                    } else {
                        let tail = emission_order(edges, rest, seen);
                        lemma_cons_contains(node, tail, emitted);
                        if emitted != node {
                            lemma_emitted_is_reachable(edges, rest, seen, emitted);
                            let i = choose|i: int|
                                0 <= i < rest.len() && reachable(
                                    edges,
                                    (#[trigger] rest[i]).1,
                                    emitted,
                                );
                            assert(stack[i] == rest[i]);
                        }
                    }
                }
            },
        }
    }
}

/// A traversal emits every node that has a `Post` entry on its stack.
pub proof fn lemma_post_is_emitted<T>(
    edges: Map<T, Seq<T>>,
    stack: Seq<(ReverseTopologicalPass, T)>,
    visited: Set<T>,
    i: int,
)
    requires
        edges.dom().finite(),
        0 <= i < stack.len(),
        stack[i].0 is Post,
    ensures
        emission_order(edges, stack, visited).contains(stack[i].1),
    decreases unvisited(edges, visited).len(), stack.len(),
{
    let node = stack.last().1;
    let rest = stack.drop_last();
    let top = stack.len() - 1;
    assert(stack[top] == stack.last());
    if i < top {
        assert(rest[i] == stack[i]);
    }
    match stack.last().0 {
        ReverseTopologicalPass::Post => {
            let tail = emission_order(edges, rest, visited);
            lemma_cons_contains(node, tail, stack[i].1);
            if i < top {
                lemma_post_is_emitted(edges, rest, visited, i);
            }
        },
        ReverseTopologicalPass::Pre => {
            if visited.contains(node) {
                lemma_post_is_emitted(edges, rest, visited, i);
            } else {
                lemma_visit_shrinks_unvisited(edges, visited, node);
                let seen = visited.insert(node);
                if edges.contains_key(node) {
                    let next = expanded_stack(rest, node, edges[node]);
                    assert(next[i] == stack[i]);
                    lemma_post_is_emitted(edges, next, seen, i);
                } else {
                    let tail = emission_order(edges, rest, seen);
                    lemma_cons_contains(node, tail, stack[i].1);
                    lemma_post_is_emitted(edges, rest, seen, i);
                }
            }
        },
    }
}

/// Whether no node of `path` was visited.
pub open spec fn unvisited_path<T>(visited: Set<T>, path: Seq<T>) -> bool {
    forall|k: int| 0 <= k < path.len() ==> !visited.contains(#[trigger] path[k])
}

/// A traversal emits every node to which a path of unvisited nodes leads
/// from a node with a `Pre` entry on its stack.
pub proof fn lemma_unvisited_path_is_emitted<T>(
    edges: Map<T, Seq<T>>,
    stack: Seq<(ReverseTopologicalPass, T)>,
    visited: Set<T>,
    i: int,
    path: Seq<T>,
)
    requires
        edges.dom().finite(),
        0 <= i < stack.len(),
        stack[i].0 is Pre,
        is_path(edges, path),
        path[0] == stack[i].1,
        unvisited_path(visited, path),
    ensures
        emission_order(edges, stack, visited).contains(path.last()),
    decreases unvisited(edges, visited).len(), stack.len(),
{
    let node = stack.last().1;
    let rest = stack.drop_last();
    let top = stack.len() - 1;
    let target = path.last();
    assert(stack[top] == stack.last());
    if i < top {
        assert(rest[i] == stack[i]);
    }
    match stack.last().0 {
        ReverseTopologicalPass::Post => {
            let tail = emission_order(edges, rest, visited);
            lemma_cons_contains(node, tail, target);
            lemma_unvisited_path_is_emitted(edges, rest, visited, i, path);
        },
        ReverseTopologicalPass::Pre => {
            if visited.contains(node) {
                if i == top {
                    assert(!visited.contains(path[0]));
                }
                lemma_unvisited_path_is_emitted(edges, rest, visited, i, path);
            } else {
                lemma_visit_shrinks_unvisited(edges, visited, node);
                let seen = visited.insert(node);
                let children = if edges.contains_key(node) {
                    edges[node]
                } else {
                    Seq::empty()
                };
                let next = if edges.contains_key(node) {
                    expanded_stack(rest, node, children)
                } else {
                    rest
                };
                let tail = emission_order(edges, rest, seen);
                if !edges.contains_key(node) {
                    lemma_cons_contains(node, tail, target);
                }
                if i == top {
                    assert(path[0] == node);
                }
                if path.contains(node) {
                    let last = lemma_last_occurrence(path, node);
                    if last == path.len() - 1 {
                        if edges.contains_key(node) {
                            assert(next[rest.len() as int] == post(node));
                            lemma_post_is_emitted(edges, next, seen, rest.len() as int);
                        }
                    } else {
                        assert(path_step(edges, path, last));
                        let child = path[last + 1];
                        let m = choose|m: int| 0 <= m < children.len() && children[m] == child;
                        let suffix = path.skip(last + 1);
                        lemma_path_suffix(edges, path, last + 1);
                        assert forall|k: int| 0 <= k < suffix.len() implies !seen.contains(
                            #[trigger] suffix[k],
                        ) by {
                            assert(suffix[k] == path[last + 1 + k]);
                        }
                        assert(next[rest.len() + 1 + m] == pre(child));
                        lemma_unvisited_path_is_emitted(
                            edges,
                            next,
                            seen,
                            rest.len() + 1 + m,
                            suffix,
                        );
                    }
                } else {
                    assert forall|k: int| 0 <= k < path.len() implies !seen.contains(
                        #[trigger] path[k],
                    ) by {
                        assert(path.contains(path[k]));
                    }
                    assert(next[i] == stack[i]);
                    lemma_unvisited_path_is_emitted(edges, next, seen, i, path);
                }
            }
        },
    }
}

/// A traversal from the roots emits exactly the nodes that a root reaches.
pub proof fn lemma_emits_what_roots_reach<T>(edges: Map<T, Seq<T>>, roots: Seq<T>, node: T)
    requires
        edges.dom().finite(),
    ensures
        emission_order(edges, pre_entries(roots), Set::empty()).contains(node) <==> exists|
            i: int,
        |
            0 <= i < roots.len() && reachable(edges, #[trigger] roots[i], node),
{
    let stack = pre_entries(roots);
    let visited = Set::<T>::empty();
    if emission_order(edges, stack, visited).contains(node) {
        lemma_emitted_is_reachable(edges, stack, visited, node);
        let i = choose|i: int|
            0 <= i < stack.len() && reachable(edges, (#[trigger] stack[i]).1, node);
        assert(stack[i].1 == roots[i]);
    }
    if exists|i: int| 0 <= i < roots.len() && reachable(edges, #[trigger] roots[i], node) {
        let i = choose|i: int| 0 <= i < roots.len() && reachable(edges, #[trigger] roots[i], node);
        let path = choose|path: Seq<T>| is_path_between(edges, path, roots[i], node);
        assert(stack[i] == pre(roots[i]));
        lemma_unvisited_path_is_emitted(edges, stack, visited, i, path);
    }
}

/// A traversal from one node emits exactly the nodes that it reaches.
pub proof fn lemma_emits_what_start_reaches<T>(edges: Map<T, Seq<T>>, start: T, node: T)
    requires
        edges.dom().finite(),
    ensures
        emission_order(edges, pre_entries(seq![start]), Set::empty()).contains(node)
            <==> reachable(edges, start, node),
{
    lemma_emits_what_roots_reach(edges, seq![start], node);
    if reachable(edges, start, node) {
        assert(seq![start][0] == start);
    }
}

/// Whether a `Pre` entry of `child` lies above position `i` of the stack.
pub open spec fn awaits<T>(stack: Seq<(ReverseTopologicalPass, T)>, i: int, child: T) -> bool {
    exists|j: int| i < j < stack.len() && #[trigger] stack[j] == pre(child)
}

/// Whether `child`, if it is a child of the node at position `i`, was visited
/// or is still to be expanded above that position.
pub open spec fn settled<T>(
    edges: Map<T, Seq<T>>,
    stack: Seq<(ReverseTopologicalPass, T)>,
    visited: Set<T>,
    i: int,
    child: T,
) -> bool {
    has_edge(edges, stack[i].1, child) ==> visited.contains(child) || awaits(stack, i, child)
}

/// Whether the node at position `below` reaches the node at position `above`.
pub open spec fn reaches_entry<T>(
    edges: Map<T, Seq<T>>,
    stack: Seq<(ReverseTopologicalPass, T)>,
    below: int,
    above: int,
) -> bool {
    reachable(edges, stack[below].1, stack[above].1)
}

/// What holds of every state of a traversal that started with unexpanded
/// nodes only: the stack is consistent, every child of a node with a `Post`
/// entry was visited or waits above that entry, and every node with a `Post`
/// entry reaches the nodes above it.
pub open spec fn in_progress<T>(
    edges: Map<T, Seq<T>>,
    stack: Seq<(ReverseTopologicalPass, T)>,
    visited: Set<T>,
) -> bool {
    &&& consistent(stack, visited)
    &&& forall|i: int, child: T|
        0 <= i < stack.len() && stack[i].0 is Post ==> #[trigger] settled(
            edges,
            stack,
            visited,
            i,
            child,
        )
    &&& forall|i: int, j: int|
        0 <= i < j < stack.len() && stack[i].0 is Post ==> #[trigger] reaches_entry(
            edges,
            stack,
            i,
            j,
        )
}

/// Dropping the top entry keeps a traversal state in order, where the node
/// of that entry counts as visited afterwards.
pub proof fn lemma_in_progress_pop<T>(
    edges: Map<T, Seq<T>>,
    stack: Seq<(ReverseTopologicalPass, T)>,
    visited: Set<T>,
    seen: Set<T>,
)
    requires
        stack.len() > 0,
        in_progress(edges, stack, visited),
        seen == visited || seen == visited.insert(stack.last().1),
        seen.contains(stack.last().1) || stack.last().0 is Post,
    ensures
        in_progress(edges, stack.drop_last(), seen),
{
    let rest = stack.drop_last();
    let top = stack.len() - 1;
    assert forall|i: int| 0 <= i < rest.len() implies rest[i] == stack[i] by {}
    assert forall|i: int, child: T| 0 <= i < rest.len() && rest[i].0 is Post implies #[trigger] settled(
        edges,
        rest,
        seen,
        i,
        child,
    ) by {
        assert(settled(edges, stack, visited, i, child));
        if has_edge(edges, stack[i].1, child) && !visited.contains(child) {
            let j = choose|j: int| i < j < stack.len() && #[trigger] stack[j] == pre(child);
            if j < top {
                assert(rest[j] == pre(child));
            }
        }
    }
    assert forall|i: int, j: int|
        0 <= i < j < rest.len() && rest[i].0 is Post implies #[trigger] reaches_entry(
        edges,
        rest,
        i,
        j,
    ) by {
        assert(reaches_entry(edges, stack, i, j));
    }
}

/// Expanding the unvisited node on top keeps a traversal state in order.
pub proof fn lemma_in_progress_expand<T>(
    edges: Map<T, Seq<T>>,
    stack: Seq<(ReverseTopologicalPass, T)>,
    visited: Set<T>,
)
    requires
        stack.len() > 0,
        in_progress(edges, stack, visited),
        stack.last().0 is Pre,
        !visited.contains(stack.last().1),
        edges.contains_key(stack.last().1),
    ensures
        in_progress(
            edges,
            expanded_stack(stack.drop_last(), stack.last().1, edges[stack.last().1]),
            visited.insert(stack.last().1),
        ),
{
    let rest = stack.drop_last();
    let top = stack.len() - 1;
    let node = stack.last().1;
    let children = edges[node];
    let next = expanded_stack(rest, node, children);
    let seen = visited.insert(node);
    lemma_expansion_consistent(stack, visited, children);
    assert forall|i: int| 0 <= i < rest.len() implies next[i] == stack[i] by {}
    assert(next[top] == post(node));
    assert forall|m: int| 0 <= m < children.len() implies next[top + 1 + m] == pre(
        children[m],
    ) by {}
    assert forall|i: int, child: T| 0 <= i < next.len() && next[i].0 is Post implies #[trigger] settled(
        edges,
        next,
        seen,
        i,
        child,
    ) by {
        if has_edge(edges, next[i].1, child) {
            if i < top {
                assert(settled(edges, stack, visited, i, child));
                if !visited.contains(child) {
                    let j = choose|j: int| i < j < stack.len() && #[trigger] stack[j] == pre(child);
                    if j < top {
                        assert(next[j] == pre(child));
                    }
                }
            } else {
                let m = choose|m: int| 0 <= m < children.len() && children[m] == child;
                assert(next[top + 1 + m] == pre(child));
            }
        }
    }
    assert forall|i: int, j: int|
        0 <= i < j < next.len() && next[i].0 is Post implies #[trigger] reaches_entry(
        edges,
        next,
        i,
        j,
    ) by {
        lemma_reachable_self(edges, node);
        if j > top {
            let child = children[j - top - 1];
            assert(next[j] == pre(child));
            assert(children.contains(child));
            lemma_reachable_step(edges, node, node, child);
        }
        if i < top {
            assert(reaches_entry(edges, stack, i, top));
            if j < top {
                assert(reaches_entry(edges, stack, i, j));
            } else {
                lemma_reachable_transitive(edges, stack[i].1, node, next[j].1);
            }
        }
    }
}

/// In what a traversal still emits, a child comes before its parent unless
/// it reaches the parent.
pub proof fn lemma_child_emitted_first<T>(
    edges: Map<T, Seq<T>>,
    stack: Seq<(ReverseTopologicalPass, T)>,
    visited: Set<T>,
    parent: T,
    child: T,
    at: int,
)
    requires
        edges.dom().finite(),
        in_progress(edges, stack, visited),
        has_edge(edges, parent, child),
        !reachable(edges, child, parent),
        0 <= at < emission_order(edges, stack, visited).len(),
        emission_order(edges, stack, visited)[at] == parent,
        emission_order(edges, stack, visited).contains(child),
    ensures
        exists|before: int|
            0 <= before < at && emission_order(edges, stack, visited)[before] == child,
    decreases unvisited(edges, visited).len(), stack.len(),
{
    let order = emission_order(edges, stack, visited);
    let node = stack.last().1;
    let rest = stack.drop_last();
    let top = stack.len() - 1;
    assert(stack[top] == stack.last());
    lemma_emission_no_duplicates(edges, stack, visited);
    lemma_reachable_self(edges, parent);
    match stack.last().0 {
        ReverseTopologicalPass::Post => {
            let tail = emission_order(edges, rest, visited);
            lemma_in_progress_pop(edges, stack, visited, visited);
            lemma_cons_contains(node, tail, child);
            assert(order[0] == node);
            if parent == node {
                assert(at == 0);
                assert(settled(edges, stack, visited, top, child));
                assert(!awaits(stack, top, child));
                let k = choose|k: int| 0 <= k < stack.len() && stack[k] == post(child);
                assert(reaches_entry(edges, stack, k, top));
            } else {
                assert(tail[at - 1] == parent);
                if child == node {
                    assert(order[0] == child);
                } else {
                    lemma_child_emitted_first(edges, rest, visited, parent, child, at - 1);
                    let before = choose|before: int| 0 <= before < at - 1 && tail[before] == child;
                    assert(order[before + 1] == child);
                }
            }
        },
        ReverseTopologicalPass::Pre => {
            if visited.contains(node) {
                lemma_in_progress_pop(edges, stack, visited, visited);
                lemma_child_emitted_first(edges, rest, visited, parent, child, at);
            } else {
                lemma_visit_shrinks_unvisited(edges, visited, node);
                let seen = visited.insert(node);
                if edges.contains_key(node) {
                    let next = expanded_stack(rest, node, edges[node]);
                    lemma_in_progress_expand(edges, stack, visited);
                    lemma_child_emitted_first(edges, next, seen, parent, child, at);
                } else {
                    let tail = emission_order(edges, rest, seen);
                    lemma_in_progress_pop(edges, stack, visited, seen);
                    lemma_cons_contains(node, tail, child);
                    assert(order[0] == node);
                    assert(parent != node);
                    assert(tail[at - 1] == parent);
                    if child == node {
                        assert(order[0] == child);
                    } else {
                        lemma_child_emitted_first(edges, rest, seen, parent, child, at - 1);
                        let before = choose|before: int|
                            0 <= before < at - 1 && tail[before] == child;
                        assert(order[before + 1] == child);
                    }
                }
            }
        },
    }
}

/// A traversal from the roots emits every child of an emitted node, and
/// emits it before that node unless the child reaches the node: in a graph
/// without cycles every node comes after all nodes that it reaches.
pub proof fn lemma_children_before_parents<T>(
    edges: Map<T, Seq<T>>,
    roots: Seq<T>,
    parent: T,
    child: T,
    at: int,
)
    requires
        edges.dom().finite(),
        has_edge(edges, parent, child),
        0 <= at < emission_order(edges, pre_entries(roots), Set::empty()).len(),
        emission_order(edges, pre_entries(roots), Set::empty())[at] == parent,
    ensures
        emission_order(edges, pre_entries(roots), Set::empty()).contains(child),
        !reachable(edges, child, parent) ==> exists|before: int|
            0 <= before < at && emission_order(edges, pre_entries(roots), Set::empty())[before]
                == child,
{
    let stack = pre_entries(roots);
    let visited = Set::<T>::empty();
    let order = emission_order(edges, stack, visited);
    assert(order.contains(parent));
    lemma_emits_what_roots_reach(edges, roots, parent);
    let i = choose|i: int| 0 <= i < roots.len() && reachable(edges, #[trigger] roots[i], parent);
    lemma_reachable_step(edges, roots[i], parent, child);
    lemma_emits_what_roots_reach(edges, roots, child);
    assert(in_progress(edges, stack, visited));
    if !reachable(edges, child, parent) {
        lemma_child_emitted_first(edges, stack, visited, parent, child, at);
    }
}

/// A traversal from the roots emits no node twice.
pub proof fn lemma_emits_each_node_once<T>(edges: Map<T, Seq<T>>, roots: Seq<T>)
    requires
        edges.dom().finite(),
    ensures
        emission_order(edges, pre_entries(roots), Set::empty()).no_duplicates(),
{
    assert(consistent(pre_entries(roots), Set::<T>::empty()));
    lemma_emission_no_duplicates(edges, pre_entries(roots), Set::empty());
}

} // verus!
