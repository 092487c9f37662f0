//! Paths and reachability in a graph given by the children of each node.

use vstd::prelude::*;

verus! {

/// Whether `to` is recorded as a child of `from`.
pub open spec fn has_edge<T>(edges: Map<T, Seq<T>>, from: T, to: T) -> bool {
    edges.contains_key(from) && edges[from].contains(to)
}

/// Whether the node at position `i + 1` of `path` is a child of the node at
/// position `i`.
pub open spec fn path_step<T>(edges: Map<T, Seq<T>>, path: Seq<T>, i: int) -> bool {
    has_edge(edges, path[i], path[i + 1])
}

/// Whether `path` is a non-empty walk along edges.
pub open spec fn is_path<T>(edges: Map<T, Seq<T>>, path: Seq<T>) -> bool {
    &&& path.len() > 0
    &&& forall|i: int| 0 <= i < path.len() - 1 ==> #[trigger] path_step(edges, path, i)
}

/// Whether `path` leads from `from` to `to`.
pub open spec fn is_path_between<T>(edges: Map<T, Seq<T>>, path: Seq<T>, from: T, to: T) -> bool {
    is_path(edges, path) && path[0] == from && path.last() == to
}

/// Whether `to` can be reached from `from` along edges; every node reaches
/// itself.
pub open spec fn reachable<T>(edges: Map<T, Seq<T>>, from: T, to: T) -> bool {
    exists|path: Seq<T>| is_path_between(edges, path, from, to)
}

/// Every node reaches itself.
pub proof fn lemma_reachable_self<T>(edges: Map<T, Seq<T>>, node: T)
    ensures
        reachable(edges, node, node),
{
    assert(is_path_between(edges, seq![node], node, node));
}

/// A path can be extended by an edge from its end.
pub proof fn lemma_path_extend<T>(edges: Map<T, Seq<T>>, path: Seq<T>, from: T, via: T, to: T)
    requires
        is_path_between(edges, path, from, via),
        has_edge(edges, via, to),
    ensures
        is_path_between(edges, path.push(to), from, to),
{
    let longer = path.push(to);
    assert forall|i: int| 0 <= i < longer.len() - 1 implies #[trigger] path_step(
        edges,
        longer,
        i,
    ) by {
        if i < path.len() - 1 {
            assert(path_step(edges, path, i));
        }
    }
}

/// What a reachable node has as a child is reachable too.
pub proof fn lemma_reachable_step<T>(edges: Map<T, Seq<T>>, from: T, via: T, to: T)
    requires
        reachable(edges, from, via),
        has_edge(edges, via, to),
    ensures
        reachable(edges, from, to),
{
    let path = choose|path: Seq<T>| is_path_between(edges, path, from, via);
    lemma_path_extend(edges, path, from, via, to);
}

/// Two paths that meet join into one.
pub proof fn lemma_path_join<T>(
    edges: Map<T, Seq<T>>,
    first: Seq<T>,
    second: Seq<T>,
    from: T,
    via: T,
    to: T,
)
    requires
        is_path_between(edges, first, from, via),
        is_path_between(edges, second, via, to),
    ensures
        is_path_between(edges, first + second.drop_first(), from, to),
{
    let joined = first + second.drop_first();
    assert forall|i: int| 0 <= i < joined.len() - 1 implies #[trigger] path_step(
        edges,
        joined,
        i,
    ) by {
        if i < first.len() - 1 {
            assert(path_step(edges, first, i));
        } else {
            let k = i - first.len() + 1;
            assert(path_step(edges, second, k));
            assert(joined[i + 1] == second[k + 1]);
            if i == first.len() - 1 {
                assert(joined[i] == second[0]);
            } else {
                assert(joined[i] == second[k]);
            }
        }
    }
    if second.len() == 1 {
        assert(joined =~= first);
    }
}

/// Reachability is transitive.
pub proof fn lemma_reachable_transitive<T>(edges: Map<T, Seq<T>>, from: T, via: T, to: T)
    requires
        reachable(edges, from, via),
        reachable(edges, via, to),
    ensures
        reachable(edges, from, to),
{
    let first = choose|path: Seq<T>| is_path_between(edges, path, from, via);
    let second = choose|path: Seq<T>| is_path_between(edges, path, via, to);
    lemma_path_join(edges, first, second, from, via, to);
}

/// A set that holds the children of each of its nodes holds whatever its
/// nodes reach.
pub proof fn lemma_closed_set_holds_reachable<T>(
    edges: Map<T, Seq<T>>,
    closed: Set<T>,
    from: T,
    to: T,
)
    requires
        closed.contains(from),
        forall|node: T, child: T|
            closed.contains(node) && #[trigger] has_edge(edges, node, child) ==> closed.contains(
                child,
            ),
        reachable(edges, from, to),
    ensures
        closed.contains(to),
{
    let path = choose|path: Seq<T>| is_path_between(edges, path, from, to);
    lemma_closed_set_holds_path(edges, closed, path, path.len() - 1);
}

/// A set that holds the children of each of its nodes holds every node of a
/// path that starts in it.
pub proof fn lemma_closed_set_holds_path<T>(
    edges: Map<T, Seq<T>>,
    closed: Set<T>,
    path: Seq<T>,
    i: int,
)
    requires
        is_path(edges, path),
        closed.contains(path[0]),
        forall|node: T, child: T|
            closed.contains(node) && #[trigger] has_edge(edges, node, child) ==> closed.contains(
                child,
            ),
        0 <= i < path.len(),
    ensures
        closed.contains(path[i]),
    decreases i,
{
    if i > 0 {
        lemma_closed_set_holds_path(edges, closed, path, i - 1);
        assert(path_step(edges, path, i - 1));
    }
}

/// The position of the last occurrence of a value in a sequence that holds
/// it.
pub proof fn lemma_last_occurrence<T>(items: Seq<T>, value: T) -> (last: int)
    requires
        items.contains(value),
    ensures
        0 <= last < items.len(),
        items[last] == value,
        forall|later: int| last < later < items.len() ==> items[later] != value,
    decreases items.len(),
{
    let end = items.len() - 1;
    if items[end] == value {
        end
    } else {
        let i = choose|i: int| 0 <= i < items.len() && items[i] == value;
        assert(items.drop_last()[i] == value);
        let last = lemma_last_occurrence(items.drop_last(), value);
        assert forall|later: int| last < later < items.len() implies items[later] != value by {
            if later < end {
                assert(items.drop_last()[later] == items[later]);
            }
        }
        last
    }
}

/// What is left of a path after some of its first nodes is a path.
pub proof fn lemma_path_suffix<T>(edges: Map<T, Seq<T>>, path: Seq<T>, start: int)
    requires
        is_path(edges, path),
        0 <= start < path.len(),
    ensures
        is_path_between(edges, path.skip(start), path[start], path.last()),
{
    let suffix = path.skip(start);
    assert forall|i: int| 0 <= i < suffix.len() - 1 implies #[trigger] path_step(
        edges,
        suffix,
        i,
    ) by {
        assert(path_step(edges, path, start + i));
    }
}

} // verus!
