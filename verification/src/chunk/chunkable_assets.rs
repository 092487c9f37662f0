//! The set of modules that a root brings along: what it reaches through
//! qualifying references, in the order of a postorder traversal.

use crate::graph::adjacency_map::emission_order;
use crate::graph::adjacency_map::lemma_taking_shrinks_rest;
use crate::graph::adjacency_map::pre_entries;
use crate::graph::adjacency_map::AdjacencyMap;
use crate::graph::graph_store::SkipDuplicates;
use crate::graph::postorder::agree_on;
use crate::graph::postorder::consistent;
use crate::graph::postorder::lemma_children_before_parents;
use crate::graph::postorder::lemma_emission_agrees;
use crate::graph::postorder::lemma_emission_no_duplicates;
use crate::graph::postorder::lemma_emits_what_start_reaches;
use crate::graph::postorder::lemma_start_emitted_last;
use crate::graph::postorder::stack_within;
use crate::graph::reachability::has_edge;
use crate::graph::reachability::lemma_closed_set_holds_reachable;
use crate::graph::reachability::lemma_reachable_self;
use crate::graph::reachability::lemma_reachable_step;
use crate::graph::reachability::reachable;
use crate::index_set::lemma_push_keeps_no_duplicates;
use crate::module::chunkable_edges;
use crate::module::lemma_chunkable_edges_finite;
use crate::module::lookup_children;
use crate::module::module_ids;
use crate::module::ModuleEntry;
use crate::module::ModuleGraph;
use crate::module::ModuleVc;
use crate::module::ModulesSet;
use std::collections::HashMap;
use vstd::prelude::*;

verus! {

/// A lookup in the module graph failed.
#[derive(Debug, Clone, Copy, PartialEq, Eq, Structural)]
pub struct LookupError {
    /// The module whose references or targets could not be resolved.
    pub module: ModuleVc,
}

/// Whether a lookup fails at some module that `root` reaches through
/// qualifying references.
pub open spec fn lookup_fails_within(modules: Map<u64, ModuleEntry>, root: u64) -> bool {
    exists|id: u64| #[trigger]
        reachable(chunkable_edges(modules), root, id) && lookup_children(modules, id) is None
}

/// The modules that `root` brings along: those that it reaches through
/// qualifying references, in the order in which a traversal from `root`
/// emits them. `None` where a lookup fails on the way.
pub open spec fn chunkable_assets_of(modules: Map<u64, ModuleEntry>, root: u64) -> Option<Seq<u64>> {
    if lookup_fails_within(modules, root) {
        None
    } else {
        Some(emission_order(chunkable_edges(modules), pre_entries(seq![root]), Set::empty()))
    }
}

/// Whether an exploration has recorded for `id` what the module graph says of
/// it, and has seen all its children. Of a module whose lookup fails nothing
/// is recorded.
spec fn explored(
    modules: Map<u64, ModuleEntry>,
    recorded: Map<u64, Seq<u64>>,
    seen: Set<u64>,
    id: u64,
) -> bool {
    match lookup_children(modules, id) {
        Some(children) => {
            &&& recorded.contains_key(id) <==> children.len() > 0
            &&& recorded.contains_key(id) ==> recorded[id] == children
            &&& forall|k: int| 0 <= k < children.len() ==> seen.contains(#[trigger] children[k])
        },
        None => !recorded.contains_key(id),
    }
}

/// What an exploration of the chunkable part of a graph has found: the edges
/// and the modules, and those among the modules whose lookup failed.
struct Exploration {
    store: SkipDuplicates<u64>,
    failed: Vec<u64>,
}

impl Exploration {
    /// Whether the exploration went through everything that `root` reaches.
    spec fn complete(&self, modules: Map<u64, ModuleEntry>, root: u64) -> bool {
        let recorded = self.store.store().edges;
        let seen = self.store.visited();
        &&& self.store.store().roots == seq![root]
        &&& recorded.dom().finite()
        &&& forall|id: u64|
            seen.contains(id) <==> #[trigger] reachable(chunkable_edges(modules), root, id)
        &&& forall|id: u64| seen.contains(id) ==> #[trigger] explored(modules, recorded, seen, id)
        &&& forall|id: u64|
            self.failed@.contains(id) <==> seen.contains(id) && #[trigger] lookup_children(
                modules,
                id,
            ) is None
    }
}

/// Explores what `root` reaches through qualifying references, breadth
/// first: the modules found are expanded in the order of their discovery.
/// With `stop_at_failure` the exploration ends at the first module whose
/// lookup fails; without it such a module counts as having no children.
fn explore(graph: &ModuleGraph, root: u64, stop_at_failure: bool) -> (result: Exploration)
    ensures
        result.failed@.no_duplicates(),
        forall|i: int|
            0 <= i < result.failed.len() ==> reachable(
                chunkable_edges(graph@),
                root,
                #[trigger] result.failed[i],
            ) && lookup_children(graph@, result.failed[i]) is None,
        (stop_at_failure && result.failed.len() > 0) || result.complete(graph@, root),
{
    let ghost edges = chunkable_edges(graph@);
    let ghost valid = graph@.dom();
    proof {
        graph.lemma_finite();
        lemma_chunkable_edges_finite(graph@);
        lemma_reachable_self(edges, root);
    }
    let mut store = AdjacencyMap::new().skip_duplicates();
    let mut pending: Vec<u64> = Vec::new();
    let mut failed: Vec<u64> = Vec::new();
    if let Some((handle, _)) = store.insert(None, root) {
        pending.push(handle);
    }
    assert(pending@ =~= seq![root]);
    assert(store.visited() =~= pending@.to_set()) by {
        assert(pending[0] == root);
        assert forall|id: u64| pending@.contains(id) implies id == root by {
            let k = choose|k: int| 0 <= k < pending.len() && pending[k] == id;
        }
    }
    assert(store.store().roots =~= seq![root]);
    assert(store.store().edges =~= Map::<u64, Seq<u64>>::empty());
    let mut next: usize = 0;
    while next < pending.len()
        invariant
            next <= pending.len(),
            edges == chunkable_edges(graph@),
            valid == graph@.dom(),
            valid.finite(),
            store.store().roots == seq![root],
            pending.len() > 0,
            pending[0] == root,
            pending@.no_duplicates(),
            store.visited() == pending@.to_set(),
            forall|i: int| 0 <= i < pending.len() ==> reachable(edges, root, #[trigger] pending[i]),
            forall|i: int|
                0 <= i < next ==> explored(
                    graph@,
                    store.store().edges,
                    store.visited(),
                    #[trigger] pending[i],
                ),
            forall|id: u64| #[trigger]
                store.store().edges.contains_key(id) ==> pending@.take(next as int).contains(id),
            failed@.no_duplicates(),
            stop_at_failure ==> failed.len() == 0,
            forall|i: int|
                0 <= i < failed.len() ==> pending@.take(next as int).contains(#[trigger] failed[i])
                    && lookup_children(graph@, failed[i]) is None,
            forall|i: int|
                0 <= i < next && lookup_children(graph@, #[trigger] pending[i]) is None
                    ==> failed@.contains(pending[i]),
        decreases valid.difference(pending@.take(next as int).to_set()).len(), pending.len() - next,
    {
        let node = pending[next];
        let ghost done = pending@.take(next as int);
        let ghost recorded = store.store().edges;
        let ghost before = pending@;
        let ghost seen_before = store.visited();
        let ghost failed_before = failed@;
        assert(!done.contains(node)) by {
            if done.contains(node) {
                let k = choose|k: int| 0 <= k < done.len() && done[k] == node;
                assert(pending[k] == pending[next as int]);
            }
        }
        assert(before.take(next + 1) =~= done.push(node));
        assert(done.push(node).to_set() =~= done.to_set().insert(node)) by {
            assert forall|id: u64| done.push(node).contains(id) <==> done.contains(id) || id
                == node by {
                if done.push(node).contains(id) {
                    let k = choose|k: int| 0 <= k < done.len() + 1 && done.push(node)[k] == id;
                    if k < done.len() {
                        assert(done[k] == id);
                    }
                }
                if done.contains(id) {
                    let k = choose|k: int| 0 <= k < done.len() && done[k] == id;
                    assert(done.push(node)[k] == id);
                }
                if id == node {
                    assert(done.push(node)[done.len() as int] == id);
                }
            }
        }
        assert forall|i: int| 0 <= i < failed.len() implies done.push(node).contains(
            #[trigger] failed[i],
        ) by {
            assert(done.contains(failed[i]));
            let k = choose|k: int| 0 <= k < done.len() && done[k] == failed[i];
            assert(done.push(node)[k] == failed[i]);
        }
        match graph.chunkable_children(ModuleVc { id: node }) {
            None => {
                proof {
                    assert(!failed@.contains(node)) by {
                        if failed@.contains(node) {
                            let k = choose|k: int| 0 <= k < failed.len() && failed[k] == node;
                            assert(done.contains(failed[k]));
                        }
                    }
                    lemma_push_keeps_no_duplicates(failed@, node);
                }
                failed.push(node);
                assert(failed@.last() == node);
                assert forall|i: int| 0 <= i < failed.len() implies done.push(node).contains(
                    #[trigger] failed[i],
                ) && lookup_children(graph@, failed[i]) is None && reachable(
                    edges,
                    root,
                    failed[i],
                ) by {
                    if i < failed_before.len() {
                        assert(failed[i] == failed_before[i]);
                        let k = choose|k: int| 0 <= k < done.len() && done[k] == failed[i];
                        assert(done.push(node)[k] == failed[i]);
                        assert(pending[k] == done[k]);
                    } else {
                        assert(done.push(node)[next as int] == node);
                    }
                }
                if stop_at_failure {
                    return Exploration { store, failed };
                }
                proof {
                    assert forall|i: int|
                        0 <= i < next + 1 && lookup_children(
                            graph@,
                            #[trigger] pending[i],
                        ) is None implies failed@.contains(pending[i]) by {
                        if i < next {
                            let k = choose|k: int|
                                0 <= k < failed_before.len() && failed_before[k] == pending[i];
                            assert(failed[k] == pending[i]);
                        } else {
                            assert(failed[failed.len() - 1] == node);
                        }
                    }
                    assert forall|id: u64| #[trigger]
                        recorded.contains_key(id) implies pending@.take(next + 1).contains(id) by {
                        let k = choose|k: int| 0 <= k < done.len() && done[k] == id;
                        assert(done.push(node)[k] == id);
                    }
                    if valid.contains(node) {
                        lemma_taking_shrinks_rest(valid, done.to_set(), node);
                    } else {
                        assert(valid.difference(done.to_set().insert(node)) =~= valid.difference(
                            done.to_set(),
                        ));
                    }
                }
            },
            Some(children) => {
                let ghost kids = children@;
                let mut j: usize = 0;
                while j < children.len()
                    invariant
                        j <= kids.len(),
                        children@ == kids,
                        lookup_children(graph@, node) == Some(kids),
                        edges == chunkable_edges(graph@),
                        next < before.len(),
                        node == before[next as int],
                        reachable(edges, root, node),
                        store.store().roots == seq![root],
                        !recorded.contains_key(node),
                        store.store().edges == if j == 0 {
                            recorded
                        } else {
                            recorded.insert(node, kids.take(j as int))
                        },
                        pending.len() >= before.len(),
                        pending@.take(before.len() as int) == before,
                        pending@.no_duplicates(),
                        store.visited() == pending@.to_set(),
                        forall|id: u64| seen_before.contains(id) ==> store.visited().contains(id),
                        forall|i: int|
                            0 <= i < pending.len() ==> reachable(edges, root, #[trigger] pending[i]),
                        forall|k: int| 0 <= k < j ==> store.visited().contains(#[trigger] kids[k]),
                    decreases kids.len() - j,
                {
                    let ghost list = pending@;
                    let ghost seen = store.visited();
                    match children.get_index(j) {
                        Some(child) => {
                            assert(child == kids[j as int]);
                            proof {
                                assert(kids.contains(child));
                                assert(has_edge(edges, node, child));
                                lemma_reachable_step(edges, root, node, child);
                            }
                            if let Some((handle, _)) = store.insert(Some(node), child) {
                                proof {
                                    assert(!list.contains(child));
                                    lemma_push_keeps_no_duplicates(list, child);
                                }
                                pending.push(handle);
                                assert(pending@.take(before.len() as int) =~= list.take(
                                    before.len() as int,
                                ));
                                assert(pending@.to_set() =~= list.to_set().insert(child)) by {
                                    assert forall|id: u64|
                                        pending@.contains(id) <==> list.contains(id) || id
                                            == child by {
                                        if pending@.contains(id) {
                                            let k = choose|k: int|
                                                0 <= k < pending.len() && pending[k] == id;
                                            if k < list.len() {
                                                assert(list[k] == id);
                                            }
                                        }
                                        if list.contains(id) {
                                            let k = choose|k: int|
                                                0 <= k < list.len() && list[k] == id;
                                            assert(pending[k] == id);
                                        }
                                        if id == child {
                                            assert(pending[list.len() as int] == id);
                                        }
                                    }
                                }
                            } else {
                                assert(seen.insert(child) =~= seen);
                            }
                            assert(store.store().edges =~= recorded.insert(
                                node,
                                kids.take(j + 1),
                            )) by {
                                if j == 0 {
                                    assert(kids.take(1) =~= seq![child]);
                                } else {
                                    assert(kids.take(j + 1) =~= kids.take(j as int).push(child));
                                }
                            }
                        },
                        None => {},
                    }
                    j += 1;
                }
                assert(kids.take(j as int) =~= kids);
                proof {
                    let recorded_now = store.store().edges;
                    let seen_now = store.visited();
                    assert(pending@.take(next + 1) =~= done.push(node)) by {
                        assert(pending@.take(before.len() as int).take(next + 1) =~= pending@.take(
                            next + 1,
                        ));
                    }
                    assert forall|i: int| 0 <= i < before.len() implies pending[i] == before[i] by {
                        assert(pending@.take(before.len() as int)[i] == pending[i]);
                    }
                    assert forall|i: int|
                        0 <= i < next + 1 && lookup_children(
                            graph@,
                            #[trigger] pending[i],
                        ) is None implies failed@.contains(pending[i]) by {
                        assert(pending[i] == before[i]);
                    }
                    assert(explored(graph@, recorded_now, seen_now, node));
                    assert forall|i: int| 0 <= i < next + 1 implies explored(
                        graph@,
                        recorded_now,
                        seen_now,
                        #[trigger] pending[i],
                    ) by {
                        if i < next {
                            assert(explored(graph@, recorded, seen_before, before[i]));
                            assert(before[i] != node) by {
                                assert(done[i] == before[i]);
                            }
                        }
                    }
                    assert forall|id: u64| #[trigger]
                        recorded_now.contains_key(id) implies pending@.take(next + 1).contains(
                        id,
                    ) by {
                        if id == node {
                            assert(done.push(node)[next as int] == node);
                        } else {
                            assert(recorded.contains_key(id));
                            let k = choose|k: int| 0 <= k < done.len() && done[k] == id;
                            assert(done.push(node)[k] == id);
                        }
                    }
                    lemma_taking_shrinks_rest(valid, done.to_set(), node);
                }
            },
        }
        next += 1;
    }
    proof {
        let recorded = store.store().edges;
        let closed = store.visited();
        assert(pending@.take(next as int) =~= pending@);
        assert(closed.contains(root)) by {
            assert(pending@.contains(pending[0]));
        }
        assert forall|id: u64| closed.contains(id) implies #[trigger] explored(
            graph@,
            recorded,
            closed,
            id,
        ) by {
            let k = choose|k: int| 0 <= k < pending.len() && pending[k] == id;
            assert(explored(graph@, recorded, closed, pending[k]));
        }
        assert(recorded.dom().finite()) by {
            vstd::set_lib::lemma_len_subset(recorded.dom(), closed);
        }
        assert forall|id: u64| closed.contains(id) <==> #[trigger] reachable(edges, root, id) by {
            if closed.contains(id) {
                let k = choose|k: int| 0 <= k < pending.len() && pending[k] == id;
                assert(reachable(edges, root, pending[k]));
            }
            if reachable(edges, root, id) {
                assert forall|from: u64, to: u64|
                    closed.contains(from) && #[trigger] has_edge(
                        edges,
                        from,
                        to,
                    ) implies closed.contains(to) by {
                    assert(explored(graph@, recorded, closed, from));
                    let k = choose|k: int| 0 <= k < edges[from].len() && edges[from][k] == to;
                    assert(closed.contains(edges[from][k]));
                }
                lemma_closed_set_holds_reachable(edges, closed, root, id);
            }
        }
        assert forall|id: u64|
            failed@.contains(id) <==> closed.contains(id) && #[trigger] lookup_children(
                graph@,
                id,
            ) is None by {
            if failed@.contains(id) {
                let k = choose|k: int| 0 <= k < failed.len() && failed[k] == id;
                assert(pending@.contains(failed[k]));
            }
            if closed.contains(id) && lookup_children(graph@, id) is None {
                let k = choose|k: int| 0 <= k < pending.len() && pending[k] == id;
                assert(failed@.contains(pending[k]));
            }
        }
        assert forall|i: int| 0 <= i < failed.len() implies reachable(
            edges,
            root,
            #[trigger] failed[i],
        ) by {
            assert(pending@.contains(failed[i]));
        }
    }
    Exploration { store, failed }
}

/// The set of modules that `root` brings along, in the order of a postorder
/// traversal: every module after the modules that its expansion discovered,
/// `root` last. Only references with the chunking capability and a qualifying
/// chunking type are followed. Fails where a lookup fails at a module on the
/// way, and names that module.
pub fn chunkable_assets_set(graph: &ModuleGraph, root: ModuleVc) -> (result: Result<
    ModulesSet,
    LookupError,
>)
    ensures
        match result {
            Ok(set) => chunkable_assets_of(graph@, root.id) == Some(set@) && set.wf(),
            Err(error) => chunkable_assets_of(graph@, root.id) is None && reachable(
                chunkable_edges(graph@),
                root.id,
                error.module.id,
            ) && lookup_children(graph@, error.module.id) is None,
        },
{
    let ghost edges = chunkable_edges(graph@);
    let exploration = explore(graph, root.id, true);
    if exploration.failed.len() > 0 {
        return Err(LookupError { module: ModuleVc { id: exploration.failed[0] } });
    }
    let ghost recorded = exploration.store.store().edges;
    let ghost closed = exploration.store.visited();
    let ghost start = pre_entries(seq![root.id]);
    proof {
        graph.lemma_finite();
        lemma_chunkable_edges_finite(graph@);
        lemma_reachable_self(edges, root.id);
        assert forall|id: u64| #[trigger] closed.contains(id) implies lookup_children(
            graph@,
            id,
        ) is Some by {
            if lookup_children(graph@, id) is None {
                assert(exploration.failed@.contains(id));
            }
        }
        assert(agree_on(recorded, edges, closed)) by {
            assert forall|id: u64| #[trigger] closed.contains(id) implies {
                &&& recorded.contains_key(id) <==> edges.contains_key(id)
                &&& recorded.contains_key(id) ==> recorded[id] == edges[id] && forall|k: int|
                    0 <= k < recorded[id].len() ==> closed.contains(#[trigger] recorded[id][k])
            } by {
                assert(explored(graph@, recorded, closed, id));
            }
        }
        assert(stack_within(start, closed));
        lemma_emission_agrees(recorded, edges, closed, start, Set::empty());
        assert(!lookup_fails_within(graph@, root.id)) by {
            if lookup_fails_within(graph@, root.id) {
                let id = choose|id: u64| #[trigger]
                    reachable(edges, root.id, id) && lookup_children(graph@, id) is None;
                assert(closed.contains(id));
            }
        }
        assert(consistent(start, Set::<u64>::empty()));
        lemma_emission_no_duplicates(edges, start, Set::empty());
    }
    let mut iter = exploration.store.into_inner().into_reverse_topological();
    let ghost order = iter.remaining();
    let mut set = ModulesSet::new();
    loop
        invariant
            order.no_duplicates(),
            set@.len() <= order.len(),
            set@ == order.take(set@.len() as int),
            iter.remaining() == order.skip(set@.len() as int),
            set.wf(),
        ensures
            set@ == order,
        decreases iter.remaining().len(),
    {
        let ghost emitted = set@;
        match iter.next() {
            Some(node) => {
                assert(node == order[emitted.len() as int]);
                assert(!emitted.contains(node)) by {
                    if emitted.contains(node) {
                        let k = choose|k: int| 0 <= k < emitted.len() && emitted[k] == node;
                        assert(order[k] == node);
                    }
                }
                set.insert(ModuleVc { id: node });
                assert(set@ =~= order.take(set@.len() as int));
                assert(iter.remaining() =~= order.skip(set@.len() as int));
            },
            None => {
                assert(set@ =~= order);
                break ;
            },
        }
    }
    Ok(set)
}

/// The modules that `root` reaches through the qualifying references of the
/// known modules and that the graph does not know yet, each once: what has
/// to be looked up and recorded before the set of `root` can be computed.
pub fn unresolved_modules(graph: &ModuleGraph, root: ModuleVc) -> (result: Vec<ModuleVc>)
    ensures
        module_ids(result@).no_duplicates(),
        forall|id: u64|
            module_ids(result@).contains(id) <==> #[trigger] reachable(
                chunkable_edges(graph@),
                root.id,
                id,
            ) && !graph@.contains_key(id),
{
    let exploration = explore(graph, root.id, false);
    let failed = exploration.failed;
    let ghost edges = chunkable_edges(graph@);
    let mut unknown: Vec<ModuleVc> = Vec::new();
    let mut i: usize = 0;
    while i < failed.len()
        invariant
            i <= failed.len(),
            failed@.no_duplicates(),
            module_ids(unknown@).no_duplicates(),
            forall|id: u64|
                module_ids(unknown@).contains(id) <==> failed@.take(i as int).contains(id)
                    && !graph@.contains_key(id),
        decreases failed.len() - i,
    {
        let module = ModuleVc { id: failed[i] };
        let ghost before = module_ids(unknown@);
        let ghost taken = failed@.take(i as int);
        assert(failed@.take(i + 1) =~= taken.push(module.id));
        assert(!taken.contains(module.id)) by {
            if taken.contains(module.id) {
                let k = choose|k: int| 0 <= k < taken.len() && taken[k] == module.id;
                assert(failed[k] == failed[i as int]);
            }
        }
        if !graph.contains(module) {
            proof {
                lemma_push_keeps_no_duplicates(before, module.id);
            }
            unknown.push(module);
            assert(module_ids(unknown@) =~= before.push(module.id));
        }
        assert forall|id: u64|
            module_ids(unknown@).contains(id) <==> failed@.take(i + 1).contains(id)
                && !graph@.contains_key(id) by {
            let now = module_ids(unknown@);
            if now.contains(id) {
                let k = choose|k: int| 0 <= k < now.len() && now[k] == id;
                if k < before.len() {
                    assert(before[k] == id);
                    assert(before.contains(id));
                    let m = choose|m: int| 0 <= m < taken.len() && taken[m] == id;
                    assert(taken.push(module.id)[m] == id);
                } else {
                    assert(taken.push(module.id)[taken.len() as int] == id);
                }
            }
            if taken.push(module.id).contains(id) && !graph@.contains_key(id) {
                let m = choose|m: int| 0 <= m < taken.len() + 1 && taken.push(module.id)[m] == id;
                if m < taken.len() {
                    assert(taken[m] == id);
                    assert(taken.contains(id));
                    let k = choose|k: int| 0 <= k < before.len() && before[k] == id;
                    assert(now[k] == id);
                } else {
                    assert(now[now.len() - 1] == id);
                }
            }
        }
        i += 1;
    }
    assert(failed@.take(i as int) =~= failed@);
    proof {
        assert forall|id: u64|
            module_ids(unknown@).contains(id) <==> #[trigger] reachable(edges, root.id, id)
                && !graph@.contains_key(id) by {
            if reachable(edges, root.id, id) && !graph@.contains_key(id) {
                assert(lookup_children(graph@, id) is None);
            }
            if module_ids(unknown@).contains(id) {
                assert(lookup_children(graph@, id) is None);
            }
        }
    }
    unknown
}

/// The sets that were computed for the roots of one graph. A set is computed
/// once and then looked up. The sets belong to the graph as it was when they
/// were computed: after the graph changed, they have to be forgotten.
pub struct ChunkableAssetsMemo {
    sets: HashMap<u64, ModulesSet>,
}

impl ChunkableAssetsMemo {
    /// The remembered sets by root.
    pub closed spec fn known(&self) -> Map<u64, Seq<u64>> {
        self.sets@.map_values(|set: ModulesSet| set@)
    }

    /// Whether every remembered set is the set of its root in `modules`.
    pub open spec fn valid_for(&self, modules: Map<u64, ModuleEntry>) -> bool {
        forall|root: u64| #[trigger]
            self.known().contains_key(root) ==> chunkable_assets_of(modules, root) == Some(
                self.known()[root],
            )
    }

    /// A memo that remembers nothing; it is valid for every graph.
    pub fn new() -> (result: Self)
        ensures
            result.known() == Map::<u64, Seq<u64>>::empty(),
    {
        let result = ChunkableAssetsMemo { sets: HashMap::new() };
        assert(result.known() =~= Map::<u64, Seq<u64>>::empty());
        result
    }

    /// Forgets every set, as is due when the graph has changed.
    pub fn clear(&mut self)
        ensures
            final(self).known() == Map::<u64, Seq<u64>>::empty(),
    {
        self.sets.clear();
        assert(self.known() =~= Map::<u64, Seq<u64>>::empty());
    }

    /// Whether the set of `root` holds `module`. The set is looked up where
    /// it is remembered, and computed and remembered otherwise. A failed
    /// computation leaves the memo as it was.
    pub fn contains(&mut self, graph: &ModuleGraph, root: ModuleVc, module: ModuleVc) -> (result:
        Result<bool, LookupError>)
        requires
            old(self).valid_for(graph@),
        ensures
            final(self).valid_for(graph@),
            match result {
                Ok(found) => chunkable_assets_of(graph@, root.id) matches Some(set) && found
                    == set.contains(module.id) && final(self).known() == old(self).known().insert(
                    root.id,
                    set,
                ),
                Err(error) => chunkable_assets_of(graph@, root.id) is None && reachable(
                    chunkable_edges(graph@),
                    root.id,
                    error.module.id,
                ) && lookup_children(graph@, error.module.id) is None && final(self).known() == old(
                    self,
                ).known(),
            },
    {
        if let Some(set) = self.sets.get(&root.id) {
            assert(self.known().contains_key(root.id));
            assert(self.known() =~= old(self).known().insert(root.id, set@));
            return Ok(set.contains(&module));
        }
        match chunkable_assets_set(graph, root) {
            Ok(set) => {
                let found = set.contains(&module);
                let ghost items = set@;
                self.sets.insert(root.id, set);
                assert(self.known() =~= old(self).known().insert(root.id, items));
                Ok(found)
            },
            Err(error) => Err(error),
        }
    }
}

/// The set of a root is a function of the graph and the root: whatever two
/// computations on one graph return for one root is the same.
pub proof fn lemma_chunkable_assets_repeatable(
    modules: Map<u64, ModuleEntry>,
    root: u64,
    first: Option<Seq<u64>>,
    second: Option<Seq<u64>>,
)
    requires
        first == chunkable_assets_of(modules, root),
        second == chunkable_assets_of(modules, root),
    ensures
        first == second,
{
}

/// The set of a root holds no module twice, holds the root, and holds it in
/// the last place: every other member comes before the root.
pub proof fn lemma_root_comes_last(modules: Map<u64, ModuleEntry>, root: u64)
    requires
        modules.dom().finite(),
        chunkable_assets_of(modules, root) is Some,
    ensures
        ({
            let set = chunkable_assets_of(modules, root)->Some_0;
            &&& set.no_duplicates()
            &&& set.len() > 0
            &&& set.last() == root
            &&& set.contains(root)
            &&& forall|i: int| 0 <= i < set.len() - 1 ==> set[i] != root
        }),
{
    lemma_chunkable_edges_finite(modules);
    lemma_start_emitted_last(chunkable_edges(modules), root);
    let set = chunkable_assets_of(modules, root)->Some_0;
    assert(set[set.len() - 1] == root);
}

/// The set of a root holds exactly the modules that the root reaches through
/// qualifying references.
pub proof fn lemma_set_holds_what_root_reaches(modules: Map<u64, ModuleEntry>, root: u64, module: u64)
    requires
        modules.dom().finite(),
        chunkable_assets_of(modules, root) is Some,
    ensures
        chunkable_assets_of(modules, root)->Some_0.contains(module) <==> reachable(
            chunkable_edges(modules),
            root,
            module,
        ),
{
    lemma_chunkable_edges_finite(modules);
    lemma_emits_what_start_reaches(chunkable_edges(modules), root, module);
}

/// In the set of a root, every child of a member is a member, and comes
/// before that member unless the child reaches it.
pub proof fn lemma_children_come_first(
    modules: Map<u64, ModuleEntry>,
    root: u64,
    parent: u64,
    child: u64,
    at: int,
)
    requires
        modules.dom().finite(),
        chunkable_assets_of(modules, root) matches Some(set) && 0 <= at < set.len() && set[at]
            == parent,
        has_edge(chunkable_edges(modules), parent, child),
    ensures
        ({
            let set = chunkable_assets_of(modules, root)->Some_0;
            &&& set.contains(child)
            &&& !reachable(chunkable_edges(modules), child, parent) ==> exists|before: int|
                0 <= before < at && set[before] == child
        }),
{
    lemma_chunkable_edges_finite(modules);
    lemma_children_before_parents(chunkable_edges(modules), seq![root], parent, child, at);
}

} // verus!
