use chunk_availability::chunk::chunkable_assets::chunkable_assets_set;
use chunk_availability::chunk::chunkable_assets::unresolved_modules;
use chunk_availability::chunk::chunkable_assets::LookupError;
use chunk_availability::chunk::ChunkableModuleReference;
use chunk_availability::chunk::ChunkingType;
use chunk_availability::module::ModuleEntry;
use chunk_availability::module::ModuleGraph;
use chunk_availability::module::ModuleVc;
use chunk_availability::module::ModulesSet;
use chunk_availability::reference::chunkable_children;
use chunk_availability::reference::ModuleReference;

fn module(graph: &mut ModuleGraph, ident: &str) -> ModuleVc {
    let module = ModuleVc { id: 100 + graph.len() as u64 };
    set_references(graph, module, ident, Some(Vec::new()));
    module
}

fn set_references(
    graph: &mut ModuleGraph,
    module: ModuleVc,
    ident: &str,
    references: Option<Vec<ModuleReference>>,
) {
    graph.insert(module, ModuleEntry { ident: ident.to_string(), references });
}

fn edge(chunking_type: ChunkingType, targets: &[ModuleVc]) -> ModuleReference {
    ModuleReference {
        chunkable: Some(ChunkableModuleReference { chunking_type, targets: Some(targets.to_vec()) }),
    }
}

fn plain() -> ModuleReference {
    ModuleReference { chunkable: None }
}

fn members(set: &ModulesSet) -> Vec<ModuleVc> {
    let mut all = Vec::new();
    let mut i = 0;
    while let Some(module) = set.get_index(i) {
        all.push(module);
        i += 1;
    }
    assert_eq!(all.len(), set.len());
    all
}

fn set_of(graph: &ModuleGraph, root: ModuleVc) -> Vec<ModuleVc> {
    members(&chunkable_assets_set(graph, root).unwrap())
}

#[test]
fn qualifying_chunking_types() {
    assert!(ChunkingType::Parallel.is_qualifying());
    assert!(ChunkingType::PlacedOrParallel.is_qualifying());
    assert!(ChunkingType::Placed.is_qualifying());
    assert!(!ChunkingType::Other.is_qualifying());
}

#[test]
fn children_are_deduplicated_in_first_occurrence_order() {
    let a = ModuleVc { id: 10 };
    let b = ModuleVc { id: 11 };
    let c = ModuleVc { id: 12 };
    let references = vec![
        edge(ChunkingType::Placed, &[b, a]),
        plain(),
        edge(ChunkingType::Other, &[c]),
        edge(ChunkingType::Parallel, &[a, c, b]),
    ];
    let children = chunkable_children(&references).unwrap();
    assert_eq!(children.len(), 3);
    assert_eq!(children.get_index(0), Some(11));
    assert_eq!(children.get_index(1), Some(10));
    assert_eq!(children.get_index(2), Some(12));
    assert_eq!(children.get_index(3), None);
    assert!(children.contains(12));
    assert!(!children.contains(13));
}

#[test]
fn unresolved_qualifying_reference_fails_the_children() {
    let references = vec![
        edge(ChunkingType::Placed, &[ModuleVc { id: 1 }]),
        ModuleReference {
            chunkable: Some(ChunkableModuleReference {
                chunking_type: ChunkingType::Parallel,
                targets: None,
            }),
        },
    ];
    assert!(chunkable_children(&references).is_none());
}

#[test]
fn unresolved_other_reference_is_ignored() {
    let references = vec![ModuleReference {
        chunkable: Some(ChunkableModuleReference {
            chunking_type: ChunkingType::Other,
            targets: None,
        }),
    }];
    assert_eq!(chunkable_children(&references).unwrap().len(), 0);
}

#[test]
fn root_without_references_is_its_own_set() {
    let mut graph = ModuleGraph::new();
    let a = module(&mut graph, "a");
    assert_eq!(set_of(&graph, a), vec![a]);
}

#[test]
fn repeated_calls_return_equal_sets() {
    let mut graph = ModuleGraph::new();
    let a = module(&mut graph, "a");
    let b = module(&mut graph, "b");
    let c = module(&mut graph, "c");
    set_references(&mut graph, a, "a", Some(vec![edge(ChunkingType::Placed, &[b, c])]));
    set_references(&mut graph, b, "b", Some(vec![edge(ChunkingType::Parallel, &[c])]));
    let first = set_of(&graph, a);
    let second = set_of(&graph, a);
    assert_eq!(first, second);
    assert_eq!(first, vec![c, b, a]);
}

#[test]
fn child_comes_before_root_and_root_is_a_member() {
    let mut graph = ModuleGraph::new();
    let root = module(&mut graph, "root");
    let child = module(&mut graph, "child");
    set_references(&mut graph, root, "root", Some(vec![edge(ChunkingType::PlacedOrParallel, &[child])]));
    let set = chunkable_assets_set(&graph, root).unwrap();
    assert!(set.contains(&root));
    assert!(set.contains(&child));
    assert_eq!(members(&set), vec![child, root]);
}

#[test]
fn diamond_contains_the_shared_module_once() {
    let mut graph = ModuleGraph::new();
    let a = module(&mut graph, "a");
    let b = module(&mut graph, "b");
    let c = module(&mut graph, "c");
    let d = module(&mut graph, "d");
    set_references(&mut graph, a, "a", Some(vec![edge(ChunkingType::Placed, &[b]), edge(ChunkingType::Placed, &[c])]));
    set_references(&mut graph, b, "b", Some(vec![edge(ChunkingType::Placed, &[d])]));
    set_references(&mut graph, c, "c", Some(vec![edge(ChunkingType::Placed, &[d])]));
    let set = set_of(&graph, a);
    assert_eq!(set.iter().filter(|module| **module == d).count(), 1);
    assert_eq!(set.len(), 4);
    for module in [a, b, c, d] {
        assert!(set.contains(&module));
    }
    assert_eq!(set, vec![d, c, b, a]);
}

#[test]
fn cycle_yields_each_module_once() {
    let mut graph = ModuleGraph::new();
    let a = module(&mut graph, "a");
    let b = module(&mut graph, "b");
    set_references(&mut graph, a, "a", Some(vec![edge(ChunkingType::Parallel, &[b])]));
    set_references(&mut graph, b, "b", Some(vec![edge(ChunkingType::Parallel, &[a])]));
    assert_eq!(set_of(&graph, a), vec![b, a]);
    assert_eq!(set_of(&graph, b), vec![a, b]);
}

#[test]
fn non_qualifying_references_are_excluded() {
    let mut graph = ModuleGraph::new();
    let r = module(&mut graph, "r");
    let x = module(&mut graph, "x");
    let y = module(&mut graph, "y");
    let z = module(&mut graph, "z");
    set_references(&mut graph, r, "r",
        Some(vec![edge(ChunkingType::Placed, &[x]), plain(), edge(ChunkingType::Other, &[z])]),
    );
    let set = chunkable_assets_set(&graph, r).unwrap();
    assert_eq!(members(&set), vec![x, r]);
    assert!(!set.contains(&y));
    assert!(!set.contains(&z));
}

#[test]
fn targets_repeated_under_one_parent_are_collapsed() {
    let mut graph = ModuleGraph::new();
    let a = module(&mut graph, "a");
    let b = module(&mut graph, "b");
    let c = module(&mut graph, "c");
    set_references(&mut graph, a, "a",
        Some(vec![edge(ChunkingType::Placed, &[b, c, b]), edge(ChunkingType::Parallel, &[c])]),
    );
    assert_eq!(set_of(&graph, a), vec![c, b, a]);
}

#[test]
fn failed_reference_lookup_aborts() {
    let mut graph = ModuleGraph::new();
    let a = module(&mut graph, "a");
    let b = module(&mut graph, "b");
    set_references(&mut graph, a, "a", Some(vec![edge(ChunkingType::Placed, &[b])]));
    set_references(&mut graph, b, "b", None);
    assert_eq!(chunkable_assets_set(&graph, a).err(), Some(LookupError { module: b }));
    assert_eq!(chunkable_assets_set(&graph, b).err(), Some(LookupError { module: b }));
}

#[test]
fn failed_target_lookup_aborts() {
    let mut graph = ModuleGraph::new();
    let a = module(&mut graph, "a");
    set_references(&mut graph, a, "a",
        Some(vec![ModuleReference {
            chunkable: Some(ChunkableModuleReference {
                chunking_type: ChunkingType::Placed,
                targets: None,
            }),
        }]),
    );
    assert_eq!(chunkable_assets_set(&graph, a).err(), Some(LookupError { module: a }));
}

#[test]
fn unknown_module_fails_the_lookup() {
    let mut graph = ModuleGraph::new();
    let a = module(&mut graph, "a");
    let missing = ModuleVc { id: 99 };
    set_references(&mut graph, a, "a", Some(vec![edge(ChunkingType::Placed, &[missing])]));
    assert_eq!(chunkable_assets_set(&graph, a).err(), Some(LookupError { module: missing }));
    assert_eq!(chunkable_assets_set(&graph, missing).err(), Some(LookupError { module: missing }));
}

#[test]
fn failure_behind_a_non_qualifying_reference_is_not_met() {
    let mut graph = ModuleGraph::new();
    let a = module(&mut graph, "a");
    let b = module(&mut graph, "b");
    set_references(&mut graph, a, "a", Some(vec![edge(ChunkingType::Other, &[b])]));
    set_references(&mut graph, b, "b", None);
    assert_eq!(set_of(&graph, a), vec![a]);
}

#[test]
fn graph_keeps_the_latest_entry_of_a_module() {
    let mut graph = ModuleGraph::new();
    assert_eq!(graph.len(), 0);
    let a = ModuleVc { id: 7 };
    let b = ModuleVc { id: 3 };
    assert!(graph.insert(a, ModuleEntry { ident: "a".to_string(), references: None }).is_none());
    assert!(graph.insert(b, ModuleEntry { ident: "b".to_string(), references: Some(Vec::new()) }).is_none());
    assert_eq!(graph.len(), 2);
    assert!(graph.contains(a));
    assert!(!graph.contains(ModuleVc { id: 2 }));
    assert_eq!(graph.get(b).unwrap().ident, "b");
    assert!(graph.get(ModuleVc { id: 2 }).is_none());
    assert!(graph.chunkable_children(a).is_none());
    assert!(graph.chunkable_children(ModuleVc { id: 2 }).is_none());
    assert_eq!(graph.chunkable_children(b).unwrap().len(), 0);
    let earlier = graph.insert(a, ModuleEntry { ident: "a2".to_string(), references: Some(Vec::new()) });
    assert_eq!(earlier.unwrap().ident, "a");
    assert_eq!(graph.len(), 2);
    assert_eq!(graph.get(a).unwrap().ident, "a2");
    assert_eq!(graph.chunkable_children(a).unwrap().len(), 0);
}

#[test]
fn unresolved_modules_are_the_unknown_reachable_ones() {
    let mut graph = ModuleGraph::new();
    let a = ModuleVc { id: 1 };
    let b = ModuleVc { id: 2 };
    let c = ModuleVc { id: 3 };
    let d = ModuleVc { id: 4 };
    let e = ModuleVc { id: 5 };
    assert_eq!(unresolved_modules(&graph, a), vec![a]);
    set_references(
        &mut graph,
        a,
        "a",
        Some(vec![edge(ChunkingType::Placed, &[b, c]), edge(ChunkingType::Other, &[e]), edge(ChunkingType::Parallel, &[c])]),
    );
    assert_eq!(unresolved_modules(&graph, a), vec![b, c]);
    set_references(&mut graph, b, "b", Some(vec![edge(ChunkingType::Placed, &[d, a])]));
    assert_eq!(unresolved_modules(&graph, a), vec![c, d]);
    set_references(&mut graph, c, "c", None);
    assert_eq!(unresolved_modules(&graph, a), vec![d]);
    assert_eq!(chunkable_assets_set(&graph, a).err(), Some(LookupError { module: c }));
    set_references(&mut graph, c, "c", Some(Vec::new()));
    set_references(&mut graph, d, "d", Some(Vec::new()));
    assert_eq!(unresolved_modules(&graph, a), Vec::<ModuleVc>::new());
    assert_eq!(set_of(&graph, a), vec![c, d, b, a]);
}

#[test]
fn modules_set_keeps_first_insertions() {
    let mut set = ModulesSet::new();
    assert!(set.insert(ModuleVc { id: 4 }));
    assert!(set.insert(ModuleVc { id: 2 }));
    assert!(!set.insert(ModuleVc { id: 4 }));
    assert_eq!(members(&set), vec![ModuleVc { id: 4 }, ModuleVc { id: 2 }]);
    assert!(set.contains(&ModuleVc { id: 2 }));
    assert!(!set.contains(&ModuleVc { id: 3 }));
}
