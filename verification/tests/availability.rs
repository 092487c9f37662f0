use chunk_availability::chunk::availability_info::AvailabilityInfo;
use chunk_availability::chunk::chunkable_assets::chunkable_assets_set;
use chunk_availability::chunk::available_assets::AvailableAssetsVc;
use chunk_availability::chunk::chunkable_assets::LookupError;
use chunk_availability::chunk::available_assets::ORIGIN_HASH;
use chunk_availability::chunk::chunkable_assets::ChunkableAssetsMemo;
use chunk_availability::chunk::ChunkableModuleReference;
use chunk_availability::chunk::ChunkingType;
use chunk_availability::hash::HashBuffer;
use chunk_availability::module::ModuleEntry;
use chunk_availability::module::ModuleGraph;
use chunk_availability::module::ModuleVc;
use chunk_availability::reference::ModuleReference;
use std::hash::Hasher;
use twox_hash::XxHash3_64;

fn placed(targets: &[ModuleVc]) -> ModuleReference {
    ModuleReference {
        chunkable: Some(ChunkableModuleReference {
            chunking_type: ChunkingType::Placed,
            targets: Some(targets.to_vec()),
        }),
    }
}

fn add(graph: &mut ModuleGraph, id: u64, ident: &str, children: &[ModuleVc]) -> ModuleVc {
    let module = ModuleVc { id };
    graph.insert(
        module,
        ModuleEntry { ident: ident.to_string(), references: Some(vec![placed(children)]) },
    );
    module
}

/// a -> b -> c, d -> c, e alone, f -> g where g is unknown.
fn sample() -> (ModuleGraph, [ModuleVc; 7]) {
    let mut graph = ModuleGraph::new();
    let c = add(&mut graph, 3, "c.js", &[]);
    let b = add(&mut graph, 2, "b.js", &[c]);
    let a = add(&mut graph, 1, "a.js", &[b]);
    let d = add(&mut graph, 4, "d.js", &[c]);
    let e = add(&mut graph, 5, "e.js", &[]);
    let g = ModuleVc { id: 7 };
    let f = add(&mut graph, 6, "f.js", &[g]);
    (graph, [a, b, c, d, e, f, g])
}

fn stream_digest(parent: u64, idents: &[&str]) -> u64 {
    let mut hasher = XxHash3_64::with_seed(0);
    hasher.write(&parent.to_le_bytes());
    for ident in idents {
        hasher.write(&(ident.len() as u64).to_le_bytes());
        hasher.write(ident.as_bytes());
    }
    hasher.finish()
}

#[test]
fn origin_stores_its_roots_verbatim() {
    let a = ModuleVc { id: 1 };
    let b = ModuleVc { id: 2 };
    let chain = AvailableAssetsVc::new(vec![b, a, b]);
    assert_eq!(chain.roots(), &vec![b, a, b]);
    assert!(chain.parent().is_none());
}

#[test]
fn origin_includes_its_root() {
    let (graph, [a, ..]) = sample();
    let chain = AvailableAssetsVc::new(vec![a]);
    assert_eq!(chain.includes(&graph, a), Ok(true));
}

#[test]
fn origin_includes_what_its_roots_bring_along() {
    let (graph, [a, b, c, d, e, ..]) = sample();
    let chain = AvailableAssetsVc::new(vec![e, a]);
    assert_eq!(chain.includes(&graph, a), Ok(true));
    assert_eq!(chain.includes(&graph, b), Ok(true));
    assert_eq!(chain.includes(&graph, c), Ok(true));
    assert_eq!(chain.includes(&graph, e), Ok(true));
    assert_eq!(chain.includes(&graph, d), Ok(false));
}

#[test]
fn empty_origin_includes_nothing() {
    let (graph, [a, ..]) = sample();
    let chain = AvailableAssetsVc::new(Vec::new());
    assert_eq!(chain.includes(&graph, a), Ok(false));
    assert_eq!(chain.includes(&graph, ModuleVc { id: 99 }), Ok(false));
}

#[test]
fn extension_keeps_what_the_parent_includes() {
    let (graph, [a, b, c, d, e, ..]) = sample();
    let chain = AvailableAssetsVc::new(vec![b]);
    let extended = chain.with_roots(&graph, vec![d]).unwrap();
    for module in [a, b, c, d, e] {
        if chain.includes(&graph, module) == Ok(true) {
            assert_eq!(extended.includes(&graph, module), Ok(true));
        }
    }
    assert_eq!(chain.includes(&graph, b), Ok(true));
    assert_eq!(chain.includes(&graph, d), Ok(false));
    assert_eq!(extended.includes(&graph, d), Ok(true));
    assert_eq!(extended.includes(&graph, a), Ok(false));
}

#[test]
fn extension_drops_covered_candidates() {
    let (graph, [a, b, ..]) = sample();
    let chain = AvailableAssetsVc::new(vec![b]);
    let extended = chain.with_roots(&graph, vec![b, a]).unwrap();
    assert_eq!(extended.roots(), &vec![a]);
    assert_eq!(extended.parent().unwrap().roots(), &vec![b]);
}

#[test]
fn extension_keeps_the_order_of_the_survivors() {
    let (graph, [a, _b, c, d, e, ..]) = sample();
    let chain = AvailableAssetsVc::new(vec![c]);
    let extended = chain.with_roots(&graph, vec![e, c, d, a, e]).unwrap();
    assert_eq!(extended.roots(), &vec![e, d, a, e]);
}

#[test]
fn extension_leaves_the_parent_as_it_was() {
    let (graph, [a, b, _c, d, ..]) = sample();
    let chain = AvailableAssetsVc::new(vec![b]);
    let held = chain.share();
    let first = chain.with_roots(&graph, vec![a]).unwrap();
    let second = chain.with_roots(&graph, vec![d]).unwrap();
    assert_eq!(chain.roots(), &vec![b]);
    assert!(chain.parent().is_none());
    assert_eq!(held.roots(), &vec![b]);
    assert_eq!(chain.includes(&graph, a), Ok(false));
    assert_eq!(first.includes(&graph, a), Ok(true));
    assert_eq!(first.includes(&graph, d), Ok(false));
    assert_eq!(second.includes(&graph, d), Ok(true));
    assert_eq!(second.includes(&graph, a), Ok(false));
}

#[test]
fn roots_of_one_link_may_overlap() {
    let (graph, [a, _b, _c, d, ..]) = sample();
    let chain = AvailableAssetsVc::new(Vec::new());
    let extended = chain.with_roots(&graph, vec![a, d]).unwrap();
    assert_eq!(extended.roots(), &vec![a, d]);
}

#[test]
fn ancestors_are_asked_before_the_own_roots() {
    let (graph, [a, b, _c, _d, e, f, g]) = sample();
    let chain = AvailableAssetsVc::new(vec![a]);
    let extended = chain.with_roots(&graph, vec![f]).unwrap();
    assert_eq!(extended.roots(), &vec![f]);
    assert_eq!(extended.includes(&graph, a), Ok(true));
    assert_eq!(extended.includes(&graph, b), Ok(true));
    assert_eq!(extended.includes(&graph, e), Err(LookupError { module: g }));
}

#[test]
fn first_matching_root_settles_inclusion() {
    let (graph, [a, b, _c, _d, _e, f, g]) = sample();
    let chain = AvailableAssetsVc::new(vec![a, f]);
    assert_eq!(chain.includes(&graph, b), Ok(true));
    assert_eq!(chain.includes(&graph, f), Err(LookupError { module: g }));
    let failing_first = AvailableAssetsVc::new(vec![f, a]);
    assert_eq!(failing_first.includes(&graph, b), Err(LookupError { module: g }));
}

#[test]
fn failure_in_an_ancestor_is_passed_on() {
    let (graph, [a, _b, _c, _d, e, f, g]) = sample();
    let chain = AvailableAssetsVc::new(vec![f]);
    assert_eq!(chain.includes(&graph, e), Err(LookupError { module: g }));
    assert_eq!(chain.with_roots(&graph, vec![a]).err(), Some(LookupError { module: g }));
    assert_eq!(chunkable_assets_set(&graph, f).err(), Some(LookupError { module: g }));
}

#[test]
fn hash_is_repeatable() {
    let (graph, [a, ..]) = sample();
    let first = AvailableAssetsVc::new(vec![a]).hash(&graph).unwrap();
    let second = AvailableAssetsVc::new(vec![a]).hash(&graph).unwrap();
    assert_eq!(first, second);
    let chain = AvailableAssetsVc::new(vec![a]);
    assert_eq!(chain.hash(&graph), chain.hash(&graph));
}

#[test]
fn hash_of_an_origin_digests_the_sentinel_and_the_identities() {
    let (graph, [a, b, ..]) = sample();
    assert_eq!(ORIGIN_HASH, 0);
    let chain = AvailableAssetsVc::new(vec![a, b]);
    assert_eq!(chain.hash(&graph), Ok(stream_digest(0, &["a.js", "b.js"])));
    let empty = AvailableAssetsVc::new(Vec::new());
    assert_eq!(empty.hash(&graph), Ok(stream_digest(0, &[])));
    assert_eq!(empty.hash(&graph), Ok(XxHash3_64::oneshot(&[0u8; 8])));
}

#[test]
fn hash_of_an_extension_digests_the_parent_hash() {
    let (graph, [a, _b, _c, d, e, ..]) = sample();
    let chain = AvailableAssetsVc::new(vec![a]);
    let extended = chain.with_roots(&graph, vec![d, e]).unwrap();
    let parent = stream_digest(0, &["a.js"]);
    assert_eq!(chain.hash(&graph), Ok(parent));
    assert_eq!(extended.hash(&graph), Ok(stream_digest(parent, &["d.js", "e.js"])));
}

#[test]
fn hash_changes_with_roots_order_and_parent() {
    let (graph, [a, b, _c, d, ..]) = sample();
    let base = AvailableAssetsVc::new(vec![a, d]).hash(&graph).unwrap();
    assert_ne!(base, AvailableAssetsVc::new(vec![b, d]).hash(&graph).unwrap());
    assert_ne!(base, AvailableAssetsVc::new(vec![d, a]).hash(&graph).unwrap());
    assert_ne!(base, AvailableAssetsVc::new(vec![a]).hash(&graph).unwrap());
    let over_a = AvailableAssetsVc::new(vec![a]).with_roots(&graph, vec![d]).unwrap();
    let over_b = AvailableAssetsVc::new(vec![b]).with_roots(&graph, vec![d]).unwrap();
    assert_ne!(over_a.hash(&graph).unwrap(), over_b.hash(&graph).unwrap());
    assert_ne!(over_a.hash(&graph).unwrap(), AvailableAssetsVc::new(vec![d]).hash(&graph).unwrap());
}

#[test]
fn hash_depends_on_identities_not_on_handles() {
    let mut first = ModuleGraph::new();
    let a = add(&mut first, 1, "same.js", &[]);
    let mut second = ModuleGraph::new();
    let b = add(&mut second, 9, "same.js", &[]);
    let mut third = ModuleGraph::new();
    let c = add(&mut third, 1, "other.js", &[]);
    let of_a = AvailableAssetsVc::new(vec![a]).hash(&first).unwrap();
    assert_eq!(of_a, AvailableAssetsVc::new(vec![b]).hash(&second).unwrap());
    assert_ne!(of_a, AvailableAssetsVc::new(vec![c]).hash(&third).unwrap());
}

#[test]
fn hash_fails_for_an_unknown_root() {
    let (graph, [a, _b, _c, _d, _e, _f, g]) = sample();
    assert_eq!(AvailableAssetsVc::new(vec![a, g]).hash(&graph), Err(LookupError { module: g }));
    let chain = AvailableAssetsVc::new(vec![g]);
    let extended = AvailableAssetsVc::new(Vec::new()).with_roots(&graph, vec![a]).unwrap();
    assert_eq!(chain.hash(&graph), Err(LookupError { module: g }));
    assert!(extended.hash(&graph).is_ok());
}

#[test]
fn hash_buffer_encodes_numbers_and_strings() {
    let mut buffer = HashBuffer::new();
    assert_eq!(buffer.finish(), 0x2D06800538D394C2);
    buffer.write_u64(0x0102030405060708);
    buffer.write_str("hé");
    buffer.write_bytes(&[9, 9]);
    let expected: Vec<u8> = vec![8, 7, 6, 5, 4, 3, 2, 1, 3, 0, 0, 0, 0, 0, 0, 0, b'h', 0xC3, 0xA9, 9, 9];
    assert_eq!(buffer.finish(), XxHash3_64::oneshot(&expected));
    assert_ne!(buffer.finish(), 0x2D06800538D394C2);
}

#[test]
fn availability_info_accessors() {
    let root = ModuleVc { id: 4 };
    let untracked = AvailabilityInfo::Untracked;
    assert_eq!(untracked.current_availability_root(), None);
    assert!(untracked.available_assets().is_none());
    let at_root = AvailabilityInfo::Root { current_availability_root: root };
    assert_eq!(at_root.current_availability_root(), Some(root));
    assert!(at_root.available_assets().is_none());
    let chain = AvailableAssetsVc::new(vec![ModuleVc { id: 1 }]);
    let inner =
        AvailabilityInfo::Inner { available_assets: chain, current_availability_root: root };
    assert_eq!(inner.current_availability_root(), Some(root));
    assert_eq!(inner.available_assets().unwrap().roots(), &vec![ModuleVc { id: 1 }]);
}

#[test]
fn memo_answers_as_the_computation_does() {
    let (graph, [a, b, c, d, e, f, g]) = sample();
    let mut memo = ChunkableAssetsMemo::new();
    for _ in 0..2 {
        assert_eq!(memo.contains(&graph, a, c), Ok(true));
        assert_eq!(memo.contains(&graph, a, d), Ok(false));
        assert_eq!(memo.contains(&graph, d, c), Ok(true));
        assert_eq!(memo.contains(&graph, e, e), Ok(true));
        assert_eq!(memo.contains(&graph, f, f), Err(LookupError { module: g }));
    }
    for root in [a, b, c, d, e] {
        let set = chunkable_assets_set(&graph, root).unwrap();
        for module in [a, b, c, d, e, f, g] {
            assert_eq!(memo.contains(&graph, root, module), Ok(set.contains(&module)));
        }
    }
}

#[test]
fn memoized_queries_agree_with_the_plain_ones() {
    let (graph, [a, b, c, d, e, f, g]) = sample();
    let mut memo = ChunkableAssetsMemo::new();
    let chain = AvailableAssetsVc::new(vec![b]);
    let extended = chain.with_roots_memoized(&graph, &mut memo, vec![c, d, b, e]).unwrap();
    assert_eq!(extended.roots(), &vec![d, e]);
    assert_eq!(extended.roots(), chain.with_roots(&graph, vec![c, d, b, e]).unwrap().roots());
    for module in [a, b, c, d, e, f, g] {
        assert_eq!(
            extended.includes_memoized(&graph, &mut memo, module),
            extended.includes(&graph, module)
        );
    }
    let failing = AvailableAssetsVc::new(vec![f]);
    assert_eq!(failing.includes_memoized(&graph, &mut memo, a), Err(LookupError { module: g }));
    assert_eq!(
        failing.with_roots_memoized(&graph, &mut memo, vec![a]).err(),
        Some(LookupError { module: g })
    );
}

#[test]
fn memo_is_cleared_when_the_graph_changes() {
    let (mut graph, [a, _b, _c, _d, e, ..]) = sample();
    let mut memo = ChunkableAssetsMemo::new();
    let chain = AvailableAssetsVc::new(vec![a]);
    assert_eq!(chain.includes_memoized(&graph, &mut memo, e), Ok(false));
    add(&mut graph, 3, "c.js", &[e]);
    memo.clear();
    assert_eq!(chain.includes_memoized(&graph, &mut memo, e), Ok(true));
    assert_eq!(chain.includes(&graph, e), Ok(true));
}
