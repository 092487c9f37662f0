use chunk_availability::graph::adjacency_map::AdjacencyMap;

fn collect(map: AdjacencyMap<u32>) -> Vec<u32> {
    let mut iter = map.into_reverse_topological();
    let mut order = Vec::new();
    while let Some(node) = iter.next() {
        order.push(node);
    }
    order
}

fn collect_from(map: &AdjacencyMap<u32>, node: u32) -> Vec<u32> {
    let mut iter = map.reverse_topological_from_node(&node);
    let mut order = Vec::new();
    while let Some(node) = iter.next() {
        order.push(node);
    }
    order
}

#[test]
fn new_map_is_empty() {
    let map: AdjacencyMap<u32> = AdjacencyMap::new();
    assert!(map.roots().is_empty());
    assert!(map.get(&1).is_none());
    assert_eq!(collect(map), Vec::<u32>::new());
}

#[test]
fn insert_without_parent_adds_a_root() {
    let mut map = AdjacencyMap::new();
    assert_eq!(map.insert(None, 7u32), Some((7, 7)));
    assert_eq!(map.insert(None, 3u32), Some((3, 3)));
    assert_eq!(map.roots(), &vec![7, 3]);
    assert!(map.get(&7).is_none());
}

#[test]
fn insert_with_parent_appends_a_child() {
    let mut map = AdjacencyMap::new();
    map.insert(None, 1u32);
    assert_eq!(map.insert(Some(1), 2), Some((2, 2)));
    map.insert(Some(1), 3);
    assert_eq!(map.get(&1), Some(&vec![2, 3]));
    assert_eq!(map.roots(), &vec![1]);
    assert!(map.get(&2).is_none());
}

#[test]
fn duplicate_edges_are_kept() {
    let mut map = AdjacencyMap::new();
    map.insert(None, 1u32);
    map.insert(Some(1), 2);
    map.insert(Some(1), 2);
    assert_eq!(map.get(&1), Some(&vec![2, 2]));
    assert_eq!(collect(map), vec![2, 1]);
}

#[test]
fn leaf_root_is_emitted() {
    let mut map = AdjacencyMap::new();
    map.insert(None, 5u32);
    assert_eq!(collect(map), vec![5]);
}

#[test]
fn chain_is_emitted_deepest_first() {
    let mut map = AdjacencyMap::new();
    map.insert(None, 1u32);
    map.insert(Some(1), 2);
    map.insert(Some(2), 3);
    assert_eq!(collect(map), vec![3, 2, 1]);
}

#[test]
fn later_children_are_expanded_first() {
    let mut map = AdjacencyMap::new();
    map.insert(None, 1u32);
    map.insert(Some(1), 2);
    map.insert(Some(1), 3);
    map.insert(Some(1), 4);
    assert_eq!(collect(map), vec![4, 3, 2, 1]);
}

#[test]
fn later_roots_are_expanded_first() {
    let mut map = AdjacencyMap::new();
    map.insert(None, 1u32);
    map.insert(None, 2u32);
    map.insert(Some(1), 3);
    assert_eq!(collect(map), vec![2, 3, 1]);
}

#[test]
fn repeated_root_is_emitted_once() {
    let mut map = AdjacencyMap::new();
    map.insert(None, 1u32);
    map.insert(None, 1u32);
    assert_eq!(collect(map), vec![1]);
}

#[test]
fn diamond_emits_the_shared_node_once() {
    let mut map = AdjacencyMap::new();
    map.insert(None, 1u32);
    map.insert(Some(1), 2);
    map.insert(Some(1), 3);
    map.insert(Some(2), 4);
    map.insert(Some(3), 4);
    assert_eq!(collect(map), vec![4, 3, 2, 1]);
}

#[test]
fn cycle_terminates() {
    let mut map = AdjacencyMap::new();
    map.insert(None, 1u32);
    map.insert(Some(1), 2);
    map.insert(Some(2), 1);
    assert_eq!(collect(map), vec![2, 1]);
}

#[test]
fn self_loop_terminates() {
    let mut map = AdjacencyMap::new();
    map.insert(None, 1u32);
    map.insert(Some(1), 1);
    assert_eq!(collect(map), vec![1]);
}

#[test]
fn unreachable_nodes_are_not_emitted() {
    let mut map = AdjacencyMap::new();
    map.insert(None, 1u32);
    map.insert(Some(1), 2);
    map.insert(Some(8), 9);
    assert_eq!(collect(map), vec![2, 1]);
}

#[test]
fn traversal_from_a_node_ignores_the_roots() {
    let mut map = AdjacencyMap::new();
    map.insert(None, 1u32);
    map.insert(Some(1), 2);
    map.insert(Some(2), 3);
    map.insert(Some(2), 4);
    assert_eq!(collect_from(&map, 2), vec![4, 3, 2]);
    assert_eq!(collect_from(&map, 4), vec![4]);
    assert_eq!(collect_from(&map, 1), vec![4, 3, 2, 1]);
    assert_eq!(collect_from(&map, 1), vec![4, 3, 2, 1]);
}

#[test]
fn traversal_from_an_unknown_node_emits_it() {
    let map: AdjacencyMap<u32> = AdjacencyMap::new();
    assert_eq!(collect_from(&map, 42), vec![42]);
}

#[test]
fn finished_traversal_keeps_returning_none() {
    let mut map = AdjacencyMap::new();
    map.insert(None, 1u32);
    let mut iter = map.into_reverse_topological();
    assert_eq!(iter.next(), Some(1));
    assert_eq!(iter.next(), None);
    assert_eq!(iter.next(), None);
}

#[test]
fn skip_duplicates_reports_known_nodes() {
    let mut store = AdjacencyMap::new().skip_duplicates();
    assert_eq!(store.insert(None, 1u32), Some((1, 1)));
    assert_eq!(store.insert(Some(1), 2), Some((2, 2)));
    assert_eq!(store.insert(Some(2), 1), None);
    assert_eq!(store.insert(Some(1), 2), None);
    let map = store.into_inner();
    assert_eq!(map.get(&1), Some(&vec![2, 2]));
    assert_eq!(map.get(&2), Some(&vec![1]));
    assert_eq!(collect(map), vec![2, 1]);
}
