use dispatch_engine::errors::DispatchError;
use dispatch_engine::graph::{Edge, GraphSnapshot, Node};
use dispatch_engine::path::shortest_distances;
use dispatch_engine::store::GraphStore;

fn scenario_store() -> GraphStore {
    let nodes = vec![
        Node { id: 1, area_id: 1 },
        Node { id: 2, area_id: 1 },
        Node { id: 3, area_id: 1 },
    ];
    let edges = vec![
        Edge { node_a_id: 1, node_b_id: 2, weight: 4 },
        Edge { node_a_id: 1, node_b_id: 3, weight: 10 },
        Edge { node_a_id: 2, node_b_id: 3, weight: 3 },
    ];
    GraphStore::new(nodes, edges).unwrap()
}

fn dist_to(store: &GraphStore, area: i32, from: i32, to: i32) -> Option<u64> {
    let snap = store.get_snapshot(area).unwrap();
    let dists = shortest_distances(&snap, from).unwrap();
    let pos = snap.nodes().iter().position(|&n| n == to).unwrap();
    dists[pos]
}

#[test]
fn shortest_path_goes_via_intermediate_node() {
    let store = scenario_store();
    assert_eq!(dist_to(&store, 1, 1, 3), Some(7));
    assert_eq!(dist_to(&store, 1, 1, 2), Some(4));
    assert_eq!(dist_to(&store, 1, 1, 1), Some(0));
}

#[test]
fn shortest_path_direct_after_reweight() {
    let mut store = scenario_store();
    store.update_edge_weight(1, 3, 5).unwrap();
    assert_eq!(dist_to(&store, 1, 1, 3), Some(5));
}

#[test]
fn negative_weight_rejected_graph_unchanged() {
    let mut store = scenario_store();
    let before = store.get_edges(None);
    let r = store.update_edge_weight(1, 3, -1);
    assert_eq!(r, Err(DispatchError::InvalidInput));
    assert_eq!(store.get_edges(None), before);
}

#[test]
fn update_edge_weight_is_idempotent() {
    let mut once = scenario_store();
    once.update_edge_weight(1, 3, 5).unwrap();
    let mut twice = scenario_store();
    twice.update_edge_weight(1, 3, 5).unwrap();
    twice.update_edge_weight(1, 3, 5).unwrap();
    assert_eq!(once.get_edges(None), twice.get_edges(None));
}

#[test]
fn update_edge_weight_is_symmetric() {
    let mut ab = scenario_store();
    ab.update_edge_weight(1, 3, 5).unwrap();
    let mut ba = scenario_store();
    ba.update_edge_weight(3, 1, 5).unwrap();
    assert_eq!(ab.get_edges(None), ba.get_edges(None));
}

#[test]
fn snapshot_taken_before_update_never_reflects_it() {
    let mut store = scenario_store();
    let snap_before = store.get_snapshot(1).unwrap();
    store.update_edge_weight(1, 3, 5).unwrap();
    let snap_after = store.get_snapshot(1).unwrap();
    let pos = |s: &GraphSnapshot, id: i32| s.nodes().iter().position(|&n| n == id).unwrap();
    let d_before = shortest_distances(&snap_before, 1).unwrap();
    let d_after = shortest_distances(&snap_after, 1).unwrap();
    assert_eq!(d_before[pos(&snap_before, 3)], Some(7));
    assert_eq!(d_after[pos(&snap_after, 3)], Some(5));
}

#[test]
fn unknown_pair_is_edge_not_found() {
    let mut store = scenario_store();
    assert_eq!(store.update_edge_weight(1, 99, 5), Err(DispatchError::EdgeNotFound));
    assert_eq!(store.update_edge_weight(2, 2, 5), Err(DispatchError::EdgeNotFound));
}

#[test]
fn empty_area_is_area_not_found() {
    let store = scenario_store();
    assert_eq!(store.get_snapshot(99).err(), Some(DispatchError::AreaNotFound));
}

#[test]
fn absent_source_is_node_not_in_graph() {
    let store = scenario_store();
    let snap = store.get_snapshot(1).unwrap();
    assert_eq!(shortest_distances(&snap, 42).err(), Some(DispatchError::NodeNotInGraph));
}

#[test]
fn unreachable_node_has_no_distance() {
    let nodes = vec![
        Node { id: 1, area_id: 1 },
        Node { id: 2, area_id: 1 },
        Node { id: 3, area_id: 1 },
    ];
    let edges = vec![Edge { node_a_id: 1, node_b_id: 2, weight: 4 }];
    let store = GraphStore::new(nodes, edges).unwrap();
    assert_eq!(dist_to(&store, 1, 1, 3), None);
    assert_eq!(dist_to(&store, 1, 1, 2), Some(4));
}

#[test]
fn store_rejects_unsorted_nodes() {
    let nodes = vec![Node { id: 2, area_id: 1 }, Node { id: 1, area_id: 1 }];
    assert_eq!(GraphStore::new(nodes, Vec::new()).err(), Some(DispatchError::InvalidInput));
}

#[test]
fn store_rejects_duplicate_pair() {
    let nodes = vec![Node { id: 1, area_id: 1 }, Node { id: 2, area_id: 1 }];
    let edges = vec![
        Edge { node_a_id: 1, node_b_id: 2, weight: 4 },
        Edge { node_a_id: 1, node_b_id: 2, weight: 9 },
    ];
    assert_eq!(GraphStore::new(nodes, edges).err(), Some(DispatchError::InvalidInput));
}

#[test]
fn store_rejects_cross_area_edge() {
    let nodes = vec![Node { id: 1, area_id: 1 }, Node { id: 2, area_id: 2 }];
    let edges = vec![Edge { node_a_id: 1, node_b_id: 2, weight: 4 }];
    assert_eq!(GraphStore::new(nodes, edges).err(), Some(DispatchError::InvalidInput));
}

#[test]
fn snapshot_constructor_validates() {
    let snap = GraphSnapshot::new(
        vec![1, 2, 3],
        vec![Edge { node_a_id: 1, node_b_id: 3, weight: 2 }],
    );
    assert!(snap.is_ok());
    let bad = GraphSnapshot::new(vec![1, 1], Vec::new());
    assert_eq!(bad.err(), Some(DispatchError::InvalidInput));
    let dangling = GraphSnapshot::new(
        vec![1, 2],
        vec![Edge { node_a_id: 1, node_b_id: 9, weight: 2 }],
    );
    assert_eq!(dangling.err(), Some(DispatchError::InvalidInput));
}

#[test]
fn snapshot_restricted_to_area() {
    let nodes = vec![
        Node { id: 1, area_id: 1 },
        Node { id: 2, area_id: 2 },
        Node { id: 3, area_id: 1 },
    ];
    let edges = vec![Edge { node_a_id: 1, node_b_id: 3, weight: 6 }];
    let store = GraphStore::new(nodes, edges).unwrap();
    let snap = store.get_snapshot(1).unwrap();
    assert_eq!(snap.nodes().as_slice(), &[1, 3]);
    assert_eq!(snap.edges().len(), 1);
    let snap2 = store.get_snapshot(2).unwrap();
    assert_eq!(snap2.nodes().as_slice(), &[2]);
    assert_eq!(snap2.edges().len(), 0);
}

#[test]
fn node_and_edge_listings() {
    let store = scenario_store();
    assert_eq!(store.get_nodes(None).len(), 3);
    assert_eq!(store.get_nodes(Some(1)).len(), 3);
    assert_eq!(store.get_nodes(Some(9)).len(), 0);
    assert_eq!(store.get_edges(None).len(), 3);
    assert_eq!(store.get_edges(Some(1)).len(), 3);
    assert_eq!(store.get_edges(Some(9)).len(), 0);
    assert_eq!(store.get_area_id_by_node_id(2), Ok(1));
    assert_eq!(store.get_area_id_by_node_id(42), Err(DispatchError::NodeNotFound));
}

#[test]
fn update_in_one_area_invisible_to_another() {
    let nodes = vec![
        Node { id: 1, area_id: 1 },
        Node { id: 2, area_id: 1 },
        Node { id: 3, area_id: 2 },
        Node { id: 4, area_id: 2 },
    ];
    let edges = vec![
        Edge { node_a_id: 1, node_b_id: 2, weight: 4 },
        Edge { node_a_id: 3, node_b_id: 4, weight: 2 },
    ];
    let mut store = GraphStore::new(nodes, edges).unwrap();
    let area1_before = store.get_edges(Some(1));
    store.update_edge_weight(3, 4, 9).unwrap();
    assert_eq!(store.get_edges(Some(1)), area1_before);
    assert_eq!(store.get_edges(Some(2))[0].weight, 9);
}
