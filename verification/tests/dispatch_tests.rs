use dispatch_engine::engine::DispatchEngine;
use dispatch_engine::errors::DispatchError;
use dispatch_engine::graph::{Edge, Node};
use dispatch_engine::order::{Order, OrderBook, OrderStatus};
use dispatch_engine::store::GraphStore;
use dispatch_engine::vehicle::{Vehicle, VehicleLocator, VehicleStatus};

fn scenario_graph() -> GraphStore {
    let nodes = vec![
        Node { id: 1, area_id: 1 },
        Node { id: 2, area_id: 1 },
        Node { id: 3, area_id: 1 },
    ];
    let edges = vec![
        Edge { node_a_id: 1, node_b_id: 2, weight: 4 },
        Edge { node_a_id: 1, node_b_id: 3, weight: 10 },
        Edge { node_a_id: 2, node_b_id: 3, weight: 3 },
    ];
    GraphStore::new(nodes, edges).unwrap()
}

fn engine_with(vehicles: Vec<Vehicle>, orders: Vec<Order>) -> DispatchEngine {
    DispatchEngine::new(
        scenario_graph(),
        VehicleLocator::new(vehicles).unwrap(),
        OrderBook::new(orders).unwrap(),
    )
}

fn pending_order(id: i32, node_id: i32) -> Order {
    Order { id, node_id, status: OrderStatus::Pending, tow_truck_id: None }
}

#[test]
fn resolver_returns_vehicle_at_distance_seven() {
    let engine = engine_with(
        vec![Vehicle { id: 7, node_id: 3, status: VehicleStatus::Available }],
        vec![pending_order(100, 1)],
    );
    assert_eq!(engine.resolve_nearest_vehicle(100), Ok(Some(7)));
}

#[test]
fn reweight_shortens_route_and_resolution_still_picks_correctly() {
    let mut engine = engine_with(
        vec![Vehicle { id: 7, node_id: 3, status: VehicleStatus::Available }],
        vec![pending_order(100, 1)],
    );
    engine.update_edge(1, 3, 5).unwrap();
    assert_eq!(engine.resolve_nearest_vehicle(100), Ok(Some(7)));
}

#[test]
fn nearest_of_two_vehicles_wins() {
    let engine = engine_with(
        vec![
            Vehicle { id: 7, node_id: 3, status: VehicleStatus::Available },
            Vehicle { id: 8, node_id: 2, status: VehicleStatus::Available },
        ],
        vec![pending_order(100, 1)],
    );
    // node 2 sits at distance 4, node 3 at distance 7
    assert_eq!(engine.resolve_nearest_vehicle(100), Ok(Some(8)));
}

#[test]
fn distance_tie_breaks_on_lowest_vehicle_id() {
    let engine = engine_with(
        vec![
            Vehicle { id: 9, node_id: 3, status: VehicleStatus::Available },
            Vehicle { id: 12, node_id: 3, status: VehicleStatus::Available },
        ],
        vec![pending_order(100, 1)],
    );
    assert_eq!(engine.resolve_nearest_vehicle(100), Ok(Some(9)));
}

#[test]
fn no_available_vehicle_is_empty_result_order_stays_pending() {
    let engine = engine_with(
        vec![Vehicle { id: 7, node_id: 3, status: VehicleStatus::OffDuty }],
        vec![pending_order(100, 1)],
    );
    assert_eq!(engine.resolve_nearest_vehicle(100), Ok(None));
    let order = engine.orders.find_order_by_id(100).unwrap();
    assert_eq!(order.status, OrderStatus::Pending);
}

#[test]
fn unreachable_vehicle_excluded_from_consideration() {
    let nodes = vec![
        Node { id: 1, area_id: 1 },
        Node { id: 2, area_id: 1 },
        Node { id: 3, area_id: 1 },
    ];
    let edges = vec![Edge { node_a_id: 1, node_b_id: 2, weight: 4 }];
    let graph = GraphStore::new(nodes, edges).unwrap();
    let engine = DispatchEngine::new(
        graph,
        VehicleLocator::new(vec![
            Vehicle { id: 7, node_id: 3, status: VehicleStatus::Available },
        ])
        .unwrap(),
        OrderBook::new(vec![pending_order(100, 1)]).unwrap(),
    );
    assert_eq!(engine.resolve_nearest_vehicle(100), Ok(None));
}

#[test]
fn resolution_is_deterministic_for_identical_state() {
    let engine = engine_with(
        vec![
            Vehicle { id: 9, node_id: 3, status: VehicleStatus::Available },
            Vehicle { id: 12, node_id: 2, status: VehicleStatus::Available },
        ],
        vec![pending_order(100, 1)],
    );
    let first = engine.resolve_nearest_vehicle(100);
    let second = engine.resolve_nearest_vehicle(100);
    assert_eq!(first, second);
}

#[test]
fn resolve_unknown_order_is_order_not_found() {
    let engine = engine_with(Vec::new(), Vec::new());
    assert_eq!(engine.resolve_nearest_vehicle(5), Err(DispatchError::OrderNotFound));
}

#[test]
fn resolve_non_pending_order_is_invalid_order_state() {
    let engine = engine_with(
        Vec::new(),
        vec![Order { id: 100, node_id: 1, status: OrderStatus::Dispatched, tow_truck_id: Some(7) }],
    );
    assert_eq!(engine.resolve_nearest_vehicle(100), Err(DispatchError::InvalidOrderState));
}

#[test]
fn resolve_order_on_unknown_node_is_node_not_found() {
    let engine = engine_with(Vec::new(), vec![pending_order(100, 42)]);
    assert_eq!(engine.resolve_nearest_vehicle(100), Err(DispatchError::NodeNotFound));
}

#[test]
fn dispatch_moves_order_and_vehicle_atomically() {
    let mut engine = engine_with(
        vec![Vehicle { id: 7, node_id: 3, status: VehicleStatus::Available }],
        vec![pending_order(100, 1)],
    );
    assert_eq!(engine.dispatch(100, 7), Ok(()));
    let order = engine.orders.find_order_by_id(100).unwrap();
    assert_eq!(order.status, OrderStatus::Dispatched);
    assert_eq!(order.tow_truck_id, Some(7));
    let v = engine.vehicles.get_vehicle_by_id(7).unwrap();
    assert_eq!(v.status, VehicleStatus::Dispatched);
}

#[test]
fn racing_dispatches_exactly_one_succeeds() {
    let mut engine = engine_with(
        vec![Vehicle { id: 7, node_id: 3, status: VehicleStatus::Available }],
        vec![pending_order(100, 1), pending_order(101, 2)],
    );
    assert_eq!(engine.dispatch(100, 7), Ok(()));
    assert_eq!(engine.dispatch(100, 7), Err(DispatchError::ConcurrentModification));
    assert_eq!(engine.dispatch(101, 7), Err(DispatchError::ConcurrentModification));
    // the loser's failure changed nothing
    let order = engine.orders.find_order_by_id(101).unwrap();
    assert_eq!(order.status, OrderStatus::Pending);
}

#[test]
fn dispatch_validates_both_sides() {
    let mut engine = engine_with(
        vec![Vehicle { id: 7, node_id: 3, status: VehicleStatus::OffDuty }],
        vec![pending_order(100, 1)],
    );
    assert_eq!(engine.dispatch(999, 7), Err(DispatchError::OrderNotFound));
    assert_eq!(engine.dispatch(100, 999), Err(DispatchError::VehicleNotFound));
    assert_eq!(engine.dispatch(100, 7), Err(DispatchError::ConcurrentModification));
}

#[test]
fn completion_frees_the_vehicle() {
    let mut engine = engine_with(
        vec![Vehicle { id: 7, node_id: 3, status: VehicleStatus::Available }],
        vec![pending_order(100, 1)],
    );
    engine.dispatch(100, 7).unwrap();
    assert_eq!(engine.complete_order(100), Ok(()));
    assert_eq!(engine.orders.find_order_by_id(100).unwrap().status, OrderStatus::Completed);
    assert_eq!(
        engine.vehicles.get_vehicle_by_id(7).unwrap().status,
        VehicleStatus::Available
    );
    // completed is final: no further completion, no re-dispatch
    assert_eq!(engine.complete_order(100), Err(DispatchError::InvalidOrderState));
    assert_eq!(engine.dispatch(100, 7), Err(DispatchError::ConcurrentModification));
}

#[test]
fn update_vehicle_location_moves_dispatch_pool() {
    let mut engine = engine_with(
        vec![Vehicle { id: 7, node_id: 3, status: VehicleStatus::Available }],
        vec![pending_order(100, 1)],
    );
    assert_eq!(engine.update_vehicle_location(7, 2), Ok(()));
    assert_eq!(engine.vehicles.get_vehicle_by_id(7).unwrap().node_id, 2);
    assert_eq!(
        engine.update_vehicle_location(7, 42),
        Err(DispatchError::NodeNotFound)
    );
    assert_eq!(
        engine.update_vehicle_location(99, 2),
        Err(DispatchError::VehicleNotFound)
    );
}

#[test]
fn vehicle_status_transitions_guarded() {
    let mut locator = VehicleLocator::new(vec![
        Vehicle { id: 7, node_id: 3, status: VehicleStatus::OffDuty },
    ])
    .unwrap();
    assert_eq!(
        locator.set_status(7, VehicleStatus::Dispatched),
        Err(DispatchError::InvalidStatusTransition)
    );
    assert_eq!(locator.set_status(7, VehicleStatus::Available), Ok(()));
    assert_eq!(locator.set_status(7, VehicleStatus::Dispatched), Ok(()));
    assert_eq!(
        locator.set_status(7, VehicleStatus::OffDuty),
        Err(DispatchError::InvalidStatusTransition)
    );
    assert_eq!(
        locator.set_status(99, VehicleStatus::Available),
        Err(DispatchError::VehicleNotFound)
    );
}

#[test]
fn order_lifecycle_never_skips_a_state() {
    let mut book = OrderBook::new(vec![pending_order(1, 1)]).unwrap();
    assert_eq!(
        book.update_order_status(1, OrderStatus::Completed),
        Err(DispatchError::InvalidOrderState)
    );
    assert_eq!(book.update_order_status(1, OrderStatus::Dispatched), Ok(()));
    assert_eq!(
        book.update_order_status(1, OrderStatus::Pending),
        Err(DispatchError::InvalidOrderState)
    );
    assert_eq!(book.update_order_status(1, OrderStatus::Completed), Ok(()));
    assert_eq!(
        book.update_order_status(2, OrderStatus::Dispatched),
        Err(DispatchError::OrderNotFound)
    );
}

#[test]
fn create_order_starts_pending() {
    let graph = scenario_graph();
    let mut book = OrderBook::new(Vec::new()).unwrap();
    assert_eq!(book.create_order(&graph, 1, 2), Ok(()));
    let order = book.find_order_by_id(1).unwrap();
    assert_eq!(order.status, OrderStatus::Pending);
    assert_eq!(order.tow_truck_id, None);
    assert_eq!(book.create_order(&graph, 1, 3), Err(DispatchError::InvalidInput));
    assert_eq!(book.create_order(&graph, 5, 42), Err(DispatchError::NodeNotFound));
}
