use dispatch_engine::graph::{Edge, Node};
use dispatch_engine::order::{Order, OrderBook, OrderStatus};
use dispatch_engine::store::GraphStore;
use dispatch_engine::vehicle::{
    PaginatedTowTruckQuery, TowTruckQuery, Vehicle, VehicleLocator, VehicleStatus,
};

fn two_area_graph() -> GraphStore {
    let nodes = vec![
        Node { id: 1, area_id: 1 },
        Node { id: 2, area_id: 1 },
        Node { id: 3, area_id: 2 },
        Node { id: 4, area_id: 2 },
    ];
    let edges = vec![
        Edge { node_a_id: 1, node_b_id: 2, weight: 4 },
        Edge { node_a_id: 3, node_b_id: 4, weight: 2 },
    ];
    GraphStore::new(nodes, edges).unwrap()
}

fn fleet() -> VehicleLocator {
    VehicleLocator::new(vec![
        Vehicle { id: 1, node_id: 1, status: VehicleStatus::Available },
        Vehicle { id: 2, node_id: 2, status: VehicleStatus::Dispatched },
        Vehicle { id: 3, node_id: 3, status: VehicleStatus::Available },
        Vehicle { id: 4, node_id: 4, status: VehicleStatus::OffDuty },
        Vehicle { id: 5, node_id: 2, status: VehicleStatus::Available },
    ])
    .unwrap()
}

#[test]
fn eligible_vehicles_filtered_by_area_and_status() {
    let graph = two_area_graph();
    let locator = fleet();
    let elig = locator.get_eligible_vehicles(&graph, 1, VehicleStatus::Available);
    let ids: Vec<i32> = elig.iter().map(|v| v.id).collect();
    assert_eq!(ids, vec![1, 5]);
    let elig2 = locator.get_eligible_vehicles(&graph, 2, VehicleStatus::Available);
    let ids2: Vec<i32> = elig2.iter().map(|v| v.id).collect();
    assert_eq!(ids2, vec![3]);
}

#[test]
fn paginated_tow_trucks_filter_and_page() {
    let graph = two_area_graph();
    let locator = fleet();
    let all = locator.get_paginated_tow_trucks(&graph, 0, -1, None, None);
    assert_eq!(all.len(), 5);
    let avail = locator.get_paginated_tow_trucks(
        &graph,
        0,
        -1,
        Some(VehicleStatus::Available),
        None,
    );
    let ids: Vec<i32> = avail.iter().map(|v| v.id).collect();
    assert_eq!(ids, vec![1, 3, 5]);
    let page0 = locator.get_paginated_tow_trucks(&graph, 0, 2, Some(VehicleStatus::Available), None);
    let ids0: Vec<i32> = page0.iter().map(|v| v.id).collect();
    assert_eq!(ids0, vec![1, 3]);
    let page1 = locator.get_paginated_tow_trucks(&graph, 1, 2, Some(VehicleStatus::Available), None);
    let ids1: Vec<i32> = page1.iter().map(|v| v.id).collect();
    assert_eq!(ids1, vec![5]);
    let past = locator.get_paginated_tow_trucks(&graph, 9, 2, Some(VehicleStatus::Available), None);
    assert_eq!(past.len(), 0);
    let area1 = locator.get_paginated_tow_trucks(&graph, 0, -1, None, Some(1));
    let ids_area: Vec<i32> = area1.iter().map(|v| v.id).collect();
    assert_eq!(ids_area, vec![1, 2, 5]);
}

#[test]
fn vehicle_lookup_by_id() {
    let locator = fleet();
    assert_eq!(locator.get_vehicle_by_id(3).map(|v| v.node_id), Some(3));
    assert!(locator.get_vehicle_by_id(42).is_none());
}

#[test]
fn paginated_query_defaults() {
    let q = PaginatedTowTruckQuery { page: None, page_size: None, status: None, area: None };
    assert_eq!(q.page_or_default(), 0);
    assert_eq!(q.page_size_or_default(), -1);
    let q2 = PaginatedTowTruckQuery {
        page: Some(2),
        page_size: Some(10),
        status: Some(String::from("available")),
        area: Some(1),
    };
    assert_eq!(q2.page_or_default(), 2);
    assert_eq!(q2.page_size_or_default(), 10);
    let tq = TowTruckQuery { order_id: 17 };
    assert_eq!(tq.order_id, 17);
}

#[test]
fn paginated_orders_filter_and_page() {
    let graph = two_area_graph();
    let book = OrderBook::new(vec![
        Order { id: 1, node_id: 1, status: OrderStatus::Pending, tow_truck_id: None },
        Order { id: 2, node_id: 3, status: OrderStatus::Pending, tow_truck_id: None },
        Order { id: 3, node_id: 2, status: OrderStatus::Dispatched, tow_truck_id: Some(1) },
        Order { id: 4, node_id: 4, status: OrderStatus::Completed, tow_truck_id: Some(3) },
    ])
    .unwrap();
    let pending = book.get_paginated_orders(&graph, 0, -1, Some(OrderStatus::Pending), None);
    let ids: Vec<i32> = pending.iter().map(|o| o.id).collect();
    assert_eq!(ids, vec![1, 2]);
    let area2 = book.get_paginated_orders(&graph, 0, -1, None, Some(2));
    let ids2: Vec<i32> = area2.iter().map(|o| o.id).collect();
    assert_eq!(ids2, vec![2, 4]);
    let first_page = book.get_paginated_orders(&graph, 0, 3, None, None);
    assert_eq!(first_page.len(), 3);
    let second_page = book.get_paginated_orders(&graph, 1, 3, None, None);
    assert_eq!(second_page.len(), 1);
}

#[test]
fn locator_and_book_reject_unsorted_rows() {
    let vehicles = vec![
        Vehicle { id: 2, node_id: 1, status: VehicleStatus::Available },
        Vehicle { id: 1, node_id: 1, status: VehicleStatus::Available },
    ];
    assert!(VehicleLocator::new(vehicles).is_err());
    let orders = vec![
        Order { id: 2, node_id: 1, status: OrderStatus::Pending, tow_truck_id: None },
        Order { id: 2, node_id: 1, status: OrderStatus::Pending, tow_truck_id: None },
    ];
    assert!(OrderBook::new(orders).is_err());
}
