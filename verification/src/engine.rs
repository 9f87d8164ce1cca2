use vstd::prelude::*;

use crate::errors::DispatchError;
use crate::graph::{Edge, find_id};
use crate::order::{
    Order, OrderBook, OrderStatus, find_order, set_order_dispatched, set_order_status,
};
use crate::path::{is_shortest_dist, reachable, shortest_distances, lemma_shortest_unique};
use crate::store::{GraphStore, area_of, edges_in_area, ids_in_area, lemma_area_of_in_ids};
use crate::vehicle::{
    Vehicle, VehicleLocator, VehicleStatus, eligible_vehicles, find_vehicle, set_vehicle_status,
};

verus! {

/// Some walk cost from `src` to `t` is shortest: `t` is reachable and has
/// a well-defined distance.
pub open spec fn dist_defined(es: Seq<Edge>, src: i32, t: i32) -> bool {
    exists|c: nat| is_shortest_dist(es, src, t, c)
}

/// The shortest walk cost from `src` to `t`; meaningful when
/// [`dist_defined`] holds.
pub open spec fn dist_to(es: Seq<Edge>, src: i32, t: i32) -> nat {
    choose|c: nat| is_shortest_dist(es, src, t, c)
}

/// Position `i` of `elig` is a best choice: its vehicle's node has a
/// defined distance no worse than any other eligible vehicle's, with the
/// lowest vehicle identifier breaking ties.
pub open spec fn is_min_choice(es: Seq<Edge>, src: i32, elig: Seq<Vehicle>, i: int) -> bool {
    forall|j: int|
        0 <= j < elig.len() && dist_defined(es, src, (#[trigger] elig[j]).node_id) ==> dist_to(
            es,
            src,
            elig[i].node_id,
        ) < dist_to(es, src, elig[j].node_id) || (dist_to(es, src, elig[i].node_id) == dist_to(
            es,
            src,
            elig[j].node_id,
        ) && elig[i].id <= elig[j].id)
}

/// What a nearest-vehicle resolution must return, given the area's edges
/// `es`, the order's node `src` and the eligible vehicles `elig`: no
/// vehicle exactly when none is reachable, otherwise the vehicle of
/// minimum distance, ties broken by the lowest identifier.
pub open spec fn nearest_choice(es: Seq<Edge>, src: i32, elig: Seq<Vehicle>, r: Option<i32>) -> bool {
    match r {
        None => forall|i: int|
            0 <= i < elig.len() ==> !dist_defined(es, src, (#[trigger] elig[i]).node_id),
        Some(vid) => exists|i: int|
            0 <= i < elig.len() && (#[trigger] elig[i]).id == vid && dist_defined(
                es,
                src,
                elig[i].node_id,
            ) && is_min_choice(es, src, elig, i),
    }
}

/// Whether a dispatch confirmation succeeds, and with which failure
/// otherwise, as a function of the order book and the vehicle set alone.
pub open spec fn dispatch_outcome(
    os: Seq<Order>,
    vs: Seq<Vehicle>,
    order_id: i32,
    vehicle_id: i32,
) -> Result<(), DispatchError> {
    match find_order(os, order_id) {
        None => Err(DispatchError::OrderNotFound),
        Some(o) => match find_vehicle(vs, vehicle_id) {
            None => Err(DispatchError::VehicleNotFound),
            Some(v) => {
                if o.status == OrderStatus::Pending && v.status == VehicleStatus::Available {
                    Ok(())
                } else {
                    Err(DispatchError::ConcurrentModification)
                }
            },
        },
    }
}

/// A successful resolution: the order exists and is pending, its node has
/// an area, and the choice is the nearest eligible vehicle of that area
/// (see [`nearest_choice`]).
pub open spec fn resolve_ok_spec(eng: DispatchEngine, order_id: i32, choice: Option<i32>) -> bool {
    match find_order(eng.orders.orders_seq(), order_id) {
        Some(o) => o.status == OrderStatus::Pending && match area_of(
            eng.graph.nodes_seq(),
            o.node_id,
        ) {
            Some(area) => nearest_choice(
                edges_in_area(eng.graph.nodes_seq(), eng.graph.edges_seq(), area),
                o.node_id,
                eligible_vehicles(
                    eng.vehicles.vehicles_seq(),
                    eng.graph.nodes_seq(),
                    area,
                    VehicleStatus::Available,
                ),
                choice,
            ),
            None => false,
        },
        None => false,
    }
}

/// A successful completion: the order was dispatched to a vehicle that is
/// still marked dispatched; the order becomes completed and the vehicle
/// available.
pub open spec fn complete_ok_spec(
    old_orders: Seq<Order>,
    old_vehicles: Seq<Vehicle>,
    new_orders: Seq<Order>,
    new_vehicles: Seq<Vehicle>,
    order_id: i32,
) -> bool {
    match find_order(old_orders, order_id) {
        Some(o) => o.status == OrderStatus::Dispatched && match o.tow_truck_id {
            Some(vid) => (match find_vehicle(old_vehicles, vid) {
                Some(v) => v.status == VehicleStatus::Dispatched,
                None => false,
            }) && new_orders == set_order_status(old_orders, order_id, OrderStatus::Completed)
                && new_vehicles == set_vehicle_status(old_vehicles, vid, VehicleStatus::Available),
            None => false,
        },
        None => false,
    }
}

/// The dispatch graph engine: the graph store, the vehicle locator and the
/// order book behind one façade, mediating nearest-vehicle resolution and
/// the dispatch state transitions.
#[derive(Debug)]
pub struct DispatchEngine {
    pub graph: GraphStore,
    pub vehicles: VehicleLocator,
    pub orders: OrderBook,
}

impl DispatchEngine {
    /// Well-formedness of every component.
    pub open spec fn wf(self) -> bool {
        &&& self.graph.wf()
        &&& self.vehicles.wf()
        &&& self.orders.wf()
    }

    /// Assembles an engine from its three validated components.
    pub fn new(graph: GraphStore, vehicles: VehicleLocator, orders: OrderBook) -> (r: DispatchEngine)
        ensures
            r.graph == graph,
            r.vehicles == vehicles,
            r.orders == orders,
    {
        DispatchEngine { graph, vehicles, orders }
    }

    /// Updates one edge weight; see
    /// [`GraphStore::update_edge_weight`]. Vehicles and orders are
    /// untouched.
    pub fn update_edge(&mut self, node_a_id: i32, node_b_id: i32, weight: i32) -> (r: Result<
        (),
        DispatchError,
    >)
        requires
            old(self).wf(),
        ensures
            final(self).wf(),
            final(self).vehicles == old(self).vehicles,
            final(self).orders == old(self).orders,
            final(self).graph.nodes_seq() == old(self).graph.nodes_seq(),
            match r {
                Ok(()) => {
                    &&& weight >= 0
                    &&& crate::graph::has_pair(old(self).graph.edges_seq(), node_a_id, node_b_id)
                    &&& final(self).graph.edges_seq() == crate::store::update_pair_weight(
                        old(self).graph.edges_seq(),
                        node_a_id,
                        node_b_id,
                        weight as u32,
                    )
                },
                Err(e) => {
                    &&& final(self).graph == old(self).graph
                    &&& (if weight < 0 {
                        e == DispatchError::InvalidInput
                    } else {
                        e == DispatchError::EdgeNotFound && !crate::graph::has_pair(
                            old(self).graph.edges_seq(),
                            node_a_id,
                            node_b_id,
                        )
                    })
                },
            },
    {
        self.graph.update_edge_weight(node_a_id, node_b_id, weight)
    }

    /// Moves a vehicle to a node; see [`VehicleLocator::update_location`].
    /// The graph and the orders are untouched.
    pub fn update_vehicle_location(&mut self, vehicle_id: i32, node_id: i32) -> (r: Result<
        (),
        DispatchError,
    >)
        requires
            old(self).wf(),
        ensures
            final(self).wf(),
            final(self).graph == old(self).graph,
            final(self).orders == old(self).orders,
            match r {
                Ok(()) => {
                    &&& find_vehicle(old(self).vehicles.vehicles_seq(), vehicle_id) is Some
                    &&& area_of(old(self).graph.nodes_seq(), node_id) is Some
                    &&& final(self).vehicles.vehicles_seq()
                        == crate::vehicle::set_vehicle_location(
                        old(self).vehicles.vehicles_seq(),
                        vehicle_id,
                        node_id,
                    )
                },
                Err(e) => {
                    &&& final(self).vehicles == old(self).vehicles
                    &&& (if find_vehicle(old(self).vehicles.vehicles_seq(), vehicle_id) is None {
                        e == DispatchError::VehicleNotFound
                    } else {
                        e == DispatchError::NodeNotFound && area_of(
                            old(self).graph.nodes_seq(),
                            node_id,
                        ) is None
                    })
                },
            },
    {
        self.vehicles.update_location(&self.graph, vehicle_id, node_id)
    }

    /// Resolves the nearest eligible vehicle for a pending order.
    ///
    /// Read-only: takes a snapshot of the order's area, computes shortest
    /// distances from the order's target node, and selects among the
    /// available vehicles of that area the one of minimum distance, ties
    /// broken by the lowest vehicle identifier. `Ok(None)` — no vehicle
    /// available — is the successful empty result, returned exactly when no
    /// available vehicle of the area stands on a reachable node; it is
    /// never conflated with an error, and the order stays untouched.
    pub fn resolve_nearest_vehicle(&self, order_id: i32) -> (r: Result<Option<i32>, DispatchError>)
        requires
            self.wf(),
        ensures
            match r {
                Ok(choice) => resolve_ok_spec(*self, order_id, choice),
                Err(e) => {
                    match find_order(self.orders.orders_seq(), order_id) {
                        None => e == DispatchError::OrderNotFound,
                        Some(o) => {
                            if o.status != OrderStatus::Pending {
                                e == DispatchError::InvalidOrderState
                            } else {
                                e == DispatchError::NodeNotFound && area_of(
                                    self.graph.nodes_seq(),
                                    o.node_id,
                                ) is None
                            }
                        },
                    }
                },
            },
    {
        let order = match self.orders.find_order_by_id(order_id) {
            Ok(o) => o,
            Err(e) => {
                return Err(e);
            },
        };
        let pending = match order.status {
            OrderStatus::Pending => true,
            _ => false,
        };
        if !pending {
            return Err(DispatchError::InvalidOrderState);
        }
        let area = match self.graph.get_area_id_by_node_id(order.node_id) {
            Ok(a) => a,
            Err(e) => {
                return Err(e);
            },
        };
        let ghost ns = self.graph.nodes_seq();
        let ghost src = order.node_id;
        let snap = match self.graph.get_snapshot(area) {
            Ok(s) => s,
            Err(_) => {
                proof {
                    lemma_area_of_in_ids(ns, area, src);
                    assert(false);
                }
                return Err(DispatchError::AreaNotFound);
            },
        };
        let elig = self.vehicles.get_eligible_vehicles(&self.graph, area, VehicleStatus::Available);
        let ghost eligs = elig@;
        let ghost es = snap.edge_list();
        let dists = match shortest_distances(&snap, order.node_id) {
            Ok(d) => d,
            Err(_) => {
                proof {
                    lemma_area_of_in_ids(ns, area, src);
                    assert(false);
                }
                return Err(DispatchError::NodeNotInGraph);
            },
        };
        proof {
            lemma_eligible_members(
                self.vehicles.vehicles_seq(),
                ns,
                area,
                VehicleStatus::Available,
            );
        }
        let mut best_id: i32 = 0;
        let mut best_d: u64 = 0;
        let mut have: bool = false;
        let mut j: usize = 0;
        while j < elig.len()
            invariant
                j <= eligs.len(),
                eligs == elig@,
                es == snap.edge_list(),
                snap.wf(),
                snap.node_ids() == ids_in_area(ns, area),
                dists@.len() == snap.node_ids().len(),
                forall|q: int|
                    0 <= q < eligs.len() ==> area_of(ns, (#[trigger] eligs[q]).node_id) == Some(
                        area,
                    ),
                forall|i: int|
                    0 <= i < dists@.len() ==> match #[trigger] dists@[i] {
                        Some(d) => is_shortest_dist(es, src, snap.node_ids()[i], d as nat),
                        None => !reachable(es, src, snap.node_ids()[i]),
                    },
                !have ==> forall|q: int|
                    0 <= q < j ==> !dist_defined(es, src, (#[trigger] eligs[q]).node_id),
                have ==> exists|q: int|
                    0 <= q < j && (#[trigger] eligs[q]).id == best_id && dist_defined(
                        es,
                        src,
                        eligs[q].node_id,
                    ) && dist_to(es, src, eligs[q].node_id) == best_d,
                have ==> forall|q: int|
                    0 <= q < j && dist_defined(es, src, (#[trigger] eligs[q]).node_id) ==> best_d
                        < dist_to(es, src, eligs[q].node_id) || (best_d == dist_to(
                        es,
                        src,
                        eligs[q].node_id,
                    ) && best_id <= eligs[q].id),
            decreases eligs.len() - j,
        {
            let v = elig[j];
            match find_id(snap.nodes(), v.node_id) {
                Some(ni) => {
                    match dists[ni] {
                        Some(d) => {
                            proof {
                                assert(is_shortest_dist(es, src, v.node_id, d as nat));
                                lemma_dist_to_is(es, src, v.node_id, d as nat);
                            }
                            if !have || d < best_d || (d == best_d && v.id < best_id) {
                                best_id = v.id;
                                best_d = d;
                                have = true;
                            }
                        },
                        None => {
                            proof {
                                lemma_unreachable_not_defined(es, src, v.node_id);
                            }
                        },
                    }
                },
                None => {
                    proof {
                        lemma_area_of_in_ids(ns, area, v.node_id);
                        assert(false);
                    }
                },
            }
            j = j + 1;
        }
        if have {
            proof {
                let q0 = choose|q: int|
                    0 <= q < eligs.len() && (#[trigger] eligs[q]).id == best_id && dist_defined(
                        es,
                        src,
                        eligs[q].node_id,
                    ) && dist_to(es, src, eligs[q].node_id) == best_d;
                assert(is_min_choice(es, src, eligs, q0));
                assert(nearest_choice(es, src, eligs, Some(best_id)));
            }
            Ok(Some(best_id))
        } else {
            proof {
                assert(nearest_choice(es, src, eligs, None::<i32>));
            }
            Ok(None)
        }
    }

    /// Confirms a dispatch: re-validates that the order is still pending
    /// and the vehicle still available, then — as one atomic unit — marks
    /// the order dispatched, records the assigned vehicle and marks the
    /// vehicle dispatched. A failed re-validation surfaces as
    /// `ConcurrentModification` and leaves everything untouched, so the
    /// caller can re-resolve.
    pub fn dispatch(&mut self, order_id: i32, vehicle_id: i32) -> (r: Result<(), DispatchError>)
        requires
            old(self).wf(),
        ensures
            final(self).wf(),
            final(self).graph == old(self).graph,
            r == dispatch_outcome(
                old(self).orders.orders_seq(),
                old(self).vehicles.vehicles_seq(),
                order_id,
                vehicle_id,
            ),
            r is Ok ==> final(self).orders.orders_seq() == set_order_dispatched(
                old(self).orders.orders_seq(),
                order_id,
                vehicle_id,
            ) && final(self).vehicles.vehicles_seq() == set_vehicle_status(
                old(self).vehicles.vehicles_seq(),
                vehicle_id,
                VehicleStatus::Dispatched,
            ),
            r is Err ==> *final(self) == *old(self),
    {
        let order = match self.orders.find_order_by_id(order_id) {
            Ok(o) => o,
            Err(e) => {
                return Err(e);
            },
        };
        let vehicle = match self.vehicles.get_vehicle_by_id(vehicle_id) {
            Some(v) => v,
            None => {
                return Err(DispatchError::VehicleNotFound);
            },
        };
        let order_pending = match order.status {
            OrderStatus::Pending => true,
            _ => false,
        };
        let vehicle_available = match vehicle.status {
            VehicleStatus::Available => true,
            _ => false,
        };
        if !order_pending || !vehicle_available {
            return Err(DispatchError::ConcurrentModification);
        }
        let r1 = self.orders.update_order_dispatched(order_id, vehicle_id);
        proof {
            assert(r1 is Ok);
        }
        let r2 = self.vehicles.set_status(vehicle_id, VehicleStatus::Dispatched);
        proof {
            assert(r2 is Ok);
        }
        Ok(())
    }

    /// Completes a dispatched order: the order moves to completed and its
    /// assigned vehicle returns to available, as one atomic unit; a failure
    /// leaves everything untouched.
    pub fn complete_order(&mut self, order_id: i32) -> (r: Result<(), DispatchError>)
        requires
            old(self).wf(),
        ensures
            final(self).wf(),
            final(self).graph == old(self).graph,
            match r {
                Ok(()) => complete_ok_spec(
                    old(self).orders.orders_seq(),
                    old(self).vehicles.vehicles_seq(),
                    final(self).orders.orders_seq(),
                    final(self).vehicles.vehicles_seq(),
                    order_id,
                ),
                Err(e) => {
                    &&& *final(self) == *old(self)
                    &&& match find_order(old(self).orders.orders_seq(), order_id) {
                        None => e == DispatchError::OrderNotFound,
                        Some(o) => {
                            if o.status != OrderStatus::Dispatched || o.tow_truck_id is None {
                                e == DispatchError::InvalidOrderState
                            } else {
                                match find_vehicle(
                                    old(self).vehicles.vehicles_seq(),
                                    o.tow_truck_id->Some_0,
                                ) {
                                    None => e == DispatchError::VehicleNotFound,
                                    Some(v) => e == DispatchError::InvalidStatusTransition
                                        && v.status != VehicleStatus::Dispatched,
                                }
                            }
                        },
                    }
                },
            },
    {
        let order = match self.orders.find_order_by_id(order_id) {
            Ok(o) => o,
            Err(e) => {
                return Err(e);
            },
        };
        let dispatched = match order.status {
            OrderStatus::Dispatched => true,
            _ => false,
        };
        let vid = match order.tow_truck_id {
            Some(v) => v,
            None => {
                return Err(DispatchError::InvalidOrderState);
            },
        };
        if !dispatched {
            return Err(DispatchError::InvalidOrderState);
        }
        let vehicle = match self.vehicles.get_vehicle_by_id(vid) {
            Some(v) => v,
            None => {
                return Err(DispatchError::VehicleNotFound);
            },
        };
        let vehicle_dispatched = match vehicle.status {
            VehicleStatus::Dispatched => true,
            _ => false,
        };
        if !vehicle_dispatched {
            return Err(DispatchError::InvalidStatusTransition);
        }
        let r1 = self.orders.update_order_status(order_id, OrderStatus::Completed);
        proof {
            assert(r1 is Ok);
        }
        let r2 = self.vehicles.set_status(vid, VehicleStatus::Available);
        proof {
            assert(r2 is Ok);
        }
        Ok(())
    }
}

/// When `d` is a shortest distance, it is the value [`dist_to`] denotes.
proof fn lemma_dist_to_is(es: Seq<Edge>, src: i32, t: i32, d: nat)
    requires
        is_shortest_dist(es, src, t, d),
    ensures
        dist_defined(es, src, t),
        dist_to(es, src, t) == d,
{
    let c = choose|c: nat| is_shortest_dist(es, src, t, c);
    lemma_shortest_unique(es, src, t, c, d);
}

/// An unreachable node has no defined distance.
proof fn lemma_unreachable_not_defined(es: Seq<Edge>, src: i32, t: i32)
    requires
        !reachable(es, src, t),
    ensures
        !dist_defined(es, src, t),
{
    if dist_defined(es, src, t) {
        let c = choose|c: nat| is_shortest_dist(es, src, t, c);
        assert(crate::path::connects_with_cost(es, src, t, c));
    }
}

/// Every vehicle of the eligible list carries the filter's status and
/// stands on a node of the filter's area.
pub proof fn lemma_eligible_members(
    vs: Seq<Vehicle>,
    ns: Seq<crate::graph::Node>,
    area: i32,
    status: VehicleStatus,
)
    ensures
        forall|q: int|
            0 <= q < eligible_vehicles(vs, ns, area, status).len() ==> area_of(
                ns,
                (#[trigger] eligible_vehicles(vs, ns, area, status)[q]).node_id,
            ) == Some(area) && eligible_vehicles(vs, ns, area, status)[q].status == status,
    decreases vs.len(),
{
    if vs.len() > 0 {
        lemma_eligible_members(vs.drop_first(), ns, area, status);
        let rest = eligible_vehicles(vs.drop_first(), ns, area, status);
        assert forall|q: int|
            0 <= q < eligible_vehicles(vs, ns, area, status).len() implies area_of(
            ns,
            (#[trigger] eligible_vehicles(vs, ns, area, status)[q]).node_id,
        ) == Some(area) && eligible_vehicles(vs, ns, area, status)[q].status == status by {
            if vs[0].status == status && area_of(ns, vs[0].node_id) == Some(area) {
                if q > 0 {
                    assert(eligible_vehicles(vs, ns, area, status)[q] == rest[q - 1]);
                }
            } else {
                assert(eligible_vehicles(vs, ns, area, status)[q] == rest[q]);
            }
        }
    }
}

/// Dispatch exclusivity: after one dispatch of a vehicle succeeds, every
/// further dispatch naming that vehicle — for this or any other existing
/// order — fails with `ConcurrentModification`, because the vehicle is no
/// longer available.
pub proof fn lemma_dispatch_exclusive(
    os: Seq<Order>,
    vs: Seq<Vehicle>,
    order_id: i32,
    vehicle_id: i32,
    order_id2: i32,
)
    requires
        dispatch_outcome(os, vs, order_id, vehicle_id) is Ok,
        find_order(set_order_dispatched(os, order_id, vehicle_id), order_id2) is Some,
    ensures
        dispatch_outcome(
            set_order_dispatched(os, order_id, vehicle_id),
            set_vehicle_status(vs, vehicle_id, VehicleStatus::Dispatched),
            order_id2,
            vehicle_id,
        ) == Err::<(), DispatchError>(DispatchError::ConcurrentModification),
{
    lemma_find_vehicle_id(vs, vehicle_id);
    lemma_find_vehicle_set_status(vs, vehicle_id, VehicleStatus::Dispatched, vehicle_id);
}

/// A found vehicle carries the identifier it was looked up by.
proof fn lemma_find_vehicle_id(vs: Seq<Vehicle>, id: i32)
    ensures
        find_vehicle(vs, id) is Some ==> find_vehicle(vs, id)->Some_0.id == id,
    decreases vs.len(),
{
    if vs.len() > 0 && vs[0].id != id {
        lemma_find_vehicle_id(vs.drop_first(), id);
    }
}

/// Resolution is deterministic: the nearest-vehicle requirement admits one
/// result only, so two resolutions over one snapshot and one eligible set
/// agree, tie-breaks included.
pub proof fn lemma_nearest_deterministic(
    es: Seq<Edge>,
    src: i32,
    elig: Seq<Vehicle>,
    r1: Option<i32>,
    r2: Option<i32>,
)
    requires
        nearest_choice(es, src, elig, r1),
        nearest_choice(es, src, elig, r2),
    ensures
        r1 == r2,
{
    match (r1, r2) {
        (Some(v1), Some(v2)) => {
            let i1 = choose|i: int|
                0 <= i < elig.len() && (#[trigger] elig[i]).id == v1 && dist_defined(
                    es,
                    src,
                    elig[i].node_id,
                ) && is_min_choice(es, src, elig, i);
            let i2 = choose|i: int|
                0 <= i < elig.len() && (#[trigger] elig[i]).id == v2 && dist_defined(
                    es,
                    src,
                    elig[i].node_id,
                ) && is_min_choice(es, src, elig, i);
            assert(dist_to(es, src, elig[i1].node_id) < dist_to(es, src, elig[i2].node_id) || (
            dist_to(es, src, elig[i1].node_id) == dist_to(es, src, elig[i2].node_id)
                && elig[i1].id <= elig[i2].id));
            assert(dist_to(es, src, elig[i2].node_id) < dist_to(es, src, elig[i1].node_id) || (
            dist_to(es, src, elig[i2].node_id) == dist_to(es, src, elig[i1].node_id)
                && elig[i2].id <= elig[i1].id));
        },
        (Some(v1), None) => {
            let i1 = choose|i: int|
                0 <= i < elig.len() && (#[trigger] elig[i]).id == v1 && dist_defined(
                    es,
                    src,
                    elig[i].node_id,
                ) && is_min_choice(es, src, elig, i);
            assert(!dist_defined(es, src, elig[i1].node_id));
        },
        (None, Some(v2)) => {
            let i2 = choose|i: int|
                0 <= i < elig.len() && (#[trigger] elig[i]).id == v2 && dist_defined(
                    es,
                    src,
                    elig[i].node_id,
                ) && is_min_choice(es, src, elig, i);
            assert(!dist_defined(es, src, elig[i2].node_id));
        },
        (None, None) => {},
    }
}

/// Looking a vehicle up after its status was rewritten finds the same
/// vehicle with the new status.
proof fn lemma_find_vehicle_set_status(vs: Seq<Vehicle>, id: i32, st: VehicleStatus, lookup: i32)
    ensures
        find_vehicle(set_vehicle_status(vs, id, st), lookup) == match find_vehicle(vs, lookup) {
            Some(v) => Some(
                if v.id == id {
                    Vehicle { id: v.id, node_id: v.node_id, status: st }
                } else {
                    v
                },
            ),
            None => None::<Vehicle>,
        },
    decreases vs.len(),
{
    let vs2 = set_vehicle_status(vs, id, st);
    if vs.len() > 0 {
        lemma_find_vehicle_set_status(vs.drop_first(), id, st, lookup);
        assert(vs2.drop_first() =~= set_vehicle_status(vs.drop_first(), id, st));
        assert(vs2[0].id == vs[0].id);
    }
}

} // verus!
