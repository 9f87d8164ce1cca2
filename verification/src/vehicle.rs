use vstd::prelude::*;

use crate::errors::DispatchError;
use crate::paging::{page_slice, take_page};
use crate::store::{GraphStore, area_of};

verus! {

/// The dispatch status of a tow truck.
#[derive(Clone, Copy, Debug, PartialEq, Eq, Structural)]
pub enum VehicleStatus {
    /// Idle and eligible for dispatch.
    Available,
    /// Assigned to an order.
    Dispatched,
    /// Out of service; not eligible for dispatch.
    OffDuty,
}

/// A tow truck: identifier, current node (which places it in an area
/// through the graph store), and status.
#[derive(Clone, Copy, Debug, PartialEq, Eq, Structural)]
pub struct Vehicle {
    pub id: i32,
    pub node_id: i32,
    pub status: VehicleStatus,
}

/// Vehicle identifiers strictly ascending: unique, deterministic order.
pub open spec fn vehicles_sorted(vs: Seq<Vehicle>) -> bool {
    forall|i: int, j: int| 0 <= i < j < vs.len() ==> (#[trigger] vs[i]).id < (#[trigger] vs[j]).id
}

/// The first vehicle carrying identifier `id`, if any.
pub open spec fn find_vehicle(vs: Seq<Vehicle>, id: i32) -> Option<Vehicle>
    decreases vs.len(),
{
    if vs.len() == 0 {
        None
    } else if vs[0].id == id {
        Some(vs[0])
    } else {
        find_vehicle(vs.drop_first(), id)
    }
}

/// The vehicles whose current node lies in `area` (under the node table
/// `ns`) and whose status is `status`, in identifier order.
pub open spec fn eligible_vehicles(
    vs: Seq<Vehicle>,
    ns: Seq<crate::graph::Node>,
    area: i32,
    status: VehicleStatus,
) -> Seq<Vehicle>
    decreases vs.len(),
{
    if vs.len() == 0 {
        Seq::empty()
    } else {
        let rest = eligible_vehicles(vs.drop_first(), ns, area, status);
        if vs[0].status == status && area_of(ns, vs[0].node_id) == Some(area) {
            seq![vs[0]] + rest
        } else {
            rest
        }
    }
}

/// The vehicles passing the optional status and area filters, in
/// identifier order.
pub open spec fn filtered_vehicles(
    vs: Seq<Vehicle>,
    ns: Seq<crate::graph::Node>,
    status: Option<VehicleStatus>,
    area: Option<i32>,
) -> Seq<Vehicle>
    decreases vs.len(),
{
    if vs.len() == 0 {
        Seq::empty()
    } else {
        let rest = filtered_vehicles(vs.drop_first(), ns, status, area);
        if vehicle_passes(vs[0], ns, status, area) {
            seq![vs[0]] + rest
        } else {
            rest
        }
    }
}

/// One vehicle against the optional status and area filters.
pub open spec fn vehicle_passes(
    v: Vehicle,
    ns: Seq<crate::graph::Node>,
    status: Option<VehicleStatus>,
    area: Option<i32>,
) -> bool {
    &&& match status {
        Some(st) => v.status == st,
        None => true,
    }
    &&& match area {
        Some(a) => area_of(ns, v.node_id) == Some(a),
        None => true,
    }
}

/// `vs` with the status of vehicle `id` replaced by `st`.
pub open spec fn set_vehicle_status(vs: Seq<Vehicle>, id: i32, st: VehicleStatus) -> Seq<Vehicle> {
    vs.map_values(
        |v: Vehicle|
            if v.id == id {
                Vehicle { id: v.id, node_id: v.node_id, status: st }
            } else {
                v
            },
    )
}

/// `vs` with the current node of vehicle `id` replaced by `node_id`.
pub open spec fn set_vehicle_location(vs: Seq<Vehicle>, id: i32, node_id: i32) -> Seq<Vehicle> {
    vs.map_values(
        |v: Vehicle|
            if v.id == id {
                Vehicle { id: v.id, node_id, status: v.status }
            } else {
                v
            },
    )
}

/// The status transitions a vehicle may take: it becomes dispatched only
/// from available, returns to available from dispatched on completion, and
/// may move between available and off-duty.
pub open spec fn allowed_status_transition(from: VehicleStatus, to: VehicleStatus) -> bool {
    ||| (from == VehicleStatus::Available && to == VehicleStatus::Dispatched)
    ||| (from == VehicleStatus::Dispatched && to == VehicleStatus::Available)
    ||| (from == VehicleStatus::Available && to == VehicleStatus::OffDuty)
    ||| (from == VehicleStatus::OffDuty && to == VehicleStatus::Available)
}

/// A paginated tow-truck listing request, as the transport layer hands it
/// over: absent values fall back to defaults, and the status arrives as
/// raw text for the boundary to interpret.
#[derive(Debug)]
pub struct PaginatedTowTruckQuery {
    pub page: Option<i32>,
    pub page_size: Option<i32>,
    pub status: Option<String>,
    pub area: Option<i32>,
}

impl PaginatedTowTruckQuery {
    /// The requested page; the first page when absent.
    pub fn page_or_default(&self) -> (r: i32)
        ensures
            r == match self.page {
                Some(p) => p,
                None => 0i32,
            },
    {
        match self.page {
            Some(p) => p,
            None => 0,
        }
    }

    /// The requested page size; unlimited (negative) when absent.
    pub fn page_size_or_default(&self) -> (r: i32)
        ensures
            r == match self.page_size {
                Some(p) => p,
                None => -1i32,
            },
    {
        match self.page_size {
            Some(p) => p,
            None => -1,
        }
    }
}

/// A nearest-vehicle resolution request: the order to serve.
#[derive(Clone, Copy, Debug, PartialEq, Eq, Structural)]
pub struct TowTruckQuery {
    pub order_id: i32,
}

/// Tracks each vehicle's current node and status, and answers which
/// vehicles are eligible for dispatch in a given area.
#[derive(Debug)]
pub struct VehicleLocator {
    vehicles: Vec<Vehicle>,
}

impl VehicleLocator {
    /// The tracked vehicles, ascending by identifier.
    pub closed spec fn vehicles_seq(self) -> Seq<Vehicle> {
        self.vehicles@
    }

    /// Well-formedness: identifiers strictly ascending.
    pub open spec fn wf(self) -> bool {
        vehicles_sorted(self.vehicles_seq())
    }

    /// Populates the locator from plain vehicle rows, validating the
    /// identifier order.
    pub fn new(vehicles: Vec<Vehicle>) -> (r: Result<VehicleLocator, DispatchError>)
        ensures
            match r {
                Ok(l) => {
                    &&& l.vehicles_seq() == vehicles@
                    &&& l.wf()
                },
                Err(e) => {
                    &&& e == DispatchError::InvalidInput
                    &&& !vehicles_sorted(vehicles@)
                },
            },
    {
        if vehicles.len() > 0 {
            let ghost vs = vehicles@;
            let mut i: usize = 1;
            while i < vehicles.len()
                invariant
                    1 <= i <= vs.len(),
                    vs == vehicles@,
                    vehicles_sorted(vs.take(i as int)),
                decreases vehicles.len() - i,
            {
                if vehicles[i - 1].id >= vehicles[i].id {
                    return Err(DispatchError::InvalidInput);
                }
                proof {
                    assert forall|p: int, q: int| 0 <= p < q < i + 1 implies (#[trigger] vs.take(
                        i as int + 1,
                    )[p]).id < (#[trigger] vs.take(i as int + 1)[q]).id by {
                        assert(vs.take(i as int + 1)[p] == vs[p]);
                        assert(vs.take(i as int + 1)[q] == vs[q]);
                        if q < i as int {
                            assert(vs.take(i as int)[p] == vs[p]);
                            assert(vs.take(i as int)[q] == vs[q]);
                        } else if p < i - 1 {
                            assert(vs.take(i as int)[p] == vs[p]);
                            assert(vs.take(i as int)[i - 1] == vs[i - 1]);
                        }
                    }
                }
                i = i + 1;
            }
            proof {
                assert(vs.take(vs.len() as int) =~= vs);
            }
        }
        Ok(VehicleLocator { vehicles })
    }

    /// The vehicle carrying `id`, if tracked.
    pub fn get_vehicle_by_id(&self, id: i32) -> (r: Option<Vehicle>)
        ensures
            r == find_vehicle(self.vehicles_seq(), id),
    {
        lookup_vehicle(&self.vehicles, id)
    }

    /// The vehicles of `area` whose status is `status`, in identifier
    /// order; the dispatch pool when `status` is available. Side-effect
    /// free.
    pub fn get_eligible_vehicles(
        &self,
        store: &GraphStore,
        area_id: i32,
        status: VehicleStatus,
    ) -> (r: Vec<Vehicle>)
        ensures
            r@ == eligible_vehicles(self.vehicles_seq(), store.nodes_seq(), area_id, status),
    {
        let ghost vs = self.vehicles@;
        let ghost ns = store.nodes_seq();
        proof {
            assert(vs.skip(0) =~= vs);
        }
        let mut out: Vec<Vehicle> = Vec::new();
        let mut i: usize = 0;
        while i < self.vehicles.len()
            invariant
                i <= vs.len(),
                vs == self.vehicles@,
                ns == store.nodes_seq(),
                eligible_vehicles(vs, ns, area_id, status) == out@ + eligible_vehicles(
                    vs.skip(i as int),
                    ns,
                    area_id,
                    status,
                ),
            decreases vs.len() - i,
        {
            proof {
                assert(vs.skip(i as int).drop_first() =~= vs.skip(i as int + 1));
                assert(vs.skip(i as int)[0] == vs[i as int]);
            }
            let v = self.vehicles[i];
            if v.status == status {
                match store.get_area_id_by_node_id(v.node_id) {
                    Ok(a) => {
                        if a == area_id {
                            let ghost before = out@;
                            out.push(v);
                            proof {
                                assert(out@ + eligible_vehicles(
                                    vs.skip(i as int + 1),
                                    ns,
                                    area_id,
                                    status,
                                ) =~= before + (seq![vs[i as int]] + eligible_vehicles(
                                    vs.skip(i as int + 1),
                                    ns,
                                    area_id,
                                    status,
                                )));
                            }
                        }
                    },
                    Err(_) => {},
                }
            }
            i = i + 1;
        }
        proof {
            assert(vs.skip(vs.len() as int) =~= Seq::<Vehicle>::empty());
            assert(out@ + eligible_vehicles(vs.skip(vs.len() as int), ns, area_id, status)
                =~= out@);
        }
        out
    }

    /// Atomically moves vehicle `vehicle_id` to `node_id`; the vehicle
    /// changes dispatch pool for every resolution started afterwards.
    /// Fails without effect when the vehicle or the node is unknown.
    pub fn update_location(&mut self, store: &GraphStore, vehicle_id: i32, node_id: i32) -> (r:
        Result<(), DispatchError>)
        requires
            old(self).wf(),
        ensures
            final(self).wf(),
            match r {
                Ok(()) => {
                    &&& find_vehicle(old(self).vehicles_seq(), vehicle_id) is Some
                    &&& area_of(store.nodes_seq(), node_id) is Some
                    &&& final(self).vehicles_seq() == set_vehicle_location(
                        old(self).vehicles_seq(),
                        vehicle_id,
                        node_id,
                    )
                },
                Err(e) => {
                    &&& *final(self) == *old(self)
                    &&& (if find_vehicle(old(self).vehicles_seq(), vehicle_id) is None {
                        e == DispatchError::VehicleNotFound
                    } else {
                        e == DispatchError::NodeNotFound && area_of(
                            store.nodes_seq(),
                            node_id,
                        ) is None
                    })
                },
            },
    {
        let found = lookup_vehicle_index(&self.vehicles, vehicle_id);
        match found {
            None => Err(DispatchError::VehicleNotFound),
            Some(i) => {
                match store.get_area_id_by_node_id(node_id) {
                    Err(_) => Err(DispatchError::NodeNotFound),
                    Ok(_) => {
                        let ghost vs = self.vehicles@;
                        let v = self.vehicles[i];
                        self.vehicles[i] = Vehicle { id: v.id, node_id, status: v.status };
                        proof {
                            lemma_find_vehicle_at(vs, vehicle_id, i as int);
                            assert(self.vehicles@ =~= set_vehicle_location(
                                vs,
                                vehicle_id,
                                node_id,
                            ));
                            lemma_set_preserves_sorted(vs, self.vehicles@);
                        }
                        Ok(())
                    },
                }
            },
        }
    }

    /// Changes vehicle `vehicle_id` to `status`, provided the transition is
    /// one of the allowed ones; fails without effect otherwise.
    pub fn set_status(&mut self, vehicle_id: i32, status: VehicleStatus) -> (r: Result<
        (),
        DispatchError,
    >)
        requires
            old(self).wf(),
        ensures
            final(self).wf(),
            match r {
                Ok(()) => {
                    &&& find_vehicle(old(self).vehicles_seq(), vehicle_id) matches Some(v)
                        && allowed_status_transition(v.status, status)
                    &&& final(self).vehicles_seq() == set_vehicle_status(
                        old(self).vehicles_seq(),
                        vehicle_id,
                        status,
                    )
                },
                Err(e) => {
                    &&& *final(self) == *old(self)
                    &&& (if find_vehicle(old(self).vehicles_seq(), vehicle_id) is None {
                        e == DispatchError::VehicleNotFound
                    } else {
                        &&& e == DispatchError::InvalidStatusTransition
                        &&& !allowed_status_transition(
                            find_vehicle(old(self).vehicles_seq(), vehicle_id)->Some_0.status,
                            status,
                        )
                    })
                },
            },
    {
        let found = lookup_vehicle_index(&self.vehicles, vehicle_id);
        match found {
            None => Err(DispatchError::VehicleNotFound),
            Some(i) => {
                let v = self.vehicles[i];
                proof {
                    lemma_find_vehicle_at(self.vehicles@, vehicle_id, i as int);
                }
                let from = v.status;
                let ok = match (from, status) {
                    (VehicleStatus::Available, VehicleStatus::Dispatched) => true,
                    (VehicleStatus::Dispatched, VehicleStatus::Available) => true,
                    (VehicleStatus::Available, VehicleStatus::OffDuty) => true,
                    (VehicleStatus::OffDuty, VehicleStatus::Available) => true,
                    _ => false,
                };
                if !ok {
                    return Err(DispatchError::InvalidStatusTransition);
                }
                let ghost vs = self.vehicles@;
                self.vehicles[i] = Vehicle { id: v.id, node_id: v.node_id, status };
                proof {
                    assert(self.vehicles@ =~= set_vehicle_status(vs, vehicle_id, status));
                    lemma_set_preserves_sorted(vs, self.vehicles@);
                }
                Ok(())
            },
        }
    }

    /// One page of the vehicle list under optional status and area
    /// filters, in identifier order: the compute half of the paginated
    /// listing endpoint.
    pub fn get_paginated_tow_trucks(
        &self,
        store: &GraphStore,
        page: i32,
        page_size: i32,
        status: Option<VehicleStatus>,
        area: Option<i32>,
    ) -> (r: Vec<Vehicle>)
        ensures
            r@ == page_slice(
                filtered_vehicles(self.vehicles_seq(), store.nodes_seq(), status, area),
                page,
                page_size,
            ),
    {
        let ghost vs = self.vehicles@;
        let ghost ns = store.nodes_seq();
        proof {
            assert(vs.skip(0) =~= vs);
        }
        let mut all: Vec<Vehicle> = Vec::new();
        let mut i: usize = 0;
        while i < self.vehicles.len()
            invariant
                i <= vs.len(),
                vs == self.vehicles@,
                ns == store.nodes_seq(),
                filtered_vehicles(vs, ns, status, area) == all@ + filtered_vehicles(
                    vs.skip(i as int),
                    ns,
                    status,
                    area,
                ),
            decreases vs.len() - i,
        {
            proof {
                assert(vs.skip(i as int).drop_first() =~= vs.skip(i as int + 1));
                assert(vs.skip(i as int)[0] == vs[i as int]);
            }
            let v = self.vehicles[i];
            let status_ok = match status {
                Some(st) => v.status == st,
                None => true,
            };
            let area_ok = match area {
                Some(a) => {
                    match store.get_area_id_by_node_id(v.node_id) {
                        Ok(found) => found == a,
                        Err(_) => false,
                    }
                },
                None => true,
            };
            if status_ok && area_ok {
                let ghost before = all@;
                all.push(v);
                proof {
                    assert(all@ + filtered_vehicles(vs.skip(i as int + 1), ns, status, area)
                        =~= before + (seq![vs[i as int]] + filtered_vehicles(
                        vs.skip(i as int + 1),
                        ns,
                        status,
                        area,
                    )));
                }
            }
            i = i + 1;
        }
        proof {
            assert(vs.skip(vs.len() as int) =~= Seq::<Vehicle>::empty());
            assert(all@ + filtered_vehicles(vs.skip(vs.len() as int), ns, status, area) =~= all@);
        }
        take_page(&all, page, page_size)
    }
}

/// Linear scan mirroring [`find_vehicle`].
fn lookup_vehicle(vehicles: &Vec<Vehicle>, id: i32) -> (r: Option<Vehicle>)
    ensures
        r == find_vehicle(vehicles@, id),
{
    let ghost vs = vehicles@;
    proof {
        assert(vs.skip(0) =~= vs);
    }
    let mut i: usize = 0;
    while i < vehicles.len()
        invariant
            i <= vs.len(),
            vs == vehicles@,
            find_vehicle(vs, id) == find_vehicle(vs.skip(i as int), id),
        decreases vs.len() - i,
    {
        proof {
            assert(vs.skip(i as int).drop_first() =~= vs.skip(i as int + 1));
            assert(vs.skip(i as int)[0] == vs[i as int]);
        }
        if vehicles[i].id == id {
            return Some(vehicles[i]);
        }
        i = i + 1;
    }
    proof {
        assert(vs.skip(vs.len() as int) =~= Seq::<Vehicle>::empty());
    }
    None
}

/// Position of the first vehicle carrying `id`, when present.
fn lookup_vehicle_index(vehicles: &Vec<Vehicle>, id: i32) -> (r: Option<usize>)
    ensures
        match r {
            Some(i) => {
                &&& i < vehicles@.len()
                &&& vehicles@[i as int].id == id
                &&& forall|p: int| 0 <= p < i ==> (#[trigger] vehicles@[p]).id != id
                &&& find_vehicle(vehicles@, id) == Some(vehicles@[i as int])
            },
            None => find_vehicle(vehicles@, id) is None,
        },
{
    let ghost vs = vehicles@;
    proof {
        assert(vs.skip(0) =~= vs);
    }
    let mut i: usize = 0;
    while i < vehicles.len()
        invariant
            i <= vs.len(),
            vs == vehicles@,
            forall|p: int| 0 <= p < i ==> (#[trigger] vs[p]).id != id,
            find_vehicle(vs, id) == find_vehicle(vs.skip(i as int), id),
        decreases vs.len() - i,
    {
        proof {
            assert(vs.skip(i as int).drop_first() =~= vs.skip(i as int + 1));
            assert(vs.skip(i as int)[0] == vs[i as int]);
        }
        if vehicles[i].id == id {
            return Some(i);
        }
        i = i + 1;
    }
    proof {
        assert(vs.skip(vs.len() as int) =~= Seq::<Vehicle>::empty());
    }
    None
}

/// The first vehicle at a position whose earlier positions all miss `id`
/// is what `find_vehicle` returns.
proof fn lemma_find_vehicle_at(vs: Seq<Vehicle>, id: i32, i: int)
    requires
        0 <= i < vs.len(),
        vs[i].id == id,
        forall|p: int| 0 <= p < i ==> (#[trigger] vs[p]).id != id,
    ensures
        find_vehicle(vs, id) == Some(vs[i]),
    decreases i,
{
    if i > 0 {
        assert forall|p: int| 0 <= p < i - 1 implies (#[trigger] vs.drop_first()[p]).id != id by {
            assert(vs.drop_first()[p] == vs[p + 1]);
        }
        assert(vs.drop_first()[i - 1] == vs[i]);
        lemma_find_vehicle_at(vs.drop_first(), id, i - 1);
    }
}

/// Pointwise rewrites that keep identifiers keep the strict order.
proof fn lemma_set_preserves_sorted(vs: Seq<Vehicle>, vs2: Seq<Vehicle>)
    requires
        vehicles_sorted(vs),
        vs2.len() == vs.len(),
        forall|p: int| 0 <= p < vs.len() ==> (#[trigger] vs2[p]).id == vs[p].id,
    ensures
        vehicles_sorted(vs2),
{
}

} // verus!
