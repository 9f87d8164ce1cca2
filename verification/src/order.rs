use vstd::prelude::*;

use crate::errors::DispatchError;
use crate::paging::{page_slice, take_page};
use crate::store::{GraphStore, area_of};

verus! {

/// The lifecycle state of a service request. Transitions run one way:
/// pending, then dispatched, then completed; no state is ever skipped.
#[derive(Clone, Copy, Debug, PartialEq, Eq, Structural)]
pub enum OrderStatus {
    /// Created and awaiting a vehicle.
    Pending,
    /// A vehicle has been assigned.
    Dispatched,
    /// The request has been served.
    Completed,
}

/// A service request: identifier, target node (which places it in an area
/// through the graph store), lifecycle status, and the assigned vehicle
/// once dispatched.
#[derive(Clone, Copy, Debug, PartialEq, Eq, Structural)]
pub struct Order {
    pub id: i32,
    pub node_id: i32,
    pub status: OrderStatus,
    pub tow_truck_id: Option<i32>,
}

/// Order identifiers strictly ascending: unique, deterministic order.
pub open spec fn orders_sorted(os: Seq<Order>) -> bool {
    forall|i: int, j: int| 0 <= i < j < os.len() ==> (#[trigger] os[i]).id < (#[trigger] os[j]).id
}

/// The first order carrying identifier `id`, if any.
pub open spec fn find_order(os: Seq<Order>, id: i32) -> Option<Order>
    decreases os.len(),
{
    if os.len() == 0 {
        None
    } else if os[0].id == id {
        Some(os[0])
    } else {
        find_order(os.drop_first(), id)
    }
}

/// The one-way transitions of the order lifecycle.
pub open spec fn allowed_order_transition(from: OrderStatus, to: OrderStatus) -> bool {
    ||| (from == OrderStatus::Pending && to == OrderStatus::Dispatched)
    ||| (from == OrderStatus::Dispatched && to == OrderStatus::Completed)
}

/// `os` with the status of order `id` replaced by `st`.
pub open spec fn set_order_status(os: Seq<Order>, id: i32, st: OrderStatus) -> Seq<Order> {
    os.map_values(
        |o: Order|
            if o.id == id {
                Order { id: o.id, node_id: o.node_id, status: st, tow_truck_id: o.tow_truck_id }
            } else {
                o
            },
    )
}

/// `os` with order `id` marked dispatched to vehicle `vid`.
pub open spec fn set_order_dispatched(os: Seq<Order>, id: i32, vid: i32) -> Seq<Order> {
    os.map_values(
        |o: Order|
            if o.id == id {
                Order {
                    id: o.id,
                    node_id: o.node_id,
                    status: OrderStatus::Dispatched,
                    tow_truck_id: Some(vid),
                }
            } else {
                o
            },
    )
}

/// The orders passing the optional status and area filters, in identifier
/// order.
pub open spec fn filtered_orders(
    os: Seq<Order>,
    ns: Seq<crate::graph::Node>,
    status: Option<OrderStatus>,
    area: Option<i32>,
) -> Seq<Order>
    decreases os.len(),
{
    if os.len() == 0 {
        Seq::empty()
    } else {
        let rest = filtered_orders(os.drop_first(), ns, status, area);
        if order_passes(os[0], ns, status, area) {
            seq![os[0]] + rest
        } else {
            rest
        }
    }
}

/// One order against the optional status and area filters.
pub open spec fn order_passes(
    o: Order,
    ns: Seq<crate::graph::Node>,
    status: Option<OrderStatus>,
    area: Option<i32>,
) -> bool {
    &&& match status {
        Some(st) => o.status == st,
        None => true,
    }
    &&& match area {
        Some(a) => area_of(ns, o.node_id) == Some(a),
        None => true,
    }
}

/// The book of service requests and their lifecycle state.
#[derive(Debug)]
pub struct OrderBook {
    orders: Vec<Order>,
}

impl OrderBook {
    /// The recorded orders, ascending by identifier.
    pub closed spec fn orders_seq(self) -> Seq<Order> {
        self.orders@
    }

    /// Well-formedness: identifiers strictly ascending.
    pub open spec fn wf(self) -> bool {
        orders_sorted(self.orders_seq())
    }

    /// Populates the book from plain order rows, validating the identifier
    /// order.
    pub fn new(orders: Vec<Order>) -> (r: Result<OrderBook, DispatchError>)
        ensures
            match r {
                Ok(b) => {
                    &&& b.orders_seq() == orders@
                    &&& b.wf()
                },
                Err(e) => {
                    &&& e == DispatchError::InvalidInput
                    &&& !orders_sorted(orders@)
                },
            },
    {
        if orders.len() > 0 {
            let ghost os = orders@;
            let mut i: usize = 1;
            while i < orders.len()
                invariant
                    1 <= i <= os.len(),
                    os == orders@,
                    orders_sorted(os.take(i as int)),
                decreases orders.len() - i,
            {
                if orders[i - 1].id >= orders[i].id {
                    return Err(DispatchError::InvalidInput);
                }
                proof {
                    assert forall|p: int, q: int| 0 <= p < q < i + 1 implies (#[trigger] os.take(
                        i as int + 1,
                    )[p]).id < (#[trigger] os.take(i as int + 1)[q]).id by {
                        assert(os.take(i as int + 1)[p] == os[p]);
                        assert(os.take(i as int + 1)[q] == os[q]);
                        if q < i as int {
                            assert(os.take(i as int)[p] == os[p]);
                            assert(os.take(i as int)[q] == os[q]);
                        } else if p < i - 1 {
                            assert(os.take(i as int)[p] == os[p]);
                            assert(os.take(i as int)[i - 1] == os[i - 1]);
                        }
                    }
                }
                i = i + 1;
            }
            proof {
                assert(os.take(os.len() as int) =~= os);
            }
        }
        Ok(OrderBook { orders })
    }

    /// The order carrying `id`, or `OrderNotFound`.
    pub fn find_order_by_id(&self, id: i32) -> (r: Result<Order, DispatchError>)
        ensures
            match r {
                Ok(o) => find_order(self.orders_seq(), id) == Some(o),
                Err(e) => {
                    &&& e == DispatchError::OrderNotFound
                    &&& find_order(self.orders_seq(), id) is None
                },
            },
    {
        match lookup_order_index(&self.orders, id) {
            Some(i) => Ok(self.orders[i]),
            None => Err(DispatchError::OrderNotFound),
        }
    }

    /// Records a fresh pending request for `node_id` under the identifier
    /// `id`, which must exceed every recorded identifier; the node must be
    /// known to the graph store.
    pub fn create_order(&mut self, store: &GraphStore, id: i32, node_id: i32) -> (r: Result<
        (),
        DispatchError,
    >)
        requires
            old(self).wf(),
        ensures
            final(self).wf(),
            match r {
                Ok(()) => {
                    &&& area_of(store.nodes_seq(), node_id) is Some
                    &&& final(self).orders_seq() == old(self).orders_seq().push(
                        Order {
                            id,
                            node_id,
                            status: OrderStatus::Pending,
                            tow_truck_id: None::<i32>,
                        },
                    )
                },
                Err(e) => {
                    &&& *final(self) == *old(self)
                    &&& (if area_of(store.nodes_seq(), node_id) is None {
                        e == DispatchError::NodeNotFound
                    } else {
                        &&& e == DispatchError::InvalidInput
                        &&& !(forall|p: int|
                            0 <= p < old(self).orders_seq().len() ==> (#[trigger] old(
                                self,
                            ).orders_seq()[p]).id < id)
                    })
                },
            },
    {
        match store.get_area_id_by_node_id(node_id) {
            Err(_) => Err(DispatchError::NodeNotFound),
            Ok(_) => {
                if self.orders.len() > 0 {
                    let last = self.orders[self.orders.len() - 1];
                    if last.id >= id {
                        return Err(DispatchError::InvalidInput);
                    }
                }
                let ghost os = self.orders@;
                self.orders.push(
                    Order { id, node_id, status: OrderStatus::Pending, tow_truck_id: None },
                );
                proof {
                    assert forall|p: int, q: int|
                        0 <= p < q < self.orders@.len() implies (#[trigger] self.orders@[p]).id < (
                    #[trigger] self.orders@[q]).id by {
                        if q < os.len() {
                            assert(self.orders@[p] == os[p] && self.orders@[q] == os[q]);
                        } else {
                            assert(self.orders@[p] == os[p]);
                            assert(os[p].id <= os[os.len() - 1].id);
                        }
                    }
                }
                Ok(())
            },
        }
    }

    /// Moves order `order_id` to `status`, provided that is the next step
    /// of the lifecycle; fails without effect otherwise. The assigned
    /// vehicle is untouched.
    pub fn update_order_status(&mut self, order_id: i32, status: OrderStatus) -> (r: Result<
        (),
        DispatchError,
    >)
        requires
            old(self).wf(),
        ensures
            final(self).wf(),
            match r {
                Ok(()) => {
                    &&& find_order(old(self).orders_seq(), order_id) matches Some(o)
                        && allowed_order_transition(o.status, status)
                    &&& final(self).orders_seq() == set_order_status(
                        old(self).orders_seq(),
                        order_id,
                        status,
                    )
                },
                Err(e) => {
                    &&& *final(self) == *old(self)
                    &&& (if find_order(old(self).orders_seq(), order_id) is None {
                        e == DispatchError::OrderNotFound
                    } else {
                        &&& e == DispatchError::InvalidOrderState
                        &&& !allowed_order_transition(
                            find_order(old(self).orders_seq(), order_id)->Some_0.status,
                            status,
                        )
                    })
                },
            },
    {
        match lookup_order_index(&self.orders, order_id) {
            None => Err(DispatchError::OrderNotFound),
            Some(i) => {
                let o = self.orders[i];
                proof {
                    lemma_find_order_at(self.orders@, order_id, i as int);
                }
                let ok = match (o.status, status) {
                    (OrderStatus::Pending, OrderStatus::Dispatched) => true,
                    (OrderStatus::Dispatched, OrderStatus::Completed) => true,
                    _ => false,
                };
                if !ok {
                    return Err(DispatchError::InvalidOrderState);
                }
                let ghost os = self.orders@;
                self.orders[i] = Order {
                    id: o.id,
                    node_id: o.node_id,
                    status,
                    tow_truck_id: o.tow_truck_id,
                };
                proof {
                    assert(self.orders@ =~= set_order_status(os, order_id, status));
                    lemma_order_rewrite_sorted(os, self.orders@);
                }
                Ok(())
            },
        }
    }

    /// Marks a pending order dispatched and records the assigned vehicle;
    /// half of the atomic confirmation step driven by the dispatch
    /// resolver. Fails without effect when the order is missing or no
    /// longer pending.
    pub fn update_order_dispatched(&mut self, order_id: i32, tow_truck_id: i32) -> (r: Result<
        (),
        DispatchError,
    >)
        requires
            old(self).wf(),
        ensures
            final(self).wf(),
            match r {
                Ok(()) => {
                    &&& find_order(old(self).orders_seq(), order_id) matches Some(o) && o.status
                        == OrderStatus::Pending
                    &&& final(self).orders_seq() == set_order_dispatched(
                        old(self).orders_seq(),
                        order_id,
                        tow_truck_id,
                    )
                },
                Err(e) => {
                    &&& *final(self) == *old(self)
                    &&& (if find_order(old(self).orders_seq(), order_id) is None {
                        e == DispatchError::OrderNotFound
                    } else {
                        &&& e == DispatchError::InvalidOrderState
                        &&& find_order(old(self).orders_seq(), order_id)->Some_0.status
                            != OrderStatus::Pending
                    })
                },
            },
    {
        match lookup_order_index(&self.orders, order_id) {
            None => Err(DispatchError::OrderNotFound),
            Some(i) => {
                let o = self.orders[i];
                proof {
                    lemma_find_order_at(self.orders@, order_id, i as int);
                }
                let pending = match o.status {
                    OrderStatus::Pending => true,
                    _ => false,
                };
                if !pending {
                    return Err(DispatchError::InvalidOrderState);
                }
                let ghost os = self.orders@;
                self.orders[i] = Order {
                    id: o.id,
                    node_id: o.node_id,
                    status: OrderStatus::Dispatched,
                    tow_truck_id: Some(tow_truck_id),
                };
                proof {
                    assert(self.orders@ =~= set_order_dispatched(os, order_id, tow_truck_id));
                    lemma_order_rewrite_sorted(os, self.orders@);
                }
                Ok(())
            },
        }
    }

    /// One page of the order list under optional status and area filters,
    /// in identifier order: the compute half of the paginated listing
    /// endpoint.
    pub fn get_paginated_orders(
        &self,
        store: &GraphStore,
        page: i32,
        page_size: i32,
        status: Option<OrderStatus>,
        area: Option<i32>,
    ) -> (r: Vec<Order>)
        ensures
            r@ == page_slice(
                filtered_orders(self.orders_seq(), store.nodes_seq(), status, area),
                page,
                page_size,
            ),
    {
        let ghost os = self.orders@;
        let ghost ns = store.nodes_seq();
        proof {
            assert(os.skip(0) =~= os);
        }
        let mut all: Vec<Order> = Vec::new();
        let mut i: usize = 0;
        while i < self.orders.len()
            invariant
                i <= os.len(),
                os == self.orders@,
                ns == store.nodes_seq(),
                filtered_orders(os, ns, status, area) == all@ + filtered_orders(
                    os.skip(i as int),
                    ns,
                    status,
                    area,
                ),
            decreases os.len() - i,
        {
            proof {
                assert(os.skip(i as int).drop_first() =~= os.skip(i as int + 1));
                assert(os.skip(i as int)[0] == os[i as int]);
            }
            let o = self.orders[i];
            let status_ok = match status {
                Some(st) => o.status == st,
                None => true,
            };
            let area_ok = match area {
                Some(a) => {
                    match store.get_area_id_by_node_id(o.node_id) {
                        Ok(found) => found == a,
                        Err(_) => false,
                    }
                },
                None => true,
            };
            if status_ok && area_ok {
                let ghost before = all@;
                all.push(o);
                proof {
                    assert(all@ + filtered_orders(os.skip(i as int + 1), ns, status, area)
                        =~= before + (seq![os[i as int]] + filtered_orders(
                        os.skip(i as int + 1),
                        ns,
                        status,
                        area,
                    )));
                }
            }
            i = i + 1;
        }
        proof {
            assert(os.skip(os.len() as int) =~= Seq::<Order>::empty());
            assert(all@ + filtered_orders(os.skip(os.len() as int), ns, status, area) =~= all@);
        }
        take_page(&all, page, page_size)
    }
}

/// Position of the first order carrying `id`, when present.
fn lookup_order_index(orders: &Vec<Order>, id: i32) -> (r: Option<usize>)
    ensures
        match r {
            Some(i) => {
                &&& i < orders@.len()
                &&& orders@[i as int].id == id
                &&& forall|p: int| 0 <= p < i ==> (#[trigger] orders@[p]).id != id
                &&& find_order(orders@, id) == Some(orders@[i as int])
            },
            None => find_order(orders@, id) is None,
        },
{
    let ghost os = orders@;
    proof {
        assert(os.skip(0) =~= os);
    }
    let mut i: usize = 0;
    while i < orders.len()
        invariant
            i <= os.len(),
            os == orders@,
            forall|p: int| 0 <= p < i ==> (#[trigger] os[p]).id != id,
            find_order(os, id) == find_order(os.skip(i as int), id),
        decreases os.len() - i,
    {
        proof {
            assert(os.skip(i as int).drop_first() =~= os.skip(i as int + 1));
            assert(os.skip(i as int)[0] == os[i as int]);
        }
        if orders[i].id == id {
            return Some(i);
        }
        i = i + 1;
    }
    proof {
        assert(os.skip(os.len() as int) =~= Seq::<Order>::empty());
    }
    None
}

/// The first order at a position whose earlier positions all miss `id` is
/// what `find_order` returns.
proof fn lemma_find_order_at(os: Seq<Order>, id: i32, i: int)
    requires
        0 <= i < os.len(),
        os[i].id == id,
        forall|p: int| 0 <= p < i ==> (#[trigger] os[p]).id != id,
    ensures
        find_order(os, id) == Some(os[i]),
    decreases i,
{
    if i > 0 {
        assert forall|p: int| 0 <= p < i - 1 implies (#[trigger] os.drop_first()[p]).id != id by {
            assert(os.drop_first()[p] == os[p + 1]);
        }
        assert(os.drop_first()[i - 1] == os[i]);
        lemma_find_order_at(os.drop_first(), id, i - 1);
    }
}

/// Pointwise rewrites that keep identifiers keep the strict order.
proof fn lemma_order_rewrite_sorted(os: Seq<Order>, os2: Seq<Order>)
    requires
        orders_sorted(os),
        os2.len() == os.len(),
        forall|p: int| 0 <= p < os.len() ==> (#[trigger] os2[p]).id == os[p].id,
    ensures
        orders_sorted(os2),
{
}

} // verus!
