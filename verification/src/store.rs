use vstd::prelude::*;

use crate::errors::DispatchError;
use crate::graph::{
    Edge, GraphSnapshot, Node, edge_connects, edges_distinct_pairs, graph_input_ok, has_pair,
    ids_sorted,
};

verus! {

/// Node identifiers strictly ascending: each node appears once and
/// enumeration order is deterministic.
pub open spec fn nodes_sorted(ns: Seq<Node>) -> bool {
    forall|i: int, j: int| 0 <= i < j < ns.len() ==> (#[trigger] ns[i]).id < (#[trigger] ns[j]).id
}

/// The first node carrying identifier `id`, if any.
pub open spec fn find_node(ns: Seq<Node>, id: i32) -> Option<Node>
    decreases ns.len(),
{
    if ns.len() == 0 {
        None
    } else if ns[0].id == id {
        Some(ns[0])
    } else {
        find_node(ns.drop_first(), id)
    }
}

/// The area of the node carrying identifier `id`, if any.
pub open spec fn area_of(ns: Seq<Node>, id: i32) -> Option<i32> {
    match find_node(ns, id) {
        Some(n) => Some(n.area_id),
        None => None,
    }
}

/// The identifiers of the nodes of `area`, in enumeration order.
pub open spec fn ids_in_area(ns: Seq<Node>, area: i32) -> Seq<i32>
    decreases ns.len(),
{
    if ns.len() == 0 {
        Seq::empty()
    } else {
        let rest = ids_in_area(ns.drop_first(), area);
        if ns[0].area_id == area {
            seq![ns[0].id] + rest
        } else {
            rest
        }
    }
}

/// The nodes of `area`, in enumeration order.
pub open spec fn nodes_in_area(ns: Seq<Node>, area: i32) -> Seq<Node>
    decreases ns.len(),
{
    if ns.len() == 0 {
        Seq::empty()
    } else {
        let rest = nodes_in_area(ns.drop_first(), area);
        if ns[0].area_id == area {
            seq![ns[0]] + rest
        } else {
            rest
        }
    }
}

/// The edges both of whose endpoints lie in `area`, in enumeration order.
/// Under the store invariant both endpoints share an area, so membership is
/// decided by the first endpoint.
pub open spec fn edges_in_area(ns: Seq<Node>, es: Seq<Edge>, area: i32) -> Seq<Edge>
    decreases es.len(),
{
    if es.len() == 0 {
        Seq::empty()
    } else {
        let prefix = edges_in_area(ns, es.drop_last(), area);
        if area_of(ns, es.last().node_a_id) == Some(area) {
            prefix.push(es.last())
        } else {
            prefix
        }
    }
}

/// All edges connecting the unordered pair `{a, b}` re-weighted to `w`;
/// every other edge untouched. Symmetric in `a` and `b` by construction.
pub open spec fn update_pair_weight(es: Seq<Edge>, a: i32, b: i32, w: u32) -> Seq<Edge> {
    es.map_values(
        |e: Edge|
            if edge_connects(e, a, b) {
                Edge { node_a_id: e.node_a_id, node_b_id: e.node_b_id, weight: w }
            } else {
                e
            },
    )
}

/// Some node of `ns` carries identifier `x`.
pub open spec fn has_node_id(ns: Seq<Node>, x: i32) -> bool {
    exists|i: int| 0 <= i < ns.len() && (#[trigger] ns[i]).id == x
}

/// The node carrying identifier `x` in `ns` belongs to `area`.
pub open spec fn node_id_in_area(ns: Seq<Node>, area: i32, x: i32) -> bool {
    exists|i: int| 0 <= i < ns.len() && (#[trigger] ns[i]).id == x && ns[i].area_id == area
}

/// `e` is one of the edges of `es`.
pub open spec fn contains_edge(es: Seq<Edge>, e: Edge) -> bool {
    exists|k: int| 0 <= k < es.len() && es[k] == e
}

/// Well-formedness of the whole store: nodes strictly ascending by
/// identifier and bounded in number, every edge a normalized pair of two
/// existing nodes of one shared area, and no duplicate pairs.
pub open spec fn store_input_ok(ns: Seq<Node>, es: Seq<Edge>) -> bool {
    &&& nodes_sorted(ns)
    &&& ns.len() <= 0x1_0000_0000
    &&& (forall|k: int| 0 <= k < es.len() ==> (#[trigger] es[k]).node_a_id < es[k].node_b_id)
    &&& (forall|k: int|
        0 <= k < es.len() ==> area_of(ns, (#[trigger] es[k]).node_a_id) is Some && area_of(
            ns,
            es[k].node_b_id,
        ) == area_of(ns, es[k].node_a_id))
    &&& edges_distinct_pairs(es)
}

/// The authoritative, area-partitioned weighted undirected graph.
///
/// It serializes weight mutations (every update goes through one exclusive
/// borrow) and produces read-consistent, immutable snapshots per area.
#[derive(Debug)]
pub struct GraphStore {
    nodes: Vec<Node>,
    edges: Vec<Edge>,
}

impl GraphStore {
    /// The nodes of the store, ascending by identifier.
    pub closed spec fn nodes_seq(self) -> Seq<Node> {
        self.nodes@
    }

    /// The edges of the store, in load order.
    pub closed spec fn edges_seq(self) -> Seq<Edge> {
        self.edges@
    }

    /// Well-formedness: see [`store_input_ok`].
    pub open spec fn wf(self) -> bool {
        store_input_ok(self.nodes_seq(), self.edges_seq())
    }

    /// Populates a store from plain node and edge rows, as loaded from the
    /// durable backing; validates every store invariant.
    pub fn new(nodes: Vec<Node>, edges: Vec<Edge>) -> (r: Result<GraphStore, DispatchError>)
        ensures
            match r {
                Ok(g) => {
                    &&& g.nodes_seq() == nodes@
                    &&& g.edges_seq() == edges@
                    &&& g.wf()
                },
                Err(e) => {
                    &&& e == DispatchError::InvalidInput
                    &&& !store_input_ok(nodes@, edges@)
                },
            },
    {
        if nodes.len() as u64 > 0x1_0000_0000u64 {
            return Err(DispatchError::InvalidInput);
        }
        let mut i: usize = 1;
        while i < nodes.len()
            invariant
                1 <= i,
                forall|p: int| 0 <= p < i - 1 ==> (#[trigger] nodes@[p]).id < nodes@[p + 1].id,
            decreases nodes.len() - i,
        {
            if nodes[i - 1].id >= nodes[i].id {
                return Err(DispatchError::InvalidInput);
            }
            i = i + 1;
        }
        proof {
            lemma_nodes_adjacent_sorted(nodes@);
        }
        let mut k: usize = 0;
        while k < edges.len()
            invariant
                k <= edges.len(),
                forall|p: int| 0 <= p < k ==> (#[trigger] edges@[p]).node_a_id < edges@[p].node_b_id,
                forall|p: int|
                    0 <= p < k ==> area_of(nodes@, (#[trigger] edges@[p]).node_a_id) is Some
                        && area_of(nodes@, edges@[p].node_b_id) == area_of(
                        nodes@,
                        edges@[p].node_a_id,
                    ),
                forall|p: int, q: int|
                    0 <= p < q < k ==> !edge_connects(
                        #[trigger] edges@[q],
                        (#[trigger] edges@[p]).node_a_id,
                        edges@[p].node_b_id,
                    ),
            decreases edges.len() - k,
        {
            let e = edges[k];
            if e.node_a_id >= e.node_b_id {
                return Err(DispatchError::InvalidInput);
            }
            let area_a = lookup_area(&nodes, e.node_a_id);
            let area_b = lookup_area(&nodes, e.node_b_id);
            match (area_a, area_b) {
                (Some(aa), Some(ab)) => {
                    if aa != ab {
                        return Err(DispatchError::InvalidInput);
                    }
                },
                _ => {
                    return Err(DispatchError::InvalidInput);
                },
            }
            let mut p: usize = 0;
            while p < k
                invariant
                    p <= k,
                    k < edges.len(),
                    e == edges@[k as int],
                    forall|q: int|
                        0 <= q < p ==> !edge_connects(
                            edges@[k as int],
                            (#[trigger] edges@[q]).node_a_id,
                            edges@[q].node_b_id,
                        ),
                decreases k - p,
            {
                let prior = edges[p];
                if (prior.node_a_id == e.node_a_id && prior.node_b_id == e.node_b_id) || (
                prior.node_a_id == e.node_b_id && prior.node_b_id == e.node_a_id) {
                    return Err(DispatchError::InvalidInput);
                }
                p = p + 1;
            }
            k = k + 1;
        }
        Ok(GraphStore { nodes, edges })
    }

    /// A consistent, point-in-time copy of one area's graph, for exclusive
    /// use by one shortest-path computation. Read-only on the store;
    /// fails exactly when the area has no nodes.
    pub fn get_snapshot(&self, area_id: i32) -> (r: Result<GraphSnapshot, DispatchError>)
        requires
            self.wf(),
        ensures
            match r {
                Ok(s) => {
                    &&& s.node_ids() == ids_in_area(self.nodes_seq(), area_id)
                    &&& s.edge_list() == edges_in_area(self.nodes_seq(), self.edges_seq(), area_id)
                    &&& s.wf()
                    &&& s.node_ids().len() > 0
                },
                Err(e) => {
                    &&& e == DispatchError::AreaNotFound
                    &&& ids_in_area(self.nodes_seq(), area_id).len() == 0
                },
            },
    {
        let ghost ns = self.nodes@;
        let ghost es = self.edges@;
        proof {
            assert(ns.skip(0) =~= ns);
        }
        let mut out_ids: Vec<i32> = Vec::new();
        let mut i: usize = 0;
        while i < self.nodes.len()
            invariant
                i <= ns.len(),
                ns == self.nodes@,
                ids_in_area(ns, area_id) == out_ids@ + ids_in_area(ns.skip(i as int), area_id),
            decreases ns.len() - i,
        {
            proof {
                assert(ns.skip(i as int).drop_first() =~= ns.skip(i as int + 1));
                assert(ns.skip(i as int)[0] == ns[i as int]);
            }
            if self.nodes[i].area_id == area_id {
                let ghost before = out_ids@;
                out_ids.push(self.nodes[i].id);
                proof {
                    assert(out_ids@ + ids_in_area(ns.skip(i as int + 1), area_id) =~= before + (
                    seq![ns[i as int].id] + ids_in_area(ns.skip(i as int + 1), area_id)));
                }
            }
            i = i + 1;
        }
        proof {
            assert(ns.skip(ns.len() as int) =~= Seq::<Node>::empty());
            assert(out_ids@ + ids_in_area(ns.skip(ns.len() as int), area_id) =~= out_ids@);
        }
        if out_ids.len() == 0 {
            return Err(DispatchError::AreaNotFound);
        }
        proof {
            assert(es.take(0) =~= Seq::<Edge>::empty());
        }
        let mut out_edges: Vec<Edge> = Vec::new();
        let mut k: usize = 0;
        while k < self.edges.len()
            invariant
                k <= es.len(),
                ns == self.nodes@,
                es == self.edges@,
                out_edges@ == edges_in_area(ns, es.take(k as int), area_id),
            decreases es.len() - k,
        {
            proof {
                assert(es.take(k as int + 1).drop_last() =~= es.take(k as int));
                assert(es.take(k as int + 1).last() == es[k as int]);
            }
            let e = self.edges[k];
            match lookup_area(&self.nodes, e.node_a_id) {
                Some(a) => {
                    if a == area_id {
                        out_edges.push(e);
                    }
                },
                None => {},
            }
            k = k + 1;
        }
        proof {
            assert(es.take(es.len() as int) =~= es);
            lemma_ids_in_area_wf(ns, area_id);
            lemma_edges_in_area_wf(ns, es, area_id);
            assert(graph_input_ok(ids_in_area(ns, area_id), edges_in_area(ns, es, area_id)));
        }
        Ok(GraphSnapshot::from_parts(out_ids, out_edges))
    }

    /// Replaces the weight of the edge on the unordered pair `{node_a_id,
    /// node_b_id}`. Rejects a negative weight without touching the store;
    /// fails when no edge connects the pair. The change is visible to every
    /// snapshot taken afterwards and to none taken before.
    pub fn update_edge_weight(&mut self, node_a_id: i32, node_b_id: i32, weight: i32) -> (r: Result<
        (),
        DispatchError,
    >)
        requires
            old(self).wf(),
        ensures
            final(self).wf(),
            final(self).nodes_seq() == old(self).nodes_seq(),
            match r {
                Ok(()) => {
                    &&& weight >= 0
                    &&& has_pair(old(self).edges_seq(), node_a_id, node_b_id)
                    &&& final(self).edges_seq() == update_pair_weight(
                        old(self).edges_seq(),
                        node_a_id,
                        node_b_id,
                        weight as u32,
                    )
                },
                Err(e) => {
                    &&& *final(self) == *old(self)
                    &&& (if weight < 0 {
                        e == DispatchError::InvalidInput
                    } else {
                        e == DispatchError::EdgeNotFound && !has_pair(
                            old(self).edges_seq(),
                            node_a_id,
                            node_b_id,
                        )
                    })
                },
            },
    {
        if weight < 0 {
            return Err(DispatchError::InvalidInput);
        }
        let ghost es = self.edges@;
        let mut k: usize = 0;
        while k < self.edges.len()
            invariant
                k <= es.len(),
                es == self.edges@,
                *self == *old(self),
                old(self).wf(),
                0 <= weight,
                forall|p: int|
                    0 <= p < k ==> !edge_connects(#[trigger] es[p], node_a_id, node_b_id),
            decreases es.len() - k,
        {
            let e = self.edges[k];
            if (e.node_a_id == node_a_id && e.node_b_id == node_b_id) || (e.node_a_id == node_b_id
                && e.node_b_id == node_a_id) {
                self.edges[k] = Edge {
                    node_a_id: e.node_a_id,
                    node_b_id: e.node_b_id,
                    weight: weight as u32,
                };
                proof {
                    assert(edge_connects(es[k as int], node_a_id, node_b_id));
                    assert(self.edges@ =~= update_pair_weight(
                        es,
                        node_a_id,
                        node_b_id,
                        weight as u32,
                    )) by {
                        assert forall|p: int| 0 <= p < es.len() implies self.edges@[p]
                            == update_pair_weight(es, node_a_id, node_b_id, weight as u32)[p] by {
                            if p != k as int && edge_connects(es[p], node_a_id, node_b_id) {
                                if p < k as int {
                                    assert(!edge_connects(
                                        es[k as int],
                                        es[p].node_a_id,
                                        es[p].node_b_id,
                                    ));
                                } else {
                                    assert(!edge_connects(
                                        es[p],
                                        es[k as int].node_a_id,
                                        es[k as int].node_b_id,
                                    ));
                                }
                                assert(false);
                            }
                        }
                    }
                    lemma_update_weight_preserves_ok(
                        self.nodes@,
                        es,
                        node_a_id,
                        node_b_id,
                        weight as u32,
                    );
                }
                return Ok(());
            }
            k = k + 1;
        }
        Err(DispatchError::EdgeNotFound)
    }

    /// Read-only enumeration of nodes, ascending by identifier; restricted
    /// to one area when `area_id` is given.
    pub fn get_nodes(&self, area_id: Option<i32>) -> (r: Vec<Node>)
        ensures
            match area_id {
                Some(a) => r@ == nodes_in_area(self.nodes_seq(), a),
                None => r@ == self.nodes_seq(),
            },
    {
        let ghost ns = self.nodes@;
        let mut out: Vec<Node> = Vec::new();
        let mut i: usize = 0;
        match area_id {
            Some(a) => {
                proof {
                    assert(ns.skip(0) =~= ns);
                }
                while i < self.nodes.len()
                    invariant
                        i <= ns.len(),
                        ns == self.nodes@,
                        nodes_in_area(ns, a) == out@ + nodes_in_area(ns.skip(i as int), a),
                    decreases ns.len() - i,
                {
                    proof {
                        assert(ns.skip(i as int).drop_first() =~= ns.skip(i as int + 1));
                        assert(ns.skip(i as int)[0] == ns[i as int]);
                    }
                    if self.nodes[i].area_id == a {
                        let ghost before = out@;
                        out.push(self.nodes[i]);
                        proof {
                            assert(out@ + nodes_in_area(ns.skip(i as int + 1), a) =~= before + (
                            seq![ns[i as int]] + nodes_in_area(ns.skip(i as int + 1), a)));
                        }
                    }
                    i = i + 1;
                }
                proof {
                    assert(ns.skip(ns.len() as int) =~= Seq::<Node>::empty());
                    assert(out@ + nodes_in_area(ns.skip(ns.len() as int), a) =~= out@);
                }
            },
            None => {
                while i < self.nodes.len()
                    invariant
                        i <= ns.len(),
                        ns == self.nodes@,
                        out@ == ns.take(i as int),
                    decreases ns.len() - i,
                {
                    out.push(self.nodes[i]);
                    proof {
                        assert(ns.take(i as int + 1) =~= ns.take(i as int).push(ns[i as int]));
                    }
                    i = i + 1;
                }
                proof {
                    assert(ns.take(ns.len() as int) =~= ns);
                }
            },
        }
        out
    }

    /// Read-only enumeration of edges; restricted to one area when
    /// `area_id` is given.
    pub fn get_edges(&self, area_id: Option<i32>) -> (r: Vec<Edge>)
        ensures
            match area_id {
                Some(a) => r@ == edges_in_area(self.nodes_seq(), self.edges_seq(), a),
                None => r@ == self.edges_seq(),
            },
    {
        let ghost ns = self.nodes@;
        let ghost es = self.edges@;
        let mut out: Vec<Edge> = Vec::new();
        let mut k: usize = 0;
        match area_id {
            Some(a) => {
                proof {
                    assert(es.take(0) =~= Seq::<Edge>::empty());
                }
                while k < self.edges.len()
                    invariant
                        k <= es.len(),
                        ns == self.nodes@,
                        es == self.edges@,
                        out@ == edges_in_area(ns, es.take(k as int), a),
                    decreases es.len() - k,
                {
                    proof {
                        assert(es.take(k as int + 1).drop_last() =~= es.take(k as int));
                        assert(es.take(k as int + 1).last() == es[k as int]);
                    }
                    let e = self.edges[k];
                    match lookup_area(&self.nodes, e.node_a_id) {
                        Some(found) => {
                            if found == a {
                                out.push(e);
                            }
                        },
                        None => {},
                    }
                    k = k + 1;
                }
                proof {
                    assert(es.take(es.len() as int) =~= es);
                }
            },
            None => {
                while k < self.edges.len()
                    invariant
                        k <= es.len(),
                        es == self.edges@,
                        out@ == es.take(k as int),
                    decreases es.len() - k,
                {
                    out.push(self.edges[k]);
                    proof {
                        assert(es.take(k as int + 1) =~= es.take(k as int).push(es[k as int]));
                    }
                    k = k + 1;
                }
                proof {
                    assert(es.take(es.len() as int) =~= es);
                }
            },
        }
        out
    }

    /// The area of the node carrying `node_id`, or `NodeNotFound`.
    pub fn get_area_id_by_node_id(&self, node_id: i32) -> (r: Result<i32, DispatchError>)
        ensures
            match r {
                Ok(a) => area_of(self.nodes_seq(), node_id) == Some(a),
                Err(e) => {
                    &&& e == DispatchError::NodeNotFound
                    &&& area_of(self.nodes_seq(), node_id) is None
                },
            },
    {
        match lookup_area(&self.nodes, node_id) {
            Some(a) => Ok(a),
            None => Err(DispatchError::NodeNotFound),
        }
    }
}

/// Linear scan for the area of the node carrying `id`, mirroring
/// [`area_of`].
fn lookup_area(nodes: &Vec<Node>, id: i32) -> (r: Option<i32>)
    ensures
        r == area_of(nodes@, id),
{
    let ghost ns = nodes@;
    proof {
        assert(ns.skip(0) =~= ns);
    }
    let mut i: usize = 0;
    while i < nodes.len()
        invariant
            i <= ns.len(),
            ns == nodes@,
            area_of(ns, id) == area_of(ns.skip(i as int), id),
        decreases ns.len() - i,
    {
        proof {
            assert(ns.skip(i as int).drop_first() =~= ns.skip(i as int + 1));
            assert(ns.skip(i as int)[0] == ns[i as int]);
        }
        if nodes[i].id == id {
            return Some(nodes[i].area_id);
        }
        i = i + 1;
    }
    proof {
        assert(ns.skip(ns.len() as int) =~= Seq::<Node>::empty());
    }
    None
}

/// From pairwise-adjacent ordering of node identifiers to full ordering.
proof fn lemma_nodes_adjacent_sorted(ns: Seq<Node>)
    requires
        forall|p: int| 0 <= p < ns.len() - 1 ==> (#[trigger] ns[p]).id < ns[p + 1].id,
    ensures
        nodes_sorted(ns),
{
    assert forall|i: int, j: int| 0 <= i < j < ns.len() implies (#[trigger] ns[i]).id < (
    #[trigger] ns[j]).id by {
        lemma_nodes_adjacent_step(ns, i, j);
    }
}

proof fn lemma_nodes_adjacent_step(ns: Seq<Node>, i: int, j: int)
    requires
        forall|p: int| 0 <= p < ns.len() - 1 ==> (#[trigger] ns[p]).id < ns[p + 1].id,
        0 <= i < j < ns.len(),
    ensures
        ns[i].id < ns[j].id,
    decreases j - i,
{
    if j > i + 1 {
        lemma_nodes_adjacent_step(ns, i, j - 1);
    }
}

/// An area's identifier list is strictly ascending, no longer than the node
/// list, and made of identifiers of that area's nodes.
pub proof fn lemma_ids_in_area_wf(ns: Seq<Node>, area: i32)
    requires
        nodes_sorted(ns),
    ensures
        ids_sorted(ids_in_area(ns, area)),
        ids_in_area(ns, area).len() <= ns.len(),
        forall|q: int|
            0 <= q < ids_in_area(ns, area).len() ==> node_id_in_area(
                ns,
                area,
                #[trigger] ids_in_area(ns, area)[q],
            ),
    decreases ns.len(),
{
    if ns.len() > 0 {
        let rest_ns = ns.drop_first();
        assert(nodes_sorted(rest_ns)) by {
            assert forall|i: int, j: int| 0 <= i < j < rest_ns.len() implies (
            #[trigger] rest_ns[i]).id < (#[trigger] rest_ns[j]).id by {
                assert(rest_ns[i] == ns[i + 1] && rest_ns[j] == ns[j + 1]);
            }
        }
        lemma_ids_in_area_wf(rest_ns, area);
        assert forall|q: int| 0 <= q < ids_in_area(ns, area).len() implies node_id_in_area(
            ns,
            area,
            #[trigger] ids_in_area(ns, area)[q],
        ) by {
            if ns[0].area_id == area && q == 0 {
                assert(ns[0].id == ids_in_area(ns, area)[0] && ns[0].area_id == area);
            } else {
                let qr = if ns[0].area_id == area {
                    q - 1
                } else {
                    q
                };
                assert(ids_in_area(ns, area)[q] == ids_in_area(rest_ns, area)[qr]);
                assert(node_id_in_area(rest_ns, area, ids_in_area(rest_ns, area)[qr]));
                let i0 = choose|i: int|
                    0 <= i < rest_ns.len() && (#[trigger] rest_ns[i]).id == ids_in_area(
                        rest_ns,
                        area,
                    )[qr] && rest_ns[i].area_id == area;
                assert(ns[i0 + 1] == rest_ns[i0]);
            }
        }
        assert forall|q1: int, q2: int|
            0 <= q1 < q2 < ids_in_area(ns, area).len() implies ids_in_area(ns, area)[q1]
            < ids_in_area(ns, area)[q2] by {
            if ns[0].area_id == area {
                if q1 == 0 {
                    assert(ids_in_area(ns, area)[q2] == ids_in_area(rest_ns, area)[q2 - 1]);
                    assert(node_id_in_area(rest_ns, area, ids_in_area(rest_ns, area)[q2 - 1]));
                    let i2 = choose|i: int|
                        0 <= i < rest_ns.len() && (#[trigger] rest_ns[i]).id == ids_in_area(
                            rest_ns,
                            area,
                        )[q2 - 1] && rest_ns[i].area_id == area;
                    assert(ns[i2 + 1] == rest_ns[i2]);
                    assert(ns[0].id < ns[i2 + 1].id);
                } else {
                    assert(ids_in_area(ns, area)[q1] == ids_in_area(rest_ns, area)[q1 - 1]
                        && ids_in_area(ns, area)[q2] == ids_in_area(rest_ns, area)[q2 - 1]);
                }
            } else {
                assert(ids_in_area(ns, area)[q1] == ids_in_area(rest_ns, area)[q1]
                    && ids_in_area(ns, area)[q2] == ids_in_area(rest_ns, area)[q2]);
            }
        }
    } else {
        assert(ids_in_area(ns, area) =~= Seq::<i32>::empty());
    }
}

/// If `id` sits in `area`, then `id` stands in that area's identifier list.
pub proof fn lemma_area_of_in_ids(ns: Seq<Node>, area: i32, id: i32)
    requires
        area_of(ns, id) == Some(area),
    ensures
        ids_in_area(ns, area).contains(id),
    decreases ns.len(),
{
    if ns.len() > 0 {
        let rest = ids_in_area(ns.drop_first(), area);
        if ns[0].id == id {
            assert(ids_in_area(ns, area)[0] == id);
        } else {
            lemma_area_of_in_ids(ns.drop_first(), area, id);
            let q = choose|q: int| 0 <= q < rest.len() && rest[q] == id;
            if ns[0].area_id == area {
                assert(ids_in_area(ns, area)[q + 1] == id);
            } else {
                assert(ids_in_area(ns, area)[q] == id);
            }
        }
    }
}

/// The filtered edge list of an area is made of store edges on that area,
/// keeps pairwise-distinct pairs, and its endpoints stand in the area's
/// identifier list.
pub proof fn lemma_edges_in_area_wf(ns: Seq<Node>, es: Seq<Edge>, area: i32)
    requires
        store_input_ok(ns, es),
    ensures
        edges_distinct_pairs(edges_in_area(ns, es, area)),
        forall|q: int|
            0 <= q < edges_in_area(ns, es, area).len() ==> contains_edge(
                es,
                #[trigger] edges_in_area(ns, es, area)[q],
            ),
        forall|q: int|
            0 <= q < edges_in_area(ns, es, area).len() ==> ids_in_area(ns, area).contains(
                (#[trigger] edges_in_area(ns, es, area)[q]).node_a_id,
            ) && ids_in_area(ns, area).contains(edges_in_area(ns, es, area)[q].node_b_id),
    decreases es.len(),
{
    let out = edges_in_area(ns, es, area);
    if es.len() > 0 {
        let es0 = es.drop_last();
        assert(store_input_ok(ns, es0)) by {
            assert(forall|k: int| 0 <= k < es0.len() ==> es0[k] == es[k]);
            assert forall|i: int, j: int| 0 <= i < j < es0.len() implies !edge_connects(
                #[trigger] es0[j],
                (#[trigger] es0[i]).node_a_id,
                es0[i].node_b_id,
            ) by {
                assert(es0[i] == es[i] && es0[j] == es[j]);
            }
        }
        lemma_edges_in_area_wf(ns, es0, area);
        let prefix = edges_in_area(ns, es0, area);
        assert forall|q: int| 0 <= q < out.len() implies contains_edge(
            es,
            #[trigger] edges_in_area(ns, es, area)[q],
        ) by {
            if q < prefix.len() {
                assert(edges_in_area(ns, es, area)[q] == edges_in_area(ns, es0, area)[q]);
                assert(contains_edge(es0, edges_in_area(ns, es0, area)[q]));
                let k0 = choose|k: int|
                    0 <= k < es0.len() && es0[k] == edges_in_area(ns, es0, area)[q];
                assert(es[k0] == edges_in_area(ns, es, area)[q]);
            } else {
                assert(edges_in_area(ns, es, area)[q] == es[es.len() - 1]);
            }
        }
        assert forall|i: int, j: int| 0 <= i < j < out.len() implies !edge_connects(
            #[trigger] out[j],
            (#[trigger] out[i]).node_a_id,
            out[i].node_b_id,
        ) by {
            if j == out.len() - 1 && area_of(ns, es.last().node_a_id) == Some(area) {
                assert(out[i] == edges_in_area(ns, es0, area)[i]);
                assert(contains_edge(es0, edges_in_area(ns, es0, area)[i]));
                let ki = choose|k: int|
                    0 <= k < es0.len() && es0[k] == edges_in_area(ns, es0, area)[i];
                assert(out[i] == es[ki] && out[j] == es[es.len() - 1]);
                assert(!edge_connects(es[es.len() - 1], es[ki].node_a_id, es[ki].node_b_id));
            } else {
                assert(out[i] == prefix[i] && out[j] == prefix[j]);
            }
        }
        assert forall|q: int| 0 <= q < out.len() implies ids_in_area(ns, area).contains(
            (#[trigger] edges_in_area(ns, es, area)[q]).node_a_id,
        ) && ids_in_area(ns, area).contains(edges_in_area(ns, es, area)[q].node_b_id) by {
            if q == out.len() - 1 && area_of(ns, es.last().node_a_id) == Some(area) {
                let e = es[es.len() - 1];
                assert(edges_in_area(ns, es, area)[q] == e);
                assert(area_of(ns, e.node_a_id) == Some(area));
                assert(area_of(ns, e.node_b_id) == Some(area));
                lemma_area_of_in_ids(ns, area, e.node_a_id);
                lemma_area_of_in_ids(ns, area, e.node_b_id);
            } else {
                assert(edges_in_area(ns, es, area)[q] == edges_in_area(ns, es0, area)[q]);
            }
        }
    } else {
        assert(out =~= Seq::<Edge>::empty());
    }
}

/// Re-weighting an existing pair keeps the store well-formed.
pub proof fn lemma_update_weight_preserves_ok(ns: Seq<Node>, es: Seq<Edge>, a: i32, b: i32, w: u32)
    requires
        store_input_ok(ns, es),
    ensures
        store_input_ok(ns, update_pair_weight(es, a, b, w)),
{
    let es2 = update_pair_weight(es, a, b, w);
    assert(es2.len() == es.len());
    assert forall|k: int| 0 <= k < es2.len() implies (#[trigger] es2[k]).node_a_id
        < es2[k].node_b_id by {
        assert(es2[k].node_a_id == es[k].node_a_id && es2[k].node_b_id == es[k].node_b_id);
    }
    assert forall|k: int|
        0 <= k < es2.len() implies area_of(ns, (#[trigger] es2[k]).node_a_id) is Some && area_of(
        ns,
        es2[k].node_b_id,
    ) == area_of(ns, es2[k].node_a_id) by {
        assert(es2[k].node_a_id == es[k].node_a_id && es2[k].node_b_id == es[k].node_b_id);
    }
    assert forall|i: int, j: int| 0 <= i < j < es2.len() implies !edge_connects(
        #[trigger] es2[j],
        (#[trigger] es2[i]).node_a_id,
        es2[i].node_b_id,
    ) by {
        assert(es2[i].node_a_id == es[i].node_a_id && es2[i].node_b_id == es[i].node_b_id);
        assert(es2[j].node_a_id == es[j].node_a_id && es2[j].node_b_id == es[j].node_b_id);
        assert(!edge_connects(es[j], es[i].node_a_id, es[i].node_b_id));
    }
}

/// A weight update is visible exactly to the snapshots taken after it:
/// the area snapshot of the updated store is the pre-update snapshot with
/// the one pair re-weighted and nothing else changed — while a snapshot
/// taken before the update is an owned value that no store mutation can
/// reach, so it never reflects the update.
pub proof fn lemma_update_visible_to_later_snapshots(
    ns: Seq<Node>,
    es: Seq<Edge>,
    area: i32,
    a: i32,
    b: i32,
    w: u32,
)
    ensures
        edges_in_area(ns, update_pair_weight(es, a, b, w), area) == update_pair_weight(
            edges_in_area(ns, es, area),
            a,
            b,
            w,
        ),
    decreases es.len(),
{
    let es2 = update_pair_weight(es, a, b, w);
    if es.len() == 0 {
        assert(es2 =~= Seq::<Edge>::empty());
        assert(edges_in_area(ns, es, area) =~= Seq::<Edge>::empty());
        assert(update_pair_weight(edges_in_area(ns, es, area), a, b, w) =~= Seq::<Edge>::empty());
        assert(edges_in_area(ns, es2, area) =~= Seq::<Edge>::empty());
    } else {
        lemma_update_visible_to_later_snapshots(ns, es.drop_last(), area, a, b, w);
        assert(es2.drop_last() =~= update_pair_weight(es.drop_last(), a, b, w));
        assert(es2.last() == (if edge_connects(es.last(), a, b) {
            Edge { node_a_id: es.last().node_a_id, node_b_id: es.last().node_b_id, weight: w }
        } else {
            es.last()
        }));
        assert(es2.last().node_a_id == es.last().node_a_id);
        if area_of(ns, es.last().node_a_id) == Some(area) {
            assert(edges_in_area(ns, es2, area) == edges_in_area(ns, es2.drop_last(), area).push(
                es2.last(),
            ));
            assert(edges_in_area(ns, es, area) == edges_in_area(ns, es.drop_last(), area).push(
                es.last(),
            ));
            assert(update_pair_weight(edges_in_area(ns, es, area), a, b, w)
                =~= update_pair_weight(edges_in_area(ns, es.drop_last(), area), a, b, w).push(
                es2.last(),
            ));
        } else {
            assert(edges_in_area(ns, es2, area) == edges_in_area(ns, es2.drop_last(), area));
            assert(edges_in_area(ns, es, area) == edges_in_area(ns, es.drop_last(), area));
        }
    }
}

/// Areas are independent: a weight update on a pair of another area's
/// nodes leaves this area's snapshot untouched, so per-area work needs no
/// cross-area coordination.
pub proof fn lemma_update_foreign_area_invisible(
    ns: Seq<Node>,
    es: Seq<Edge>,
    area: i32,
    a: i32,
    b: i32,
    w: u32,
)
    requires
        area_of(ns, a) != Some(area),
        area_of(ns, b) != Some(area),
    ensures
        edges_in_area(ns, update_pair_weight(es, a, b, w), area) == edges_in_area(ns, es, area),
    decreases es.len(),
{
    let es2 = update_pair_weight(es, a, b, w);
    if es.len() == 0 {
        assert(es2 =~= Seq::<Edge>::empty());
    } else {
        lemma_update_foreign_area_invisible(ns, es.drop_last(), area, a, b, w);
        assert(es2.drop_last() =~= update_pair_weight(es.drop_last(), a, b, w));
        let e = es.last();
        let e2 = es2.last();
        assert(e2 == (if edge_connects(e, a, b) {
            Edge { node_a_id: e.node_a_id, node_b_id: e.node_b_id, weight: w }
        } else {
            e
        }));
        if area_of(ns, e.node_a_id) == Some(area) {
            // an edge of this area cannot connect the foreign pair
            assert(!edge_connects(e, a, b));
            assert(e2 == e);
        }
    }
}

/// Updating a pair in either orientation is one and the same operation.
pub proof fn lemma_update_weight_symmetric(es: Seq<Edge>, a: i32, b: i32, w: u32)
    ensures
        update_pair_weight(es, a, b, w) == update_pair_weight(es, b, a, w),
        has_pair(es, a, b) == has_pair(es, b, a),
{
    assert(update_pair_weight(es, a, b, w) =~= update_pair_weight(es, b, a, w));
    if has_pair(es, a, b) {
        let k = choose|k: int| 0 <= k < es.len() && edge_connects(#[trigger] es[k], a, b);
        assert(edge_connects(es[k], b, a));
    }
    if has_pair(es, b, a) {
        let k = choose|k: int| 0 <= k < es.len() && edge_connects(#[trigger] es[k], b, a);
        assert(edge_connects(es[k], a, b));
    }
}

/// Re-weighting the same pair to the same weight twice leaves exactly the
/// state one update produces.
pub proof fn lemma_update_weight_idempotent(es: Seq<Edge>, a: i32, b: i32, w: u32)
    ensures
        update_pair_weight(update_pair_weight(es, a, b, w), a, b, w) == update_pair_weight(
            es,
            a,
            b,
            w,
        ),
{
    assert(update_pair_weight(update_pair_weight(es, a, b, w), a, b, w) =~= update_pair_weight(
        es,
        a,
        b,
        w,
    ));
}

} // verus!
