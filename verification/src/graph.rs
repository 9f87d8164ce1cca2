use vstd::prelude::*;

use crate::errors::DispatchError;

verus! {

/// A point in the location graph. A node belongs to exactly one service
/// area; shortest-path queries never cross area boundaries.
#[derive(Clone, Copy, Debug, PartialEq, Eq, Structural)]
pub struct Node {
    pub id: i32,
    pub area_id: i32,
}

/// An undirected, weighted connection between two nodes of the same area.
/// The weight is the non-negative travel cost of traversing the edge.
#[derive(Clone, Copy, Debug, PartialEq, Eq, Structural)]
pub struct Edge {
    pub node_a_id: i32,
    pub node_b_id: i32,
    pub weight: u32,
}

/// The edge `e` connects the unordered pair `{a, b}`: the pair is symmetric,
/// `(a, b)` and `(b, a)` denote the same connection.
pub open spec fn edge_connects(e: Edge, a: i32, b: i32) -> bool {
    (e.node_a_id == a && e.node_b_id == b) || (e.node_a_id == b && e.node_b_id == a)
}

/// A strictly increasing sequence of node identifiers (hence duplicate-free).
pub open spec fn ids_sorted(ids: Seq<i32>) -> bool {
    forall|i: int, j: int| 0 <= i < j < ids.len() ==> ids[i] < ids[j]
}

/// No two edges of the sequence connect the same unordered pair of nodes.
pub open spec fn edges_distinct_pairs(es: Seq<Edge>) -> bool {
    forall|i: int, j: int|
        0 <= i < j < es.len() ==> !edge_connects(
            #[trigger] es[j],
            (#[trigger] es[i]).node_a_id,
            es[i].node_b_id,
        )
}

/// The weight of the first edge connecting the unordered pair `{a, b}`,
/// or `None` when no edge connects the pair.
pub open spec fn pair_weight(es: Seq<Edge>, a: i32, b: i32) -> Option<u32>
    decreases es.len(),
{
    if es.len() == 0 {
        None
    } else if edge_connects(es[0], a, b) {
        Some(es[0].weight)
    } else {
        pair_weight(es.drop_first(), a, b)
    }
}

/// Some edge of `es` connects the unordered pair `{a, b}`.
pub open spec fn has_pair(es: Seq<Edge>, a: i32, b: i32) -> bool {
    exists|k: int| 0 <= k < es.len() && edge_connects(#[trigger] es[k], a, b)
}

/// `pair_weight` looks the pair up in either orientation.
pub proof fn lemma_pair_weight_symmetric(es: Seq<Edge>, a: i32, b: i32)
    ensures
        pair_weight(es, a, b) == pair_weight(es, b, a),
    decreases es.len(),
{
    if es.len() > 0 && !edge_connects(es[0], a, b) {
        lemma_pair_weight_symmetric(es.drop_first(), a, b);
    }
}

/// `pair_weight` returns `Some` exactly when some edge connects the pair.
pub proof fn lemma_pair_weight_some_iff(es: Seq<Edge>, a: i32, b: i32)
    ensures
        pair_weight(es, a, b) is Some <==> has_pair(es, a, b),
    decreases es.len(),
{
    if es.len() > 0 && !edge_connects(es[0], a, b) {
        lemma_pair_weight_some_iff(es.drop_first(), a, b);
        if has_pair(es.drop_first(), a, b) {
            let k = choose|k: int|
                0 <= k < es.drop_first().len() && edge_connects(#[trigger] es.drop_first()[k], a, b);
            assert(edge_connects(es[k + 1], a, b));
        }
        if has_pair(es, a, b) {
            let k = choose|k: int| 0 <= k < es.len() && edge_connects(#[trigger] es[k], a, b);
            assert(edge_connects(es.drop_first()[k - 1], a, b));
        }
    }
}

/// When the pairs of `es` are pairwise distinct, any edge that connects
/// `{a, b}` carries exactly the weight `pair_weight` reports.
pub proof fn lemma_pair_weight_of_edge(es: Seq<Edge>, a: i32, b: i32, k: int)
    requires
        edges_distinct_pairs(es),
        0 <= k < es.len(),
        edge_connects(es[k], a, b),
    ensures
        pair_weight(es, a, b) == Some(es[k].weight),
    decreases es.len(),
{
    if k == 0 {
    } else if edge_connects(es[0], a, b) {
        assert(edge_connects(es[k], es[0].node_a_id, es[0].node_b_id));
    } else {
        assert(edges_distinct_pairs(es.drop_first())) by {
            assert forall|i: int, j: int| 0 <= i < j < es.drop_first().len() implies !edge_connects(
                #[trigger] es.drop_first()[j],
                (#[trigger] es.drop_first()[i]).node_a_id,
                es.drop_first()[i].node_b_id,
            ) by {
                assert(es.drop_first()[j] == es[j + 1]);
                assert(es.drop_first()[i] == es[i + 1]);
            }
        }
        assert(es.drop_first()[k - 1] == es[k]);
        lemma_pair_weight_of_edge(es.drop_first(), a, b, k - 1);
    }
}

/// Well-formedness of one area's graph data: node identifiers strictly
/// ascending (unique), every edge endpoint present among the nodes, no two
/// edges on the same unordered pair, and a node-count bound under which all
/// distance arithmetic fits in 64-bit machine integers.
pub open spec fn graph_input_ok(ids: Seq<i32>, es: Seq<Edge>) -> bool {
    &&& ids_sorted(ids)
    &&& ids.len() <= 0x1_0000_0000
    &&& (forall|k: int|
        0 <= k < es.len() ==> ids.contains((#[trigger] es[k]).node_a_id) && ids.contains(
            es[k].node_b_id,
        ))
    &&& edges_distinct_pairs(es)
}

/// An immutable, point-in-time copy of one area's nodes and edges.
///
/// A snapshot is produced once and never mutated: the type offers no
/// mutating operation, so a shortest-path computation that owns or borrows
/// a snapshot can never observe a later store update through it.
#[derive(Debug)]
pub struct GraphSnapshot {
    nodes: Vec<i32>,
    edges: Vec<Edge>,
}

impl GraphSnapshot {
    /// The node identifiers of the snapshot, in ascending order.
    pub closed spec fn node_ids(self) -> Seq<i32> {
        self.nodes@
    }

    /// The edges of the snapshot.
    pub closed spec fn edge_list(self) -> Seq<Edge> {
        self.edges@
    }

    /// Well-formedness of a snapshot: see [`graph_input_ok`].
    pub open spec fn wf(self) -> bool {
        graph_input_ok(self.node_ids(), self.edge_list())
    }

    /// The node identifiers, for iteration by callers.
    pub fn nodes(&self) -> (r: &Vec<i32>)
        ensures
            r@ == self.node_ids(),
    {
        &self.nodes
    }

    /// The edges, for iteration by callers.
    pub fn edges(&self) -> (r: &Vec<Edge>)
        ensures
            r@ == self.edge_list(),
    {
        &self.edges
    }

    /// Assembles a snapshot from parts already proven well-formed; the
    /// graph store's snapshot operation discharges the conditions before
    /// calling this.
    pub(crate) fn from_parts(nodes: Vec<i32>, edges: Vec<Edge>) -> (r: GraphSnapshot)
        requires
            graph_input_ok(nodes@, edges@),
        ensures
            r.node_ids() == nodes@,
            r.edge_list() == edges@,
            r.wf(),
    {
        GraphSnapshot { nodes, edges }
    }

    /// Builds a snapshot directly from plain values, validating every
    /// well-formedness condition; the graph store's snapshot operation is the
    /// usual producer, this constructor serves callers that assemble a
    /// one-area graph themselves.
    pub fn new(nodes: Vec<i32>, edges: Vec<Edge>) -> (r: Result<GraphSnapshot, DispatchError>)
        ensures
            match r {
                Ok(s) => {
                    &&& s.node_ids() == nodes@
                    &&& s.edge_list() == edges@
                    &&& s.wf()
                },
                Err(e) => {
                    &&& e == DispatchError::InvalidInput
                    &&& !graph_input_ok(nodes@, edges@)
                },
            },
    {
        if nodes.len() as u64 > 0x1_0000_0000u64 {
            return Err(DispatchError::InvalidInput);
        }
        let mut i: usize = 1;
        while i < nodes.len()
            invariant
                1 <= i,
                forall|p: int| 0 <= p < i - 1 ==> #[trigger] nodes@[p] < nodes@[p + 1],
            decreases nodes.len() - i,
        {
            if nodes[i - 1] >= nodes[i] {
                return Err(DispatchError::InvalidInput);
            }
            i = i + 1;
        }
        proof {
            lemma_adjacent_implies_sorted(nodes@);
        }
        let mut k: usize = 0;
        while k < edges.len()
            invariant
                k <= edges.len(),
                forall|p: int|
                    0 <= p < k ==> nodes@.contains((#[trigger] edges@[p]).node_a_id)
                        && nodes@.contains(edges@[p].node_b_id),
                forall|p: int, q: int|
                    0 <= p < q < k ==> !edge_connects(
                        #[trigger] edges@[q],
                        (#[trigger] edges@[p]).node_a_id,
                        edges@[p].node_b_id,
                    ),
            decreases edges.len() - k,
        {
            let e = edges[k];
            if !contains_id(&nodes, e.node_a_id) || !contains_id(&nodes, e.node_b_id) {
                return Err(DispatchError::InvalidInput);
            }
            let mut p: usize = 0;
            while p < k
                invariant
                    p <= k,
                    k < edges.len(),
                    e == edges@[k as int],
                    forall|q: int|
                        0 <= q < p ==> !edge_connects(
                            edges@[k as int],
                            (#[trigger] edges@[q]).node_a_id,
                            edges@[q].node_b_id,
                        ),
                decreases k - p,
            {
                let prior = edges[p];
                if (prior.node_a_id == e.node_a_id && prior.node_b_id == e.node_b_id) || (
                prior.node_a_id == e.node_b_id && prior.node_b_id == e.node_a_id) {
                    return Err(DispatchError::InvalidInput);
                }
                p = p + 1;
            }
            k = k + 1;
        }
        Ok(GraphSnapshot { nodes, edges })
    }
}

/// From pairwise-adjacent ordering to full strict ordering.
pub proof fn lemma_adjacent_implies_sorted(ids: Seq<i32>)
    requires
        forall|p: int| 0 <= p < ids.len() - 1 ==> #[trigger] ids[p] < ids[p + 1],
    ensures
        ids_sorted(ids),
{
    assert forall|i: int, j: int| 0 <= i < j < ids.len() implies ids[i] < ids[j] by {
        lemma_adjacent_step(ids, i, j);
    }
}

proof fn lemma_adjacent_step(ids: Seq<i32>, i: int, j: int)
    requires
        forall|p: int| 0 <= p < ids.len() - 1 ==> #[trigger] ids[p] < ids[p + 1],
        0 <= i < j < ids.len(),
    ensures
        ids[i] < ids[j],
    decreases j - i,
{
    if j > i + 1 {
        lemma_adjacent_step(ids, i, j - 1);
    }
}

/// Linear membership scan over a list of node identifiers.
pub fn contains_id(ids: &Vec<i32>, id: i32) -> (r: bool)
    ensures
        r == ids@.contains(id),
{
    let mut i: usize = 0;
    while i < ids.len()
        invariant
            i <= ids.len(),
            forall|p: int| 0 <= p < i ==> ids@[p] != id,
        decreases ids.len() - i,
    {
        if ids[i] == id {
            return true;
        }
        i = i + 1;
    }
    false
}

/// Position of `id` in a list of node identifiers, when present.
pub fn find_id(ids: &Vec<i32>, id: i32) -> (r: Option<usize>)
    ensures
        match r {
            Some(i) => i < ids@.len() && ids@[i as int] == id,
            None => !ids@.contains(id),
        },
{
    let mut i: usize = 0;
    while i < ids.len()
        invariant
            i <= ids.len(),
            forall|p: int| 0 <= p < i ==> ids@[p] != id,
        decreases ids.len() - i,
    {
        if ids[i] == id {
            return Some(i);
        }
        i = i + 1;
    }
    None
}

/// In a strictly sorted identifier list, positions of equal values coincide.
pub proof fn lemma_sorted_index_unique(ids: Seq<i32>, i: int, j: int)
    requires
        ids_sorted(ids),
        0 <= i < ids.len(),
        0 <= j < ids.len(),
        ids[i] == ids[j],
    ensures
        i == j,
{
}

} // verus!
