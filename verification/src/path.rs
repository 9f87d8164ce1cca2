use vstd::prelude::*;

use crate::errors::DispatchError;
use crate::graph::{
    Edge, GraphSnapshot, edge_connects, pair_weight, ids_sorted, lemma_pair_weight_of_edge,
    lemma_pair_weight_some_iff, lemma_sorted_index_unique, find_id,
};

verus! {

/// `p` is a walk through the edges of `es`: at least one node, and every
/// consecutive pair of nodes connected by an edge.
pub open spec fn is_path(es: Seq<Edge>, p: Seq<i32>) -> bool
    decreases p.len(),
{
    p.len() >= 1 && (p.len() == 1 || (pair_weight(es, p[0], p[1]) is Some && is_path(
        es,
        p.drop_first(),
    )))
}

/// The total travel cost of the walk `p`: the sum of the weights of its steps.
pub open spec fn path_cost(es: Seq<Edge>, p: Seq<i32>) -> nat
    decreases p.len(),
{
    if p.len() <= 1 {
        0
    } else {
        (match pair_weight(es, p[0], p[1]) {
            Some(w) => w as nat,
            None => 0,
        }) + path_cost(es, p.drop_first())
    }
}

/// Some walk of total cost `c` leads from `s` to `t`.
pub open spec fn connects_with_cost(es: Seq<Edge>, s: i32, t: i32, c: nat) -> bool {
    exists|p: Seq<i32>|
        #[trigger] is_path(es, p) && p.first() == s && p.last() == t && path_cost(es, p) == c
}

/// Some walk leads from `s` to `t`.
pub open spec fn reachable(es: Seq<Edge>, s: i32, t: i32) -> bool {
    exists|c: nat| connects_with_cost(es, s, t, c)
}

/// `d` is the cost of a shortest walk from `s` to `t`: it is achieved by
/// some walk, and no walk costs less.
pub open spec fn is_shortest_dist(es: Seq<Edge>, s: i32, t: i32, d: nat) -> bool {
    &&& connects_with_cost(es, s, t, d)
    &&& forall|p: Seq<i32>|
        #[trigger] is_path(es, p) && p.first() == s && p.last() == t ==> path_cost(es, p) >= d
}

/// Shortest distances are unique: the predicate `is_shortest_dist` holds of
/// at most one value for a given pair of endpoints.
pub proof fn lemma_shortest_unique(es: Seq<Edge>, s: i32, t: i32, d1: nat, d2: nat)
    requires
        is_shortest_dist(es, s, t, d1),
        is_shortest_dist(es, s, t, d2),
    ensures
        d1 == d2,
{
    let p1 = choose|p: Seq<i32>|
        #[trigger] is_path(es, p) && p.first() == s && p.last() == t && path_cost(es, p) == d1;
    let p2 = choose|p: Seq<i32>|
        #[trigger] is_path(es, p) && p.first() == s && p.last() == t && path_cost(es, p) == d2;
    assert(path_cost(es, p1) >= d2);
    assert(path_cost(es, p2) >= d1);
}

/// The one-node walk is a walk of cost zero.
pub proof fn lemma_trivial_path(es: Seq<Edge>, s: i32)
    ensures
        is_path(es, seq![s]),
        path_cost(es, seq![s]) == 0,
        connects_with_cost(es, s, s, 0),
{
    let p = seq![s];
    assert(p.len() == 1);
    assert(is_path(es, p));
    assert(p.first() == s && p.last() == s && path_cost(es, p) == 0);
}

/// Appending a connected node to a walk yields a walk whose cost grows by
/// that step's weight.
pub proof fn lemma_path_push(es: Seq<Edge>, p: Seq<i32>, v: i32)
    requires
        is_path(es, p),
        pair_weight(es, p.last(), v) is Some,
    ensures
        is_path(es, p.push(v)),
        path_cost(es, p.push(v)) == path_cost(es, p) + pair_weight(es, p.last(), v)->Some_0,
    decreases p.len(),
{
    let q = p.push(v);
    if p.len() == 1 {
        assert(q.drop_first() =~= seq![v]);
        assert(is_path(es, q.drop_first()));
        assert(q[0] == p[0] && q[1] == v);
        assert(pair_weight(es, q[0], q[1]) == pair_weight(es, p.last(), v));
        assert(path_cost(es, q.drop_first()) == 0);
        assert(path_cost(es, q) == pair_weight(es, p.last(), v)->Some_0 + 0);
    } else {
        lemma_path_push(es, p.drop_first(), v);
        assert(q.drop_first() =~= p.drop_first().push(v));
        assert(q[0] == p[0] && q[1] == p[1]);
    }
}

/// Extending a reachable node by one edge keeps it reachable, at the
/// extended cost.
pub proof fn lemma_connects_extend(es: Seq<Edge>, s: i32, u: i32, v: i32, c: nat, w: nat)
    requires
        connects_with_cost(es, s, u, c),
        pair_weight(es, u, v) == Some(w as u32),
        w <= u32::MAX,
    ensures
        connects_with_cost(es, s, v, c + w),
{
    let p = choose|p: Seq<i32>|
        #[trigger] is_path(es, p) && p.first() == s && p.last() == u && path_cost(es, p) == c;
    lemma_path_push(es, p, v);
    let q = p.push(v);
    assert(q.first() == s && q.last() == v && path_cost(es, q) == c + w);
}

/// Relaxation stability: every tentative distance entry tolerates every
/// one-edge extension. `ids` lists the node identifiers, `dist` the
/// tentative distance of the node at the same position.
pub open spec fn pair_stable(es: Seq<Edge>, ids: Seq<i32>, dist: Seq<Option<u64>>) -> bool {
    forall|k: int, t: i32|
        0 <= k < ids.len() && (#[trigger] dist[k]) is Some && (#[trigger] pair_weight(
            es,
            ids[k],
            t,
        )) is Some ==> exists|j: int|
            0 <= j < ids.len() && ids[j] == t && (#[trigger] dist[j]) is Some
                && dist[j]->Some_0 <= dist[k]->Some_0 + pair_weight(es, ids[k], t)->Some_0
}

/// In a relaxation-stable distance table, the entry of a walk's start bounds
/// the entry of its end: walking can never beat the table by more than the
/// walk's own cost.
pub proof fn lemma_stable_bounds_path(
    es: Seq<Edge>,
    ids: Seq<i32>,
    dist: Seq<Option<u64>>,
    p: Seq<i32>,
    i: int,
)
    requires
        dist.len() == ids.len(),
        pair_stable(es, ids, dist),
        is_path(es, p),
        0 <= i < ids.len(),
        ids[i] == p.first(),
        dist[i] is Some,
    ensures
        exists|j: int|
            0 <= j < ids.len() && ids[j] == p.last() && (#[trigger] dist[j]) is Some
                && dist[j]->Some_0 <= dist[i]->Some_0 + path_cost(es, p),
    decreases p.len(),
{
    if p.len() == 1 {
        assert(ids[i] == p.last() && dist[i]->Some_0 <= dist[i]->Some_0 + path_cost(es, p));
    } else {
        let w = pair_weight(es, p[0], p[1])->Some_0;
        assert(pair_weight(es, ids[i], p[1]) is Some);
        let j1 = choose|j: int|
            0 <= j < ids.len() && ids[j] == p[1] && (#[trigger] dist[j]) is Some
                && dist[j]->Some_0 <= dist[i]->Some_0 + pair_weight(es, ids[i], p[1])->Some_0;
        let rest = p.drop_first();
        assert(rest.first() == p[1] && rest.last() == p.last());
        lemma_stable_bounds_path(es, ids, dist, rest, j1);
        let j = choose|j: int|
            0 <= j < ids.len() && ids[j] == rest.last() && (#[trigger] dist[j]) is Some
                && dist[j]->Some_0 <= dist[j1]->Some_0 + path_cost(es, rest);
        assert(dist[j]->Some_0 <= dist[i]->Some_0 + path_cost(es, p));
    }
}

/// How many entries of `vs` are set.
pub open spec fn count_true(vs: Seq<bool>) -> nat
    decreases vs.len(),
{
    if vs.len() == 0 {
        0
    } else {
        count_true(vs.drop_last()) + if vs.last() {
            1nat
        } else {
            0nat
        }
    }
}

proof fn lemma_count_true_le_len(vs: Seq<bool>)
    ensures
        count_true(vs) <= vs.len(),
    decreases vs.len(),
{
    if vs.len() > 0 {
        lemma_count_true_le_len(vs.drop_last());
    }
}

proof fn lemma_count_true_lt_len(vs: Seq<bool>, j: int)
    requires
        0 <= j < vs.len(),
        !vs[j],
    ensures
        count_true(vs) < vs.len(),
    decreases vs.len(),
{
    if j == vs.len() - 1 {
        lemma_count_true_le_len(vs.drop_last());
    } else {
        lemma_count_true_lt_len(vs.drop_last(), j);
    }
}

proof fn lemma_count_true_update(vs: Seq<bool>, j: int)
    requires
        0 <= j < vs.len(),
        !vs[j],
    ensures
        count_true(vs.update(j, true)) == count_true(vs) + 1,
    decreases vs.len(),
{
    let vs2 = vs.update(j, true);
    if j == vs.len() - 1 {
        assert(vs2.drop_last() =~= vs.drop_last());
        assert(vs2.last());
    } else {
        assert(vs2.drop_last() =~= vs.drop_last().update(j, true));
        assert(vs2.last() == vs.last());
        lemma_count_true_update(vs.drop_last(), j);
    }
}

/// The invariant of the shortest-path sweep over tentative distances.
///
/// `es`/`ids` describe the snapshot, `s` is the source sitting at position
/// `si`, `dist` holds the tentative distances and `visited` the settled
/// flags. It ties together: achievability of every tentative distance,
/// settled entries being set, the settled frontier sitting below every
/// unsettled tentative distance, a growth bound on all tentative distances,
/// and relaxation stability of every edge at every settled endpoint.
pub open spec fn sweep_inv(
    es: Seq<Edge>,
    ids: Seq<i32>,
    dist: Seq<Option<u64>>,
    visited: Seq<bool>,
    s: i32,
    si: int,
) -> bool {
    &&& dist.len() == ids.len()
    &&& visited.len() == ids.len()
    &&& 0 <= si < ids.len()
    &&& ids[si] == s
    &&& dist[si] == Some(0u64)
    &&& (forall|i: int|
        0 <= i < dist.len() && (#[trigger] dist[i]) is Some ==> connects_with_cost(
            es,
            s,
            ids[i],
            dist[i]->Some_0 as nat,
        ))
    &&& (forall|i: int| 0 <= i < visited.len() && (#[trigger] visited[i]) ==> dist[i] is Some)
    &&& (forall|i: int, j: int|
        0 <= i < visited.len() && 0 <= j < visited.len() && (#[trigger] visited[i])
            && !(#[trigger] visited[j]) && dist[j] is Some ==> dist[i]->Some_0 <= dist[j]->Some_0)
    &&& (forall|i: int|
        0 <= i < dist.len() && (#[trigger] dist[i]) is Some ==> dist[i]->Some_0 <= count_true(
            visited,
        ) * 0xffff_ffffu64)
    &&& (forall|k: int, i: int|
        0 <= k < es.len() && 0 <= i < ids.len() && visited[i] && ((#[trigger] es[k]).node_a_id
            == #[trigger] ids[i] || es[k].node_b_id == ids[i]) ==> edge_relaxed_at(
            es,
            ids,
            dist,
            k,
            i,
        ))
}

/// The endpoint of edge `k` opposite to the node at position `i` carries a
/// tentative distance within the edge's weight of that node's entry.
pub open spec fn edge_relaxed_at(
    es: Seq<Edge>,
    ids: Seq<i32>,
    dist: Seq<Option<u64>>,
    k: int,
    i: int,
) -> bool {
    exists|j: int|
        0 <= j < ids.len() && ids[j] == edge_other(es[k], ids[i]) && (#[trigger] dist[j]) is Some
            && dist[j]->Some_0 <= dist[i]->Some_0 + es[k].weight
}

/// The endpoint of `e` other than `x` (or `x` itself for a self-loop).
pub open spec fn edge_other(e: Edge, x: i32) -> i32 {
    if e.node_a_id == x {
        e.node_b_id
    } else {
        e.node_a_id
    }
}

/// Single-source shortest distances over one immutable snapshot.
///
/// Runs a settled-frontier sweep (Dijkstra's algorithm) from `source`:
/// repeatedly settles the unsettled node of minimum tentative distance —
/// the lowest-positioned, hence lowest-identified, node on a tie — and
/// relaxes its incident edges.
///
/// The result is a table parallel to `snap.node_ids()`: `Some(d)` means `d`
/// is exactly the cost of a shortest walk from `source` to that node, and
/// `None` means the node is unreachable from `source` in this snapshot —
/// never a finite wrong value. Fails only when `source` itself is absent
/// from the snapshot.
pub fn shortest_distances(snap: &GraphSnapshot, source: i32) -> (r: Result<
    Vec<Option<u64>>,
    DispatchError,
>)
    requires
        snap.wf(),
    ensures
        match r {
            Ok(dist) => {
                &&& snap.node_ids().contains(source)
                &&& dist@.len() == snap.node_ids().len()
                &&& forall|i: int|
                    0 <= i < dist@.len() ==> match #[trigger] dist@[i] {
                        Some(d) => is_shortest_dist(
                            snap.edge_list(),
                            source,
                            snap.node_ids()[i],
                            d as nat,
                        ),
                        None => !reachable(snap.edge_list(), source, snap.node_ids()[i]),
                    }
            },
            Err(e) => {
                &&& e == DispatchError::NodeNotInGraph
                &&& !snap.node_ids().contains(source)
            },
        },
{
    let ghost es = snap.edge_list();
    let ghost ids = snap.node_ids();
    let nodes = snap.nodes();
    let edges = snap.edges();
    let n = nodes.len();
    let si = match find_id(nodes, source) {
        Some(i) => i,
        None => {
            return Err(DispatchError::NodeNotInGraph);
        },
    };
    assert(ids.contains(source)) by {
        assert(ids[si as int] == source);
    }
    let mut dist: Vec<Option<u64>> = Vec::new();
    let mut visited: Vec<bool> = Vec::new();
    let mut i: usize = 0;
    while i < n
        invariant
            i <= n,
            dist@.len() == i,
            visited@.len() == i,
            forall|p: int| 0 <= p < i ==> #[trigger] dist@[p] is None,
            forall|p: int| 0 <= p < i ==> !(#[trigger] visited@[p]),
        decreases n - i,
    {
        dist.push(None);
        visited.push(false);
        i = i + 1;
    }
    dist[si] = Some(0u64);
    proof {
        lemma_trivial_path(es, source);
        assert(count_true(visited@) == 0) by {
            lemma_count_all_false(visited@);
        }
        assert(sweep_inv(es, ids, dist@, visited@, source, si as int));
    }
    loop
        invariant
            n == ids.len(),
            n <= 0x1_0000_0000,
            dist@.len() == n,
            visited@.len() == n,
            si < n,
            snap.wf(),
            es == snap.edge_list(),
            ids == snap.node_ids(),
            nodes@ == ids,
            edges@ == es,
            count_true(visited@) <= n,
            sweep_inv(es, ids, dist@, visited@, source, si as int),
        ensures
            dist@.len() == n,
            visited@.len() == n,
            sweep_inv(es, ids, dist@, visited@, source, si as int),
            forall|q: int| 0 <= q < n ==> (#[trigger] visited@[q]) || dist@[q] is None,
        decreases n - count_true(visited@),
    {
        // select the unsettled node with the least tentative distance;
        // the ascending scan makes the lowest identifier win ties
        let mut best: usize = n;
        let mut best_d: u64 = 0;
        let mut j: usize = 0;
        while j < n
            invariant
                j <= n,
                n == ids.len(),
                dist@.len() == n,
                visited@.len() == n,
                best <= n,
                best == n ==> forall|q: int|
                    0 <= q < j ==> (#[trigger] visited@[q]) || dist@[q] is None,
                best < n ==> !visited@[best as int] && dist@[best as int] == Some(best_d),
                best < n ==> forall|q: int|
                    0 <= q < j && !(#[trigger] visited@[q]) && dist@[q] is Some ==> best_d <= dist@[q]->Some_0,
            decreases n - j,
        {
            if !visited[j] {
                match dist[j] {
                    Some(d) => {
                        if best == n || d < best_d {
                            best = j;
                            best_d = d;
                        }
                    },
                    None => {},
                }
            }
            j = j + 1;
        }
        if best == n {
            break ;
        }
        let ui = best;
        let du = best_d;
        let uid = nodes[ui];
        let ghost visited_old = visited@;
        let ghost cnt_old = count_true(visited@);
        visited[ui] = true;
        proof {
            lemma_count_true_update(visited_old, ui as int);
            lemma_count_true_lt_len(visited_old, ui as int);
            // every settled entry sits at or below the fresh minimum
            assert forall|q: int|
                0 <= q < n && (#[trigger] visited@[q]) implies dist@[q] is Some
                    && dist@[q]->Some_0 <= du by {
                if q != ui as int {
                    assert(visited_old[q]);
                }
            }
            lemma_count_true_le_len(visited@);
            assert forall|i0: int, j0: int|
                0 <= i0 < n && 0 <= j0 < n && (#[trigger] visited@[i0]) && !(
                #[trigger] visited@[j0]) && dist@[j0] is Some implies dist@[i0]->Some_0 <= dist@[j0]->Some_0 by {
                assert(!visited_old[j0]);
                assert(best_d <= dist@[j0]->Some_0);
            }
            assert forall|i0: int|
                0 <= i0 < n && (#[trigger] dist@[i0]) is Some implies dist@[i0]->Some_0
                <= count_true(visited@) * 0xffff_ffffu64 by {
                assert(dist@[i0]->Some_0 <= cnt_old * 0xffff_ffffu64);
                assert(cnt_old * 0xffff_ffffu64 <= (cnt_old + 1) * 0xffff_ffffu64);
            }
            assert forall|k: int, i0: int|
                0 <= k < es.len() && 0 <= i0 < n && visited@[i0] && ((#[trigger] es[k]).node_a_id
                    == #[trigger] ids[i0] || es[k].node_b_id == ids[i0])
                    && i0 != ui as int implies edge_relaxed_at(es, ids, dist@, k, i0) by {
                assert(visited_old[i0]);
            }
            assert(du <= (count_true(visited@) - 1) * 0xffff_ffffu64);
        }
        // relax every edge incident to the freshly settled node
        let m = edges.len();
        let mut k: usize = 0;
        while k < m
            invariant
                k <= m,
                n == ids.len(),
                m == es.len(),
                n <= 0x1_0000_0000,
                dist@.len() == n,
                visited@.len() == n,
                ui < n,
                snap.wf(),
                es == snap.edge_list(),
                ids == snap.node_ids(),
                nodes@ == ids,
                edges@ == es,
                ids[ui as int] == uid,
                visited@[ui as int],
                dist@[ui as int] == Some(du),
                count_true(visited@) <= n,
                1 <= count_true(visited@),
                du <= (count_true(visited@) - 1) * 0xffff_ffffu64,
                forall|q: int|
                    0 <= q < n && (#[trigger] visited@[q]) ==> dist@[q] is Some
                        && dist@[q]->Some_0 <= du,
                dist@.len() == ids.len(),
                visited@.len() == ids.len(),
                0 <= si < ids.len(),
                ids[si as int] == source,
                dist@[si as int] == Some(0u64),
                forall|i0: int|
                    0 <= i0 < dist@.len() && (#[trigger] dist@[i0]) is Some ==> connects_with_cost(
                        es,
                        source,
                        ids[i0],
                        dist@[i0]->Some_0 as nat,
                    ),
                forall|i0: int, j0: int|
                    0 <= i0 < n && 0 <= j0 < n && (#[trigger] visited@[i0]) && !(
                    #[trigger] visited@[j0]) && dist@[j0] is Some ==> dist@[i0]->Some_0 <= dist@[j0]->Some_0,
                forall|i0: int|
                    0 <= i0 < dist@.len() && (#[trigger] dist@[i0]) is Some ==> dist@[i0]->Some_0
                        <= count_true(visited@) * 0xffff_ffffu64,
                forall|k0: int, i0: int|
                    0 <= k0 < es.len() && 0 <= i0 < n && visited@[i0] && ((#[trigger] es[k0]).node_a_id
                        == #[trigger] ids[i0] || es[k0].node_b_id == ids[i0]) && (i0 != ui as int
                        || k0 < k) ==> edge_relaxed_at(es, ids, dist@, k0, i0),
            decreases m - k,
        {
            let e = edges[k];
            let incident = e.node_a_id == uid || e.node_b_id == uid;
            if incident {
                let other = if e.node_a_id == uid {
                    e.node_b_id
                } else {
                    e.node_a_id
                };
                proof {
                    assert(edge_other(es[k as int], uid) == other);
                    assert(edge_connects(es[k as int], uid, other));
                }
                match find_id(nodes, other) {
                    Some(oi) => {
                        if !visited[oi] {
                            proof {
                                assert((count_true(visited@) - 1) * 0xffff_ffffu64 <= (
                                0x1_0000_0000 - 1) * 0xffff_ffffu64) by (nonlinear_arith)
                                    requires
                                        1 <= count_true(visited@) <= 0x1_0000_0000,
                                ;
                            }
                            let cand = du + (e.weight as u64);
                            let improve = match dist[oi] {
                                Some(dv) => cand < dv,
                                None => true,
                            };
                            if improve {
                                let ghost dist_old = dist@;
                                dist[oi] = Some(cand);
                                proof {
                                    lemma_pair_weight_of_edge(es, uid, other, k as int);
                                    lemma_connects_extend(
                                        es,
                                        source,
                                        uid,
                                        other,
                                        du as nat,
                                        e.weight as nat,
                                    );
                                    relax_update_facts(
                                        es,
                                        ids,
                                        dist_old,
                                        dist@,
                                        visited@,
                                        oi as int,
                                        cand,
                                        ui as int,
                                        du,
                                        k as int,
                                        si as int,
                                        source,
                                    );
                                }
                            } else {
                                proof {
                                    assert(edge_relaxed_at(es, ids, dist@, k as int, ui as int))
                                        by {
                                        assert(ids[oi as int] == other && dist@[oi as int] is Some
                                            && dist@[oi as int]->Some_0 <= du + es[k as int].weight);
                                    }
                                }
                            }
                        } else {
                            proof {
                                assert(edge_relaxed_at(es, ids, dist@, k as int, ui as int)) by {
                                    assert(ids[oi as int] == other && dist@[oi as int] is Some
                                        && dist@[oi as int]->Some_0 <= du + es[k as int].weight);
                                }
                            }
                        }
                    },
                    None => {
                        proof {
                            // well-formedness puts both endpoints among the nodes
                            assert(ids.contains(es[k as int].node_a_id) && ids.contains(
                                es[k as int].node_b_id,
                            ));
                            assert(false);
                        }
                    },
                }
            } else {
                proof {
                    assert forall|k0: int, i0: int|
                        0 <= k0 < es.len() && 0 <= i0 < n as int && visited@[i0] && ((
                        #[trigger] es[k0]).node_a_id == #[trigger] ids[i0] || es[k0].node_b_id
                            == ids[i0]) && (i0 != ui as int || k0 < k + 1) implies edge_relaxed_at(
                        es,
                        ids,
                        dist@,
                        k0,
                        i0,
                    ) by {
                        if i0 == ui as int && k0 == k as int {
                            assert(es[k0].node_a_id != uid && es[k0].node_b_id != uid);
                            assert(false);
                        }
                    }
                }
            }
            k = k + 1;
        }
        proof {
            assert(sweep_inv(es, ids, dist@, visited@, source, si as int));
        }
    }
    proof {
        // on exit every entered node is settled, so the table is stable
        assert forall|i0: int|
            0 <= i0 < n && (#[trigger] dist@[i0]) is Some implies visited@[i0] by {
            if !visited@[i0] {
                assert(visited@[i0] || dist@[i0] is None);
            }
        }
        assert(pair_stable(es, ids, dist@)) by {
            assert forall|k0: int, t: i32|
                0 <= k0 < ids.len() && (#[trigger] dist@[k0]) is Some && (#[trigger] pair_weight(
                    es,
                    ids[k0],
                    t,
                )) is Some implies exists|j0: int|
                0 <= j0 < ids.len() && ids[j0] == t && (#[trigger] dist@[j0]) is Some
                    && dist@[j0]->Some_0 <= dist@[k0]->Some_0 + pair_weight(es, ids[k0], t)->Some_0 by {
                lemma_pair_weight_some_iff(es, ids[k0], t);
                let ke = choose|ke: int|
                    0 <= ke < es.len() && edge_connects(#[trigger] es[ke], ids[k0], t);
                lemma_pair_weight_of_edge(es, ids[k0], t, ke);
                assert(edge_other(es[ke], ids[k0]) == t);
                assert(edge_relaxed_at(es, ids, dist@, ke, k0));
            }
        }
        assert forall|i0: int| 0 <= i0 < n implies match #[trigger] dist@[i0] {
            Some(d) => is_shortest_dist(es, source, ids[i0], d as nat),
            None => !reachable(es, source, ids[i0]),
        } by {
            lemma_table_entry_exact(es, ids, dist@, source, si as int, i0);
        }
    }
    Ok(dist)
}

proof fn lemma_count_all_false(vs: Seq<bool>)
    requires
        forall|p: int| 0 <= p < vs.len() ==> !(#[trigger] vs[p]),
    ensures
        count_true(vs) == 0,
    decreases vs.len(),
{
    if vs.len() > 0 {
        lemma_count_all_false(vs.drop_last());
    }
}

/// After lowering one unsettled entry to an achievable, frontier-respecting
/// value, the whole sweep invariant still holds for the settled node `ui`
/// up to and including edge `k`.
#[verifier::spinoff_prover]
proof fn relax_update_facts(
    es: Seq<Edge>,
    ids: Seq<i32>,
    dist_old: Seq<Option<u64>>,
    dist: Seq<Option<u64>>,
    visited: Seq<bool>,
    oi: int,
    cand: u64,
    ui: int,
    du: u64,
    k: int,
    si: int,
    s: i32,
)
    requires
        dist_old.len() == ids.len(),
        visited.len() == ids.len(),
        dist == dist_old.update(oi, Some(cand)),
        0 <= oi < ids.len(),
        0 <= ui < ids.len(),
        0 <= k < es.len(),
        0 <= si < ids.len(),
        !visited[oi],
        visited[ui],
        dist_old[ui] == Some(du),
        du <= cand,
        dist_old[oi] is Some ==> cand < dist_old[oi]->Some_0,
        cand <= du + es[k].weight,
        ids[si] == s,
        dist_old[si] == Some(0u64),
        connects_with_cost(es, s, ids[oi], cand as nat),
        edge_connects(es[k], ids[ui], ids[oi]),
        cand <= count_true(visited) * 0xffff_ffffu64,
        forall|q: int|
            0 <= q < visited.len() && (#[trigger] visited[q]) ==> dist_old[q] is Some
                && dist_old[q]->Some_0 <= du,
        forall|i0: int|
            0 <= i0 < dist_old.len() && (#[trigger] dist_old[i0]) is Some ==> connects_with_cost(
                es,
                s,
                ids[i0],
                dist_old[i0]->Some_0 as nat,
            ),
        forall|i0: int, j0: int|
            0 <= i0 < visited.len() && 0 <= j0 < visited.len() && (#[trigger] visited[i0]) && !(
            #[trigger] visited[j0]) && dist_old[j0] is Some ==> dist_old[i0]->Some_0 <= dist_old[j0]->Some_0,
        forall|i0: int|
            0 <= i0 < dist_old.len() && (#[trigger] dist_old[i0]) is Some ==> dist_old[i0]->Some_0
                <= count_true(visited) * 0xffff_ffffu64,
        forall|k0: int, i0: int|
            0 <= k0 < es.len() && 0 <= i0 < ids.len() && visited[i0] && ((#[trigger] es[k0]).node_a_id
                == #[trigger] ids[i0] || es[k0].node_b_id == ids[i0]) && (i0 != ui || k0 < k)
                ==> edge_relaxed_at(es, ids, dist_old, k0, i0),
    ensures
        dist.len() == ids.len(),
        dist[si] == Some(0u64),
        dist[ui] == Some(du),
        forall|q: int|
            0 <= q < visited.len() && (#[trigger] visited[q]) ==> dist[q] is Some
                && dist[q]->Some_0 <= du,
        forall|i0: int|
            0 <= i0 < dist.len() && (#[trigger] dist[i0]) is Some ==> connects_with_cost(
                es,
                s,
                ids[i0],
                dist[i0]->Some_0 as nat,
            ),
        forall|i0: int, j0: int|
            0 <= i0 < visited.len() && 0 <= j0 < visited.len() && (#[trigger] visited[i0]) && !(
            #[trigger] visited[j0]) && dist[j0] is Some ==> dist[i0]->Some_0 <= dist[j0]->Some_0,
        forall|i0: int|
            0 <= i0 < dist.len() && (#[trigger] dist[i0]) is Some ==> dist[i0]->Some_0
                <= count_true(visited) * 0xffff_ffffu64,
        forall|k0: int, i0: int|
            0 <= k0 < es.len() && 0 <= i0 < ids.len() && visited[i0] && ((#[trigger] es[k0]).node_a_id
                == #[trigger] ids[i0] || es[k0].node_b_id == ids[i0]) && (i0 != ui || k0 < k + 1)
                ==> edge_relaxed_at(es, ids, dist, k0, i0),
{
    assert(si != oi);
    assert(ui != oi);
    assert forall|k0: int, i0: int|
        0 <= k0 < es.len() && 0 <= i0 < ids.len() && visited[i0] && ((#[trigger] es[k0]).node_a_id
            == #[trigger] ids[i0] || es[k0].node_b_id == ids[i0]) && (i0 != ui || k0 < k + 1)
            implies edge_relaxed_at(es, ids, dist, k0, i0) by {
        if i0 == ui && k0 == k {
            assert(ids[oi] == edge_other(es[k], ids[ui]) || ids[ui] == ids[oi]) by {
                assert(edge_connects(es[k], ids[ui], ids[oi]));
            }
            if ids[oi] == edge_other(es[k], ids[ui]) {
                assert(dist[oi] is Some && dist[oi]->Some_0 <= dist[ui]->Some_0 + es[k].weight);
            } else {
                assert(dist[ui] is Some && dist[ui]->Some_0 <= dist[ui]->Some_0 + es[k].weight);
                assert(edge_other(es[k], ids[ui]) == ids[ui]);
            }
        } else {
            let j0 = choose|j0: int|
                0 <= j0 < ids.len() && ids[j0] == edge_other(es[k0], ids[i0]) && (
                #[trigger] dist_old[j0]) is Some && dist_old[j0]->Some_0 <= dist_old[i0]->Some_0
                    + es[k0].weight;
            if j0 == oi {
                assert(dist[j0] is Some && dist[j0]->Some_0 <= dist[i0]->Some_0 + es[k0].weight);
            } else {
                assert(dist[j0] == dist_old[j0]);
            }
        }
    }
}

/// The final table of the sweep is exact: a `Some` entry is the shortest
/// walk cost, a `None` entry marks unreachability.
proof fn lemma_table_entry_exact(
    es: Seq<Edge>,
    ids: Seq<i32>,
    dist: Seq<Option<u64>>,
    s: i32,
    si: int,
    i0: int,
)
    requires
        ids_sorted(ids),
        dist.len() == ids.len(),
        pair_stable(es, ids, dist),
        0 <= si < ids.len(),
        ids[si] == s,
        dist[si] == Some(0u64),
        0 <= i0 < ids.len(),
        dist[i0] is Some ==> connects_with_cost(es, s, ids[i0], dist[i0]->Some_0 as nat),
    ensures
        match dist[i0] {
            Some(d) => is_shortest_dist(es, s, ids[i0], d as nat),
            None => !reachable(es, s, ids[i0]),
        },
{
    match dist[i0] {
        Some(d) => {
            assert forall|p: Seq<i32>|
                #[trigger] is_path(es, p) && p.first() == s && p.last() == ids[i0] implies path_cost(
                es,
                p,
            ) >= d as nat by {
                lemma_stable_bounds_path(es, ids, dist, p, si);
                let j = choose|j: int|
                    0 <= j < ids.len() && ids[j] == p.last() && (#[trigger] dist[j]) is Some
                        && dist[j]->Some_0 <= dist[si]->Some_0 + path_cost(es, p);
                lemma_sorted_index_unique(ids, j, i0);
            }
        },
        None => {
            if reachable(es, s, ids[i0]) {
                let c = choose|c: nat| connects_with_cost(es, s, ids[i0], c);
                let p = choose|p: Seq<i32>|
                    #[trigger] is_path(es, p) && p.first() == s && p.last() == ids[i0]
                        && path_cost(es, p) == c;
                lemma_stable_bounds_path(es, ids, dist, p, si);
                let j = choose|j: int|
                    0 <= j < ids.len() && ids[j] == p.last() && (#[trigger] dist[j]) is Some
                        && dist[j]->Some_0 <= dist[si]->Some_0 + path_cost(es, p);
                lemma_sorted_index_unique(ids, j, i0);
            }
        },
    }
}

} // verus!
