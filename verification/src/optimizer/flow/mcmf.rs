use crate::optimizer::flow::heap::MinHeap;
use crate::optimizer::flow::maxflow::lemma_saturated_is_maximum;
use crate::optimizer::flow::mincost::{lemma_solutions_agree, potentials_valid, priced};
use crate::optimizer::flow::reduced::{
    all_priced, gentle, lemma_gentle_plain, lemma_gentle_priced, lemma_lit_bound, lemma_lit_set,
    lemma_orderly_range, lemma_reduced_pop, lemma_reduced_relax, lemma_reduced_start,
    lemma_tend_close, lemma_tend_cut, lemma_tend_pass, lemma_tend_relax, lemma_tend_settled,
    lemma_tend_stale, lemma_tend_start, lemma_tend_take, lit, orderly, own, reduced_cost, tended,
};
use crate::optimizer::flow::search::{
    affordable, calm, climbs, docile, lemma_afford, lemma_calm_priced, lemma_distinct_bound,
    lemma_in_range, lemma_lifted_grounded, lemma_relax, lemma_settle, lemma_start,
    lemma_tight_cost, rooted, tame,
};
use crate::optimizer::flow::sums::{
    lemma_same_network_extends, lemma_sink_capacity_same, lemma_sink_room, sink_absorbs,
    sink_capacity,
};
use std::collections::VecDeque;
use vstd::prelude::*;

verus! {

broadcast use vstd::multiset::group_multiset_axioms;

/// Sentinel distance of a node that no residual path reaches.
pub const INF: i64 = 0x1000_0000_0000_0000;

/// One residual arc: its head node, its residual capacity and its unit cost.
#[derive(Clone, Copy, Debug)]
pub struct Edge {
    pub to: usize,
    pub f: i64,
    pub cost: i64,
}

/// Index of the arc stored beside arc `i`: a forward arc sits at an even
/// index, its reverse at the odd index that follows.
pub open spec fn mate(i: int) -> int {
    if i % 2 == 0 {
        i + 1
    } else {
        i - 1
    }
}

/// The arcs form forward/reverse pairs between nodes below `n`, with
/// non-negative residuals, opposite costs and a capacity that fits 64 bits.
pub open spec fn arcs_wf(a: Seq<Edge>, n: int) -> bool {
    &&& a.len() % 2 == 0
    &&& forall|i: int| 0 <= i < a.len() ==> 0 <= (#[trigger] a[i]).to < n && a[i].f >= 0
    &&& forall|i: int|
        0 <= i < a.len() ==> {
            &&& (#[trigger] a[mate(i)]).f + a[i].f <= i64::MAX
            &&& a[mate(i)].cost == -a[i].cost
        }
}

/// Flow carried by pair `k`: what the forward arc has used of its capacity.
pub open spec fn pair_flow(a: Seq<Edge>, k: int) -> int {
    a[2 * k + 1].f as int
}

/// Capacity that pair `k` was added with.
pub open spec fn pair_capacity(a: Seq<Edge>, k: int) -> int {
    a[2 * k].f + a[2 * k + 1].f
}

/// Share of pair `k` in the excess of node `v`: its flow counts when it
/// enters `v` and counts against when it leaves `v`.
pub open spec fn excess_term(a: Seq<Edge>, k: int, v: int) -> int {
    (if a[2 * k].to == v {
        pair_flow(a, k)
    } else {
        0
    }) - (if a[2 * k + 1].to == v {
        pair_flow(a, k)
    } else {
        0
    })
}

/// Excess of node `v` over the first `m` pairs.
pub open spec fn excess_upto(a: Seq<Edge>, v: int, m: int) -> int
    decreases m,
{
    if m <= 0 {
        0
    } else {
        excess_upto(a, v, m - 1) + excess_term(a, m - 1, v)
    }
}

/// Flow entering node `v` minus flow leaving it.
pub open spec fn excess(a: Seq<Edge>, v: int) -> int {
    excess_upto(a, v, a.len() as int / 2)
}

/// Cost of the flow on the first `m` pairs.
pub open spec fn cost_upto(a: Seq<Edge>, m: int) -> int
    decreases m,
{
    if m <= 0 {
        0
    } else {
        cost_upto(a, m - 1) + a[2 * (m - 1)].cost * pair_flow(a, m - 1)
    }
}

/// Sum over all pairs of unit cost times flow.
pub open spec fn total_cost(a: Seq<Edge>) -> int {
    cost_upto(a, a.len() as int / 2)
}

/// Every node other than source (0) and sink (1) passes on what it receives.
pub open spec fn conserving(a: Seq<Edge>, n: int) -> bool {
    forall|v: int| 2 <= v < n ==> #[trigger] excess(a, v) == 0
}

/// Two arc sequences describe the same network: same heads, same costs and
/// same pair capacities. Only the split of each capacity into forward and
/// reverse residual may differ.
pub open spec fn same_network(a: Seq<Edge>, b: Seq<Edge>) -> bool {
    &&& a.len() == b.len()
    &&& forall|i: int|
        0 <= i < a.len() ==> (#[trigger] b[i]).to == a[i].to && b[i].cost == a[i].cost
    &&& forall|i: int|
        0 <= i < a.len() ==> (#[trigger] b[mate(i)]).f + b[i].f == a[mate(i)].f + a[i].f
}

/// A set of nodes that holds the source, not the sink, and that no arc with
/// residual capacity leaves.
pub open spec fn is_cut(a: Seq<Edge>, side: Set<int>) -> bool {
    &&& side.contains(0)
    &&& !side.contains(1)
    &&& forall|i: int|
        0 <= i < a.len() && a[i].f > 0 && side.contains((#[trigger] a[mate(i)]).to as int)
            ==> side.contains(a[i].to as int)
}

/// No path of arcs with residual capacity leads from source to sink, shown
/// by a saturated cut. A flow in this state is a maximum flow.
pub open spec fn saturated(a: Seq<Edge>) -> bool {
    exists|side: Set<int>| is_cut(a, side)
}

/// The arcs after `w` units are sent along arc `id`.
pub open spec fn pushed(a: Seq<Edge>, id: int, w: int) -> Seq<Edge> {
    a.update(id, Edge { to: a[id].to, f: (a[id].f - w) as i64, cost: a[id].cost }).update(
        mate(id),
        Edge { to: a[mate(id)].to, f: (a[mate(id)].f + w) as i64, cost: a[mate(id)].cost },
    )
}

/// Sums over pairs below `m` see no change in arcs at or above `2 * m`.
pub proof fn lemma_sums_frame(a: Seq<Edge>, b: Seq<Edge>, v: int, m: int)
    requires
        0 <= 2 * m <= a.len(),
        0 <= 2 * m <= b.len(),
        forall|i: int| 0 <= i < 2 * m ==> a[i] == b[i],
    ensures
        excess_upto(a, v, m) == excess_upto(b, v, m),
        cost_upto(a, m) == cost_upto(b, m),
    decreases m,
{
    if m > 0 {
        lemma_sums_frame(a, b, v, m - 1);
        assert(a[2 * (m - 1)] == b[2 * (m - 1)]);
        assert(a[2 * (m - 1) + 1] == b[2 * (m - 1) + 1]);
    }
}

proof fn lemma_mul_shift(c: int, f: int, w: int)
    ensures
        c * (f + w) == c * f + w * c,
{
    assert(c * (f + w) == c * f + w * c) by (nonlinear_arith);
}

proof fn lemma_push_upto(a: Seq<Edge>, n: int, id: int, w: int, v: int, m: int)
    requires
        arcs_wf(a, n),
        0 <= id < a.len(),
        0 <= w <= a[id].f,
        0 <= 2 * m <= a.len(),
    ensures
        excess_upto(pushed(a, id, w), v, m) == excess_upto(a, v, m) + (if m > id / 2 {
            (if a[id].to == v {
                w
            } else {
                0
            }) - (if a[mate(id)].to == v {
                w
            } else {
                0
            })
        } else {
            0
        }),
        cost_upto(pushed(a, id, w), m) == cost_upto(a, m) + (if m > id / 2 {
            w * a[id].cost
        } else {
            0
        }),
    decreases m,
{
    let b = pushed(a, id, w);
    let k = id / 2;
    if m > 0 {
        lemma_push_upto(a, n, id, w, v, m - 1);
        let j = m - 1;
        assert(a[mate(id)].f + w <= i64::MAX);
        assert(mate(id) < a.len());
        if j == k {
            assert(b[id].f == a[id].f - w);
            assert(b[mate(id)].f == a[mate(id)].f + w);
            if id % 2 == 0 {
                assert(2 * j == id && 2 * j + 1 == mate(id));
                lemma_mul_shift(a[id].cost as int, a[mate(id)].f as int, w);
            } else {
                assert(2 * j + 1 == id && 2 * j == mate(id));
                assert(a[2 * j].cost == -a[id].cost);
                lemma_mul_shift(a[mate(id)].cost as int, a[id].f as int, -w);
                assert((-w) * a[mate(id)].cost == w * a[id].cost) by (nonlinear_arith)
                    requires
                        a[mate(id)].cost == -a[id].cost,
                ;
            }
        } else {
            assert(b[2 * j] == a[2 * j]);
            assert(b[2 * j + 1] == a[2 * j + 1]);
        }
    }
}

/// Sending `w` units along arc `id` keeps the network, moves `w` units of
/// excess from the arc's tail to its head and adds `w` times the arc's cost.
pub proof fn lemma_push(a: Seq<Edge>, n: int, id: int, w: int)
    requires
        arcs_wf(a, n),
        0 <= id < a.len(),
        0 <= w <= a[id].f,
    ensures
        arcs_wf(pushed(a, id, w), n),
        same_network(a, pushed(a, id, w)),
        total_cost(pushed(a, id, w)) == total_cost(a) + w * a[id].cost,
        forall|v: int|
            #[trigger] excess(pushed(a, id, w), v) == excess(a, v) + (if a[id].to == v {
                w
            } else {
                0
            }) - (if a[mate(id)].to == v {
                w
            } else {
                0
            }),
{
    let b = pushed(a, id, w);
    let m = a.len() as int / 2;
    assert(a[mate(id)].f + w <= i64::MAX);
    assert(mate(mate(id)) == id);
    assert forall|i: int| 0 <= i < b.len() implies {
        &&& 0 <= (#[trigger] b[i]).to < n
        &&& b[i].f >= 0
        &&& b[i].to == a[i].to
        &&& b[i].cost == a[i].cost
    } by {
        assert(a[mate(i)].f + a[i].f <= i64::MAX);
    }
    assert forall|i: int| 0 <= i < b.len() implies {
        &&& (#[trigger] b[mate(i)]).f + b[i].f <= i64::MAX
        &&& b[mate(i)].cost == -b[i].cost
        &&& b[mate(i)].f + b[i].f == a[mate(i)].f + a[i].f
    } by {
        assert(a[mate(i)].f + a[i].f <= i64::MAX);
        assert(a[mate(i)].f >= 0);
        if i == id {
        } else if i == mate(id) {
        } else {
            assert(mate(i) != id && mate(i) != mate(id));
        }
    }
    lemma_push_upto(a, n, id, w, 0, m);
    assert forall|v: int|
        #[trigger] excess(b, v) == excess(a, v) + (if a[id].to == v {
            w
        } else {
            0
        }) - (if a[mate(id)].to == v {
            w
        } else {
            0
        }) by {
        lemma_push_upto(a, n, id, w, v, m);
    }
}

/// A node that no arc touches has no excess.
pub proof fn lemma_isolated_node(a: Seq<Edge>, v: int, m: int)
    requires
        0 <= 2 * m <= a.len(),
        forall|i: int| 0 <= i < a.len() ==> (#[trigger] a[i]).to != v,
    ensures
        excess_upto(a, v, m) == 0,
    decreases m,
{
    if m > 0 {
        lemma_isolated_node(a, v, m - 1);
        assert(a[2 * (m - 1)].to != v);
        assert(a[2 * (m - 1) + 1].to != v);
    }
}

/// Appending a pair that carries no flow changes neither excess nor cost.
pub proof fn lemma_append_pair(a: Seq<Edge>, fwd: Edge, rev: Edge)
    requires
        a.len() % 2 == 0,
        rev.f == 0,
    ensures
        total_cost(a.push(fwd).push(rev)) == total_cost(a),
        forall|v: int| #[trigger] excess(a.push(fwd).push(rev), v) == excess(a, v),
{
    let b = a.push(fwd).push(rev);
    let m = a.len() as int / 2;
    assert(b.len() as int / 2 == m + 1);
    assert(b[2 * m + 1] == rev);
    assert(b[2 * m] == fwd);
    lemma_sums_frame(a, b, 0, m);
    assert(fwd.cost * 0 == 0);
    assert forall|v: int| #[trigger] excess(b, v) == excess(a, v) by {
        lemma_sums_frame(a, b, v, m);
    }
}

/// The arcs `p` lead, each into the tail of the one before it, through the
/// nodes `nodes`: arc `p[i]` runs from `nodes[i + 1]` to `nodes[i]`. The
/// heads are pairwise distinct, so no arc occurs twice.
pub open spec fn is_trail(a: Seq<Edge>, p: Seq<usize>, nodes: Seq<int>) -> bool {
    &&& nodes.len() == p.len() + 1
    &&& forall|i: int|
        0 <= i < p.len() ==> {
            &&& 0 <= (#[trigger] p[i]) < a.len()
            &&& a[p[i] as int].to == nodes[i]
            &&& a[mate(p[i] as int)].to == nodes[i + 1]
        }
    &&& forall|i: int, j: int| 0 <= i < j < p.len() ==> #[trigger] nodes[i] != #[trigger] nodes[j]
}

/// Every node but the source that a search has reached hangs on its
/// predecessor by an arc with residual capacity: the arc `con[v]` runs from
/// `pref[v]` to `v`.
pub open spec fn links_ok(a: Seq<Edge>, pref: Seq<usize>, con: Seq<usize>) -> bool {
    forall|v: int|
        0 < v < pref.len() && #[trigger] pref[v] != usize::MAX ==> {
            &&& con[v] < a.len()
            &&& a[con[v] as int].to == v
            &&& a[mate(con[v] as int)].to == pref[v]
            &&& a[con[v] as int].f > 0
        }
}

/// Along the trail every head was reached by the search, at the distance
/// of the tail plus the cost of the arc.
pub open spec fn distances_tight(
    a: Seq<Edge>,
    p: Seq<usize>,
    nodes: Seq<int>,
    pref: Seq<usize>,
    dist: Seq<i64>,
) -> bool {
    forall|i: int| 0 <= i < p.len() ==> #[trigger] tight_at(a, p, nodes, pref, dist, i)
}

/// The head of arc `i` of the trail was reached by the search, at the
/// distance of the tail plus the cost of the arc.
pub open spec fn tight_at(
    a: Seq<Edge>,
    p: Seq<usize>,
    nodes: Seq<int>,
    pref: Seq<usize>,
    dist: Seq<i64>,
    i: int,
) -> bool {
    &&& pref[nodes[i]] != usize::MAX
    &&& dist[nodes[i]] == dist[nodes[i + 1]] + a[p[i] as int].cost
}

/// A trail with tight distances stays one when an arc is added at its end
/// whose head is the end so far and whose distances are tight.
pub proof fn lemma_tight_push(
    a: Seq<Edge>,
    path: Seq<usize>,
    nodes: Seq<int>,
    pref: Seq<usize>,
    dist: Seq<i64>,
    id: usize,
    tail: int,
)
    requires
        nodes.len() == path.len() + 1,
        distances_tight(a, path, nodes, pref, dist),
        pref[nodes[path.len() as int]] != usize::MAX,
        dist[nodes[path.len() as int]] == dist[tail] + a[id as int].cost,
    ensures
        distances_tight(a, path.push(id), nodes.push(tail), pref, dist),
{
    let longer = path.push(id);
    let further = nodes.push(tail);
    assert forall|i: int| 0 <= i < longer.len() implies #[trigger] tight_at(
        a,
        longer,
        further,
        pref,
        dist,
        i,
    ) by {
        if i < path.len() {
            assert(tight_at(a, path, nodes, pref, dist, i));
            assert(longer[i] == path[i]);
            assert(further[i] == nodes[i]);
            assert(further[i + 1] == nodes[i + 1]);
        } else {
            assert(longer[i] == id);
        }
    }
}

/// The potentials after an augmentation to the sink `sink`: for a node
/// that the search reached, its distance, but at most the distance of the
/// sink plus what the old potentials have the node above the sink; for any
/// other node, that bound.
pub open spec fn lifted(p: Seq<int>, pref: Seq<usize>, dist: Seq<i64>, sink: int) -> Seq<int> {
    Seq::new(
        p.len(),
        |v: int|
            if pref[v] != usize::MAX && dist[v] <= dist[sink] + p[v] - p[sink] {
                dist[v] as int
            } else {
                dist[sink] + p[v] - p[sink]
            },
    )
}

/// Where potentials price the flow and a search has settled, the lifted
/// potentials price the flow as well.
pub proof fn lemma_lifted_valid(
    a: Seq<Edge>,
    n: int,
    p: Seq<int>,
    pref: Seq<usize>,
    dist: Seq<i64>,
    sink: int,
)
    requires
        arcs_wf(a, n),
        p.len() == n,
        pref.len() == n,
        dist.len() == n,
        0 <= sink < n,
        potentials_valid(a, p),
        forall|i: int|
            0 <= i < a.len() && a[i].f > 0 && pref[(#[trigger] a[mate(i)]).to as int] != usize::MAX
                ==> pref[a[i].to as int] != usize::MAX && dist[a[i].to as int] <= dist[a[mate(
                i,
            )].to as int] + a[i].cost,
    ensures
        potentials_valid(a, lifted(p, pref, dist, sink)),
{
    let q = lifted(p, pref, dist, sink);
    assert forall|i: int| 0 <= i < a.len() && a[i].f > 0 implies a[i].cost + q[(#[trigger] a[mate(
        i,
    )]).to as int] - q[a[i].to as int] >= 0 by {
        assert(0 <= mate(i) < a.len());
        let u = a[mate(i)].to as int;
        let v = a[i].to as int;
        assert(0 <= u < n && 0 <= v < n);
        assert(a[i].cost + p[u] - p[v] >= 0);
    }
}

/// Along a trail that ends in the sink and whose distances are tight, the
/// lifted potentials are the distances, so they rise by exactly the cost of
/// each arc.
pub proof fn lemma_lifted_tight(
    a: Seq<Edge>,
    n: int,
    path: Seq<usize>,
    nodes: Seq<int>,
    p: Seq<int>,
    pref: Seq<usize>,
    dist: Seq<i64>,
    upto: int,
)
    requires
        arcs_wf(a, n),
        is_trail(a, path, nodes),
        p.len() == n,
        pref.len() == n,
        dist.len() == n,
        potentials_valid(a, p),
        distances_tight(a, path, nodes, pref, dist),
        forall|i: int| 0 <= i < path.len() ==> a[#[trigger] path[i] as int].f > 0,
        0 <= nodes[0] < n,
        pref[nodes[0]] != usize::MAX,
        pref[nodes[path.len() as int]] != usize::MAX,
        0 <= upto <= path.len(),
    ensures
        forall|i: int|
            0 <= i <= upto ==> 0 <= #[trigger] nodes[i] < n && pref[nodes[i]] != usize::MAX && lifted(
                p,
                pref,
                dist,
                nodes[0],
            )[nodes[i]] == dist[nodes[i]],
    decreases upto,
{
    let q = lifted(p, pref, dist, nodes[0]);
    if upto > 0 {
        lemma_lifted_tight(a, n, path, nodes, p, pref, dist, upto - 1);
        let i = upto - 1;
        let e = path[i] as int;
        assert(0 <= mate(e) < a.len());
        assert(a[e].to == nodes[i] && a[mate(e)].to == nodes[i + 1]);
        assert(0 <= a[mate(e)].to < n);
        assert(a[e].cost + p[a[mate(e)].to as int] - p[a[e].to as int] >= 0);
        assert(tight_at(a, path, nodes, pref, dist, i));
        assert(dist[nodes[i]] == dist[nodes[i + 1]] + a[e].cost);
        assert(q[nodes[i]] == dist[nodes[i]]);
        assert(pref[(a[mate(e)]).to as int] != usize::MAX) by {
            if upto < path.len() {
                assert(tight_at(a, path, nodes, pref, dist, upto));
            }
        }
    }
}

/// Along the trail the potentials `q` rise by exactly the cost of each arc.
pub open spec fn trail_tight(a: Seq<Edge>, p: Seq<usize>, nodes: Seq<int>, q: Seq<int>) -> bool {
    forall|i: int| 0 <= i < p.len() ==> #[trigger] rise_at(a, p, nodes, q, i)
}

/// Over arc `i` of the trail the potentials `q` rise by exactly its cost.
pub open spec fn rise_at(a: Seq<Edge>, p: Seq<usize>, nodes: Seq<int>, q: Seq<int>, i: int) -> bool {
    q[nodes[i]] - q[nodes[i + 1]] == a[p[i] as int].cost
}

/// Sending flow along an arc over which the potentials rise by exactly
/// its cost keeps the flow priced by these potentials.
pub proof fn lemma_push_keeps_prices(a: Seq<Edge>, n: int, id: int, w: int, q: Seq<int>)
    requires
        arcs_wf(a, n),
        0 <= id < a.len(),
        0 <= w <= a[id].f,
        potentials_valid(a, q),
        q[a[id].to as int] - q[a[mate(id)].to as int] == a[id].cost,
    ensures
        potentials_valid(pushed(a, id, w), q),
{
    let b = pushed(a, id, w);
    assert(0 <= mate(id) < a.len());
    assert(mate(mate(id)) == id);
    assert(a[mate(id)].cost == -a[id].cost);
    assert forall|i: int| 0 <= i < b.len() && b[i].f > 0 implies b[i].cost + q[(#[trigger] b[mate(
        i,
    )]).to as int] - q[b[i].to as int] >= 0 by {
        assert(0 <= mate(i) < a.len());
        assert(b[i].to == a[i].to && b[i].cost == a[i].cost);
        assert(b[mate(i)].to == a[mate(i)].to);
        if i == mate(id) {
        } else if i == id {
            assert(a[i].f > 0);
            assert(a[i].cost + q[a[mate(i)].to as int] - q[a[i].to as int] >= 0);
        } else {
            assert(b[i].f == a[i].f);
            assert(a[i].cost + q[a[mate(i)].to as int] - q[a[i].to as int] >= 0);
        }
    }
}

/// Sum of the unit costs of the first `i` arcs of `p`.
pub open spec fn trail_cost(a: Seq<Edge>, p: Seq<usize>, i: int) -> int
    decreases i,
{
    if i <= 0 {
        0
    } else {
        trail_cost(a, p, i - 1) + a[p[i - 1] as int].cost
    }
}

/// Under potentials that price the flow, a trail of arcs with residual
/// capacity costs at least what the potentials rise from its last node to
/// its first. A closed trail therefore costs nothing or more.
pub proof fn lemma_trail_cost_bound(a: Seq<Edge>, p: Seq<usize>, nodes: Seq<int>, q: Seq<int>, i: int)
    requires
        is_trail(a, p, nodes),
        potentials_valid(a, q),
        forall|j: int| 0 <= j < p.len() ==> a[#[trigger] p[j] as int].f > 0,
        0 <= i <= p.len(),
    ensures
        trail_cost(a, p, i) >= q[nodes[0]] - q[nodes[i]],
    decreases i,
{
    if i > 0 {
        lemma_trail_cost_bound(a, p, nodes, q, i - 1);
        let id = p[i - 1] as int;
        assert(a[id].f > 0);
        assert(a[id].to == nodes[i - 1]);
        assert(a[mate(id)].to == nodes[i]);
    }
}

/// The potential of node `v` after the distances `dist` of a search were
/// added to the potentials `pi`: the sum, where the search reached the node
/// and the node was not passed by, or the sentinel where the sum leaves its
/// range; else the potential as it was.
pub open spec fn raised(pi: Seq<i64>, dist: Seq<i64>, v: int) -> i64 {
    if v < dist.len() && dist[v] < INF && pi[v] != INF {
        if -INF < pi[v] + dist[v] < INF {
            (pi[v] + dist[v]) as i64
        } else {
            INF
        }
    } else {
        pi[v]
    }
}

/// The arcs after `w` units are sent along each of the first `i` arcs of
/// `path`.
pub open spec fn pushed_along(a: Seq<Edge>, path: Seq<usize>, w: int, i: int) -> Seq<Edge>
    decreases i,
{
    if i <= 0 {
        a
    } else {
        pushed(pushed_along(a, path, w, i - 1), path[i - 1] as int, w)
    }
}

/// The least residual capacity among the first `i` arcs of `path`, and the
/// sentinel where that is less.
pub open spec fn least_residual(a: Seq<Edge>, path: Seq<usize>, i: int) -> int
    decreases i,
{
    if i <= 0 {
        INF as int
    } else {
        let rest = least_residual(a, path, i - 1);
        if a[path[i - 1] as int].f < rest {
            a[path[i - 1] as int].f as int
        } else {
            rest
        }
    }
}

/// The node that stands `k` predecessor links behind `v`, or -1 where a
/// link on the way leads out of the nodes.
pub open spec fn back(pref: Seq<usize>, v: int, k: nat) -> int
    decreases k,
{
    if k == 0 {
        v
    } else {
        let u = back(pref, v, (k - 1) as nat);
        if 0 <= u < pref.len() && pref[u] < pref.len() {
            pref[u] as int
        } else {
            -1
        }
    }
}

/// Link `i` of the trail is the predecessor link of its head: the
/// predecessor of `nodes[i]` is `nodes[i + 1]`, reached over the arc
/// `path[i]`, which has residual capacity.
pub open spec fn link_at(
    a: Seq<Edge>,
    pref: Seq<usize>,
    con: Seq<usize>,
    path: Seq<usize>,
    nodes: Seq<int>,
    i: int,
) -> bool {
    &&& 0 <= nodes[i] < pref.len()
    &&& pref[nodes[i]] == nodes[i + 1]
    &&& con[nodes[i]] == path[i]
    &&& a[path[i] as int].f > 0
}

/// The predecessor links behind `anchor` close a cycle: `cyc` is a trail
/// of arcs with residual capacity over the nodes `nodes`, each arc the
/// predecessor link of its head, that starts and ends in `anchor`.
pub open spec fn closes(
    a: Seq<Edge>,
    pref: Seq<usize>,
    con: Seq<usize>,
    cyc: Seq<usize>,
    nodes: Seq<int>,
    anchor: int,
) -> bool {
    &&& is_trail(a, cyc, nodes)
    &&& cyc.len() > 0
    &&& nodes[0] == anchor
    &&& nodes[cyc.len() as int] == anchor
    &&& forall|i: int| 0 <= i < cyc.len() ==> #[trigger] link_at(a, pref, con, cyc, nodes, i)
}

/// Once a link has led out of the nodes, no later link leads back.
pub proof fn lemma_back_stuck(pref: Seq<usize>, v: int, k: nat, m: nat)
    requires
        k <= m,
        back(pref, v, k) < 0,
    ensures
        back(pref, v, m) < 0,
    decreases m,
{
    if m > k {
        lemma_back_stuck(pref, v, k, (m - 1) as nat);
    }
}

/// Adjacency lists keep agreeing with the arcs when only residuals move.
pub proof fn lemma_adjacency_same_network(adj: Seq<Vec<usize>>, a: Seq<Edge>, b: Seq<Edge>)
    requires
        arcs_wf(a, adj.len() as int),
        adjacency_wf(adj, a),
        same_network(a, b),
    ensures
        adjacency_wf(adj, b),
{
    assert forall|u: int, j: int| 0 <= u < adj.len() && 0 <= j < adj[u]@.len() implies {
        &&& 0 <= (#[trigger] adj[u]@[j]) < b.len()
        &&& b[mate(adj[u]@[j] as int)].to == u
    } by {
        let e = adj[u]@[j] as int;
        assert(0 <= mate(e) < a.len());
        assert(b[mate(e)].to == a[mate(e)].to);
    }
    assert forall|i: int| 0 <= i < b.len() implies #[trigger] listed(adj, b, i) by {
        assert(listed(adj, a, i));
        assert(0 <= mate(i) < a.len());
        assert(b[mate(i)].to == a[mate(i)].to);
        let x = a[mate(i)].to as int;
        let j = choose|j: int| 0 <= j < adj[x]@.len() && #[trigger] adj[x]@[j] == i;
        assert(adj[x]@[j] == i);
    }
}

/// `same_network` is reflexive.
pub proof fn lemma_same_network_refl(a: Seq<Edge>)
    ensures
        same_network(a, a),
{
}

/// `same_network` is symmetric.
pub proof fn lemma_same_network_sym(a: Seq<Edge>, b: Seq<Edge>)
    requires
        same_network(a, b),
        a.len() % 2 == 0,
    ensures
        same_network(b, a),
{
    assert forall|i: int| 0 <= i < b.len() implies (#[trigger] a[i]).to == b[i].to && a[i].cost
        == b[i].cost by {
        assert(b[i].to == a[i].to);
    }
    assert forall|i: int| 0 <= i < b.len() implies (#[trigger] a[mate(i)]).f + a[i].f == b[mate(i)].f
        + b[i].f by {
        assert(0 <= mate(i) < a.len());
        assert(b[mate(i)].f + b[i].f == a[mate(i)].f + a[i].f);
    }
}

/// `same_network` is transitive.
pub proof fn lemma_same_network_trans(a: Seq<Edge>, b: Seq<Edge>, c: Seq<Edge>)
    requires
        same_network(a, b),
        same_network(b, c),
    ensures
        same_network(a, c),
{
    assert forall|i: int| 0 <= i < a.len() implies (#[trigger] c[i]).to == a[i].to && c[i].cost
        == a[i].cost by {
        assert(b[i].to == a[i].to);
    }
    assert forall|i: int| 0 <= i < a.len() implies (#[trigger] c[mate(i)]).f + c[i].f == a[mate(
        i,
    )].f + a[i].f by {
        assert(b[mate(i)].f + b[i].f == a[mate(i)].f + a[i].f);
    }
}

/// Adjacency lists agree with the arcs: list `u` holds exactly the arcs
/// whose tail is `u`.
pub open spec fn adjacency_wf(adj: Seq<Vec<usize>>, a: Seq<Edge>) -> bool {
    &&& forall|u: int, j: int|
        0 <= u < adj.len() && 0 <= j < adj[u]@.len() ==> {
            &&& 0 <= (#[trigger] adj[u]@[j]) < a.len()
            &&& a[mate(adj[u]@[j] as int)].to == u
        }
    &&& forall|i: int| 0 <= i < a.len() ==> #[trigger] listed(adj, a, i)
}

/// Arc `i` stands in the adjacency list of its tail.
pub open spec fn listed(adj: Seq<Vec<usize>>, a: Seq<Edge>, i: int) -> bool {
    exists|j: int| 0 <= j < adj[a[mate(i)].to as int]@.len() && #[trigger] adj[a[mate(i)].to as int]@[j] == i
}

/// A residual network with a source (node 0) and a sink (node 1), solved by
/// successive shortest paths.
pub struct MinCostFlow {
    n: usize,
    edges: Vec<Edge>,
    adj: Vec<Vec<usize>>,
    pref: Vec<usize>,
    con: Vec<usize>,
    dist: Vec<i64>,
    pi: Vec<i64>,
    s: usize,
    t: usize,
    maxflow: i64,
    mincost: i64,
    converged: bool,
    cancelled: bool,
}

/// Lists with the same entries as those of `adj` agree with the arcs as
/// those of `adj` do.
pub proof fn lemma_adjacency_copy(adj: Seq<Vec<usize>>, copy: Seq<Vec<usize>>, a: Seq<Edge>)
    requires
        arcs_wf(a, adj.len() as int),
        adjacency_wf(adj, a),
        copy.len() == adj.len(),
        forall|u: int| 0 <= u < adj.len() ==> (#[trigger] copy[u])@ == adj[u]@,
    ensures
        adjacency_wf(copy, a),
{
    assert forall|u: int, j: int| 0 <= u < copy.len() && 0 <= j < copy[u]@.len() implies {
        &&& 0 <= (#[trigger] copy[u]@[j]) < a.len()
        &&& a[mate(copy[u]@[j] as int)].to == u
    } by {
        assert(copy[u]@[j] == adj[u]@[j]);
    }
    assert forall|i: int| 0 <= i < a.len() implies #[trigger] listed(copy, a, i) by {
        assert(listed(adj, a, i));
        assert(0 <= mate(i) < a.len());
        let x = a[mate(i)].to as int;
        let j = choose|j: int| 0 <= j < adj[x]@.len() && #[trigger] adj[x]@[j] == i;
        assert(copy[x]@[j] == i);
    }
}

impl Clone for MinCostFlow {
    /// A deep copy: arcs and adjacency lists are copied entry by entry, so
    /// that a handle names in the copy the pair that it names in the network.
    fn clone(&self) -> (r: Self)
        ensures
            r.arcs() == self.arcs(),
            r.order() == self.order(),
            r.flow_added() == self.flow_added(),
            r.cost_added() == self.cost_added(),
            r.is_converged() == self.is_converged(),
            r.has_cancelled() == self.has_cancelled(),
            self.wf() ==> r.wf(),
    {
        let mut edges: Vec<Edge> = Vec::new();
        let mut i: usize = 0;
        while i < self.edges.len()
            invariant
                i <= self.edges@.len(),
                edges@ == self.edges@.subrange(0, i as int),
            decreases self.edges@.len() - i,
        {
            edges.push(self.edges[i]);
            i += 1;
            assert(edges@ =~= self.edges@.subrange(0, i as int));
        }
        assert(edges@ =~= self.edges@);
        let mut adj: Vec<Vec<usize>> = Vec::new();
        let mut u: usize = 0;
        while u < self.adj.len()
            invariant
                u <= self.adj@.len(),
                adj@.len() == u,
                forall|x: int| 0 <= x < u ==> (#[trigger] adj@[x])@ == self.adj@[x]@,
            decreases self.adj@.len() - u,
        {
            let mut row: Vec<usize> = Vec::new();
            let mut j: usize = 0;
            while j < self.adj[u].len()
                invariant
                    u < self.adj@.len(),
                    j <= self.adj@[u as int]@.len(),
                    row@ == self.adj@[u as int]@.subrange(0, j as int),
                decreases self.adj@[u as int]@.len() - j,
            {
                row.push(self.adj[u][j]);
                j += 1;
                assert(row@ =~= self.adj@[u as int]@.subrange(0, j as int));
            }
            assert(row@ =~= self.adj@[u as int]@);
            adj.push(row);
            u += 1;
        }
        let r = MinCostFlow {
            n: self.n,
            edges,
            adj,
            pref: self.pref.clone(),
            con: self.con.clone(),
            dist: self.dist.clone(),
            pi: self.pi.clone(),
            s: self.s,
            t: self.t,
            maxflow: self.maxflow,
            mincost: self.mincost,
            converged: self.converged,
            cancelled: self.cancelled,
        };
        proof {
            if self.wf() {
                lemma_adjacency_copy(self.adj@, r.adj@, self.edges@);
            }
        }
        r
    }
}

/// The index of the arc paired with `id`.
pub fn partner(id: usize) -> (r: usize)
    requires
        id < usize::MAX,
    ensures
        r == mate(id as int),
{
    let x = id as u64;
    let y = x ^ 1;
    assert(y == if x % 2 == 0 {
        (x + 1) as u64
    } else {
        (x - 1) as u64
    }) by (bit_vector)
        requires
            y == x ^ 1,
            x < 0xffff_ffff_ffff_ffff,
    ;
    y as usize
}

impl MinCostFlow {
    /// The residual arcs, forward arc of pair `k` at `2 * k`, reverse at `2 * k + 1`.
    pub closed spec fn arcs(&self) -> Seq<Edge> {
        self.edges@
    }

    /// Number of nodes.
    pub closed spec fn order(&self) -> int {
        self.adj@.len() as int
    }

    /// Flow value that the solver has added since the counters were last reset.
    pub closed spec fn flow_added(&self) -> int {
        self.maxflow as int
    }

    /// Cost that the solver has added since the counters were last reset.
    pub closed spec fn cost_added(&self) -> int {
        self.mincost as int
    }

    /// Whether the last solve ran until no residual path was left.
    pub closed spec fn is_converged(&self) -> bool {
        self.converged
    }

    /// Whether a cycle of negative cost was cancelled since the counters
    /// were last reset.
    pub closed spec fn has_cancelled(&self) -> bool {
        self.cancelled
    }

    /// The counters hold what the arcs carry: the running cost is the cost
    /// of the flow, the running flow value what the flow brings into the
    /// sink. A new network is booked; appending nodes and pairs and
    /// `update_flow` keep it booked, and so does `mincostflow` on a network
    /// that carries nothing.
    pub open spec fn booked(&self) -> bool {
        &&& self.cost_added() == total_cost(self.arcs())
        &&& self.flow_added() == excess(self.arcs(), 1)
    }

    /// The representation invariant. It includes flow conservation at every
    /// node other than source and sink.
    pub closed spec fn wf(&self) -> bool {
        &&& self.n == self.adj@.len()
        &&& self.n >= 2
        &&& self.s == 0
        &&& self.t == 1
        &&& self.edges@.len() < usize::MAX
        &&& arcs_wf(self.edges@, self.n as int)
        &&& adjacency_wf(self.adj@, self.edges@)
        &&& conserving(self.edges@, self.n as int)
        &&& self.maxflow >= 0
    }

    /// What the invariant says of the arcs.
    pub proof fn lemma_wf(&self)
        requires
            self.wf(),
        ensures
            self.order() >= 2,
            self.arcs().len() < usize::MAX,
            arcs_wf(self.arcs(), self.order()),
            conserving(self.arcs(), self.order()),
    {
    }

    /// A network of two nodes, source and sink, without arcs.
    pub fn new() -> (g: Self)
        ensures
            g.wf(),
            g.order() == 2,
            g.arcs() == Seq::<Edge>::empty(),
            g.flow_added() == 0,
            g.cost_added() == 0,
            !g.has_cancelled(),
            g.booked(),
    {
        let mut adj: Vec<Vec<usize>> = Vec::new();
        adj.push(Vec::new());
        adj.push(Vec::new());
        let g = MinCostFlow {
            n: 2,
            edges: Vec::new(),
            adj,
            pref: Vec::new(),
            con: Vec::new(),
            dist: Vec::new(),
            pi: Vec::new(),
            s: 0,
            t: 1,
            maxflow: 0,
            mincost: 0,
            converged: false,
            cancelled: false,
        };
        assert(g.edges@.len() == 0);
        assert(conserving(g.edges@, 2));
        g
    }

    /// The source node.
    pub fn get_source(&self) -> (s: usize)
        requires
            self.wf(),
        ensures
            s == 0,
    {
        self.s
    }

    /// The sink node.
    pub fn get_sink(&self) -> (t: usize)
        requires
            self.wf(),
        ensures
            t == 1,
    {
        self.t
    }

    /// Number of nodes.
    pub fn node_count(&self) -> (n: usize)
        requires
            self.wf(),
        ensures
            n == self.order(),
    {
        self.n
    }

    /// Whether the last solve ran until no residual path was left. A solve
    /// that gave up, because a counter or a distance would have left its
    /// range or because the links of a search held no simple path, leaves
    /// this unset.
    pub fn converged(&self) -> (c: bool)
        ensures
            c == self.is_converged(),
    {
        self.converged
    }

    /// Whether a cycle of negative cost was cancelled since the counters
    /// were last reset. A network that starts without flow and without
    /// negative costs has no such cycle.
    pub fn cancelled(&self) -> (c: bool)
        ensures
            c == self.has_cancelled(),
    {
        self.cancelled
    }

    /// Number of residual arcs, twice the number of pairs.
    pub fn arc_count(&self) -> (m: usize)
        ensures
            m == self.arcs().len(),
    {
        self.edges.len()
    }

    /// Appends a node without arcs and returns its id.
    pub fn new_node(&mut self) -> (id: usize)
        requires
            old(self).wf(),
            old(self).order() < usize::MAX,
        ensures
            final(self).wf(),
            id == old(self).order(),
            final(self).order() == old(self).order() + 1,
            final(self).arcs() == old(self).arcs(),
            final(self).flow_added() == old(self).flow_added(),
            final(self).cost_added() == old(self).cost_added(),
            final(self).has_cancelled() == old(self).has_cancelled(),
            old(self).booked() ==> final(self).booked(),
    {
        let ghost adj0 = self.adj@;
        self.adj.push(Vec::new());
        self.n += 1;
        proof {
            let a = self.edges@;
            assert forall|u: int, j: int|
                0 <= u < self.adj@.len() && 0 <= j < self.adj@[u]@.len() implies {
                &&& 0 <= (#[trigger] self.adj@[u]@[j]) < a.len()
                &&& a[mate(self.adj@[u]@[j] as int)].to == u
            } by {
                assert(self.adj@[u] == adj0[u]);
            }
            assert forall|i: int| 0 <= i < a.len() implies #[trigger] listed(self.adj@, a, i) by {
                assert(0 <= mate(i) < a.len());
                let u = a[mate(i)].to as int;
                assert(self.adj@[u] == adj0[u]);
                assert(listed(adj0, a, i));
                let j = choose|j: int| 0 <= j < adj0[u]@.len() && #[trigger] adj0[u]@[j] == i;
                assert(self.adj@[u]@[j] == i);
            }
            lemma_isolated_node(a, self.n - 1, a.len() as int / 2);
            assert forall|x: int| 2 <= x < self.n implies #[trigger] excess(a, x) == 0 by {
            }
        }
        self.n - 1
    }

    /// Appends the pair `u -> v` with capacity `cap` and unit cost `cost`, and
    /// returns the index of its forward arc, which stays valid for the life of
    /// the network.
    pub fn add_edge(&mut self, u: usize, v: usize, cap: i64, cost: i64) -> (handle: usize)
        requires
            old(self).wf(),
            u < old(self).order(),
            v < old(self).order(),
            cap >= 0,
            cost > i64::MIN,
            old(self).arcs().len() + 2 < usize::MAX,
        ensures
            final(self).wf(),
            handle == old(self).arcs().len(),
            final(self).order() == old(self).order(),
            final(self).arcs() == old(self).arcs().push(Edge { to: v, f: cap, cost: cost }).push(
                Edge { to: u, f: 0, cost: (-cost) as i64 },
            ),
            final(self).flow_added() == old(self).flow_added(),
            final(self).cost_added() == old(self).cost_added(),
            final(self).has_cancelled() == old(self).has_cancelled(),
            old(self).booked() ==> final(self).booked(),
    {
        let ghost a0 = self.edges@;
        let ghost adj0 = self.adj@;
        let h = self.edges.len();
        proof {
            old(self).lemma_wf();
            lemma_append_pair(a0, Edge { to: v, f: cap, cost: cost }, Edge { to: u, f: 0, cost: (-cost) as i64 });
        }
        let fwd = Edge { to: v, f: cap, cost };
        let rev = Edge { to: u, f: 0, cost: -cost };
        self.adj[u].push(h);
        self.edges.push(fwd);
        self.adj[v].push(h + 1);
        self.edges.push(rev);
        proof {
            let a = self.edges@;
            let adj = self.adj@;
            assert(a == a0.push(fwd).push(rev));
            assert(h % 2 == 0);
            assert(mate(h as int) == h + 1 && mate(h + 1) == h as int);
            assert forall|i: int| 0 <= i < a.len() implies 0 <= (#[trigger] a[i]).to < self.n
                && a[i].f >= 0 by {
                if i < h {
                    assert(a[i] == a0[i]);
                }
            }
            assert forall|i: int| 0 <= i < a.len() implies {
                &&& (#[trigger] a[mate(i)]).f + a[i].f <= i64::MAX
                &&& a[mate(i)].cost == -a[i].cost
            } by {
                if i < h {
                    assert(a[i] == a0[i]);
                    assert(0 <= mate(i) < h);
                    assert(a[mate(i)] == a0[mate(i)]);
                }
            }
            assert forall|x: int, j: int| 0 <= x < adj.len() && 0 <= j < adj[x]@.len() implies {
                &&& 0 <= (#[trigger] adj[x]@[j]) < a.len()
                &&& a[mate(adj[x]@[j] as int)].to == x
            } by {
                if j < adj0[x]@.len() {
                    assert(adj[x]@[j] == adj0[x]@[j]);
                    let e = adj0[x]@[j] as int;
                    assert(0 <= mate(e) < h);
                    assert(a[mate(e)] == a0[mate(e)]);
                }
            }
            assert forall|i: int| 0 <= i < a.len() implies #[trigger] listed(adj, a, i) by {
                if i < h {
                    assert(0 <= mate(i) < h);
                    assert(a[mate(i)] == a0[mate(i)]);
                    let x = a0[mate(i)].to as int;
                    assert(listed(adj0, a0, i));
                    let j = choose|j: int| 0 <= j < adj0[x]@.len() && #[trigger] adj0[x]@[j] == i;
                    assert(adj[x]@[j] == i);
                } else if i == h {
                    assert(a[mate(i)].to == u);
                    if u == v {
                        assert(adj[u as int]@[adj[u as int]@.len() - 2] == h);
                    } else {
                        assert(adj[u as int]@[adj[u as int]@.len() - 1] == h);
                    }
                } else {
                    assert(a[mate(i)].to == v);
                    assert(adj[v as int]@[adj[v as int]@.len() - 1] == h + 1);
                }
            }
            lemma_append_pair(a0, fwd, rev);
            assert forall|x: int| 2 <= x < self.n implies #[trigger] excess(a, x) == 0 by {
                assert(excess(a0, x) == 0);
            }
        }
        h
    }

    /// Used capacity of the pair whose forward arc is `handle`: the capacity
    /// it was added with minus what is left of it.
    pub fn flow(&self, handle: usize) -> (used: i64)
        requires
            self.wf(),
            handle < self.arcs().len(),
            handle % 2 == 0,
        ensures
            used == pair_flow(self.arcs(), handle as int / 2),
            0 <= used <= pair_capacity(self.arcs(), handle as int / 2),
    {
        let r = partner(handle);
        assert(self.edges@[handle as int].f >= 0);
        self.edges[r].f
    }

    /// Sends `w` units along every arc of the trail `path`.
    fn push_along(
        &mut self,
        path: &Vec<usize>,
        w: i64,
        Ghost(nodes): Ghost<Seq<int>>,
        Ghost(q): Ghost<Seq<int>>,
    )
        requires
            old(self).wf(),
            is_trail(old(self).edges@, path@, nodes),
            w >= 0,
            forall|i: int| 0 <= i < path@.len() ==> old(self).edges@[#[trigger] path@[i] as int].f >= w,
        ensures
            final(self).n == old(self).n,
            final(self).adj == old(self).adj,
            final(self).pref == old(self).pref,
            final(self).con == old(self).con,
            final(self).dist == old(self).dist,
            final(self).pi == old(self).pi,
            final(self).s == old(self).s,
            final(self).t == old(self).t,
            final(self).maxflow == old(self).maxflow,
            final(self).mincost == old(self).mincost,
            final(self).converged == old(self).converged,
            final(self).cancelled == old(self).cancelled,
            trail_tight(old(self).edges@, path@, nodes, q) && potentials_valid(old(self).edges@, q)
                ==> potentials_valid(final(self).edges@, q),
            arcs_wf(final(self).edges@, final(self).n as int),
            adjacency_wf(final(self).adj@, final(self).edges@),
            same_network(old(self).edges@, final(self).edges@),
            total_cost(final(self).edges@) == total_cost(old(self).edges@) + w * trail_cost(
                old(self).edges@,
                path@,
                path@.len() as int,
            ),
            final(self).edges@ == pushed_along(old(self).edges@, path@, w as int, path@.len() as int),
            forall|v: int|
                #[trigger] excess(final(self).edges@, v) == excess(old(self).edges@, v) + (if v
                    == nodes[0] {
                    w as int
                } else {
                    0
                }) - (if v == nodes[path@.len() as int] {
                    w as int
                } else {
                    0
                }),
    {
        let ghost a0 = self.edges@;
        let ghost n = self.n as int;
        let mut i: usize = 0;
        proof {
            assert(w * trail_cost(a0, path@, 0) == 0) by (nonlinear_arith)
                requires
                    trail_cost(a0, path@, 0) == 0,
            ;
        }
        while i < path.len()
            invariant
                0 <= i <= path.len(),
                self.n == old(self).n,
                self.adj == old(self).adj,
                self.pref == old(self).pref,
                self.con == old(self).con,
                self.dist == old(self).dist,
                self.pi == old(self).pi,
                self.s == old(self).s,
                self.t == old(self).t,
                self.maxflow == old(self).maxflow,
                self.mincost == old(self).mincost,
                self.converged == old(self).converged,
                self.cancelled == old(self).cancelled,
                trail_tight(a0, path@, nodes, q) && potentials_valid(a0, q) ==> potentials_valid(
                    self.edges@,
                    q,
                ),
                a0 == old(self).edges@,
                n == self.n,
                w >= 0,
                a0.len() < usize::MAX,
                arcs_wf(a0, n),
                arcs_wf(self.edges@, n),
                same_network(a0, self.edges@),
                is_trail(a0, path@, nodes),
                forall|j: int| i <= j < path@.len() ==> self.edges@[#[trigger] path@[j] as int].f >= w,
                total_cost(self.edges@) == total_cost(a0) + w * trail_cost(a0, path@, i as int),
                self.edges@ == pushed_along(a0, path@, w as int, i as int),
                forall|v: int|
                    #[trigger] excess(self.edges@, v) == excess(a0, v) + (if v == nodes[0] {
                        w as int
                    } else {
                        0
                    }) - (if v == nodes[i as int] {
                        w as int
                    } else {
                        0
                    }),
            decreases path.len() - i,
        {
            let id = path[i];
            let r = partner(id);
            let ghost prev = self.edges@;
            proof {
                lemma_push(prev, n, id as int, w as int);
                assert(prev[r as int].f + prev[id as int].f <= i64::MAX);
                if trail_tight(a0, path@, nodes, q) && potentials_valid(a0, q) {
                    assert(prev[id as int].to == a0[id as int].to);
                    assert(0 <= mate(id as int) < a0.len());
                    assert(prev[mate(id as int)].to == a0[mate(id as int)].to);
                    assert(prev[id as int].cost == a0[id as int].cost);
                    assert(rise_at(a0, path@, nodes, q, i as int));
                    lemma_push_keeps_prices(prev, n, id as int, w as int, q);
                }
            }
            let e = self.edges[id];
            let m = self.edges[r];
            self.edges[id] = Edge { to: e.to, f: e.f - w, cost: e.cost };
            self.edges[r] = Edge { to: m.to, f: m.f + w, cost: m.cost };
            proof {
                let cur = self.edges@;
                assert(cur =~= pushed(prev, id as int, w as int));
                assert(cur == pushed_along(a0, path@, w as int, i + 1));
                lemma_same_network_trans(a0, prev, cur);
                assert(prev[id as int].cost == a0[id as int].cost);
                assert(prev[id as int].to == a0[id as int].to);
                assert(0 <= mate(id as int) < a0.len());
                assert(prev[mate(id as int)].to == a0[mate(id as int)].to);
                lemma_mul_shift(w as int, trail_cost(a0, path@, i as int), a0[id as int].cost as int);
                assert(a0[id as int].cost * w == w * a0[id as int].cost) by (nonlinear_arith);
                assert(trail_cost(a0, path@, i + 1) == trail_cost(a0, path@, i as int) + a0[id as int].cost);
                assert forall|j: int| i + 1 <= j < path@.len() implies cur[#[trigger] path@[j] as int].f
                    >= w by {
                    assert(nodes[i as int] != nodes[j]);
                    assert(path@[j] != id);
                    assert(prev[path@[j] as int].f >= w);
                }
                assert forall|v: int|
                    #[trigger] excess(cur, v) == excess(a0, v) + (if v == nodes[0] {
                        w as int
                    } else {
                        0
                    }) - (if v == nodes[i + 1] {
                        w as int
                    } else {
                        0
                    }) by {
                    assert(excess(pushed(prev, id as int, w as int), v) == excess(prev, v) + (if prev[id as int].to == v {
                        w as int
                    } else {
                        0
                    }) - (if prev[mate(id as int)].to == v {
                        w as int
                    } else {
                        0
                    }));
                }
            }
            i += 1;
        }
        proof {
            lemma_adjacency_same_network(self.adj@, a0, self.edges@);
        }
    }

    /// The two states differ at most in the scratch vectors of the searches.
    pub closed spec fn same_graph(&self, other: &Self) -> bool {
        &&& self.n == other.n
        &&& self.edges == other.edges
        &&& self.adj == other.adj
        &&& self.s == other.s
        &&& self.t == other.t
        &&& self.maxflow == other.maxflow
        &&& self.mincost == other.mincost
        &&& self.converged == other.converged
        &&& self.cancelled == other.cancelled
    }

    /// Adds the distances of the last search to the potentials. A potential
    /// that would leave the range of the sentinel becomes `INF`, and the
    /// search with reduced costs then passes the node by.
    fn raise_potentials(&mut self)
        ensures
            final(self).same_graph(old(self)),
            final(self).pref == old(self).pref,
            final(self).con == old(self).con,
            final(self).dist == old(self).dist,
            final(self).pi@.len() == old(self).pi@.len(),
            forall|v: int|
                0 <= v < old(self).pi@.len() ==> #[trigger] final(self).pi@[v] == raised(
                    old(self).pi@,
                    old(self).dist@,
                    v,
                ),
    {
        let mut i: usize = 0;
        while i < self.pi.len()
            invariant
                self.same_graph(old(self)),
                self.pref == old(self).pref,
                self.con == old(self).con,
                self.dist == old(self).dist,
                self.pi@.len() == old(self).pi@.len(),
                forall|v: int|
                    0 <= v < i ==> #[trigger] self.pi@[v] == raised(old(self).pi@, old(self).dist@, v),
                forall|v: int| i <= v < self.pi@.len() ==> #[trigger] self.pi@[v] == old(self).pi@[v],
            decreases self.pi.len() - i,
        {
            if i < self.dist.len() && self.dist[i] < INF && self.pi[i] != INF {
                let np: i128 = self.pi[i] as i128 + self.dist[i] as i128;
                if -(INF as i128) < np && np < INF as i128 {
                    self.pi[i] = np as i64;
                } else {
                    self.pi[i] = INF;
                }
            }
            i += 1;
        }
    }

    /// What a finished search leaves behind: every node that it reached has a
    /// distance inside the range of the sentinel, and every arc with residual
    /// capacity out of such a node leads to a node that it reached, at a
    /// distance that the arc cannot shorten.
    pub closed spec fn settled(&self) -> bool {
        &&& self.pref@.len() == self.n
        &&& self.dist@.len() == self.n
        &&& self.pref@[0] != usize::MAX
        &&& forall|v: int|
            0 <= v < self.n && #[trigger] self.pref@[v] != usize::MAX ==> -INF < self.dist@[v] < INF
        &&& forall|i: int|
            0 <= i < self.edges@.len() && self.edges@[i].f > 0 && self.pref@[(#[trigger] self.edges@[mate(
                i,
            )]).to as int] != usize::MAX ==> self.pref@[self.edges@[i].to as int] != usize::MAX
                && self.dist@[self.edges@[i].to as int] <= self.dist@[self.edges@[mate(i)].to as int]
                + self.edges@[i].cost
    }

    /// What a search on a tame network leaves behind: a tree of shortest
    /// paths with falling stamps, and every node in it no nearer than its
    /// potential and no further than a path over all the nodes can lead.
    pub closed spec fn sound(&self, p: Seq<int>, c: int, stamp: Seq<int>) -> bool {
        &&& rooted(self.edges@, self.n as int, self.pref@, self.con@, self.dist@, stamp)
        &&& forall|v: int|
            0 <= v < self.n && #[trigger] self.pref@[v] != usize::MAX ==> p[v] <= self.dist@[v] <= (
            self.n - 1) * c
    }

    /// One search for shortest residual paths from the source that tolerates
    /// arcs of negative cost: nodes wait in a queue, and a node whose distance
    /// drops is queued again. It fills `dist`, `pref` and `con`. A node whose
    /// distance has dropped `patience` times is taken to lie behind a cycle
    /// of negative cost, and the search ends there; with the greatest
    /// `patience` there is no such alarm. The search gives up when a
    /// distance would leave the range of
    /// the sentinel, or when the distances have dropped more often than they
    /// can without a cycle of negative cost. On a tame network it does not
    /// give up, and what it returns with the outcome stamps the tree of
    /// shortest paths that it leaves.
    fn spfa(&mut self, patience: usize, Ghost(p): Ghost<Seq<int>>, Ghost(c): Ghost<int>) -> (r: (
        Search,
        Ghost<Seq<int>>,
    ))
        requires
            old(self).wf(),
            patience >= 1,
        ensures
            final(self).wf(),
            final(self).same_graph(old(self)),
            final(self).pi == old(self).pi,
            r.0 matches Search::Cycle(v) ==> v < final(self).n && patience < usize::MAX,
            r.0 is Unreachable ==> saturated(final(self).edges@),
            r.0 is Unreachable || r.0 is Found ==> final(self).settled(),
            r.0 is Found ==> final(self).pref@[1] != usize::MAX,
            final(self).pref@.len() == final(self).con@.len(),
            links_ok(final(self).edges@, final(self).pref@, final(self).con@),
            tame(old(self).edges@, old(self).n as int, p, c) ==> !(r.0 is Aborted),
            tame(old(self).edges@, old(self).n as int, p, c) && (r.0 is Unreachable || r.0 is Found)
                ==> final(self).sound(p, c, r.1@),
    {
        let n = self.adj.len();
        let s = self.s;
        let t = self.t;
        self.pref = vec![usize::MAX; n];
        self.dist = vec![INF; n];
        if self.con.len() != n {
            self.con = vec![0usize; n];
        }
        let mut inq: Vec<bool> = vec![false; n];
        let mut cnt: Vec<usize> = vec![0usize; n];
        let mut q: VecDeque<usize> = VecDeque::new();
        self.dist[s] = 0;
        self.pref[s] = s;
        q.push_back(s);
        inq[s] = true;
        let mut budget: u128 = (n as u128) * 0x2000_0000_0000_0000u128;
        let ghost a = self.edges@;
        let ghost adj = self.adj@;
        let ghost mut stamp: Seq<int> = Seq::new(n as nat, |v: int| 0int);
        let ghost mut clock: int = 0;
        proof {
            if tame(a, n as int, p, c) {
                lemma_start(a, n as int, p, c, self.pref@, self.con@, self.dist@, stamp);
            }
            assert(q@[0] == s);
            assert forall|v: int| 0 <= v < n && #[trigger] inq@[v] implies q@.contains(v as usize) by {
                assert(v == s);
            }
        }
        while q.len() > 0
            invariant
                self.wf(),
                self.same_graph(old(self)),
                self.pi == old(self).pi,
                n == self.n,
                s == 0,
                t == 1,
                a == self.edges@,
                adj == self.adj@,
                self.pref@.len() == n,
                self.dist@.len() == n,
                self.con@.len() == n,
                inq@.len() == n,
                cnt@.len() == n,
                self.pref@[0] != usize::MAX,
                forall|v: int|
                    0 <= v < n ==> if #[trigger] self.pref@[v] == usize::MAX {
                        self.dist@[v] == INF
                    } else {
                        -INF < self.dist@[v] < INF
                    },
                forall|k: int| 0 <= k < q@.len() ==> (#[trigger] q@[k]) < n && self.pref@[q@[k] as int] != usize::MAX,
                forall|v: int| 0 <= v < n && #[trigger] inq@[v] ==> q@.contains(v as usize),
                forall|v: int|
                    0 <= v < n && self.pref@[v] != usize::MAX && !(#[trigger] inq@[v]) ==> closed_upto(
                        adj,
                        a,
                        self.pref@,
                        self.dist@,
                        v,
                        adj[v]@.len() as int,
                    ),
                patience >= 1,
                patience < usize::MAX ==> forall|v: int| 0 <= v < n ==> #[trigger] cnt@[v] < patience,
                links_ok(a, self.pref@, self.con@),
                stamp.len() == n,
                tame(a, n as int, p, c) ==> docile(
                    a,
                    n as int,
                    p,
                    c,
                    self.pref@,
                    self.con@,
                    self.dist@,
                    stamp,
                    clock,
                    budget as int,
                ),
            decreases budget, q@.len(),
        {
            let ghost budget0 = budget;
            let ghost q0 = q@;
            let u = q.pop_front().unwrap();
            inq[u] = false;
            proof {
                assert(u == q0[0]);
                assert forall|v: int| 0 <= v < n && #[trigger] inq@[v] implies q@.contains(v as usize) by {
                    assert(q0.contains(v as usize));
                    let k = choose|k: int| 0 <= k < q0.len() && q0[k] == v as usize;
                    assert(k != 0);
                    assert(q@[k - 1] == v as usize);
                }
                assert forall|k: int| 0 <= k < q@.len() implies (#[trigger] q@[k]) < n && self.pref@[q@[k] as int]
                    != usize::MAX by {
                    assert(q@[k] == q0[k + 1]);
                }
            }
            let deg = self.adj[u].len();
            let mut j: usize = 0;
            while j < deg
                invariant
                    self.wf(),
                    self.same_graph(old(self)),
                    self.pi == old(self).pi,
                    n == self.n,
                    s == 0,
                    t == 1,
                    a == self.edges@,
                    adj == self.adj@,
                    self.pref@.len() == n,
                    self.dist@.len() == n,
                    self.con@.len() == n,
                    inq@.len() == n,
                    cnt@.len() == n,
                    self.pref@[0] != usize::MAX,
                    u < n,
                    self.pref@[u as int] != usize::MAX,
                    deg == adj[u as int]@.len(),
                    j <= deg,
                    forall|v: int|
                        0 <= v < n ==> if #[trigger] self.pref@[v] == usize::MAX {
                            self.dist@[v] == INF
                        } else {
                            -INF < self.dist@[v] < INF
                        },
                    forall|k: int|
                        0 <= k < q@.len() ==> (#[trigger] q@[k]) < n && self.pref@[q@[k] as int] != usize::MAX,
                    forall|v: int| 0 <= v < n && #[trigger] inq@[v] ==> q@.contains(v as usize),
                    forall|v: int|
                        0 <= v < n && v != u && self.pref@[v] != usize::MAX && !(#[trigger] inq@[v])
                            ==> closed_upto(adj, a, self.pref@, self.dist@, v, adj[v]@.len() as int),
                    !inq@[u as int] ==> closed_upto(adj, a, self.pref@, self.dist@, u as int, j as int),
                    patience >= 1,
                    patience < usize::MAX ==> forall|v: int| 0 <= v < n ==> #[trigger] cnt@[v] < patience,
                    links_ok(a, self.pref@, self.con@),
                    stamp.len() == n,
                    tame(a, n as int, p, c) ==> docile(
                        a,
                        n as int,
                        p,
                        c,
                        self.pref@,
                        self.con@,
                        self.dist@,
                        stamp,
                        clock,
                        budget as int,
                    ),
                    budget < budget0 || (budget == budget0 && q@.len() == q0.len() - 1),
                decreases deg - j,
            {
                let id = self.adj[u][j];
                assert(id == adj[u as int]@[j as int]);
                let e = self.edges[id];
                let v = e.to;
                if e.f > 0 {
                    let nd: i128 = self.dist[u] as i128 + e.cost as i128;
                    if nd < self.dist[v] as i128 {
                        proof {
                            assert(a[mate(id as int)].to == u);
                            if tame(a, n as int, p, c) {
                                lemma_relax(
                                    a,
                                    n as int,
                                    p,
                                    c,
                                    self.pref@,
                                    self.con@,
                                    self.dist@,
                                    stamp,
                                    clock,
                                    budget as int,
                                    id,
                                );
                            }
                        }
                        if nd <= -(INF as i128) || budget == 0 {
                            return (Search::Aborted, Ghost(stamp));
                        }
                        let ghost pref0 = self.pref@;
                        let ghost dist0 = self.dist@;
                        let ghost q1 = q@;
                        let ghost inq0 = inq@;
                        self.dist[v] = nd as i64;
                        self.pref[v] = u;
                        self.con[v] = id;
                        budget = budget - 1;
                        proof {
                            stamp = stamp.update(v as int, clock + 1);
                            clock = clock + 1;
                        }
                        if patience < usize::MAX {
                            let drops = cnt[v] + 1;
                            cnt[v] = drops;
                            if drops >= patience {
                                return (Search::Cycle(v), Ghost(stamp));
                            }
                        }
                        if !inq[v] {
                            inq[v] = true;
                            q.push_back(v);
                            proof {
                                assert(q@[q1.len() as int] == v);
                                assert forall|x: int| 0 <= x < n && #[trigger] inq@[x] implies q@.contains(
                                    x as usize,
                                ) by {
                                    if x != v {
                                        assert(q1.contains(x as usize));
                                        let k = choose|k: int| 0 <= k < q1.len() && q1[k] == x as usize;
                                        assert(q@[k] == x as usize);
                                    }
                                }
                                assert forall|k: int| 0 <= k < q@.len() implies (#[trigger] q@[k]) < n
                                    && self.pref@[q@[k] as int] != usize::MAX by {
                                    if k < q1.len() {
                                        assert(q@[k] == q1[k]);
                                    }
                                }
                            }
                        }
                        proof {
                            assert forall|x: int|
                                0 <= x < n && x != u && self.pref@[x] != usize::MAX && !(#[trigger] inq@[x])
                                    implies closed_upto(
                                    adj,
                                    a,
                                    self.pref@,
                                    self.dist@,
                                    x,
                                    adj[x]@.len() as int,
                                ) by {
                                assert(x != v);
                                assert(!inq0[x]);
                                assert(pref0[x] != usize::MAX);
                                lemma_closed_mono(
                                    adj,
                                    a,
                                    pref0,
                                    dist0,
                                    self.pref@,
                                    self.dist@,
                                    x,
                                    adj[x]@.len() as int,
                                );
                            }
                            if !inq@[u as int] {
                                assert(u != v);
                                lemma_closed_mono(
                                    adj,
                                    a,
                                    pref0,
                                    dist0,
                                    self.pref@,
                                    self.dist@,
                                    u as int,
                                    j as int,
                                );
                            }
                        }
                    } else if self.dist[v] == INF {
                        proof {
                            assert(a[mate(id as int)].to == u);
                            if tame(a, n as int, p, c) {
                                lemma_in_range(
                                    a,
                                    n as int,
                                    p,
                                    c,
                                    self.pref@,
                                    self.con@,
                                    self.dist@,
                                    stamp,
                                    clock,
                                    budget as int,
                                    id as int,
                                );
                            }
                        }
                        return (Search::Aborted, Ghost(stamp));
                    }
                }
                j += 1;
            }
        }
        proof {
            let pref = self.pref@;
            let dist = self.dist@;
            assert forall|i: int|
                0 <= i < a.len() && a[i].f > 0 && pref[(#[trigger] a[mate(i)]).to as int]
                    != usize::MAX implies pref[a[i].to as int] != usize::MAX && dist[a[i].to as int]
                <= dist[a[mate(i)].to as int] + a[i].cost by {
                let x = a[mate(i)].to as int;
                assert(listed(adj, a, i));
                let k = choose|k: int| 0 <= k < adj[x]@.len() && #[trigger] adj[x]@[k] == i;
                assert(!inq@[x]) by {
                    if inq@[x] {
                        assert(q@.contains(x as usize));
                    }
                }
                assert(closed_upto(adj, a, pref, dist, x, adj[x]@.len() as int));
                assert(a[adj[x]@[k] as int].f > 0);
            }
            assert(self.settled());
            if tame(a, n as int, p, c) {
                lemma_settle(
                    a,
                    n as int,
                    p,
                    c,
                    self.pref@,
                    self.con@,
                    self.dist@,
                    stamp,
                    clock,
                    budget as int,
                );
            }
        }
        if self.pref[t] != usize::MAX {
            (Search::Found, Ghost(stamp))
        } else {
            proof {
                let pref = self.pref@;
                let side = Set::new(|v: int| 0 <= v < n && pref[v] != usize::MAX);
                assert forall|i: int|
                    0 <= i < a.len() && a[i].f > 0 && side.contains((#[trigger] a[mate(i)]).to as int)
                        implies side.contains(a[i].to as int) by {
                    assert(0 <= a[i].to < n);
                }
                assert(is_cut(a, side));
            }
            (Search::Unreachable, Ghost(stamp))
        }
    }

    /// Searches until the sink is reached or shown to be out of reach,
    /// cancelling each cycle of negative cost that a search runs into and
    /// starting over after it. A search raises its alarm at a node whose
    /// distance has dropped as often as there are nodes. Where an alarm was
    /// false, and no such cycle hangs behind the node, the next search
    /// waits for twice as many drops, and at last for none. Returns whether
    /// the sink was reached, and the stamps of the last search. Each
    /// cancelled cycle lowers the running cost, which bounds their number.
    /// On a tame network the searches do not give up.
    fn spfa_with_cycle_cancel(&mut self, Ghost(p): Ghost<Seq<int>>, Ghost(c): Ghost<int>) -> (r: (
        bool,
        Ghost<Seq<int>>,
    ))
        requires
            old(self).wf(),
        ensures
            final(self).wf(),
            final(self).order() == old(self).order(),
            same_network(old(self).arcs(), final(self).arcs()),
            final(self).flow_added() == old(self).flow_added(),
            excess(final(self).arcs(), 1) == excess(old(self).arcs(), 1),
            final(self).cost_added() - old(self).cost_added() == total_cost(final(self).arcs())
                - total_cost(old(self).arcs()),
            r.0 ==> !final(self).is_converged(),
            r.0 ==> final(self).settled() && final(self).pref@[1] != usize::MAX,
            final(self).is_converged() ==> saturated(final(self).arcs()),
            final(self).pi == old(self).pi,
            old(self).has_cancelled() ==> final(self).has_cancelled(),
            !final(self).has_cancelled() ==> final(self).edges@ == old(self).edges@,
            priced(old(self).arcs(), old(self).order()) ==> final(self).edges@ == old(self).edges@
                && final(self).has_cancelled() == old(self).has_cancelled(),
            tame(old(self).edges@, old(self).n as int, p, c) ==> r.0 || final(self).is_converged(),
            tame(old(self).edges@, old(self).n as int, p, c) && r.0 ==> final(self).sound(p, c, r.1@),
    {
        self.converged = false;
        let calls = self.n;
        let mut patience: usize = calls;
        proof {
            self.lemma_wf();
        }
        loop
            invariant
                self.wf(),
                calls == self.n,
                calls >= 1,
                patience >= 1,
                self.pi == old(self).pi,
                old(self).cancelled ==> self.cancelled,
                !self.cancelled ==> self.edges@ == old(self).edges@,
                priced(old(self).arcs(), old(self).order()) ==> self.edges@ == old(self).edges@
                    && self.cancelled == old(self).cancelled,
                self.order() == old(self).order(),
                same_network(old(self).arcs(), self.arcs()),
                self.flow_added() == old(self).flow_added(),
                excess(self.arcs(), 1) == excess(old(self).arcs(), 1),
                self.cost_added() - old(self).cost_added() == total_cost(self.arcs()) - total_cost(
                    old(self).arcs(),
                ),
                !self.converged,
                self.n == old(self).n,
                tame(old(self).edges@, old(self).n as int, p, c) ==> self.edges@ == old(self).edges@,
            decreases self.mincost - i64::MIN, usize::MAX - patience,
        {
            proof {
                if tame(self.edges@, self.n as int, p, c) {
                    assert(priced(self.edges@, self.n as int));
                }
            }
            let (outcome, stamp) = self.spfa(patience, Ghost(p), Ghost(c));
            match outcome {
                Search::Found => {
                    return (true, stamp);
                },
                Search::Unreachable => {
                    self.converged = true;
                    return (false, stamp);
                },
                Search::Aborted => {
                    return (false, stamp);
                },
                Search::Cycle(v) => {
                    let ghost mid = *self;
                    if self.cancel_negative_cycle(v) {
                        patience = calls;
                    } else if patience > usize::MAX / 2 {
                        patience = usize::MAX;
                    } else {
                        patience = patience * 2;
                    }
                    proof {
                        lemma_same_network_trans(old(self).arcs(), mid.arcs(), self.arcs());
                    }
                },
            }
        }
    }

    /// One search for shortest residual paths from the source under reduced
    /// costs, cost plus the potential of the tail minus that of the head,
    /// with a priority queue. It fills `dist`, `pref` and `con`, passes by
    /// nodes whose potential is the sentinel, and, where it reached the
    /// sink, turns the distances of the nodes it reached back into plain
    /// distances. It gives up when a node is settled a second time, which
    /// shows a reduced cost below nothing, or when a distance would leave
    /// the range of the sentinel. Under gentle potentials it does not give
    /// up. Where it passes no node by, a search that reached the sink has
    /// settled, and one that did not leaves a saturated cut.
    fn dijkstra(&mut self, Ghost(c): Ghost<int>) -> (r: Search)
        requires
            old(self).wf(),
            old(self).pi@.len() == old(self).n,
        ensures
            final(self).wf(),
            final(self).same_graph(old(self)),
            final(self).pi == old(self).pi,
            !(r is Cycle),
            saturated(final(self).edges@) ==> !(r is Found),
            r is Found ==> final(self).pref@.len() == final(self).n && final(self).pref@[1] != usize::MAX,
            final(self).pref@.len() == final(self).con@.len(),
            links_ok(final(self).edges@, final(self).pref@, final(self).con@),
            r is Found && all_priced(old(self).pi@) ==> final(self).settled(),
            r is Unreachable && all_priced(old(self).pi@) ==> saturated(final(self).edges@),
            gentle(old(self).edges@, old(self).n as int, old(self).pi@, c) ==> !(r is Aborted),
    {
        let n = self.adj.len();
        let s = self.s;
        let t = self.t;
        self.pref = vec![usize::MAX; n];
        self.dist = vec![INF; n];
        if self.con.len() != n {
            self.con = vec![0usize; n];
        }
        let mut done: Vec<bool> = vec![false; n];
        let mut heap = MinHeap::new();
        self.dist[s] = 0;
        self.pref[s] = s;
        heap.push((0, s));
        let ghost a = self.edges@;
        let ghost adj = self.adj@;
        let ghost pi = self.pi@;
        let ghost side = if saturated(a) {
            choose|side: Set<int>| is_cut(a, side)
        } else {
            Set::<int>::empty()
        };
        let ghost calm = gentle(a, n as int, pi, c);
        let ghost mut low: int = 0;
        proof {
            if calm {
                lemma_gentle_priced(a, n as int, pi, c);
                lemma_reduced_start(n as int, c, self.pref@, self.dist@, done@, heap.content());
            }
            assert(heap.content().count((0i64, 0usize)) > 0);
            lemma_tend_start(adj, a, pi, self.pref@, self.dist@, done@, heap.content());
        }
        loop
            invariant
                self.wf(),
                self.same_graph(old(self)),
                self.pi == old(self).pi,
                n == self.n,
                s == 0,
                t == 1,
                a == self.edges@,
                adj == self.adj@,
                pi == self.pi@,
                self.pref@.len() == n,
                self.dist@.len() == n,
                self.con@.len() == n,
                self.pi@.len() == n,
                done@.len() == n,
                heap.wf(),
                self.pref@[0] != usize::MAX,
                forall|v: int|
                    0 <= v < n ==> if #[trigger] self.pref@[v] == usize::MAX {
                        self.dist@[v] == INF
                    } else {
                        -INF < self.dist@[v] < INF
                    },
                forall|x: (i64, usize)| heap.content().count(x) > 0 ==> x.1 < n,
                saturated(a) ==> is_cut(a, side),
                saturated(a) ==> forall|v: int|
                    0 <= v < n && #[trigger] self.pref@[v] != usize::MAX ==> side.contains(v),
                links_ok(a, self.pref@, self.con@),
                tended(adj, a, pi, self.pref@, self.dist@, done@, heap.content(), -1),
                calm == gentle(a, n as int, pi, c),
                calm ==> orderly(n as int, c, self.pref@, self.dist@, done@, heap.content(), low),
            ensures
                heap.content().len() == 0,
            decreases n - lit(done@), heap.content().len(),
        {
            let ghost heap0 = heap.content();
            proof {
                lemma_lit_bound(done@);
            }
            let (d, u) = match heap.pop() {
                Some(x) => x,
                None => {
                    break ;
                },
            };
            proof {
                if calm {
                    lemma_reduced_pop(n as int, c, self.pref@, self.dist@, done@, heap0, low, (d, u));
                }
                low = d as int;
            }
            if d != self.dist[u] || self.pref[u] == usize::MAX {
                proof {
                    lemma_tend_stale(adj, a, pi, self.pref@, self.dist@, done@, heap0, (d, u));
                }
                continue ;
            }
            if done[u] {
                return Search::Aborted;
            }
            proof {
                lemma_lit_set(done@, u as int);
                lemma_tend_take(adj, a, pi, self.pref@, self.dist@, done@, heap0, u);
            }
            let ghost lit0 = lit(done@);
            done[u] = true;
            let deg = self.adj[u].len();
            let mut j: usize = 0;
            while j < deg
                invariant
                    self.wf(),
                    self.same_graph(old(self)),
                    self.pi == old(self).pi,
                    n == self.n,
                    s == 0,
                    t == 1,
                    a == self.edges@,
                    adj == self.adj@,
                    pi == self.pi@,
                    self.pref@.len() == n,
                    self.dist@.len() == n,
                    self.con@.len() == n,
                    self.pi@.len() == n,
                    done@.len() == n,
                    done@[u as int],
                    heap.wf(),
                    self.pref@[0] != usize::MAX,
                    forall|v: int|
                        0 <= v < n ==> if #[trigger] self.pref@[v] == usize::MAX {
                            self.dist@[v] == INF
                        } else {
                            -INF < self.dist@[v] < INF
                        },
                    forall|x: (i64, usize)| heap.content().count(x) > 0 ==> x.1 < n,
                    saturated(a) ==> is_cut(a, side),
                    saturated(a) ==> forall|v: int|
                        0 <= v < n && #[trigger] self.pref@[v] != usize::MAX ==> side.contains(v),
                    links_ok(a, self.pref@, self.con@),
                    u < n,
                    self.pref@[u as int] != usize::MAX,
                    -INF < d < INF,
                    deg == adj[u as int]@.len(),
                    j <= deg,
                    tended(adj, a, pi, self.pref@, self.dist@, done@, heap.content(), u as int),
                    own(adj, a, pi, self.pref@, self.dist@, heap.content(), u as int, d as int, j as int),
                    lit(done@) == lit0 + 1,
                    lit0 < n,
                    calm == gentle(a, n as int, pi, c),
                    calm ==> orderly(n as int, c, self.pref@, self.dist@, done@, heap.content(), low),
                    calm ==> self.dist@[u as int] == d && low == d,
                decreases deg - j,
            {
                let id = self.adj[u][j];
                assert(id == adj[u as int]@[j as int]);
                let e = self.edges[id];
                let v = e.to;
                proof {
                    assert(a[mate(id as int)].to == u);
                }
                let ghost pref0 = self.pref@;
                let ghost dist0 = self.dist@;
                let ghost heap1 = heap.content();
                if e.f > 0 && self.pi[u] != INF && self.pi[v] != INF {
                    let nd: i128 = d as i128 + (e.cost as i128 - self.pi[v] as i128 + self.pi[u] as i128);
                    proof {
                        assert(nd == d + reduced_cost(a, pi, id as int));
                        if calm {
                            lemma_reduced_relax(
                                a,
                                n as int,
                                pi,
                                c,
                                self.pref@,
                                self.dist@,
                                done@,
                                heap.content(),
                                low,
                                id,
                            );
                        }
                    }
                    if nd < self.dist[v] as i128 {
                        if nd <= -(INF as i128) {
                            return Search::Aborted;
                        }
                        self.dist[v] = nd as i64;
                        self.pref[v] = u;
                        self.con[v] = id;
                        heap.push((nd as i64, v));
                        proof {
                            if calm {
                                assert(!done@[v as int]);
                                assert(v != u);
                            }
                            lemma_tend_relax(
                                adj,
                                a,
                                n as int,
                                pi,
                                pref0,
                                dist0,
                                done@,
                                heap1,
                                u,
                                d as int,
                                j as int,
                                nd as i64,
                            );
                        }
                    } else if self.dist[v] == INF {
                        return Search::Aborted;
                    } else {
                        proof {
                            lemma_tend_pass(adj, a, pi, pref0, dist0, heap1, u, d as int, j as int);
                        }
                    }
                } else {
                    proof {
                        lemma_tend_pass(adj, a, pi, pref0, dist0, heap1, u, d as int, j as int);
                    }
                }
                j += 1;
            }
            proof {
                lemma_tend_close(adj, a, pi, self.pref@, self.dist@, done@, heap.content(), u, d as int);
            }
        }
        if self.pref[t] == usize::MAX {
            proof {
                if all_priced(pi) {
                    lemma_tend_cut(adj, a, n as int, pi, self.pref@, self.dist@, done@, heap.content());
                }
            }
            return Search::Unreachable;
        }
        let ghost red = self.dist@;
        let ghost cover = heap.content();
        proof {
            if calm {
                lemma_gentle_priced(a, n as int, pi, c);
                lemma_orderly_range(n as int, c, self.pref@, red, done@, cover, low);
            }
        }
        let mut i: usize = 0;
        while i < n
            invariant
                self.wf(),
                self.same_graph(old(self)),
                self.pi == old(self).pi,
                n == self.n,
                s == 0,
                i <= n,
                pi == self.pi@,
                self.pref@.len() == n,
                self.dist@.len() == n,
                self.pi@.len() == n,
                red.len() == n,
                self.pref@[0] != usize::MAX,
                self.pref@[1] != usize::MAX,
                saturated(a) ==> is_cut(a, side),
                saturated(a) ==> side.contains(1),
                a == self.edges@,
                self.con@.len() == n,
                links_ok(a, self.pref@, self.con@),
                forall|v: int|
                    0 <= v < i && #[trigger] self.pref@[v] != usize::MAX ==> self.dist@[v] == red[v] - pi[0]
                        + pi[v] && -INF < self.dist@[v] < INF,
                forall|v: int| i <= v < n ==> #[trigger] self.dist@[v] == red[v],
                adj == self.adj@,
                cover.len() == 0,
                tended(adj, a, pi, self.pref@, red, done@, cover, -1),
                calm == gentle(a, n as int, pi, c),
                calm ==> forall|v: int|
                    0 <= v < n && #[trigger] self.pref@[v] != usize::MAX ==> 0 <= red[v] <= (n - 1) * c,
            decreases n - i,
        {
            if self.pref[i] != usize::MAX {
                let x: i128 = self.dist[i] as i128 - (self.pi[s] as i128 - self.pi[i] as i128);
                proof {
                    if calm {
                        lemma_gentle_plain(a, n as int, pi, c, red[i as int] as int, i as int);
                    }
                }
                if -(INF as i128) < x && x < INF as i128 {
                    self.dist[i] = x as i64;
                } else {
                    return Search::Aborted;
                }
            }
            i += 1;
        }
        proof {
            if all_priced(pi) {
                lemma_tend_settled(adj, a, n as int, pi, self.pref@, red, self.dist@, done@, cover);
                assert(self.settled());
            }
        }
        Search::Found
    }

    /// Solves from scratch on the residuals as they stand: resets the
    /// counters and the potentials, then augments as `update_flow` does.
    /// Returns the cost and the value of the flow that this call added.
    /// Where potentials price the flow at the start, no cycle is cancelled,
    /// and a call that adds no flow adds no cost and leaves every arc as it
    /// was; with the sink out of reach it therefore returns `(0, 0)`. On a
    /// calm network the solve ends with the sink out of reach, so that the
    /// flow is a maximum flow, and a cheapest one.
    pub fn mincostflow(&mut self) -> (r: (i64, i64))
        requires
            old(self).wf(),
        ensures
            final(self).wf(),
            final(self).order() == old(self).order(),
            same_network(old(self).arcs(), final(self).arcs()),
            r.0 == final(self).cost_added(),
            r.1 == final(self).flow_added(),
            r.0 == total_cost(final(self).arcs()) - total_cost(old(self).arcs()),
            r.1 == excess(final(self).arcs(), 1) - excess(old(self).arcs(), 1),
            r.1 >= 0,
            final(self).is_converged() ==> saturated(final(self).arcs()),
            priced(old(self).arcs(), old(self).order()) ==> {
                &&& !final(self).has_cancelled()
                &&& final(self).is_converged() ==> priced(final(self).arcs(), final(self).order())
                &&& r.1 == 0 ==> r.0 == 0 && final(self).arcs() == old(self).arcs()
                &&& saturated(old(self).arcs()) ==> r.1 == 0
            },
            calm(old(self).arcs(), old(self).order(), 0, 0) ==> {
                &&& final(self).is_converged()
                &&& saturated(final(self).arcs())
                &&& priced(final(self).arcs(), final(self).order())
            },
            total_cost(old(self).arcs()) == 0 && excess(old(self).arcs(), 1) == 0 ==> final(self).booked(),
    {
        let n = self.adj.len();
        self.con = vec![0usize; n];
        self.pi = vec![0i64; n];
        self.maxflow = 0;
        self.mincost = 0;
        self.cancelled = false;
        let r = self.update_flow();
        proof {
            if saturated(old(self).edges@) {
                lemma_saturated_is_maximum(old(self).edges@, self.edges@, n as int);
            }
            if calm(old(self).edges@, n as int, 0, 0) {
                lemma_calm_priced(old(self).edges@, n as int, 0, 0);
            }
        }
        r
    }

    /// Augments until no residual path is left, keeping the counters and the
    /// potentials of earlier calls, so that a network that grew since the
    /// last solve is solved on from where that one stopped. First phase:
    /// searches that tolerate negative costs, with cycle cancelling, each
    /// followed by an augmentation, until such a search finds the sink out of
    /// reach. Second phase: searches under reduced costs, each followed by an
    /// augmentation, until one does not reach the sink. Returns the running
    /// cost and flow value. Where the network and the counters are calm at
    /// the start, the first phase ends with the sink out of reach.
    pub fn update_flow(&mut self) -> (r: (i64, i64))
        requires
            old(self).wf(),
        ensures
            final(self).wf(),
            final(self).order() == old(self).order(),
            same_network(old(self).arcs(), final(self).arcs()),
            r.0 == final(self).cost_added(),
            r.1 == final(self).flow_added(),
            final(self).cost_added() - old(self).cost_added() == total_cost(final(self).arcs())
                - total_cost(old(self).arcs()),
            final(self).flow_added() - old(self).flow_added() == excess(final(self).arcs(), 1)
                - excess(old(self).arcs(), 1),
            final(self).flow_added() >= old(self).flow_added(),
            final(self).is_converged() ==> saturated(final(self).arcs()),
            old(self).has_cancelled() ==> final(self).has_cancelled(),
            priced(old(self).arcs(), old(self).order()) ==> {
                &&& final(self).has_cancelled() == old(self).has_cancelled()
                &&& final(self).is_converged() ==> priced(final(self).arcs(), final(self).order())
                &&& final(self).flow_added() == old(self).flow_added() ==> final(self).arcs()
                    == old(self).arcs()
            },
            calm(old(self).arcs(), old(self).order(), old(self).flow_added(), old(self).cost_added())
                ==> {
                &&& final(self).is_converged()
                &&& saturated(final(self).arcs())
                &&& priced(final(self).arcs(), final(self).order())
            },
            old(self).booked() ==> final(self).booked(),
    {
        let n = self.adj.len();
        if self.con.len() != n {
            self.con.resize(n, 0);
        }
        if self.pi.len() != n {
            self.pi.resize(n, 0);
        }
        self.converged = false;
        proof {
            if calm(old(self).edges@, n as int, old(self).maxflow as int, old(self).mincost as int) {
                lemma_calm_priced(
                    old(self).edges@,
                    n as int,
                    old(self).maxflow as int,
                    old(self).mincost as int,
                );
            }
        }
        let ghost was_priced = priced(old(self).edges@, n as int);
        let ghost easy = calm(
            old(self).edges@,
            n as int,
            old(self).maxflow as int,
            old(self).mincost as int,
        );
        let ghost (start, c) = if easy {
            choose|p: Seq<int>, c: int| #[trigger]
                tame(old(self).edges@, n as int, p, c) && affordable(
                    old(self).edges@,
                    n as int,
                    c,
                    old(self).maxflow as int,
                    old(self).mincost as int,
                )
        } else if was_priced {
            (choose|p: Seq<int>| p.len() == n && potentials_valid(old(self).edges@, p), 0int)
        } else {
            (Seq::empty(), 0int)
        };
        let ghost mut p: Seq<int> = start;
        proof {
            lemma_same_network_refl(self.edges@);
        }
        let mut live = true;
        while live
            invariant
                self.wf(),
                self.order() == old(self).order(),
                n == self.n,
                self.pi@.len() == n,
                same_network(old(self).arcs(), self.arcs()),
                self.cost_added() - old(self).cost_added() == total_cost(self.arcs()) - total_cost(
                    old(self).arcs(),
                ),
                self.flow_added() - old(self).flow_added() == excess(self.arcs(), 1) - excess(
                    old(self).arcs(),
                    1,
                ),
                self.flow_added() >= old(self).flow_added(),
                live ==> !self.converged,
                self.converged ==> saturated(self.arcs()),
                old(self).cancelled ==> self.cancelled,
                was_priced ==> p.len() == n && potentials_valid(self.edges@, p),
                was_priced ==> self.cancelled == old(self).cancelled,
                was_priced && self.maxflow == old(self).maxflow ==> self.edges@ == old(self).edges@,
                easy ==> tame(self.edges@, n as int, p, c) && affordable(
                    self.edges@,
                    n as int,
                    c,
                    self.maxflow as int,
                    self.mincost as int,
                ),
                easy ==> live || self.converged,
            decreases i64::MAX - self.maxflow, live as int,
        {
            let ghost before = *self;
            let (found, Ghost(stamp)) = self.spfa_with_cycle_cancel(Ghost(p), Ghost(c));
            if found {
                let ghost mid = *self;
                let (ok, Ghost(q)) = self.extend(true, Ghost(p), Ghost(c), Ghost(stamp));
                if !ok {
                    live = false;
                }
                proof {
                    lemma_same_network_trans(before.arcs(), mid.arcs(), self.arcs());
                    p = q;
                }
            } else {
                live = false;
            }
            proof {
                lemma_same_network_trans(old(self).arcs(), before.arcs(), self.arcs());
            }
        }
        let mut live = true;
        while live
            invariant
                self.wf(),
                self.order() == old(self).order(),
                n == self.n,
                self.pi@.len() == n,
                same_network(old(self).arcs(), self.arcs()),
                self.cost_added() - old(self).cost_added() == total_cost(self.arcs()) - total_cost(
                    old(self).arcs(),
                ),
                self.flow_added() - old(self).flow_added() == excess(self.arcs(), 1) - excess(
                    old(self).arcs(),
                    1,
                ),
                self.flow_added() >= old(self).flow_added(),
                self.converged ==> saturated(self.arcs()),
                old(self).cancelled ==> self.cancelled,
                self.converged && was_priced ==> p.len() == n && potentials_valid(self.edges@, p),
                was_priced ==> self.cancelled == old(self).cancelled,
                was_priced && self.maxflow == old(self).maxflow ==> self.edges@ == old(self).edges@,
                easy ==> self.converged,
            decreases i64::MAX - self.maxflow, live as int,
        {
            let ghost before = *self;
            let outcome = self.dijkstra(Ghost(c));
            if let Search::Found = outcome {
                let (ok, _) = self.extend(false, Ghost(p), Ghost(0), Ghost(Seq::empty()));
                if !ok {
                    live = false;
                }
                proof {
                    lemma_same_network_trans(old(self).arcs(), before.arcs(), self.arcs());
                }
            } else {
                live = false;
            }
        }
        (self.mincost, self.maxflow)
    }

    /// Follows the predecessor links of the last search from `start`, one arc
    /// per step. With `around` unset it stops at a node that is its own
    /// predecessor; with `around` set it stops on coming back to `start`.
    /// Returns `None` when a link is out of range, an arc does not run from
    /// the predecessor to the node, an arc has no residual capacity, or a node
    /// comes up twice; with `tight` set also when the distance of a node is
    /// not the distance of its predecessor plus the cost of the arc.
    fn trace(
        &self,
        start: usize,
        around: bool,
        tight: bool,
        Ghost(stamp): Ghost<Seq<int>>,
        Ghost(want): Ghost<(Seq<usize>, Seq<int>)>,
    ) -> (r: Option<Trail>)
        requires
            self.wf(),
            start < self.n,
        ensures
            around && !tight && self.pref@.len() == self.n && self.con@.len() == self.n && closes(
                self.edges@,
                self.pref@,
                self.con@,
                want.0,
                want.1,
                start as int,
            ) ==> (r matches Some(tr) && tr.arcs@ == want.0 && tr.nodes@ == want.1),
            !around && tight && rooted(
                self.edges@,
                self.n as int,
                self.pref@,
                self.con@,
                self.dist@,
                stamp,
            ) && self.pref@[start as int] != usize::MAX ==> (r matches Some(tr) && tr.end == 0),
            match r {
                Some(tr) => {
                    &&& self.pref@.len() == self.n
                    &&& self.con@.len() == self.n
                    &&& is_trail(self.edges@, tr.arcs@, tr.nodes@)
                    &&& tr.nodes@[0] == start
                    &&& tr.nodes@[tr.arcs@.len() as int] == tr.end
                    &&& tr.end < self.n
                    &&& around ==> tr.end == start && tr.arcs@.len() > 0
                    &&& around ==> closes(
                        self.edges@,
                        self.pref@,
                        self.con@,
                        tr.arcs@,
                        tr.nodes@,
                        start as int,
                    )
                    &&& 0 < tr.bottleneck <= INF
                    &&& tr.bottleneck == least_residual(self.edges@, tr.arcs@, tr.arcs@.len() as int)
                    &&& forall|i: int|
                        0 <= i < tr.arcs@.len() ==> self.edges@[#[trigger] tr.arcs@[i] as int].f
                            >= tr.bottleneck
                    &&& tr.cost == trail_cost(self.edges@, tr.arcs@, tr.arcs@.len() as int)
                    &&& tight ==> self.dist@.len() == self.n && distances_tight(
                        self.edges@,
                        tr.arcs@,
                        tr.nodes@,
                        self.pref@,
                        self.dist@,
                    )
                    &&& !around ==> self.pref@[tr.end as int] == tr.end
                },
                None => true,
            },
    {
        let n = self.n;
        let ghost a = self.edges@;
        let ghost good = !around && tight && rooted(
            a,
            n as int,
            self.pref@,
            self.con@,
            self.dist@,
            stamp,
        ) && self.pref@[start as int] != usize::MAX;
        let ghost fine = around && !tight && self.pref@.len() == n && self.con@.len() == n && closes(
            a,
            self.pref@,
            self.con@,
            want.0,
            want.1,
            start as int,
        );
        proof {
            if fine {
                assert(link_at(a, self.pref@, self.con@, want.0, want.1, 0));
            }
        }
        if self.pref.len() != n || self.con.len() != n || (tight && self.dist.len() != n) {
            return None;
        }
        let mut seen: Vec<bool> = vec![false; n];
        let mut path: Vec<usize> = Vec::new();
        let ghost mut nodes: Seq<int> = seq![start as int];
        let mut u: usize = start;
        let mut w: i64 = INF;
        let mut pc: i128 = 0;
        loop
            invariant_except_break
                fine ==> path@.len() < want.0.len(),
            invariant
                self.wf(),
                n == self.n,
                a == self.edges@,
                self.pref@.len() == n,
                self.con@.len() == n,
                seen@.len() == n,
                u < n,
                start < n,
                path@.len() <= n,
                nodes.len() == path@.len() + 1,
                nodes[0] == start,
                nodes[path@.len() as int] == u,
                forall|i: int|
                    0 <= i < path@.len() ==> {
                        &&& 0 <= (#[trigger] path@[i]) < a.len()
                        &&& a[path@[i] as int].to == nodes[i]
                        &&& a[mate(path@[i] as int)].to == nodes[i + 1]
                        &&& a[path@[i] as int].f >= w
                    },
                forall|i: int| 0 <= i < path@.len() ==> 0 <= #[trigger] nodes[i] < n && seen@[nodes[i]],
                forall|i: int, j: int|
                    0 <= i < j < path@.len() ==> #[trigger] nodes[i] != #[trigger] nodes[j],
                0 < w <= INF,
                pc == trail_cost(a, path@, path@.len() as int),
                -(path@.len() * 0x8000_0000_0000_0000) <= pc <= path@.len() * 0x8000_0000_0000_0000,
                tight ==> self.dist@.len() == n && distances_tight(
                    a,
                    path@,
                    nodes,
                    self.pref@,
                    self.dist@,
                ),
                good == (!around && tight && rooted(a, n as int, self.pref@, self.con@, self.dist@, stamp)
                    && self.pref@[start as int] != usize::MAX),
                good ==> self.pref@[u as int] != usize::MAX,
                good ==> forall|x: int| 0 <= x < n && #[trigger] seen@[x] ==> stamp[x] > stamp[u as int],
                w == least_residual(a, path@, path@.len() as int),
                forall|i: int|
                    0 <= i < path@.len() ==> #[trigger] link_at(a, self.pref@, self.con@, path@, nodes, i),
                fine == (around && !tight && self.pref@.len() == n && self.con@.len() == n && closes(
                    a,
                    self.pref@,
                    self.con@,
                    want.0,
                    want.1,
                    start as int,
                )),
                forall|x: int|
                    0 <= x < n && #[trigger] seen@[x] ==> nodes.take(path@.len() as int).contains(x),
                fine ==> forall|i: int| 0 <= i < path@.len() ==> #[trigger] path@[i] == want.0[i],
                fine ==> forall|i: int| 0 <= i <= path@.len() ==> #[trigger] nodes[i] == want.1[i],
            ensures
                is_trail(a, path@, nodes),
                around ==> u == start && path@.len() > 0,
                !around ==> self.pref@[u as int] == u,
                good ==> u == 0,
                w == least_residual(a, path@, path@.len() as int),
                forall|i: int|
                    0 <= i < path@.len() ==> #[trigger] link_at(a, self.pref@, self.con@, path@, nodes, i),
                fine ==> path@ == want.0 && nodes == want.1,
            decreases n - path@.len(),
        {
            proof {
                if fine {
                    let k = path@.len() as int;
                    let heads = want.1.take(want.0.len() as int);
                    assert forall|i: int| 0 <= i < heads.len() implies 0 <= #[trigger] heads[i] < n by {
                        assert(link_at(a, self.pref@, self.con@, want.0, want.1, i));
                    }
                    lemma_distinct_bound(heads, n as int);
                    assert(link_at(a, self.pref@, self.con@, want.0, want.1, k));
                    assert(nodes[k] == want.1[k]);
                    if k + 1 < want.0.len() {
                        assert(link_at(a, self.pref@, self.con@, want.0, want.1, k + 1));
                    }
                    assert(0 <= mate(want.0[k] as int) < a.len());
                    if seen@[u as int] {
                        let i = choose|i: int|
                            0 <= i < nodes.take(k).len() && nodes.take(k)[i] == u as int;
                        assert(nodes[i] == want.1[i]);
                        assert(heads[i] != heads[k]);
                    }
                }
            }
            proof {
                if good && u != 0 {
                    assert(climbs(a, self.pref@, self.con@, self.dist@, stamp, u as int));
                    assert forall|i: int, j: int| 0 <= i < j < nodes.len() implies #[trigger] nodes[i]
                        != #[trigger] nodes[j] by {
                        if j == path@.len() {
                            assert(seen@[nodes[i]]);
                        }
                    }
                    lemma_distinct_bound(nodes, n as int);
                }
            }
            if !around && self.pref[u] == u {
                break ;
            }
            if path.len() >= n {
                return None;
            }
            let p = self.pref[u];
            let id = self.con[u];
            if p >= n || id >= self.edges.len() {
                return None;
            }
            let e = self.edges[id];
            let r = partner(id);
            if e.to != u || self.edges[r].to != p || e.f <= 0 || seen[u] {
                return None;
            }
            if tight && self.dist[u] as i128 != self.dist[p] as i128 + e.cost as i128 {
                return None;
            }
            seen[u] = true;
            let ghost old_path = path@;
            let ghost old_nodes = nodes;
            let ghost u0 = u;
            path.push(id);
            proof {
                nodes = nodes.push(p as int);
            }
            if e.f < w {
                w = e.f;
            }
            pc = pc + e.cost as i128;
            u = p;
            proof {
                let len = old_path.len() as int;
                assert forall|i: int| 0 <= i < path@.len() implies {
                    &&& 0 <= (#[trigger] path@[i]) < a.len()
                    &&& a[path@[i] as int].to == nodes[i]
                    &&& a[mate(path@[i] as int)].to == nodes[i + 1]
                    &&& a[path@[i] as int].f >= w
                } by {
                    if i < len {
                        assert(path@[i] == old_path[i]);
                        assert(nodes[i] == old_nodes[i]);
                        assert(nodes[i + 1] == old_nodes[i + 1]);
                    }
                }
                assert forall|i: int| 0 <= i < path@.len() implies 0 <= #[trigger] nodes[i] < n
                    && seen@[nodes[i]] by {
                    if i < len {
                        assert(nodes[i] == old_nodes[i]);
                    }
                }
                assert forall|i: int, j: int| 0 <= i < j < path@.len() implies #[trigger] nodes[i]
                    != #[trigger] nodes[j] by {
                    assert(nodes[i] == old_nodes[i]);
                    assert(nodes[j] == old_nodes[j]);
                }
                assert(trail_cost(a, path@, len + 1) == trail_cost(a, path@, len) + a[path@[len] as int].cost);
                lemma_trail_cost_prefix(a, old_path, path@, len);
                if tight {
                    lemma_tight_push(a, old_path, old_nodes, self.pref@, self.dist@, id, p as int);
                    assert(path@ == old_path.push(id));
                }
            }
            proof {
                if good {
                    assert forall|x: int| 0 <= x < n && #[trigger] seen@[x] implies stamp[x] > stamp[u as int] by {
                        if x != u0 {
                            assert(stamp[x] > stamp[u0 as int]);
                        }
                    }
                }
                let len = old_path.len() as int;
                assert(least_residual(a, path@, len + 1) == w) by {
                    lemma_least_prefix(a, old_path, path@, len);
                }
                assert forall|x: int| 0 <= x < n && #[trigger] seen@[x] implies nodes.take(
                    path@.len() as int,
                ).contains(x) by {
                    if x == u0 {
                        assert(nodes.take(len + 1)[len] == x);
                    } else {
                        let i = choose|i: int|
                            0 <= i < old_nodes.take(len).len() && old_nodes.take(len)[i] == x;
                        assert(nodes.take(len + 1)[i] == x);
                    }
                }
                assert forall|i: int| 0 <= i < path@.len() implies #[trigger] link_at(
                    a,
                    self.pref@,
                    self.con@,
                    path@,
                    nodes,
                    i,
                ) by {
                    if i < len {
                        assert(link_at(a, self.pref@, self.con@, old_path, old_nodes, i));
                        assert(path@[i] == old_path[i]);
                        assert(nodes[i] == old_nodes[i]);
                        assert(nodes[i + 1] == old_nodes[i + 1]);
                    }
                }
                if fine {
                    assert(link_at(a, self.pref@, self.con@, want.0, want.1, len));
                    assert forall|i: int| 0 <= i < path@.len() implies #[trigger] path@[i] == want.0[i] by {
                        if i < len {
                            assert(old_path[i] == want.0[i]);
                        }
                    }
                    assert forall|i: int| 0 <= i <= path@.len() implies #[trigger] nodes[i] == want.1[i] by {
                        if i <= len {
                            assert(old_nodes[i] == want.1[i]);
                        }
                    }
                    if len + 1 < want.0.len() {
                        assert(want.1[0] != want.1[len + 1]);
                    } else {
                        assert(path@ =~= want.0);
                        assert(nodes =~= want.1);
                    }
                }
            }
            if around && u == start {
                break ;
            }
        }
        Some(Trail { arcs: path, bottleneck: w, cost: pc, nodes: Ghost(nodes), end: u })
    }

    /// Sends `tr.bottleneck` units along the trail and books its cost.
    /// Returns `false`, and changes nothing, when the cost of the trail is
    /// outside the sentinel's range or a counter would leave 64 bits.
    fn apply(&mut self, tr: &Trail, gain: i64, Ghost(q): Ghost<Seq<int>>) -> (ok: bool)
        requires
            old(self).wf(),
            is_trail(old(self).edges@, tr.arcs@, tr.nodes@),
            0 < tr.bottleneck <= INF,
            forall|i: int|
                0 <= i < tr.arcs@.len() ==> old(self).edges@[#[trigger] tr.arcs@[i] as int].f
                    >= tr.bottleneck,
            tr.cost == trail_cost(old(self).edges@, tr.arcs@, tr.arcs@.len() as int),
            gain == 0 || gain == tr.bottleneck,
            gain == 0 ==> tr.nodes@[0] == tr.nodes@[tr.arcs@.len() as int],
            gain != 0 ==> tr.nodes@[0] == 1 && tr.nodes@[tr.arcs@.len() as int] == 0,
        ensures
            final(self).wf(),
            final(self).order() == old(self).order(),
            same_network(old(self).arcs(), final(self).arcs()),
            final(self).is_converged() == old(self).is_converged(),
            final(self).pref == old(self).pref,
            final(self).con == old(self).con,
            final(self).dist == old(self).dist,
            final(self).pi == old(self).pi,
            final(self).cancelled == old(self).cancelled,
            trail_tight(old(self).edges@, tr.arcs@, tr.nodes@, q) && potentials_valid(
                old(self).edges@,
                q,
            ) ==> potentials_valid(final(self).edges@, q),
            final(self).flow_added() - old(self).flow_added() == excess(final(self).arcs(), 1)
                - excess(old(self).arcs(), 1),
            final(self).cost_added() - old(self).cost_added() == total_cost(final(self).arcs())
                - total_cost(old(self).arcs()),
            ok ==> final(self).flow_added() == old(self).flow_added() + gain,
            ok ==> final(self).cost_added() == old(self).cost_added() + tr.cost * tr.bottleneck,
            !ok ==> *final(self) == *old(self),
            ok == (-INF < tr.cost < INF && i64::MIN <= old(self).cost_added() + tr.cost * tr.bottleneck
                <= i64::MAX && old(self).flow_added() + gain <= i64::MAX),
            ok ==> final(self).edges@ == pushed_along(
                old(self).edges@,
                tr.arcs@,
                tr.bottleneck as int,
                tr.arcs@.len() as int,
            ),
    {
        let ghost a = self.edges@;
        let w = tr.bottleneck;
        let pc = tr.cost;
        if pc >= INF as i128 || pc <= -(INF as i128) {
            return false;
        }
        assert(-0x100_0000_0000_0000_0000_0000_0000_0000 <= pc * w
            <= 0x100_0000_0000_0000_0000_0000_0000_0000) by (nonlinear_arith)
            requires
                -0x1000_0000_0000_0000 < pc < 0x1000_0000_0000_0000,
                0 < w <= 0x1000_0000_0000_0000,
        ;
        let new_cost: i128 = self.mincost as i128 + pc * (w as i128);
        if new_cost > i64::MAX as i128 || new_cost < i64::MIN as i128 || self.maxflow > i64::MAX
            - gain {
            return false;
        }
        self.push_along(&tr.arcs, w, Ghost(tr.nodes@), Ghost(q));
        self.maxflow = self.maxflow + gain;
        self.mincost = new_cost as i64;
        proof {
            let b = self.edges@;
            assert(w * pc == pc * w) by (nonlinear_arith);
            assert forall|v: int| 2 <= v < self.n implies #[trigger] excess(b, v) == 0 by {
                assert(excess(a, v) == 0);
            }
            assert(excess(b, 1) == excess(a, 1) + gain);
        }
        true
    }

    /// Augments along the path that the predecessor links of the last search
    /// describe from the sink back to the source: finds its bottleneck, sends
    /// that much flow along it and adds the path's cost times the bottleneck
    /// to the running cost, then raises the potentials. Returns `false`, and
    /// changes no arc, when the links do not describe a simple path of arcs
    /// with residual capacity from source to sink, when `exact` is set and
    /// the distances along the path are not those of a shortest path, or when
    /// a counter would leave the range of 64 bits. With `exact` set, after a
    /// search that has settled, potentials that price the flow are turned
    /// into potentials that price the flow after the augmentation.
    fn extend(
        &mut self,
        exact: bool,
        Ghost(p): Ghost<Seq<int>>,
        Ghost(c): Ghost<int>,
        Ghost(stamp): Ghost<Seq<int>>,
    ) -> (r: (bool, Ghost<Seq<int>>))
        requires
            old(self).wf(),
        ensures
            exact && old(self).settled() && tame(old(self).edges@, old(self).n as int, p, c)
                && old(self).sound(p, c, stamp) && old(self).pref@[1] != usize::MAX && affordable(
                old(self).edges@,
                old(self).n as int,
                c,
                old(self).maxflow as int,
                old(self).mincost as int,
            ) ==> r.0 && tame(final(self).edges@, final(self).n as int, r.1@, c) && affordable(
                final(self).edges@,
                final(self).n as int,
                c,
                final(self).maxflow as int,
                final(self).mincost as int,
            ),
            final(self).wf(),
            final(self).order() == old(self).order(),
            same_network(old(self).arcs(), final(self).arcs()),
            final(self).is_converged() == old(self).is_converged(),
            final(self).has_cancelled() == old(self).has_cancelled(),
            final(self).flow_added() - old(self).flow_added() == excess(final(self).arcs(), 1)
                - excess(old(self).arcs(), 1),
            final(self).cost_added() - old(self).cost_added() == total_cost(final(self).arcs())
                - total_cost(old(self).arcs()),
            r.0 ==> final(self).flow_added() > old(self).flow_added(),
            !r.0 ==> final(self).same_graph(old(self)) && r.1@ == p,
            final(self).pi@.len() == old(self).pi@.len(),
            exact && old(self).settled() && p.len() == old(self).n && potentials_valid(
                old(self).edges@,
                p,
            ) ==> r.1@.len() == final(self).n && potentials_valid(final(self).edges@, r.1@),
    {
        let sink = self.t;
        let ghost easy = exact && self.settled() && tame(self.edges@, self.n as int, p, c) && self.sound(
            p,
            c,
            stamp,
        ) && self.pref@[1] != usize::MAX && affordable(
            self.edges@,
            self.n as int,
            c,
            self.maxflow as int,
            self.mincost as int,
        );
        let tr = match self.trace(sink, false, exact, Ghost(stamp), Ghost((Seq::empty(), Seq::empty()))) {
            Some(tr) => tr,
            None => {
                return (false, Ghost(p));
            },
        };
        if tr.end != self.s {
            return (false, Ghost(p));
        }
        let ghost q = lifted(p, self.pref@, self.dist@, sink as int);
        proof {
            if easy {
                let a = self.edges@;
                let n = self.n as int;
                let len = tr.arcs@.len() as int;
                let room = sink_capacity(a) - excess(a, 1);
                lemma_tight_cost(a, tr.arcs@, tr.nodes@, self.pref@, self.dist@, len);
                assert(tr.cost == self.dist@[1]);
                assert((n - 1) * c <= n * c) by (nonlinear_arith)
                    requires
                        c >= 0,
                ;
                assert(-(n * c) <= tr.cost);
                assert(len > 0);
                let first = tr.arcs@[0] as int;
                assert(a[first].to == 1);
                assert(first % 2 == 0);
                assert(a[first].f >= tr.bottleneck);
                lemma_sink_room(a, n, a.len() as int / 2, first / 2);
                lemma_afford(
                    n,
                    c,
                    self.maxflow as int,
                    self.mincost as int,
                    room,
                    tr.cost as int,
                    tr.bottleneck as int,
                );
                lemma_lifted_grounded(p, self.pref@, self.dist@, n, 1, n * c);
            }
        }
        proof {
            if exact && self.settled() && p.len() == self.n && potentials_valid(self.edges@, p) {
                let a = self.edges@;
                let n = self.n as int;
                let len = tr.arcs@.len() as int;
                lemma_lifted_valid(a, n, p, self.pref@, self.dist@, sink as int);
                assert(len > 0);
                assert(tight_at(a, tr.arcs@, tr.nodes@, self.pref@, self.dist@, 0));
                assert(self.pref@[tr.nodes@[0]] != usize::MAX);
                assert forall|i: int| 0 <= i < len implies a[#[trigger] tr.arcs@[i] as int].f > 0 by {
                    assert(a[tr.arcs@[i] as int].f >= tr.bottleneck);
                }
                lemma_lifted_tight(a, n, tr.arcs@, tr.nodes@, p, self.pref@, self.dist@, len);
                assert forall|i: int| 0 <= i < len implies #[trigger] rise_at(
                    a,
                    tr.arcs@,
                    tr.nodes@,
                    q,
                    i,
                ) by {
                    assert(tight_at(a, tr.arcs@, tr.nodes@, self.pref@, self.dist@, i));
                    assert(q[tr.nodes@[i]] == self.dist@[tr.nodes@[i]]);
                    assert(q[tr.nodes@[i + 1]] == self.dist@[tr.nodes@[i + 1]]);
                }
            }
        }
        if !self.apply(&tr, tr.bottleneck, Ghost(q)) {
            return (false, Ghost(p));
        }
        self.raise_potentials();
        proof {
            if easy {
                let a = old(self).edges@;
                let b = self.edges@;
                assert(sink_absorbs(b)) by {
                    assert forall|i: int| 0 <= i < b.len() && i % 2 == 1 implies (#[trigger] b[i]).to
                        != 1 by {
                        assert(b[i].to == a[i].to);
                    }
                }
                lemma_same_network_extends(a, b);
                lemma_sink_capacity_same(a, b);
                assert forall|i: int| 0 <= i < b.len() implies -c <= (#[trigger] b[i]).cost <= c by {
                    assert(b[i].cost == a[i].cost);
                }
            }
        }
        (true, Ghost(q))
    }

    /// The predecessor links hold a cycle behind `start` that can be
    /// cancelled: as many links behind `start` as there are nodes stands a
    /// node from which the links close the cycle `cyc` over the nodes
    /// `nodes`; the cycle costs less than nothing and more than the sentinel
    /// allows to lose; and the running cost, lowered by the cost of the cycle
    /// times its least residual capacity, stays within 64 bits.
    pub closed spec fn cancels(&self, start: int, cyc: Seq<usize>, nodes: Seq<int>) -> bool {
        let cost = trail_cost(self.edges@, cyc, cyc.len() as int);
        let w = least_residual(self.edges@, cyc, cyc.len() as int);
        &&& self.pref@.len() == self.n
        &&& self.con@.len() == self.n
        &&& closes(self.edges@, self.pref@, self.con@, cyc, nodes, back(self.pref@, start, self.n as nat))
        &&& -INF < cost < 0
        &&& i64::MIN <= self.mincost + cost * w
    }

    /// Cancels the cycle of negative cost that the predecessor links hold
    /// behind `start`: walks back as many links as there are nodes to come to
    /// stand inside the cycle, walks once around it to find its arcs and its
    /// bottleneck, and sends the bottleneck around it, which lowers the cost
    /// and leaves the flow value as it is. Returns `true` exactly when the
    /// links hold such a cycle; otherwise it changes no arc.
    fn cancel_negative_cycle(&mut self, start: usize) -> (ok: bool)
        requires
            old(self).wf(),
            start < old(self).order(),
        ensures
            (exists|cyc: Seq<usize>, nodes: Seq<int>| #[trigger]
                old(self).cancels(start as int, cyc, nodes)) ==> ok,
            ok ==> exists|cyc: Seq<usize>, nodes: Seq<int>|
                {
                    let w = least_residual(old(self).edges@, cyc, cyc.len() as int);
                    &&& #[trigger] old(self).cancels(start as int, cyc, nodes)
                    &&& final(self).edges@ == pushed_along(old(self).edges@, cyc, w, cyc.len() as int)
                    &&& final(self).cost_added() == old(self).cost_added() + w * trail_cost(
                        old(self).edges@,
                        cyc,
                        cyc.len() as int,
                    )
                },
            final(self).wf(),
            final(self).order() == old(self).order(),
            same_network(old(self).arcs(), final(self).arcs()),
            final(self).is_converged() == old(self).is_converged(),
            final(self).flow_added() == old(self).flow_added(),
            excess(final(self).arcs(), 1) == excess(old(self).arcs(), 1),
            final(self).cost_added() - old(self).cost_added() == total_cost(final(self).arcs())
                - total_cost(old(self).arcs()),
            ok ==> final(self).cost_added() < old(self).cost_added(),
            ok ==> final(self).has_cancelled(),
            !ok ==> final(self).same_graph(old(self)),
            final(self).pi == old(self).pi,
            priced(old(self).arcs(), old(self).order()) ==> !ok,
    {
        let n = self.n;
        if self.pref.len() != n {
            return false;
        }
        let mut u = start;
        let mut k: usize = 0;
        while k < n
            invariant
                self == old(self),
                self.wf(),
                n == self.n,
                self.pref@.len() == n,
                u < n,
                k <= n,
                u == back(self.pref@, start as int, k as nat),
            decreases n - k,
        {
            let p = self.pref[u];
            if p >= n {
                proof {
                    assert(back(self.pref@, start as int, (k + 1) as nat) < 0);
                    lemma_back_stuck(self.pref@, start as int, (k + 1) as nat, n as nat);
                    assert forall|cyc: Seq<usize>, nodes: Seq<int>| !#[trigger] self.cancels(
                        start as int,
                        cyc,
                        nodes,
                    ) by {
                        if self.cancels(start as int, cyc, nodes) {
                            assert(link_at(self.edges@, self.pref@, self.con@, cyc, nodes, 0));
                        }
                    }
                }
                return false;
            }
            u = p;
            k += 1;
        }
        let ghost want = if exists|cyc: Seq<usize>, nodes: Seq<int>| #[trigger]
            self.cancels(start as int, cyc, nodes) {
            choose|cyc: Seq<usize>, nodes: Seq<int>| #[trigger] self.cancels(start as int, cyc, nodes)
        } else {
            (Seq::empty(), Seq::empty())
        };
        let tr = match self.trace(u, true, false, Ghost(Seq::empty()), Ghost(want)) {
            Some(tr) => tr,
            None => {
                return false;
            },
        };
        if tr.cost >= 0 {
            return false;
        }
        proof {
            assert(tr.bottleneck * tr.cost == tr.cost * tr.bottleneck) by (nonlinear_arith);
            assert(tr.cost * tr.bottleneck < 0) by (nonlinear_arith)
                requires
                    tr.cost < 0,
                    tr.bottleneck > 0,
            ;
            if priced(self.edges@, n as int) {
                let q = choose|q: Seq<int>| q.len() == n && potentials_valid(self.edges@, q);
                assert forall|j: int| 0 <= j < tr.arcs@.len() implies self.edges@[#[trigger] tr.arcs@[j] as int].f
                    > 0 by {
                    assert(self.edges@[tr.arcs@[j] as int].f >= tr.bottleneck);
                }
                lemma_trail_cost_bound(self.edges@, tr.arcs@, tr.nodes@, q, tr.arcs@.len() as int);
                assert(false);
            }
        }
        if !self.apply(&tr, 0, Ghost(Seq::empty())) {
            return false;
        }
        self.cancelled = true;
        proof {
            assert(old(self).cancels(start as int, tr.arcs@, tr.nodes@));
        }
        true
    }
}

/// A solve that goes on from an earlier one returns what a solve from
/// scratch returns: where two booked networks are the same network, and
/// both solves ended with the sink out of reach and with a priced flow,
/// their running costs and their running flow values agree.
pub proof fn lemma_goes_on_as_fresh(grown: &MinCostFlow, fresh: &MinCostFlow)
    requires
        grown.wf(),
        fresh.wf(),
        grown.booked(),
        fresh.booked(),
        grown.order() == fresh.order(),
        same_network(grown.arcs(), fresh.arcs()),
        saturated(grown.arcs()),
        saturated(fresh.arcs()),
        priced(grown.arcs(), grown.order()),
        priced(fresh.arcs(), fresh.order()),
    ensures
        grown.cost_added() == fresh.cost_added(),
        grown.flow_added() == fresh.flow_added(),
{
    grown.lemma_wf();
    fresh.lemma_wf();
    lemma_solutions_agree(grown.arcs(), fresh.arcs(), grown.order());
}

/// Outcome of one search from the source.
enum Search {
    /// The sink was reached.
    Found,
    /// No residual path leads to the sink.
    Unreachable,
    /// The node lies behind a cycle of negative cost.
    Cycle(usize),
    /// A distance left the range of the sentinel.
    Aborted,
}

/// Each of the first `j` arcs out of `v` that has residual capacity leads to
/// a node that the search has reached, at a distance that the arc cannot
/// shorten.
pub open spec fn closed_upto(
    adj: Seq<Vec<usize>>,
    a: Seq<Edge>,
    pref: Seq<usize>,
    dist: Seq<i64>,
    v: int,
    j: int,
) -> bool {
    forall|k: int|
        0 <= k < j && a[#[trigger] adj[v]@[k] as int].f > 0 ==> pref[a[adj[v]@[k] as int].to as int]
            != usize::MAX && dist[a[adj[v]@[k] as int].to as int] <= dist[v] + a[adj[v]@[k] as int].cost
}

/// Reaching more nodes, and reaching nodes other than `v` at shorter
/// distances, keeps `v` closed.
pub proof fn lemma_closed_mono(
    adj: Seq<Vec<usize>>,
    a: Seq<Edge>,
    p: Seq<usize>,
    d: Seq<i64>,
    q: Seq<usize>,
    e: Seq<i64>,
    v: int,
    j: int,
)
    requires
        closed_upto(adj, a, p, d, v, j),
        p.len() == q.len(),
        d.len() == p.len(),
        e.len() == p.len(),
        forall|i: int| 0 <= i < p.len() && p[i] != usize::MAX ==> #[trigger] q[i] != usize::MAX,
        forall|i: int| 0 <= i < p.len() ==> #[trigger] e[i] <= d[i],
        0 <= v < adj.len(),
        v < p.len(),
        e[v] == d[v],
        j <= adj[v]@.len(),
        forall|k: int| 0 <= k < j ==> 0 <= #[trigger] adj[v]@[k] < a.len(),
        forall|i: int| 0 <= i < a.len() ==> 0 <= (#[trigger] a[i]).to < p.len(),
    ensures
        closed_upto(adj, a, q, e, v, j),
{
    assert forall|k: int| 0 <= k < j && a[#[trigger] adj[v]@[k] as int].f > 0 implies q[a[adj[v]@[k] as int].to as int]
        != usize::MAX && e[a[adj[v]@[k] as int].to as int] <= e[v] + a[adj[v]@[k] as int].cost by {
        let i = adj[v]@[k] as int;
        assert(p[a[i].to as int] != usize::MAX);
        assert(e[a[i].to as int] <= d[a[i].to as int]);
    }
}

/// The least residual over the first arcs of a path is that over the same
/// arcs of a longer path.
pub proof fn lemma_least_prefix(a: Seq<Edge>, p: Seq<usize>, q: Seq<usize>, i: int)
    requires
        0 <= i <= p.len(),
        p.len() <= q.len(),
        forall|k: int| 0 <= k < p.len() ==> p[k] == q[k],
    ensures
        least_residual(a, p, i) == least_residual(a, q, i),
    decreases i,
{
    if i > 0 {
        lemma_least_prefix(a, p, q, i - 1);
    }
}

/// A trail found by following predecessor links: its arcs from the last to
/// the first, the least residual capacity on it and the sum of its costs.
struct Trail {
    arcs: Vec<usize>,
    bottleneck: i64,
    cost: i128,
    nodes: Ghost<Seq<int>>,
    end: usize,
}

/// The cost of a prefix does not depend on what follows it.
pub proof fn lemma_trail_cost_prefix(a: Seq<Edge>, p: Seq<usize>, q: Seq<usize>, i: int)
    requires
        0 <= i <= p.len(),
        i <= q.len(),
        forall|j: int| 0 <= j < i ==> p[j] == q[j],
    ensures
        trail_cost(a, p, i) == trail_cost(a, q, i),
    decreases i,
{
    if i > 0 {
        lemma_trail_cost_prefix(a, p, q, i - 1);
    }
}

} // verus!
