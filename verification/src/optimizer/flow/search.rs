use crate::optimizer::flow::mcmf::{
    arcs_wf, distances_tight, excess, lifted, links_ok, mate, tight_at, trail_cost, Edge, INF,
};
use crate::optimizer::flow::mincost::{potentials_valid, priced};
use crate::optimizer::flow::sums::{lemma_pristine_sums, pristine, sink_absorbs, sink_capacity};
use vstd::prelude::*;

verus! {

/// A network on which a search cannot go astray: the potentials `p` price
/// the flow, so that no cycle of arcs with residual capacity costs less
/// than nothing; they are zero at the source and nowhere lower than a path
/// over all the nodes can lead down; and no arc costs more than `c` in
/// either direction, with `c` so small that a path over all the nodes
/// stays within the sentinel. The costs themselves may have either sign.
pub open spec fn tame(a: Seq<Edge>, n: int, p: Seq<int>, c: int) -> bool {
    &&& p.len() == n
    &&& potentials_valid(a, p)
    &&& p[0] == 0
    &&& forall|v: int| 0 <= v < n ==> #[trigger] p[v] >= -(n * c)
    &&& c >= 0
    &&& n * c < INF
    &&& forall|i: int| 0 <= i < a.len() ==> -c <= (#[trigger] a[i]).cost <= c
}

/// Number of nodes that the search has reached.
pub open spec fn reached(pref: Seq<usize>) -> int
    decreases pref.len(),
{
    if pref.len() == 0 {
        0
    } else {
        reached(pref.drop_last()) + if pref.last() != usize::MAX {
            1int
        } else {
            0int
        }
    }
}

/// Writing one predecessor moves the count by what the entry gains or loses.
pub proof fn lemma_reached_update(pref: Seq<usize>, v: int, x: usize)
    requires
        0 <= v < pref.len(),
    ensures
        reached(pref.update(v, x)) == reached(pref) - (if pref[v] != usize::MAX {
            1int
        } else {
            0int
        }) + (if x != usize::MAX {
            1int
        } else {
            0int
        }),
    decreases pref.len(),
{
    let q = pref.update(v, x);
    if v == pref.len() - 1 {
        assert(q.drop_last() =~= pref.drop_last());
    } else {
        assert(q.drop_last() =~= pref.drop_last().update(v, x));
        lemma_reached_update(pref.drop_last(), v, x);
    }
}

/// No more nodes are reached than there are.
pub proof fn lemma_reached_bound(pref: Seq<usize>)
    ensures
        0 <= reached(pref) <= pref.len(),
    decreases pref.len(),
{
    if pref.len() > 0 {
        lemma_reached_bound(pref.drop_last());
    }
}

/// While a node is out of reach, fewer nodes are reached than there are.
pub proof fn lemma_reached_room(pref: Seq<usize>, v: int)
    requires
        0 <= v < pref.len(),
        pref[v] == usize::MAX,
    ensures
        reached(pref) < pref.len(),
    decreases pref.len(),
{
    if v == pref.len() - 1 {
        lemma_reached_bound(pref.drop_last());
    } else {
        lemma_reached_room(pref.drop_last(), v);
    }
}

/// Before a search no node is reached.
pub proof fn lemma_reached_none(pref: Seq<usize>)
    requires
        forall|v: int| 0 <= v < pref.len() ==> pref[v] == usize::MAX,
    ensures
        reached(pref) == 0,
    decreases pref.len(),
{
    if pref.len() > 0 {
        lemma_reached_none(pref.drop_last());
    }
}

/// Sum of the distances, the sentinel counting for a node out of reach.
pub open spec fn dist_sum(dist: Seq<i64>) -> int
    decreases dist.len(),
{
    if dist.len() == 0 {
        0
    } else {
        dist_sum(dist.drop_last()) + dist.last()
    }
}

/// Writing one distance moves the sum by the difference.
pub proof fn lemma_dist_sum_update(dist: Seq<i64>, v: int, x: i64)
    requires
        0 <= v < dist.len(),
    ensures
        dist_sum(dist.update(v, x)) == dist_sum(dist) - dist[v] + x,
    decreases dist.len(),
{
    let d = dist.update(v, x);
    if v == dist.len() - 1 {
        assert(d.drop_last() =~= dist.drop_last());
    } else {
        assert(d.drop_last() =~= dist.drop_last().update(v, x));
        lemma_dist_sum_update(dist.drop_last(), v, x);
    }
}

/// Distances that are not below `-floor` do not sum to less than their
/// number times `-floor`.
pub proof fn lemma_dist_sum_floor(dist: Seq<i64>, floor: int)
    requires
        forall|v: int| 0 <= v < dist.len() ==> dist[v] >= -floor,
    ensures
        dist_sum(dist) + dist.len() * floor >= 0,
    decreases dist.len(),
{
    if dist.len() > 0 {
        lemma_dist_sum_floor(dist.drop_last(), floor);
        assert((dist.len() - 1) * floor + floor == dist.len() * floor) by (nonlinear_arith);
    } else {
        assert(0 * floor == 0) by (nonlinear_arith);
    }
}

/// Before a search every distance is the sentinel.
pub proof fn lemma_dist_sum_fresh(dist: Seq<i64>)
    requires
        forall|v: int| 0 <= v < dist.len() ==> dist[v] == INF,
    ensures
        dist_sum(dist) == dist.len() * INF,
    decreases dist.len(),
{
    if dist.len() > 0 {
        lemma_dist_sum_fresh(dist.drop_last());
        assert((dist.len() - 1) * INF + INF == dist.len() * INF) by (nonlinear_arith);
    }
}

/// A node that the search has reached lies no nearer than its potential
/// and no further than a path over the nodes reached so far can lead, and
/// its stamp is not ahead of the clock.
pub open spec fn within(
    p: Seq<int>,
    c: int,
    pref: Seq<usize>,
    dist: Seq<i64>,
    stamp: Seq<int>,
    clock: int,
    v: int,
) -> bool {
    pref[v] != usize::MAX ==> {
        &&& p[v] <= dist[v] <= (reached(pref) - 1) * c
        &&& 0 <= stamp[v] <= clock
    }
}

/// A node that the search has reached hangs on a predecessor that the
/// search has reached, no nearer than the predecessor's distance plus the
/// cost of the arc between them; where it lies exactly there, it was
/// stamped after its predecessor.
pub open spec fn hangs(
    a: Seq<Edge>,
    pref: Seq<usize>,
    con: Seq<usize>,
    dist: Seq<i64>,
    stamp: Seq<int>,
    v: int,
) -> bool {
    pref[v] != usize::MAX ==> {
        let u = pref[v] as int;
        let cost = a[con[v] as int].cost;
        &&& pref[u] != usize::MAX
        &&& dist[v] >= dist[u] + cost
        &&& dist[v] == dist[u] + cost ==> stamp[v] > stamp[u]
    }
}

/// What a search on a tame network keeps: the source stays at distance
/// zero, no distance lies lower than a path over all the nodes can lead
/// down, the budget covers what the distances can still drop by, and every
/// node that was reached is within bounds and hangs on its predecessor.
pub open spec fn docile(
    a: Seq<Edge>,
    n: int,
    p: Seq<int>,
    c: int,
    pref: Seq<usize>,
    con: Seq<usize>,
    dist: Seq<i64>,
    stamp: Seq<int>,
    clock: int,
    budget: int,
) -> bool {
    &&& pref.len() == n && con.len() == n && dist.len() == n && stamp.len() == n
    &&& 2 <= n <= usize::MAX
    &&& pref[0] == 0 && dist[0] == 0
    &&& budget >= dist_sum(dist) + n * (n * c)
    &&& forall|v: int| 0 <= v < n ==> (#[trigger] dist[v]) >= -(n * c)
    &&& forall|v: int| 0 <= v < n ==> #[trigger] within(p, c, pref, dist, stamp, clock, v)
    &&& forall|v: int| 0 < v < n ==> #[trigger] hangs(a, pref, con, dist, stamp, v)
}

/// Products with a cost that is not negative grow with the other factor.
pub proof fn lemma_span(r: int, n: int, c: int)
    requires
        0 <= r <= n,
        c >= 0,
    ensures
        (r - 1) * c + c == r * c,
        r * c <= n * c,
        (r - 1) * c <= r * c,
{
    assert((r - 1) * c + c == r * c) by (nonlinear_arith);
    assert(r * c <= n * c) by (nonlinear_arith)
        requires
            0 <= r <= n,
            c >= 0,
    ;
}

/// A search that starts on a tame network starts docile.
pub proof fn lemma_start(
    a: Seq<Edge>,
    n: int,
    p: Seq<int>,
    c: int,
    pref: Seq<usize>,
    con: Seq<usize>,
    dist: Seq<i64>,
    stamp: Seq<int>,
)
    requires
        2 <= n <= usize::MAX,
        tame(a, n, p, c),
        pref.len() == n,
        con.len() == n,
        dist.len() == n,
        stamp.len() == n,
        pref[0] == 0,
        dist[0] == 0,
        stamp[0] == 0,
        forall|v: int| 0 < v < n ==> pref[v] == usize::MAX && dist[v] == INF,
    ensures
        docile(a, n, p, c, pref, con, dist, stamp, 0, 2 * n * INF),
{
    assert(n * (n * c) <= n * INF) by (nonlinear_arith)
        requires
            n >= 0,
            n * c < INF,
    ;
    assert(0 <= n * c) by (nonlinear_arith)
        requires
            n >= 0,
            c >= 0,
    ;
    let blank = pref.update(0, usize::MAX);
    lemma_reached_none(blank);
    lemma_reached_update(blank, 0, 0);
    assert(blank.update(0, 0) =~= pref);
    assert(reached(pref) == 1);
    let far = dist.update(0, INF);
    lemma_dist_sum_fresh(far);
    lemma_dist_sum_update(far, 0, 0);
    assert(far.update(0, 0) =~= dist);
    assert(dist_sum(dist) == n * INF - INF);
    assert forall|v: int| 0 <= v < n implies #[trigger] within(p, c, pref, dist, stamp, 0, v) by {
        assert(0 * c == 0) by (nonlinear_arith);
    }
}

/// On a tame network an arc with residual capacity out of a node that the
/// search has reached leads to a distance below the sentinel.
pub proof fn lemma_in_range(
    a: Seq<Edge>,
    n: int,
    p: Seq<int>,
    c: int,
    pref: Seq<usize>,
    con: Seq<usize>,
    dist: Seq<i64>,
    stamp: Seq<int>,
    clock: int,
    budget: int,
    id: int,
)
    requires
        arcs_wf(a, n),
        tame(a, n, p, c),
        docile(a, n, p, c, pref, con, dist, stamp, clock, budget),
        0 <= id < a.len(),
        a[id].f > 0,
        pref[a[mate(id)].to as int] != usize::MAX,
        pref[a[id].to as int] == usize::MAX,
    ensures
        dist[a[mate(id)].to as int] + a[id].cost < INF,
{
    let u = a[mate(id)].to as int;
    let v = a[id].to as int;
    assert(0 <= mate(id) < a.len());
    assert(within(p, c, pref, dist, stamp, clock, u));
    lemma_reached_room(pref, v);
    lemma_reached_bound(pref);
    lemma_span(reached(pref), n, c);
}

/// One relaxation on a tame network: the new distance of the head lies in
/// range, the head is neither the source nor the tail, the budget is not
/// used up, and the search stays docile.
pub proof fn lemma_relax(
    a: Seq<Edge>,
    n: int,
    p: Seq<int>,
    c: int,
    pref: Seq<usize>,
    con: Seq<usize>,
    dist: Seq<i64>,
    stamp: Seq<int>,
    clock: int,
    budget: int,
    id: usize,
)
    requires
        arcs_wf(a, n),
        tame(a, n, p, c),
        docile(a, n, p, c, pref, con, dist, stamp, clock, budget),
        links_ok(a, pref, con),
        id < a.len(),
        a[id as int].f > 0,
        pref[a[mate(id as int)].to as int] != usize::MAX,
        dist[a[mate(id as int)].to as int] + a[id as int].cost < dist[a[id as int].to as int],
    ensures
        a[id as int].to != 0,
        a[id as int].to != a[mate(id as int)].to,
        -INF < dist[a[mate(id as int)].to as int] + a[id as int].cost < INF,
        budget >= 1,
        docile(
            a,
            n,
            p,
            c,
            pref.update(a[id as int].to as int, a[mate(id as int)].to),
            con.update(a[id as int].to as int, id),
            dist.update(
                a[id as int].to as int,
                (dist[a[mate(id as int)].to as int] + a[id as int].cost) as i64,
            ),
            stamp.update(a[id as int].to as int, clock + 1),
            clock + 1,
            budget - 1,
        ),
{
    let e = id as int;
    let u = a[mate(e)].to as int;
    let v = a[e].to as int;
    let nd = dist[u] + a[e].cost;
    assert(0 <= mate(e) < a.len());
    assert(0 <= u < n && 0 <= v < n);
    assert(within(p, c, pref, dist, stamp, clock, u));
    assert(a[e].cost + p[u] - p[v] >= 0);
    assert(nd >= p[v]);
    assert(p[v] >= -(n * c));
    assert(v != 0) by {
        assert(p[0] == 0 && dist[0] == 0);
    }
    assert(v != u);
    let pref1 = pref.update(v, u as usize);
    let con1 = con.update(v, id);
    let stamp1 = stamp.update(v, clock + 1);
    lemma_reached_update(pref, v, u as usize);
    lemma_reached_bound(pref);
    lemma_reached_bound(pref1);
    let r = reached(pref);
    let r1 = reached(pref1);
    lemma_span(r, n, c);
    lemma_span(r1, n, c);
    if pref[v] != usize::MAX {
        assert(within(p, c, pref, dist, stamp, clock, v));
        assert(r1 == r);
    } else {
        assert(r1 == r + 1);
    }
    assert(nd <= (r1 - 1) * c);
    assert(nd < INF);
    let dist1 = dist.update(v, nd as i64);
    lemma_dist_sum_update(dist, v, nd as i64);
    assert forall|x: int| 0 <= x < n implies (#[trigger] dist1[x]) >= -(n * c) by {
        if x != v {
            assert(dist[x] >= -(n * c));
        }
    }
    lemma_dist_sum_floor(dist1, n * c);
    assert forall|x: int| 0 <= x < n implies #[trigger] within(p, c, pref1, dist1, stamp1, clock + 1, x) by {
        if x != v {
            assert(within(p, c, pref, dist, stamp, clock, x));
        }
    }
    assert forall|x: int| 0 < x < n implies #[trigger] hangs(a, pref1, con1, dist1, stamp1, x) by {
        if x == v {
            assert(stamp[u] <= clock);
            assert(pref1[v] == u);
            assert(pref1[u] == pref[u]);
            assert(con1[v] == id);
            assert(dist1[v] == nd);
            assert(dist1[u] == dist[u]);
            assert(stamp1[u] == stamp[u]);
        } else if pref[x] != usize::MAX {
            assert(hangs(a, pref, con, dist, stamp, x));
            if pref[x] as int == v {
                assert(dist1[x] > dist1[v] + a[con[x] as int].cost);
            }
        }
    }
}

/// A node that the search has reached hangs on a predecessor that the
/// search has reached, exactly at the predecessor's distance plus the cost
/// of the arc between them, and was stamped after its predecessor.
pub open spec fn climbs(
    a: Seq<Edge>,
    pref: Seq<usize>,
    con: Seq<usize>,
    dist: Seq<i64>,
    stamp: Seq<int>,
    v: int,
) -> bool {
    pref[v] != usize::MAX ==> {
        let u = pref[v] as int;
        &&& pref[u] != usize::MAX
        &&& dist[v] == dist[u] + a[con[v] as int].cost
        &&& stamp[v] > stamp[u]
    }
}

/// The predecessor links form a tree of shortest paths below the source:
/// the source is its own predecessor at distance zero, and every other
/// node that was reached climbs to its predecessor. The stamps fall along
/// every path towards the source, so no path comes back to a node.
pub open spec fn rooted(
    a: Seq<Edge>,
    n: int,
    pref: Seq<usize>,
    con: Seq<usize>,
    dist: Seq<i64>,
    stamp: Seq<int>,
) -> bool {
    &&& pref.len() == n && con.len() == n && dist.len() == n && stamp.len() == n
    &&& pref[0] == 0 && dist[0] == 0
    &&& links_ok(a, pref, con)
    &&& forall|v: int| 0 < v < n ==> #[trigger] climbs(a, pref, con, dist, stamp, v)
}

/// A docile search that has settled leaves a tree of shortest paths, and
/// every node in it between its potential and what a path over all the
/// nodes can cost.
pub proof fn lemma_settle(
    a: Seq<Edge>,
    n: int,
    p: Seq<int>,
    c: int,
    pref: Seq<usize>,
    con: Seq<usize>,
    dist: Seq<i64>,
    stamp: Seq<int>,
    clock: int,
    budget: int,
)
    requires
        arcs_wf(a, n),
        tame(a, n, p, c),
        docile(a, n, p, c, pref, con, dist, stamp, clock, budget),
        links_ok(a, pref, con),
        forall|i: int|
            0 <= i < a.len() && a[i].f > 0 && pref[(#[trigger] a[mate(i)]).to as int] != usize::MAX
                ==> pref[a[i].to as int] != usize::MAX && dist[a[i].to as int] <= dist[a[mate(
                i,
            )].to as int] + a[i].cost,
    ensures
        rooted(a, n, pref, con, dist, stamp),
        forall|v: int|
            0 <= v < n && #[trigger] pref[v] != usize::MAX ==> p[v] <= dist[v] <= (n - 1) * c,
{
    assert forall|v: int| 0 < v < n implies #[trigger] climbs(a, pref, con, dist, stamp, v) by {
        if pref[v] != usize::MAX {
            assert(hangs(a, pref, con, dist, stamp, v));
            let i = con[v] as int;
            assert(a[mate(i)].to == pref[v]);
        }
    }
    lemma_reached_bound(pref);
    assert forall|v: int| 0 <= v < n && #[trigger] pref[v] != usize::MAX implies p[v] <= dist[v] <= (n
        - 1) * c by {
        assert(within(p, c, pref, dist, stamp, clock, v));
        assert((reached(pref) - 1) * c <= (n - 1) * c) by (nonlinear_arith)
            requires
                reached(pref) <= n,
                c >= 0,
        ;
    }
}

/// Distinct nodes below `n` are at most `n`.
pub proof fn lemma_distinct_bound(nodes: Seq<int>, n: int)
    requires
        n >= 0,
        forall|i: int| 0 <= i < nodes.len() ==> 0 <= #[trigger] nodes[i] < n,
        forall|i: int, j: int| 0 <= i < j < nodes.len() ==> #[trigger] nodes[i] != #[trigger] nodes[j],
    ensures
        nodes.len() <= n,
    decreases n,
{
    if nodes.len() > 0 {
        assert(n > 0) by {
            assert(0 <= nodes[0] < n);
        }
        if exists|k: int| 0 <= k < nodes.len() && nodes[k] == n - 1 {
            let k = choose|k: int| 0 <= k < nodes.len() && nodes[k] == n - 1;
            let rest = nodes.remove(k);
            assert forall|i: int| 0 <= i < rest.len() implies 0 <= #[trigger] rest[i] < n - 1 by {
                if i < k {
                    assert(rest[i] == nodes[i]);
                    assert(nodes[i] != nodes[k]);
                } else {
                    assert(rest[i] == nodes[i + 1]);
                    assert(nodes[k] != nodes[i + 1]);
                }
            }
            assert forall|i: int, j: int| 0 <= i < j < rest.len() implies #[trigger] rest[i]
                != #[trigger] rest[j] by {
                let x = if i < k {
                    i
                } else {
                    i + 1
                };
                let y = if j < k {
                    j
                } else {
                    j + 1
                };
                assert(rest[i] == nodes[x]);
                assert(rest[j] == nodes[y]);
                assert(nodes[x] != nodes[y]);
            }
            lemma_distinct_bound(rest, n - 1);
        } else {
            assert forall|i: int| 0 <= i < nodes.len() implies 0 <= #[trigger] nodes[i] < n - 1 by {
                assert(0 <= nodes[i] < n);
            }
            lemma_distinct_bound(nodes, n - 1);
        }
    }
}

/// Along a trail with tight distances the costs of the arcs add up to the
/// difference of the distances at its ends.
pub proof fn lemma_tight_cost(
    a: Seq<Edge>,
    path: Seq<usize>,
    nodes: Seq<int>,
    pref: Seq<usize>,
    dist: Seq<i64>,
    i: int,
)
    requires
        nodes.len() == path.len() + 1,
        distances_tight(a, path, nodes, pref, dist),
        0 <= i <= path.len(),
    ensures
        trail_cost(a, path, i) == dist[nodes[0]] - dist[nodes[i]],
    decreases i,
{
    if i > 0 {
        lemma_tight_cost(a, path, nodes, pref, dist, i - 1);
        assert(tight_at(a, path, nodes, pref, dist, i - 1));
    }
}

/// Lifting potentials that price a tame network over a search that left
/// every node no nearer than its potential keeps them zero at the source
/// and nowhere below `-floor`.
pub proof fn lemma_lifted_grounded(
    p: Seq<int>,
    pref: Seq<usize>,
    dist: Seq<i64>,
    n: int,
    sink: int,
    floor: int,
)
    requires
        p.len() == n,
        pref.len() == n,
        dist.len() == n,
        0 < sink < n,
        p[0] == 0,
        forall|v: int| 0 <= v < n ==> #[trigger] p[v] >= -floor,
        pref[0] == 0,
        dist[0] == 0,
        pref[sink] != usize::MAX,
        forall|v: int| 0 <= v < n && #[trigger] pref[v] != usize::MAX ==> p[v] <= dist[v],
    ensures
        lifted(p, pref, dist, sink).len() == n,
        lifted(p, pref, dist, sink)[0] == 0,
        forall|v: int| 0 <= v < n ==> #[trigger] lifted(p, pref, dist, sink)[v] >= -floor,
{
    let q = lifted(p, pref, dist, sink);
    assert(p[sink] <= dist[sink]);
    assert forall|v: int| 0 <= v < n implies #[trigger] q[v] >= -floor by {
        assert(p[v] >= -floor);
        if pref[v] != usize::MAX {
            assert(p[v] <= dist[v]);
        }
    }
}

/// What the counters of a solve may hold for an augmentation to be booked
/// without leaving 64 bits: no pair leaves the sink; the flow added so far
/// is not negative; the cost added so far is, to either side, at most what
/// `flow` units cost over paths of `n` arcs of cost `c`; and neither the
/// flow nor such a cost can leave 64 bits even if every pair into the sink
/// is filled.
pub open spec fn affordable(a: Seq<Edge>, n: int, c: int, flow: int, cost: int) -> bool {
    let room = sink_capacity(a) - excess(a, 1);
    &&& sink_absorbs(a)
    &&& 0 <= flow
    &&& -(n * c * flow) <= cost <= n * c * flow
    &&& flow + room <= i64::MAX
    &&& n * c * (flow + room) <= i64::MAX
}

/// A solve that starts from these counters on this network ends with the
/// sink out of reach: there are potentials and a bound on the costs that
/// make the network tame and the counters affordable.
pub open spec fn calm(a: Seq<Edge>, n: int, flow: int, cost: int) -> bool {
    exists|p: Seq<int>, c: int| #[trigger] tame(a, n, p, c) && affordable(a, n, c, flow, cost)
}

/// Potentials price the flow on a calm network.
pub proof fn lemma_calm_priced(a: Seq<Edge>, n: int, flow: int, cost: int)
    requires
        calm(a, n, flow, cost),
    ensures
        priced(a, n),
{
    let (p, c) = choose|p: Seq<int>, c: int| #[trigger] tame(a, n, p, c) && affordable(a, n, c, flow, cost);
    assert(p.len() == n && potentials_valid(a, p));
}

/// Booking an augmentation of `w` units over a path of cost `d` keeps the
/// counters affordable, and the new counters fit 64 bits.
pub proof fn lemma_afford(n: int, c: int, flow: int, cost: int, room: int, d: int, w: int)
    requires
        n >= 1,
        c >= 0,
        0 <= flow,
        -(n * c * flow) <= cost <= n * c * flow,
        n * c * (flow + room) <= i64::MAX,
        -(n * c) <= d <= (n - 1) * c,
        0 < w <= room,
    ensures
        -(n * c * (flow + w)) <= cost + d * w <= n * c * (flow + w),
        n * c * (flow + w) <= i64::MAX,
{
    assert(-((n * c) * w) <= d * w) by (nonlinear_arith)
        requires
            -(n * c) <= d,
            0 < w,
    ;
    assert(d * w <= (n * c) * w) by (nonlinear_arith)
        requires
            d <= (n - 1) * c,
            c >= 0,
            0 < w,
    ;
    assert(n * c * (flow + w) == n * c * flow + (n * c) * w) by (nonlinear_arith);
    assert(n * c * (flow + w) <= n * c * (flow + room)) by (nonlinear_arith)
        requires
            n >= 1,
            c >= 0,
            w <= room,
    ;
}

/// A network without flow is calm where no pair leaves the sink, no pair
/// costs less than nothing or more than `c`, a path over all the nodes
/// stays below the sentinel, and filling every pair into the sink over
/// such paths costs no more than 64 bits hold.
pub proof fn lemma_pristine_calm(a: Seq<Edge>, n: int, c: int)
    requires
        n >= 2,
        arcs_wf(a, n),
        pristine(a),
        sink_absorbs(a),
        forall|i: int| 0 <= i < a.len() && i % 2 == 0 ==> 0 <= (#[trigger] a[i]).cost <= c,
        c >= 0,
        n * c < INF,
        sink_capacity(a) <= i64::MAX,
        n * c * sink_capacity(a) <= i64::MAX,
    ensures
        calm(a, n, 0, 0),
{
    let p = Seq::new(n as nat, |v: int| 0int);
    assert forall|i: int| 0 <= i < a.len() && a[i].f > 0 implies a[i].cost + p[(#[trigger] a[mate(
        i,
    )]).to as int] - p[a[i].to as int] >= 0 by {
        assert(i % 2 == 0);
        assert(0 <= mate(i) < a.len());
        assert(0 <= a[i].to < n);
        assert(0 <= a[mate(i)].to < n);
    }
    assert forall|i: int| 0 <= i < a.len() implies -c <= (#[trigger] a[i]).cost <= c by {
        if i % 2 == 1 {
            assert(mate(i - 1) == i);
            assert(a[mate(i - 1)].cost == -a[i - 1].cost);
        }
    }
    lemma_pristine_sums(a, 1, a.len() as int / 2);
    assert(n * c * 0 == 0) by (nonlinear_arith);
    assert(tame(a, n, p, c));
    assert(affordable(a, n, c, 0, 0));
}

} // verus!
