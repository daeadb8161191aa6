use crate::optimizer::flow::heap::{entry_le, Entry};
use crate::optimizer::flow::mcmf::{adjacency_wf, arcs_wf, is_cut, listed, mate, saturated, Edge, INF};
use crate::optimizer::flow::search::{
    lemma_reached_bound, lemma_reached_room, lemma_reached_update, lemma_span, reached,
};
use vstd::multiset::Multiset;
use vstd::prelude::*;

verus! {

/// Reduced cost of arc `i` under the potentials `pi`: its cost plus the
/// potential of its tail minus the potential of its head.
pub open spec fn reduced_cost(a: Seq<Edge>, pi: Seq<i64>, i: int) -> int {
    a[i].cost - pi[a[i].to as int] + pi[a[mate(i)].to as int]
}

/// No potential is the sentinel, so that the search passes no node by.
pub open spec fn all_priced(pi: Seq<i64>) -> bool {
    forall|v: int| 0 <= v < pi.len() ==> #[trigger] pi[v] != INF
}

/// Arc `i` cannot shorten a distance: where it has residual capacity and
/// the search passes neither end by, its head is reached, no further than
/// its tail plus the reduced cost of the arc.
pub open spec fn arc_closed(a: Seq<Edge>, pi: Seq<i64>, pref: Seq<usize>, dist: Seq<i64>, i: int) -> bool {
    let u = a[mate(i)].to as int;
    let v = a[i].to as int;
    a[i].f > 0 && pi[u] != INF && pi[v] != INF ==> pref[v] != usize::MAX && dist[v] <= dist[u]
        + reduced_cost(a, pi, i)
}

/// None of the first `j` arcs out of `u` can shorten a distance.
pub open spec fn out_closed(
    adj: Seq<Vec<usize>>,
    a: Seq<Edge>,
    pi: Seq<i64>,
    pref: Seq<usize>,
    dist: Seq<i64>,
    u: int,
    j: int,
) -> bool {
    forall|k: int| 0 <= k < j ==> arc_closed(a, pi, pref, dist, #[trigger] adj[u]@[k] as int)
}

/// Reaching more nodes, and reaching nodes other than `u` at shorter
/// distances, keeps the arcs out of `u` closed.
pub proof fn lemma_out_closed_mono(
    adj: Seq<Vec<usize>>,
    a: Seq<Edge>,
    pi: Seq<i64>,
    p: Seq<usize>,
    d: Seq<i64>,
    q: Seq<usize>,
    e: Seq<i64>,
    u: int,
    j: int,
)
    requires
        out_closed(adj, a, pi, p, d, u, j),
        p.len() == q.len(),
        d.len() == p.len(),
        e.len() == p.len(),
        forall|i: int| 0 <= i < p.len() && p[i] != usize::MAX ==> #[trigger] q[i] != usize::MAX,
        forall|i: int| 0 <= i < p.len() ==> #[trigger] e[i] <= d[i],
        0 <= u < adj.len(),
        u < p.len(),
        e[u] == d[u],
        j <= adj[u]@.len(),
        forall|k: int|
            0 <= k < j ==> 0 <= #[trigger] adj[u]@[k] < a.len() && a[mate(adj[u]@[k] as int)].to == u,
        forall|i: int| 0 <= i < a.len() ==> 0 <= (#[trigger] a[i]).to < p.len(),
    ensures
        out_closed(adj, a, pi, q, e, u, j),
{
    assert forall|k: int| 0 <= k < j implies arc_closed(a, pi, q, e, #[trigger] adj[u]@[k] as int) by {
        let i = adj[u]@[k] as int;
        assert(arc_closed(a, pi, p, d, i));
        assert(0 <= a[i].to < p.len());
        if a[i].f > 0 && pi[u] != INF && pi[a[i].to as int] != INF {
            assert(p[a[i].to as int] != usize::MAX);
            assert(e[a[i].to as int] <= d[a[i].to as int]);
        }
    }
}

/// Node `x` is looked after: it waits in the queue at its distance, or it
/// is settled and none of its arcs can shorten a distance.
pub open spec fn covered(
    adj: Seq<Vec<usize>>,
    a: Seq<Edge>,
    pi: Seq<i64>,
    pref: Seq<usize>,
    dist: Seq<i64>,
    done: Seq<bool>,
    heap: Multiset<Entry>,
    x: int,
) -> bool {
    heap.count((dist[x], x as usize)) > 0 || (done[x] && out_closed(
        adj,
        a,
        pi,
        pref,
        dist,
        x,
        adj[x]@.len() as int,
    ))
}

/// Number of nodes that the search has settled.
pub open spec fn lit(done: Seq<bool>) -> int
    decreases done.len(),
{
    if done.len() == 0 {
        0
    } else {
        lit(done.drop_last()) + if done.last() {
            1int
        } else {
            0int
        }
    }
}

/// Settling one more node raises the count by one.
pub proof fn lemma_lit_set(done: Seq<bool>, v: int)
    requires
        0 <= v < done.len(),
        !done[v],
    ensures
        lit(done.update(v, true)) == lit(done) + 1,
        lit(done) < done.len(),
        0 <= lit(done),
    decreases done.len(),
{
    let next = done.update(v, true);
    if v == done.len() - 1 {
        assert(next.drop_last() =~= done.drop_last());
        lemma_lit_bound(done.drop_last());
    } else {
        assert(next.drop_last() =~= done.drop_last().update(v, true));
        lemma_lit_set(done.drop_last(), v);
    }
}

/// No more nodes are settled than there are.
pub proof fn lemma_lit_bound(done: Seq<bool>)
    ensures
        0 <= lit(done) <= done.len(),
    decreases done.len(),
{
    if done.len() > 0 {
        lemma_lit_bound(done.drop_last());
    }
}

/// Potentials under which the search with reduced costs cannot go astray:
/// no potential is the sentinel; no arc with residual capacity has a
/// reduced cost below nothing or above `c`, with `c` so small that a path
/// over all the nodes stays below the sentinel; and the potentials lie so
/// near that of the source that every distance, turned back into a plain
/// distance, stays within the range of the sentinel.
#[verifier::opaque]
pub open spec fn gentle(a: Seq<Edge>, n: int, pi: Seq<i64>, c: int) -> bool {
    &&& pi.len() == n
    &&& all_priced(pi)
    &&& c >= 0
    &&& n * c < INF
    &&& forall|i: int| 0 <= i < a.len() && (#[trigger] a[i]).f > 0 ==> 0 <= reduced_cost(a, pi, i) <= c
    &&& forall|v: int| 0 <= v < n ==> -INF < #[trigger] pi[v] - pi[0] && pi[v] - pi[0] + n * c < INF
}

/// What the search with reduced costs keeps under gentle potentials: no
/// distance is negative or further than a path over the nodes reached so
/// far can lead; no entry of the queue lies below the last key that left
/// it, nor below the distance of its node; no node waits twice at its
/// distance; and a settled node lies no further than the last key and
/// waits no more.
#[verifier::opaque]
pub open spec fn orderly(
    n: int,
    c: int,
    pref: Seq<usize>,
    dist: Seq<i64>,
    done: Seq<bool>,
    heap: Multiset<Entry>,
    low: int,
) -> bool {
    &&& pref.len() == n && dist.len() == n && done.len() == n
    &&& 2 <= n <= usize::MAX
    &&& low >= 0
    &&& forall|v: int| 0 <= v < n ==> (#[trigger] dist[v]) >= 0
    &&& forall|v: int|
        0 <= v < n && #[trigger] pref[v] != usize::MAX ==> dist[v] <= (reached(pref) - 1) * c
    &&& forall|x: Entry| #[trigger] heap.count(x) > 0 ==> x.1 < n && x.0 >= low && x.0 >= dist[x.1 as int]
    &&& forall|v: int| 0 <= v < n ==> #[trigger] heap.count((dist[v], v as usize)) <= 1
    &&& forall|v: int|
        0 <= v < n && #[trigger] done[v] ==> dist[v] <= low && heap.count((dist[v], v as usize)) == 0
}

/// Taking the least entry out of the queue keeps the search orderly, with
/// the key of that entry as the last key. Where the entry holds the
/// distance of its node, the node was not settled, and may be now.
pub proof fn lemma_reduced_pop(
    n: int,
    c: int,
    pref: Seq<usize>,
    dist: Seq<i64>,
    done: Seq<bool>,
    heap: Multiset<Entry>,
    low: int,
    m: Entry,
)
    requires
        orderly(n, c, pref, dist, done, heap, low),
        heap.count(m) > 0,
        forall|y: Entry| heap.count(y) > 0 ==> entry_le(m, y),
    ensures
        low <= m.0,
        orderly(n, c, pref, dist, done, heap.remove(m), m.0 as int),
        m.0 == dist[m.1 as int] ==> !done[m.1 as int] && orderly(
            n,
            c,
            pref,
            dist,
            done.update(m.1 as int, true),
            heap.remove(m),
            m.0 as int,
        ),
{
    reveal(orderly);
    let rest = heap.remove(m);
    assert forall|x: Entry| #[trigger] rest.count(x) > 0 implies heap.count(x) > 0 by {
        if x != m {
            assert(rest.count(x) == heap.count(x));
        }
    }
    assert forall|x: Entry| #[trigger] rest.count(x) > 0 implies x.1 < n && x.0 >= m.0 && x.0
        >= dist[x.1 as int] by {
        assert(heap.count(x) > 0);
        assert(entry_le(m, x));
    }
    assert forall|v: int| 0 <= v < n implies #[trigger] rest.count((dist[v], v as usize)) <= 1 by {
        assert(heap.count((dist[v], v as usize)) <= 1);
    }
    assert forall|v: int| 0 <= v < n && #[trigger] done[v] implies dist[v] <= m.0 && rest.count(
        (dist[v], v as usize),
    ) == 0 by {
        assert(heap.count((dist[v], v as usize)) == 0);
    }
    if m.0 == dist[m.1 as int] {
        let u = m.1 as int;
        assert(heap.count((dist[u], u as usize)) <= 1);
        assert(m == (dist[u], u as usize));
        let next = done.update(u, true);
        assert forall|v: int| 0 <= v < n && #[trigger] next[v] implies dist[v] <= m.0 && rest.count(
            (dist[v], v as usize),
        ) == 0 by {
            if v != u {
                assert(done[v]);
            }
        }
    }
}

/// One arc out of the node that was settled last, under gentle
/// potentials: what the arc offers its head is neither negative nor, where
/// the head is out of reach, as far as the sentinel; and where it is nearer
/// than the distance of the head, the head is not settled, and lowering it
/// to that and queueing it keeps the search orderly.
pub proof fn lemma_reduced_relax(
    a: Seq<Edge>,
    n: int,
    pi: Seq<i64>,
    c: int,
    pref: Seq<usize>,
    dist: Seq<i64>,
    done: Seq<bool>,
    heap: Multiset<Entry>,
    low: int,
    id: usize,
)
    requires
        arcs_wf(a, n),
        gentle(a, n, pi, c),
        orderly(n, c, pref, dist, done, heap, low),
        id < a.len(),
        a[id as int].f > 0,
        pref[a[mate(id as int)].to as int] != usize::MAX,
        dist[a[mate(id as int)].to as int] == low,
    ensures
        0 <= low + reduced_cost(a, pi, id as int),
        dist[a[id as int].to as int] == INF ==> low + reduced_cost(a, pi, id as int) < INF,
        low + reduced_cost(a, pi, id as int) < dist[a[id as int].to as int] ==> {
            let v = a[id as int].to;
            let nd = (low + reduced_cost(a, pi, id as int)) as i64;
            &&& !done[v as int]
            &&& low + reduced_cost(a, pi, id as int) < INF
            &&& orderly(
                n,
                c,
                pref.update(v as int, a[mate(id as int)].to),
                dist.update(v as int, nd),
                done,
                heap.insert((nd, v)),
                low,
            )
        },
{
    reveal(orderly);
    reveal(gentle);
    let e = id as int;
    let u = a[mate(e)].to as int;
    let v = a[e].to as int;
    let nd = low + reduced_cost(a, pi, e);
    assert(0 <= mate(e) < a.len());
    assert(0 <= u < n && 0 <= v < n);
    assert(0 <= reduced_cost(a, pi, e) <= c);
    lemma_reached_bound(pref);
    let r = reached(pref);
    lemma_span(r, n, c);
    assert(dist[u] <= (r - 1) * c);
    assert(dist[v] >= 0);
    if pref[v] != usize::MAX {
        assert(dist[v] <= (r - 1) * c);
    } else {
        lemma_reached_room(pref, v);
        lemma_span(r + 1, n, c);
    }
    if nd < dist[v] {
        if done[v] {
            assert(dist[v] <= low);
        }
        let pref1 = pref.update(v, u as usize);
        let dist1 = dist.update(v, nd as i64);
        let x0: Entry = (nd as i64, v as usize);
        let heap1 = heap.insert(x0);
        lemma_reached_update(pref, v, u as usize);
        let r1 = reached(pref1);
        lemma_reached_bound(pref1);
        lemma_span(r1, n, c);
        assert(heap.count(x0) == 0) by {
            if heap.count(x0) > 0 {
                assert(x0.0 >= dist[x0.1 as int]);
            }
        }
        assert forall|w: int| 0 <= w < n implies (#[trigger] dist1[w]) >= 0 by {
            if w != v {
                assert(dist[w] >= 0);
            }
        }
        assert forall|w: int| 0 <= w < n && #[trigger] pref1[w] != usize::MAX implies dist1[w] <= (r1
            - 1) * c by {
            if w != v {
                assert(pref[w] != usize::MAX);
                assert(dist[w] <= (r - 1) * c);
            }
        }
        assert forall|x: Entry| #[trigger] heap1.count(x) > 0 implies x.1 < n && x.0 >= low && x.0
            >= dist1[x.1 as int] by {
            if x != x0 {
                assert(heap.count(x) > 0);
            }
        }
        assert forall|w: int| 0 <= w < n implies #[trigger] heap1.count((dist1[w], w as usize))
            <= 1 by {
            if w != v {
                assert(heap.count((dist[w], w as usize)) <= 1);
            }
        }
        assert forall|w: int| 0 <= w < n && #[trigger] done[w] implies dist1[w] <= low && heap1.count(
            (dist1[w], w as usize),
        ) == 0 by {
            assert(w != v);
            assert(heap.count((dist[w], w as usize)) == 0);
        }
    }
}

/// A search that starts under gentle potentials starts orderly.
pub proof fn lemma_reduced_start(
    n: int,
    c: int,
    pref: Seq<usize>,
    dist: Seq<i64>,
    done: Seq<bool>,
    heap: Multiset<Entry>,
)
    requires
        2 <= n <= usize::MAX,
        c >= 0,
        pref.len() == n,
        dist.len() == n,
        done.len() == n,
        pref[0] == 0,
        dist[0] == 0,
        forall|v: int| 0 < v < n ==> pref[v] == usize::MAX && dist[v] == INF,
        forall|v: int| 0 <= v < n ==> !done[v],
        heap == Multiset::<Entry>::empty().insert((0i64, 0usize)),
    ensures
        orderly(n, c, pref, dist, done, heap, 0),
{
    reveal(orderly);
    assert forall|v: int| 0 <= v < n && #[trigger] pref[v] != usize::MAX implies dist[v] <= (reached(
        pref,
    ) - 1) * c by {
        lemma_reached_bound(pref);
        assert(v == 0);
        let blank = pref.update(0, usize::MAX);
        crate::optimizer::flow::search::lemma_reached_none(blank);
        lemma_reached_update(blank, 0, 0);
        assert(blank.update(0, 0) =~= pref);
        assert(0 * c == 0) by (nonlinear_arith);
    }
    assert forall|x: Entry| #[trigger] heap.count(x) > 0 implies x.1 < n && x.0 >= 0 && x.0
        >= dist[x.1 as int] by {
        assert(x == (0i64, 0usize));
    }
}

/// In an orderly search every node that was reached lies between nothing
/// and what a path over all the nodes can cost.
pub proof fn lemma_orderly_range(
    n: int,
    c: int,
    pref: Seq<usize>,
    dist: Seq<i64>,
    done: Seq<bool>,
    heap: Multiset<Entry>,
    low: int,
)
    requires
        orderly(n, c, pref, dist, done, heap, low),
        c >= 0,
    ensures
        forall|v: int| 0 <= v < n && #[trigger] pref[v] != usize::MAX ==> 0 <= dist[v] <= (n - 1) * c,
{
    reveal(orderly);
    lemma_reached_bound(pref);
    assert forall|v: int| 0 <= v < n && #[trigger] pref[v] != usize::MAX implies 0 <= dist[v] <= (n
        - 1) * c by {
        assert(dist[v] >= 0);
        assert((reached(pref) - 1) * c <= (n - 1) * c) by (nonlinear_arith)
            requires
                reached(pref) <= n,
                c >= 0,
        ;
    }
}

/// Every node that was reached, but for `skip`, is looked after.
#[verifier::opaque]
pub open spec fn tended(
    adj: Seq<Vec<usize>>,
    a: Seq<Edge>,
    pi: Seq<i64>,
    pref: Seq<usize>,
    dist: Seq<i64>,
    done: Seq<bool>,
    heap: Multiset<Entry>,
    skip: int,
) -> bool {
    forall|x: int|
        0 <= x < pref.len() && x != skip && pref[x] != usize::MAX ==> #[trigger] covered(
            adj,
            a,
            pi,
            pref,
            dist,
            done,
            heap,
            x,
        )
}

/// The node `u` that the search is settling, which left the queue at the
/// key `d`, waits in the queue again, or lies at `d` and none of its first
/// `j` arcs can shorten a distance.
#[verifier::opaque]
pub open spec fn own(
    adj: Seq<Vec<usize>>,
    a: Seq<Edge>,
    pi: Seq<i64>,
    pref: Seq<usize>,
    dist: Seq<i64>,
    heap: Multiset<Entry>,
    u: int,
    d: int,
    j: int,
) -> bool {
    heap.count((dist[u], u as usize)) > 0 || (dist[u] == d && out_closed(adj, a, pi, pref, dist, u, j))
}

/// A search that has reached the source alone, which waits in the queue,
/// looks after every node it has reached.
pub proof fn lemma_tend_start(
    adj: Seq<Vec<usize>>,
    a: Seq<Edge>,
    pi: Seq<i64>,
    pref: Seq<usize>,
    dist: Seq<i64>,
    done: Seq<bool>,
    heap: Multiset<Entry>,
)
    requires
        forall|v: int| 0 < v < pref.len() ==> pref[v] == usize::MAX,
        heap.count((dist[0], 0usize)) > 0,
    ensures
        tended(adj, a, pi, pref, dist, done, heap, -1),
{
    reveal(tended);
}

/// Taking an entry out of the queue that is not the distance of its node,
/// or whose node is out of reach, leaves every node looked after.
pub proof fn lemma_tend_stale(
    adj: Seq<Vec<usize>>,
    a: Seq<Edge>,
    pi: Seq<i64>,
    pref: Seq<usize>,
    dist: Seq<i64>,
    done: Seq<bool>,
    heap: Multiset<Entry>,
    m: Entry,
)
    requires
        tended(adj, a, pi, pref, dist, done, heap, -1),
        m.1 < pref.len(),
        pref.len() <= usize::MAX,
        m.0 != dist[m.1 as int] || pref[m.1 as int] == usize::MAX,
    ensures
        tended(adj, a, pi, pref, dist, done, heap.remove(m), -1),
{
    reveal(tended);
    let rest = heap.remove(m);
    assert forall|x: int| 0 <= x < pref.len() && pref[x] != usize::MAX implies #[trigger] covered(
        adj,
        a,
        pi,
        pref,
        dist,
        done,
        rest,
        x,
    ) by {
        assert(covered(adj, a, pi, pref, dist, done, heap, x));
        assert((dist[x], x as usize) != m);
    }
}

/// Taking a node out of the queue at its distance, to settle it, leaves
/// every other node looked after.
pub proof fn lemma_tend_take(
    adj: Seq<Vec<usize>>,
    a: Seq<Edge>,
    pi: Seq<i64>,
    pref: Seq<usize>,
    dist: Seq<i64>,
    done: Seq<bool>,
    heap: Multiset<Entry>,
    u: usize,
)
    requires
        tended(adj, a, pi, pref, dist, done, heap, -1),
        u < pref.len(),
        pref.len() <= usize::MAX,
        done.len() == pref.len(),
    ensures
        tended(adj, a, pi, pref, dist, done.update(u as int, true), heap.remove((dist[u as int], u)), u as int),
        own(adj, a, pi, pref, dist, heap.remove((dist[u as int], u)), u as int, dist[u as int] as int, 0),
{
    reveal(tended);
    reveal(own);
    let rest = heap.remove((dist[u as int], u));
    let next = done.update(u as int, true);
    assert forall|x: int|
        0 <= x < pref.len() && x != u && pref[x] != usize::MAX implies #[trigger] covered(
        adj,
        a,
        pi,
        pref,
        dist,
        next,
        rest,
        x,
    ) by {
        assert(covered(adj, a, pi, pref, dist, done, heap, x));
        assert((dist[x], x as usize) != (dist[u as int], u));
    }
}

/// Lowering the head of arc `j` out of the node `u` that is being settled
/// to what the arc offers, and queueing the head, leaves every other node
/// looked after, and the first `j + 1` arcs out of `u` closed unless `u`
/// waits again.
pub proof fn lemma_tend_relax(
    adj: Seq<Vec<usize>>,
    a: Seq<Edge>,
    n: int,
    pi: Seq<i64>,
    pref: Seq<usize>,
    dist: Seq<i64>,
    done: Seq<bool>,
    heap: Multiset<Entry>,
    u: usize,
    d: int,
    j: int,
    nd: i64,
)
    requires
        arcs_wf(a, n),
        adjacency_wf(adj, a),
        n <= usize::MAX,
        adj.len() == n,
        pref.len() == n,
        dist.len() == n,
        done.len() == n,
        u < n,
        0 <= j < adj[u as int]@.len(),
        tended(adj, a, pi, pref, dist, done, heap, u as int),
        own(adj, a, pi, pref, dist, heap, u as int, d, j),
        pref[u as int] != usize::MAX,
        nd == d + reduced_cost(a, pi, adj[u as int]@[j] as int),
        nd < dist[a[adj[u as int]@[j] as int].to as int],
    ensures
        ({
            let id = adj[u as int]@[j];
            let v = a[id as int].to;
            let pref1 = pref.update(v as int, u);
            let dist1 = dist.update(v as int, nd);
            let heap1 = heap.insert((nd, v));
            &&& tended(adj, a, pi, pref1, dist1, done, heap1, u as int)
            &&& own(adj, a, pi, pref1, dist1, heap1, u as int, d, j + 1)
        }),
{
    reveal(tended);
    reveal(own);
    let id = adj[u as int]@[j];
    let v = a[id as int].to;
    let pref1 = pref.update(v as int, u);
    let dist1 = dist.update(v as int, nd);
    let heap1 = heap.insert((nd, v));
    assert(0 <= id < a.len() && a[mate(id as int)].to == u);
    assert(0 <= v < n);
    assert forall|x: int| 0 <= x < n && x != u && pref1[x] != usize::MAX implies #[trigger] covered(
        adj,
        a,
        pi,
        pref1,
        dist1,
        done,
        heap1,
        x,
    ) by {
        if x != v {
            assert(covered(adj, a, pi, pref, dist, done, heap, x));
            if heap.count((dist[x], x as usize)) == 0 {
                lemma_out_closed_mono(adj, a, pi, pref, dist, pref1, dist1, x, adj[x]@.len() as int);
            }
        }
    }
    if v != u && heap.count((dist[u as int], u)) == 0 {
        lemma_out_closed_mono(adj, a, pi, pref, dist, pref1, dist1, u as int, j);
        assert(arc_closed(a, pi, pref1, dist1, id as int));
    }
}

/// An arc out of the node `u` that is being settled that is passed by, or
/// that offers its head no less than the head's distance, is closed.
pub proof fn lemma_tend_pass(
    adj: Seq<Vec<usize>>,
    a: Seq<Edge>,
    pi: Seq<i64>,
    pref: Seq<usize>,
    dist: Seq<i64>,
    heap: Multiset<Entry>,
    u: usize,
    d: int,
    j: int,
)
    requires
        own(adj, a, pi, pref, dist, heap, u as int, d, j),
        0 <= j < adj[u as int]@.len(),
        a[mate(adj[u as int]@[j] as int)].to == u,
        ({
            let id = adj[u as int]@[j] as int;
            let v = a[id].to as int;
            !(a[id].f > 0 && pi[u as int] != INF && pi[v] != INF) || (pref[v] != usize::MAX && dist[v] <= d
                + reduced_cost(a, pi, id))
        }),
    ensures
        own(adj, a, pi, pref, dist, heap, u as int, d, j + 1),
{
    reveal(own);
    if heap.count((dist[u as int], u)) == 0 {
        assert(arc_closed(a, pi, pref, dist, adj[u as int]@[j] as int));
    }
}

/// Once all the arcs out of the node that is being settled are seen to,
/// every node is looked after.
pub proof fn lemma_tend_close(
    adj: Seq<Vec<usize>>,
    a: Seq<Edge>,
    pi: Seq<i64>,
    pref: Seq<usize>,
    dist: Seq<i64>,
    done: Seq<bool>,
    heap: Multiset<Entry>,
    u: usize,
    d: int,
)
    requires
        tended(adj, a, pi, pref, dist, done, heap, u as int),
        own(adj, a, pi, pref, dist, heap, u as int, d, adj[u as int]@.len() as int),
        u < done.len(),
        done[u as int],
    ensures
        tended(adj, a, pi, pref, dist, done, heap, -1),
{
    reveal(tended);
    reveal(own);
}

/// Once the queue is empty, no arc out of a node that was reached can
/// shorten a distance.
pub proof fn lemma_tend_arc(
    adj: Seq<Vec<usize>>,
    a: Seq<Edge>,
    n: int,
    pi: Seq<i64>,
    pref: Seq<usize>,
    dist: Seq<i64>,
    done: Seq<bool>,
    heap: Multiset<Entry>,
    i: int,
)
    requires
        arcs_wf(a, n),
        adjacency_wf(adj, a),
        n <= usize::MAX,
        pref.len() == n,
        tended(adj, a, pi, pref, dist, done, heap, -1),
        heap.len() == 0,
        0 <= i < a.len(),
        pref[a[mate(i)].to as int] != usize::MAX,
    ensures
        arc_closed(a, pi, pref, dist, i),
{
    reveal(tended);
    let x = a[mate(i)].to as int;
    assert(0 <= mate(i) < a.len());
    assert(0 <= x < n);
    assert(listed(adj, a, i));
    let k = choose|k: int| 0 <= k < adj[x]@.len() && #[trigger] adj[x]@[k] == i;
    assert(covered(adj, a, pi, pref, dist, done, heap, x));
    vstd::multiset::lemma_multiset_empty_len(heap);
    assert(heap.count((dist[x], x as usize)) == 0);
    assert(arc_closed(a, pi, pref, dist, adj[x]@[k] as int));
}

/// Under gentle potentials no node is passed by.
pub proof fn lemma_gentle_priced(a: Seq<Edge>, n: int, pi: Seq<i64>, c: int)
    requires
        gentle(a, n, pi, c),
    ensures
        all_priced(pi),
        c >= 0,
{
    reveal(gentle);
}

/// Under gentle potentials a distance that an orderly search found stays
/// within the range of the sentinel when it is turned back into a plain
/// distance.
pub proof fn lemma_gentle_plain(a: Seq<Edge>, n: int, pi: Seq<i64>, c: int, red: int, v: int)
    requires
        gentle(a, n, pi, c),
        0 <= v < n,
        0 <= red <= (n - 1) * c,
    ensures
        -INF < red - pi[0] + pi[v] < INF,
{
    reveal(gentle);
    assert((n - 1) * c <= n * c) by (nonlinear_arith)
        requires
            c >= 0,
    ;
    assert(-INF < pi[v] - pi[0] && pi[v] - pi[0] + n * c < INF);
}

/// A search that passed no node by, whose queue is empty and that did not
/// reach the sink leaves a saturated cut: the nodes that it reached.
pub proof fn lemma_tend_cut(
    adj: Seq<Vec<usize>>,
    a: Seq<Edge>,
    n: int,
    pi: Seq<i64>,
    pref: Seq<usize>,
    dist: Seq<i64>,
    done: Seq<bool>,
    heap: Multiset<Entry>,
)
    requires
        arcs_wf(a, n),
        adjacency_wf(adj, a),
        2 <= n <= usize::MAX,
        pref.len() == n,
        pi.len() == n,
        all_priced(pi),
        tended(adj, a, pi, pref, dist, done, heap, -1),
        heap.len() == 0,
        pref[0] != usize::MAX,
        pref[1] == usize::MAX,
    ensures
        saturated(a),
{
    let reach = Set::new(|v: int| 0 <= v < n && pref[v] != usize::MAX);
    assert forall|i: int|
        0 <= i < a.len() && a[i].f > 0 && reach.contains((#[trigger] a[mate(i)]).to as int)
            implies reach.contains(a[i].to as int) by {
        assert(0 <= a[i].to < n);
        assert(0 <= mate(i) < a.len());
        assert(0 <= a[mate(i)].to < n);
        lemma_tend_arc(adj, a, n, pi, pref, dist, done, heap, i);
    }
    assert(is_cut(a, reach));
}

/// A search that passed no node by and whose queue is empty has settled
/// once its distances are turned back into plain distances: no arc with
/// residual capacity out of a node that was reached can shorten a
/// distance.
pub proof fn lemma_tend_settled(
    adj: Seq<Vec<usize>>,
    a: Seq<Edge>,
    n: int,
    pi: Seq<i64>,
    pref: Seq<usize>,
    red: Seq<i64>,
    dist: Seq<i64>,
    done: Seq<bool>,
    heap: Multiset<Entry>,
)
    requires
        arcs_wf(a, n),
        adjacency_wf(adj, a),
        2 <= n <= usize::MAX,
        pref.len() == n,
        pi.len() == n,
        all_priced(pi),
        tended(adj, a, pi, pref, red, done, heap, -1),
        heap.len() == 0,
        forall|v: int| 0 <= v < n && #[trigger] pref[v] != usize::MAX ==> dist[v] == red[v] - pi[0] + pi[v],
    ensures
        forall|i: int|
            0 <= i < a.len() && a[i].f > 0 && pref[(#[trigger] a[mate(i)]).to as int] != usize::MAX
                ==> pref[a[i].to as int] != usize::MAX && dist[a[i].to as int] <= dist[a[mate(
                i,
            )].to as int] + a[i].cost,
{
    assert forall|i: int|
        0 <= i < a.len() && a[i].f > 0 && pref[(#[trigger] a[mate(i)]).to as int]
            != usize::MAX implies pref[a[i].to as int] != usize::MAX && dist[a[i].to as int] <= dist[a[mate(
        i,
    )].to as int] + a[i].cost by {
        assert(0 <= mate(i) < a.len());
        assert(0 <= a[i].to < n);
        assert(0 <= a[mate(i)].to < n);
        lemma_tend_arc(adj, a, n, pi, pref, red, done, heap, i);
        assert(pi[a[i].to as int] != INF);
        assert(pi[a[mate(i)].to as int] != INF);
    }
}

} // verus!
