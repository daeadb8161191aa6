use crate::optimizer::flow::mcmf::{
    arcs_wf, cost_upto, excess, excess_upto, mate, pair_capacity, pair_flow,
    same_network, Edge,
};
use vstd::prelude::*;

verus! {

/// `b` is a later state of the network `a`: it keeps the heads, costs and
/// pair capacities of the arcs of `a` and may hold more arcs behind them.
pub open spec fn extends(a: Seq<Edge>, b: Seq<Edge>) -> bool {
    &&& a.len() <= b.len()
    &&& a.len() % 2 == 0
    &&& b.len() % 2 == 0
    &&& forall|i: int| 0 <= i < a.len() ==> (#[trigger] b[i]).to == a[i].to && b[i].cost == a[i].cost
    &&& forall|i: int|
        0 <= i < a.len() ==> (#[trigger] b[mate(i)]).f + b[i].f == a[mate(i)].f + a[i].f
}

/// No pair carries flow.
pub open spec fn pristine(a: Seq<Edge>) -> bool {
    forall|i: int| 0 <= i < a.len() && i % 2 == 1 ==> (#[trigger] a[i]).f == 0
}

/// No pair leaves the sink.
pub open spec fn sink_absorbs(a: Seq<Edge>) -> bool {
    forall|i: int| 0 <= i < a.len() && i % 2 == 1 ==> (#[trigger] a[i]).to != 1
}

/// Capacity into the sink over the first `m` pairs.
pub open spec fn sink_capacity_upto(a: Seq<Edge>, m: int) -> int
    decreases m,
{
    if m <= 0 {
        0
    } else {
        sink_capacity_upto(a, m - 1) + if a[2 * (m - 1)].to == 1 {
            pair_capacity(a, m - 1)
        } else {
            0
        }
    }
}

/// Total capacity of the pairs that lead into the sink: what the loads
/// demand.
pub open spec fn sink_capacity(a: Seq<Edge>) -> int {
    sink_capacity_upto(a, a.len() as int / 2)
}

/// Every state of a network is a later state of itself.
pub proof fn lemma_extends_refl(a: Seq<Edge>)
    requires
        a.len() % 2 == 0,
    ensures
        extends(a, a),
{
}

/// A later state of a later state is a later state.
pub proof fn lemma_extends_trans(a: Seq<Edge>, b: Seq<Edge>, c: Seq<Edge>)
    requires
        extends(a, b),
        extends(b, c),
    ensures
        extends(a, c),
{
    assert forall|i: int| 0 <= i < a.len() implies (#[trigger] c[i]).to == a[i].to && c[i].cost
        == a[i].cost by {
        assert(b[i].to == a[i].to);
    }
    assert forall|i: int| 0 <= i < a.len() implies (#[trigger] c[mate(i)]).f + c[i].f == a[mate(
        i,
    )].f + a[i].f by {
        assert(b[mate(i)].f + b[i].f == a[mate(i)].f + a[i].f);
    }
}

/// Moving residuals inside the pairs gives a later state.
pub proof fn lemma_same_network_extends(a: Seq<Edge>, b: Seq<Edge>)
    requires
        same_network(a, b),
        a.len() % 2 == 0,
    ensures
        extends(a, b),
{
}

/// Appending a pair gives a later state.
pub proof fn lemma_push_extends(a: Seq<Edge>, fwd: Edge, rev: Edge)
    requires
        a.len() % 2 == 0,
    ensures
        extends(a, a.push(fwd).push(rev)),
{
    let b = a.push(fwd).push(rev);
    assert forall|i: int| 0 <= i < a.len() implies (#[trigger] b[mate(i)]).f + b[i].f == a[mate(
        i,
    )].f + a[i].f by {
        assert(0 <= mate(i) < a.len());
    }
}

/// Pairs without flow cost nothing and leave no node with an excess.
pub proof fn lemma_pristine_sums(a: Seq<Edge>, v: int, m: int)
    requires
        pristine(a),
        0 <= 2 * m <= a.len(),
    ensures
        excess_upto(a, v, m) == 0,
        cost_upto(a, m) == 0,
    decreases m,
{
    if m > 0 {
        lemma_pristine_sums(a, v, m - 1);
        assert(a[2 * (m - 1) + 1].f == 0);
        assert(a[2 * (m - 1)].cost * 0 == 0);
    }
}

/// The capacity into the sink over pairs that two states share.
pub proof fn lemma_sink_capacity_frame(a: Seq<Edge>, b: Seq<Edge>, m: int)
    requires
        extends(a, b),
        0 <= 2 * m <= a.len(),
    ensures
        sink_capacity_upto(b, m) == sink_capacity_upto(a, m),
    decreases m,
{
    if m > 0 {
        lemma_sink_capacity_frame(a, b, m - 1);
        let i = 2 * (m - 1);
        assert(b[i].to == a[i].to);
        assert(mate(i) == i + 1);
        assert(b[mate(i)].f + b[i].f == a[mate(i)].f + a[i].f);
    }
}

/// A state with the same pairs demands the same.
pub proof fn lemma_sink_capacity_same(a: Seq<Edge>, b: Seq<Edge>)
    requires
        extends(a, b),
        a.len() == b.len(),
    ensures
        sink_capacity(b) == sink_capacity(a),
{
    lemma_sink_capacity_frame(a, b, a.len() as int / 2);
}

/// A pair appended towards the sink adds its capacity to the demand, any
/// other pair adds nothing.
pub proof fn lemma_sink_capacity_push(a: Seq<Edge>, fwd: Edge, rev: Edge)
    requires
        a.len() % 2 == 0,
    ensures
        sink_capacity(a.push(fwd).push(rev)) == sink_capacity(a) + if fwd.to == 1 {
            fwd.f + rev.f
        } else {
            0
        },
{
    let b = a.push(fwd).push(rev);
    lemma_push_extends(a, fwd, rev);
    lemma_sink_capacity_frame(a, b, a.len() as int / 2);
    assert(b[a.len() as int] == fwd);
    assert(b[a.len() as int + 1] == rev);
}

/// Where no pair leaves the sink, what reaches the sink is at most what the
/// loads demand. The two are equal only if every pair into the sink is full.
pub proof fn lemma_sink_bound(a: Seq<Edge>, n: int, m: int)
    requires
        arcs_wf(a, n),
        sink_absorbs(a),
        0 <= 2 * m <= a.len(),
    ensures
        excess_upto(a, 1, m) <= sink_capacity_upto(a, m),
        excess_upto(a, 1, m) == sink_capacity_upto(a, m) ==> forall|k: int|
            0 <= k < m && a[2 * k].to == 1 ==> #[trigger] pair_flow(a, k) == pair_capacity(a, k),
    decreases m,
{
    if m > 0 {
        lemma_sink_bound(a, n, m - 1);
        let i = 2 * (m - 1);
        assert(a[i + 1].to != 1);
        assert(a[i].f >= 0);
        assert(mate(i) == i + 1);
        if excess_upto(a, 1, m) == sink_capacity_upto(a, m) {
            assert forall|k: int| 0 <= k < m && a[2 * k].to == 1 implies #[trigger] pair_flow(a, k)
                == pair_capacity(a, k) by {
            }
        }
    }
}

/// Where no pair leaves the sink, what reaches the sink and what a pair
/// into the sink can still take are together at most what the loads demand.
pub proof fn lemma_sink_room(a: Seq<Edge>, n: int, m: int, k: int)
    requires
        arcs_wf(a, n),
        sink_absorbs(a),
        0 <= 2 * m <= a.len(),
        0 <= 2 * k < a.len(),
        a[2 * k].to == 1,
    ensures
        excess_upto(a, 1, m) + (if k < m {
            a[2 * k].f as int
        } else {
            0
        }) <= sink_capacity_upto(a, m),
    decreases m,
{
    if m > 0 {
        lemma_sink_room(a, n, m - 1, k);
        let i = 2 * (m - 1);
        assert(a[i + 1].to != 1);
        assert(a[i].f >= 0);
        assert(a[i + 1].f >= 0);
        assert(mate(i) == i + 1);
    }
}

/// Over a stretch of pairs none of which touches `v`, the excess of `v`
/// does not move.
pub proof fn lemma_excess_skip(a: Seq<Edge>, v: int, lo: int, hi: int)
    requires
        0 <= lo <= hi,
        2 * hi <= a.len(),
        forall|i: int| 2 * lo <= i < 2 * hi ==> (#[trigger] a[i]).to != v,
    ensures
        excess_upto(a, v, hi) == excess_upto(a, v, lo),
    decreases hi - lo,
{
    if hi > lo {
        lemma_excess_skip(a, v, lo, hi - 1);
        assert(a[2 * (hi - 1)].to != v);
        assert(a[2 * (hi - 1) + 1].to != v);
    }
}

/// Flow over the pairs from `lo` up to `hi`.
pub open spec fn flow_between(a: Seq<Edge>, lo: int, hi: int) -> int
    decreases hi - lo,
{
    if hi <= lo {
        0
    } else {
        flow_between(a, lo, hi - 1) + pair_flow(a, hi - 1)
    }
}

/// Over a stretch of pairs that all lead into `v` and do not leave it, the
/// excess of `v` grows by the flow of the stretch.
pub proof fn lemma_excess_inflow(a: Seq<Edge>, v: int, lo: int, hi: int)
    requires
        0 <= lo <= hi,
        2 * hi <= a.len(),
        forall|k: int| lo <= k < hi ==> (#[trigger] a[2 * k]).to == v,
        forall|k: int| lo <= k < hi ==> (#[trigger] a[2 * k + 1]).to != v,
    ensures
        excess_upto(a, v, hi) == excess_upto(a, v, lo) + flow_between(a, lo, hi),
    decreases hi - lo,
{
    if hi > lo {
        lemma_excess_inflow(a, v, lo, hi - 1);
        assert(a[2 * (hi - 1)].to == v);
        assert(a[2 * (hi - 1) + 1].to != v);
    }
}

/// Over a stretch of pairs of unit cost `c`, the cost grows by `c` times
/// the flow of the stretch.
pub proof fn lemma_cost_uniform(a: Seq<Edge>, c: int, lo: int, hi: int)
    requires
        0 <= lo <= hi,
        2 * hi <= a.len(),
        forall|k: int| lo <= k < hi ==> (#[trigger] a[2 * k]).cost == c,
    ensures
        cost_upto(a, hi) == cost_upto(a, lo) + c * flow_between(a, lo, hi),
    decreases hi - lo,
{
    if hi > lo {
        lemma_cost_uniform(a, c, lo, hi - 1);
        assert(a[2 * (hi - 1)].cost == c);
        assert(c * (flow_between(a, lo, hi - 1) + pair_flow(a, hi - 1)) == c * flow_between(
            a,
            lo,
            hi - 1,
        ) + c * pair_flow(a, hi - 1)) by (nonlinear_arith);
    }
    else {
        assert(c * 0 == 0);
    }
}

/// Capacity into the sink over a stretch of pairs that all lead into the
/// sink and are all full: it is the flow of the stretch.
pub proof fn lemma_sink_stretch_full(a: Seq<Edge>, lo: int, hi: int)
    requires
        0 <= lo <= hi,
        2 * hi <= a.len(),
        forall|k: int| lo <= k < hi ==> (#[trigger] a[2 * k]).to == 1,
        forall|k: int| lo <= k < hi ==> #[trigger] pair_flow(a, k) == pair_capacity(a, k),
    ensures
        sink_capacity_upto(a, hi) == sink_capacity_upto(a, lo) + flow_between(a, lo, hi),
    decreases hi - lo,
{
    if hi > lo {
        lemma_sink_stretch_full(a, lo, hi - 1);
        assert(a[2 * (hi - 1)].to == 1);
        assert(pair_flow(a, hi - 1) == pair_capacity(a, hi - 1));
    }
}

} // verus!
