use crate::optimizer::flow::maxflow::lemma_saturated_is_maximum;
use crate::optimizer::flow::mcmf::{
    arcs_wf, conserving, cost_upto, excess, excess_term, excess_upto, lemma_same_network_sym, mate,
    pair_flow, same_network, saturated, total_cost, Edge,
};
use vstd::prelude::*;

verus! {

/// The potentials `p` price the flow: under them no arc with residual
/// capacity has a negative reduced cost, which is the cost of the arc plus
/// the potential of its tail minus the potential of its head.
pub open spec fn potentials_valid(a: Seq<Edge>, p: Seq<int>) -> bool {
    forall|i: int|
        0 <= i < a.len() && a[i].f > 0 ==> a[i].cost + p[(#[trigger] a[mate(i)]).to as int] - p[a[i].to as int]
            >= 0
}

/// There are potentials that price the flow. Such a flow is a cheapest one
/// among the flows that leave every node with the same excess.
pub open spec fn priced(a: Seq<Edge>, n: int) -> bool {
    exists|p: Seq<int>| p.len() == n && potentials_valid(a, p)
}

/// Sum over the nodes below `n` of potential times excess over the first
/// `m` pairs.
pub open spec fn weighted_excess(a: Seq<Edge>, p: Seq<int>, n: int, m: int) -> int
    decreases n,
{
    if n <= 0 {
        0
    } else {
        weighted_excess(a, p, n - 1, m) + p[n - 1] * excess_upto(a, n - 1, m)
    }
}

/// Share of pair `k` in the weighted excess of the nodes below `n`.
pub open spec fn weighted_term(a: Seq<Edge>, p: Seq<int>, n: int, k: int) -> int
    decreases n,
{
    if n <= 0 {
        0
    } else {
        weighted_term(a, p, n - 1, k) + p[n - 1] * excess_term(a, k, n - 1)
    }
}

/// Sum over the first `m` pairs of flow times the rise of the potential
/// from tail to head.
pub open spec fn tension_upto(a: Seq<Edge>, p: Seq<int>, m: int) -> int
    decreases m,
{
    if m <= 0 {
        0
    } else {
        tension_upto(a, p, m - 1) + (p[a[2 * (m - 1)].to as int] - p[a[2 * (m - 1) + 1].to as int])
            * pair_flow(a, m - 1)
    }
}

/// Sum over the first `m` pairs of flow times reduced cost.
pub open spec fn reduced_upto(a: Seq<Edge>, p: Seq<int>, m: int) -> int
    decreases m,
{
    if m <= 0 {
        0
    } else {
        reduced_upto(a, p, m - 1) + (a[2 * (m - 1)].cost + p[a[2 * (m - 1) + 1].to as int] - p[a[2
            * (m - 1)].to as int]) * pair_flow(a, m - 1)
    }
}

proof fn lemma_distribute(p: int, x: int, y: int)
    ensures
        p * (x + y) == p * x + p * y,
        p * (x - y) == p * x - p * y,
        (x + y) * p == x * p + y * p,
        (x - y) * p == x * p - y * p,
        p * 0 == 0,
        0 * p == 0,
{
    assert(p * (x + y) == p * x + p * y) by (nonlinear_arith);
    assert(p * (x - y) == p * x - p * y) by (nonlinear_arith);
    assert((x + y) * p == x * p + y * p) by (nonlinear_arith);
    assert((x - y) * p == x * p - y * p) by (nonlinear_arith);
}

proof fn lemma_weighted_step(a: Seq<Edge>, p: Seq<int>, n: int, m: int)
    requires
        m >= 1,
    ensures
        weighted_excess(a, p, n, m) == weighted_excess(a, p, n, m - 1) + weighted_term(a, p, n, m - 1),
    decreases n,
{
    if n > 0 {
        lemma_weighted_step(a, p, n - 1, m);
        lemma_distribute(p[n - 1], excess_upto(a, n - 1, m - 1), excess_term(a, m - 1, n - 1));
    }
}

proof fn lemma_weighted_term(a: Seq<Edge>, p: Seq<int>, n: int, k: int)
    requires
        n >= 0,
    ensures
        weighted_term(a, p, n, k) == (if a[2 * k].to < n {
            p[a[2 * k].to as int] * pair_flow(a, k)
        } else {
            0
        }) - (if a[2 * k + 1].to < n {
            p[a[2 * k + 1].to as int] * pair_flow(a, k)
        } else {
            0
        }),
    decreases n,
{
    if n > 0 {
        lemma_weighted_term(a, p, n - 1, k);
        let f = pair_flow(a, k);
        lemma_distribute(p[n - 1], f, f);
        lemma_distribute(p[n - 1], f, 0);
        lemma_distribute(p[n - 1], 0, f);
    }
}

proof fn lemma_weighted_empty(a: Seq<Edge>, p: Seq<int>, n: int)
    ensures
        weighted_excess(a, p, n, 0) == 0,
    decreases n,
{
    if n > 0 {
        lemma_weighted_empty(a, p, n - 1);
        lemma_distribute(p[n - 1], 0, 0);
    }
}

/// Potential times excess, summed over the nodes, is flow times the rise
/// of the potential, summed over the pairs.
proof fn lemma_weighted_is_tension(a: Seq<Edge>, p: Seq<int>, n: int, m: int)
    requires
        n >= 0,
        arcs_wf(a, n),
        0 <= 2 * m <= a.len(),
    ensures
        weighted_excess(a, p, n, m) == tension_upto(a, p, m),
    decreases m,
{
    if m == 0 {
        lemma_weighted_empty(a, p, n);
    } else {
        lemma_weighted_is_tension(a, p, n, m - 1);
        lemma_weighted_step(a, p, n, m);
        lemma_weighted_term(a, p, n, m - 1);
        let k = m - 1;
        assert(0 <= a[2 * k].to < n);
        assert(0 <= a[2 * k + 1].to < n);
        lemma_distribute(pair_flow(a, k), p[a[2 * k].to as int], p[a[2 * k + 1].to as int]);
        assert(p[a[2 * k].to as int] * pair_flow(a, k) == pair_flow(a, k) * p[a[2 * k].to as int])
            by (nonlinear_arith);
        assert(p[a[2 * k + 1].to as int] * pair_flow(a, k) == pair_flow(a, k) * p[a[2 * k
            + 1].to as int]) by (nonlinear_arith);
        assert((p[a[2 * k].to as int] - p[a[2 * k + 1].to as int]) * pair_flow(a, k) == pair_flow(a, k)
            * (p[a[2 * k].to as int] - p[a[2 * k + 1].to as int])) by (nonlinear_arith);
    }
}

/// Flows that leave every node with the same excess have the same
/// weighted excess.
proof fn lemma_weighted_same(a: Seq<Edge>, b: Seq<Edge>, p: Seq<int>, n: int, upto: int)
    requires
        0 <= upto <= n,
        a.len() == b.len(),
        forall|v: int| 0 <= v < n ==> #[trigger] excess(a, v) == excess(b, v),
    ensures
        weighted_excess(a, p, upto, a.len() as int / 2) == weighted_excess(
            b,
            p,
            upto,
            b.len() as int / 2,
        ),
    decreases upto,
{
    if upto > 0 {
        lemma_weighted_same(a, b, p, n, upto - 1);
        assert(excess(a, upto - 1) == excess(b, upto - 1));
    }
}

/// The cost of a flow is its reduced cost plus its tension.
proof fn lemma_cost_split(a: Seq<Edge>, p: Seq<int>, m: int)
    requires
        m >= 0,
    ensures
        cost_upto(a, m) == reduced_upto(a, p, m) + tension_upto(a, p, m),
    decreases m,
{
    if m > 0 {
        lemma_cost_split(a, p, m - 1);
        let k = m - 1;
        let c = a[2 * k].cost as int;
        let d = p[a[2 * k].to as int] - p[a[2 * k + 1].to as int];
        lemma_distribute(pair_flow(a, k), c - d, d);
        assert((c - d) * pair_flow(a, k) + d * pair_flow(a, k) == c * pair_flow(a, k))
            by (nonlinear_arith);
    }
}

/// Under potentials that price the flow `a`, no flow on the same network
/// has a smaller reduced cost.
proof fn lemma_reduced_le(a: Seq<Edge>, b: Seq<Edge>, p: Seq<int>, n: int, m: int)
    requires
        arcs_wf(a, n),
        arcs_wf(b, n),
        same_network(a, b),
        potentials_valid(a, p),
        0 <= 2 * m <= a.len(),
    ensures
        reduced_upto(a, p, m) <= reduced_upto(b, p, m),
    decreases m,
{
    if m > 0 {
        lemma_reduced_le(a, b, p, n, m - 1);
        let i = 2 * (m - 1);
        assert(mate(i) == i + 1 && mate(i + 1) == i);
        assert(b[i].to == a[i].to && b[i + 1].to == a[i + 1].to && b[i].cost == a[i].cost);
        assert(b[mate(i)].f + b[i].f == a[mate(i)].f + a[i].f);
        assert(a[i].f >= 0 && a[i + 1].f >= 0 && b[i].f >= 0 && b[i + 1].f >= 0);
        assert(a[mate(i)].cost == -a[i].cost);
        let rc = a[i].cost + p[a[i + 1].to as int] - p[a[i].to as int];
        let fa = a[i + 1].f as int;
        let fb = b[i + 1].f as int;
        if fb > fa {
            assert(a[i].f > 0);
            assert(a[i].cost + p[a[mate(i)].to as int] - p[a[i].to as int] >= 0);
            assert(rc * fa <= rc * fb) by (nonlinear_arith)
                requires
                    rc >= 0,
                    fa < fb,
            ;
        } else if fb < fa {
            assert(a[i + 1].f > 0);
            assert(a[i + 1].cost + p[a[mate(i + 1)].to as int] - p[a[i + 1].to as int] >= 0);
            assert(rc * fa <= rc * fb) by (nonlinear_arith)
                requires
                    rc <= 0,
                    fb < fa,
            ;
        }
    }
}

/// Sum of the excess of the nodes below `n` over the first `m` pairs.
pub open spec fn excess_sum(a: Seq<Edge>, n: int, m: int) -> int
    decreases n,
{
    if n <= 0 {
        0
    } else {
        excess_sum(a, n - 1, m) + excess_upto(a, n - 1, m)
    }
}

proof fn lemma_excess_sum_is_weighted(a: Seq<Edge>, n: int, m: int)
    ensures
        excess_sum(a, n, m) == weighted_excess(a, Seq::new(n as nat, |v: int| 1int), n, m),
    decreases n,
{
    if n > 0 {
        let ones = Seq::new(n as nat, |v: int| 1int);
        let fewer = Seq::new((n - 1) as nat, |v: int| 1int);
        lemma_excess_sum_is_weighted(a, n - 1, m);
        lemma_weighted_ext(a, ones, fewer, n - 1, m);
        assert(ones[n - 1] * excess_upto(a, n - 1, m) == excess_upto(a, n - 1, m)) by (nonlinear_arith)
            requires
                ones[n - 1] == 1,
        ;
    }
}

proof fn lemma_weighted_ext(a: Seq<Edge>, p: Seq<int>, q: Seq<int>, n: int, m: int)
    requires
        forall|v: int| 0 <= v < n ==> p[v] == q[v],
    ensures
        weighted_excess(a, p, n, m) == weighted_excess(a, q, n, m),
    decreases n,
{
    if n > 0 {
        lemma_weighted_ext(a, p, q, n - 1, m);
    }
}

proof fn lemma_tension_flat(a: Seq<Edge>, p: Seq<int>, n: int, m: int)
    requires
        arcs_wf(a, n),
        0 <= 2 * m <= a.len(),
        p.len() == n,
        forall|v: int| 0 <= v < n ==> p[v] == 1,
    ensures
        tension_upto(a, p, m) == 0,
    decreases m,
{
    if m > 0 {
        lemma_tension_flat(a, p, n, m - 1);
        let k = m - 1;
        assert(0 <= a[2 * k].to < n);
        assert(0 <= a[2 * k + 1].to < n);
        lemma_distribute(pair_flow(a, k), 0, 0);
    }
}

/// What leaves the source is what reaches the sink: in a flow that
/// conserves, the excess of the source is the excess of the sink, negated.
pub proof fn lemma_source_mirrors_sink(a: Seq<Edge>, n: int)
    requires
        n >= 2,
        arcs_wf(a, n),
        conserving(a, n),
    ensures
        excess(a, 0) == -excess(a, 1),
{
    let m = a.len() as int / 2;
    let ones = Seq::new(n as nat, |v: int| 1int);
    lemma_excess_sum_is_weighted(a, n, m);
    lemma_weighted_is_tension(a, ones, n, m);
    lemma_tension_flat(a, ones, n, m);
    lemma_excess_sum_ends(a, n, n);
}

proof fn lemma_excess_sum_ends(a: Seq<Edge>, n: int, upto: int)
    requires
        conserving(a, n),
        0 <= upto <= n,
    ensures
        excess_sum(a, upto, a.len() as int / 2) == (if upto >= 1 {
            excess(a, 0)
        } else {
            0
        }) + (if upto >= 2 {
            excess(a, 1)
        } else {
            0
        }),
    decreases upto,
{
    if upto > 0 {
        lemma_excess_sum_ends(a, n, upto - 1);
        if upto - 1 >= 2 {
            assert(excess(a, upto - 1) == 0);
        }
    }
}

/// A priced flow is a cheapest flow: no flow on the same network that
/// conserves at every node but source and sink, and that brings as much
/// into the sink, costs less.
pub proof fn lemma_priced_is_cheapest(a: Seq<Edge>, b: Seq<Edge>, n: int)
    requires
        n >= 2,
        arcs_wf(a, n),
        arcs_wf(b, n),
        same_network(a, b),
        conserving(a, n),
        conserving(b, n),
        excess(b, 1) == excess(a, 1),
        priced(a, n),
    ensures
        total_cost(a) <= total_cost(b),
{
    let p = choose|p: Seq<int>| p.len() == n && potentials_valid(a, p);
    let m = a.len() as int / 2;
    lemma_source_mirrors_sink(a, n);
    lemma_source_mirrors_sink(b, n);
    assert forall|v: int| 0 <= v < n implies #[trigger] excess(a, v) == excess(b, v) by {
        if v >= 2 {
            assert(excess(a, v) == 0);
            assert(excess(b, v) == 0);
        }
    }
    lemma_weighted_same(a, b, p, n, n);
    lemma_weighted_is_tension(a, p, n, m);
    lemma_weighted_is_tension(b, p, n, m);
    lemma_cost_split(a, p, m);
    lemma_cost_split(b, p, m);
    lemma_reduced_le(a, b, p, n, m);
}

/// A network without flow whose pairs cost nothing or more is priced, by
/// potentials that are zero everywhere.
pub proof fn lemma_pristine_priced(a: Seq<Edge>, n: int)
    requires
        n >= 0,
        arcs_wf(a, n),
        forall|i: int| 0 <= i < a.len() && i % 2 == 1 ==> (#[trigger] a[i]).f == 0,
        forall|i: int| 0 <= i < a.len() && i % 2 == 0 ==> (#[trigger] a[i]).cost >= 0,
    ensures
        priced(a, n),
{
    let p = Seq::new(n as nat, |v: int| 0int);
    assert forall|i: int| 0 <= i < a.len() && a[i].f > 0 implies a[i].cost + p[(#[trigger] a[mate(
        i,
    )]).to as int] - p[a[i].to as int] >= 0 by {
        assert(i % 2 == 0);
        assert(0 <= mate(i) < a.len());
        assert(0 <= a[i].to < n);
        assert(0 <= a[mate(i)].to < n);
    }
    assert(p.len() == n && potentials_valid(a, p));
}

/// What a solve returns is told by the network: two flows on the same
/// network that conserve at every node but source and sink, that no path
/// can add to and that potentials price bring the same into the sink, at
/// the same cost. The flows on single pairs may differ where two cheapest
/// flows exist.
pub proof fn lemma_solutions_agree(a: Seq<Edge>, b: Seq<Edge>, n: int)
    requires
        n >= 2,
        arcs_wf(a, n),
        arcs_wf(b, n),
        same_network(a, b),
        conserving(a, n),
        conserving(b, n),
        saturated(a),
        saturated(b),
        priced(a, n),
        priced(b, n),
    ensures
        excess(a, 1) == excess(b, 1),
        total_cost(a) == total_cost(b),
{
    lemma_same_network_sym(a, b);
    lemma_saturated_is_maximum(a, b, n);
    lemma_saturated_is_maximum(b, a, n);
    lemma_priced_is_cheapest(a, b, n);
    lemma_priced_is_cheapest(b, a, n);
}

} // verus!
