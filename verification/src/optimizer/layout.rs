use crate::optimizer::blueprint::{
    handle_ok, import_wired, steps_capped, steps_covered, steps_run, BatteryBlueprint,
    VariableActionBlueprint,
};
use crate::optimizer::flow::mcmf::{
    arcs_wf, conserving, cost_upto, excess, excess_term, excess_upto, mate, pair_capacity,
    pair_flow, Edge,
};
use crate::optimizer::flow::sums::{extends, lemma_excess_skip, pristine, sink_absorbs};
use crate::optimizer::flow::wrapper::{ids_after, lookup, order_after, NodeIds, Place};
use crate::time::STEPS_PER_DAY;
use vstd::prelude::*;

verus! {

/// The table maps different keys to different nodes below `order`, none of
/// them source or sink.
pub open spec fn table_ok(ids: NodeIds, order: int) -> bool {
    &&& forall|k: (usize, usize)| #[trigger] ids.contains_key(k) ==> 2 <= ids[k] < order
    &&& forall|j: (usize, usize), k: (usize, usize)|
        #![trigger ids[j], ids[k]]
        ids.contains_key(j) && ids.contains_key(k) && j != k ==> ids[j] != ids[k]
}

/// A place other than the key `key` stands for a node other than the one
/// kept under `key`.
pub proof fn lemma_lookup_avoids(ids: NodeIds, order: int, p: Place, key: (usize, usize))
    requires
        table_ok(ids, order),
        ids.contains_key(key),
        p matches Place::Fixed(x) ==> x < 2,
        p != Place::Keyed(key.0, key.1),
    ensures
        lookup(ids, order, p) != ids[key],
        lookup(ids, order, p) != 1 <==> !(p matches Place::Fixed(x) && x == 1),
{
    match p {
        Place::Fixed(x) => {},
        Place::Keyed(a, b) => {
            if ids.contains_key((a, b)) {
                assert((a, b) != key);
            }
        },
    }
}

/// Resolving a place keeps the table in order, and the node it stands for
/// lies below the new number of nodes.
pub proof fn lemma_table_after(ids: NodeIds, order: int, p: Place)
    requires
        table_ok(ids, order),
        2 <= order < usize::MAX,
        p matches Place::Fixed(x) ==> x < 2,
    ensures
        table_ok(ids_after(ids, order, p), order_after(ids, order, p)),
        0 <= lookup(ids, order, p) < order_after(ids, order, p),
        order <= order_after(ids, order, p) <= order + 1,
        lookup(ids_after(ids, order, p), order_after(ids, order, p), p) == lookup(ids, order, p),
{
    let ids1 = ids_after(ids, order, p);
    match p {
        Place::Fixed(x) => {},
        Place::Keyed(a, b) => {
            if !ids.contains_key((a, b)) {
                assert forall|j: (usize, usize), k: (usize, usize)|
                    #![trigger ids1[j], ids1[k]]
                    ids1.contains_key(j) && ids1.contains_key(k) && j != k implies ids1[j]
                    != ids1[k] by {
                    if j != (a, b) && k != (a, b) {
                        assert(ids.contains_key(j) && ids.contains_key(k));
                        assert(ids[j] != ids[k]);
                    } else if j == (a, b) {
                        assert(ids.contains_key(k));
                    } else {
                        assert(ids.contains_key(j));
                    }
                }
                assert forall|k: (usize, usize)| #[trigger] ids1.contains_key(k) implies 2 <= ids1[k]
                    < order + 1 by {
                    if k != (a, b) {
                        assert(ids.contains_key(k));
                    }
                }
            }
        },
    }
}

/// A keyed place never stands for source or sink.
pub proof fn lemma_lookup_inner(ids: NodeIds, order: int, a: usize, b: usize)
    requires
        table_ok(ids, order),
        order >= 2,
    ensures
        2 <= lookup(ids, order, Place::Keyed(a, b)) <= order,
{
}

/// Arc `i` is the forward arc that the table names for one of the first
/// `upto` steps.
pub open spec fn is_site(net: Map<u32, usize>, upto: int, i: int) -> bool {
    exists|t: u32| t < upto && net.contains_key(t) && #[trigger] net[t] == i
}

/// How cost is laid out over the first `len` arcs: the table names, for each
/// of the first `upto` steps, a pair whose unit cost is the price of the
/// step; the named pairs stand in the order of their steps; and no other of
/// those pairs has a cost.
pub open spec fn cost_sites(net: Map<u32, usize>, a: Seq<Edge>, prices: Seq<i64>, upto: int, len: int) -> bool {
    &&& len <= a.len()
    &&& len % 2 == 0
    &&& forall|t: u32|
        t < upto ==> #[trigger] net.contains_key(t) && handle_ok(a, net[t] as int) && net[t] < len
            && a[net[t] as int].cost == prices[t as int]
    &&& forall|s: u32, t: u32| s < t < upto ==> #[trigger] net[s] < #[trigger] net[t]
    &&& forall|k: int| 0 <= 2 * k < len && (#[trigger] a[2 * k]).cost != 0 ==> is_site(net, upto, 2 * k)
}

/// Cost of the import of the first `t` steps: price times the flow of the
/// pair that the table names.
pub open spec fn import_cost_upto(a: Seq<Edge>, net: Map<u32, usize>, prices: Seq<i64>, t: int) -> int
    decreases t,
{
    if t <= 0 {
        0
    } else {
        import_cost_upto(a, net, prices, t - 1) + prices[t - 1] * pair_flow(
            a,
            net[(t - 1) as u32] as int / 2,
        )
    }
}

/// Over the first `m` pairs the cost of the flow is the cost of the import
/// of the steps whose pairs stand among them. Returns the number of those
/// steps.
pub proof fn lemma_cost_is_import_upto(
    a: Seq<Edge>,
    net: Map<u32, usize>,
    prices: Seq<i64>,
    len: int,
    m: int,
) -> (c: int)
    requires
        cost_sites(net, a, prices, STEPS_PER_DAY as int, len),
        0 <= 2 * m <= len,
    ensures
        0 <= c <= STEPS_PER_DAY,
        forall|t: u32| t < c ==> #[trigger] net[t] < 2 * m,
        forall|t: u32| c <= t < STEPS_PER_DAY ==> #[trigger] net[t] >= 2 * m,
        cost_upto(a, m) == import_cost_upto(a, net, prices, c),
    decreases m,
{
    if m == 0 {
        0
    } else {
        let c0 = lemma_cost_is_import_upto(a, net, prices, len, m - 1);
        let k = m - 1;
        if c0 < STEPS_PER_DAY && net[c0 as u32] == 2 * k {
            let t0 = c0 as u32;
            assert(net.contains_key(t0));
            assert forall|t: u32| c0 + 1 <= t < STEPS_PER_DAY implies #[trigger] net[t] >= 2 * m by {
                assert(net[t0] < net[t]);
                assert(net.contains_key(t));
            }
            assert forall|t: u32| t < c0 + 1 implies #[trigger] net[t] < 2 * m by {
            }
            assert(a[2 * k].cost == prices[c0]);
            c0 + 1
        } else {
            assert forall|t: u32| c0 <= t < STEPS_PER_DAY implies #[trigger] net[t] >= 2 * m by {
                assert(net.contains_key(t));
                if t > c0 {
                    assert(net[c0 as u32] < net[t]);
                }
            }
            if a[2 * k].cost != 0 {
                assert(is_site(net, STEPS_PER_DAY as int, 2 * k));
                let t = choose|t: u32| t < STEPS_PER_DAY && net.contains_key(t) && #[trigger] net[t] == 2 * k;
                assert(net[t] >= 2 * m || net[t] < 2 * k);
                assert(false);
            }
            assert(a[2 * k].cost * pair_flow(a, k) == 0) by (nonlinear_arith)
                requires
                    a[2 * k].cost == 0,
            ;
            c0
        }
    }
}

/// Over the first `len` arcs the cost of the flow is the cost of the import
/// of the day.
pub proof fn lemma_cost_is_import(a: Seq<Edge>, net: Map<u32, usize>, prices: Seq<i64>, len: int)
    requires
        cost_sites(net, a, prices, STEPS_PER_DAY as int, len),
        0 <= len,
    ensures
        cost_upto(a, len / 2) == import_cost_upto(a, net, prices, STEPS_PER_DAY as int),
{
    let c = lemma_cost_is_import_upto(a, net, prices, len, len / 2);
    if c < STEPS_PER_DAY {
        assert(net.contains_key(c as u32));
        assert(net[c as u32] >= len);
    }
}

/// A later state of the network keeps the layout of cost.
pub proof fn lemma_cost_sites_extends(
    net: Map<u32, usize>,
    a: Seq<Edge>,
    b: Seq<Edge>,
    prices: Seq<i64>,
    upto: int,
    len: int,
)
    requires
        cost_sites(net, a, prices, upto, len),
        extends(a, b),
    ensures
        cost_sites(net, b, prices, upto, len),
{
    assert forall|t: u32| t < upto implies #[trigger] net.contains_key(t) && handle_ok(
        b,
        net[t] as int,
    ) && net[t] < len && b[net[t] as int].cost == prices[t as int] by {
        assert(net.contains_key(t));
        assert(b[net[t] as int].cost == a[net[t] as int].cost);
    }
    assert forall|k: int| 0 <= 2 * k < len && (#[trigger] b[2 * k]).cost != 0 implies is_site(
        net,
        upto,
        2 * k,
    ) by {
        assert(b[2 * k].cost == a[2 * k].cost);
    }
}

/// Appending a pair without cost keeps the layout of cost, now over all arcs.
pub proof fn lemma_cost_sites_push_plain(
    net: Map<u32, usize>,
    a: Seq<Edge>,
    prices: Seq<i64>,
    upto: int,
    fwd: Edge,
    rev: Edge,
)
    requires
        cost_sites(net, a, prices, upto, a.len() as int),
        fwd.cost == 0,
    ensures
        cost_sites(net, a.push(fwd).push(rev), prices, upto, a.len() as int + 2),
{
    let b = a.push(fwd).push(rev);
    assert forall|t: u32| t < upto implies #[trigger] net.contains_key(t) && handle_ok(
        b,
        net[t] as int,
    ) && net[t] < a.len() + 2 && b[net[t] as int].cost == prices[t as int] by {
        assert(net.contains_key(t));
        assert(b[net[t] as int] == a[net[t] as int]);
    }
    assert forall|k: int| 0 <= 2 * k < a.len() + 2 && (#[trigger] b[2 * k]).cost != 0 implies is_site(
        net,
        upto,
        2 * k,
    ) by {
        if 2 * k < a.len() {
            assert(b[2 * k] == a[2 * k]);
        } else {
            assert(b[2 * k] == fwd);
        }
    }
}

/// Appending the pair of step `upto`, at the price of that step, and naming
/// it in the table extends the layout of cost by that step.
pub proof fn lemma_cost_sites_push_site(
    net: Map<u32, usize>,
    a: Seq<Edge>,
    prices: Seq<i64>,
    upto: u32,
    fwd: Edge,
    rev: Edge,
)
    requires
        cost_sites(net, a, prices, upto as int, a.len() as int),
        upto < u32::MAX,
        a.len() <= usize::MAX,
        fwd.cost == prices[upto as int],
    ensures
        cost_sites(
            net.insert(upto, a.len() as usize),
            a.push(fwd).push(rev),
            prices,
            upto + 1,
            a.len() as int + 2,
        ),
{
    let b = a.push(fwd).push(rev);
    let net2 = net.insert(upto, a.len() as usize);
    assert forall|t: u32| t < upto + 1 implies #[trigger] net2.contains_key(t) && handle_ok(
        b,
        net2[t] as int,
    ) && net2[t] < a.len() + 2 && b[net2[t] as int].cost == prices[t as int] by {
        if t < upto {
            assert(net.contains_key(t));
            assert(b[net[t] as int] == a[net[t] as int]);
        } else {
            assert(b[a.len() as int] == fwd);
        }
    }
    assert forall|s: u32, t: u32| s < t < upto + 1 implies #[trigger] net2[s] < #[trigger] net2[t] by {
        assert(net.contains_key(s));
        if t < upto {
            assert(net[s] < net[t]);
        }
    }
    assert forall|k: int| 0 <= 2 * k < a.len() + 2 && (#[trigger] b[2 * k]).cost != 0 implies is_site(
        net2,
        upto + 1,
        2 * k,
    ) by {
        if 2 * k < a.len() {
            assert(b[2 * k] == a[2 * k]);
            assert(is_site(net, upto as int, 2 * k));
            let t = choose|t: u32| t < upto && net.contains_key(t) && #[trigger] net[t] == 2 * k;
            assert(net2.contains_key(t) && net2[t] == 2 * k);
        } else {
            assert(net2.contains_key(upto) && net2[upto] == 2 * k);
        }
    }
}

/// Appending a pair without flow leaves the network without flow.
pub proof fn lemma_pristine_push(a: Seq<Edge>, fwd: Edge, rev: Edge)
    requires
        pristine(a),
        a.len() % 2 == 0,
        rev.f == 0,
    ensures
        pristine(a.push(fwd).push(rev)),
{
    let b = a.push(fwd).push(rev);
    assert forall|i: int| 0 <= i < b.len() && i % 2 == 1 implies (#[trigger] b[i]).f == 0 by {
        if i < a.len() {
            assert(b[i] == a[i]);
        }
    }
}

/// Appending a pair that does not start at the sink leaves the sink
/// without a pair that leaves it.
pub proof fn lemma_sink_absorbs_push(a: Seq<Edge>, fwd: Edge, rev: Edge)
    requires
        sink_absorbs(a),
        a.len() % 2 == 0,
        rev.to != 1,
    ensures
        sink_absorbs(a.push(fwd).push(rev)),
{
    let b = a.push(fwd).push(rev);
    assert forall|i: int| 0 <= i < b.len() && i % 2 == 1 implies (#[trigger] b[i]).to != 1 by {
        if i < a.len() {
            assert(b[i] == a[i]);
        }
    }
}

/// A later state keeps the sink without a pair that leaves it, as long as
/// it holds no more arcs.
pub proof fn lemma_sink_absorbs_same(a: Seq<Edge>, b: Seq<Edge>)
    requires
        sink_absorbs(a),
        extends(a, b),
        a.len() == b.len(),
    ensures
        sink_absorbs(b),
{
    assert forall|i: int| 0 <= i < b.len() && i % 2 == 1 implies (#[trigger] b[i]).to != 1 by {
        assert(b[i].to == a[i].to);
    }
}

/// A later state of the network keeps the capacity of every pair.
pub proof fn lemma_capacity_extends(a: Seq<Edge>, b: Seq<Edge>, h: int)
    requires
        extends(a, b),
        handle_ok(a, h),
    ensures
        handle_ok(b, h),
        pair_capacity(b, h / 2) == pair_capacity(a, h / 2),
        b[h].to == a[h].to,
        b[h + 1].to == a[h + 1].to,
        b[h].cost == a[h].cost,
{
    assert(mate(h) == h + 1);
    assert(b[mate(h)].f + b[h].f == a[mate(h)].f + a[h].f);
    assert(b[h + 1].to == a[h + 1].to);
}

/// A table that covers some steps in `a` covers them in a later state.
pub proof fn lemma_covered_extends(edges: Map<u32, usize>, a: Seq<Edge>, b: Seq<Edge>, lo: int, hi: int)
    requires
        steps_covered(edges, a, lo, hi),
        extends(a, b),
    ensures
        steps_covered(edges, b, lo, hi),
{
    assert forall|t: u32| lo <= t < hi implies #[trigger] edges.contains_key(t) && handle_ok(
        b,
        edges[t] as int,
    ) by {
        assert(edges.contains_key(t));
    }
}

/// A table whose pairs have their capacities in `a` has them in a later state.
pub proof fn lemma_capped_extends(
    edges: Map<u32, usize>,
    a: Seq<Edge>,
    b: Seq<Edge>,
    lo: int,
    hi: int,
    first_cap: int,
    cap: int,
)
    requires
        steps_capped(edges, a, lo, hi, first_cap, cap),
        extends(a, b),
    ensures
        steps_capped(edges, b, lo, hi, first_cap, cap),
{
    assert forall|t: u32| lo <= t < hi implies #[trigger] edges.contains_key(t) && handle_ok(
        b,
        edges[t] as int,
    ) && pair_capacity(b, edges[t] as int / 2) == if t == 0 {
        first_cap
    } else {
        cap
    } by {
        assert(edges.contains_key(t));
        lemma_capacity_extends(a, b, edges[t] as int);
    }
}

/// Naming the pair of step `hi` extends such a table by that step.
pub proof fn lemma_capped_insert(
    edges: Map<u32, usize>,
    a: Seq<Edge>,
    lo: int,
    hi: u32,
    first_cap: int,
    cap: int,
    h: usize,
)
    requires
        steps_capped(edges, a, lo, hi as int, first_cap, cap),
        handle_ok(a, h as int),
        pair_capacity(a, h as int / 2) == if hi == 0 {
            first_cap
        } else {
            cap
        },
    ensures
        steps_capped(edges.insert(hi, h), a, lo, hi + 1, first_cap, cap),
{
    let e2 = edges.insert(hi, h);
    assert forall|t: u32| lo <= t < hi + 1 implies #[trigger] e2.contains_key(t) && handle_ok(
        a,
        e2[t] as int,
    ) && pair_capacity(a, e2[t] as int / 2) == if t == 0 {
        first_cap
    } else {
        cap
    } by {
        if t < hi {
            assert(edges.contains_key(t));
        }
    }
}

/// The blueprint of a battery fits every later state of the network.
pub proof fn lemma_battery_extends(bp: BatteryBlueprint, a: Seq<Edge>, b: Seq<Edge>)
    requires
        bp.fits(a),
        extends(a, b),
    ensures
        bp.fits(b),
{
    lemma_capped_extends(
        bp.relevant_edges@,
        a,
        b,
        1,
        STEPS_PER_DAY as int + 1,
        bp.battery.capacity as int,
        bp.battery.capacity as int,
    );
    lemma_capped_extends(
        bp.charge_edges@,
        a,
        b,
        0,
        STEPS_PER_DAY as int,
        bp.first_charge as int,
        bp.battery.maximum_charge_rate as int,
    );
    lemma_capped_extends(
        bp.discharge_edges@,
        a,
        b,
        0,
        STEPS_PER_DAY as int,
        bp.first_output as int,
        bp.battery.maximum_output_rate as int,
    );
}

/// The blueprint of a variable load fits a later state of the network whose
/// new arcs keep away from the load's accumulator, under a table that kept
/// the accumulator's key.
pub proof fn lemma_variable_extends(
    bp: VariableActionBlueprint,
    a: Seq<Edge>,
    ids: NodeIds,
    b: Seq<Edge>,
    ids2: NodeIds,
)
    requires
        bp.fits(a, ids),
        extends(a, b),
        forall|i: int| a.len() <= i < b.len() ==> (#[trigger] b[i]).to != bp.node,
        ids2.contains_key((3, bp.variable_action.id as usize)),
        ids2[(3, bp.variable_action.id as usize)] == ids[(3, bp.variable_action.id as usize)],
    ensures
        bp.fits(b, ids2),
{
    let first = bp.first_edge as int;
    let span = bp.span();
    lemma_capacity_extends(a, b, first);
    lemma_capacity_extends(a, b, bp.sink_edge as int);
    assert forall|k: int| first / 2 <= k < first / 2 + span implies (#[trigger] b[2 * k]).to
        == bp.node by {
        assert(a[2 * k].to == bp.node);
    }
    assert forall|k: int| first / 2 <= k < first / 2 + span implies (#[trigger] b[2 * k + 1]).to
        != bp.node by {
        assert(a[2 * k + 1].to != bp.node);
    }
    assert forall|k: int| first / 2 <= k < first / 2 + span implies #[trigger] pair_capacity(b, k)
        == bp.cap(bp.variable_action.start.minutes + k - first / 2) by {
        assert(pair_capacity(a, k) == bp.cap(bp.variable_action.start.minutes + k - first / 2));
        lemma_capacity_extends(a, b, 2 * k);
    }
    assert forall|i: int| 0 <= i < b.len() && (#[trigger] b[i]).to == bp.node implies first <= i
        <= bp.sink_edge + 1 by {
        if i < a.len() {
            assert(b[i].to == a[i].to);
        }
    }
}

/// The import pairs stay where they run in every later state of the
/// network, under every table that kept the keys of their ends.
pub proof fn lemma_import_extends(
    net: Map<u32, usize>,
    a: Seq<Edge>,
    b: Seq<Edge>,
    ids: NodeIds,
    more: NodeIds,
    upto: int,
)
    requires
        import_wired(net, a, ids, upto),
        steps_covered(net, a, 0, upto),
        extends(a, b),
        ids.contains_key((1usize, 0usize)),
        forall|t: u32| t < upto ==> #[trigger] ids.contains_key((0usize, t as usize)),
        forall|key: (usize, usize)| #[trigger]
            ids.contains_key(key) ==> more.contains_key(key) && more[key] == ids[key],
    ensures
        import_wired(net, b, more, upto),
{
    assert forall|t: u32| t < upto implies (#[trigger] b[net[t] as int]).to == more[(0usize, t as usize)]
        && b[net[t] + 1].to == more[(1usize, 0usize)] by {
        assert(net.contains_key(t));
        assert(handle_ok(a, net[t] as int));
        assert(a[net[t] as int].to == ids[(0usize, t as usize)]);
        assert(b[net[t] as int].to == a[net[t] as int].to);
        assert(b[net[t] + 1].to == a[net[t] + 1].to);
        assert(ids.contains_key((0usize, t as usize)));
    }
}

/// Naming the pair that was appended last, from the node of grid import
/// to the wire of step `t`, for the import of step `t` keeps the import
/// pairs of the steps before where they run.
pub proof fn lemma_import_insert(
    net: Map<u32, usize>,
    a: Seq<Edge>,
    ids: NodeIds,
    t: u32,
    h: usize,
)
    requires
        import_wired(net, a, ids, t as int),
        steps_covered(net, a, 0, t as int),
        handle_ok(a, h as int),
        forall|s: u32| s < t ==> #[trigger] net[s] != h,
        a[h as int].to == ids[(0usize, t as usize)],
        a[h + 1].to == ids[(1usize, 0usize)],
    ensures
        import_wired(net.insert(t, h), a, ids, t + 1),
{
    let more = net.insert(t, h);
    assert forall|s: u32| s < t + 1 implies (#[trigger] a[more[s] as int]).to == ids[(0usize, s as usize)]
        && a[more[s] + 1].to == ids[(1usize, 0usize)] by {
        if s < t {
            assert(more[s] == net[s]);
            assert(a[net[s] as int].to == ids[(0usize, s as usize)]);
        }
    }
}

/// A table whose pairs have their capacities names a pair for every step.
pub proof fn lemma_capped_covered(
    edges: Map<u32, usize>,
    a: Seq<Edge>,
    lo: int,
    hi: int,
    first_cap: int,
    cap: int,
)
    requires
        steps_capped(edges, a, lo, hi, first_cap, cap),
    ensures
        steps_covered(edges, a, lo, hi),
{
    assert forall|t: u32| lo <= t < hi implies #[trigger] edges.contains_key(t) && handle_ok(
        a,
        edges[t] as int,
    ) by {
        assert(edges.contains_key(t));
    }
}

/// The named pairs stay where they run in every later state of the
/// network, under every table that kept the keys of their ends.
pub proof fn lemma_run_extends(
    edges: Map<u32, usize>,
    a: Seq<Edge>,
    b: Seq<Edge>,
    ids: NodeIds,
    more: NodeIds,
    lo: int,
    hi: int,
    tail: usize,
    shift: int,
    head: usize,
)
    requires
        steps_run(edges, a, ids, lo, hi, tail, shift, head),
        steps_covered(edges, a, lo, hi),
        extends(a, b),
        forall|t: u32|
            lo <= t < hi ==> #[trigger] ids.contains_key((head, t as usize)) && ids.contains_key(
                (tail, (t - shift) as usize),
            ),
        forall|key: (usize, usize)| #[trigger]
            ids.contains_key(key) ==> more.contains_key(key) && more[key] == ids[key],
    ensures
        steps_run(edges, b, more, lo, hi, tail, shift, head),
{
    assert forall|t: u32| lo <= t < hi implies (#[trigger] b[edges[t] as int]).to == more[(
        head,
        t as usize,
    )] && b[edges[t] + 1].to == more[(tail, (t - shift) as usize)] by {
        assert(edges.contains_key(t));
        assert(handle_ok(a, edges[t] as int));
        assert(a[edges[t] as int].to == ids[(head, t as usize)]);
        assert(b[edges[t] as int].to == a[edges[t] as int].to);
        assert(b[edges[t] + 1].to == a[edges[t] + 1].to);
        assert(ids.contains_key((head, t as usize)));
        assert(ids.contains_key((tail, (t - shift) as usize)));
    }
}

/// Naming a pair that runs as the pair of step `t` must for step `t` keeps
/// the pairs of the steps before where they run.
pub proof fn lemma_run_insert(
    edges: Map<u32, usize>,
    a: Seq<Edge>,
    ids: NodeIds,
    lo: int,
    t: u32,
    h: usize,
    tail: usize,
    shift: int,
    head: usize,
)
    requires
        steps_run(edges, a, ids, lo, t as int, tail, shift, head),
        a[h as int].to == ids[(head, t as usize)],
        a[h + 1].to == ids[(tail, (t - shift) as usize)],
    ensures
        steps_run(edges.insert(t, h), a, ids, lo, t + 1, tail, shift, head),
{
    let more = edges.insert(t, h);
    assert forall|s: u32| lo <= s < t + 1 implies (#[trigger] a[more[s] as int]).to == ids[(
        head,
        s as usize,
    )] && a[more[s] + 1].to == ids[(tail, (s - shift) as usize)] by {
        if s < t {
            assert(more[s] == edges[s]);
            assert(a[edges[s] as int].to == ids[(head, s as usize)]);
        }
    }
}

/// The pairs of a battery stay where they run in every later state of the
/// network, under every table that kept the keys of the nodes.
pub proof fn lemma_battery_wired_extends(
    bp: BatteryBlueprint,
    a: Seq<Edge>,
    b: Seq<Edge>,
    ids: NodeIds,
    more: NodeIds,
)
    requires
        bp.fits(a),
        bp.wired(a, ids),
        extends(a, b),
        forall|t: u32| t < STEPS_PER_DAY ==> #[trigger] ids.contains_key((0usize, t as usize)),
        forall|key: (usize, usize)| #[trigger]
            ids.contains_key(key) ==> more.contains_key(key) && more[key] == ids[key],
        forall|i: int, t: u32|
            a.len() <= i < b.len() && t <= STEPS_PER_DAY ==> (#[trigger] b[i]).to != #[trigger] ids[(
                (bp.battery.id + 4) as usize,
                t as usize,
            )],
    ensures
        bp.wired(b, more),
{
    let cell = (bp.battery.id + 4) as usize;
    let day = STEPS_PER_DAY as int;
    let f = bp.first_edge as int;
    assert(ids.contains_key((cell, 0u32 as usize)));
    assert(b[f].to == a[f].to && b[f + 1].to == a[f + 1].to);
    assert forall|i: int, t: u32|
        0 <= i < b.len() && t <= STEPS_PER_DAY && (#[trigger] b[i]).to == #[trigger] more[(
            cell,
            t as usize,
        )] implies f <= i < f + 2 + 6 * STEPS_PER_DAY by {
        assert(ids.contains_key((cell, t as usize)));
        assert(more[(cell, t as usize)] == ids[(cell, t as usize)]);
        if i < a.len() {
            assert(b[i].to == a[i].to);
            assert(a[i].to == ids[(cell, t as usize)]);
        } else {
            assert(b[i].to != ids[(cell, t as usize)]);
        }
    }
    lemma_capped_covered(
        bp.relevant_edges@,
        a,
        1,
        day + 1,
        bp.battery.capacity as int,
        bp.battery.capacity as int,
    );
    lemma_capped_covered(
        bp.charge_edges@,
        a,
        0,
        day,
        bp.first_charge as int,
        bp.battery.maximum_charge_rate as int,
    );
    lemma_capped_covered(
        bp.discharge_edges@,
        a,
        0,
        day,
        bp.first_output as int,
        bp.battery.maximum_output_rate as int,
    );
    assert forall|t: u32| 1 <= t < day + 1 implies #[trigger] ids.contains_key((cell, t as usize))
        && ids.contains_key((cell, (t - 1) as usize)) by {
        assert(ids.contains_key((cell, t as usize)));
        assert(ids.contains_key((cell, (t - 1) as u32 as usize)));
    }
    lemma_run_extends(bp.relevant_edges@, a, b, ids, more, 1, day + 1, cell, 1, cell);
    assert forall|t: u32| 0 <= t < day implies #[trigger] ids.contains_key((cell, t as usize))
        && ids.contains_key((0usize, (t - 0) as usize)) by {
        assert(ids.contains_key((cell, t as usize)));
        assert(ids.contains_key((0usize, t as usize)));
    }
    lemma_run_extends(bp.charge_edges@, a, b, ids, more, 0, day, 0, 0, cell);
    assert forall|t: u32| 0 <= t < day implies #[trigger] ids.contains_key((0usize, t as usize))
        && ids.contains_key((cell, (t - 0) as usize)) by {
        assert(ids.contains_key((cell, t as usize)));
        assert(ids.contains_key((0usize, t as usize)));
    }
    lemma_run_extends(bp.discharge_edges@, a, b, ids, more, 0, day, cell, 0, 0);
    assert forall|t: u32| t <= STEPS_PER_DAY implies #[trigger] more.contains_key((cell, t as usize)) by {
        assert(ids.contains_key((cell, t as usize)));
    }
}

/// No arc of the network touches the node of a battery at step `t` but
/// the four that its blueprint names there: the heads of the pair over
/// which it takes and of the pair that carries the level into the step,
/// and the tails of the pair over which it gives and of the pair that
/// carries the level on.
pub proof fn lemma_battery_node_apart(bp: BatteryBlueprint, a: Seq<Edge>, ids: NodeIds, n: int, t: u32, i: int)
    requires
        bp.fits(a),
        bp.wired(a, ids),
        table_ok(ids, n),
        forall|s: u32| s < STEPS_PER_DAY ==> #[trigger] ids.contains_key((0usize, s as usize)),
        1 <= t < STEPS_PER_DAY,
        0 <= i < a.len(),
        i != bp.charge_edges@[t],
        i != bp.discharge_edges@[t] + 1,
        i != bp.relevant_edges@[t],
        i != bp.relevant_edges@[(t + 1) as u32] + 1,
    ensures
        a[i].to != ids[((bp.battery.id + 4) as usize, t as usize)],
{
    let b = (bp.battery.id + 4) as usize;
    let f = bp.first_edge as int;
    let day = STEPS_PER_DAY as int;
    let v = ids[(b, t as usize)];
    assert(ids.contains_key((b, t as usize)));
    if a[i].to == v {
        assert(f <= i < f + 2 + 6 * day);
        if i == f {
            assert(ids.contains_key((b, 0u32 as usize)));
            assert(ids[(b, 0usize)] != ids[(b, t as usize)]);
        } else if i == f + 1 {
            assert(v >= 2);
        } else if i < f + 2 + 4 * day {
            let j = i - f - 2;
            let s = (j / 4) as u32;
            assert(s < STEPS_PER_DAY);
            assert(bp.charge_edges@[s] == f + 2 + 4 * s);
            assert(bp.discharge_edges@[s] == f + 4 + 4 * s);
            assert(ids.contains_key((b, s as usize)));
            assert(ids.contains_key((0usize, s as usize)));
            assert(a[bp.charge_edges@[s] as int].to == ids[(b, s as usize)]);
            assert(a[bp.discharge_edges@[s] as int].to == ids[(0usize, s as usize)]);
            assert(ids[(0usize, s as usize)] != ids[(b, t as usize)]);
            if s != t {
                assert(ids[(b, s as usize)] != ids[(b, t as usize)]);
            }
            assert(j % 4 == 0 || j % 4 == 1 || j % 4 == 2 || j % 4 == 3);
            assert(false);
        } else {
            let j = i - f - 2 - 4 * day;
            let s = (j / 2 + 1) as u32;
            assert(1 <= s <= STEPS_PER_DAY);
            assert(bp.relevant_edges@[s] == f + 2 + 4 * day + 2 * (s - 1));
            assert(ids.contains_key((b, s as usize)));
            assert(ids.contains_key((b, (s - 1) as u32 as usize)));
            assert(a[bp.relevant_edges@[s] as int].to == ids[(b, s as usize)]);
            assert(a[bp.relevant_edges@[s] + 1].to == ids[(b, (s - 1) as usize)]);
            if s != t {
                assert(ids[(b, s as usize)] != ids[(b, t as usize)]);
            }
            if s - 1 != t {
                assert(ids[(b, (s - 1) as usize)] != ids[(b, t as usize)]);
            }
            assert(j % 2 == 0 || j % 2 == 1);
            assert(false);
        }
    }
}

/// What a battery holds at the start of a step is what it held at the
/// start of the step before, plus what it took and less what it gave on
/// that step: the node of the battery at step `t` passes on what it
/// receives, and only the four pairs that the blueprint names touch it.
pub proof fn lemma_battery_balance(bp: BatteryBlueprint, a: Seq<Edge>, ids: NodeIds, n: int, t: u32)
    requires
        arcs_wf(a, n),
        conserving(a, n),
        bp.fits(a),
        bp.wired(a, ids),
        table_ok(ids, n),
        forall|s: u32| s < STEPS_PER_DAY ==> #[trigger] ids.contains_key((0usize, s as usize)),
        1 <= t < STEPS_PER_DAY,
    ensures
        pair_flow(a, bp.relevant_edges@[(t + 1) as u32] as int / 2) - pair_flow(
            a,
            bp.relevant_edges@[t] as int / 2,
        ) == pair_flow(a, bp.charge_edges@[t] as int / 2) - pair_flow(
            a,
            bp.discharge_edges@[t] as int / 2,
        ),
{
    let b = (bp.battery.id + 4) as usize;
    let f = bp.first_edge as int;
    let day = STEPS_PER_DAY as int;
    let v = ids[(b, t as usize)] as int;
    let next = (t + 1) as u32;
    let before = (t - 1) as u32;
    assert(ids.contains_key((b, t as usize)));
    assert(ids.contains_key((b, next as usize)));
    assert(ids.contains_key((b, before as usize)));
    assert(ids.contains_key((0usize, t as usize)));
    assert(2 <= v < n);
    assert(excess(a, v) == 0);
    let ch = bp.charge_edges@[t] as int;
    let dis = bp.discharge_edges@[t] as int;
    let lo = bp.relevant_edges@[t] as int;
    let hi = bp.relevant_edges@[next] as int;
    assert(ch == f + 2 + 4 * t && dis == ch + 2);
    assert(lo == f + 2 + 4 * day + 2 * (t - 1) && hi == lo + 2);
    lemma_capped_covered(
        bp.relevant_edges@,
        a,
        1,
        day + 1,
        bp.battery.capacity as int,
        bp.battery.capacity as int,
    );
    assert(bp.relevant_edges@.contains_key(next));
    assert(handle_ok(a, hi));
    let m = a.len() as int / 2;
    let kc = ch / 2;
    let kl = lo / 2;
    assert(a[bp.charge_edges@[t] as int].to == ids[(b, t as usize)]);
    assert(a[bp.charge_edges@[t] + 1].to == ids[(0usize, (t - 0) as usize)]);
    assert(a[bp.discharge_edges@[t] as int].to == ids[(0usize, t as usize)]);
    assert(a[bp.discharge_edges@[t] + 1].to == ids[(b, (t - 0) as usize)]);
    assert(a[ch].to == v && a[ch + 1].to == ids[(0usize, t as usize)]);
    assert(a[dis].to == ids[(0usize, t as usize)] && a[dis + 1].to == v);
    assert(a[bp.relevant_edges@[t] as int].to == ids[(b, t as usize)]);
    assert(a[bp.relevant_edges@[t] + 1].to == ids[(b, (t - 1) as usize)]);
    assert(a[bp.relevant_edges@[next] as int].to == ids[(b, next as usize)]);
    assert(a[bp.relevant_edges@[next] + 1].to == ids[(b, (next - 1) as usize)]);
    assert(a[lo].to == v && a[lo + 1].to == ids[(b, before as usize)]);
    assert(a[hi].to == ids[(b, next as usize)] && a[hi + 1].to == v);
    assert(ids[(0usize, t as usize)] != ids[(b, t as usize)]);
    assert(ids[(b, before as usize)] != ids[(b, t as usize)]);
    assert(ids[(b, next as usize)] != ids[(b, t as usize)]);
    assert forall|i: int| 0 <= i < 2 * kc implies (#[trigger] a[i]).to != v by {
        lemma_battery_node_apart(bp, a, ids, n, t, i);
    }
    lemma_excess_skip(a, v, 0, kc);
    assert(excess_upto(a, v, kc + 1) == excess_upto(a, v, kc) + excess_term(a, kc, v));
    assert(excess_upto(a, v, kc + 2) == excess_upto(a, v, kc + 1) + excess_term(a, kc + 1, v));
    assert(excess_term(a, kc, v) == pair_flow(a, kc));
    assert(excess_term(a, kc + 1, v) == -pair_flow(a, kc + 1));
    assert forall|i: int| 2 * (kc + 2) <= i < 2 * kl implies (#[trigger] a[i]).to != v by {
        lemma_battery_node_apart(bp, a, ids, n, t, i);
    }
    lemma_excess_skip(a, v, kc + 2, kl);
    assert(excess_upto(a, v, kl + 1) == excess_upto(a, v, kl) + excess_term(a, kl, v));
    assert(excess_upto(a, v, kl + 2) == excess_upto(a, v, kl + 1) + excess_term(a, kl + 1, v));
    assert(excess_term(a, kl, v) == pair_flow(a, kl));
    assert(excess_term(a, kl + 1, v) == -pair_flow(a, kl + 1));
    assert forall|i: int| 2 * (kl + 2) <= i < 2 * m implies (#[trigger] a[i]).to != v by {
        lemma_battery_node_apart(bp, a, ids, n, t, i);
    }
    lemma_excess_skip(a, v, kl + 2, m);
    assert(dis / 2 == kc + 1);
    assert(hi / 2 == kl + 1);
}

} // verus!
