use crate::optimizer::flow::mcmf::{
    arcs_wf, conserving, excess, excess_term, excess_upto, is_cut, mate, pair_flow,
    same_network, saturated, Edge,
};
use vstd::prelude::*;

verus! {

/// Share of pair `k` in the flow across the cut: its flow counts when it
/// leads out of `side` and counts against when it leads into `side`.
pub open spec fn cut_term(a: Seq<Edge>, side: Set<int>, k: int) -> int {
    (if !side.contains(a[2 * k].to as int) {
        pair_flow(a, k)
    } else {
        0
    }) - (if !side.contains(a[2 * k + 1].to as int) {
        pair_flow(a, k)
    } else {
        0
    })
}

/// Flow across the cut over the first `m` pairs.
pub open spec fn cut_flow_upto(a: Seq<Edge>, side: Set<int>, m: int) -> int
    decreases m,
{
    if m <= 0 {
        0
    } else {
        cut_flow_upto(a, side, m - 1) + cut_term(a, side, m - 1)
    }
}

/// Excess, over the first `m` pairs, of the nodes below `n` that stand
/// outside `side`, taken together.
pub open spec fn outside_excess(a: Seq<Edge>, side: Set<int>, n: int, m: int) -> int
    decreases n,
{
    if n <= 0 {
        0
    } else {
        outside_excess(a, side, n - 1, m) + if !side.contains(n - 1) {
            excess_upto(a, n - 1, m)
        } else {
            0
        }
    }
}

/// Share of pair `k` in the excess of the nodes below `n` outside `side`.
pub open spec fn outside_term(a: Seq<Edge>, side: Set<int>, n: int, k: int) -> int
    decreases n,
{
    if n <= 0 {
        0
    } else {
        outside_term(a, side, n - 1, k) + if !side.contains(n - 1) {
            excess_term(a, k, n - 1)
        } else {
            0
        }
    }
}

/// Pair `k` adds to the excess of the nodes outside `side` what it adds to
/// each of them.
proof fn lemma_outside_step(a: Seq<Edge>, side: Set<int>, n: int, m: int)
    requires
        m >= 1,
    ensures
        outside_excess(a, side, n, m) == outside_excess(a, side, n, m - 1) + outside_term(
            a,
            side,
            n,
            m - 1,
        ),
    decreases n,
{
    if n > 0 {
        lemma_outside_step(a, side, n - 1, m);
    }
}

/// What pair `k` adds to the excess of the nodes below `n` outside `side`:
/// its flow if its head is among them, less its flow if its tail is.
proof fn lemma_outside_term(a: Seq<Edge>, side: Set<int>, n: int, k: int)
    requires
        n >= 0,
    ensures
        outside_term(a, side, n, k) == (if a[2 * k].to < n && !side.contains(a[2 * k].to as int) {
            pair_flow(a, k)
        } else {
            0
        }) - (if a[2 * k + 1].to < n && !side.contains(a[2 * k + 1].to as int) {
            pair_flow(a, k)
        } else {
            0
        }),
    decreases n,
{
    if n > 0 {
        lemma_outside_term(a, side, n - 1, k);
    }
}

/// The nodes outside `side` take in, together, what flows across the cut.
proof fn lemma_outside_is_cut(a: Seq<Edge>, side: Set<int>, n: int, m: int)
    requires
        n >= 0,
        arcs_wf(a, n),
        0 <= 2 * m <= a.len(),
    ensures
        outside_excess(a, side, n, m) == cut_flow_upto(a, side, m),
    decreases m,
{
    if m == 0 {
        lemma_outside_empty(a, side, n);
    } else {
        lemma_outside_is_cut(a, side, n, m - 1);
        lemma_outside_step(a, side, n, m);
        lemma_outside_term(a, side, n, m - 1);
        assert(0 <= a[2 * (m - 1)].to < n);
        assert(0 <= a[2 * (m - 1) + 1].to < n);
    }
}

proof fn lemma_outside_empty(a: Seq<Edge>, side: Set<int>, n: int)
    ensures
        outside_excess(a, side, n, 0) == 0,
    decreases n,
{
    if n > 0 {
        lemma_outside_empty(a, side, n - 1);
    }
}

/// In a flow that conserves, with the source inside `side` and the sink
/// outside, the nodes outside `side` take in together what the sink takes.
proof fn lemma_outside_is_sink(a: Seq<Edge>, side: Set<int>, n: int, upto: int)
    requires
        conserving(a, n),
        side.contains(0),
        !side.contains(1),
        0 <= upto <= n,
    ensures
        outside_excess(a, side, upto, a.len() as int / 2) == if upto >= 2 {
            excess(a, 1)
        } else {
            0
        },
    decreases upto,
{
    if upto > 0 {
        lemma_outside_is_sink(a, side, n, upto - 1);
        if upto - 1 >= 2 {
            assert(excess(a, upto - 1) == 0);
        }
    }
}

/// Across a cut that no arc with residual capacity leaves, a flow on the
/// same network carries at most what the flow with that cut carries.
proof fn lemma_cut_bound(a: Seq<Edge>, b: Seq<Edge>, side: Set<int>, n: int, m: int)
    requires
        arcs_wf(a, n),
        arcs_wf(b, n),
        same_network(a, b),
        is_cut(a, side),
        0 <= 2 * m <= a.len(),
    ensures
        cut_flow_upto(b, side, m) <= cut_flow_upto(a, side, m),
    decreases m,
{
    if m > 0 {
        lemma_cut_bound(a, b, side, n, m - 1);
        let i = 2 * (m - 1);
        assert(mate(i) == i + 1 && mate(i + 1) == i);
        assert(b[i].to == a[i].to && b[i + 1].to == a[i + 1].to);
        assert(b[mate(i)].f + b[i].f == a[mate(i)].f + a[i].f);
        assert(a[i].f >= 0 && a[i + 1].f >= 0 && b[i].f >= 0 && b[i + 1].f >= 0);
        let head_in = side.contains(a[i].to as int);
        let tail_in = side.contains(a[i + 1].to as int);
        if tail_in && !head_in {
            // The forward arc leaves the side: it has no residual capacity.
            assert(side.contains(a[mate(i)].to as int));
            assert(a[i].f == 0);
        }
        if head_in && !tail_in {
            // The reverse arc leaves the side: the pair carries no flow.
            assert(side.contains(a[mate(i + 1)].to as int));
            assert(a[i + 1].f == 0);
        }
    }
}

/// A flow with a saturated cut is a maximum flow: no flow on the same
/// network that conserves at every node but source and sink brings more
/// into the sink.
pub proof fn lemma_saturated_is_maximum(a: Seq<Edge>, b: Seq<Edge>, n: int)
    requires
        n >= 2,
        arcs_wf(a, n),
        arcs_wf(b, n),
        same_network(a, b),
        conserving(a, n),
        conserving(b, n),
        saturated(a),
    ensures
        excess(b, 1) <= excess(a, 1),
{
    let side = choose|side: Set<int>| is_cut(a, side);
    let m = a.len() as int / 2;
    lemma_outside_is_sink(a, side, n, n);
    lemma_outside_is_sink(b, side, n, n);
    lemma_outside_is_cut(a, side, n, m);
    lemma_outside_is_cut(b, side, n, m);
    lemma_cut_bound(a, b, side, n, m);
}

} // verus!
