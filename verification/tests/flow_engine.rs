use electricity_price_optimizer::optimizer::flow::mcmf::MinCostFlow;

#[test]
fn empty_network_has_no_flow() {
    let mut g = MinCostFlow::new();
    assert_eq!(g.get_source(), 0);
    assert_eq!(g.get_sink(), 1);
    assert_eq!(g.mincostflow(), (0, 0));
    assert!(g.converged());
}

#[test]
fn unreachable_sink_returns_zero() {
    let mut g = MinCostFlow::new();
    let a = g.new_node();
    g.add_edge(0, a, 10, 3);
    assert_eq!(g.mincostflow(), (0, 0));
    assert!(g.converged());
}

#[test]
fn single_path_is_filled() {
    let mut g = MinCostFlow::new();
    let a = g.new_node();
    let h1 = g.add_edge(0, a, 10, 3);
    let h2 = g.add_edge(a, 1, 4, 5);
    assert_eq!(h1, 0);
    assert_eq!(h2, 2);
    assert_eq!(g.mincostflow(), (32, 4));
    assert_eq!(g.flow(h1), 4);
    assert_eq!(g.flow(h2), 4);
    assert!(g.converged());
    assert!(!g.cancelled());
    assert_eq!(g.node_count(), 3);
    assert_eq!(g.arc_count(), 4);
}

#[test]
fn cheaper_path_is_used_first() {
    let mut g = MinCostFlow::new();
    let a = g.new_node();
    let b = g.new_node();
    let cheap_in = g.add_edge(0, a, 5, 1);
    let dear_in = g.add_edge(0, b, 5, 10);
    let cheap_out = g.add_edge(a, 1, 5, 0);
    let dear_out = g.add_edge(b, 1, 5, 0);
    let cross = g.add_edge(a, b, 5, 0);
    assert_eq!(g.mincostflow(), (55, 10));
    assert_eq!(g.flow(cheap_in), 5);
    assert_eq!(g.flow(dear_in), 5);
    assert_eq!(g.flow(cheap_out), 5);
    assert_eq!(g.flow(dear_out), 5);
    assert_eq!(g.flow(cross), 0);
}

#[test]
fn flow_is_rerouted_over_a_reverse_arc() {
    // The first shortest path takes the middle arc; the second has to push
    // flow back over it.
    let mut g = MinCostFlow::new();
    let a = g.new_node();
    let b = g.new_node();
    let sa = g.add_edge(0, a, 1, 1);
    let sb = g.add_edge(0, b, 1, 5);
    let ab = g.add_edge(a, b, 1, 1);
    let at = g.add_edge(a, 1, 1, 5);
    let bt = g.add_edge(b, 1, 1, 1);
    let (cost, flow) = g.mincostflow();
    assert_eq!(flow, 2);
    assert_eq!(cost, 12);
    assert_eq!(g.flow(sa), 1);
    assert_eq!(g.flow(sb), 1);
    assert_eq!(g.flow(ab), 0);
    assert_eq!(g.flow(at), 1);
    assert_eq!(g.flow(bt), 1);
}

#[test]
fn negative_cost_arc_is_handled() {
    let mut g = MinCostFlow::new();
    let a = g.new_node();
    g.add_edge(0, a, 3, -2);
    g.add_edge(a, 1, 3, 1);
    assert_eq!(g.mincostflow(), (-3, 3));
    assert!(g.converged());
}

#[test]
fn negative_cycle_is_cancelled() {
    let mut g = MinCostFlow::new();
    let a = g.new_node();
    let b = g.new_node();
    g.add_edge(0, a, 1, 0);
    let ab = g.add_edge(a, b, 2, -5);
    let ba = g.add_edge(b, a, 2, 1);
    g.add_edge(a, 1, 1, 0);
    let (cost, flow) = g.mincostflow();
    assert_eq!(flow, 1);
    assert_eq!(cost, -8);
    assert_eq!(g.flow(ab), 2);
    assert_eq!(g.flow(ba), 2);
    assert!(g.converged());
    assert!(g.cancelled());
}

#[test]
fn update_flow_continues_after_growth() {
    let mut g = MinCostFlow::new();
    let a = g.new_node();
    g.add_edge(0, a, 10, 1);
    g.add_edge(a, 1, 4, 1);
    assert_eq!(g.mincostflow(), (8, 4));
    g.add_edge(a, 1, 3, 2);
    assert_eq!(g.update_flow(), (17, 7));
}

#[test]
fn identical_builds_give_identical_flows() {
    let build = || {
        let mut g = MinCostFlow::new();
        let a = g.new_node();
        let b = g.new_node();
        let hs = vec![
            g.add_edge(0, a, 7, 2),
            g.add_edge(0, b, 7, 2),
            g.add_edge(a, b, 3, 0),
            g.add_edge(a, 1, 5, 1),
            g.add_edge(b, 1, 6, 1),
        ];
        let r = g.mincostflow();
        let flows: Vec<i64> = hs.iter().map(|h| g.flow(*h)).collect();
        (r, flows)
    };
    assert_eq!(build(), build());
}

#[test]
fn clone_keeps_handles_valid() {
    let mut g = MinCostFlow::new();
    let a = g.new_node();
    let h = g.add_edge(0, a, 10, 3);
    let k = g.add_edge(a, 1, 4, 5);
    let mut c = g.clone();
    assert_eq!(c.mincostflow(), (32, 4));
    assert_eq!(c.flow(h), 4);
    assert_eq!(c.flow(k), 4);
    assert_eq!(g.flow(h), 0);
}

#[test]
fn negative_cycle_beside_the_path_is_cancelled() {
    let mut g = MinCostFlow::new();
    let a = g.new_node();
    let b = g.new_node();
    let into = g.add_edge(0, a, 1, 0);
    let down = g.add_edge(a, b, 2, -3);
    let back = g.add_edge(b, a, 2, 1);
    let out = g.add_edge(b, 1, 1, 0);
    // One unit over the path costs -3, one unit more around the cycle -2.
    assert_eq!(g.mincostflow(), (-5, 1));
    assert_eq!(g.flow(into), 1);
    assert_eq!(g.flow(down), 2);
    assert_eq!(g.flow(back), 1);
    assert_eq!(g.flow(out), 1);
    assert!(g.converged());
    assert!(g.cancelled());
}

#[test]
fn solve_after_growth_gives_what_a_fresh_solve_gives() {
    let mut grown = MinCostFlow::new();
    let a = grown.new_node();
    grown.add_edge(0, a, 5, 2);
    grown.add_edge(a, 1, 3, 1);
    assert_eq!(grown.mincostflow(), (9, 3));
    let b = grown.new_node();
    grown.add_edge(a, b, 4, 0);
    grown.add_edge(b, 1, 4, 3);
    let after = grown.update_flow();

    let mut fresh = MinCostFlow::new();
    let a = fresh.new_node();
    fresh.add_edge(0, a, 5, 2);
    fresh.add_edge(a, 1, 3, 1);
    let b = fresh.new_node();
    fresh.add_edge(a, b, 4, 0);
    fresh.add_edge(b, 1, 4, 3);
    assert_eq!(after, fresh.mincostflow());
    assert_eq!(after, (3 * 3 + 2 * 5, 5));
    assert!(grown.converged() && fresh.converged());
}

#[test]
fn negative_costs_without_a_cycle_are_solved() {
    let mut g = MinCostFlow::new();
    let a = g.new_node();
    let b = g.new_node();
    let cheap = g.add_edge(0, a, 4, -2);
    let dear = g.add_edge(0, b, 4, 1);
    g.add_edge(a, 1, 3, -1);
    g.add_edge(b, 1, 3, 0);
    g.add_edge(a, b, 2, -1);
    // Three units over a at -3 each, one over a and b at -3, two over b at 1.
    assert_eq!(g.mincostflow(), (3 * -3 + -3 + 2 * 1, 6));
    assert_eq!(g.flow(cheap), 4);
    assert_eq!(g.flow(dear), 2);
    assert!(g.converged());
    assert!(!g.cancelled());
}
