use crate::error::OptimizeError;
use crate::optimizer::blueprint::{
    handle_ok, import_wired, seq_sum, steps_capped, steps_covered, steps_run, BatteryBlueprint,
    NetworkConsumptionBlueprint, SmartHomeBlueprint, VariableActionBlueprint,
};
use crate::optimizer::flow::mcmf::{pair_capacity, Edge};
use crate::optimizer::flow::sums::{
    extends, lemma_extends_refl, lemma_extends_trans, lemma_push_extends,
    lemma_sink_capacity_push, pristine, sink_absorbs, sink_capacity,
};
use crate::optimizer::flow::wrapper::{
    ids_after, lookup, order_after, place_of, FlowNode, FlowWrapper, IntoNode, NodeIds, Place,
};
use crate::optimizer::layout::{
    cost_sites, lemma_battery_extends, lemma_battery_wired_extends, lemma_capacity_extends,
    lemma_capped_covered, lemma_capped_extends, lemma_capped_insert, lemma_cost_sites_push_plain,
    lemma_cost_sites_push_site, lemma_covered_extends, lemma_import_extends, lemma_import_insert,
    lemma_lookup_avoids, lemma_lookup_inner, lemma_pristine_push, lemma_run_extends,
    lemma_run_insert, lemma_sink_absorbs_push, lemma_table_after, lemma_variable_extends, table_ok,
};
use crate::optimizer::network::{
    accumulator, batteries_arcs, battery_arcs, cell, cells_upto, forecast_arcs, forecast_step,
    generator, grown, known, lemma_batteries_grown, lemma_forecast_grown, lemma_levels_grown,
    lemma_pair_grown, lemma_rates_grown, lemma_variables_grown, lemma_window_grown, level_arcs,
    network, node_of, pair_arcs, rate_arcs, rate_at, sink, source, variable_arcs, variables_arcs,
    window_arcs, wire, wires_upto, CAP_INF,
};
use crate::optimizer::smart_home::SmartHomeFlow;
use crate::optimizer_context::action::variable::VariableAction;
use crate::optimizer_context::battery::Battery;
use crate::optimizer_context::fraction::StepFraction;
use crate::optimizer_context::prognoses::Prognoses;
use crate::time::{Time, STEPS_PER_DAY};
use vstd::prelude::*;

verus! {

/// `w1` is `w0` after the pair from `pu` to `pv` was appended.
pub open spec fn linked(w0: &FlowWrapper, w1: &FlowWrapper, pu: Place, pv: Place, cap: i64, cost: i64) -> bool {
    let ids0 = w0.ids();
    let n0 = w0.graph().order();
    let ids1 = ids_after(ids0, n0, pu);
    let n1 = order_after(ids0, n0, pu);
    &&& w1.ids() == ids_after(ids1, n1, pv)
    &&& w1.graph().order() == order_after(ids1, n1, pv)
    &&& w1.graph().arcs() == w0.graph().arcs().push(
        Edge { to: lookup(ids1, n1, pv) as usize, f: cap, cost: cost },
    ).push(Edge { to: lookup(ids0, n0, pu) as usize, f: 0, cost: (-cost) as i64 })
}

/// The number of arcs and of nodes leaves room for one more pair.
pub open spec fn has_room(w: &FlowWrapper) -> bool {
    &&& w.graph().order() + 2 <= usize::MAX
    &&& w.graph().arcs().len() + 2 < usize::MAX
}

/// Appends the pair from `u` to `v`.
pub fn link(w: &mut FlowWrapper, u: FlowNode, v: FlowNode, cap: i64, cost: i64) -> (h: usize)
    requires
        old(w).wf(),
        u.admissible(),
        v.admissible(),
        has_room(old(w)),
        cap >= 0,
        cost >= 0,
    ensures
        final(w).wf(),
        h == old(w).graph().arcs().len(),
        linked(old(w), final(w), place_of(u), place_of(v), cap, cost),
        final(w).graph().flow_added() == old(w).graph().flow_added(),
        final(w).graph().cost_added() == old(w).graph().cost_added(),
{
    w.add_edge(u, v, cap, cost)
}

/// What appending a pair does to the network: the arcs from before stay as
/// they are, a network without flow stays without flow, the demand grows by
/// the capacity if the pair leads into the sink, and nodes that stand under
/// other keys than the two ends stay untouched.
pub proof fn lemma_linked(w0: &FlowWrapper, w1: &FlowWrapper, pu: Place, pv: Place, cap: i64, cost: i64)
    requires
        w0.wf(),
        has_room(w0),
        cost >= 0,
        linked(w0, w1, pu, pv, cap, cost),
        pu matches Place::Fixed(x) ==> x < 2,
        pv matches Place::Fixed(x) ==> x < 2,
    ensures
        extends(w0.graph().arcs(), w1.graph().arcs()),
        w1.graph().arcs().len() == w0.graph().arcs().len() + 2,
        w0.graph().order() <= w1.graph().order() <= w0.graph().order() + 2,
        pristine(w0.graph().arcs()) ==> pristine(w1.graph().arcs()),
        sink_absorbs(w0.graph().arcs()) && pu != Place::Fixed(1) ==> sink_absorbs(
            w1.graph().arcs(),
        ),
        sink_capacity(w1.graph().arcs()) == sink_capacity(w0.graph().arcs()) + if pv
            == Place::Fixed(1) {
            cap as int
        } else {
            0
        },
        forall|key: (usize, usize)| #[trigger]
            w0.ids().contains_key(key) ==> w1.ids().contains_key(key) && w1.ids()[key]
                == w0.ids()[key],
        forall|key: (usize, usize)| #[trigger]
            w0.ids().contains_key(key) && pu != Place::Keyed(key.0, key.1) && pv != Place::Keyed(
                key.0,
                key.1,
            ) ==> w1.graph().arcs()[w0.graph().arcs().len() as int].to != w0.ids()[key]
                && w1.graph().arcs()[w0.graph().arcs().len() as int + 1].to != w0.ids()[key],
        w1.graph().arcs()[w0.graph().arcs().len() as int].cost == cost,
        w1.graph().arcs()[w0.graph().arcs().len() as int].f == cap,
        w1.graph().arcs()[w0.graph().arcs().len() as int + 1].f == 0,
        w1.graph().arcs()[w0.graph().arcs().len() as int].to == lookup(
            ids_after(w0.ids(), w0.graph().order(), pu),
            order_after(w0.ids(), w0.graph().order(), pu),
            pv,
        ),
        w1.graph().arcs()[w0.graph().arcs().len() as int + 1].to == lookup(
            w0.ids(),
            w0.graph().order(),
            pu,
        ),
        !action_place(pu) && !action_place(pv) ==> forall|x: usize| #[trigger]
            w1.ids().contains_key((3usize, x)) ==> w0.ids().contains_key((3usize, x)),
{
    let a0 = w0.graph().arcs();
    let ids0 = w0.ids();
    let n0 = w0.graph().order();
    let ids1 = ids_after(ids0, n0, pu);
    let n1 = order_after(ids0, n0, pu);
    let fwd = Edge { to: lookup(ids1, n1, pv) as usize, f: cap, cost: cost };
    let rev = Edge { to: lookup(ids0, n0, pu) as usize, f: 0, cost: (-cost) as i64 };
    let a1 = a0.push(fwd).push(rev);
    w0.graph().lemma_wf();
    assert(table_ok(ids0, n0));
    lemma_table_after(ids0, n0, pu);
    lemma_table_after(ids1, n1, pv);
    lemma_push_extends(a0, fwd, rev);
    lemma_sink_capacity_push(a0, fwd, rev);
    assert(a1[a0.len() as int] == fwd);
    assert(a1[a0.len() as int + 1] == rev);
    if pristine(a0) {
        lemma_pristine_push(a0, fwd, rev);
    }
    if sink_absorbs(a0) && pu != Place::Fixed(1) {
        match pu {
            Place::Fixed(x) => {},
            Place::Keyed(x, y) => {
                lemma_lookup_inner(ids0, n0, x, y);
            },
        }
        lemma_sink_absorbs_push(a0, fwd, rev);
    }
    match pv {
        Place::Fixed(x) => {},
        Place::Keyed(x, y) => {
            lemma_lookup_inner(ids1, n1, x, y);
        },
    }
    assert forall|key: (usize, usize)| #[trigger]
        w0.ids().contains_key(key) && pu != Place::Keyed(key.0, key.1) && pv != Place::Keyed(
            key.0,
            key.1,
        ) implies a1[a0.len() as int].to != ids0[key] && a1[a0.len() as int + 1].to != ids0[key] by {
        lemma_lookup_avoids(ids0, n0, pu, key);
        assert(ids1.contains_key(key));
        lemma_lookup_avoids(ids1, n1, pv, key);
    }
}

/// Appending a pair appends exactly the two arcs of the pair, between the
/// nodes of its ends, and lets the table grow by the nodes that are new.
pub proof fn lemma_link_exact(w0: &FlowWrapper, w1: &FlowWrapper, pu: Place, pv: Place, cap: i64, cost: i64)
    requires
        w0.wf(),
        has_room(w0),
        cost >= 0,
        linked(w0, w1, pu, pv, cap, cost),
        pu matches Place::Fixed(x) ==> x < 2,
        pv matches Place::Fixed(x) ==> x < 2,
    ensures
        grown(w0.ids(), w1.ids()),
        known(w1.ids(), pu),
        known(w1.ids(), pv),
        w1.graph().arcs() == w0.graph().arcs() + pair_arcs(w1.ids(), pu, pv, cap, cost),
{
    let ids0 = w0.ids();
    let n0 = w0.graph().order();
    let ids1 = ids_after(ids0, n0, pu);
    let n1 = order_after(ids0, n0, pu);
    w0.graph().lemma_wf();
    lemma_table_after(ids0, n0, pu);
    lemma_table_after(ids1, n1, pv);
    match pu {
        Place::Fixed(x) => {},
        Place::Keyed(a, b) => {
            assert(ids1.contains_key((a, b)));
        },
    }
    match pv {
        Place::Fixed(x) => {},
        Place::Keyed(a, b) => {},
    }
    assert(node_of(w1.ids(), pv) == lookup(ids1, n1, pv));
    assert(node_of(w1.ids(), pu) == lookup(ids0, n0, pu));
    assert(w1.graph().arcs() =~= w0.graph().arcs() + pair_arcs(w1.ids(), pu, pv, cap, cost));
}

/// A table that holds the wire of every timestep holds the wires of the
/// steps before any step of the day.
pub proof fn lemma_wires(ids: NodeIds, t: int)
    requires
        wires_known(ids),
        t <= STEPS_PER_DAY,
    ensures
        wires_upto(ids, t),
{
    assert forall|s: int| 0 <= s < t implies known(ids, #[trigger] wire(s)) by {
        assert(ids.contains_key((0usize, s as u32 as usize)));
    }
}

/// A table that has grown from one that has grown has grown.
pub proof fn lemma_grown_trans(a: NodeIds, b: NodeIds, c: NodeIds)
    requires
        grown(a, b),
        grown(b, c),
    ensures
        grown(a, c),
{
    assert forall|key: (usize, usize)| #[trigger] a.contains_key(key) implies c.contains_key(key)
        && c[key] == a[key] by {
        assert(b.contains_key(key));
    }
}

/// One more battery behind the batteries so far: the arcs so far and the
/// arcs of the battery are the arcs of one battery more, and the nodes of
/// all of them stay known.
pub proof fn lemma_batteries_step(
    start: Seq<Edge>,
    ids: NodeIds,
    more: NodeIds,
    fraction: StepFraction,
    batteries: Seq<Battery>,
    i: int,
    before: Seq<Edge>,
    after: Seq<Edge>,
)
    requires
        0 <= i < batteries.len(),
        grown(ids, more),
        wires_upto(ids, STEPS_PER_DAY as int),
        forall|j: int| 0 <= j < i ==> cells_upto(ids, (#[trigger] batteries[j]).id, STEPS_PER_DAY + 1),
        cells_upto(more, batteries[i].id, STEPS_PER_DAY + 1),
        before == start + batteries_arcs(ids, fraction, batteries, i),
        after == before + battery_arcs(more, fraction, batteries[i]),
    ensures
        after == start + batteries_arcs(more, fraction, batteries, i + 1),
        forall|j: int|
            0 <= j < i + 1 ==> cells_upto(more, (#[trigger] batteries[j]).id, STEPS_PER_DAY + 1),
{
    lemma_batteries_grown(ids, more, fraction, batteries, i);
    let sofar = batteries_arcs(more, fraction, batteries, i);
    let one = battery_arcs(more, fraction, batteries[i]);
    assert(batteries_arcs(more, fraction, batteries, i + 1) == sofar + one);
    assert(after =~= start + (sofar + one));
    assert forall|j: int| 0 <= j < i + 1 implies cells_upto(
        more,
        (#[trigger] batteries[j]).id,
        STEPS_PER_DAY + 1,
    ) by {
        if j < i {
            let id = batteries[j].id;
            assert(cells_upto(ids, id, STEPS_PER_DAY + 1));
            assert forall|s: int| 0 <= s < STEPS_PER_DAY + 1 implies known(
                more,
                #[trigger] cell(id, s),
            ) by {
                assert(known(ids, cell(id, s)));
            }
        }
    }
}

/// One more variable load behind the loads so far: the arcs so far and the
/// arcs of the load are the arcs of one load more, and the accumulators of
/// all of them stay known.
pub proof fn lemma_variables_step(
    start: Seq<Edge>,
    ids: NodeIds,
    more: NodeIds,
    fraction: StepFraction,
    variables: Seq<VariableAction>,
    i: int,
    before: Seq<Edge>,
    after: Seq<Edge>,
)
    requires
        0 <= i < variables.len(),
        grown(ids, more),
        wires_upto(ids, STEPS_PER_DAY as int),
        forall|j: int|
            0 <= j < i ==> known(ids, accumulator((#[trigger] variables[j]).id)) && variables[j].end.minutes
                <= STEPS_PER_DAY,
        known(more, accumulator(variables[i].id)),
        variables[i].end.minutes <= STEPS_PER_DAY,
        before == start + variables_arcs(ids, fraction, variables, i),
        after == before + variable_arcs(more, fraction, variables[i]),
    ensures
        after == start + variables_arcs(more, fraction, variables, i + 1),
        forall|j: int|
            0 <= j < i + 1 ==> known(more, accumulator((#[trigger] variables[j]).id))
                && variables[j].end.minutes <= STEPS_PER_DAY,
{
    lemma_variables_grown(ids, more, fraction, variables, i);
    let sofar = variables_arcs(more, fraction, variables, i);
    let one = variable_arcs(more, fraction, variables[i]);
    assert(variables_arcs(more, fraction, variables, i + 1) == sofar + one);
    assert(after =~= start + (sofar + one));
    assert forall|j: int| 0 <= j < i + 1 implies known(more, accumulator((#[trigger] variables[j]).id))
        && variables[j].end.minutes <= STEPS_PER_DAY by {
        if j < i {
            assert(known(ids, accumulator(variables[j].id)));
        }
    }
}

/// A place is the accumulator of a variable load.
pub open spec fn action_place(p: Place) -> bool {
    p matches Place::Keyed(a, b) && a == 3
}

/// Every accumulator in the table belongs to a variable load of the
/// blueprint.
pub open spec fn accumulators_known(ids: NodeIds, bp: &SmartHomeBlueprint) -> bool {
    forall|x: usize| #[trigger]
        ids.contains_key((3usize, x)) ==> exists|k: int|
            0 <= k < bp.variable_action_blueprints@.len()
                && (#[trigger] bp.variable_action_blueprints@[k]).variable_action.id == x
}

/// Neither place is the accumulator of a variable load that the blueprint
/// holds.
pub open spec fn spares_accumulators(bp: &SmartHomeBlueprint, pu: Place, pv: Place) -> bool {
    forall|k: int|
        0 <= k < bp.variable_action_blueprints@.len() ==> {
            let id = (#[trigger] bp.variable_action_blueprints@[k]).variable_action.id as usize;
            pu != Place::Keyed(3, id) && pv != Place::Keyed(3, id)
        }
}

/// The place stands under the first key `key`.
pub open spec fn keyed_by(p: Place, key: usize) -> bool {
    p matches Place::Keyed(a, b) && a == key
}

/// Neither place is the node of a battery that the blueprint holds.
pub open spec fn spares_cells(bp: &SmartHomeBlueprint, pu: Place, pv: Place) -> bool {
    forall|k: int|
        0 <= k < bp.battery_blueprints@.len() ==> {
            let key = ((#[trigger] bp.battery_blueprints@[k]).battery.id + 4) as usize;
            !keyed_by(pu, key) && !keyed_by(pv, key)
        }
}

/// Every node of a battery in the table belongs to a battery of the
/// blueprint.
pub open spec fn cells_known(ids: NodeIds, bp: &SmartHomeBlueprint) -> bool {
    forall|key: (usize, usize)| #[trigger]
        ids.contains_key(key) && key.0 >= 4 ==> exists|k: int|
            0 <= k < bp.battery_blueprints@.len() && (#[trigger] bp.battery_blueprints@[k]).battery.id + 4
                == key.0
}

/// The blueprint holds no battery with the id `id`.
pub open spec fn held_apart(bp: &SmartHomeBlueprint, id: u32) -> bool {
    forall|k: int|
        0 <= k < bp.battery_blueprints@.len() ==> (#[trigger] bp.battery_blueprints@[k]).battery.id != id
}

/// The place is fixed, or stands under a key below those of the batteries,
/// or is a node of the battery with the id `id`.
pub open spec fn plain_or_cell(p: Place, id: u32) -> bool {
    match p {
        Place::Fixed(x) => true,
        Place::Keyed(a, b) => a < 4 || a == (id + 4) as usize,
    }
}

/// Places that are plain, or nodes of a battery that the blueprint does
/// not hold, are no nodes of a battery that the blueprint holds.
pub proof fn lemma_spares_cells(
    bp: &SmartHomeBlueprint,
    a: Seq<Edge>,
    ids: NodeIds,
    id: u32,
    pu: Place,
    pv: Place,
)
    requires
        bp.fits(a, ids),
        held_apart(bp, id),
        id + 4 <= usize::MAX,
        plain_or_cell(pu, id),
        plain_or_cell(pv, id),
    ensures
        spares_cells(bp, pu, pv),
{
    assert forall|k: int| 0 <= k < bp.battery_blueprints@.len() implies {
        let key = ((#[trigger] bp.battery_blueprints@[k]).battery.id + 4) as usize;
        !keyed_by(pu, key) && !keyed_by(pv, key)
    } by {
        let b = bp.battery_blueprints@[k];
        assert(b.wired(a, ids));
        assert(b.battery.id != id);
    }
}

/// The table `more` holds the keys of `ids` and beyond them only keys that
/// begin with `ka` or `kb`, for nodes that are not below `order`.
pub open spec fn sprouted(ids: NodeIds, order: int, more: NodeIds, ka: usize, kb: usize) -> bool {
    forall|key: (usize, usize)| #[trigger]
        more.contains_key(key) && !ids.contains_key(key) ==> (key.0 == ka || key.0 == kb) && more[key]
            >= order
}

/// Appending a pair adds to the table at most the keys of its two ends,
/// for nodes that were not there before.
pub proof fn lemma_link_fresh(w0: &FlowWrapper, w1: &FlowWrapper, pu: Place, pv: Place, cap: i64, cost: i64)
    requires
        w0.wf(),
        has_room(w0),
        linked(w0, w1, pu, pv, cap, cost),
    ensures
        forall|key: (usize, usize)| #[trigger]
            w1.ids().contains_key(key) && !w0.ids().contains_key(key) ==> (pu == Place::Keyed(key.0, key.1)
                || pv == Place::Keyed(key.0, key.1)) && w1.ids()[key] >= w0.graph().order(),
{
}

/// A table that sprouted twice sprouted once.
pub proof fn lemma_sprouted_trans(
    ids: NodeIds,
    order: int,
    mid: NodeIds,
    mid_order: int,
    more: NodeIds,
    ka: usize,
    kb: usize,
)
    requires
        sprouted(ids, order, mid, ka, kb),
        sprouted(mid, mid_order, more, ka, kb),
        order <= mid_order,
        grown(mid, more),
    ensures
        sprouted(ids, order, more, ka, kb),
{
    assert forall|key: (usize, usize)| #[trigger]
        more.contains_key(key) && !ids.contains_key(key) implies (key.0 == ka || key.0 == kb) && more[key]
        >= order by {
        if mid.contains_key(key) {
            assert(more[key] == mid[key]);
        }
    }
}

/// Appending a pair between places that are no accumulators of the
/// blueprint's loads and no nodes of its batteries keeps every blueprint
/// fitting.
pub proof fn lemma_link_keeps(
    bp: &SmartHomeBlueprint,
    w0: &FlowWrapper,
    w1: &FlowWrapper,
    pu: Place,
    pv: Place,
    cap: i64,
    cost: i64,
)
    requires
        w0.wf(),
        has_room(w0),
        cost >= 0,
        bp.fits(w0.graph().arcs(), w0.ids()),
        linked(w0, w1, pu, pv, cap, cost),
        pu matches Place::Fixed(x) ==> x < 2,
        pv matches Place::Fixed(x) ==> x < 2,
        spares_accumulators(bp, pu, pv),
        spares_cells(bp, pu, pv),
    ensures
        bp.fits(w1.graph().arcs(), w1.ids()),
{
    let a0 = w0.graph().arcs();
    let a1 = w1.graph().arcs();
    lemma_linked(w0, w1, pu, pv, cap, cost);
    lemma_covered_extends(bp.network_consumption_blueprint.relevant_edges@, a0, a1, 0, STEPS_PER_DAY as int);
    lemma_import_extends(
        bp.network_consumption_blueprint.relevant_edges@,
        a0,
        a1,
        w0.ids(),
        w1.ids(),
        STEPS_PER_DAY as int,
    );
    assert forall|k: int| 0 <= k < bp.battery_blueprints@.len() implies (#[trigger] bp.battery_blueprints@[k]).fits(
        a1,
    ) by {
        lemma_battery_extends(bp.battery_blueprints@[k], a0, a1);
    }
    assert forall|k: int| 0 <= k < bp.battery_blueprints@.len() implies (#[trigger] bp.battery_blueprints@[k]).wired(
        a1,
        w1.ids(),
    ) by {
        let b = bp.battery_blueprints@[k];
        let cell = (b.battery.id + 4) as usize;
        assert forall|i: int, t: u32|
            a0.len() <= i < a1.len() && t <= STEPS_PER_DAY implies (#[trigger] a1[i]).to
                != #[trigger] w0.ids()[(cell, t as usize)] by {
            assert(i == a0.len() || i == a0.len() + 1);
            assert(w0.ids().contains_key((cell, t as usize)));
            assert(!keyed_by(pu, cell) && !keyed_by(pv, cell));
        }
        lemma_battery_wired_extends(b, a0, a1, w0.ids(), w1.ids());
    }
    assert forall|k: int| 0 <= k < bp.variable_action_blueprints@.len()
        implies (#[trigger] bp.variable_action_blueprints@[k]).fits(a1, w1.ids()) by {
        let v = bp.variable_action_blueprints@[k];
        let key = (3usize, v.variable_action.id as usize);
        assert(w0.ids().contains_key(key));
        assert forall|i: int| a0.len() <= i < a1.len() implies (#[trigger] a1[i]).to != v.node by {
            assert(i == a0.len() || i == a0.len() + 1);
        }
        lemma_variable_extends(v, a0, w0.ids(), a1, w1.ids());
    }
}

/// Appending a pair without cost that does not start at the sink keeps
/// what holds of the network under construction; the demand grows by the
/// capacity if the pair leads into the sink.
pub proof fn lemma_link_base(
    bp: &SmartHomeBlueprint,
    w0: &FlowWrapper,
    w1: &FlowWrapper,
    prices: Seq<i64>,
    demand: int,
    pu: Place,
    pv: Place,
    cap: i64,
)
    requires
        base_ok(w0, bp, prices, demand),
        has_room(w0),
        w1.wf(),
        linked(w0, w1, pu, pv, cap, 0),
        pu matches Place::Fixed(x) ==> x == 0,
        pv matches Place::Fixed(x) ==> x < 2,
        spares_accumulators(bp, pu, pv),
        spares_cells(bp, pu, pv),
    ensures
        base_ok(
            w1,
            bp,
            prices,
            demand + if pv == Place::Fixed(1) {
                cap as int
            } else {
                0
            },
        ),
        extends(w0.graph().arcs(), w1.graph().arcs()),
        w1.graph().arcs().len() == w0.graph().arcs().len() + 2,
        w0.graph().order() <= w1.graph().order() <= w0.graph().order() + 2,
        handle_ok(w1.graph().arcs(), w0.graph().arcs().len() as int),
        pair_capacity(w1.graph().arcs(), w0.graph().arcs().len() as int / 2) == cap,
        forall|key: (usize, usize)| #[trigger]
            w0.ids().contains_key(key) ==> w1.ids().contains_key(key) && w1.ids()[key]
                == w0.ids()[key],
        !action_place(pu) && !action_place(pv) && accumulators_known(w0.ids(), bp)
            ==> accumulators_known(w1.ids(), bp),
        cells_known(w0.ids(), bp) && (forall|x: usize| x >= 4 ==> !keyed_by(pu, x) && !keyed_by(pv, x))
            ==> cells_known(w1.ids(), bp),
{
    lemma_link_fresh(w0, w1, pu, pv, cap, 0);
    if cells_known(w0.ids(), bp) && (forall|x: usize| x >= 4 ==> !keyed_by(pu, x) && !keyed_by(pv, x)) {
        assert forall|key: (usize, usize)| #[trigger] w1.ids().contains_key(key) && key.0 >= 4 implies exists|
            k: int,
        |
            0 <= k < bp.battery_blueprints@.len() && (#[trigger] bp.battery_blueprints@[k]).battery.id + 4
                == key.0 by {
            if !w0.ids().contains_key(key) {
                assert(!keyed_by(pu, key.0) && !keyed_by(pv, key.0));
            }
        }
    }
    let a0 = w0.graph().arcs();
    let a1 = w1.graph().arcs();
    let n = a0.len() as int;
    lemma_linked(w0, w1, pu, pv, cap, 0);
    lemma_link_keeps(bp, w0, w1, pu, pv, cap, 0);
    if !action_place(pu) && !action_place(pv) && accumulators_known(w0.ids(), bp) {
        assert forall|x: usize| #[trigger] w1.ids().contains_key((3usize, x)) implies exists|k: int|
            0 <= k < bp.variable_action_blueprints@.len()
                && (#[trigger] bp.variable_action_blueprints@[k]).variable_action.id == x by {
            assert(w0.ids().contains_key((3usize, x)));
        }
    }
    w0.graph().lemma_wf();
    lemma_cost_sites_push_plain(
        bp.network_consumption_blueprint.relevant_edges@,
        a0,
        prices,
        STEPS_PER_DAY as int,
        a1[n],
        a1[n + 1],
    );
    assert(a1 =~= a0.push(a1[n]).push(a1[n + 1]));
}

/// A prefix of a series sums to what the prefix without its last value
/// sums to, plus that value.
pub proof fn lemma_sum_take_step(s: Seq<i64>, t: int)
    requires
        0 <= t < s.len(),
    ensures
        seq_sum(s.take(t + 1)) == seq_sum(s.take(t)) + s[t],
{
    assert(s.take(t + 1).drop_last() =~= s.take(t));
}

/// A prefix of a series without negative values sums to at most what the
/// series sums to.
pub proof fn lemma_sum_take_le(s: Seq<i64>, t: int)
    requires
        0 <= t <= s.len(),
        forall|i: int| 0 <= i < s.len() ==> #[trigger] s[i] >= 0,
    ensures
        0 <= seq_sum(s.take(t)) <= seq_sum(s),
    decreases s.len() - t,
{
    if t == s.len() {
        assert(s.take(t) =~= s);
        lemma_sum_nonnegative(s);
    } else {
        lemma_sum_take_le(s, t + 1);
        lemma_sum_take_step(s, t);
        lemma_sum_nonnegative(s.take(t));
    }
}

/// A series without negative values does not sum below zero.
pub proof fn lemma_sum_nonnegative(s: Seq<i64>)
    requires
        forall|i: int| 0 <= i < s.len() ==> #[trigger] s[i] >= 0,
    ensures
        seq_sum(s) >= 0,
    decreases s.len(),
{
    if s.len() > 0 {
        lemma_sum_nonnegative(s.drop_last());
    }
}

/// Whether no value of the series is negative.
pub fn all_nonnegative(v: &Vec<i64>) -> (ok: bool)
    ensures
        ok == forall|i: int| 0 <= i < v@.len() ==> #[trigger] v@[i] >= 0,
{
    let mut i: usize = 0;
    while i < v.len()
        invariant
            i <= v@.len(),
            forall|j: int| 0 <= j < i ==> #[trigger] v@[j] >= 0,
        decreases v@.len() - i,
    {
        if v[i] < 0 {
            return false;
        }
        i += 1;
    }
    true
}

/// The sum of a series without negative values, or `None` when the sum
/// does not fit 64 bits.
pub fn checked_total(v: &Vec<i64>) -> (r: Option<i64>)
    requires
        forall|i: int| 0 <= i < v@.len() ==> #[trigger] v@[i] >= 0,
    ensures
        r is Some <==> seq_sum(v@) <= i64::MAX,
        r matches Some(s) ==> s == seq_sum(v@),
{
    let mut total: i64 = 0;
    let mut i: usize = 0;
    assert(v@.take(0) =~= Seq::<i64>::empty());
    while i < v.len()
        invariant
            i <= v@.len(),
            forall|j: int| 0 <= j < v@.len() ==> #[trigger] v@[j] >= 0,
            0 <= total,
            total == seq_sum(v@.take(i as int)),
        decreases v@.len() - i,
    {
        proof {
            lemma_sum_take_step(v@, i as int);
            lemma_sum_take_le(v@, i as int + 1);
        }
        if v[i] > i64::MAX - total {
            return None;
        }
        total = total + v[i];
        i += 1;
    }
    assert(v@.take(v@.len() as int) =~= v@);
    Some(total)
}

/// Why forecasts are refused, if they are: checked in this order, a series
/// of the wrong length, a fraction outside `(0, 1]`, a negative value, a
/// consumption whose sum does not fit 64 bits.
pub open spec fn forecast_refusal(
    generate: Seq<i64>,
    price: Seq<i64>,
    consume: Seq<i64>,
    fraction: StepFraction,
) -> Option<OptimizeError> {
    if generate.len() != STEPS_PER_DAY || price.len() != STEPS_PER_DAY || consume.len()
        != STEPS_PER_DAY {
        Some(OptimizeError::SeriesLength)
    } else if !fraction.wf() {
        Some(OptimizeError::FirstTimestepFraction)
    } else if !(forall|t: int| 0 <= t < STEPS_PER_DAY ==> #[trigger] generate[t] >= 0) || !(forall|
        t: int,
    |
        0 <= t < STEPS_PER_DAY ==> #[trigger] price[t] >= 0) || !(forall|t: int|
        0 <= t < STEPS_PER_DAY ==> #[trigger] consume[t] >= 0) {
        Some(OptimizeError::NegativeForecast)
    } else if seq_sum(consume) > i64::MAX {
        Some(OptimizeError::TooLarge)
    } else {
        None
    }
}

/// The table holds the wire of every timestep.
pub open spec fn wires_known(ids: NodeIds) -> bool {
    forall|t: u32| t < STEPS_PER_DAY ==> #[trigger] ids.contains_key((0usize, t as usize))
}

/// What holds of the network that the builder has built so far, and of the
/// network that every solve starts from: it carries no flow, nothing leaves
/// the sink, `demand` is the capacity into the sink, cost lies on the import
/// pairs alone, at the prices `prices`, none of them negative, the wire of
/// every timestep has its node, and every blueprint fits.
pub open spec fn base_ok(w: &FlowWrapper, bp: &SmartHomeBlueprint, prices: Seq<i64>, demand: int) -> bool {
    let a = w.graph().arcs();
    &&& w.wf()
    &&& pristine(a)
    &&& sink_absorbs(a)
    &&& demand == sink_capacity(a)
    &&& prices.len() == STEPS_PER_DAY
    &&& forall|t: int| 0 <= t < STEPS_PER_DAY ==> #[trigger] prices[t] >= 0
    &&& wires_known(w.ids())
    &&& cost_sites(
        bp.network_consumption_blueprint.relevant_edges@,
        a,
        prices,
        STEPS_PER_DAY as int,
        a.len() as int,
    )
    &&& bp.fits(a, w.ids())
}

/// The most batteries that a network takes.
pub const MAX_BATTERIES: usize = 100_000;

/// The most variable loads that a network takes.
pub const MAX_VARIABLE_ACTIONS: usize = 100_000;

/// The network is no larger than the forecasts, `b` batteries and `v`
/// variable loads make it: the forecasts take at most 3 pairs for each
/// step and 2 more, a battery 3 pairs for each step and 1 more, a variable
/// load 1 pair for each step of the day and 1 more.
pub open spec fn sized(w: &FlowWrapper, b: int, v: int) -> bool {
    &&& w.graph().arcs().len() <= 8644 + 8642 * b + 2882 * v
    &&& w.graph().order() <= 8646 + 8642 * b + 2883 * v
}

/// The number of arcs and of nodes leaves room for `pairs` more pairs.
pub open spec fn room_for(w: &FlowWrapper, pairs: int) -> bool {
    &&& w.graph().arcs().len() + 2 * pairs + 2 < usize::MAX
    &&& w.graph().order() + 2 * pairs + 2 <= usize::MAX
}

/// The pairs over which a battery takes from and gives to the wire of each
/// step, laid and named in the battery's blueprint.
fn lay_rates(
    flow: &mut FlowWrapper,
    bp: &mut BatteryBlueprint,
    held: &SmartHomeBlueprint,
    Ghost(prices): Ghost<Seq<i64>>,
    Ghost(demand): Ghost<int>,
    Ghost(fraction): Ghost<StepFraction>,
)
    requires
        base_ok(old(flow), held, prices, demand),
        room_for(old(flow), 2 * STEPS_PER_DAY),
        old(bp).first_charge == rate_at(fraction, old(bp).battery.maximum_charge_rate, 0),
        old(bp).first_output == rate_at(fraction, old(bp).battery.maximum_output_rate, 0),
        old(bp).battery.id + 4 <= usize::MAX,
        old(bp).first_charge >= 0,
        old(bp).first_output >= 0,
        old(bp).battery.maximum_charge_rate >= 0,
        old(bp).battery.maximum_output_rate >= 0,
        held_apart(held, old(bp).battery.id),
    ensures
        base_ok(final(flow), held, prices, demand),
        accumulators_known(old(flow).ids(), held) ==> accumulators_known(final(flow).ids(), held),
        sprouted(
            old(flow).ids(),
            old(flow).graph().order() as int,
            final(flow).ids(),
            0,
            (old(bp).battery.id + 4) as usize,
        ),
        old(flow).graph().order() <= final(flow).graph().order(),
        forall|t: u32|
            t < STEPS_PER_DAY ==> #[trigger] final(bp).charge_edges@[t] == old(flow).graph().arcs().len() + 4
                * t,
        forall|t: u32|
            t < STEPS_PER_DAY ==> #[trigger] final(bp).discharge_edges@[t] == old(
                flow,
            ).graph().arcs().len() + 4 * t + 2,
        final(bp).first_edge == old(bp).first_edge,
        extends(old(flow).graph().arcs(), final(flow).graph().arcs()),
        final(flow).graph().arcs().len() == old(flow).graph().arcs().len() + 4 * STEPS_PER_DAY,
        final(flow).graph().order() <= old(flow).graph().order() + 4 * STEPS_PER_DAY,
        grown(old(flow).ids(), final(flow).ids()),
        cells_upto(final(flow).ids(), old(bp).battery.id, STEPS_PER_DAY as int),
        final(flow).graph().arcs() == old(flow).graph().arcs() + rate_arcs(
            final(flow).ids(),
            fraction,
            old(bp).battery,
            STEPS_PER_DAY as int,
        ),
        final(bp).battery == old(bp).battery,
        final(bp).relevant_edges == old(bp).relevant_edges,
        final(bp).first_charge == old(bp).first_charge,
        final(bp).first_output == old(bp).first_output,
        steps_capped(
            final(bp).charge_edges@,
            final(flow).graph().arcs(),
            0,
            STEPS_PER_DAY as int,
            final(bp).first_charge as int,
            final(bp).battery.maximum_charge_rate as int,
        ),
        steps_capped(
            final(bp).discharge_edges@,
            final(flow).graph().arcs(),
            0,
            STEPS_PER_DAY as int,
            final(bp).first_output as int,
            final(bp).battery.maximum_output_rate as int,
        ),
        steps_run(
            final(bp).charge_edges@,
            final(flow).graph().arcs(),
            final(flow).ids(),
            0,
            STEPS_PER_DAY as int,
            0,
            0,
            (old(bp).battery.id + 4) as usize,
        ),
        steps_run(
            final(bp).discharge_edges@,
            final(flow).graph().arcs(),
            final(flow).ids(),
            0,
            STEPS_PER_DAY as int,
            (old(bp).battery.id + 4) as usize,
            0,
            0,
        ),
{
    let id = bp.battery.get_id() as usize;
    let ghost battery = bp.battery;
    let ghost key = (battery.id + 4) as usize;
    let mut t: u32 = 0;
    proof {
        assert(old(flow).graph().arcs() + rate_arcs(flow.ids(), fraction, battery, 0) =~= old(flow).graph().arcs());
    }
    while t < STEPS_PER_DAY
        invariant
            t <= STEPS_PER_DAY,
            id == bp.battery.id,
            battery == bp.battery,
            bp.first_charge == rate_at(fraction, battery.maximum_charge_rate, 0),
            bp.first_output == rate_at(fraction, battery.maximum_output_rate, 0),
            grown(old(flow).ids(), flow.ids()),
            cells_upto(flow.ids(), battery.id, t as int),
            flow.graph().arcs() == old(flow).graph().arcs() + rate_arcs(
                flow.ids(),
                fraction,
                battery,
                t as int,
            ),
            id + 4 <= usize::MAX,
            base_ok(flow, held, prices, demand),
            accumulators_known(old(flow).ids(), held) ==> accumulators_known(flow.ids(), held),
            extends(old(flow).graph().arcs(), flow.graph().arcs()),
            flow.graph().arcs().len() == old(flow).graph().arcs().len() + 4 * t,
            flow.graph().order() <= old(flow).graph().order() + 4 * t,
            room_for(old(flow), 2 * STEPS_PER_DAY),
            bp.battery == old(bp).battery,
            bp.relevant_edges == old(bp).relevant_edges,
            bp.first_charge == old(bp).first_charge,
            bp.first_output == old(bp).first_output,
            bp.first_charge >= 0,
            bp.first_output >= 0,
            bp.battery.maximum_charge_rate >= 0,
            bp.battery.maximum_output_rate >= 0,
            steps_capped(
                bp.charge_edges@,
                flow.graph().arcs(),
                0,
                t as int,
                bp.first_charge as int,
                bp.battery.maximum_charge_rate as int,
            ),
            steps_capped(
                bp.discharge_edges@,
                flow.graph().arcs(),
                0,
                t as int,
                bp.first_output as int,
                bp.battery.maximum_output_rate as int,
            ),
            key == (battery.id + 4) as usize,
            steps_run(bp.charge_edges@, flow.graph().arcs(), flow.ids(), 0, t as int, 0, 0, key),
            steps_run(bp.discharge_edges@, flow.graph().arcs(), flow.ids(), 0, t as int, key, 0, 0),
            held_apart(held, battery.id),
            sprouted(old(flow).ids(), old(flow).graph().order() as int, flow.ids(), 0, key),
            old(flow).graph().order() <= flow.graph().order(),
            forall|s: u32|
                s < t ==> #[trigger] bp.charge_edges@[s] == old(flow).graph().arcs().len() + 4 * s,
            forall|s: u32|
                s < t ==> #[trigger] bp.discharge_edges@[s] == old(flow).graph().arcs().len() + 4 * s + 2,
            bp.first_edge == old(bp).first_edge,
        decreases STEPS_PER_DAY - t,
    {
        let time = Time::from_timestep(t);
        let charge = if t == 0 {
            bp.first_charge
        } else {
            bp.battery.get_max_charge()
        };
        let output = if t == 0 {
            bp.first_output
        } else {
            bp.battery.get_max_output()
        };
        let ghost w0 = *flow;
        let ghost c0 = bp.charge_edges@;
        let ghost d0 = bp.discharge_edges@;
        let hc = link(flow, FlowNode::Wire(time), FlowNode::Battery(id, time), charge, 0);
        let ghost w1 = *flow;
        proof {
            lemma_link_exact(&w0, &w1, wire(t as int), cell(battery.id, t as int), charge, 0);
            lemma_spares_cells(
                held,
                w0.graph().arcs(),
                w0.ids(),
                battery.id,
                place_of(FlowNode::Wire(time)),
                place_of(FlowNode::Battery(id, time)),
            );
            lemma_link_fresh(
                &w0,
                &w1,
                place_of(FlowNode::Wire(time)),
                place_of(FlowNode::Battery(id, time)),
                charge,
                0,
            );
            assert(sprouted(w0.ids(), w0.graph().order() as int, w1.ids(), 0, key));
            lemma_sprouted_trans(
                old(flow).ids(),
                old(flow).graph().order() as int,
                w0.ids(),
                w0.graph().order() as int,
                w1.ids(),
                0,
                key,
            );
            lemma_link_base(
                held,
                &w0,
                &w1,
                prices,
                demand,
                place_of(FlowNode::Wire(time)),
                place_of(FlowNode::Battery(id, time)),
                charge,
            );
        }
        let hd = link(flow, FlowNode::Battery(id, time), FlowNode::Wire(time), output, 0);
        bp.set_rate_edges(time, hc, hd);
        proof {
            lemma_spares_cells(
                held,
                w1.graph().arcs(),
                w1.ids(),
                battery.id,
                place_of(FlowNode::Battery(id, time)),
                place_of(FlowNode::Wire(time)),
            );
            lemma_link_fresh(
                &w1,
                flow,
                place_of(FlowNode::Battery(id, time)),
                place_of(FlowNode::Wire(time)),
                output,
                0,
            );
            lemma_link_exact(&w1, flow, cell(battery.id, t as int), wire(t as int), output, 0);
            assert(sprouted(w1.ids(), w1.graph().order() as int, flow.ids(), 0, key));
            lemma_sprouted_trans(
                old(flow).ids(),
                old(flow).graph().order() as int,
                w1.ids(),
                w1.graph().order() as int,
                flow.ids(),
                0,
                key,
            );
            let ids = flow.ids();
            let up = pair_arcs(ids, wire(t as int), cell(battery.id, t as int), charge, 0);
            let down = pair_arcs(ids, cell(battery.id, t as int), wire(t as int), output, 0);
            let sofar = rate_arcs(ids, fraction, battery, t as int);
            lemma_link_exact(&w1, flow, cell(battery.id, t as int), wire(t as int), output, 0);
            lemma_grown_trans(w0.ids(), w1.ids(), ids);
            lemma_grown_trans(old(flow).ids(), w0.ids(), ids);
            lemma_pair_grown(w1.ids(), ids, wire(t as int), cell(battery.id, t as int), charge, 0);
            lemma_wires(w0.ids(), t as int);
            lemma_rates_grown(w0.ids(), ids, fraction, battery, t as int);
            assert(rate_arcs(ids, fraction, battery, t + 1) == sofar + up + down);
            assert(flow.graph().arcs() =~= old(flow).graph().arcs() + (sofar + up + down));
            assert forall|s: int| 0 <= s < t + 1 implies known(ids, #[trigger] cell(battery.id, s)) by {
                if s < t {
                    assert(known(w0.ids(), cell(battery.id, s)));
                }
            }
            let a0 = w0.graph().arcs();
            let a1 = w1.graph().arcs();
            let a2 = flow.graph().arcs();
            lemma_link_base(
                held,
                &w1,
                flow,
                prices,
                demand,
                place_of(FlowNode::Battery(id, time)),
                place_of(FlowNode::Wire(time)),
                output,
            );
            lemma_extends_trans(a0, a1, a2);
            lemma_extends_trans(old(flow).graph().arcs(), a0, a2);
            lemma_capacity_extends(a1, a2, hc as int);
            lemma_capped_extends(
                c0,
                a0,
                a2,
                0,
                t as int,
                bp.first_charge as int,
                bp.battery.maximum_charge_rate as int,
            );
            lemma_capped_extends(
                d0,
                a0,
                a2,
                0,
                t as int,
                bp.first_output as int,
                bp.battery.maximum_output_rate as int,
            );
            lemma_capped_insert(
                c0,
                a2,
                0,
                t,
                bp.first_charge as int,
                bp.battery.maximum_charge_rate as int,
                hc,
            );
            lemma_capped_insert(
                d0,
                a2,
                0,
                t,
                bp.first_output as int,
                bp.battery.maximum_output_rate as int,
                hd,
            );
            lemma_capped_covered(
                c0,
                a0,
                0,
                t as int,
                bp.first_charge as int,
                bp.battery.maximum_charge_rate as int,
            );
            lemma_capped_covered(
                d0,
                a0,
                0,
                t as int,
                bp.first_output as int,
                bp.battery.maximum_output_rate as int,
            );
            assert forall|s: u32| 0 <= s < t implies #[trigger] w0.ids().contains_key((key, s as usize))
                && w0.ids().contains_key((0usize, (s - 0) as usize)) by {
                assert(known(w0.ids(), cell(battery.id, s as int)));
                assert(w0.ids().contains_key((0usize, s as usize)));
            }
            assert forall|s: u32| 0 <= s < t implies #[trigger] w0.ids().contains_key((0usize, s as usize))
                && w0.ids().contains_key((key, (s - 0) as usize)) by {
                assert(known(w0.ids(), cell(battery.id, s as int)));
                assert(w0.ids().contains_key((0usize, s as usize)));
            }
            lemma_run_extends(c0, a0, a2, w0.ids(), ids, 0, t as int, 0, 0, key);
            lemma_run_extends(d0, a0, a2, w0.ids(), ids, 0, t as int, key, 0, 0);
            assert(w1.ids().contains_key((key, t as usize)));
            assert(w1.ids().contains_key((0usize, t as usize)));
            assert(a1[hc as int].to == w1.ids()[(key, t as usize)]);
            assert(a1[hc + 1].to == w1.ids()[(0usize, t as usize)]);
            assert(a2[hc as int].to == a1[hc as int].to);
            assert(a2[hc + 1].to == a1[hc + 1].to);
            assert(a2[hd as int].to == ids[(0usize, t as usize)]);
            assert(a2[hd + 1].to == ids[(key, t as usize)]);
            lemma_run_insert(c0, a2, ids, 0, t, hc, 0, 0, key);
            lemma_run_insert(d0, a2, ids, 0, t, hd, key, 0, 0);
        }
        t += 1;
    }
}

/// The pairs that carry a battery's level from each step into the next,
/// laid and named in the battery's blueprint.
fn lay_levels(
    flow: &mut FlowWrapper,
    bp: &mut BatteryBlueprint,
    held: &SmartHomeBlueprint,
    Ghost(prices): Ghost<Seq<i64>>,
    Ghost(demand): Ghost<int>,
)
    requires
        base_ok(old(flow), held, prices, demand),
        room_for(old(flow), STEPS_PER_DAY as int),
        cells_upto(old(flow).ids(), old(bp).battery.id, STEPS_PER_DAY as int),
        old(bp).battery.id + 4 <= usize::MAX,
        old(bp).battery.capacity >= 0,
        held_apart(held, old(bp).battery.id),
    ensures
        base_ok(final(flow), held, prices, demand),
        accumulators_known(old(flow).ids(), held) ==> accumulators_known(final(flow).ids(), held),
        sprouted(
            old(flow).ids(),
            old(flow).graph().order() as int,
            final(flow).ids(),
            0,
            (old(bp).battery.id + 4) as usize,
        ),
        old(flow).graph().order() <= final(flow).graph().order(),
        forall|t: u32|
            1 <= t <= STEPS_PER_DAY ==> #[trigger] final(bp).relevant_edges@[t] == old(
                flow,
            ).graph().arcs().len() + 2 * (t - 1),
        final(bp).first_edge == old(bp).first_edge,
        extends(old(flow).graph().arcs(), final(flow).graph().arcs()),
        final(flow).graph().arcs().len() == old(flow).graph().arcs().len() + 2 * STEPS_PER_DAY,
        final(flow).graph().order() <= old(flow).graph().order() + 2 * STEPS_PER_DAY,
        grown(old(flow).ids(), final(flow).ids()),
        cells_upto(final(flow).ids(), old(bp).battery.id, STEPS_PER_DAY + 1),
        final(flow).graph().arcs() == old(flow).graph().arcs() + level_arcs(
            final(flow).ids(),
            old(bp).battery,
            STEPS_PER_DAY as int,
        ),
        final(bp).battery == old(bp).battery,
        final(bp).charge_edges == old(bp).charge_edges,
        final(bp).discharge_edges == old(bp).discharge_edges,
        final(bp).first_charge == old(bp).first_charge,
        final(bp).first_output == old(bp).first_output,
        steps_capped(
            final(bp).relevant_edges@,
            final(flow).graph().arcs(),
            1,
            STEPS_PER_DAY as int + 1,
            final(bp).battery.capacity as int,
            final(bp).battery.capacity as int,
        ),
        steps_run(
            final(bp).relevant_edges@,
            final(flow).graph().arcs(),
            final(flow).ids(),
            1,
            STEPS_PER_DAY as int + 1,
            (old(bp).battery.id + 4) as usize,
            1,
            (old(bp).battery.id + 4) as usize,
        ),
{
    let id = bp.battery.get_id() as usize;
    let capacity = bp.battery.get_capacity();
    let ghost battery = bp.battery;
    let ghost key = (battery.id + 4) as usize;
    let mut t: u32 = 0;
    proof {
        assert(old(flow).graph().arcs() + level_arcs(flow.ids(), battery, 0) =~= old(flow).graph().arcs());
    }
    while t < STEPS_PER_DAY
        invariant
            t <= STEPS_PER_DAY,
            id == bp.battery.id,
            battery == bp.battery,
            grown(old(flow).ids(), flow.ids()),
            cells_upto(flow.ids(), battery.id, STEPS_PER_DAY as int),
            t > 0 ==> known(flow.ids(), cell(battery.id, t as int)),
            flow.graph().arcs() == old(flow).graph().arcs() + level_arcs(flow.ids(), battery, t as int),
            id + 4 <= usize::MAX,
            capacity == bp.battery.capacity,
            capacity >= 0,
            base_ok(flow, held, prices, demand),
            accumulators_known(old(flow).ids(), held) ==> accumulators_known(flow.ids(), held),
            extends(old(flow).graph().arcs(), flow.graph().arcs()),
            flow.graph().arcs().len() == old(flow).graph().arcs().len() + 2 * t,
            flow.graph().order() <= old(flow).graph().order() + 2 * t,
            room_for(old(flow), STEPS_PER_DAY as int),
            bp.battery == old(bp).battery,
            bp.charge_edges == old(bp).charge_edges,
            bp.discharge_edges == old(bp).discharge_edges,
            bp.first_charge == old(bp).first_charge,
            bp.first_output == old(bp).first_output,
            steps_capped(
                bp.relevant_edges@,
                flow.graph().arcs(),
                1,
                t as int + 1,
                capacity as int,
                capacity as int,
            ),
            key == (battery.id + 4) as usize,
            steps_run(bp.relevant_edges@, flow.graph().arcs(), flow.ids(), 1, t as int + 1, key, 1, key),
            held_apart(held, battery.id),
            sprouted(old(flow).ids(), old(flow).graph().order() as int, flow.ids(), 0, key),
            old(flow).graph().order() <= flow.graph().order(),
            forall|s: u32|
                1 <= s <= t ==> #[trigger] bp.relevant_edges@[s] == old(flow).graph().arcs().len() + 2 * (s
                    - 1),
            bp.first_edge == old(bp).first_edge,
        decreases STEPS_PER_DAY - t,
    {
        let time = Time::from_timestep(t);
        let next = Time::from_timestep(t + 1);
        let ghost w0 = *flow;
        let ghost r0 = bp.relevant_edges@;
        let h = link(flow, FlowNode::Battery(id, time), FlowNode::Battery(id, next), capacity, 0);
        bp.set_relevant_edge(next, h);
        proof {
            let ids = flow.ids();
            let on = pair_arcs(ids, cell(battery.id, t as int), cell(battery.id, t + 1), capacity, 0);
            let sofar = level_arcs(ids, battery, t as int);
            lemma_link_exact(&w0, flow, cell(battery.id, t as int), cell(battery.id, t + 1), capacity, 0);
            lemma_grown_trans(old(flow).ids(), w0.ids(), ids);
            assert forall|s: int| 0 <= s < t + 1 implies known(w0.ids(), #[trigger] cell(battery.id, s)) by {
                if s < STEPS_PER_DAY {
                    assert(known(w0.ids(), cell(battery.id, s)));
                }
            }
            lemma_levels_grown(w0.ids(), ids, battery, t as int);
            assert(level_arcs(ids, battery, t + 1) == sofar + on);
            assert(flow.graph().arcs() =~= old(flow).graph().arcs() + (sofar + on));
            assert forall|s: int| 0 <= s < STEPS_PER_DAY implies known(ids, #[trigger] cell(battery.id, s)) by {
                assert(known(w0.ids(), cell(battery.id, s)));
            }
            let a0 = w0.graph().arcs();
            let a1 = flow.graph().arcs();
            lemma_spares_cells(
                held,
                a0,
                w0.ids(),
                battery.id,
                place_of(FlowNode::Battery(id, time)),
                place_of(FlowNode::Battery(id, next)),
            );
            lemma_link_fresh(
                &w0,
                flow,
                place_of(FlowNode::Battery(id, time)),
                place_of(FlowNode::Battery(id, next)),
                capacity,
                0,
            );
            assert(sprouted(w0.ids(), w0.graph().order() as int, flow.ids(), 0, key));
            lemma_sprouted_trans(
                old(flow).ids(),
                old(flow).graph().order() as int,
                w0.ids(),
                w0.graph().order() as int,
                flow.ids(),
                0,
                key,
            );
            lemma_link_base(
                held,
                &w0,
                flow,
                prices,
                demand,
                place_of(FlowNode::Battery(id, time)),
                place_of(FlowNode::Battery(id, next)),
                capacity,
            );
            lemma_extends_trans(old(flow).graph().arcs(), a0, a1);
            lemma_capped_extends(r0, a0, a1, 1, t as int + 1, capacity as int, capacity as int);
            lemma_capped_insert(r0, a1, 1, (t + 1) as u32, capacity as int, capacity as int, h);
            lemma_capped_covered(r0, a0, 1, t as int + 1, capacity as int, capacity as int);
            assert forall|s: u32| 1 <= s < t + 1 implies #[trigger] w0.ids().contains_key((key, s as usize))
                && w0.ids().contains_key((key, (s - 1) as usize)) by {
                if s < STEPS_PER_DAY {
                    assert(known(w0.ids(), cell(battery.id, s as int)));
                } else {
                    assert(known(w0.ids(), cell(battery.id, t as int)));
                }
                assert(known(w0.ids(), cell(battery.id, s - 1)));
            }
            lemma_run_extends(r0, a0, a1, w0.ids(), ids, 1, t as int + 1, key, 1, key);
            assert(ids.contains_key((key, (t + 1) as usize)));
            assert(a1[h as int].to == ids[(key, (t + 1) as usize)]);
            assert(a1[h + 1].to == ids[(key, t as usize)]);
            lemma_run_insert(r0, a1, ids, 1, (t + 1) as u32, h, key, 1, key);
        }
        t += 1;
    }
    proof {
        assert forall|s: int| 0 <= s < STEPS_PER_DAY + 1 implies known(
            flow.ids(),
            #[trigger] cell(battery.id, s),
        ) by {
            if s < STEPS_PER_DAY {
                assert(known(flow.ids(), cell(battery.id, s)));
            }
        }
    }
}

/// The pairs from the wire of each step of a variable load's window into
/// the load's accumulator, laid one behind the other and named in the
/// load's blueprint.
fn lay_window(
    flow: &mut FlowWrapper,
    bp: &mut VariableActionBlueprint,
    held: &SmartHomeBlueprint,
    Ghost(prices): Ghost<Seq<i64>>,
    Ghost(demand): Ghost<int>,
    Ghost(fraction): Ghost<StepFraction>,
)
    requires
        base_ok(old(flow), held, prices, demand),
        old(bp).first_cap == rate_at(fraction, old(bp).variable_action.max_consumption, 0),
        room_for(old(flow), STEPS_PER_DAY as int),
        old(bp).variable_action.wf(),
        old(bp).variable_action.end.minutes <= STEPS_PER_DAY,
        old(bp).variable_action.max_consumption >= 0,
        old(bp).first_cap >= 0,
        old(bp).first_edge == old(flow).graph().arcs().len(),
        old(flow).ids().contains_key((3, old(bp).variable_action.id as usize)),
        old(flow).ids()[(3, old(bp).variable_action.id as usize)] == old(bp).node,
        forall|i: int|
            0 <= i < old(flow).graph().arcs().len() ==> (#[trigger] old(flow).graph().arcs()[i]).to
                != old(bp).node,
        forall|k: int|
            0 <= k < held.variable_action_blueprints@.len()
                ==> (#[trigger] held.variable_action_blueprints@[k]).variable_action.id != old(
                bp,
            ).variable_action.id,
    ensures
        base_ok(final(flow), held, prices, demand),
        extends(old(flow).graph().arcs(), final(flow).graph().arcs()),
        final(flow).graph().arcs().len() == old(flow).graph().arcs().len() + 2 * old(bp).span(),
        final(flow).graph().order() <= old(flow).graph().order() + 2 * old(bp).span(),
        final(bp).variable_action == old(bp).variable_action,
        final(bp).first_edge == old(bp).first_edge,
        final(bp).sink_edge == old(bp).sink_edge,
        final(bp).node == old(bp).node,
        final(bp).first_cap == old(bp).first_cap,
        final(flow).ids().contains_key((3, old(bp).variable_action.id as usize)),
        final(flow).ids()[(3, old(bp).variable_action.id as usize)] == old(bp).node,
        forall|x: usize| #[trigger]
            final(flow).ids().contains_key((3usize, x)) ==> old(flow).ids().contains_key((3usize, x)),
        window_laid(final(bp), final(flow).graph().arcs(), final(bp).span()),
        cells_known(old(flow).ids(), held) ==> cells_known(final(flow).ids(), held),
        grown(old(flow).ids(), final(flow).ids()),
        final(flow).graph().arcs() == old(flow).graph().arcs() + window_arcs(
            final(flow).ids(),
            fraction,
            old(bp).variable_action,
            old(bp).span(),
        ),
{
    let id = bp.variable_action.get_id() as usize;
    let start = bp.variable_action.get_start().to_timestep();
    let end = bp.variable_action.get_end().to_timestep();
    let ghost first = bp.first_edge as int;
    let ghost node = bp.node;
    let ghost key = (3usize, id);
    let ghost action = bp.variable_action;
    let mut t: u32 = start;
    proof {
        assert(old(flow).graph().arcs() + window_arcs(flow.ids(), fraction, action, 0) =~= old(flow).graph().arcs());
    }
    while t < end
        invariant
            start <= t <= end,
            action == bp.variable_action,
            bp.first_cap == rate_at(fraction, action.max_consumption, 0),
            grown(old(flow).ids(), flow.ids()),
            flow.graph().arcs() == old(flow).graph().arcs() + window_arcs(
                flow.ids(),
                fraction,
                action,
                t - start,
            ),
            end <= STEPS_PER_DAY,
            id == bp.variable_action.id,
            start == bp.variable_action.start.minutes,
            end == bp.variable_action.end.minutes,
            first == bp.first_edge,
            node == bp.node,
            key == (3usize, id),
            first == old(flow).graph().arcs().len(),
            base_ok(flow, held, prices, demand),
            room_for(old(flow), STEPS_PER_DAY as int),
            extends(old(flow).graph().arcs(), flow.graph().arcs()),
            flow.graph().arcs().len() == first + 2 * (t - start),
            flow.graph().order() <= old(flow).graph().order() + 2 * (t - start),
            bp.variable_action == old(bp).variable_action,
            bp.sink_edge == old(bp).sink_edge,
            bp.first_cap == old(bp).first_cap,
            bp.variable_action.max_consumption >= 0,
            bp.first_cap >= 0,
            flow.ids().contains_key(key),
            flow.ids()[key] == node,
            forall|x: usize| #[trigger]
                flow.ids().contains_key((3usize, x)) ==> old(flow).ids().contains_key((3usize, x)),
            forall|k: int|
                0 <= k < held.variable_action_blueprints@.len()
                    ==> (#[trigger] held.variable_action_blueprints@[k]).variable_action.id != id,
            window_laid(bp, flow.graph().arcs(), t - start),
            cells_known(old(flow).ids(), held) ==> cells_known(flow.ids(), held),
        decreases end - t,
    {
        let time = Time::from_timestep(t);
        let cap = if t == 0 {
            bp.first_cap
        } else {
            bp.variable_action.get_max_consumption()
        };
        let ghost w0 = *flow;
        let ghost r0 = bp.relevant_edges@;
        let ghost bp0 = *bp;
        let h = link(flow, FlowNode::Wire(time), FlowNode::Action(id), cap, 0);
        bp.set_relevant_edge(time, h);
        proof {
            let ids = flow.ids();
            let step = pair_arcs(ids, wire(t as int), accumulator(action.id), cap, 0);
            let sofar = window_arcs(ids, fraction, action, t - start);
            lemma_link_exact(&w0, flow, wire(t as int), accumulator(action.id), cap, 0);
            lemma_grown_trans(old(flow).ids(), w0.ids(), ids);
            lemma_wires(w0.ids(), t as int);
            lemma_window_grown(w0.ids(), ids, fraction, action, t - start);
            assert(window_arcs(ids, fraction, action, t + 1 - start) == sofar + step);
            assert(flow.graph().arcs() =~= old(flow).graph().arcs() + (sofar + step));
            let a0 = w0.graph().arcs();
            let a1 = flow.graph().arcs();
            let pu = place_of(FlowNode::Wire(time));
            let pv = place_of(FlowNode::Action(id));
            lemma_link_base(held, &w0, flow, prices, demand, pu, pv, cap);
            lemma_linked(&w0, flow, pu, pv, cap, 0);
            lemma_extends_trans(old(flow).graph().arcs(), a0, a1);
            w0.graph().lemma_wf();
            lemma_lookup_avoids(w0.ids(), w0.graph().order(), pu, key);
            let j = (t - start) as int;
            assert(a1[first + 2 * j].to == node);
            assert(a1[first + 2 * j + 1].to != node);
            assert forall|k: int| first / 2 <= k < first / 2 + j + 1 implies #[trigger] window_step_ok(
                bp,
                a1,
                k,
            ) by {
                if k < first / 2 + j {
                    assert(window_step_ok(&bp0, a0, k));
                    lemma_capacity_extends(a0, a1, 2 * k);
                } else {
                    assert(2 * k == first + 2 * j);
                    assert(pair_capacity(a1, k) == cap);
                }
            }
            assert forall|s: u32| start <= s < start + j + 1 implies #[trigger] bp.relevant_edges@.contains_key(
                s,
            ) && bp.relevant_edges@[s] == first + 2 * (s - start) by {
                if s < t {
                    assert(r0.contains_key(s));
                }
            }
            assert forall|i: int| 0 <= i < a1.len() && (#[trigger] a1[i]).to == node implies first
                <= i by {
                if i < a0.len() {
                    assert(a1[i].to == a0[i].to);
                }
            }
            assert forall|x: usize| #[trigger] flow.ids().contains_key((3usize, x))
                implies old(flow).ids().contains_key((3usize, x)) by {
                if x != id {
                    assert(w0.ids().contains_key((3usize, x)));
                }
            }
        }
        t += 1;
    }
}

/// Pair `k` leads into the accumulator of the blueprint and not out of it,
/// with the cap of its step.
pub open spec fn window_step_ok(bp: &VariableActionBlueprint, a: Seq<Edge>, k: int) -> bool {
    &&& a[2 * k].to == bp.node
    &&& a[2 * k + 1].to != bp.node
    &&& pair_capacity(a, k) == bp.cap(
        bp.variable_action.start.minutes + k - bp.first_edge as int / 2,
    )
}

/// The first `count` pairs of the window of a variable load stand in `a`
/// from the first pair of the blueprint on, each named in the table for its
/// step, each leading into the accumulator with the cap of its step, and no
/// arc before them touches the accumulator.
pub open spec fn window_laid(bp: &VariableActionBlueprint, a: Seq<Edge>, count: int) -> bool {
    let start = bp.variable_action.start.minutes as int;
    let first = bp.first_edge as int;
    &&& first % 2 == 0
    &&& a.len() >= first + 2 * count
    &&& forall|t: u32|
        start <= t < start + count ==> #[trigger] bp.relevant_edges@.contains_key(t)
            && bp.relevant_edges@[t] == first + 2 * (t - start)
    &&& forall|k: int| first / 2 <= k < first / 2 + count ==> #[trigger] window_step_ok(bp, a, k)
    &&& forall|i: int| 0 <= i < a.len() && (#[trigger] a[i]).to == bp.node ==> first <= i
}

/// A window that was laid fits once the pair from the accumulator to the
/// sink stands behind it: `bp` is the blueprint `laid` with that pair named,
/// `a3` the network `a2` with that pair appended.
pub proof fn lemma_window_fits(
    laid: &VariableActionBlueprint,
    bp: &VariableActionBlueprint,
    a2: Seq<Edge>,
    a3: Seq<Edge>,
    ids: NodeIds,
)
    requires
        window_laid(laid, a2, laid.span()),
        extends(a2, a3),
        a3.len() == a2.len() + 2,
        a2.len() == laid.first_edge + 2 * laid.span(),
        bp.variable_action == laid.variable_action,
        bp.relevant_edges == laid.relevant_edges,
        bp.first_edge == laid.first_edge,
        bp.node == laid.node,
        bp.first_cap == laid.first_cap,
        bp.sink_edge == a2.len(),
        bp.variable_action.wf(),
        bp.variable_action.end.minutes <= STEPS_PER_DAY,
        ids.contains_key((3, bp.variable_action.id as usize)),
        ids[(3, bp.variable_action.id as usize)] == bp.node,
        bp.node >= 2,
        a3[a2.len() as int].to == 1,
        a3[a2.len() as int + 1].to == bp.node,
        pair_capacity(a3, a2.len() as int / 2) == bp.variable_action.total_consumption,
    ensures
        bp.fits(a3, ids),
{
    let span = bp.span();
    let f = bp.first_edge as int;
    assert forall|k: int| f / 2 <= k < f / 2 + span implies (#[trigger] a3[2 * k]).to == bp.node by {
        assert(window_step_ok(laid, a2, k));
        lemma_capacity_extends(a2, a3, 2 * k);
    }
    assert forall|k: int| f / 2 <= k < f / 2 + span implies (#[trigger] a3[2 * k + 1]).to
        != bp.node by {
        assert(window_step_ok(laid, a2, k));
        lemma_capacity_extends(a2, a3, 2 * k);
    }
    assert forall|k: int| f / 2 <= k < f / 2 + span implies #[trigger] pair_capacity(a3, k) == bp.cap(
        bp.variable_action.start.minutes + k - f / 2,
    ) by {
        assert(window_step_ok(laid, a2, k));
        lemma_capacity_extends(a2, a3, 2 * k);
    }
    assert forall|i: int| 0 <= i < a3.len() && (#[trigger] a3[i]).to == bp.node implies f <= i
        <= bp.sink_edge + 1 by {
        if i < a2.len() {
            assert(a3[i].to == a2[i].to);
        }
    }
}

/// Builds the time-expanded network step by step: first the forecasts, then
/// batteries and variable loads one at a time.
pub struct SmartHomeFlowBuilder {
    pub flow: FlowWrapper,
    pub blueprint: SmartHomeBlueprint,
    pub first_timestep_fraction: StepFraction,
    /// What the loads added so far demand.
    pub demand: i64,
    /// The price of each step.
    pub prices: Vec<i64>,
}

impl SmartHomeFlowBuilder {
    /// The builder's invariant.
    pub open spec fn wf(&self) -> bool {
        &&& base_ok(&self.flow, &self.blueprint, self.prices@, self.demand as int)
        &&& accumulators_known(self.flow.ids(), &self.blueprint)
        &&& cells_known(self.flow.ids(), &self.blueprint)
        &&& self.first_timestep_fraction.wf()
        &&& self.demand >= 0
        &&& self.blueprint.battery_blueprints@.len() <= MAX_BATTERIES
        &&& self.blueprint.variable_action_blueprints@.len() <= MAX_VARIABLE_ACTIONS
        &&& sized(
            &self.flow,
            self.blueprint.battery_blueprints@.len() as int,
            self.blueprint.variable_action_blueprints@.len() as int,
        )
    }

    /// The network of the forecasts: source to generator and to the grid;
    /// for each step, generator to the step's wire with what is generated,
    /// grid to wire without limit at the step's price, and wire to sink with
    /// what is consumed beyond control. Pairs of capacity zero are left out.
    #[verifier::rlimit(40)]
    pub fn new(
        generate_prog: &Prognoses<i64>,
        price_prog: &Prognoses<i64>,
        consume_prog: &Prognoses<i64>,
        first_timestep_fraction: StepFraction,
    ) -> (r: Result<Self, OptimizeError>)
        ensures
            match r {
                Ok(b) => {
                    &&& forecast_refusal(
                        generate_prog.view(),
                        price_prog.view(),
                        consume_prog.view(),
                        first_timestep_fraction,
                    ) is None
                    &&& b.wf()
                    &&& b.prices@ == price_prog.view()
                    &&& b.demand == seq_sum(consume_prog.view())
                    &&& b.first_timestep_fraction == first_timestep_fraction
                    &&& b.blueprint.battery_blueprints@.len() == 0
                    &&& b.blueprint.variable_action_blueprints@.len() == 0
                    &&& known(b.flow.ids(), generator())
                    &&& known(b.flow.ids(), network())
                    &&& b.flow.graph().arcs() == forecast_arcs(
                        b.flow.ids(),
                        generate_prog.view(),
                        price_prog.view(),
                        consume_prog.view(),
                        STEPS_PER_DAY as int,
                    )
                },
                Err(e) => forecast_refusal(
                    generate_prog.view(),
                    price_prog.view(),
                    consume_prog.view(),
                    first_timestep_fraction,
                ) == Some(e),
            },
    {
        let g = generate_prog.get_data();
        let p = price_prog.get_data();
        let c = consume_prog.get_data();
        let steps = STEPS_PER_DAY as usize;
        if g.len() != steps || p.len() != steps || c.len() != steps {
            return Err(OptimizeError::SeriesLength);
        }
        if !first_timestep_fraction.is_valid() {
            return Err(OptimizeError::FirstTimestepFraction);
        }
        if !all_nonnegative(g) || !all_nonnegative(p) || !all_nonnegative(c) {
            return Err(OptimizeError::NegativeForecast);
        }
        let total = match checked_total(c) {
            Some(t) => t,
            None => {
                return Err(OptimizeError::TooLarge);
            },
        };
        let mut flow = FlowWrapper::new();
        let mut net = NetworkConsumptionBlueprint::new();
        let ghost w0 = flow;
        link(&mut flow, FlowNode::Source, FlowNode::Generator, CAP_INF, 0);
        let ghost w1 = flow;
        proof {
            assert(pristine(w0.graph().arcs()));
            assert(sink_absorbs(w0.graph().arcs()));
            assert(cost_sites(net.relevant_edges@, w0.graph().arcs(), p@, 0, 0));
            lemma_link_exact(&w0, &w1, source(), generator(), CAP_INF, 0);
            lemma_linked(&w0, &w1, place_of(FlowNode::Source), place_of(FlowNode::Generator), CAP_INF, 0);
            lemma_cost_sites_push_plain(
                net.relevant_edges@,
                w0.graph().arcs(),
                p@,
                0,
                w1.graph().arcs()[0],
                w1.graph().arcs()[1],
            );
            assert(w1.graph().arcs() =~= w0.graph().arcs().push(w1.graph().arcs()[0]).push(
                w1.graph().arcs()[1],
            ));
        }
        link(&mut flow, FlowNode::Source, FlowNode::Network, CAP_INF, 0);
        proof {
            lemma_link_exact(&w1, &flow, source(), network(), CAP_INF, 0);
            lemma_pair_grown(w1.ids(), flow.ids(), source(), generator(), CAP_INF, 0);
            assert(flow.graph().arcs() =~= forecast_arcs(flow.ids(), g@, p@, c@, 0));
            lemma_linked(&w1, &flow, place_of(FlowNode::Source), place_of(FlowNode::Network), CAP_INF, 0);
            lemma_cost_sites_push_plain(
                net.relevant_edges@,
                w1.graph().arcs(),
                p@,
                0,
                flow.graph().arcs()[2],
                flow.graph().arcs()[3],
            );
            assert(flow.graph().arcs() =~= w1.graph().arcs().push(flow.graph().arcs()[2]).push(
                flow.graph().arcs()[3],
            ));
            assert(p@.take(0) =~= Seq::<i64>::empty());
            assert(c@.take(0) =~= Seq::<i64>::empty());
        }
        let mut demand: i64 = 0;
        let mut prices: Vec<i64> = Vec::new();
        let mut t: u32 = 0;
        while t < STEPS_PER_DAY
            invariant
                t <= STEPS_PER_DAY,
                g@.len() == STEPS_PER_DAY,
                p@.len() == STEPS_PER_DAY,
                c@.len() == STEPS_PER_DAY,
                forall|i: int| 0 <= i < STEPS_PER_DAY ==> #[trigger] g@[i] >= 0,
                forall|i: int| 0 <= i < STEPS_PER_DAY ==> #[trigger] p@[i] >= 0,
                forall|i: int| 0 <= i < STEPS_PER_DAY ==> #[trigger] c@[i] >= 0,
                total == seq_sum(c@),
                flow.wf(),
                pristine(flow.graph().arcs()),
                sink_absorbs(flow.graph().arcs()),
                demand == sink_capacity(flow.graph().arcs()),
                demand == seq_sum(c@.take(t as int)),
                demand >= 0,
                prices@ == p@.take(t as int),
                cost_sites(
                    net.relevant_edges@,
                    flow.graph().arcs(),
                    p@,
                    t as int,
                    flow.graph().arcs().len() as int,
                ),
                import_wired(net.relevant_edges@, flow.graph().arcs(), flow.ids(), t as int),
                steps_covered(net.relevant_edges@, flow.graph().arcs(), 0, t as int),
                forall|key: (usize, usize)| #[trigger] flow.ids().contains_key(key) ==> key.0 < 3,
                forall|s: u32| s < t ==> #[trigger] net.relevant_edges@[s] < flow.graph().arcs().len(),
                flow.graph().arcs().len() <= 4 + 6 * t,
                flow.graph().order() <= 4 + 3 * t,
                forall|x: usize| !(#[trigger] flow.ids().contains_key((3usize, x))),
                forall|s: u32| s < t ==> #[trigger] flow.ids().contains_key((0usize, s as usize)),
                known(flow.ids(), generator()),
                known(flow.ids(), network()),
                flow.graph().arcs() == forecast_arcs(flow.ids(), g@, p@, c@, t as int),
            decreases STEPS_PER_DAY - t,
        {
            let time = Time::from_timestep(t);
            let gen_amount = g[t as usize];
            let ghost head = flow;
            let ghost sofar = forecast_arcs(flow.ids(), g@, p@, c@, t as int);
            proof {
                assert forall|s: int| 0 <= s < t implies known(flow.ids(), #[trigger] wire(s)) by {
                    assert(flow.ids().contains_key((0usize, s as u32 as usize)));
                }
            }
            let ghost mut part: Seq<Edge> = Seq::empty();
            if gen_amount > 0 {
                let ghost before = flow;
                link(&mut flow, FlowNode::Generator, FlowNode::Wire(time), gen_amount, 0);
                proof {
                    lemma_link_exact(&before, &flow, generator(), wire(t as int), gen_amount, 0);
                    part = pair_arcs(flow.ids(), generator(), wire(t as int), gen_amount, 0);
                    let n = before.graph().arcs().len() as int;
                    lemma_linked(
                        &before,
                        &flow,
                        place_of(FlowNode::Generator),
                        place_of(FlowNode::Wire(time)),
                        gen_amount,
                        0,
                    );
                    lemma_cost_sites_push_plain(
                        net.relevant_edges@,
                        before.graph().arcs(),
                        p@,
                        t as int,
                        flow.graph().arcs()[n],
                        flow.graph().arcs()[n + 1],
                    );
                    assert(flow.graph().arcs() =~= before.graph().arcs().push(
                        flow.graph().arcs()[n],
                    ).push(flow.graph().arcs()[n + 1]));
                    lemma_covered_extends(
                        net.relevant_edges@,
                        before.graph().arcs(),
                        flow.graph().arcs(),
                        0,
                        t as int,
                    );
                    lemma_import_extends(
                        net.relevant_edges@,
                        before.graph().arcs(),
                        flow.graph().arcs(),
                        before.ids(),
                        flow.ids(),
                        t as int,
                    );
                }
            }
            let price = p[t as usize];
            let ghost before = flow;
            let ghost net0 = net.relevant_edges@;
            let edge_id = link(&mut flow, FlowNode::Network, FlowNode::Wire(time), CAP_INF, price);
            net.set_relevant_edge(time, edge_id);
            prices.push(price);
            proof {
                lemma_link_exact(&before, &flow, network(), wire(t as int), CAP_INF, price);
                if gen_amount > 0 {
                    lemma_pair_grown(before.ids(), flow.ids(), generator(), wire(t as int), gen_amount, 0);
                }
                part = part + pair_arcs(flow.ids(), network(), wire(t as int), CAP_INF, price);
                let n = before.graph().arcs().len() as int;
                lemma_linked(
                    &before,
                    &flow,
                    place_of(FlowNode::Network),
                    place_of(FlowNode::Wire(time)),
                    CAP_INF,
                    price,
                );
                lemma_cost_sites_push_site(
                    net0,
                    before.graph().arcs(),
                    p@,
                    t,
                    flow.graph().arcs()[n],
                    flow.graph().arcs()[n + 1],
                );
                assert(flow.graph().arcs() =~= before.graph().arcs().push(flow.graph().arcs()[n]).push(
                    flow.graph().arcs()[n + 1],
                ));
                lemma_covered_extends(net0, before.graph().arcs(), flow.graph().arcs(), 0, t as int);
                lemma_import_extends(
                    net0,
                    before.graph().arcs(),
                    flow.graph().arcs(),
                    before.ids(),
                    flow.ids(),
                    t as int,
                );
                assert(flow.graph().arcs()[n].to == flow.ids()[(0usize, t as usize)]);
                assert(flow.graph().arcs()[n + 1].to == flow.ids()[(1usize, 0usize)]);
                lemma_import_insert(net0, flow.graph().arcs(), flow.ids(), t, edge_id);
                assert(steps_covered(net.relevant_edges@, flow.graph().arcs(), 0, t + 1)) by {
                    assert forall|s: u32| 0 <= s < t + 1 implies #[trigger] net.relevant_edges@.contains_key(
                        s,
                    ) && handle_ok(flow.graph().arcs(), net.relevant_edges@[s] as int) by {
                        if s < t {
                            assert(net0.contains_key(s));
                        }
                    }
                }
                assert(prices@ =~= p@.take(t + 1));
                lemma_sum_take_step(c@, t as int);
                lemma_sum_take_le(c@, t + 1);
            }
            let cons_amount = c[t as usize];
            let ghost middle = flow;
            if cons_amount > 0 {
                let ghost before = flow;
                link(&mut flow, FlowNode::Wire(time), FlowNode::Sink, cons_amount, 0);
                proof {
                    lemma_link_exact(&before, &flow, wire(t as int), sink(), cons_amount, 0);
                    part = part + pair_arcs(flow.ids(), wire(t as int), sink(), cons_amount, 0);
                    let n = before.graph().arcs().len() as int;
                    lemma_linked(
                        &before,
                        &flow,
                        place_of(FlowNode::Wire(time)),
                        place_of(FlowNode::Sink),
                        cons_amount,
                        0,
                    );
                    lemma_cost_sites_push_plain(
                        net.relevant_edges@,
                        before.graph().arcs(),
                        p@,
                        t + 1,
                        flow.graph().arcs()[n],
                        flow.graph().arcs()[n + 1],
                    );
                    assert(flow.graph().arcs() =~= before.graph().arcs().push(
                        flow.graph().arcs()[n],
                    ).push(flow.graph().arcs()[n + 1]));
                    lemma_covered_extends(
                        net.relevant_edges@,
                        before.graph().arcs(),
                        flow.graph().arcs(),
                        0,
                        t + 1,
                    );
                    lemma_import_extends(
                        net.relevant_edges@,
                        before.graph().arcs(),
                        flow.graph().arcs(),
                        before.ids(),
                        flow.ids(),
                        t + 1,
                    );
                }
                demand = demand + cons_amount;
            }
            proof {
                let ids = flow.ids();
                assert(grown(head.ids(), ids));
                lemma_forecast_grown(head.ids(), ids, g@, p@, c@, t as int);
                assert(grown(middle.ids(), ids));
                if gen_amount > 0 {
                    lemma_pair_grown(middle.ids(), ids, generator(), wire(t as int), gen_amount, 0);
                }
                lemma_pair_grown(middle.ids(), ids, network(), wire(t as int), CAP_INF, price);
                assert(part =~= forecast_step(ids, gen_amount, price, cons_amount, t as int));
                assert(flow.graph().arcs() =~= sofar + part);
                assert(forecast_arcs(ids, g@, p@, c@, t + 1) == forecast_arcs(ids, g@, p@, c@, t as int)
                    + forecast_step(ids, g@[t as int], p@[t as int], c@[t as int], t as int));
            }
            t += 1;
        }
        proof {
            assert(p@.take(STEPS_PER_DAY as int) =~= p@);
            assert(c@.take(STEPS_PER_DAY as int) =~= c@);
        }
        let blueprint = SmartHomeBlueprint::new(net);
        Ok(SmartHomeFlowBuilder { flow, blueprint, first_timestep_fraction, demand, prices })
    }

    /// The batteries that were added, in the order in which they were.
    pub open spec fn held_batteries(&self) -> Seq<Battery> {
        Seq::new(
            self.blueprint.battery_blueprints@.len(),
            |k: int| self.blueprint.battery_blueprints@[k].battery,
        )
    }

    /// Whether a battery with id `id` was added.
    pub fn holds_battery(&self, id: u32) -> (r: bool)
        ensures
            r == holds_battery_id(self.held_batteries(), id),
    {
        let mut k: usize = 0;
        while k < self.blueprint.battery_blueprints.len()
            invariant
                k <= self.blueprint.battery_blueprints@.len(),
                forall|j: int| 0 <= j < k ==> (#[trigger] self.held_batteries()[j]).id != id,
            decreases self.blueprint.battery_blueprints@.len() - k,
        {
            if self.blueprint.battery_blueprints[k].battery.get_id() == id {
                assert(self.held_batteries()[k as int].id == id);
                return true;
            }
            k += 1;
        }
        false
    }

    /// Why a battery is refused, if it is.
    pub open spec fn battery_refusal(&self, battery: Battery) -> Option<OptimizeError> {
        battery_refusal_for(self.held_batteries(), battery)
    }

    /// Adds a battery: a pair from the source into the battery at step 0 that
    /// holds the initial level; for each step a pair from the step's wire
    /// into the battery at that step and one back, with the battery's rates,
    /// cut down on the first step to the part of it that is left; and for
    /// each step a pair from the battery at that step to the battery at the
    /// next, with the battery's capacity, whose flow is the level at the
    /// start of the next step.
    pub fn add_battery(self, battery: &Battery) -> (r: Result<Self, OptimizeError>)
        requires
            self.wf(),
        ensures
            match r {
                Ok(b) => {
                    &&& self.battery_refusal(*battery) is None
                    &&& b.wf()
                    &&& b.prices@ == self.prices@
                    &&& b.demand == self.demand
                    &&& b.first_timestep_fraction == self.first_timestep_fraction
                    &&& b.blueprint.variable_action_blueprints@
                        == self.blueprint.variable_action_blueprints@
                    &&& b.blueprint.battery_blueprints@.len()
                        == self.blueprint.battery_blueprints@.len() + 1
                    &&& b.blueprint.battery_blueprints@.drop_last()
                        == self.blueprint.battery_blueprints@
                    &&& b.blueprint.battery_blueprints@.last().battery == *battery
                    &&& b.held_batteries() == self.held_batteries().push(*battery)
                    &&& b.blueprint.battery_blueprints@.last().first_charge == rate_at(
                        self.first_timestep_fraction,
                        battery.maximum_charge_rate,
                        0,
                    )
                    &&& b.blueprint.battery_blueprints@.last().first_output == rate_at(
                        self.first_timestep_fraction,
                        battery.maximum_output_rate,
                        0,
                    )
                    &&& grown(self.flow.ids(), b.flow.ids())
                    &&& cells_upto(b.flow.ids(), battery.id, STEPS_PER_DAY + 1)
                    &&& b.flow.graph().arcs() == self.flow.graph().arcs() + battery_arcs(
                        b.flow.ids(),
                        self.first_timestep_fraction,
                        *battery,
                    )
                },
                Err(e) => self.battery_refusal(*battery) == Some(e),
            },
    {
        let id = battery.get_id();
        if battery.get_capacity() < 0 || battery.get_initial_level() < 0 || battery.get_max_charge()
            < 0 || battery.get_max_output() < 0 {
            return Err(OptimizeError::BatteryNegative(id));
        }
        if battery.get_initial_level() > battery.get_capacity() {
            return Err(OptimizeError::BatteryInitialLevel(id));
        }
        if self.holds_battery(id) {
            return Err(OptimizeError::DuplicateId(id));
        }
        if id as u64 + 4 > usize::MAX as u64 || self.blueprint.battery_blueprints.len()
            >= MAX_BATTERIES {
            return Err(OptimizeError::TooLarge);
        }
        let mut me = self;
        let ghost held = me.blueprint;
        let ghost prices = me.prices@;
        let ghost demand = me.demand as int;
        let mut bp = BatteryBlueprint::new(*battery);
        bp.first_charge = me.first_timestep_fraction.scale(battery.get_max_charge());
        bp.first_output = me.first_timestep_fraction.scale(battery.get_max_output());
        let ghost w0 = me.flow;
        let ghost key = (battery.id + 4) as usize;
        proof {
            assert forall|k: int| 0 <= k < held.battery_blueprints@.len() implies (#[trigger] held.battery_blueprints@[k]).battery.id
                != id by {
                assert(self.held_batteries()[k].id != id);
            }
            assert(held_apart(&held, id));
        }
        let init_edge = link(
            &mut me.flow,
            FlowNode::Source,
            FlowNode::Battery(id as usize, Time::from_timestep(0)),
            battery.get_initial_level(),
            0,
        );
        bp.first_edge = init_edge;
        proof {
            lemma_spares_cells(
                &held,
                w0.graph().arcs(),
                w0.ids(),
                id,
                place_of(FlowNode::Source),
                place_of(FlowNode::Battery(id as usize, Time { minutes: 0 })),
            );
            lemma_link_fresh(
                &w0,
                &me.flow,
                place_of(FlowNode::Source),
                place_of(FlowNode::Battery(id as usize, Time { minutes: 0 })),
                battery.initial_level,
                0,
            );
            assert(sprouted(w0.ids(), w0.graph().order() as int, me.flow.ids(), 0, key));
            lemma_link_base(
                &held,
                &w0,
                &me.flow,
                prices,
                demand,
                place_of(FlowNode::Source),
                place_of(FlowNode::Battery(id as usize, Time { minutes: 0 })),
                battery.initial_level,
            );
            lemma_link_exact(&w0, &me.flow, source(), cell(id, 0), battery.initial_level, 0);
        }
        let ghost w1 = me.flow;
        let ghost fraction = me.first_timestep_fraction;
        lay_rates(
            &mut me.flow,
            &mut bp,
            &me.blueprint,
            Ghost(prices),
            Ghost(demand),
            Ghost(fraction),
        );
        let ghost w2 = me.flow;
        let ghost bp2 = bp;
        lay_levels(&mut me.flow, &mut bp, &me.blueprint, Ghost(prices), Ghost(demand));
        proof {
            let ids = me.flow.ids();
            let first = pair_arcs(ids, source(), cell(id, 0), battery.initial_level, 0);
            let rates = rate_arcs(ids, fraction, *battery, STEPS_PER_DAY as int);
            let levels = level_arcs(ids, *battery, STEPS_PER_DAY as int);
            lemma_grown_trans(w1.ids(), w2.ids(), ids);
            lemma_grown_trans(w0.ids(), w1.ids(), ids);
            lemma_pair_grown(w1.ids(), ids, source(), cell(id, 0), battery.initial_level, 0);
            lemma_wires(w2.ids(), STEPS_PER_DAY as int);
            lemma_rates_grown(w2.ids(), ids, fraction, *battery, STEPS_PER_DAY as int);
            assert(me.flow.graph().arcs() =~= w0.graph().arcs() + (first + rates + levels));
            let a2 = w2.graph().arcs();
            let a3 = me.flow.graph().arcs();
            lemma_capped_extends(
                bp.charge_edges@,
                a2,
                a3,
                0,
                STEPS_PER_DAY as int,
                bp.first_charge as int,
                bp.battery.maximum_charge_rate as int,
            );
            lemma_capped_extends(
                bp.discharge_edges@,
                a2,
                a3,
                0,
                STEPS_PER_DAY as int,
                bp.first_output as int,
                bp.battery.maximum_output_rate as int,
            );
            assert(bp.fits(a3));
            let key = (battery.id + 4) as usize;
            lemma_capped_covered(
                bp.charge_edges@,
                a2,
                0,
                STEPS_PER_DAY as int,
                bp.first_charge as int,
                bp.battery.maximum_charge_rate as int,
            );
            lemma_capped_covered(
                bp.discharge_edges@,
                a2,
                0,
                STEPS_PER_DAY as int,
                bp.first_output as int,
                bp.battery.maximum_output_rate as int,
            );
            assert forall|s: u32| 0 <= s < STEPS_PER_DAY implies #[trigger] w2.ids().contains_key(
                (key, s as usize),
            ) && w2.ids().contains_key((0usize, (s - 0) as usize)) by {
                assert(known(w2.ids(), cell(battery.id, s as int)));
                assert(w2.ids().contains_key((0usize, s as usize)));
            }
            assert forall|s: u32| 0 <= s < STEPS_PER_DAY implies #[trigger] w2.ids().contains_key(
                (0usize, s as usize),
            ) && w2.ids().contains_key((key, (s - 0) as usize)) by {
                assert(known(w2.ids(), cell(battery.id, s as int)));
                assert(w2.ids().contains_key((0usize, s as usize)));
            }
            lemma_run_extends(bp.charge_edges@, a2, a3, w2.ids(), ids, 0, STEPS_PER_DAY as int, 0, 0, key);
            lemma_run_extends(
                bp.discharge_edges@,
                a2,
                a3,
                w2.ids(),
                ids,
                0,
                STEPS_PER_DAY as int,
                key,
                0,
                0,
            );
            assert forall|s: u32| s <= STEPS_PER_DAY implies #[trigger] ids.contains_key((key, s as usize)) by {
                assert(known(ids, cell(battery.id, s as int)));
            }
            lemma_sprouted_trans(
                w0.ids(),
                w0.graph().order() as int,
                w1.ids(),
                w1.graph().order() as int,
                w2.ids(),
                0,
                key,
            );
            lemma_sprouted_trans(
                w0.ids(),
                w0.graph().order() as int,
                w2.ids(),
                w2.graph().order() as int,
                ids,
                0,
                key,
            );
            w0.graph().lemma_wf();
            let a0 = w0.graph().arcs();
            let a1 = w1.graph().arcs();
            let f = init_edge as int;
            lemma_extends_trans(a1, a2, a3);
            assert(a1[f].to == w1.ids()[(key, 0usize)]);
            assert(a1[f + 1].to == 0);
            assert(w1.ids().contains_key((key, 0usize)));
            assert(a3[f].to == a1[f].to && a3[f + 1].to == a1[f + 1].to);
            assert(bp.placed());
            assert forall|i: int, t: u32|
                0 <= i < a3.len() && t <= STEPS_PER_DAY && (#[trigger] a3[i]).to == #[trigger] ids[(
                    key,
                    t as usize,
                )] implies f <= i < f + 2 + 6 * STEPS_PER_DAY by {
                if i < f {
                    lemma_extends_trans(a0, a1, a3);
                    assert(a3[i].to == a0[i].to);
                    assert(0 <= a0[i].to < w0.graph().order());
                    assert(ids.contains_key((key, t as usize)));
                    if w0.ids().contains_key((key, t as usize)) {
                        let k = choose|k: int|
                            0 <= k < held.battery_blueprints@.len() && (#[trigger] held.battery_blueprints@[k]).battery.id
                                + 4 == key;
                        assert(held.battery_blueprints@[k].battery.id != id);
                    }
                }
            }
            assert(bp.wired(a3, ids));
        }
        let ghost before = me.blueprint;
        me.blueprint.add_battery_blueprint(bp);
        proof {
            let a = me.flow.graph().arcs();
            let list = me.blueprint.battery_blueprints@;
            assert(list.drop_last() =~= before.battery_blueprints@);
            assert(me.held_batteries() =~= self.held_batteries().push(*battery));
            assert forall|k: int| 0 <= k < list.len() implies (#[trigger] list[k]).wired(a, me.flow.ids()) by {
                if k < before.battery_blueprints@.len() {
                    assert(list[k] == before.battery_blueprints@[k]);
                }
            }
            assert forall|x: (usize, usize)| #[trigger] me.flow.ids().contains_key(x) && x.0 >= 4 implies exists|
                k: int,
            |
                0 <= k < list.len() && (#[trigger] list[k]).battery.id + 4 == x.0 by {
                if w0.ids().contains_key(x) {
                    let k = choose|k: int|
                        0 <= k < before.battery_blueprints@.len() && (#[trigger] before.battery_blueprints@[k]).battery.id
                            + 4 == x.0;
                    assert(list[k] == before.battery_blueprints@[k]);
                } else {
                    assert(x.0 == key);
                    assert(list[list.len() - 1].battery.id + 4 == x.0);
                }
            }
            assert forall|k: int| 0 <= k < list.len() implies (#[trigger] list[k]).fits(a) by {
                if k < before.battery_blueprints@.len() {
                    assert(list[k] == before.battery_blueprints@[k]);
                }
            }
            assert forall|j: int, k: int| 0 <= j < k < list.len() implies (#[trigger] list[j]).battery.id
                != (#[trigger] list[k]).battery.id by {
                assert(list[j] == before.battery_blueprints@[j]);
                if k < before.battery_blueprints@.len() {
                    assert(list[k] == before.battery_blueprints@[k]);
                } else {
                    assert(self.held_batteries()[j].id != id);
                }
            }
        }
        Ok(me)
    }

    /// Adds the batteries one after the other and stops at the first that is
    /// refused.
    #[verifier::rlimit(40)]
    pub fn add_batteries(self, batteries: &Vec<Battery>) -> (r: Result<Self, OptimizeError>)
        requires
            self.wf(),
        ensures
            match r {
                Ok(b) => {
                    &&& batteries_refusal(self.held_batteries(), batteries@) is None
                    &&& b.wf()
                    &&& b.prices@ == self.prices@
                    &&& b.demand == self.demand
                    &&& b.first_timestep_fraction == self.first_timestep_fraction
                    &&& b.blueprint.variable_action_blueprints@
                        == self.blueprint.variable_action_blueprints@
                    &&& b.held_batteries() == self.held_batteries() + batteries@
                    &&& grown(self.flow.ids(), b.flow.ids())
                    &&& forall|i: int|
                        0 <= i < batteries@.len() ==> cells_upto(
                            b.flow.ids(),
                            (#[trigger] batteries@[i]).id,
                            STEPS_PER_DAY + 1,
                        )
                    &&& b.flow.graph().arcs() == self.flow.graph().arcs() + batteries_arcs(
                        b.flow.ids(),
                        self.first_timestep_fraction,
                        batteries@,
                        batteries@.len() as int,
                    )
                },
                Err(e) => batteries_refusal(self.held_batteries(), batteries@) == Some(e),
            },
    {
        let ghost start = self;
        let mut me = self;
        let mut i: usize = 0;
        let ghost fraction = self.first_timestep_fraction;
        proof {
            assert(batteries@.skip(0) =~= batteries@);
            assert(me.held_batteries() =~= start.held_batteries() + batteries@.take(0));
            assert(start.flow.graph().arcs() + batteries_arcs(me.flow.ids(), fraction, batteries@, 0)
                =~= start.flow.graph().arcs());
        }
        while i < batteries.len()
            invariant
                i <= batteries@.len(),
                start == self,
                me.wf(),
                me.prices@ == start.prices@,
                me.demand == start.demand,
                me.first_timestep_fraction == start.first_timestep_fraction,
                me.blueprint.variable_action_blueprints@
                    == start.blueprint.variable_action_blueprints@,
                me.held_batteries() == start.held_batteries() + batteries@.take(i as int),
                fraction == start.first_timestep_fraction,
                grown(start.flow.ids(), me.flow.ids()),
                forall|j: int|
                    0 <= j < i ==> cells_upto(me.flow.ids(), (#[trigger] batteries@[j]).id, STEPS_PER_DAY + 1),
                me.flow.graph().arcs() == start.flow.graph().arcs() + batteries_arcs(
                    me.flow.ids(),
                    fraction,
                    batteries@,
                    i as int,
                ),
                batteries_refusal(start.held_batteries(), batteries@) == batteries_refusal(
                    me.held_batteries(),
                    batteries@.skip(i as int),
                ),
            decreases batteries@.len() - i,
        {
            let ghost before = me;
            let ghost rest = batteries@.skip(i as int);
            proof {
                assert(rest.first() == batteries@[i as int]);
                assert(rest.drop_first() =~= batteries@.skip(i + 1));
            }
            match me.add_battery(&batteries[i]) {
                Ok(b) => {
                    me = b;
                },
                Err(e) => {
                    assert(rest.len() > 0);
                    assert(batteries_refusal(before.held_batteries(), rest) == Some(e));
                    return Err(e);
                },
            }
            proof {
                assert(me.held_batteries() =~= start.held_batteries() + batteries@.take(i + 1));
                lemma_grown_trans(start.flow.ids(), before.flow.ids(), me.flow.ids());
                lemma_wires(before.flow.ids(), STEPS_PER_DAY as int);
                lemma_batteries_step(
                    start.flow.graph().arcs(),
                    before.flow.ids(),
                    me.flow.ids(),
                    fraction,
                    batteries@,
                    i as int,
                    before.flow.graph().arcs(),
                    me.flow.graph().arcs(),
                );
            }
            i += 1;
        }
        proof {
            assert(batteries@.take(batteries@.len() as int) =~= batteries@);
        }
        Ok(me)
    }

    /// The variable loads that were added, in the order in which they were.
    pub open spec fn held_variables(&self) -> Seq<VariableAction> {
        Seq::new(
            self.blueprint.variable_action_blueprints@.len(),
            |k: int| self.blueprint.variable_action_blueprints@[k].variable_action,
        )
    }

    /// Whether a variable load with id `id` was added.
    pub fn holds_variable(&self, id: u32) -> (r: bool)
        ensures
            r == holds_variable_id(self.held_variables(), id),
    {
        let mut k: usize = 0;
        while k < self.blueprint.variable_action_blueprints.len()
            invariant
                k <= self.blueprint.variable_action_blueprints@.len(),
                forall|j: int| 0 <= j < k ==> (#[trigger] self.held_variables()[j]).id != id,
            decreases self.blueprint.variable_action_blueprints@.len() - k,
        {
            if self.blueprint.variable_action_blueprints[k].variable_action.get_id() == id {
                assert(self.held_variables()[k as int].id == id);
                return true;
            }
            k += 1;
        }
        false
    }

    /// Why a variable load is refused, if it is.
    pub open spec fn variable_refusal(&self, action: VariableAction) -> Option<OptimizeError> {
        variable_refusal_for(self.held_variables(), self.demand as int, action)
    }

    /// Adds a variable load: for each step of its window a pair from the
    /// step's wire into the load's accumulator, with the load's cap per
    /// step, cut down on the first step of the day to the part of it that is
    /// left; and a pair from the accumulator to the sink with the load's
    /// total, which a flow that meets the demand fills.
    pub fn add_action(self, action: &VariableAction) -> (r: Result<Self, OptimizeError>)
        requires
            self.wf(),
        ensures
            match r {
                Ok(b) => {
                    &&& self.variable_refusal(*action) is None
                    &&& b.wf()
                    &&& b.prices@ == self.prices@
                    &&& b.demand == self.demand + action.total_consumption
                    &&& b.first_timestep_fraction == self.first_timestep_fraction
                    &&& b.blueprint.battery_blueprints@ == self.blueprint.battery_blueprints@
                    &&& b.blueprint.variable_action_blueprints@.len()
                        == self.blueprint.variable_action_blueprints@.len() + 1
                    &&& b.blueprint.variable_action_blueprints@.drop_last()
                        == self.blueprint.variable_action_blueprints@
                    &&& b.blueprint.variable_action_blueprints@.last().variable_action == *action
                    &&& b.held_variables() == self.held_variables().push(*action)
                    &&& b.blueprint.variable_action_blueprints@.last().first_cap == rate_at(
                        self.first_timestep_fraction,
                        action.max_consumption,
                        0,
                    )
                    &&& grown(self.flow.ids(), b.flow.ids())
                    &&& known(b.flow.ids(), accumulator(action.id))
                    &&& b.flow.graph().arcs() == self.flow.graph().arcs() + variable_arcs(
                        b.flow.ids(),
                        self.first_timestep_fraction,
                        *action,
                    )
                },
                Err(e) => self.variable_refusal(*action) == Some(e),
            },
    {
        let id = action.get_id();
        if action.get_total_consumption() < 0 || action.get_max_consumption() < 0 {
            return Err(OptimizeError::VariableNegative(id));
        }
        if action.get_start().get_minutes() >= action.get_end().get_minutes()
            || action.get_end().get_minutes() > STEPS_PER_DAY {
            return Err(OptimizeError::VariableWindow(id));
        }
        if self.holds_variable(id) {
            return Err(OptimizeError::DuplicateId(id));
        }
        if action.get_total_consumption() > i64::MAX - self.demand
            || self.blueprint.variable_action_blueprints.len() >= MAX_VARIABLE_ACTIONS {
            return Err(OptimizeError::TooLarge);
        }
        let mut me = self;
        let ghost held = me.blueprint;
        let ghost prices = me.prices@;
        let ghost demand = me.demand as int;
        let ghost w0 = me.flow;
        let ghost key = (3usize, id as usize);
        proof {
            w0.graph().lemma_wf();
            if w0.ids().contains_key(key) {
                let k = choose|k: int|
                    0 <= k < held.variable_action_blueprints@.len()
                        && (#[trigger] held.variable_action_blueprints@[k]).variable_action.id
                        == id as usize;
                assert(self.held_variables()[k].id == id);
            }
            assert forall|k: int| 0 <= k < held.variable_action_blueprints@.len()
                implies (#[trigger] held.variable_action_blueprints@[k]).variable_action.id
                != id by {
                assert(self.held_variables()[k].id != id);
            }
        }
        let node = me.flow.node((3, id as usize));
        let first = me.flow.inner().arc_count();
        proof {
            let a = w0.graph().arcs();
            assert(me.flow.ids() == w0.ids().insert(key, node));
            assert forall|k: int| 0 <= k < held.variable_action_blueprints@.len()
                implies (#[trigger] held.variable_action_blueprints@[k]).fits(a, me.flow.ids()) by {
                let v = held.variable_action_blueprints@[k];
                lemma_extends_refl(a);
                lemma_variable_extends(v, a, w0.ids(), a, me.flow.ids());
            }
            lemma_extends_refl(a);
            lemma_import_extends(
                held.network_consumption_blueprint.relevant_edges@,
                a,
                a,
                w0.ids(),
                me.flow.ids(),
                STEPS_PER_DAY as int,
            );
            assert forall|k: int| 0 <= k < held.battery_blueprints@.len() implies (#[trigger] held.battery_blueprints@[k]).wired(
                a,
                me.flow.ids(),
            ) by {
                lemma_battery_wired_extends(held.battery_blueprints@[k], a, a, w0.ids(), me.flow.ids());
            }
            assert(base_ok(&me.flow, &held, prices, demand));
        }
        let mut bp = VariableActionBlueprint::new(*action);
        bp.first_cap = me.first_timestep_fraction.scale(action.get_max_consumption());
        bp.first_edge = first;
        bp.node = node;
        let ghost w1 = me.flow;
        let ghost fraction = me.first_timestep_fraction;
        lay_window(
            &mut me.flow,
            &mut bp,
            &me.blueprint,
            Ghost(prices),
            Ghost(demand),
            Ghost(fraction),
        );
        let ghost w2 = me.flow;
        let ghost laid = bp;
        let sink_edge = link(
            &mut me.flow,
            FlowNode::Action(id as usize),
            FlowNode::Sink,
            action.get_total_consumption(),
            0,
        );
        bp.sink_edge = sink_edge;
        me.demand = me.demand + action.get_total_consumption();
        proof {
            let a2 = w2.graph().arcs();
            let a3 = me.flow.graph().arcs();
            let pu = place_of(FlowNode::Action(id as usize));
            let pv = place_of(FlowNode::Sink);
            lemma_link_base(&held, &w2, &me.flow, prices, demand, pu, pv, action.total_consumption);
            lemma_linked(&w2, &me.flow, pu, pv, action.total_consumption, 0);
            lemma_link_exact(&w2, &me.flow, accumulator(id), sink(), action.total_consumption, 0);
            let ids = me.flow.ids();
            lemma_grown_trans(w1.ids(), w2.ids(), ids);
            assert(grown(w0.ids(), w1.ids()));
            lemma_grown_trans(w0.ids(), w1.ids(), ids);
            lemma_wires(w2.ids(), action.end.minutes as int);
            lemma_window_grown(w2.ids(), ids, fraction, *action, action.end.minutes - action.start.minutes);
            assert(me.flow.graph().arcs() =~= w0.graph().arcs() + variable_arcs(ids, fraction, *action));
            assert(a3[sink_edge as int].to == 1);
            assert(a3[sink_edge + 1].to == node);
            lemma_window_fits(&laid, &bp, a2, a3, ids);
        }
        let ghost before = me.blueprint;
        me.blueprint.add_variable_action_blueprint(bp);
        proof {
            let a = me.flow.graph().arcs();
            let ids = me.flow.ids();
            let list = me.blueprint.variable_action_blueprints@;
            let old_list = before.variable_action_blueprints@;
            assert(list.drop_last() =~= old_list);
            assert(me.held_variables() =~= self.held_variables().push(*action));
            assert forall|k: int| 0 <= k < list.len() implies (#[trigger] list[k]).fits(a, ids) by {
                if k < old_list.len() {
                    assert(list[k] == old_list[k]);
                }
            }
            assert forall|j: int, k: int| 0 <= j < k < list.len() implies (#[trigger] list[j]).variable_action.id
                != (#[trigger] list[k]).variable_action.id by {
                assert(list[j] == old_list[j]);
                if k < old_list.len() {
                    assert(list[k] == old_list[k]);
                }
            }
            assert forall|x: usize| #[trigger] ids.contains_key((3usize, x)) implies exists|k: int|
                0 <= k < list.len() && (#[trigger] list[k]).variable_action.id == x by {
                if x == id as usize {
                    assert(list[list.len() - 1].variable_action.id == x);
                } else {
                    assert(w2.ids().contains_key((3usize, x)));
                    assert(w1.ids().contains_key((3usize, x)));
                    assert(w0.ids().contains_key((3usize, x)));
                    let k = choose|k: int|
                        0 <= k < old_list.len() && (#[trigger] old_list[k]).variable_action.id == x;
                    assert(list[k] == old_list[k]);
                }
            }
        }
        Ok(me)
    }

    /// Adds the variable loads one after the other and stops at the first
    /// that is refused.
    #[verifier::rlimit(40)]
    pub fn add_actions(self, variable_actions: &Vec<VariableAction>) -> (r: Result<
        Self,
        OptimizeError,
    >)
        requires
            self.wf(),
        ensures
            match r {
                Ok(b) => {
                    &&& variables_refusal(
                        self.held_variables(),
                        self.demand as int,
                        variable_actions@,
                    ) is None
                    &&& b.wf()
                    &&& b.prices@ == self.prices@
                    &&& b.demand == self.demand + variables_total(variable_actions@)
                    &&& b.first_timestep_fraction == self.first_timestep_fraction
                    &&& b.blueprint.battery_blueprints@ == self.blueprint.battery_blueprints@
                    &&& b.held_variables() == self.held_variables() + variable_actions@
                    &&& grown(self.flow.ids(), b.flow.ids())
                    &&& b.flow.graph().arcs() == self.flow.graph().arcs() + variables_arcs(
                        b.flow.ids(),
                        self.first_timestep_fraction,
                        variable_actions@,
                        variable_actions@.len() as int,
                    )
                },
                Err(e) => variables_refusal(
                    self.held_variables(),
                    self.demand as int,
                    variable_actions@,
                ) == Some(e),
            },
    {
        let ghost start = self;
        let mut me = self;
        let mut i: usize = 0;
        let ghost fraction = self.first_timestep_fraction;
        proof {
            assert(variable_actions@.skip(0) =~= variable_actions@);
            assert(me.held_variables() =~= start.held_variables() + variable_actions@.take(0));
            assert(start.flow.graph().arcs() + variables_arcs(
                me.flow.ids(),
                fraction,
                variable_actions@,
                0,
            ) =~= start.flow.graph().arcs());
        }
        while i < variable_actions.len()
            invariant
                i <= variable_actions@.len(),
                start == self,
                me.wf(),
                me.prices@ == start.prices@,
                me.first_timestep_fraction == start.first_timestep_fraction,
                me.blueprint.battery_blueprints@ == start.blueprint.battery_blueprints@,
                me.held_variables() == start.held_variables() + variable_actions@.take(i as int),
                fraction == start.first_timestep_fraction,
                grown(start.flow.ids(), me.flow.ids()),
                forall|j: int|
                    0 <= j < i ==> known(me.flow.ids(), accumulator((#[trigger] variable_actions@[j]).id))
                        && variable_actions@[j].end.minutes <= STEPS_PER_DAY,
                me.flow.graph().arcs() == start.flow.graph().arcs() + variables_arcs(
                    me.flow.ids(),
                    fraction,
                    variable_actions@,
                    i as int,
                ),
                me.demand + variables_total(variable_actions@.skip(i as int)) == start.demand
                    + variables_total(variable_actions@),
                variables_refusal(
                    start.held_variables(),
                    start.demand as int,
                    variable_actions@,
                ) == variables_refusal(
                    me.held_variables(),
                    me.demand as int,
                    variable_actions@.skip(i as int),
                ),
            decreases variable_actions@.len() - i,
        {
            let ghost before = me;
            let ghost rest = variable_actions@.skip(i as int);
            proof {
                assert(rest.first() == variable_actions@[i as int]);
                assert(rest.drop_first() =~= variable_actions@.skip(i + 1));
            }
            match me.add_action(&variable_actions[i]) {
                Ok(b) => {
                    me = b;
                },
                Err(e) => {
                    assert(rest.len() > 0);
                    assert(variables_refusal(before.held_variables(), before.demand as int, rest)
                        == Some(e));
                    return Err(e);
                },
            }
            proof {
                assert(me.held_variables() =~= start.held_variables() + variable_actions@.take(i + 1));
                lemma_grown_trans(start.flow.ids(), before.flow.ids(), me.flow.ids());
                lemma_wires(before.flow.ids(), STEPS_PER_DAY as int);
                lemma_variables_step(
                    start.flow.graph().arcs(),
                    before.flow.ids(),
                    me.flow.ids(),
                    fraction,
                    variable_actions@,
                    i as int,
                    before.flow.graph().arcs(),
                    me.flow.graph().arcs(),
                );
            }
            i += 1;
        }
        proof {
            assert(variable_actions@.take(variable_actions@.len() as int) =~= variable_actions@);
            assert(variable_actions@.skip(variable_actions@.len() as int) =~= Seq::<
                VariableAction,
            >::empty());
        }
        Ok(me)
    }

    /// The finished network, ready to take constant loads and to be solved.
    pub fn build(self) -> (f: SmartHomeFlow)
        requires
            self.wf(),
        ensures
            f.wf(),
            f.blueprint == self.blueprint,
            f.prices@ == self.prices@,
            f.demand == self.demand,
            f.constant_actions@.len() == 0,
            f.calc_result is None,
            f.base() == self.flow,
    {
        SmartHomeFlow::new(self.flow, self.blueprint, self.demand, self.prices)
    }
}

/// Whether one of the batteries has the id `id`.
pub open spec fn holds_battery_id(held: Seq<Battery>, id: u32) -> bool {
    exists|k: int| 0 <= k < held.len() && (#[trigger] held[k]).id == id
}

/// Why the battery `battery` is refused behind the batteries `held`, if
/// it is: checked in this order, a negative capacity, level or rate; an
/// initial level above the capacity; an id that one of `held` has; an id
/// that leaves no room for the battery's keys in the machine's word, or
/// more batteries than a network takes.
pub open spec fn battery_refusal_for(held: Seq<Battery>, battery: Battery) -> Option<OptimizeError> {
    if battery.capacity < 0 || battery.initial_level < 0 || battery.maximum_charge_rate < 0
        || battery.maximum_output_rate < 0 {
        Some(OptimizeError::BatteryNegative(battery.id))
    } else if battery.initial_level > battery.capacity {
        Some(OptimizeError::BatteryInitialLevel(battery.id))
    } else if holds_battery_id(held, battery.id) {
        Some(OptimizeError::DuplicateId(battery.id))
    } else if battery.id + 4 > usize::MAX || held.len() >= MAX_BATTERIES {
        Some(OptimizeError::TooLarge)
    } else {
        None
    }
}

/// Why the batteries `batteries`, added in turn behind `held`, are
/// refused, if they are: the refusal of the first that is refused.
pub open spec fn batteries_refusal(held: Seq<Battery>, batteries: Seq<Battery>) -> Option<
    OptimizeError,
>
    decreases batteries.len(),
{
    if batteries.len() == 0 {
        None
    } else {
        match battery_refusal_for(held, batteries.first()) {
            Some(e) => Some(e),
            None => batteries_refusal(held.push(batteries.first()), batteries.drop_first()),
        }
    }
}

/// Whether one of the variable loads has the id `id`.
pub open spec fn holds_variable_id(held: Seq<VariableAction>, id: u32) -> bool {
    exists|k: int| 0 <= k < held.len() && (#[trigger] held[k]).id == id
}

/// Why the variable load `action` is refused behind the loads `held`, on
/// top of a demand of `demand`, if it is: checked in this order, a negative
/// total or cap; a window that is empty or ends after the day; an id that
/// one of `held` has; a demand that no longer fits 64 bits, or more variable
/// loads than a network takes.
pub open spec fn variable_refusal_for(
    held: Seq<VariableAction>,
    demand: int,
    action: VariableAction,
) -> Option<OptimizeError> {
    if action.total_consumption < 0 || action.max_consumption < 0 {
        Some(OptimizeError::VariableNegative(action.id))
    } else if action.start.minutes >= action.end.minutes || action.end.minutes > STEPS_PER_DAY {
        Some(OptimizeError::VariableWindow(action.id))
    } else if holds_variable_id(held, action.id) {
        Some(OptimizeError::DuplicateId(action.id))
    } else if demand + action.total_consumption > i64::MAX || held.len() >= MAX_VARIABLE_ACTIONS {
        Some(OptimizeError::TooLarge)
    } else {
        None
    }
}

/// Why the variable loads `actions`, added in turn behind `held`, are
/// refused, if they are: the refusal of the first that is refused.
pub open spec fn variables_refusal(
    held: Seq<VariableAction>,
    demand: int,
    actions: Seq<VariableAction>,
) -> Option<OptimizeError>
    decreases actions.len(),
{
    if actions.len() == 0 {
        None
    } else {
        match variable_refusal_for(held, demand, actions.first()) {
            Some(e) => Some(e),
            None => variables_refusal(
                held.push(actions.first()),
                demand + actions.first().total_consumption,
                actions.drop_first(),
            ),
        }
    }
}

/// What the variable loads demand together.
pub open spec fn variables_total(actions: Seq<VariableAction>) -> int
    decreases actions.len(),
{
    if actions.len() == 0 {
        0
    } else {
        actions.first().total_consumption + variables_total(actions.drop_first())
    }
}

} // verus!
