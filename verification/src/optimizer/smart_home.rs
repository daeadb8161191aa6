use crate::error::OptimizeError;
use crate::helper::stack_proxy::StackProxy;
use crate::optimizer::blueprint::{seq_sum, Blueprint, SmartHomeBlueprint};
use crate::optimizer::builder::{
    base_ok, lemma_link_keeps, lemma_linked, link, linked, sized, wires_known, MAX_BATTERIES,
    MAX_VARIABLE_ACTIONS,
};
use crate::optimizer::flow::maxflow::lemma_saturated_is_maximum;
use crate::optimizer::flow::mcmf::{
    arcs_wf, conserving, excess, lemma_same_network_sym, lemma_same_network_trans, pair_capacity,
    pair_flow, same_network, saturated, total_cost, Edge, INF,
};
use crate::optimizer::flow::mincost::{lemma_pristine_priced, lemma_priced_is_cheapest, priced};
use crate::optimizer::flow::search::lemma_pristine_calm;
use crate::optimizer::flow::sums::{
    extends, lemma_cost_uniform, lemma_extends_refl, lemma_extends_trans, lemma_pristine_sums,
    lemma_same_network_extends, lemma_sink_bound, lemma_sink_capacity_frame,
    lemma_sink_capacity_same, lemma_sink_stretch_full, pristine, sink_absorbs, sink_capacity,
};
use crate::optimizer::flow::wrapper::{place_of, FlowNode, FlowWrapper, NodeIds};
use crate::optimizer::layout::{
    cost_sites, import_cost_upto, is_site, lemma_battery_balance, lemma_battery_extends,
    lemma_battery_wired_extends, lemma_cost_is_import, lemma_cost_sites_extends,
    lemma_covered_extends, lemma_import_extends, lemma_sink_absorbs_same, lemma_variable_extends,
    table_ok,
};
use crate::optimizer::loads::{
    drop_load, holds, lemma_drop_load, lemma_put_load, lemma_rank, load_ok, loads_ok, put_load, rank,
};
use crate::optimizer_context::action::constant::AssignedConstantAction;
use crate::schedule::Schedule;
use crate::time::{Time, STEPS_PER_DAY};
use vstd::prelude::*;

verus! {

/// Energy that the constant loads take over the day: for each load its
/// consumption per step times the number of steps it runs.
pub open spec fn constant_energy(loads: Seq<AssignedConstantAction>) -> int
    decreases loads.len(),
{
    if loads.len() == 0 {
        0
    } else {
        constant_energy(loads.drop_last()) + loads.last().action.consumption
            * loads.last().action.duration.minutes
    }
}

/// The most constant loads that a network takes.
pub const MAX_CONSTANT_ACTIONS: usize = 100_000;

/// The loads are more than a network takes, or their energy no longer fits
/// beside the demand `demand` in 64 bits.
pub open spec fn too_large(loads: Seq<AssignedConstantAction>, demand: int) -> bool {
    loads.len() > MAX_CONSTANT_ACTIONS || demand + constant_energy(loads) > i64::MAX
}

/// The energy of the first loads is at most the energy of all.
pub proof fn lemma_energy_grows(loads: Seq<AssignedConstantAction>, i: int)
    requires
        0 <= i <= loads.len(),
        forall|j: int| 0 <= j < loads.len() ==> load_ok(#[trigger] loads[j]),
    ensures
        0 <= constant_energy(loads.take(i)) <= constant_energy(loads),
    decreases loads.len() - i,
{
    if i == loads.len() {
        assert(loads.take(i) =~= loads);
        lemma_energy_nonnegative(loads);
    } else {
        lemma_energy_grows(loads, i + 1);
        assert(loads.take(i + 1).drop_last() =~= loads.take(i));
        assert(loads.take(i + 1).last() == loads[i]);
        assert(load_ok(loads[i]));
        assert(loads[i].action.consumption * loads[i].action.duration.minutes >= 0)
            by (nonlinear_arith)
            requires
                loads[i].action.consumption >= 0,
                loads[i].action.duration.minutes >= 0,
        ;
        assert forall|j: int| 0 <= j < loads.take(i).len() implies load_ok(
            #[trigger] loads.take(i)[j],
        ) by {
            assert(loads.take(i)[j] == loads[j]);
        }
        lemma_energy_nonnegative(loads.take(i));
    }
}

/// Loads that give no energy back take no negative energy.
pub proof fn lemma_energy_nonnegative(loads: Seq<AssignedConstantAction>)
    requires
        forall|j: int| 0 <= j < loads.len() ==> load_ok(#[trigger] loads[j]),
    ensures
        constant_energy(loads) >= 0,
    decreases loads.len(),
{
    if loads.len() > 0 {
        let rest = loads.drop_last();
        assert forall|j: int| 0 <= j < rest.len() implies load_ok(#[trigger] rest[j]) by {
            assert(rest[j] == loads[j]);
        }
        lemma_energy_nonnegative(rest);
        assert(load_ok(loads[loads.len() - 1]));
        assert(loads.last().action.consumption * loads.last().action.duration.minutes >= 0)
            by (nonlinear_arith)
            requires
                loads.last().action.consumption >= 0,
                loads.last().action.duration.minutes >= 0,
        ;
    }
}

/// The pair that one step of a constant load adds: from the wire of step
/// `t` to the sink, with the capacity `c`, at a unit cost of one.
pub open spec fn step_arcs(ids: NodeIds, t: int, c: i64) -> Seq<Edge> {
    seq![
        Edge { to: 1, f: c, cost: 1 },
        Edge { to: ids[(0usize, t as usize)], f: 0, cost: (-1) as i64 },
    ]
}

/// The pairs that the first `steps` steps of a constant load add.
pub open spec fn load_arcs(ids: NodeIds, load: AssignedConstantAction, steps: int) -> Seq<Edge>
    decreases steps,
{
    if steps <= 0 {
        Seq::empty()
    } else {
        load_arcs(ids, load, steps - 1) + step_arcs(
            ids,
            load.start_time.minutes + steps - 1,
            load.action.consumption,
        )
    }
}

/// The pairs that the first `count` constant loads add, load by load and
/// step by step.
pub open spec fn laid_arcs(ids: NodeIds, loads: Seq<AssignedConstantAction>, count: int) -> Seq<Edge>
    decreases count,
{
    if count <= 0 {
        Seq::empty()
    } else {
        laid_arcs(ids, loads, count - 1) + load_arcs(
            ids,
            loads[count - 1],
            loads[count - 1].action.duration.minutes as int,
        )
    }
}

/// The pairs from `lo` on all lead into the sink at a unit cost of one.
pub open spec fn overlay_ok(a: Seq<Edge>, lo: int) -> bool {
    &&& forall|k: int| lo <= 2 * k < a.len() ==> (#[trigger] a[2 * k]).to == 1
    &&& forall|k: int| lo <= 2 * k < a.len() ==> (#[trigger] a[2 * k]).cost == 1
}

/// What holds of the working copy `top` of the network `base` after the
/// constant loads were laid into it: it is a later state of `base`, every
/// blueprint still fits, and the pairs behind those of `base` belong to the loads.
pub open spec fn laid_on(
    base: &FlowWrapper,
    top: &FlowWrapper,
    bp: &SmartHomeBlueprint,
    prices: Seq<i64>,
) -> bool {
    let a = top.graph().arcs();
    let len = base.graph().arcs().len() as int;
    &&& top.wf()
    &&& top.ids() == base.ids()
    &&& top.graph().order() == base.graph().order()
    &&& wires_known(top.ids())
    &&& forall|t: int| 0 <= t < STEPS_PER_DAY ==> #[trigger] prices[t] >= 0
    &&& extends(base.graph().arcs(), a)
    &&& sink_absorbs(a)
    &&& cost_sites(bp.network_consumption_blueprint.relevant_edges@, a, prices, STEPS_PER_DAY as int, len)
    &&& bp.fits(a, top.ids())
    &&& overlay_ok(a, len)
}

/// Appending one step of a constant load, a pair from the step's wire to
/// the sink at a unit cost of one, keeps the working copy in order and
/// raises the demand by the load's consumption.
pub proof fn lemma_link_overlay(
    base: &FlowWrapper,
    w0: &FlowWrapper,
    w1: &FlowWrapper,
    bp: &SmartHomeBlueprint,
    prices: Seq<i64>,
    t: Time,
    cap: i64,
)
    requires
        laid_on(base, w0, bp, prices),
        pristine(w0.graph().arcs()),
        w0.graph().arcs().len() + 2 < usize::MAX,
        w0.graph().order() + 2 <= usize::MAX,
        w1.wf(),
        t.minutes < STEPS_PER_DAY,
        linked(w0, w1, place_of(FlowNode::Wire(t)), place_of(FlowNode::Sink), cap, 1),
    ensures
        laid_on(base, w1, bp, prices),
        pristine(w1.graph().arcs()),
        sink_capacity(w1.graph().arcs()) == sink_capacity(w0.graph().arcs()) + cap,
        w1.graph().arcs().len() == w0.graph().arcs().len() + 2,
        w1.graph().arcs() == w0.graph().arcs() + step_arcs(w0.ids(), t.minutes as int, cap),
{
    let pu = place_of(FlowNode::Wire(t));
    let pv = place_of(FlowNode::Sink);
    let a0 = w0.graph().arcs();
    let a1 = w1.graph().arcs();
    let len = base.graph().arcs().len() as int;
    lemma_linked(w0, w1, pu, pv, cap, 1);
    lemma_link_keeps(bp, w0, w1, pu, pv, cap, 1);
    lemma_extends_trans(base.graph().arcs(), a0, a1);
    assert(w0.ids().contains_key((0usize, t.minutes as usize)));
    assert(w1.ids() == w0.ids());
    assert(w1.graph().order() == w0.graph().order());
    assert(a1 =~= a0 + step_arcs(w0.ids(), t.minutes as int, cap));
    lemma_cost_sites_extends(
        bp.network_consumption_blueprint.relevant_edges@,
        a0,
        a1,
        prices,
        STEPS_PER_DAY as int,
        len,
    );
    assert forall|k: int| len <= 2 * k < a1.len() implies (#[trigger] a1[2 * k]).to == 1 && a1[2
        * k].cost == 1 by {
        if 2 * k < a0.len() {
            assert(a0[2 * k].to == 1);
            assert(a1[2 * k].to == a0[2 * k].to);
        }
    }
}

/// Moving residuals inside the pairs keeps the working copy in order.
pub proof fn lemma_solve_keeps(
    base: &FlowWrapper,
    w0: &FlowWrapper,
    w1: &FlowWrapper,
    bp: &SmartHomeBlueprint,
    prices: Seq<i64>,
)
    requires
        laid_on(base, w0, bp, prices),
        w1.wf(),
        w1.ids() == w0.ids(),
        w1.graph().order() == w0.graph().order(),
        same_network(w0.graph().arcs(), w1.graph().arcs()),
    ensures
        laid_on(base, w1, bp, prices),
        sink_capacity(w1.graph().arcs()) == sink_capacity(w0.graph().arcs()),
{
    let a0 = w0.graph().arcs();
    let a1 = w1.graph().arcs();
    let len = base.graph().arcs().len() as int;
    lemma_same_network_extends(a0, a1);
    lemma_extends_trans(base.graph().arcs(), a0, a1);
    lemma_sink_absorbs_same(a0, a1);
    lemma_sink_capacity_same(a0, a1);
    lemma_cost_sites_extends(
        bp.network_consumption_blueprint.relevant_edges@,
        a0,
        a1,
        prices,
        STEPS_PER_DAY as int,
        len,
    );
    lemma_covered_extends(bp.network_consumption_blueprint.relevant_edges@, a0, a1, 0, STEPS_PER_DAY as int);
    lemma_import_extends(
        bp.network_consumption_blueprint.relevant_edges@,
        a0,
        a1,
        w0.ids(),
        w1.ids(),
        STEPS_PER_DAY as int,
    );
    assert forall|k: int| 0 <= k < bp.battery_blueprints@.len() implies (#[trigger] bp.battery_blueprints@[k]).fits(
        a1,
    ) by {
        lemma_battery_extends(bp.battery_blueprints@[k], a0, a1);
    }
    assert forall|k: int| 0 <= k < bp.battery_blueprints@.len() implies (#[trigger] bp.battery_blueprints@[k]).wired(
        a1,
        w1.ids(),
    ) by {
        lemma_battery_wired_extends(bp.battery_blueprints@[k], a0, a1, w0.ids(), w1.ids());
    }
    assert forall|k: int| 0 <= k < bp.variable_action_blueprints@.len()
        implies (#[trigger] bp.variable_action_blueprints@[k]).fits(a1, w1.ids()) by {
        lemma_variable_extends(bp.variable_action_blueprints@[k], a0, w0.ids(), a1, w1.ids());
    }
    assert forall|k: int| len <= 2 * k < a1.len() implies (#[trigger] a1[2 * k]).to == 1 && a1[2
        * k].cost == 1 by {
        assert(a0[2 * k].to == 1);
        assert(a1[2 * k].to == a0[2 * k].to);
    }
}

/// Lays one constant load into the working copy: for each step on which
/// the load runs, a pair from the step's wire to the sink with the load's
/// consumption, at a unit cost of one that breaks ties.
fn lay_load(
    top: &mut FlowWrapper,
    load: &AssignedConstantAction,
    Ghost(base): Ghost<FlowWrapper>,
    held: &SmartHomeBlueprint,
    Ghost(prices): Ghost<Seq<i64>>,
)
    requires
        laid_on(&base, old(top), held, prices),
        pristine(old(top).graph().arcs()),
        load_ok(*load),
        old(top).graph().arcs().len() + 2 * STEPS_PER_DAY + 2 < usize::MAX,
        old(top).graph().order() + 2 * STEPS_PER_DAY + 2 <= usize::MAX,
    ensures
        laid_on(&base, final(top), held, prices),
        pristine(final(top).graph().arcs()),
        sink_capacity(final(top).graph().arcs()) == sink_capacity(old(top).graph().arcs())
            + load.action.consumption * load.action.duration.minutes,
        final(top).graph().arcs().len() == old(top).graph().arcs().len() + 2
            * load.action.duration.minutes,
        final(top).graph().arcs() == old(top).graph().arcs() + load_arcs(
            base.ids(),
            *load,
            load.action.duration.minutes as int,
        ),
{
    let start = load.get_start_time().to_timestep();
    let end = load.get_end_time().to_timestep();
    let consumption = load.get_consumption();
    let mut t: u32 = start;
    proof {
        assert(consumption * 0 == 0);
        assert(old(top).graph().arcs() + load_arcs(base.ids(), *load, 0) =~= old(top).graph().arcs());
    }
    while t < end
        invariant
            start <= t <= end,
            end <= STEPS_PER_DAY,
            start == load.start_time.minutes,
            end == load.start_time.minutes + load.action.duration.minutes,
            consumption == load.action.consumption,
            consumption >= 0,
            laid_on(&base, top, held, prices),
            pristine(top.graph().arcs()),
            old(top).graph().arcs().len() + 2 * STEPS_PER_DAY + 2 < usize::MAX,
            old(top).graph().order() + 2 * STEPS_PER_DAY + 2 <= usize::MAX,
            top.graph().arcs().len() == old(top).graph().arcs().len() + 2 * (t - start),
            top.graph().order() == old(top).graph().order(),
            top.graph().arcs() == old(top).graph().arcs() + load_arcs(base.ids(), *load, t - start),
            sink_capacity(top.graph().arcs()) == sink_capacity(old(top).graph().arcs())
                + consumption * (t - start),
        decreases end - t,
    {
        let time = Time::from_timestep(t);
        let ghost w0 = *top;
        link(top, FlowNode::Wire(time), FlowNode::Sink, consumption, 1);
        proof {
            lemma_link_overlay(&base, &w0, top, held, prices, time, consumption);
            let sofar = load_arcs(base.ids(), *load, t - start);
            let step = step_arcs(base.ids(), t as int, consumption);
            assert(load_arcs(base.ids(), *load, t + 1 - start) == sofar + step);
            assert((old(top).graph().arcs() + sofar) + step =~= old(top).graph().arcs() + (sofar + step));
            assert(consumption * (t + 1 - start) == consumption * (t - start) + consumption)
                by (nonlinear_arith);
        }
        t += 1;
    }
}

/// Lays every constant load into the working copy and returns the energy
/// that they take together. Fails when the loads are more than a network
/// takes or their energy no longer fits beside the demand in 64 bits.
fn lay_constants(
    top: &mut FlowWrapper,
    loads: &Vec<AssignedConstantAction>,
    Ghost(base): Ghost<FlowWrapper>,
    held: &SmartHomeBlueprint,
    Ghost(prices): Ghost<Seq<i64>>,
    demand: i64,
) -> (r: Result<i64, OptimizeError>)
    requires
        laid_on(&base, old(top), held, prices),
        pristine(old(top).graph().arcs()),
        loads_ok(loads@),
        demand >= 0,
        sized(old(top), MAX_BATTERIES as int, MAX_VARIABLE_ACTIONS as int),
    ensures
        match r {
            Ok(e) => {
                &&& !too_large(loads@, demand as int)
                &&& laid_on(&base, final(top), held, prices)
                &&& pristine(final(top).graph().arcs())
                &&& e == constant_energy(loads@)
                &&& 0 <= e
                &&& sink_capacity(final(top).graph().arcs()) == sink_capacity(
                    old(top).graph().arcs(),
                ) + e
                &&& final(top).graph().arcs() == old(top).graph().arcs() + laid_arcs(
                    base.ids(),
                    loads@,
                    loads@.len() as int,
                )
            },
            Err(x) => x == OptimizeError::TooLarge && too_large(loads@, demand as int),
        },
{
    if loads.len() > MAX_CONSTANT_ACTIONS {
        return Err(OptimizeError::TooLarge);
    }
    let mut energy: i64 = 0;
    let mut i: usize = 0;
    proof {
        assert(loads@.take(0) =~= Seq::<AssignedConstantAction>::empty());
        assert(old(top).graph().arcs() + laid_arcs(base.ids(), loads@, 0) =~= old(top).graph().arcs());
    }
    while i < loads.len()
        invariant
            i <= loads@.len(),
            loads@.len() <= MAX_CONSTANT_ACTIONS,
            loads_ok(loads@),
            demand >= 0,
            0 <= energy,
            demand + energy <= i64::MAX,
            energy == constant_energy(loads@.take(i as int)),
            laid_on(&base, top, held, prices),
            pristine(top.graph().arcs()),
            sink_capacity(top.graph().arcs()) == sink_capacity(old(top).graph().arcs()) + energy,
            sized(old(top), MAX_BATTERIES as int, MAX_VARIABLE_ACTIONS as int),
            top.graph().arcs().len() <= old(top).graph().arcs().len() + 2880 * i,
            top.graph().order() == old(top).graph().order(),
            top.graph().arcs() == old(top).graph().arcs() + laid_arcs(base.ids(), loads@, i as int),
        decreases loads@.len() - i,
    {
        let load = &loads[i];
        assert(load_ok(loads@[i as int]));
        let c = load.get_consumption();
        let d = load.get_action().get_duration().get_minutes();
        assert(0 <= c * d <= 0x7fff_ffff_ffff_ffff * 1440) by (nonlinear_arith)
            requires
                0 <= c <= 0x7fff_ffff_ffff_ffff,
                0 <= d <= 1440,
        ;
        let add: i128 = c as i128 * d as i128;
        proof {
            assert(loads@.take(i + 1).drop_last() =~= loads@.take(i as int));
            assert(loads@.take(i + 1).last() == loads@[i as int]);
            lemma_energy_grows(loads@, i + 1);
        }
        if add > (i64::MAX - demand - energy) as i128 {
            return Err(OptimizeError::TooLarge);
        }
        let ghost sofar = laid_arcs(base.ids(), loads@, i as int);
        lay_load(top, load, Ghost(base), held, Ghost(prices));
        energy = energy + add as i64;
        proof {
            let more = load_arcs(base.ids(), loads@[i as int], loads@[i as int].action.duration.minutes as int);
            assert(laid_arcs(base.ids(), loads@, i + 1) == sofar + more);
            assert((old(top).graph().arcs() + sofar) + more =~= old(top).graph().arcs() + (sofar + more));
        }
        i += 1;
    }
    proof {
        assert(loads@.take(loads@.len() as int) =~= loads@);
    }
    Ok(energy)
}

/// The network of a smart home with its constant loads: the network
/// without constant loads, kept unsolved at the bottom of a stack, a
/// working copy above it into which the loads are laid and which is solved,
/// the loads, and the cost of the last solve for as long as no load changed.
pub struct SmartHomeFlow {
    pub flow: StackProxy<FlowWrapper>,
    pub constant_actions: Vec<AssignedConstantAction>,
    pub calc_result: Option<i64>,
    pub blueprint: SmartHomeBlueprint,
    /// What the loads of the network without constant loads demand.
    pub demand: i64,
    /// The price of each step.
    pub prices: Vec<i64>,
}

impl SmartHomeFlow {
    /// The network without constant loads.
    pub open spec fn base(&self) -> FlowWrapper {
        self.flow.view()[0]
    }

    /// The working copy.
    pub open spec fn top(&self) -> FlowWrapper {
        self.flow.view()[1]
    }

    /// Cost of what the schedule of the working copy draws from the grid.
    pub open spec fn import_cost(&self) -> int {
        import_cost_upto(
            self.top().graph().arcs(),
            self.blueprint.network_consumption_blueprint.relevant_edges@,
            self.prices@,
            STEPS_PER_DAY as int,
        )
    }

    /// The network that a solve works on: the network without constant
    /// loads, and behind its pairs those of the constant loads, load by load
    /// in the order of their ids and step by step.
    pub open spec fn laid_network(&self) -> Seq<Edge> {
        self.base().graph().arcs() + laid_arcs(
            self.base().ids(),
            self.constant_actions@,
            self.constant_actions@.len() as int,
        )
    }

    /// The working copy holds a solution of cost `c`: a flow on the network
    /// with the constant loads laid in, which every node but source and sink
    /// passes on; which meets the whole demand and fills every pair into the
    /// sink; which no path can add to, so that it is a maximum flow; and
    /// which potentials price, so that no flow that meets the demand is
    /// cheaper. Its cost `c` is what the import from the grid costs, plus
    /// one for each unit of energy of a constant load. The loads were not
    /// too large to be laid.
    pub open spec fn solved(&self, c: int) -> bool {
        let a = self.top().graph().arcs();
        let n = self.top().graph().order();
        &&& !too_large(self.constant_actions@, self.demand as int)
        &&& laid_on(&self.base(), &self.top(), &self.blueprint, self.prices@)
        &&& same_network(self.laid_network(), a)
        &&& arcs_wf(a, n)
        &&& conserving(a, n)
        &&& saturated(a)
        &&& priced(a, n)
        &&& sink_capacity(a) == self.demand + constant_energy(self.constant_actions@)
        &&& excess(a, 1) == sink_capacity(a)
        &&& forall|k: int|
            0 <= 2 * k < a.len() && a[2 * k].to == 1 ==> #[trigger] pair_flow(a, k) == pair_capacity(
                a,
                k,
            )
        &&& c == total_cost(a)
        &&& c == self.import_cost() + constant_energy(self.constant_actions@)
    }

    /// The invariant: a stack of two networks, the lower one as the builder
    /// left it; loads that can be laid; and a cost, where one is kept, that
    /// belongs to a solved working copy.
    pub open spec fn wf(&self) -> bool {
        &&& self.flow.view().len() == 2
        &&& base_ok(&self.base(), &self.blueprint, self.prices@, self.demand as int)
        &&& sized(&self.base(), MAX_BATTERIES as int, MAX_VARIABLE_ACTIONS as int)
        &&& self.demand >= 0
        &&& loads_ok(self.constant_actions@)
        &&& self.calc_result matches Some(c) ==> self.solved(c as int)
    }

    /// The network `flow`, as a builder left it, without constant loads.
    pub fn new(flow: FlowWrapper, blueprint: SmartHomeBlueprint, demand: i64, prices: Vec<i64>) -> (f:
        Self)
        requires
            base_ok(&flow, &blueprint, prices@, demand as int),
            sized(&flow, MAX_BATTERIES as int, MAX_VARIABLE_ACTIONS as int),
            demand >= 0,
        ensures
            f.wf(),
            f.blueprint == blueprint,
            f.prices@ == prices@,
            f.demand == demand,
            f.constant_actions@.len() == 0,
            f.calc_result is None,
            f.base() == flow,
    {
        let mut stack: StackProxy<FlowWrapper> = StackProxy::new(flow);
        stack.push();
        SmartHomeFlow {
            flow: stack,
            constant_actions: Vec::new(),
            calc_result: None,
            blueprint,
            demand,
            prices,
        }
    }

    /// Number of loads whose id is below `id`: the place at which the load
    /// with id `id` stands, or would stand.
    pub fn position(&self, id: u32) -> (r: usize)
        requires
            loads_ok(self.constant_actions@),
        ensures
            r == rank(self.constant_actions@, id),
            r <= self.constant_actions@.len(),
    {
        let mut i: usize = 0;
        proof {
            lemma_rank(self.constant_actions@, id);
        }
        while i < self.constant_actions.len()
            invariant
                i <= self.constant_actions@.len(),
                i <= rank(self.constant_actions@, id),
                loads_ok(self.constant_actions@),
                forall|j: int|
                    0 <= j < rank(self.constant_actions@, id) ==> (#[trigger] self.constant_actions@[j]).action.id
                        < id,
                forall|j: int|
                    rank(self.constant_actions@, id) <= j < self.constant_actions@.len()
                        ==> (#[trigger] self.constant_actions@[j]).action.id >= id,
            decreases self.constant_actions@.len() - i,
        {
            if self.constant_actions[i].get_id() >= id {
                return i;
            }
            i += 1;
        }
        i
    }

    /// Takes up a constant load, in place of the load with the same id if
    /// there is one. The network is not touched before the next solve.
    pub fn add_constant_consumption(&mut self, constant_action: AssignedConstantAction)
        requires
            old(self).wf(),
            load_ok(constant_action),
        ensures
            final(self).wf(),
            final(self).calc_result is None,
            final(self).flow == old(self).flow,
            final(self).blueprint == old(self).blueprint,
            final(self).demand == old(self).demand,
            final(self).prices == old(self).prices,
            final(self).constant_actions@ == put_load(old(self).constant_actions@, constant_action),
    {
        self.calc_result = None;
        let i = self.position(constant_action.get_id());
        proof {
            lemma_put_load(self.constant_actions@, constant_action);
        }
        if i < self.constant_actions.len() && self.constant_actions[i].get_id()
            == constant_action.get_id() {
            self.constant_actions[i] = constant_action;
        } else {
            self.constant_actions.insert(i, constant_action);
        }
    }

    /// Gives up the constant load with id `id` and returns it, if there is
    /// one. The network is not touched before the next solve.
    pub fn remove_constant_consumption(&mut self, id: u32) -> (r: Option<AssignedConstantAction>)
        requires
            old(self).wf(),
        ensures
            final(self).wf(),
            final(self).calc_result is None,
            final(self).flow == old(self).flow,
            final(self).blueprint == old(self).blueprint,
            final(self).demand == old(self).demand,
            final(self).prices == old(self).prices,
            final(self).constant_actions@ == drop_load(old(self).constant_actions@, id),
            r is Some <==> holds(old(self).constant_actions@, id),
            r matches Some(a) ==> a == old(self).constant_actions@[rank(
                old(self).constant_actions@,
                id,
            )],
    {
        self.calc_result = None;
        let i = self.position(id);
        proof {
            lemma_drop_load(self.constant_actions@, id);
        }
        if i < self.constant_actions.len() && self.constant_actions[i].get_id() == id {
            let a = self.constant_actions.remove(i);
            Some(a)
        } else {
            None
        }
    }

    /// The working copy holds a flow on the network with the constant
    /// loads laid in, which every node but source and sink passes on and
    /// which no path can add to, and that flow does not meet the whole
    /// demand. No flow on that network then does.
    pub open spec fn falls_short(&self) -> bool {
        let a = self.top().graph().arcs();
        let n = self.top().graph().order();
        &&& laid_on(&self.base(), &self.top(), &self.blueprint, self.prices@)
        &&& same_network(self.laid_network(), a)
        &&& arcs_wf(a, n)
        &&& conserving(a, n)
        &&& sink_capacity(a) == self.demand + constant_energy(self.constant_actions@)
        &&& saturated(a)
        &&& excess(a, 1) < sink_capacity(a)
    }

    /// No price is above `cap`, and `cap` is so small that a path over all
    /// the nodes of the network stays below the solver's sentinel and that
    /// the whole demand, bought at `cap` on every arc of such a path, costs
    /// no more than 64 bits hold.
    pub open spec fn modest_under(&self, cap: int) -> bool {
        let n = self.base().graph().order();
        &&& cap >= 1
        &&& forall|t: int| 0 <= t < STEPS_PER_DAY ==> #[trigger] self.prices@[t] <= cap
        &&& n * cap < INF
        &&& n * cap * (self.demand + constant_energy(self.constant_actions@)) <= i64::MAX
    }

    /// Prices and demand are modest: there is a cap on the prices under
    /// which they are. On modest prices and demand the solver does not
    /// give up.
    pub open spec fn modest(&self) -> bool {
        exists|cap: int| #[trigger] self.modest_under(cap)
    }

    /// What the error of a solve says: `TooLarge`, that the loads are more
    /// than a network takes or their energy no longer fits beside the demand
    /// in 64 bits; `Internal`, that the solver gave up before it had found
    /// the sink out of reach, which it does only where prices and demand
    /// are not modest; `Infeasible`, that the working copy holds a flow
    /// that no path can add to and that falls short of the demand. A solve
    /// fails with no other error.
    pub open spec fn fails_with(&self, e: OptimizeError) -> bool {
        let large = too_large(self.constant_actions@, self.demand as int);
        match e {
            OptimizeError::TooLarge => large,
            OptimizeError::Internal => !large && !self.top().graph().is_converged() && !self.modest(),
            OptimizeError::Infeasible => !large && self.falls_short(),
            _ => false,
        }
    }

    /// Solves the network with the constant loads as they stand: throws
    /// the working copy away, takes a fresh copy of the network without
    /// constant loads, lays the loads into it, solves it, and keeps the cost.
    fn calc_flow(&mut self) -> (r: Result<i64, OptimizeError>)
        requires
            old(self).wf(),
        ensures
            final(self).wf(),
            final(self).base() == old(self).base(),
            final(self).constant_actions == old(self).constant_actions,
            final(self).blueprint == old(self).blueprint,
            final(self).demand == old(self).demand,
            final(self).prices == old(self).prices,
            match r {
                Ok(c) => final(self).calc_result == Some(c) && final(self).solved(c as int),
                Err(e) => final(self).calc_result is None && final(self).fails_with(e),
            },
    {
        self.calc_result = None;
        self.flow.pop();
        self.flow.push();
        let ghost base = self.flow.view()[0];
        let ghost prices = self.prices@;
        let ghost net = self.blueprint.network_consumption_blueprint.relevant_edges@;
        let demand = self.demand;
        let ghost start = *self;
        let top = self.flow.top_mut();
        let ghost fresh = *top;
        proof {
            let a = base.graph().arcs();
            base.graph().lemma_wf();
            lemma_extends_refl(a);
            assert(fresh.graph().arcs() == a);
            assert(laid_on(&base, &fresh, &self.blueprint, prices));
        }
        let energy = match lay_constants(
            top,
            &self.constant_actions,
            Ghost(base),
            &self.blueprint,
            Ghost(prices),
            demand,
        ) {
            Ok(e) => e,
            Err(e) => {
                return Err(e);
            },
        };
        let ghost laid = *top;
        proof {
            let a0 = laid.graph().arcs();
            let blen = base.graph().arcs().len() as int;
            laid.graph().lemma_wf();
            assert forall|i: int| 0 <= i < a0.len() && i % 2 == 0 implies (#[trigger] a0[i]).cost
                >= 0 by {
                let k = i / 2;
                assert(i == 2 * k);
                if i < blen {
                    if a0[2 * k].cost != 0 {
                        assert(is_site(net, STEPS_PER_DAY as int, 2 * k));
                        let t = choose|t: u32| t < STEPS_PER_DAY && net.contains_key(t) && #[trigger] net[t] == 2 * k;
                        assert(a0[net[t] as int].cost == prices[t as int]);
                    }
                } else {
                    assert(a0[2 * k].cost == 1);
                }
            }
            lemma_pristine_priced(a0, laid.graph().order());
            if start.modest() {
                let cap = choose|cap: int| #[trigger] start.modest_under(cap);
                assert forall|i: int| 0 <= i < a0.len() && i % 2 == 0 implies 0 <= (#[trigger] a0[i]).cost
                    <= cap by {
                    let k = i / 2;
                    assert(i == 2 * k);
                    if i < blen {
                        if a0[2 * k].cost != 0 {
                            assert(is_site(net, STEPS_PER_DAY as int, 2 * k));
                            let t = choose|t: u32|
                                t < STEPS_PER_DAY && net.contains_key(t) && #[trigger] net[t] == 2 * k;
                            assert(a0[net[t] as int].cost == prices[t as int]);
                        }
                    } else {
                        assert(a0[2 * k].cost == 1);
                    }
                }
                lemma_pristine_calm(a0, laid.graph().order(), cap);
            }
        }
        let (cost, value) = top.mincostflow();
        let converged = top.inner().converged();
        let ghost done = *top;
        proof {
            let a0 = laid.graph().arcs();
            let a = done.graph().arcs();
            let blen = base.graph().arcs().len() as int;
            lemma_solve_keeps(&base, &laid, &done, &self.blueprint, prices);
            lemma_pristine_sums(a0, 1, a0.len() as int / 2);
            done.graph().lemma_wf();
            lemma_sink_bound(a, done.graph().order(), a.len() as int / 2);
            assert(value == excess(a, 1));
            assert(cost == total_cost(a));
            if value == sink_capacity(a) {
                assert forall|k: int| 0 <= 2 * k < a.len() && a[2 * k].to == 1 implies #[trigger] pair_flow(
                    a,
                    k,
                ) == pair_capacity(a, k) by {
                }
                lemma_cost_is_import(a, net, prices, blen);
                lemma_cost_uniform(a, 1, blen / 2, a.len() as int / 2);
                assert forall|k: int| blen / 2 <= k < a.len() as int / 2 implies (#[trigger] a[2
                    * k]).to == 1 by {
                }
                assert forall|k: int| blen / 2 <= k < a.len() as int / 2 implies #[trigger] pair_flow(
                    a,
                    k,
                ) == pair_capacity(a, k) by {
                    assert(a[2 * k].to == 1);
                }
                lemma_sink_stretch_full(a, blen / 2, a.len() as int / 2);
                lemma_sink_capacity_frame(base.graph().arcs(), a, blen / 2);
            }
        }
        if !converged {
            proof {
                if self.modest() {
                    let cap = choose|cap: int| #[trigger] self.modest_under(cap);
                    assert(start.modest_under(cap));
                }
            }
            return Err(OptimizeError::Internal);
        }
        if value < demand + energy {
            return Err(OptimizeError::Infeasible);
        }
        self.calc_result = Some(cost);
        Ok(cost)
    }

    /// The least cost at which the demand of the day is met with the constant
    /// loads as they stand. A change of the loads since the last solve makes
    /// this solve the network anew.
    pub fn get_cost(&mut self) -> (r: Result<i64, OptimizeError>)
        requires
            old(self).wf(),
        ensures
            final(self).wf(),
            final(self).base() == old(self).base(),
            final(self).constant_actions == old(self).constant_actions,
            final(self).blueprint == old(self).blueprint,
            final(self).demand == old(self).demand,
            final(self).prices == old(self).prices,
            old(self).calc_result matches Some(c) ==> (r matches Ok(x) && x == c) && final(self).flow
                == old(self).flow,
            match r {
                Ok(c) => final(self).calc_result == Some(c) && final(self).solved(c as int),
                Err(e) => final(self).calc_result is None && final(self).fails_with(e),
            },
    {
        match self.calc_result {
            Some(c) => Ok(c),
            None => self.calc_flow(),
        }
    }

    /// The schedule holds each battery and each variable load under its id,
    /// read off the working copy as its blueprint says, and no others.
    pub open spec fn parts_built(&self, s: &Schedule) -> bool {
        let top = self.top();
        &&& forall|k: int|
            0 <= k < self.blueprint.battery_blueprints@.len() ==> {
                let bp = #[trigger] self.blueprint.battery_blueprints@[k];
                s.batteries@.contains_key(bp.battery.id) && bp.built(&top, &s.batteries@[bp.battery.id])
            }
        &&& forall|id: u32| #[trigger]
            s.batteries@.contains_key(id) ==> exists|k: int|
                0 <= k < self.blueprint.battery_blueprints@.len()
                    && (#[trigger] self.blueprint.battery_blueprints@[k]).battery.id == id
        &&& forall|k: int|
            0 <= k < self.blueprint.variable_action_blueprints@.len() ==> {
                let bp = #[trigger] self.blueprint.variable_action_blueprints@[k];
                s.variable_actions@.contains_key(bp.variable_action.id) && bp.built(
                    &top,
                    &s.variable_actions@[bp.variable_action.id],
                )
            }
        &&& forall|id: u32| #[trigger]
            s.variable_actions@.contains_key(id) ==> exists|k: int|
                0 <= k < self.blueprint.variable_action_blueprints@.len()
                    && (#[trigger] self.blueprint.variable_action_blueprints@[k]).variable_action.id
                    == id
    }

    /// The levels of every battery of the schedule follow from what the
    /// battery takes and gives.
    pub open spec fn levels_balanced(&self, s: &Schedule) -> bool {
        forall|k: int|
            0 <= k < self.blueprint.battery_blueprints@.len() ==> s.batteries@[(
                #[trigger] self.blueprint.battery_blueprints@[k]).battery.id].balanced()
    }

    /// Every variable load of the schedule consumes, over its window, exactly
    /// its total.
    pub open spec fn totals_met(&self, s: &Schedule) -> bool {
        forall|k: int|
            0 <= k < self.blueprint.variable_action_blueprints@.len() ==> {
                let v = (#[trigger] self.blueprint.variable_action_blueprints@[k]).variable_action;
                seq_sum(s.variable_actions@[v.id].consumption@) == v.total_consumption
            }
    }

    /// The schedule of least cost with the constant loads as they stand,
    /// without the constant loads themselves: what each battery holds, takes
    /// and gives, what each variable load consumes, and what is drawn from the
    /// grid. A change of the loads since the last solve makes this solve the
    /// network anew.
    pub fn get_schedule(&mut self) -> (r: Result<Schedule, OptimizeError>)
        requires
            old(self).wf(),
        ensures
            final(self).wf(),
            final(self).base() == old(self).base(),
            final(self).constant_actions == old(self).constant_actions,
            final(self).blueprint == old(self).blueprint,
            final(self).demand == old(self).demand,
            final(self).prices == old(self).prices,
            old(self).calc_result is Some ==> r is Ok && final(self).flow == old(self).flow,
            match r {
                Ok(s) => {
                    &&& final(self).calc_result matches Some(c) && final(self).solved(c as int) && c
                        == series_cost(
                        final(self).prices@,
                        s.network_consumption.view(),
                        STEPS_PER_DAY as int,
                    ) + constant_energy(final(self).constant_actions@)
                    &&& final(self).blueprint.built(&final(self).top(), &s)
                    &&& final(self).totals_met(&s)
                    &&& final(self).levels_balanced(&s)
                },
                Err(e) => final(self).calc_result is None && final(self).fails_with(e),
            },
    {
        let cost = match self.get_cost() {
            Ok(c) => c,
            Err(e) => {
                return Err(e);
            },
        };
        let s = self.blueprint.construct(self.flow.top());
        proof {
            let a = self.top().graph().arcs();
            let net = self.blueprint.network_consumption_blueprint.relevant_edges@;
            lemma_series_cost(
                a,
                net,
                self.prices@,
                s.network_consumption.view(),
                STEPS_PER_DAY as int,
            );
            assert forall|k: int| 0 <= k < self.blueprint.variable_action_blueprints@.len() implies {
                let v = (#[trigger] self.blueprint.variable_action_blueprints@[k]).variable_action;
                seq_sum(s.variable_actions@[v.id].consumption@) == v.total_consumption
            } by {
                let bp = self.blueprint.variable_action_blueprints@[k];
                assert(bp.fits(a, self.top().ids()));
                let j = bp.sink_edge as int / 2;
                assert(a[2 * j].to == 1);
                assert(pair_flow(a, j) == pair_capacity(a, j));
            }
            let ids = self.top().ids();
            let n = self.top().graph().order();
            assert(table_ok(ids, n));
            assert forall|k: int| 0 <= k < self.blueprint.battery_blueprints@.len() implies s.batteries@[(
                #[trigger] self.blueprint.battery_blueprints@[k]).battery.id].balanced() by {
                let bp = self.blueprint.battery_blueprints@[k];
                let out = s.batteries@[bp.battery.id];
                assert(bp.fits(a));
                assert(bp.wired(a, ids));
                assert(bp.reads(a, &out));
                assert forall|t: int| 1 <= t < STEPS_PER_DAY implies #[trigger] out.level(t + 1) - out.level(
                    t,
                ) == out.charged.view()[t] - out.discharged.view()[t] by {
                    lemma_battery_balance(bp, a, ids, n, t as u32);
                    assert(out.level(t) == pair_flow(a, bp.relevant_edges@[t as u32] as int / 2));
                    assert(out.level(t + 1) == pair_flow(
                        a,
                        bp.relevant_edges@[(t + 1) as u32] as int / 2,
                    ));
                    assert(out.charged.view()[t] == pair_flow(a, bp.charge_edges@[t as u32] as int / 2));
                    assert(out.discharged.view()[t] == pair_flow(
                        a,
                        bp.discharge_edges@[t as u32] as int / 2,
                    ));
                }
            }
        }
        Ok(s)
    }
}

/// Cost of the import of the first `t` steps: price times import.
pub open spec fn series_cost(prices: Seq<i64>, imports: Seq<i64>, t: int) -> int
    decreases t,
{
    if t <= 0 {
        0
    } else {
        series_cost(prices, imports, t - 1) + prices[t - 1] * imports[t - 1]
    }
}

/// A series that holds the flows of the import pairs costs what those
/// flows cost.
pub proof fn lemma_series_cost(
    a: Seq<Edge>,
    net: Map<u32, usize>,
    prices: Seq<i64>,
    imports: Seq<i64>,
    t: int,
)
    requires
        0 <= t <= STEPS_PER_DAY,
        forall|i: int| 0 <= i < t ==> #[trigger] imports[i] == pair_flow(a, net[i as u32] as int / 2),
    ensures
        series_cost(prices, imports, t) == import_cost_upto(a, net, prices, t),
    decreases t,
{
    if t > 0 {
        lemma_series_cost(a, net, prices, imports, t - 1);
    }
}

/// A solution is a cheapest way to meet the demand: a flow on the network
/// of the solution that every node but source and sink passes on and that
/// brings as much into the sink costs no less.
pub proof fn lemma_solved_is_cheapest(flow: &SmartHomeFlow, c: int, other: Seq<Edge>)
    requires
        flow.solved(c),
        arcs_wf(other, flow.top().graph().order()),
        same_network(flow.top().graph().arcs(), other),
        conserving(other, flow.top().graph().order()),
        excess(other, 1) == excess(flow.top().graph().arcs(), 1),
    ensures
        c <= total_cost(other),
{
    let top = flow.top();
    top.graph().lemma_wf();
    lemma_priced_is_cheapest(top.graph().arcs(), other, top.graph().order());
}

/// A solution meets as much demand as can be met: no flow on the network
/// of the solution that every node but source and sink passes on brings
/// more into the sink.
pub proof fn lemma_solved_is_maximum(flow: &SmartHomeFlow, c: int, other: Seq<Edge>)
    requires
        flow.solved(c),
        arcs_wf(other, flow.top().graph().order()),
        same_network(flow.top().graph().arcs(), other),
        conserving(other, flow.top().graph().order()),
    ensures
        excess(other, 1) <= excess(flow.top().graph().arcs(), 1),
{
    let top = flow.top();
    top.graph().lemma_wf();
    lemma_saturated_is_maximum(top.graph().arcs(), other, top.graph().order());
}

/// The cost of a solution is told by the network without constant loads
/// and by the constant loads: two solutions over the same network and the
/// same loads, whenever and however they were found, cost the same.
pub proof fn lemma_same_loads_same_cost(one: &SmartHomeFlow, c1: int, two: &SmartHomeFlow, c2: int)
    requires
        one.solved(c1),
        two.solved(c2),
        one.base() == two.base(),
        one.constant_actions@ == two.constant_actions@,
        one.demand == two.demand,
    ensures
        c1 == c2,
{
    let a1 = one.top().graph().arcs();
    let a2 = two.top().graph().arcs();
    let n = one.top().graph().order();
    let laid = one.laid_network();
    assert(two.laid_network() == laid);
    one.top().graph().lemma_wf();
    two.top().graph().lemma_wf();
    assert(laid.len() == a1.len());
    lemma_same_network_sym(laid, a1);
    lemma_same_network_trans(a1, laid, a2);
    lemma_same_network_sym(a1, a2);
    lemma_priced_is_cheapest(a1, a2, n);
    lemma_priced_is_cheapest(a2, a1, n);
}

/// Whether the demand can be met is told by the network without constant
/// loads and by the constant loads: where one solve fell short, no solve
/// over the same network and the same loads finds a solution.
pub proof fn lemma_short_is_unsolvable(short: &SmartHomeFlow, other: &SmartHomeFlow, c: int)
    requires
        short.falls_short(),
        short.base() == other.base(),
        short.constant_actions@ == other.constant_actions@,
        short.demand == other.demand,
    ensures
        !other.solved(c),
{
    if other.solved(c) {
        let a1 = short.top().graph().arcs();
        let a2 = other.top().graph().arcs();
        let n = short.top().graph().order();
        let laid = short.laid_network();
        assert(other.laid_network() == laid);
        short.top().graph().lemma_wf();
        other.top().graph().lemma_wf();
        lemma_same_network_sym(laid, a1);
        lemma_same_network_trans(a1, laid, a2);
        lemma_saturated_is_maximum(a1, a2, n);
    }
}

/// A solve that succeeded once succeeds again: where one solve found a
/// solution, a solve over the same network, the same loads and modest
/// prices fails with no error.
pub proof fn lemma_solved_stays_solvable(
    solved: &SmartHomeFlow,
    c: int,
    other: &SmartHomeFlow,
    e: OptimizeError,
)
    requires
        solved.solved(c),
        solved.base() == other.base(),
        solved.constant_actions@ == other.constant_actions@,
        solved.demand == other.demand,
        other.modest(),
    ensures
        !other.fails_with(e),
{
    if other.fails_with(e) {
        match e {
            OptimizeError::Infeasible => {
                lemma_short_is_unsolvable(other, solved, c);
            },
            _ => {},
        }
    }
}

} // verus!
