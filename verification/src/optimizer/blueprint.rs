use crate::optimizer::flow::mcmf::{
    excess, excess_term, excess_upto, pair_capacity, pair_flow, Edge,
};
use crate::optimizer::flow::sums::{flow_between, lemma_excess_inflow, lemma_excess_skip};
use crate::optimizer::flow::wrapper::{FlowWrapper, NodeIds};
use crate::optimizer_context::action::variable::{AssignedVariableAction, VariableAction};
use crate::optimizer_context::battery::{AssignedBattery, Battery};
use crate::optimizer_context::prognoses::Prognoses;
use crate::schedule::Schedule;
use crate::time::{Time, STEPS_PER_DAY};
use std::collections::HashMap;
use vstd::prelude::*;

verus! {

broadcast use vstd::std_specs::hash::group_hash_axioms;

/// `h` is the handle of a pair of `a`.
pub open spec fn handle_ok(a: Seq<Edge>, h: int) -> bool {
    0 <= h && h % 2 == 0 && h + 1 < a.len()
}

/// The table holds the handle of a pair of `a` for every step from `lo` up
/// to `hi`.
pub open spec fn steps_covered(edges: Map<u32, usize>, a: Seq<Edge>, lo: int, hi: int) -> bool {
    forall|t: u32| lo <= t < hi ==> #[trigger] edges.contains_key(t) && handle_ok(a, edges[t] as int)
}

/// The table names, for each of the first `upto` steps, a pair that runs
/// from the node of grid import to the wire of the step.
pub open spec fn import_wired(net: Map<u32, usize>, a: Seq<Edge>, ids: NodeIds, upto: int) -> bool {
    forall|t: u32|
        t < upto ==> (#[trigger] a[net[t] as int]).to == ids[(0usize, t as usize)] && a[net[t] + 1].to
            == ids[(1usize, 0usize)]
}

/// The table names, for every step `t` from `lo` up to `hi`, a pair that
/// runs from the node under the key `tail` of step `t - shift` to the node
/// under the key `head` of step `t`.
pub open spec fn steps_run(
    edges: Map<u32, usize>,
    a: Seq<Edge>,
    ids: NodeIds,
    lo: int,
    hi: int,
    tail: usize,
    shift: int,
    head: usize,
) -> bool {
    forall|t: u32|
        lo <= t < hi ==> (#[trigger] a[edges[t] as int]).to == ids[(head, t as usize)] && a[edges[t]
            + 1].to == ids[(tail, (t - shift) as usize)]
}

/// The table holds, for every step from `lo` up to `hi`, the handle of a pair
/// of `a` whose capacity is `first_cap` on step 0 and `cap` on every other.
pub open spec fn steps_capped(
    edges: Map<u32, usize>,
    a: Seq<Edge>,
    lo: int,
    hi: int,
    first_cap: int,
    cap: int,
) -> bool {
    forall|t: u32|
        lo <= t < hi ==> #[trigger] edges.contains_key(t) && handle_ok(a, edges[t] as int)
            && pair_capacity(a, edges[t] as int / 2) == if t == 0 {
            first_cap
        } else {
            cap
        }
}

/// Something that reads a part of the schedule off a solved network.
pub trait Blueprint<F, T> {
    /// What the blueprint needs of the network to read it.
    spec fn ready(&self, from: &F) -> bool;

    /// What the part that was read says of the network.
    spec fn built(&self, from: &F, out: &T) -> bool;

    fn construct(&self, from: &F) -> (out: T)
        requires
            self.ready(from),
        ensures
            self.built(from, &out),
    ;
}

/// Reads the flows of the pairs that the table names for the steps from `lo`
/// up to `hi`.
pub fn read_flows(edges: &HashMap<u32, usize>, from: &FlowWrapper, lo: u32, hi: u32) -> (out: Vec<i64>)
    requires
        from.graph().wf(),
        lo <= hi,
        steps_covered(edges@, from.graph().arcs(), lo as int, hi as int),
    ensures
        out@.len() == hi - lo,
        forall|j: int|
            0 <= j < hi - lo ==> {
                &&& #[trigger] out@[j] == pair_flow(
                    from.graph().arcs(),
                    edges@[(lo + j) as u32] as int / 2,
                )
                &&& 0 <= out@[j] <= pair_capacity(
                    from.graph().arcs(),
                    edges@[(lo + j) as u32] as int / 2,
                )
            },
{
    let mut out: Vec<i64> = Vec::new();
    let mut t = lo;
    while t < hi
        invariant
            lo <= t <= hi,
            from.graph().wf(),
            steps_covered(edges@, from.graph().arcs(), lo as int, hi as int),
            out@.len() == t - lo,
            forall|j: int|
                0 <= j < t - lo ==> {
                    &&& #[trigger] out@[j] == pair_flow(
                        from.graph().arcs(),
                        edges@[(lo + j) as u32] as int / 2,
                    )
                    &&& 0 <= out@[j] <= pair_capacity(
                        from.graph().arcs(),
                        edges@[(lo + j) as u32] as int / 2,
                    )
                },
        decreases hi - t,
    {
        assert(edges@.contains_key(t));
        let h = match edges.get(&t) {
            Some(h) => *h,
            None => 0,
        };
        let f = from.get_flow(h);
        out.push(f);
        t += 1;
    }
    out
}

/// The pairs from which the grid import of each step is read.
pub struct NetworkConsumptionBlueprint {
    pub relevant_edges: HashMap<u32, usize>,
}

impl NetworkConsumptionBlueprint {
    /// A blueprint that names no pair yet.
    pub fn new() -> (b: Self)
        ensures
            b.relevant_edges@ == Map::<u32, usize>::empty(),
    {
        NetworkConsumptionBlueprint { relevant_edges: HashMap::new() }
    }

    /// Names the pair from which the import of the step at `time` is read.
    pub fn set_relevant_edge(&mut self, time: Time, edge_id: usize)
        ensures
            final(self).relevant_edges@ == old(self).relevant_edges@.insert(time.minutes, edge_id),
    {
        self.relevant_edges.insert(time.to_timestep(), edge_id);
    }
}

impl Blueprint<FlowWrapper, Prognoses<i64>> for NetworkConsumptionBlueprint {
    open spec fn ready(&self, from: &FlowWrapper) -> bool {
        &&& from.graph().wf()
        &&& steps_covered(self.relevant_edges@, from.graph().arcs(), 0, STEPS_PER_DAY as int)
    }

    open spec fn built(&self, from: &FlowWrapper, out: &Prognoses<i64>) -> bool {
        &&& out.wf()
        &&& forall|t: int|
            0 <= t < STEPS_PER_DAY ==> #[trigger] out.view()[t] == pair_flow(
                from.graph().arcs(),
                self.relevant_edges@[t as u32] as int / 2,
            )
    }

    /// The grid import of each step.
    fn construct(&self, from: &FlowWrapper) -> (out: Prognoses<i64>) {
        let flows = read_flows(&self.relevant_edges, from, 0, STEPS_PER_DAY);
        match Prognoses::new(flows) {
            Some(p) => p,
            None => Prognoses::constant(0),
        }
    }
}

/// The pairs from which the levels of a battery, and what it takes and
/// gives, are read, together with the rates that hold on the first step.
pub struct BatteryBlueprint {
    pub battery: Battery,
    /// For each step from 1 on, the pair that carries the level into it.
    pub relevant_edges: HashMap<u32, usize>,
    /// For each step, the pair from the wire into the battery.
    pub charge_edges: HashMap<u32, usize>,
    /// For each step, the pair from the battery onto the wire.
    pub discharge_edges: HashMap<u32, usize>,
    /// The charge rate that holds on the first step.
    pub first_charge: i64,
    /// The discharge rate that holds on the first step.
    pub first_output: i64,
    /// The pair from the source that holds the initial level, behind which
    /// the other pairs of the battery stand.
    pub first_edge: usize,
}

impl BatteryBlueprint {
    /// A blueprint for `battery` that names no pair yet.
    pub fn new(battery: Battery) -> (b: Self)
        ensures
            b.battery == battery,
            b.relevant_edges@ == Map::<u32, usize>::empty(),
            b.charge_edges@ == Map::<u32, usize>::empty(),
            b.discharge_edges@ == Map::<u32, usize>::empty(),
            b.first_charge == battery.maximum_charge_rate,
            b.first_output == battery.maximum_output_rate,
            b.first_edge == 0,
    {
        BatteryBlueprint {
            battery,
            relevant_edges: HashMap::new(),
            charge_edges: HashMap::new(),
            discharge_edges: HashMap::new(),
            first_charge: battery.maximum_charge_rate,
            first_output: battery.maximum_output_rate,
            first_edge: 0,
        }
    }

    /// Names the pair that carries the level into the step at `time`.
    pub fn set_relevant_edge(&mut self, time: Time, edge_id: usize)
        ensures
            final(self).relevant_edges@ == old(self).relevant_edges@.insert(time.minutes, edge_id),
            final(self).battery == old(self).battery,
            final(self).charge_edges == old(self).charge_edges,
            final(self).discharge_edges == old(self).discharge_edges,
            final(self).first_charge == old(self).first_charge,
            final(self).first_output == old(self).first_output,
            final(self).first_edge == old(self).first_edge,
    {
        self.relevant_edges.insert(time.to_timestep(), edge_id);
    }

    /// Names the pairs over which the battery takes and gives on the step at
    /// `time`.
    pub fn set_rate_edges(&mut self, time: Time, charge: usize, discharge: usize)
        ensures
            final(self).charge_edges@ == old(self).charge_edges@.insert(time.minutes, charge),
            final(self).discharge_edges@ == old(self).discharge_edges@.insert(
                time.minutes,
                discharge,
            ),
            final(self).battery == old(self).battery,
            final(self).relevant_edges == old(self).relevant_edges,
            final(self).first_charge == old(self).first_charge,
            final(self).first_output == old(self).first_output,
            final(self).first_edge == old(self).first_edge,
    {
        self.charge_edges.insert(time.to_timestep(), charge);
        self.discharge_edges.insert(time.to_timestep(), discharge);
    }

    /// The blueprint names a pair of `a` wherever it needs one, and each
    /// named pair has the capacity that the battery gives it: the battery's
    /// capacity where the pair carries the level, its rates where it takes
    /// and gives, those of the first step on step 0.
    pub open spec fn fits(&self, a: Seq<Edge>) -> bool {
        &&& 0 <= self.battery.initial_level <= self.battery.capacity
        &&& steps_capped(
            self.relevant_edges@,
            a,
            1,
            STEPS_PER_DAY as int + 1,
            self.battery.capacity as int,
            self.battery.capacity as int,
        )
        &&& steps_capped(
            self.charge_edges@,
            a,
            0,
            STEPS_PER_DAY as int,
            self.first_charge as int,
            self.battery.maximum_charge_rate as int,
        )
        &&& steps_capped(
            self.discharge_edges@,
            a,
            0,
            STEPS_PER_DAY as int,
            self.first_output as int,
            self.battery.maximum_output_rate as int,
        )
    }

    /// The named pairs run where the battery's energy runs: the pair named
    /// for the level of step `t` from the battery at step `t - 1` to the
    /// battery at step `t`; the pair named for what the battery takes on
    /// step `t` from the wire of step `t` to the battery at step `t`; and
    /// the pair named for what it gives back the other way.
    pub open spec fn wired(&self, a: Seq<Edge>, ids: NodeIds) -> bool {
        let b = (self.battery.id + 4) as usize;
        let f = self.first_edge as int;
        &&& steps_run(self.relevant_edges@, a, ids, 1, STEPS_PER_DAY as int + 1, b, 1, b)
        &&& steps_run(self.charge_edges@, a, ids, 0, STEPS_PER_DAY as int, 0, 0, b)
        &&& steps_run(self.discharge_edges@, a, ids, 0, STEPS_PER_DAY as int, b, 0, 0)
        &&& forall|t: u32| t <= STEPS_PER_DAY ==> #[trigger] ids.contains_key((b, t as usize))
        &&& self.battery.id + 4 <= usize::MAX
        &&& self.placed()
        &&& handle_ok(a, f)
        &&& a[f].to == ids[(b, 0usize)]
        &&& a[f + 1].to == 0
        &&& forall|i: int, t: u32|
            0 <= i < a.len() && t <= STEPS_PER_DAY && (#[trigger] a[i]).to == #[trigger] ids[(
                b,
                t as usize,
            )] ==> f <= i < f + 2 + 6 * STEPS_PER_DAY
    }

    /// The pairs of the battery stand one behind the other: first the pair
    /// from the source that holds the initial level; then, step by step, the
    /// pair over which the battery takes and the pair over which it gives;
    /// then, step by step, the pair that carries the level into the next
    /// step.
    pub open spec fn placed(&self) -> bool {
        let f = self.first_edge as int;
        &&& f % 2 == 0
        &&& forall|t: u32| t < STEPS_PER_DAY ==> #[trigger] self.charge_edges@[t] == f + 2 + 4 * t
        &&& forall|t: u32| t < STEPS_PER_DAY ==> #[trigger] self.discharge_edges@[t] == f + 4 + 4 * t
        &&& forall|t: u32|
            1 <= t <= STEPS_PER_DAY ==> #[trigger] self.relevant_edges@[t] == f + 2 + 4 * STEPS_PER_DAY
                + 2 * (t - 1)
    }

    /// The levels and flows of `out` are those that the named pairs carry.
    pub open spec fn reads(&self, a: Seq<Edge>, out: &AssignedBattery) -> bool {
        &&& out.battery == self.battery
        &&& out.charge_level.wf()
        &&& out.charged.wf()
        &&& out.discharged.wf()
        &&& out.level(0) == self.battery.initial_level
        &&& forall|t: int|
            1 <= t <= STEPS_PER_DAY ==> #[trigger] out.level(t) == pair_flow(
                a,
                self.relevant_edges@[t as u32] as int / 2,
            )
        &&& forall|t: int|
            0 <= t < STEPS_PER_DAY ==> #[trigger] out.charged.view()[t] == pair_flow(
                a,
                self.charge_edges@[t as u32] as int / 2,
            )
        &&& forall|t: int|
            0 <= t < STEPS_PER_DAY ==> #[trigger] out.discharged.view()[t] == pair_flow(
                a,
                self.discharge_edges@[t as u32] as int / 2,
            )
    }
}

impl Blueprint<FlowWrapper, AssignedBattery> for BatteryBlueprint {
    open spec fn ready(&self, from: &FlowWrapper) -> bool {
        &&& from.graph().wf()
        &&& self.fits(from.graph().arcs())
    }

    /// The battery's levels are those the pairs carry, every level lies
    /// between empty and the capacity, and what the battery takes and gives
    /// stays within its rates.
    open spec fn built(&self, from: &FlowWrapper, out: &AssignedBattery) -> bool {
        &&& self.reads(from.graph().arcs(), out)
        &&& out.in_range()
        &&& out.within_rates(self.first_charge as int, self.first_output as int)
    }

    fn construct(&self, from: &FlowWrapper) -> (out: AssignedBattery) {
        let ghost a = from.graph().arcs();
        proof {
            let rel = self.relevant_edges@;
            let cap = self.battery.capacity as int;
            assert(steps_capped(rel, a, 1, STEPS_PER_DAY as int + 1, cap, cap));
            assert forall|t: u32| 1 <= t as int && (t as int) < STEPS_PER_DAY as int + 1
                implies #[trigger] rel.contains_key(t) && handle_ok(a, rel[t] as int) by {
                assert(rel.contains_key(t));
            }
            assert(steps_covered(self.relevant_edges@, a, 1, STEPS_PER_DAY as int + 1));
            assert forall|t: u32| 0 <= t < STEPS_PER_DAY implies #[trigger] self.charge_edges@.contains_key(
                t,
            ) && handle_ok(a, self.charge_edges@[t] as int) by {
                assert(self.charge_edges@.contains_key(t));
            }
            assert forall|t: u32| 0 <= t < STEPS_PER_DAY implies #[trigger] self.discharge_edges@.contains_key(
                t,
            ) && handle_ok(a, self.discharge_edges@[t] as int) by {
                assert(self.discharge_edges@.contains_key(t));
            }
        }
        let tail = read_flows(&self.relevant_edges, from, 1, STEPS_PER_DAY + 1);
        let mut levels: Vec<i64> = Vec::new();
        levels.push(self.battery.initial_level);
        let mut t: usize = 1;
        while t < STEPS_PER_DAY as usize
            invariant
                1 <= t <= STEPS_PER_DAY,
                tail@.len() == STEPS_PER_DAY,
                levels@.len() == t,
                levels@[0] == self.battery.initial_level,
                forall|i: int| 1 <= i < t ==> #[trigger] levels@[i] == tail@[i - 1],
            decreases STEPS_PER_DAY - t,
        {
            levels.push(tail[t - 1]);
            t += 1;
        }
        let final_level = tail[STEPS_PER_DAY as usize - 1];
        let charge_level = match Prognoses::new(levels) {
            Some(p) => p,
            None => Prognoses::constant(0),
        };
        let charged = match Prognoses::new(read_flows(&self.charge_edges, from, 0, STEPS_PER_DAY)) {
            Some(p) => p,
            None => Prognoses::constant(0),
        };
        let discharged = match Prognoses::new(
            read_flows(&self.discharge_edges, from, 0, STEPS_PER_DAY),
        ) {
            Some(p) => p,
            None => Prognoses::constant(0),
        };
        let out = AssignedBattery::new(self.battery, charge_level, final_level, charged, discharged);
        proof {
            assert forall|t: int| 1 <= t <= STEPS_PER_DAY implies #[trigger] out.level(t) == pair_flow(
                a,
                self.relevant_edges@[t as u32] as int / 2,
            ) && 0 <= out.level(t) <= self.battery.capacity by {
                assert(tail@[t - 1] == pair_flow(a, self.relevant_edges@[(1 + (t - 1)) as u32] as int / 2));
                assert(self.relevant_edges@.contains_key(t as u32));
                if t < STEPS_PER_DAY {
                    assert(out.charge_level.view()[t] == tail@[t - 1]);
                }
            }
            assert forall|t: int| 0 <= t <= STEPS_PER_DAY implies 0 <= #[trigger] out.level(t)
                <= out.battery.capacity by {
                if t == 0 {
                    assert(out.charge_level.view()[0] == self.battery.initial_level);
                }
            }
            assert forall|t: int| 0 <= t < STEPS_PER_DAY implies {
                &&& #[trigger] out.charged.view()[t] == pair_flow(
                    a,
                    self.charge_edges@[t as u32] as int / 2,
                )
                &&& 0 <= out.charged.view()[t] <= if t == 0 {
                    self.first_charge as int
                } else {
                    self.battery.maximum_charge_rate as int
                }
                &&& out.discharged.view()[t] == pair_flow(
                    a,
                    self.discharge_edges@[t as u32] as int / 2,
                )
                &&& 0 <= out.discharged.view()[t] <= if t == 0 {
                    self.first_output as int
                } else {
                    self.battery.maximum_output_rate as int
                }
            } by {
                assert(self.charge_edges@.contains_key(t as u32));
                assert(self.discharge_edges@.contains_key(t as u32));
                assert(self.charge_edges@[(0 + t) as u32] == self.charge_edges@[t as u32]);
                assert(self.discharge_edges@[(0 + t) as u32] == self.discharge_edges@[t as u32]);
            }
            assert(out.level(0) == self.battery.initial_level);
        }
        out
    }
}

/// Sum of the values of a series.
pub open spec fn seq_sum(s: Seq<i64>) -> int
    decreases s.len(),
{
    if s.len() == 0 {
        0
    } else {
        seq_sum(s.drop_last()) + s.last()
    }
}

/// A series that holds the flows of a stretch of pairs sums to the flow of
/// the stretch.
pub proof fn lemma_sum_is_flow(a: Seq<Edge>, s: Seq<i64>, lo: int)
    requires
        forall|j: int| 0 <= j < s.len() ==> #[trigger] s[j] == pair_flow(a, lo + j),
    ensures
        seq_sum(s) == flow_between(a, lo, lo + s.len()),
    decreases s.len(),
{
    if s.len() > 0 {
        let r = s.drop_last();
        assert forall|j: int| 0 <= j < r.len() implies #[trigger] r[j] == pair_flow(a, lo + j) by {
            assert(r[j] == s[j]);
        }
        lemma_sum_is_flow(a, r, lo);
        assert(s.last() == s[s.len() - 1]);
    }
}

/// The pairs from which the consumption of a variable load is read: one
/// pair from the wire of each step of the window into the load's
/// accumulator node, followed by the pair from the accumulator to the sink.
pub struct VariableActionBlueprint {
    pub variable_action: VariableAction,
    /// For each step of the window, the pair from the wire into the accumulator.
    pub relevant_edges: HashMap<u32, usize>,
    /// The pair of the first step of the window.
    pub first_edge: usize,
    /// The pair from the accumulator to the sink.
    pub sink_edge: usize,
    /// The accumulator node.
    pub node: usize,
    /// The cap that holds on the first step of the day.
    pub first_cap: i64,
}

impl VariableActionBlueprint {
    /// A blueprint for `variable_action` that names no pair yet.
    pub fn new(variable_action: VariableAction) -> (b: Self)
        ensures
            b.variable_action == variable_action,
            b.relevant_edges@ == Map::<u32, usize>::empty(),
            b.first_cap == variable_action.max_consumption,
    {
        VariableActionBlueprint {
            variable_action,
            relevant_edges: HashMap::new(),
            first_edge: 0,
            sink_edge: 0,
            node: 0,
            first_cap: variable_action.max_consumption,
        }
    }

    /// Names the pair from which the consumption of the step at `time` is read.
    pub fn set_relevant_edge(&mut self, time: Time, edge_id: usize)
        ensures
            final(self).relevant_edges@ == old(self).relevant_edges@.insert(time.minutes, edge_id),
            final(self).variable_action == old(self).variable_action,
            final(self).first_edge == old(self).first_edge,
            final(self).sink_edge == old(self).sink_edge,
            final(self).node == old(self).node,
            final(self).first_cap == old(self).first_cap,
    {
        self.relevant_edges.insert(time.to_timestep(), edge_id);
    }

    /// The cap on what the load takes on step `t`.
    pub open spec fn cap(&self, t: int) -> int {
        if t == 0 {
            self.first_cap as int
        } else {
            self.variable_action.max_consumption as int
        }
    }

    /// Number of steps in the window.
    pub open spec fn span(&self) -> int {
        self.variable_action.end.minutes - self.variable_action.start.minutes
    }

    /// The blueprint's pairs stand in `a` one behind the other and have the
    /// capacities that the load gives them, the accumulator is the node that
    /// the table keeps for the load, and no other arc of `a` touches it.
    pub open spec fn fits(&self, a: Seq<Edge>, ids: NodeIds) -> bool {
        let start = self.variable_action.start.minutes as int;
        let first = self.first_edge as int;
        &&& self.variable_action.wf()
        &&& self.variable_action.end.minutes <= STEPS_PER_DAY
        &&& ids.contains_key((3, self.variable_action.id as usize))
        &&& ids[(3, self.variable_action.id as usize)] == self.node
        &&& self.node >= 2
        &&& handle_ok(a, first)
        &&& self.sink_edge == first + 2 * self.span()
        &&& handle_ok(a, self.sink_edge as int)
        &&& forall|t: u32|
            start <= t < start + self.span() ==> #[trigger] self.relevant_edges@.contains_key(t)
                && self.relevant_edges@[t] == first + 2 * (t - start)
        &&& forall|k: int|
            first / 2 <= k < first / 2 + self.span() ==> (#[trigger] a[2 * k]).to == self.node
        &&& forall|k: int|
            first / 2 <= k < first / 2 + self.span() ==> (#[trigger] a[2 * k + 1]).to != self.node
        &&& forall|k: int|
            first / 2 <= k < first / 2 + self.span() ==> #[trigger] pair_capacity(a, k) == self.cap(
                start + k - first / 2,
            )
        &&& a[self.sink_edge as int].to == 1
        &&& a[self.sink_edge + 1].to == self.node
        &&& pair_capacity(a, self.sink_edge as int / 2) == self.variable_action.total_consumption
        &&& forall|i: int|
            0 <= i < a.len() && (#[trigger] a[i]).to == self.node ==> first <= i <= self.sink_edge + 1
    }

    /// The consumption of `out` is what the named pairs carry.
    pub open spec fn reads(&self, a: Seq<Edge>, out: &AssignedVariableAction) -> bool {
        &&& out.action == self.variable_action
        &&& out.wf()
        &&& forall|j: int|
            0 <= j < self.span() ==> {
                &&& #[trigger] out.consumption@[j] == pair_flow(a, self.first_edge as int / 2 + j)
                &&& 0 <= out.consumption@[j] <= self.cap(self.variable_action.start.minutes + j)
            }
    }
}

impl Blueprint<FlowWrapper, AssignedVariableAction> for VariableActionBlueprint {
    open spec fn ready(&self, from: &FlowWrapper) -> bool {
        &&& from.wf()
        &&& self.fits(from.graph().arcs(), from.ids())
    }

    /// The load's consumption is what the pairs carry, each value within the
    /// cap of its step, and all of it together is what the accumulator
    /// passes on to the sink.
    open spec fn built(&self, from: &FlowWrapper, out: &AssignedVariableAction) -> bool {
        &&& self.reads(from.graph().arcs(), out)
        &&& seq_sum(out.consumption@) == pair_flow(from.graph().arcs(), self.sink_edge as int / 2)
    }

    fn construct(&self, from: &FlowWrapper) -> (out: AssignedVariableAction) {
        let ghost a = from.graph().arcs();
        let start = self.variable_action.get_start().to_timestep();
        let end = self.variable_action.get_end().to_timestep();
        proof {
            assert forall|t: u32| start <= t < end implies #[trigger] self.relevant_edges@.contains_key(
                t,
            ) && handle_ok(a, self.relevant_edges@[t] as int) by {
                assert(start <= t < start + self.span());
                assert(self.relevant_edges@.contains_key(t));
                assert(self.relevant_edges@[t] == self.first_edge + 2 * (t - start));
            }
        }
        let consumption = read_flows(&self.relevant_edges, from, start, end);
        let out = AssignedVariableAction::new(self.variable_action, consumption);
        proof {
            let lo = self.first_edge as int / 2;
            let span = self.span();
            let m = a.len() as int / 2;
            let v = self.node as int;
            assert(2 * lo == self.first_edge);
            assert(2 * (lo + span) == self.sink_edge);
            assert(2 * m == a.len()) by {
                from.graph().lemma_wf();
            }
            assert forall|j: int| 0 <= j < span implies {
                &&& #[trigger] out.consumption@[j] == pair_flow(a, lo + j)
                &&& 0 <= out.consumption@[j] <= self.cap(start + j)
            } by {
                let t = (start + j) as u32;
                assert(self.relevant_edges@.contains_key(t));
                assert(self.relevant_edges@[t] == self.first_edge + 2 * (t - start));
                assert(pair_capacity(a, lo + j) == self.cap(start + (lo + j) - lo));
            }
            lemma_sum_is_flow(a, out.consumption@, lo);
            from.graph().lemma_wf();
            assert(v < from.graph().order());
            assert(excess(a, v) == 0);
            assert forall|i: int| 0 <= i < 2 * lo implies (#[trigger] a[i]).to != v by {
            }
            lemma_excess_skip(a, v, 0, lo);
            lemma_excess_inflow(a, v, lo, lo + span);
            assert(excess_upto(a, v, lo + span + 1) == excess_upto(a, v, lo + span) + excess_term(
                a,
                lo + span,
                v,
            ));
            assert forall|i: int| 2 * (lo + span + 1) <= i < 2 * m implies (#[trigger] a[i]).to
                != v by {
            }
            lemma_excess_skip(a, v, lo + span + 1, m);
        }
        out
    }
}

/// The blueprints of everything that is read off the network.
pub struct SmartHomeBlueprint {
    pub battery_blueprints: Vec<BatteryBlueprint>,
    pub variable_action_blueprints: Vec<VariableActionBlueprint>,
    pub network_consumption_blueprint: NetworkConsumptionBlueprint,
}

impl SmartHomeBlueprint {
    /// A blueprint that reads the grid import and nothing else yet.
    pub fn new(network_consumption_blueprint: NetworkConsumptionBlueprint) -> (b: Self)
        ensures
            b.network_consumption_blueprint == network_consumption_blueprint,
            b.battery_blueprints@.len() == 0,
            b.variable_action_blueprints@.len() == 0,
    {
        SmartHomeBlueprint {
            battery_blueprints: Vec::new(),
            variable_action_blueprints: Vec::new(),
            network_consumption_blueprint,
        }
    }

    /// Adds the blueprint of a battery.
    pub fn add_battery_blueprint(&mut self, battery_blueprint: BatteryBlueprint)
        ensures
            final(self).battery_blueprints@ == old(self).battery_blueprints@.push(battery_blueprint),
            final(self).variable_action_blueprints == old(self).variable_action_blueprints,
            final(self).network_consumption_blueprint == old(self).network_consumption_blueprint,
    {
        self.battery_blueprints.push(battery_blueprint);
    }

    /// Adds the blueprint of a variable load.
    pub fn add_variable_action_blueprint(&mut self, variable_action_blueprint: VariableActionBlueprint)
        ensures
            final(self).variable_action_blueprints@ == old(self).variable_action_blueprints@.push(
                variable_action_blueprint,
            ),
            final(self).battery_blueprints == old(self).battery_blueprints,
            final(self).network_consumption_blueprint == old(self).network_consumption_blueprint,
    {
        self.variable_action_blueprints.push(variable_action_blueprint);
    }

    /// Every blueprint fits the network, the pair named for the import of a
    /// step runs from the node of grid import to the wire of the step, the
    /// pairs named for a battery run between its nodes and the wires, and
    /// no two batteries and no two variable loads share an id.
    pub open spec fn fits(&self, a: Seq<Edge>, ids: NodeIds) -> bool {
        &&& steps_covered(self.network_consumption_blueprint.relevant_edges@, a, 0, STEPS_PER_DAY as int)
        &&& import_wired(self.network_consumption_blueprint.relevant_edges@, a, ids, STEPS_PER_DAY as int)
        &&& ids.contains_key((1usize, 0usize))
        &&& forall|t: u32| t < STEPS_PER_DAY ==> #[trigger] ids.contains_key((0usize, t as usize))
        &&& forall|k: int|
            0 <= k < self.battery_blueprints@.len() ==> (#[trigger] self.battery_blueprints@[k]).fits(a)
        &&& forall|k: int|
            0 <= k < self.battery_blueprints@.len() ==> (#[trigger] self.battery_blueprints@[k]).wired(
                a,
                ids,
            )
        &&& forall|k: int|
            0 <= k < self.variable_action_blueprints@.len()
                ==> (#[trigger] self.variable_action_blueprints@[k]).fits(a, ids)
        &&& forall|j: int, k: int|
            0 <= j < k < self.battery_blueprints@.len() ==> (#[trigger] self.battery_blueprints@[j]).battery.id
                != (#[trigger] self.battery_blueprints@[k]).battery.id
        &&& forall|j: int, k: int|
            0 <= j < k < self.variable_action_blueprints@.len()
                ==> (#[trigger] self.variable_action_blueprints@[j]).variable_action.id
                != (#[trigger] self.variable_action_blueprints@[k]).variable_action.id
    }
}

impl Blueprint<FlowWrapper, Schedule> for SmartHomeBlueprint {
    open spec fn ready(&self, from: &FlowWrapper) -> bool {
        &&& from.wf()
        &&& self.fits(from.graph().arcs(), from.ids())
    }

    /// The schedule holds the grid import, each battery and each variable
    /// load under its id, each read as its blueprint says, and no constant
    /// load.
    open spec fn built(&self, from: &FlowWrapper, out: &Schedule) -> bool {
        &&& self.network_consumption_blueprint.built(from, &out.network_consumption)
        &&& out.constant_actions@ == Map::<
            u32,
            crate::optimizer_context::action::constant::AssignedConstantAction,
        >::empty()
        &&& forall|k: int|
            0 <= k < self.battery_blueprints@.len() ==> {
                let bp = #[trigger] self.battery_blueprints@[k];
                out.batteries@.contains_key(bp.battery.id) && bp.built(
                    from,
                    &out.batteries@[bp.battery.id],
                )
            }
        &&& forall|id: u32| #[trigger]
            out.batteries@.contains_key(id) ==> exists|k: int|
                0 <= k < self.battery_blueprints@.len() && (#[trigger] self.battery_blueprints@[k]).battery.id
                    == id
        &&& forall|k: int|
            0 <= k < self.variable_action_blueprints@.len() ==> {
                let bp = #[trigger] self.variable_action_blueprints@[k];
                out.variable_actions@.contains_key(bp.variable_action.id) && bp.built(
                    from,
                    &out.variable_actions@[bp.variable_action.id],
                )
            }
        &&& forall|id: u32| #[trigger]
            out.variable_actions@.contains_key(id) ==> exists|k: int|
                0 <= k < self.variable_action_blueprints@.len()
                    && (#[trigger] self.variable_action_blueprints@[k]).variable_action.id == id
    }

    fn construct(&self, from: &FlowWrapper) -> (out: Schedule) {
        let mut batteries: HashMap<u32, AssignedBattery> = HashMap::new();
        let mut i: usize = 0;
        while i < self.battery_blueprints.len()
            invariant
                i <= self.battery_blueprints@.len(),
                self.ready(from),
                forall|k: int|
                    0 <= k < i ==> {
                        let bp = #[trigger] self.battery_blueprints@[k];
                        batteries@.contains_key(bp.battery.id) && bp.built(
                            from,
                            &batteries@[bp.battery.id],
                        )
                    },
                forall|id: u32| #[trigger]
                    batteries@.contains_key(id) ==> exists|k: int|
                        0 <= k < i && (#[trigger] self.battery_blueprints@[k]).battery.id == id,
            decreases self.battery_blueprints@.len() - i,
        {
            let bp = &self.battery_blueprints[i];
            let ghost before = batteries@;
            let b = bp.construct(from);
            batteries.insert(bp.battery.get_id(), b);
            proof {
                assert forall|k: int| 0 <= k < i + 1 implies {
                    let bq = #[trigger] self.battery_blueprints@[k];
                    batteries@.contains_key(bq.battery.id) && bq.built(from, &batteries@[bq.battery.id])
                } by {
                    if k < i {
                        let bq = self.battery_blueprints@[k];
                        assert(bq.battery.id != self.battery_blueprints@[i as int].battery.id);
                        assert(before.contains_key(bq.battery.id));
                    }
                }
                assert forall|id: u32| #[trigger] batteries@.contains_key(id) implies exists|k: int|
                    0 <= k < i + 1 && (#[trigger] self.battery_blueprints@[k]).battery.id == id by {
                    if id == bp.battery.id {
                        assert(self.battery_blueprints@[i as int].battery.id == id);
                    } else {
                        assert(before.contains_key(id));
                        let k = choose|k: int|
                            0 <= k < i && (#[trigger] self.battery_blueprints@[k]).battery.id == id;
                        assert(self.battery_blueprints@[k].battery.id == id);
                    }
                }
            }
            i += 1;
        }
        let mut variable_actions: HashMap<u32, AssignedVariableAction> = HashMap::new();
        let mut i: usize = 0;
        while i < self.variable_action_blueprints.len()
            invariant
                i <= self.variable_action_blueprints@.len(),
                self.ready(from),
                forall|k: int|
                    0 <= k < i ==> {
                        let bp = #[trigger] self.variable_action_blueprints@[k];
                        variable_actions@.contains_key(bp.variable_action.id) && bp.built(
                            from,
                            &variable_actions@[bp.variable_action.id],
                        )
                    },
                forall|id: u32| #[trigger]
                    variable_actions@.contains_key(id) ==> exists|k: int|
                        0 <= k < i && (#[trigger] self.variable_action_blueprints@[k]).variable_action.id
                            == id,
            decreases self.variable_action_blueprints@.len() - i,
        {
            let bp = &self.variable_action_blueprints[i];
            let ghost before = variable_actions@;
            let v = bp.construct(from);
            variable_actions.insert(bp.variable_action.get_id(), v);
            proof {
                assert forall|k: int| 0 <= k < i + 1 implies {
                    let bq = #[trigger] self.variable_action_blueprints@[k];
                    variable_actions@.contains_key(bq.variable_action.id) && bq.built(
                        from,
                        &variable_actions@[bq.variable_action.id],
                    )
                } by {
                    if k < i {
                        let bq = self.variable_action_blueprints@[k];
                        assert(bq.variable_action.id
                            != self.variable_action_blueprints@[i as int].variable_action.id);
                        assert(before.contains_key(bq.variable_action.id));
                    }
                }
                assert forall|id: u32| #[trigger] variable_actions@.contains_key(id) implies exists|
                    k: int,
                |
                    0 <= k < i + 1 && (#[trigger] self.variable_action_blueprints@[k]).variable_action.id
                        == id by {
                    if id == bp.variable_action.id {
                        assert(self.variable_action_blueprints@[i as int].variable_action.id == id);
                    } else {
                        assert(before.contains_key(id));
                        let k = choose|k: int|
                            0 <= k < i && (#[trigger] self.variable_action_blueprints@[k]).variable_action.id
                                == id;
                        assert(self.variable_action_blueprints@[k].variable_action.id == id);
                    }
                }
            }
            i += 1;
        }
        let network_consumption = self.network_consumption_blueprint.construct(from);
        Schedule::new(HashMap::new(), variable_actions, batteries, network_consumption)
    }
}

} // verus!
