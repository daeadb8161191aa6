use crate::error::OptimizeError;
use crate::optimizer::blueprint::{seq_sum, Blueprint};
use crate::optimizer::builder::{
    batteries_refusal, forecast_refusal, lemma_grown_trans, lemma_wires, variables_refusal,
    SmartHomeFlowBuilder,
};
use crate::optimizer::flow::mcmf::Edge;
use crate::optimizer::flow::wrapper::NodeIds;
use crate::optimizer::loads::{
    drop_load, holds, lemma_drop_load, lemma_put_load, lemma_rank, load_ok, loads_ok, put_load, rank,
};
use crate::optimizer::network::{
    batteries_arcs, forecast_arcs, lemma_batteries_grown, lemma_forecast_grown, variables_arcs,
};
use crate::optimizer::smart_home::{
    constant_energy, series_cost, SmartHomeFlow, MAX_CONSTANT_ACTIONS,
};
use crate::optimizer_context::action::constant::{AssignedConstantAction, ConstantAction};
use crate::optimizer_context::action::variable::VariableAction;
use crate::optimizer_context::battery::Battery;
use crate::optimizer_context::OptimizerContext;
use crate::schedule::Schedule;
use crate::time::STEPS_PER_DAY;
use std::collections::HashMap;
use vstd::prelude::*;

verus! {

broadcast use vstd::std_specs::hash::group_hash_axioms;

/// The table holds exactly the loads of the list, each under its id.
pub open spec fn mirrors(
    table: Map<u32, AssignedConstantAction>,
    loads: Seq<AssignedConstantAction>,
) -> bool {
    &&& forall|i: int|
        0 <= i < loads.len() ==> table.contains_key((#[trigger] loads[i]).action.id)
            && table[loads[i].action.id] == loads[i]
    &&& forall|id: u32| #[trigger]
        table.contains_key(id) ==> exists|i: int|
            0 <= i < loads.len() && (#[trigger] loads[i]).action.id == id
}

/// Taking up a load in the table and in the list keeps the two alike.
pub proof fn lemma_mirrors_put(
    table: Map<u32, AssignedConstantAction>,
    loads: Seq<AssignedConstantAction>,
    a: AssignedConstantAction,
)
    requires
        mirrors(table, loads),
        loads_ok(loads),
        load_ok(a),
    ensures
        mirrors(table.insert(a.action.id, a), put_load(loads, a)),
{
    let id = a.action.id;
    let r = rank(loads, id);
    let p = put_load(loads, a);
    let t2 = table.insert(id, a);
    lemma_rank(loads, id);
    lemma_put_load(loads, a);
    assert forall|i: int| 0 <= i < p.len() implies t2.contains_key((#[trigger] p[i]).action.id)
        && t2[p[i].action.id] == p[i] by {
        if i != r {
            let i0 = if holds(loads, id) || i < r {
                i
            } else {
                i - 1
            };
            assert(p[i] == loads[i0]);
            assert(table.contains_key(loads[i0].action.id));
            if i < r {
                assert(p[i].action.id < p[r].action.id);
            } else {
                assert(p[r].action.id < p[i].action.id);
            }
        }
    }
    assert forall|x: u32| #[trigger] t2.contains_key(x) implies exists|i: int|
        0 <= i < p.len() && (#[trigger] p[i]).action.id == x by {
        if x == id {
            assert(p[r].action.id == x);
        } else {
            assert(table.contains_key(x));
            let i0 = choose|i: int| 0 <= i < loads.len() && (#[trigger] loads[i]).action.id == x;
            let i = if holds(loads, id) || i0 < r {
                i0
            } else {
                i0 + 1
            };
            assert(p[i] == loads[i0]);
        }
    }
}

/// Giving up a load in the table and in the list keeps the two alike.
pub proof fn lemma_mirrors_drop(
    table: Map<u32, AssignedConstantAction>,
    loads: Seq<AssignedConstantAction>,
    id: u32,
)
    requires
        mirrors(table, loads),
        loads_ok(loads),
    ensures
        mirrors(table.remove(id), drop_load(loads, id)),
        table.contains_key(id) == holds(loads, id),
        holds(loads, id) ==> table[id] == loads[rank(loads, id)],
{
    let r = rank(loads, id);
    let d = drop_load(loads, id);
    let t2 = table.remove(id);
    lemma_rank(loads, id);
    lemma_drop_load(loads, id);
    if table.contains_key(id) {
        let i0 = choose|i: int| 0 <= i < loads.len() && (#[trigger] loads[i]).action.id == id;
        if i0 < r {
            assert(loads[i0].action.id < id);
        } else if i0 > r {
            assert(loads[r].action.id < loads[i0].action.id);
        }
    }
    if holds(loads, id) {
        assert(table.contains_key(loads[r].action.id));
    }
    assert forall|i: int| 0 <= i < d.len() implies t2.contains_key((#[trigger] d[i]).action.id)
        && t2[d[i].action.id] == d[i] by {
        let i0 = if !holds(loads, id) || i < r {
            i
        } else {
            i + 1
        };
        assert(d[i] == loads[i0]);
        assert(table.contains_key(loads[i0].action.id));
        if holds(loads, id) {
            if i0 < r {
                assert(loads[i0].action.id < loads[r].action.id);
            } else {
                assert(loads[r].action.id < loads[i0].action.id);
            }
        } else {
            if i0 < r {
                assert(loads[i0].action.id < id);
            } else if r < loads.len() {
                assert(loads[i0].action.id >= id);
                if i0 == r {
                } else {
                    assert(loads[r].action.id < loads[i0].action.id);
                }
            }
        }
    }
    assert forall|x: u32| #[trigger] t2.contains_key(x) implies exists|i: int|
        0 <= i < d.len() && (#[trigger] d[i]).action.id == x by {
        assert(table.contains_key(x));
        let i0 = choose|i: int| 0 <= i < loads.len() && (#[trigger] loads[i]).action.id == x;
        let i = if !holds(loads, id) || i0 < r {
            i0
        } else {
            i0 - 1
        };
        assert(d[i] == loads[i0]);
    }
}

/// What the annealing works on: the start that each constant load has at
/// the moment, the ids of the loads for drawing one at random, and the
/// network that prices these starts.
pub struct State {
    pub constant_actions: HashMap<u32, AssignedConstantAction>,
    pub constant_action_ids: Vec<u32>,
    pub smart_home_flow: SmartHomeFlow,
}

/// The constant load `c` at the earliest start that its window allows.
pub open spec fn earliest(c: ConstantAction) -> AssignedConstantAction {
    AssignedConstantAction { action: c, start_time: c.start_from }
}

/// The constant loads, each at its earliest start, in the order of their ids.
pub open spec fn placed(loads: Seq<ConstantAction>) -> Seq<AssignedConstantAction>
    decreases loads.len(),
{
    if loads.len() == 0 {
        Seq::empty()
    } else {
        put_load(placed(loads.drop_last()), earliest(loads.last()))
    }
}

/// Whether one of the constant loads has the id `id`.
pub open spec fn holds_constant_id(held: Seq<ConstantAction>, id: u32) -> bool {
    exists|k: int| 0 <= k < held.len() && (#[trigger] held[k]).id == id
}

/// Why the constant load `c` is refused behind the loads `held`, if it is:
/// checked in this order, a negative consumption; a window that the load
/// does not fit or that ends after the day; an id that one of `held` has;
/// more constant loads than a network takes.
pub open spec fn constant_refusal_for(held: Seq<ConstantAction>, c: ConstantAction) -> Option<
    OptimizeError,
> {
    if c.consumption < 0 {
        Some(OptimizeError::ConstantNegative(c.id))
    } else if c.start_from.minutes + c.duration.minutes > c.end_before.minutes
        || c.end_before.minutes > STEPS_PER_DAY {
        Some(OptimizeError::ConstantWindow(c.id))
    } else if holds_constant_id(held, c.id) {
        Some(OptimizeError::DuplicateId(c.id))
    } else if held.len() >= MAX_CONSTANT_ACTIONS {
        Some(OptimizeError::TooLarge)
    } else {
        None
    }
}

/// Why the constant loads `loads`, taken in turn behind `held`, are
/// refused, if they are: the refusal of the first that is refused.
pub open spec fn constants_refusal(held: Seq<ConstantAction>, loads: Seq<ConstantAction>) -> Option<
    OptimizeError,
>
    decreases loads.len(),
{
    if loads.len() == 0 {
        None
    } else {
        match constant_refusal_for(held, loads.first()) {
            Some(e) => Some(e),
            None => constants_refusal(held.push(loads.first()), loads.drop_first()),
        }
    }
}

/// Why a context is refused, if it is: the refusal of its forecasts, else
/// of its batteries, else of its variable loads, else of its constant loads.
pub open spec fn context_refusal(context: &OptimizerContext) -> Option<OptimizeError> {
    let forecasts = forecast_refusal(
        context.generated_electricity.view(),
        context.electricity_price.view(),
        context.beyond_control_consumption.view(),
        context.first_timestep_fraction,
    );
    let batteries = batteries_refusal(Seq::empty(), context.batteries@);
    let variables = variables_refusal(
        Seq::empty(),
        seq_sum(context.beyond_control_consumption.view()),
        context.variable_actions@,
    );
    if forecasts is Some {
        forecasts
    } else if batteries is Some {
        batteries
    } else if variables is Some {
        variables
    } else {
        constants_refusal(Seq::empty(), context.constant_actions@)
    }
}

/// The network of a context without its constant loads, over the nodes of
/// the table `ids`: the pairs of the forecasts, then those of the batteries,
/// then those of the variable loads, each in the order of the context.
pub open spec fn context_arcs(ids: NodeIds, context: &OptimizerContext) -> Seq<Edge> {
    forecast_arcs(
        ids,
        context.generated_electricity.view(),
        context.electricity_price.view(),
        context.beyond_control_consumption.view(),
        STEPS_PER_DAY as int,
    ) + batteries_arcs(
        ids,
        context.first_timestep_fraction,
        context.batteries@,
        context.batteries@.len() as int,
    ) + variables_arcs(
        ids,
        context.first_timestep_fraction,
        context.variable_actions@,
        context.variable_actions@.len() as int,
    )
}

impl State {
    /// The state at which the annealing starts: the network of the
    /// context, and every constant load at the earliest start that its
    /// window allows.
    pub fn new(context: OptimizerContext) -> (r: Result<State, OptimizeError>)
        ensures
            match r {
                Ok(s) => {
                    &&& context_refusal(&context) is None
                    &&& s.wf()
                    &&& s.complete()
                    &&& s.loads() == placed(context.constant_actions@)
                    &&& s.constant_action_ids@.len() == context.constant_actions@.len()
                    &&& forall|i: int|
                        0 <= i < context.constant_actions@.len() ==> #[trigger] s.constant_action_ids@[i]
                            == context.constant_actions@[i].id
                    &&& s.smart_home_flow.prices@ == context.electricity_price.view()
                    &&& s.smart_home_flow.calc_result is None
                    &&& s.smart_home_flow.base().graph().arcs() == context_arcs(
                        s.smart_home_flow.base().ids(),
                        &context,
                    )
                },
                Err(e) => context_refusal(&context) == Some(e),
            },
    {
        let builder = match SmartHomeFlowBuilder::new(
            context.get_generated_electricity(),
            context.get_electricity_price(),
            context.get_beyond_control_consumption(),
            context.get_first_timestep_fraction(),
        ) {
            Ok(b) => b,
            Err(e) => {
                return Err(e);
            },
        };
        proof {
            assert(builder.held_batteries() =~= Seq::<Battery>::empty());
            assert(builder.held_variables() =~= Seq::<VariableAction>::empty());
        }
        let ghost b0 = builder;
        let builder = match builder.add_batteries(context.get_batteries()) {
            Ok(b) => b,
            Err(e) => {
                return Err(e);
            },
        };
        proof {
            assert(builder.held_variables() =~= Seq::<VariableAction>::empty());
        }
        let ghost b1 = builder;
        let builder = match builder.add_actions(context.get_variable_actions()) {
            Ok(b) => b,
            Err(e) => {
                return Err(e);
            },
        };
        let ghost built = builder.flow;
        proof {
            let ids = built.ids();
            let gen = context.generated_electricity.view();
            let price = context.electricity_price.view();
            let cons = context.beyond_control_consumption.view();
            let f = context.first_timestep_fraction;
            lemma_grown_trans(b0.flow.ids(), b1.flow.ids(), ids);
            lemma_wires(b0.flow.ids(), STEPS_PER_DAY as int);
            lemma_forecast_grown(b0.flow.ids(), ids, gen, price, cons, STEPS_PER_DAY as int);
            lemma_wires(b1.flow.ids(), STEPS_PER_DAY as int);
            lemma_batteries_grown(
                b1.flow.ids(),
                ids,
                f,
                context.batteries@,
                context.batteries@.len() as int,
            );
            assert(built.graph().arcs() =~= context_arcs(ids, &context));
        }
        let mut state = State {
            constant_actions: HashMap::new(),
            constant_action_ids: Vec::new(),
            smart_home_flow: builder.build(),
        };
        let constants = context.get_constant_actions();
        let ghost prices = state.smart_home_flow.prices@;
        let mut i: usize = 0;
        proof {
            assert(constants@.skip(0) =~= constants@);
            assert(constants@.take(0) =~= Seq::<ConstantAction>::empty());
        }
        while i < constants.len()
            invariant
                i <= constants@.len(),
                constants@ == context.constant_actions@,
                context_refusal(&context) == constants_refusal(Seq::empty(), constants@),
                constants_refusal(Seq::empty(), constants@) == constants_refusal(
                    constants@.take(i as int),
                    constants@.skip(i as int),
                ),
                state.wf(),
                state.complete(),
                state.loads() == placed(constants@.take(i as int)),
                state.loads().len() <= i,
                state.constant_action_ids@.len() == i,
                forall|k: int| 0 <= k < i ==> #[trigger] state.constant_action_ids@[k] == constants@[k].id,
                forall|id: u32|
                    holds(state.loads(), id) <==> holds_constant_id(constants@.take(i as int), id),
                state.smart_home_flow.prices@ == prices,
                state.smart_home_flow.calc_result is None,
                state.smart_home_flow.base() == built,
            decreases constants@.len() - i,
        {
            let c = constants[i];
            let ghost held = constants@.take(i as int);
            let ghost rest = constants@.skip(i as int);
            let ghost before = state;
            proof {
                assert(rest.first() == c);
                assert(rest.drop_first() =~= constants@.skip(i + 1));
                assert(held.push(c) =~= constants@.take(i + 1));
                assert(constants@.take(i + 1).drop_last() =~= held);
            }
            if c.get_consumption() < 0 {
                return Err(OptimizeError::ConstantNegative(c.get_id()));
            }
            if c.get_start_from().get_minutes() as u64 + c.get_duration().get_minutes() as u64
                > c.get_end_before().get_minutes() as u64 || c.get_end_before().get_minutes()
                > STEPS_PER_DAY {
                return Err(OptimizeError::ConstantWindow(c.get_id()));
            }
            if state.has_constant_action(c.get_id()) {
                return Err(OptimizeError::DuplicateId(c.get_id()));
            }
            if i >= MAX_CONSTANT_ACTIONS {
                return Err(OptimizeError::TooLarge);
            }
            let assigned = c.with_start_time(c.get_start_from());
            state.add_constant_action(assigned);
            state.constant_action_ids.push(c.get_id());
            proof {
                let loads = state.loads();
                lemma_put_load(before.loads(), assigned);
                assert(assigned == earliest(c));
                assert forall|id: u32| holds(loads, id) <==> holds_constant_id(
                    constants@.take(i + 1),
                    id,
                ) by {
                    lemma_mirrors_drop(state.constant_actions@, loads, id);
                    lemma_mirrors_drop(before.constant_actions@, before.loads(), id);
                    if holds_constant_id(constants@.take(i + 1), id) {
                        let k = choose|k: int|
                            0 <= k < i + 1 && (#[trigger] constants@.take(i + 1)[k]).id == id;
                        if k < i {
                            assert(held[k].id == id);
                        }
                    }
                    if holds(loads, id) && id != c.id {
                        assert(holds_constant_id(held, id));
                        let k = choose|k: int| 0 <= k < held.len() && (#[trigger] held[k]).id == id;
                        assert(constants@.take(i + 1)[k].id == id);
                    }
                    if id == c.id {
                        assert(constants@.take(i + 1)[i as int].id == id);
                    }
                }
                assert forall|k: int| 0 <= k < state.constant_action_ids@.len() implies holds(
                    loads,
                    #[trigger] state.constant_action_ids@[k],
                ) by {
                    let id = state.constant_action_ids@[k];
                    assert(constants@.take(i + 1)[k].id == id);
                    assert(holds_constant_id(constants@.take(i + 1), id));
                }
            }
            i += 1;
        }
        proof {
            assert(constants@.take(constants@.len() as int) =~= constants@);
        }
        Ok(state)
    }

    /// The constant loads with their starts, in the order of their ids.
    pub open spec fn loads(&self) -> Seq<AssignedConstantAction> {
        self.smart_home_flow.constant_actions@
    }

    /// The invariant: the network is in order and the table of loads holds
    /// what the network holds.
    pub open spec fn wf(&self) -> bool {
        &&& self.smart_home_flow.wf()
        &&& mirrors(self.constant_actions@, self.loads())
    }

    /// Every id in the list of ids has its load.
    pub open spec fn complete(&self) -> bool {
        forall|i: int|
            0 <= i < self.constant_action_ids@.len() ==> holds(
                self.loads(),
                #[trigger] self.constant_action_ids@[i],
            )
    }

    /// Takes up a constant load with its start, in place of the load with
    /// the same id if there is one.
    pub fn add_constant_action(&mut self, action: AssignedConstantAction)
        requires
            old(self).wf(),
            load_ok(action),
        ensures
            final(self).wf(),
            final(self).loads() == put_load(old(self).loads(), action),
            final(self).constant_actions@ == old(self).constant_actions@.insert(
                action.action.id,
                action,
            ),
            final(self).constant_action_ids == old(self).constant_action_ids,
            final(self).smart_home_flow.flow == old(self).smart_home_flow.flow,
            final(self).smart_home_flow.blueprint == old(self).smart_home_flow.blueprint,
            final(self).smart_home_flow.demand == old(self).smart_home_flow.demand,
            final(self).smart_home_flow.prices == old(self).smart_home_flow.prices,
            final(self).smart_home_flow.calc_result is None,
    {
        proof {
            lemma_mirrors_put(self.constant_actions@, self.loads(), action);
        }
        self.smart_home_flow.add_constant_consumption(action);
        self.constant_actions.insert(action.get_id(), action);
    }

    /// Gives up the constant load with id `action_id` and returns it, if
    /// there is one.
    pub fn remove_constant_action(&mut self, action_id: u32) -> (r: Option<AssignedConstantAction>)
        requires
            old(self).wf(),
        ensures
            final(self).wf(),
            final(self).loads() == drop_load(old(self).loads(), action_id),
            final(self).constant_actions@ == old(self).constant_actions@.remove(action_id),
            final(self).constant_action_ids == old(self).constant_action_ids,
            final(self).smart_home_flow.flow == old(self).smart_home_flow.flow,
            final(self).smart_home_flow.blueprint == old(self).smart_home_flow.blueprint,
            final(self).smart_home_flow.demand == old(self).smart_home_flow.demand,
            final(self).smart_home_flow.prices == old(self).smart_home_flow.prices,
            final(self).smart_home_flow.calc_result is None,
            r is Some <==> holds(old(self).loads(), action_id),
            r matches Some(a) ==> a == old(self).loads()[rank(old(self).loads(), action_id)],
    {
        proof {
            lemma_mirrors_drop(self.constant_actions@, self.loads(), action_id);
        }
        self.constant_actions.remove(&action_id);
        self.smart_home_flow.remove_constant_consumption(action_id)
    }

    /// The constant load with id `action_id`, which the state must hold.
    pub fn get_constant_action(&self, action_id: u32) -> (a: &AssignedConstantAction)
        requires
            self.wf(),
            holds(self.loads(), action_id),
        ensures
            *a == self.loads()[rank(self.loads(), action_id)],
            a.action.id == action_id,
            load_ok(*a),
    {
        proof {
            lemma_mirrors_drop(self.constant_actions@, self.loads(), action_id);
            lemma_rank(self.loads(), action_id);
        }
        match self.constant_actions.get(&action_id) {
            Some(a) => a,
            None => &self.smart_home_flow.constant_actions[0],
        }
    }

    /// Whether the state holds a constant load with id `action_id`.
    pub fn has_constant_action(&self, action_id: u32) -> (r: bool)
        requires
            self.wf(),
        ensures
            r == holds(self.loads(), action_id),
    {
        proof {
            lemma_mirrors_drop(self.constant_actions@, self.loads(), action_id);
        }
        self.constant_actions.contains_key(&action_id)
    }

    /// The ids of the constant loads.
    pub fn get_constant_action_ids(&self) -> (ids: &Vec<u32>)
        ensures
            *ids == self.constant_action_ids,
    {
        &self.constant_action_ids
    }

    /// The least cost at which the demand of the day is met with the constant
    /// loads where they stand; see `SmartHomeFlow::get_cost`.
    pub fn get_cost(&mut self) -> (r: Result<i64, OptimizeError>)
        requires
            old(self).wf(),
        ensures
            final(self).wf(),
            final(self).loads() == old(self).loads(),
            final(self).constant_actions == old(self).constant_actions,
            final(self).constant_action_ids == old(self).constant_action_ids,
            final(self).smart_home_flow.base() == old(self).smart_home_flow.base(),
            final(self).smart_home_flow.blueprint == old(self).smart_home_flow.blueprint,
            final(self).smart_home_flow.demand == old(self).smart_home_flow.demand,
            final(self).smart_home_flow.prices == old(self).smart_home_flow.prices,
            old(self).smart_home_flow.calc_result matches Some(c) ==> r == Ok::<i64, OptimizeError>(c),
            match r {
                Ok(c) => final(self).smart_home_flow.calc_result == Some(c) && final(self).smart_home_flow.solved(c as int),
                Err(e) => final(self).smart_home_flow.calc_result is None && final(self).smart_home_flow.fails_with(e),
            },
    {
        self.smart_home_flow.get_cost()
    }

    /// The schedule of least cost with the constant loads where they stand:
    /// what `SmartHomeFlow::get_schedule` gives, with the constant loads and
    /// their starts added.
    pub fn get_schedule(&mut self) -> (r: Result<Schedule, OptimizeError>)
        requires
            old(self).wf(),
        ensures
            final(self).wf(),
            final(self).loads() == old(self).loads(),
            final(self).constant_actions == old(self).constant_actions,
            final(self).constant_action_ids == old(self).constant_action_ids,
            final(self).smart_home_flow.base() == old(self).smart_home_flow.base(),
            final(self).smart_home_flow.blueprint == old(self).smart_home_flow.blueprint,
            final(self).smart_home_flow.demand == old(self).smart_home_flow.demand,
            final(self).smart_home_flow.prices == old(self).smart_home_flow.prices,
            old(self).smart_home_flow.calc_result is Some ==> r is Ok,
            match r {
                Ok(s) => {
                    &&& s.constant_actions@ == final(self).constant_actions@
                    &&& final(self).smart_home_flow.calc_result matches Some(c) && final(self).smart_home_flow.solved(c as int) && c == series_cost(
                        final(self).smart_home_flow.prices@,
                        s.network_consumption.view(),
                        STEPS_PER_DAY as int,
                    ) + constant_energy(final(self).loads())
                    &&& final(self).smart_home_flow.blueprint.network_consumption_blueprint.built(
                        &final(self).smart_home_flow.top(),
                        &s.network_consumption,
                    )
                    &&& final(self).smart_home_flow.parts_built(&s)
                    &&& final(self).smart_home_flow.totals_met(&s)
                    &&& final(self).smart_home_flow.levels_balanced(&s)
                },
                Err(e) => final(self).smart_home_flow.calc_result is None && final(self).smart_home_flow.fails_with(e),
            },
    {
        let mut schedule = match self.smart_home_flow.get_schedule() {
            Ok(s) => s,
            Err(e) => {
                return Err(e);
            },
        };
        schedule.set_constant_actions(self.constant_actions.clone());
        Ok(schedule)
    }
}

} // verus!
