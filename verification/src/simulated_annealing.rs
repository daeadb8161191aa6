use crate::error::OptimizeError;
use crate::optimizer::smart_home::{lemma_same_loads_same_cost, lemma_solved_stays_solvable};
use crate::optimizer_context::action::constant::AssignedConstantAction;
use crate::simulated_annealing::change::{only_loads_changed, Change};
use crate::simulated_annealing::state::{mirrors, State};
use vstd::prelude::*;

pub mod change;
pub mod state;

verus! {

/// Whether a change that led from the cost `old_cost` to the cost
/// `new_cost` is kept: always when it lowers the cost, else when the draw
/// against the acceptance probability came out in its favour.
pub open spec fn accepted(old_cost: i64, new_cost: i64, drawn: bool) -> bool {
    new_cost < old_cost || drawn
}

/// Whether a change that led from `old_cost` to `new_cost` needs a draw to
/// be kept: every change that lowers the cost is kept without one.
pub fn needs_draw(old_cost: i64, new_cost: i64) -> (r: bool)
    ensures
        r == !(new_cost < old_cost),
{
    new_cost >= old_cost
}

/// By how much the change raised the cost.
pub fn cost_rise(old_cost: i64, new_cost: i64) -> (d: i128)
    ensures
        d == new_cost - old_cost,
{
    new_cost as i128 - old_cost as i128
}

/// Settles one step of the annealing after `change` was applied and
/// priced: keeps the change and its cost if it is accepted, else takes the
/// change back and keeps the cost from before. Returns the cost that is
/// kept.
pub fn settle<C: Change>(state: &mut State, change: &C, old_cost: i64, new_cost: i64, drawn: bool) -> (kept:
    i64)
    requires
        old(state).wf(),
        change.fits(old(state).loads()),
    ensures
        final(state).wf(),
        change.fits(final(state).loads()),
        only_loads_changed(old(state), final(state)),
        accepted(old_cost, new_cost, drawn) ==> kept == new_cost && *final(state) == *old(state),
        !accepted(old_cost, new_cost, drawn) ==> kept == old_cost && final(state).loads()
            == change.undone(old(state).loads()),
{
    if new_cost < old_cost || drawn {
        new_cost
    } else {
        change.undo(state);
        old_cost
    }
}

/// A table is told by the loads it mirrors.
pub proof fn lemma_mirrors_unique(
    a: Map<u32, AssignedConstantAction>,
    b: Map<u32, AssignedConstantAction>,
    loads: Seq<AssignedConstantAction>,
)
    requires
        mirrors(a, loads),
        mirrors(b, loads),
    ensures
        a == b,
{
    assert forall|id: u32| a.contains_key(id) == b.contains_key(id) by {
        if a.contains_key(id) {
            let i = choose|i: int| 0 <= i < loads.len() && (#[trigger] loads[i]).action.id == id;
            assert(b.contains_key(loads[i].action.id));
        }
        if b.contains_key(id) {
            let i = choose|i: int| 0 <= i < loads.len() && (#[trigger] loads[i]).action.id == id;
            assert(a.contains_key(loads[i].action.id));
        }
    }
    assert forall|id: u32| a.contains_key(id) implies a[id] == b[id] by {
        let i = choose|i: int| 0 <= i < loads.len() && (#[trigger] loads[i]).action.id == id;
        assert(a[loads[i].action.id] == loads[i]);
        assert(b[loads[i].action.id] == loads[i]);
    }
    assert(a =~= b);
}

/// Taking a change back restores the state: a state `after` that came from
/// the state `before` by applying a change drawn against `before` and then
/// taking it back holds the same loads at the same starts, in its list and
/// in its table, over the same network. What a solve makes of the state
/// depends on nothing else.
pub proof fn lemma_undo_restores_state<C: Change>(before: &State, after: &State, change: &C)
    requires
        before.wf(),
        after.wf(),
        change.fits(before.loads()),
        change.recorded(before.loads()),
        only_loads_changed(before, after),
        after.loads() == change.undone(change.applied(before.loads())),
    ensures
        after.loads() == before.loads(),
        after.constant_actions@ == before.constant_actions@,
        after.constant_action_ids == before.constant_action_ids,
        after.smart_home_flow.base() == before.smart_home_flow.base(),
        after.smart_home_flow.blueprint == before.smart_home_flow.blueprint,
        after.smart_home_flow.demand == before.smart_home_flow.demand,
        after.smart_home_flow.prices == before.smart_home_flow.prices,
{
    change.lemma_undo_restores(before.loads());
    lemma_mirrors_unique(after.constant_actions@, before.constant_actions@, before.loads());
}

/// Taking a change back restores the cost: a solve of a state that came
/// from the state `before` by applying a change drawn against `before` and
/// then taking it back finds the cost that a solve of `before` finds.
pub proof fn lemma_undo_restores_cost<C: Change>(
    before: &State,
    cost_before: int,
    after: &State,
    cost_after: int,
    change: &C,
)
    requires
        before.wf(),
        after.wf(),
        before.smart_home_flow.solved(cost_before),
        after.smart_home_flow.solved(cost_after),
        change.fits(before.loads()),
        change.recorded(before.loads()),
        only_loads_changed(before, after),
        after.loads() == change.undone(change.applied(before.loads())),
    ensures
        cost_after == cost_before,
{
    lemma_undo_restores_state(before, after, change);
    lemma_same_loads_same_cost(
        &before.smart_home_flow,
        cost_before,
        &after.smart_home_flow,
        cost_after,
    );
}

/// Taking a change back keeps the state solvable: where the state
/// `before` was solved, a solve of a state that came from it by applying a
/// change drawn against `before` and then taking it back fails with no
/// error, as long as prices and demand are modest.
pub proof fn lemma_undo_keeps_solvable<C: Change>(
    before: &State,
    cost_before: int,
    after: &State,
    change: &C,
    e: OptimizeError,
)
    requires
        before.wf(),
        after.wf(),
        before.smart_home_flow.solved(cost_before),
        after.smart_home_flow.modest(),
        change.fits(before.loads()),
        change.recorded(before.loads()),
        only_loads_changed(before, after),
        after.loads() == change.undone(change.applied(before.loads())),
    ensures
        !after.smart_home_flow.fails_with(e),
{
    lemma_undo_restores_state(before, after, change);
    lemma_solved_stays_solvable(&before.smart_home_flow, cost_before, &after.smart_home_flow, e);
}

} // verus!
