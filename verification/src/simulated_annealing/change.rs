use crate::optimizer::loads::loads_ok;
use crate::optimizer_context::action::constant::AssignedConstantAction;
use crate::simulated_annealing::state::State;
use vstd::prelude::*;

pub mod multi_change;
pub mod random_move;

verus! {

/// The loads of the state changed from `before` to `after`, and nothing
/// else did but the cost that was kept, which is forgotten.
pub open spec fn only_loads_changed(before: &State, after: &State) -> bool {
    &&& after.constant_action_ids == before.constant_action_ids
    &&& after.smart_home_flow.base() == before.smart_home_flow.base()
    &&& after.smart_home_flow.blueprint == before.smart_home_flow.blueprint
    &&& after.smart_home_flow.demand == before.smart_home_flow.demand
    &&& after.smart_home_flow.prices == before.smart_home_flow.prices
}

/// A change of the starts of constant loads that can be applied to a state
/// and taken back.
pub trait Change {
    /// Whether the change can be applied to these loads, and taken back.
    spec fn fits(&self, loads: Seq<AssignedConstantAction>) -> bool;

    /// Whether the change was drawn against these loads: the starts it
    /// remembers are the starts the loads have.
    spec fn recorded(&self, loads: Seq<AssignedConstantAction>) -> bool;

    /// The loads after the change.
    spec fn applied(&self, loads: Seq<AssignedConstantAction>) -> Seq<AssignedConstantAction>;

    /// The loads after the change was taken back.
    spec fn undone(&self, loads: Seq<AssignedConstantAction>) -> Seq<AssignedConstantAction>;

    /// Applies the change to the state.
    fn apply(&self, state: &mut State)
        requires
            old(state).wf(),
            self.fits(old(state).loads()),
        ensures
            final(state).wf(),
            final(state).loads() == self.applied(old(state).loads()),
            self.fits(final(state).loads()),
            only_loads_changed(old(state), final(state)),
    ;

    /// Takes the change back.
    fn undo(&self, state: &mut State)
        requires
            old(state).wf(),
            self.fits(old(state).loads()),
        ensures
            final(state).wf(),
            final(state).loads() == self.undone(old(state).loads()),
            self.fits(final(state).loads()),
            only_loads_changed(old(state), final(state)),
    ;

    /// A change that is applied to the loads it was drawn against and then
    /// taken back leaves the loads exactly as they were.
    proof fn lemma_undo_restores(&self, loads: Seq<AssignedConstantAction>)
        requires
            loads_ok(loads),
            self.fits(loads),
            self.recorded(loads),
        ensures
            self.undone(self.applied(loads)) == loads,
    ;
}

} // verus!
