use crate::optimizer_context::action::constant::AssignedConstantAction;
use crate::optimizer_context::action::variable::AssignedVariableAction;
use crate::optimizer_context::battery::AssignedBattery;
use crate::optimizer_context::prognoses::Prognoses;
use std::collections::HashMap;
use vstd::prelude::*;

verus! {

broadcast use vstd::std_specs::hash::group_hash_axioms;

/// What an optimisation decides: for each constant load its start, for each
/// variable load what it consumes on each step, for each battery its levels,
/// and what is drawn from the grid on each step. Loads and batteries are
/// found by id.
pub struct Schedule {
    pub constant_actions: HashMap<u32, AssignedConstantAction>,
    pub variable_actions: HashMap<u32, AssignedVariableAction>,
    pub batteries: HashMap<u32, AssignedBattery>,
    pub network_consumption: Prognoses<i64>,
}

impl Schedule {
    /// The schedule that holds the given parts.
    pub fn new(
        constant_actions: HashMap<u32, AssignedConstantAction>,
        variable_actions: HashMap<u32, AssignedVariableAction>,
        batteries: HashMap<u32, AssignedBattery>,
        network_consumption: Prognoses<i64>,
    ) -> (s: Self)
        ensures
            s.constant_actions == constant_actions,
            s.variable_actions == variable_actions,
            s.batteries == batteries,
            s.network_consumption == network_consumption,
    {
        Schedule { constant_actions, variable_actions, batteries, network_consumption }
    }

    /// Replaces the assigned constant loads.
    pub fn set_constant_actions(&mut self, actions: HashMap<u32, AssignedConstantAction>)
        ensures
            final(self).constant_actions == actions,
            final(self).variable_actions == old(self).variable_actions,
            final(self).batteries == old(self).batteries,
            final(self).network_consumption == old(self).network_consumption,
    {
        self.constant_actions = actions;
    }

    /// The variable load with id `id`, if the schedule holds one.
    pub fn get_variable_action(&self, id: u32) -> (r: Option<&AssignedVariableAction>)
        ensures
            match r {
                Some(a) => self.variable_actions@.contains_key(id) && *a == self.variable_actions@[id],
                None => !self.variable_actions@.contains_key(id),
            },
    {
        self.variable_actions.get(&id)
    }

    /// The constant load with id `id`, if the schedule holds one.
    pub fn get_constant_action(&self, id: u32) -> (r: Option<&AssignedConstantAction>)
        ensures
            match r {
                Some(a) => self.constant_actions@.contains_key(id) && *a == self.constant_actions@[id],
                None => !self.constant_actions@.contains_key(id),
            },
    {
        self.constant_actions.get(&id)
    }

    /// The battery with id `id`, if the schedule holds one.
    pub fn get_battery(&self, id: u32) -> (r: Option<&AssignedBattery>)
        ensures
            match r {
                Some(a) => self.batteries@.contains_key(id) && *a == self.batteries@[id],
                None => !self.batteries@.contains_key(id),
            },
    {
        self.batteries.get(&id)
    }
}

} // verus!
