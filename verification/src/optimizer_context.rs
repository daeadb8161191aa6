use crate::optimizer_context::action::constant::{AssignedConstantAction, ConstantAction};
use crate::optimizer_context::action::variable::VariableAction;
use crate::optimizer_context::battery::Battery;
use crate::optimizer_context::fraction::StepFraction;
use crate::optimizer_context::prognoses::{raised, Prognoses};
use crate::time::STEPS_PER_DAY;
use vstd::prelude::*;

pub mod action;
pub mod battery;
pub mod fraction;
pub mod prognoses;

verus! {

/// Everything an optimisation is given: the three forecasts, the batteries,
/// the loads and the part of the first timestep that is left.
pub struct OptimizerContext {
    /// Price of one unit of energy from the grid, by timestep.
    pub electricity_price: Prognoses<i64>,
    /// Energy generated on site, by timestep.
    pub generated_electricity: Prognoses<i64>,
    /// Energy consumed beyond the optimiser's control, by timestep.
    pub beyond_control_consumption: Prognoses<i64>,
    pub batteries: Vec<Battery>,
    pub constant_actions: Vec<ConstantAction>,
    pub variable_actions: Vec<VariableAction>,
    pub first_timestep_fraction: StepFraction,
}

impl OptimizerContext {
    /// The context that holds the given parts.
    pub fn new(
        electricity_price: Prognoses<i64>,
        generated_electricity: Prognoses<i64>,
        beyond_control_consumption: Prognoses<i64>,
        batteries: Vec<Battery>,
        constant_actions: Vec<ConstantAction>,
        variable_actions: Vec<VariableAction>,
        first_timestep_fraction: StepFraction,
    ) -> (c: Self)
        ensures
            c.electricity_price == electricity_price,
            c.generated_electricity == generated_electricity,
            c.beyond_control_consumption == beyond_control_consumption,
            c.batteries == batteries,
            c.constant_actions == constant_actions,
            c.variable_actions == variable_actions,
            c.first_timestep_fraction == first_timestep_fraction,
    {
        OptimizerContext {
            electricity_price,
            generated_electricity,
            beyond_control_consumption,
            batteries,
            constant_actions,
            variable_actions,
            first_timestep_fraction,
        }
    }

    /// The constant loads.
    pub fn get_constant_actions(&self) -> (r: &Vec<ConstantAction>)
        ensures
            *r == self.constant_actions,
    {
        &self.constant_actions
    }

    /// The variable loads.
    pub fn get_variable_actions(&self) -> (r: &Vec<VariableAction>)
        ensures
            *r == self.variable_actions,
    {
        &self.variable_actions
    }

    /// The batteries.
    pub fn get_batteries(&self) -> (r: &Vec<Battery>)
        ensures
            *r == self.batteries,
    {
        &self.batteries
    }

    /// Counts an assigned constant load as consumption beyond control on the
    /// steps on which it runs.
    pub fn add_constant_action_to_consumption(&mut self, action: &AssignedConstantAction)
        requires
            old(self).beyond_control_consumption.wf(),
            action.wf(),
            action.end_step() <= STEPS_PER_DAY,
            forall|t: int|
                action.start_step() <= t < action.end_step() ==> i64::MIN <= #[trigger] old(
                    self,
                ).beyond_control_consumption.view()[t] + action.action.consumption <= i64::MAX,
        ensures
            final(self).beyond_control_consumption.view() == raised(
                old(self).beyond_control_consumption.view(),
                action.start_step(),
                action.end_step(),
                action.action.consumption as int,
            ),
            final(self).electricity_price == old(self).electricity_price,
            final(self).generated_electricity == old(self).generated_electricity,
            final(self).batteries == old(self).batteries,
            final(self).constant_actions == old(self).constant_actions,
            final(self).variable_actions == old(self).variable_actions,
            final(self).first_timestep_fraction == old(self).first_timestep_fraction,
    {
        self.beyond_control_consumption.add_constant_action(action);
    }

    /// The price of energy from the grid, by timestep.
    pub fn get_electricity_price(&self) -> (r: &Prognoses<i64>)
        ensures
            *r == self.electricity_price,
    {
        &self.electricity_price
    }

    /// The energy generated on site, by timestep.
    pub fn get_generated_electricity(&self) -> (r: &Prognoses<i64>)
        ensures
            *r == self.generated_electricity,
    {
        &self.generated_electricity
    }

    /// The energy consumed beyond control, by timestep.
    pub fn get_beyond_control_consumption(&self) -> (r: &Prognoses<i64>)
        ensures
            *r == self.beyond_control_consumption,
    {
        &self.beyond_control_consumption
    }

    /// The part of the first timestep that is left.
    pub fn get_first_timestep_fraction(&self) -> (r: StepFraction)
        ensures
            r == self.first_timestep_fraction,
    {
        self.first_timestep_fraction
    }
}

} // verus!
