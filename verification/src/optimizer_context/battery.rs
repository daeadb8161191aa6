use crate::optimizer_context::prognoses::Prognoses;
use crate::time::{Time, STEPS_PER_DAY};
use vstd::prelude::*;

verus! {

/// A battery: how much it holds, how much it holds at the start of the day,
/// and how fast it charges and discharges.
#[derive(Clone, Copy, Debug)]
pub struct Battery {
    /// The most energy the battery holds.
    pub capacity: i64,
    /// The energy in the battery at the start of the day.
    pub initial_level: i64,
    /// The most energy the battery takes in one timestep.
    pub maximum_charge_rate: i64,
    /// The most energy the battery gives in one timestep.
    pub maximum_output_rate: i64,
    /// Identity of the battery.
    pub id: u32,
}

impl Battery {
    /// The battery does not start above its capacity.
    pub open spec fn wf(&self) -> bool {
        self.initial_level <= self.capacity
    }

    /// A battery. Its initial level must not exceed its capacity.
    pub fn new(
        capacity: i64,
        initial_level: i64,
        maximum_charge_rate: i64,
        maximum_output_rate: i64,
        id: u32,
    ) -> (b: Self)
        requires
            initial_level <= capacity,
        ensures
            b.wf(),
            b == (Battery { capacity, initial_level, maximum_charge_rate, maximum_output_rate, id }),
    {
        Battery { capacity, initial_level, maximum_charge_rate, maximum_output_rate, id }
    }

    /// The id of the battery.
    pub fn get_id(&self) -> (id: u32)
        ensures
            id == self.id,
    {
        self.id
    }

    /// The most energy the battery takes in one timestep.
    pub fn get_max_charge(&self) -> (r: i64)
        ensures
            r == self.maximum_charge_rate,
    {
        self.maximum_charge_rate
    }

    /// The most energy the battery gives in one timestep.
    pub fn get_max_output(&self) -> (r: i64)
        ensures
            r == self.maximum_output_rate,
    {
        self.maximum_output_rate
    }

    /// The most energy the battery holds.
    pub fn get_capacity(&self) -> (r: i64)
        ensures
            r == self.capacity,
    {
        self.capacity
    }

    /// The energy in the battery at the start of the day.
    pub fn get_initial_level(&self) -> (r: i64)
        ensures
            r == self.initial_level,
    {
        self.initial_level
    }
}

/// A battery with the energy it holds at the start of each timestep and at
/// the end of the day, and with what it takes from and gives to the wire on
/// each timestep.
#[derive(Debug)]
pub struct AssignedBattery {
    pub battery: Battery,
    pub charge_level: Prognoses<i64>,
    pub final_level: i64,
    /// Energy that the battery takes on each step.
    pub charged: Prognoses<i64>,
    /// Energy that the battery gives on each step.
    pub discharged: Prognoses<i64>,
}

impl AssignedBattery {
    /// The level at step `t`, for `t` from 0 up to and including the number
    /// of steps of the day.
    pub open spec fn level(&self, t: int) -> int {
        if t < STEPS_PER_DAY {
            self.charge_level.view()[t] as int
        } else {
            self.final_level as int
        }
    }

    /// From step 1 on, the level at the start of a step is the level at the
    /// start of the step before, plus what the battery took and less what it
    /// gave on that step. So from one step to the next the level rises by
    /// no more than the battery took and falls by no more than it gave.
    pub open spec fn balanced(&self) -> bool {
        forall|t: int|
            1 <= t < STEPS_PER_DAY ==> #[trigger] self.level(t + 1) - self.level(t) == self.charged.view()[t]
                - self.discharged.view()[t]
    }

    /// Every level lies between empty and the battery's capacity.
    pub open spec fn in_range(&self) -> bool {
        forall|t: int| 0 <= t <= STEPS_PER_DAY ==> 0 <= #[trigger] self.level(t) <= self.battery.capacity
    }

    /// On every step the battery takes at most `charge_cap(t)` and gives at
    /// most `output_cap(t)`.
    pub open spec fn within_rates(&self, first_charge: int, first_output: int) -> bool {
        forall|t: int|
            0 <= t < STEPS_PER_DAY ==> {
                &&& 0 <= #[trigger] self.charged.view()[t] <= if t == 0 {
                    first_charge
                } else {
                    self.battery.maximum_charge_rate as int
                }
                &&& 0 <= self.discharged.view()[t] <= if t == 0 {
                    first_output
                } else {
                    self.battery.maximum_output_rate as int
                }
            }
    }

    /// The battery with its levels and what it takes and gives.
    pub fn new(
        battery: Battery,
        charge_level: Prognoses<i64>,
        final_level: i64,
        charged: Prognoses<i64>,
        discharged: Prognoses<i64>,
    ) -> (a: Self)
        ensures
            a.battery == battery,
            a.charge_level == charge_level,
            a.final_level == final_level,
            a.charged == charged,
            a.discharged == discharged,
    {
        AssignedBattery { battery, charge_level, final_level, charged, discharged }
    }

    /// The battery without its levels.
    pub fn get_battery(&self) -> (b: &Battery)
        ensures
            *b == self.battery,
    {
        &self.battery
    }

    /// The level at the start of the step that holds `time`; `None` after
    /// the day.
    pub fn get_charge_level(&self, time: Time) -> (r: Option<&i64>)
        ensures
            match r {
                Some(v) => time.minutes < self.charge_level.view().len() && *v
                    == self.charge_level.view()[time.minutes as int],
                None => time.minutes >= self.charge_level.view().len(),
            },
    {
        self.charge_level.get(time)
    }

    /// The level at the end of the day.
    pub fn get_final_level(&self) -> (r: i64)
        ensures
            r == self.final_level,
    {
        self.final_level
    }
}

impl Clone for AssignedBattery {
    fn clone(&self) -> (r: Self)
        ensures
            r.battery == self.battery,
            r.final_level == self.final_level,
            r.charge_level.view() == self.charge_level.view(),
            r.charged.view() == self.charged.view(),
            r.discharged.view() == self.discharged.view(),
    {
        let r = AssignedBattery {
            battery: self.battery,
            charge_level: self.charge_level.clone(),
            final_level: self.final_level,
            charged: self.charged.clone(),
            discharged: self.discharged.clone(),
        };
        assert(r.charge_level.view() =~= self.charge_level.view());
        assert(r.charged.view() =~= self.charged.view());
        assert(r.discharged.view() =~= self.discharged.view());
        r
    }
}

/// From one step to the next, from step 1 on, the level of a battery
/// whose levels are balanced and whose flows stay within its rates rises
/// by no more than the charge rate and falls by no more than the discharge
/// rate.
pub proof fn lemma_level_steps(out: &AssignedBattery, first_charge: int, first_output: int, t: int)
    requires
        out.balanced(),
        out.within_rates(first_charge, first_output),
        1 <= t < STEPS_PER_DAY,
    ensures
        out.level(t + 1) - out.level(t) <= out.battery.maximum_charge_rate,
        out.level(t) - out.level(t + 1) <= out.battery.maximum_output_rate,
{
    assert(out.level(t + 1) - out.level(t) == out.charged.view()[t] - out.discharged.view()[t]);
    assert(0 <= out.charged.view()[t] <= out.battery.maximum_charge_rate);
    assert(0 <= out.discharged.view()[t] <= out.battery.maximum_output_rate);
}

} // verus!
