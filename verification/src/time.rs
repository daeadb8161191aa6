use vstd::prelude::*;

verus! {

/// Length of one timestep in minutes.
pub const MINUTES_PER_TIMESTEP: u32 = 1;

/// Number of timesteps in the planning horizon of one day.
pub const STEPS_PER_DAY: u32 = 1440;

/// A point on the time grid, held as minutes since the start of the horizon.
#[derive(Clone, Copy, Debug, PartialEq, Eq, Structural, PartialOrd, Ord, Hash)]
pub struct Time {
    pub minutes: u32,
}

impl Time {
    /// The time `hours:minutes` after the start of the horizon.
    pub fn new(hours: u32, minutes: u32) -> (t: Time)
        requires
            hours * 60 + minutes <= u32::MAX,
        ensures
            t.minutes == hours * 60 + minutes,
    {
        Time { minutes: hours * 60 + minutes }
    }

    /// Index of the timestep that contains this time.
    pub fn to_timestep(&self) -> (step: u32)
        ensures
            step == self.minutes / MINUTES_PER_TIMESTEP,
            step == self.minutes,
    {
        self.minutes / MINUTES_PER_TIMESTEP
    }

    /// The time at which timestep `timestep` begins.
    pub fn from_timestep(timestep: u32) -> (t: Time)
        ensures
            t.minutes == timestep * MINUTES_PER_TIMESTEP,
            t.minutes == timestep,
    {
        Time { minutes: timestep * MINUTES_PER_TIMESTEP }
    }

    /// Minutes since the start of the horizon.
    pub fn get_minutes(&self) -> (m: u32)
        ensures
            m == self.minutes,
    {
        self.minutes
    }

    /// The time at which the timestep after this one begins.
    pub fn get_next_timestep(&self) -> (t: Time)
        requires
            self.minutes + MINUTES_PER_TIMESTEP <= u32::MAX,
        ensures
            t.minutes == self.minutes + MINUTES_PER_TIMESTEP,
    {
        Time { minutes: self.minutes + MINUTES_PER_TIMESTEP }
    }

    /// The end of the horizon: the time at which the step after the last begins.
    pub fn get_day_end() -> (t: Time)
        ensures
            t.minutes == STEPS_PER_DAY * MINUTES_PER_TIMESTEP,
    {
        Time { minutes: STEPS_PER_DAY * MINUTES_PER_TIMESTEP }
    }
}

impl core::ops::Add<Time> for Time {
    type Output = Time;

    fn add(self, other: Time) -> (sum: Time) {
        Time { minutes: self.minutes + other.minutes }
    }
}

impl vstd::std_specs::ops::AddSpecImpl<Time> for Time {
    open spec fn obeys_add_spec() -> bool {
        true
    }

    open spec fn add_req(self, other: Time) -> bool {
        self.minutes + other.minutes <= u32::MAX
    }

    open spec fn add_spec(self, other: Time) -> Time {
        Time { minutes: (self.minutes + other.minutes) as u32 }
    }
}

impl core::ops::Sub<Time> for Time {
    type Output = Time;

    fn sub(self, other: Time) -> (diff: Time) {
        Time { minutes: self.minutes - other.minutes }
    }
}

impl vstd::std_specs::ops::SubSpecImpl<Time> for Time {
    open spec fn obeys_sub_spec() -> bool {
        true
    }

    open spec fn sub_req(self, other: Time) -> bool {
        self.minutes >= other.minutes
    }

    open spec fn sub_spec(self, other: Time) -> Time {
        Time { minutes: (self.minutes - other.minutes) as u32 }
    }
}

} // verus!
