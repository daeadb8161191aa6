use crate::time::Time;
use vstd::prelude::*;

verus! {

/// A load of fixed power and fixed duration that may be shifted in time
/// inside its window.
#[derive(Clone, Copy, Debug)]
pub struct ConstantAction {
    /// The earliest time at which the load may start.
    pub start_from: Time,
    /// The time before which the load must have ended.
    pub end_before: Time,
    /// How long the load runs.
    pub duration: Time,
    /// Energy per timestep while the load runs.
    pub consumption: i64,
    /// Identity of the load.
    pub id: u32,
}

impl ConstantAction {
    /// The load fits its window.
    pub open spec fn wf(&self) -> bool {
        self.start_from.minutes + self.duration.minutes <= self.end_before.minutes
    }

    /// The latest step at which the load may start.
    pub open spec fn latest_start(&self) -> int {
        self.end_before.minutes - self.duration.minutes
    }

    /// A constant load. It must fit its window.
    pub fn new(start_from: Time, end_before: Time, duration: Time, consumption: i64, id: u32) -> (a:
        Self)
        requires
            start_from.minutes + duration.minutes <= end_before.minutes,
        ensures
            a.wf(),
            a == (ConstantAction { start_from, end_before, duration, consumption, id }),
    {
        ConstantAction { start_from, end_before, duration, consumption, id }
    }

    /// The earliest time at which the load may start.
    pub fn get_start_from(&self) -> (t: Time)
        ensures
            t == self.start_from,
    {
        self.start_from
    }

    /// The time before which the load must have ended.
    pub fn get_end_before(&self) -> (t: Time)
        ensures
            t == self.end_before,
    {
        self.end_before
    }

    /// How long the load runs.
    pub fn get_duration(&self) -> (t: Time)
        ensures
            t == self.duration,
    {
        self.duration
    }

    /// The id of the load.
    pub fn get_id(&self) -> (id: u32)
        ensures
            id == self.id,
    {
        self.id
    }

    /// Energy per timestep while the load runs.
    pub fn get_consumption(&self) -> (c: i64)
        ensures
            c == self.consumption,
    {
        self.consumption
    }

    /// Whether the load may start at `start_time`.
    pub fn admits(&self, start_time: Time) -> (ok: bool)
        ensures
            ok == (self.start_from.minutes <= start_time.minutes && start_time.minutes
                + self.duration.minutes <= self.end_before.minutes),
    {
        start_time.minutes >= self.start_from.minutes && self.duration.minutes
            <= self.end_before.minutes && start_time.minutes <= self.end_before.minutes
            - self.duration.minutes
    }

    /// The load, placed at `start_time`, which must lie in its window.
    pub fn with_start_time(self, start_time: Time) -> (a: AssignedConstantAction)
        requires
            self.start_from.minutes <= start_time.minutes,
            start_time.minutes + self.duration.minutes <= self.end_before.minutes,
        ensures
            a.wf(),
            a.action == self,
            a.start_time == start_time,
    {
        AssignedConstantAction::new(self, start_time)
    }
}

/// A constant load with its chosen start. It runs on the steps from
/// `start_time` up to `start_time + duration`.
#[derive(Clone, Copy, Debug)]
pub struct AssignedConstantAction {
    pub action: ConstantAction,
    pub start_time: Time,
}

impl AssignedConstantAction {
    /// The start lies in the load's window.
    pub open spec fn wf(&self) -> bool {
        &&& self.action.start_from.minutes <= self.start_time.minutes
        &&& self.start_time.minutes + self.action.duration.minutes
            <= self.action.end_before.minutes
    }

    /// The first step on which the load runs.
    pub open spec fn start_step(&self) -> int {
        self.start_time.minutes as int
    }

    /// The step after the last on which the load runs.
    pub open spec fn end_step(&self) -> int {
        self.start_time.minutes + self.action.duration.minutes
    }

    /// The load `action` placed at `start_time`, which must lie in its window.
    pub fn new(action: ConstantAction, start_time: Time) -> (a: Self)
        requires
            action.start_from.minutes <= start_time.minutes,
            start_time.minutes + action.duration.minutes <= action.end_before.minutes,
        ensures
            a.wf(),
            a.action == action,
            a.start_time == start_time,
    {
        AssignedConstantAction { action, start_time }
    }

    /// The start of the load.
    pub fn get_start_time(&self) -> (t: Time)
        ensures
            t == self.start_time,
    {
        self.start_time
    }

    /// The start, to be written in place.
    pub fn get_start_time_mut(&mut self) -> (t: &mut Time)
        ensures
            *t == old(self).start_time,
            final(self).start_time == *final(t),
            final(self).action == old(self).action,
    {
        &mut self.start_time
    }

    /// The load without its start.
    pub fn get_action(&self) -> (a: &ConstantAction)
        ensures
            *a == self.action,
    {
        &self.action
    }

    /// The time at which the load ends.
    pub fn get_end_time(&self) -> (t: Time)
        requires
            self.wf(),
        ensures
            t.minutes == self.end_step(),
    {
        Time { minutes: self.start_time.minutes + self.action.duration.minutes }
    }

    /// The id of the load.
    pub fn get_id(&self) -> (id: u32)
        ensures
            id == self.action.id,
    {
        self.action.id
    }

    /// Energy per timestep while the load runs.
    pub fn get_consumption(&self) -> (c: i64)
        ensures
            c == self.action.consumption,
    {
        self.action.consumption
    }
}

impl PartialEq for AssignedConstantAction {
    /// Two assignments are the same when load id and start agree.
    fn eq(&self, other: &Self) -> (r: bool) {
        self.action.id == other.action.id && self.start_time.minutes == other.start_time.minutes
    }
}

impl vstd::std_specs::cmp::PartialEqSpecImpl for AssignedConstantAction {
    open spec fn obeys_eq_spec() -> bool {
        true
    }

    open spec fn eq_spec(&self, other: &Self) -> bool {
        self.action.id == other.action.id && self.start_time.minutes == other.start_time.minutes
    }
}

impl Eq for AssignedConstantAction {

}

} // verus!
