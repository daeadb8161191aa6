use crate::time::Time;
use vstd::prelude::*;

verus! {

/// A load that must consume a total amount of energy inside a window, with a
/// cap on what it takes in one timestep.
#[derive(Clone, Copy, Debug)]
pub struct VariableAction {
    /// The first time at which the load may consume.
    pub start: Time,
    /// The time from which the load may consume no more.
    pub end: Time,
    /// The energy that the load must consume over its window.
    pub total_consumption: i64,
    /// The most the load may consume in one timestep.
    pub max_consumption: i64,
    /// Identity of the load.
    pub id: u32,
}

impl VariableAction {
    /// The window is not empty.
    pub open spec fn wf(&self) -> bool {
        self.start.minutes < self.end.minutes
    }

    /// A variable load. Its window must not be empty.
    pub fn new(start: Time, end: Time, total_consumption: i64, max_consumption: i64, id: u32) -> (a:
        Self)
        requires
            start.minutes < end.minutes,
        ensures
            a.wf(),
            a == (VariableAction { start, end, total_consumption, max_consumption, id }),
    {
        VariableAction { start, end, total_consumption, max_consumption, id }
    }

    /// The first time at which the load may consume.
    pub fn get_start(&self) -> (t: Time)
        ensures
            t == self.start,
    {
        self.start
    }

    /// The time from which the load may consume no more.
    pub fn get_end(&self) -> (t: Time)
        ensures
            t == self.end,
    {
        self.end
    }

    /// The id of the load.
    pub fn get_id(&self) -> (id: u32)
        ensures
            id == self.id,
    {
        self.id
    }

    /// The energy that the load must consume over its window.
    pub fn get_total_consumption(&self) -> (c: i64)
        ensures
            c == self.total_consumption,
    {
        self.total_consumption
    }

    /// The most the load may consume in one timestep.
    pub fn get_max_consumption(&self) -> (c: i64)
        ensures
            c == self.max_consumption,
    {
        self.max_consumption
    }
}

/// A variable load with what it consumes on each step of its window.
#[derive(Debug)]
pub struct AssignedVariableAction {
    pub action: VariableAction,
    pub consumption: Vec<i64>,
}

impl AssignedVariableAction {
    /// There is one consumption value for each step of the window.
    pub open spec fn wf(&self) -> bool {
        &&& self.action.wf()
        &&& self.consumption@.len() == self.action.end.minutes - self.action.start.minutes
    }

    /// The load with its consumption, one value for each step of its window.
    pub fn new(action: VariableAction, consumption: Vec<i64>) -> (a: Self)
        requires
            action.wf(),
            consumption@.len() == action.end.minutes - action.start.minutes,
        ensures
            a.wf(),
            a.action == action,
            a.consumption@ == consumption@,
    {
        AssignedVariableAction { action, consumption }
    }

    /// What the load consumes on the step that holds `time`, which must lie
    /// in the window.
    pub fn get_consumption(&self, time: Time) -> (c: i64)
        requires
            self.wf(),
            self.action.start.minutes <= time.minutes < self.action.end.minutes,
        ensures
            c == self.consumption@[time.minutes - self.action.start.minutes],
    {
        let index = (time.to_timestep() - self.action.start.to_timestep()) as usize;
        self.consumption[index]
    }

    /// The load without its consumption.
    pub fn get_action(&self) -> (a: &VariableAction)
        ensures
            *a == self.action,
    {
        &self.action
    }

    /// The id of the load.
    pub fn get_id(&self) -> (id: u32)
        ensures
            id == self.action.id,
    {
        self.action.id
    }
}

impl Clone for AssignedVariableAction {
    fn clone(&self) -> (r: Self)
        ensures
            r.action == self.action,
            r.consumption@ == self.consumption@,
    {
        AssignedVariableAction { action: self.action, consumption: self.consumption.clone() }
    }
}

} // verus!
