use crate::optimizer_context::action::constant::AssignedConstantAction;
use crate::time::{Time, STEPS_PER_DAY};
use vstd::prelude::*;

verus! {

/// A forecast: one value for each timestep of the day.
#[derive(Debug)]
pub struct Prognoses<T: Clone> {
    data: Vec<T>,
}

impl<T: Clone> Prognoses<T> {
    /// The values by timestep.
    pub closed spec fn view(&self) -> Seq<T> {
        self.data@
    }

    /// The series holds exactly one value per timestep.
    pub open spec fn wf(&self) -> bool {
        self.view().len() == STEPS_PER_DAY
    }

    /// The series with the values `data`, or `None` when `data` does not hold
    /// one value per timestep.
    pub fn new(data: Vec<T>) -> (r: Option<Self>)
        ensures
            r is Some <==> data@.len() == STEPS_PER_DAY,
            r matches Some(p) ==> p.view() == data@ && p.wf(),
    {
        if data.len() == STEPS_PER_DAY as usize {
            Some(Prognoses { data })
        } else {
            None
        }
    }

    /// The value of the timestep that holds `time`; `None` after the day.
    pub fn get(&self, time: Time) -> (r: Option<&T>)
        ensures
            match r {
                Some(v) => time.minutes < self.view().len() && *v == self.view()[time.minutes as int],
                None => time.minutes >= self.view().len(),
            },
    {
        let i = time.to_timestep() as usize;
        if i < self.data.len() {
            Some(&self.data[i])
        } else {
            None
        }
    }

    /// Overwrites the value of the timestep that holds `time`. A time after
    /// the day changes nothing.
    pub fn set(&mut self, time: Time, value: T)
        ensures
            final(self).view() == if time.minutes < STEPS_PER_DAY && time.minutes < old(
                self,
            ).view().len() {
                old(self).view().update(time.minutes as int, value)
            } else {
                old(self).view()
            },
    {
        let i = time.to_timestep();
        if i < STEPS_PER_DAY && (i as usize) < self.data.len() {
            self.data[i as usize] = value;
        }
    }

    /// All values, by timestep.
    pub fn get_data(&self) -> (d: &Vec<T>)
        ensures
            d@ == self.view(),
    {
        &self.data
    }
}

impl<T: Clone> Clone for Prognoses<T> {
    fn clone(&self) -> (r: Self)
        ensures
            r.view().len() == self.view().len(),
            forall|i: int| 0 <= i < self.view().len() ==> cloned(self.view()[i], #[trigger] r.view()[i]),
    {
        Prognoses { data: self.data.clone() }
    }
}

/// The series `s` with `amount` added on the steps from `start` up to `end`.
pub open spec fn raised(s: Seq<i64>, start: int, end: int, amount: int) -> Seq<i64> {
    Seq::new(
        s.len(),
        |t: int|
            if start <= t < end {
                (s[t] + amount) as i64
            } else {
                s[t]
            },
    )
}

/// The pointwise sum of two series.
pub open spec fn summed(s: Seq<i64>, o: Seq<i64>) -> Seq<i64> {
    Seq::new(s.len(), |t: int| (s[t] + o[t]) as i64)
}

impl Prognoses<i64> {
    /// The series that holds `value` at every timestep.
    pub fn constant(value: i64) -> (p: Self)
        ensures
            p.wf(),
            forall|t: int| 0 <= t < STEPS_PER_DAY ==> #[trigger] p.view()[t] == value,
    {
        let mut data: Vec<i64> = Vec::new();
        let mut t: u32 = 0;
        while t < STEPS_PER_DAY
            invariant
                t <= STEPS_PER_DAY,
                data@.len() == t,
                forall|i: int| 0 <= i < t ==> #[trigger] data@[i] == value,
            decreases STEPS_PER_DAY - t,
        {
            data.push(value);
            t += 1;
        }
        Prognoses { data }
    }

    /// The value at timestep `t`.
    pub fn at(&self, t: u32) -> (v: i64)
        requires
            self.wf(),
            t < STEPS_PER_DAY,
        ensures
            v == self.view()[t as int],
    {
        self.data[t as usize]
    }

    /// Adds the consumption of an assigned constant load on the steps on
    /// which the load runs.
    pub fn add_constant_action(&mut self, action: &AssignedConstantAction)
        requires
            old(self).wf(),
            action.wf(),
            action.end_step() <= STEPS_PER_DAY,
            forall|t: int|
                action.start_step() <= t < action.end_step() ==> i64::MIN <= #[trigger] old(
                    self,
                ).view()[t] + action.action.consumption <= i64::MAX,
        ensures
            final(self).wf(),
            final(self).view() == raised(
                old(self).view(),
                action.start_step(),
                action.end_step(),
                action.action.consumption as int,
            ),
    {
        let start = action.get_start_time().to_timestep() as usize;
        let end = action.get_end_time().to_timestep() as usize;
        let consumption = action.get_action().get_consumption();
        let ghost s0 = self.data@;
        let mut t = start;
        while t < end
            invariant
                start <= t <= end,
                end <= STEPS_PER_DAY,
                s0.len() == STEPS_PER_DAY,
                self.data@.len() == s0.len(),
                start == action.start_step(),
                end == action.end_step(),
                consumption == action.action.consumption,
                forall|i: int| start <= i < end ==> i64::MIN <= #[trigger] s0[i] + consumption <= i64::MAX,
                forall|i: int|
                    0 <= i < s0.len() ==> #[trigger] self.data@[i] == if start <= i < t {
                        (s0[i] + consumption) as i64
                    } else {
                        s0[i]
                    },
            decreases end - t,
        {
            let v = self.data[t];
            assert(v == s0[t as int]);
            self.data[t] = v + consumption;
            t += 1;
        }
        assert(self.data@ =~= raised(s0, start as int, end as int, consumption as int));
    }

    /// Adds another series to this one, step by step.
    pub fn add_assign(&mut self, other: &Prognoses<i64>)
        requires
            old(self).wf(),
            other.wf(),
            forall|t: int|
                0 <= t < STEPS_PER_DAY ==> i64::MIN <= #[trigger] old(self).view()[t] + other.view()[t]
                    <= i64::MAX,
        ensures
            final(self).wf(),
            final(self).view() == summed(old(self).view(), other.view()),
    {
        let ghost s0 = self.data@;
        let mut t: usize = 0;
        while t < STEPS_PER_DAY as usize
            invariant
                t <= STEPS_PER_DAY,
                s0.len() == STEPS_PER_DAY,
                other.data@.len() == STEPS_PER_DAY,
                self.data@.len() == s0.len(),
                forall|i: int|
                    0 <= i < STEPS_PER_DAY ==> i64::MIN <= #[trigger] s0[i] + other.data@[i] <= i64::MAX,
                forall|i: int|
                    0 <= i < s0.len() ==> #[trigger] self.data@[i] == if i < t {
                        (s0[i] + other.data@[i]) as i64
                    } else {
                        s0[i]
                    },
            decreases STEPS_PER_DAY - t,
        {
            let v = self.data[t];
            assert(v == s0[t as int]);
            self.data[t] = v + other.data[t];
            t += 1;
        }
        assert(self.data@ =~= summed(s0, other.data@));
    }
}

} // verus!
