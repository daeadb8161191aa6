use crate::optimizer::loads::{
    admits, holds, lemma_moved, lemma_rank, lemma_same_actions_rank, load_ok, loads_ok, moved, rank,
    with_start,
};
use crate::optimizer_context::action::constant::AssignedConstantAction;
use crate::simulated_annealing::change::{only_loads_changed, Change};
use crate::simulated_annealing::state::State;
use crate::time::Time;
use rand::rngs::ThreadRng;
use rand::seq::IndexedRandom;
use vstd::prelude::*;

verus! {

/// The generator of random numbers that the crate rand keeps for each
/// thread, `rand::rngs::ThreadRng`. Nothing is said of what it holds.
#[verifier::external_type_specification]
#[verifier::external_body]
pub struct ExThreadRng(ThreadRng);

/// `rand::seq::IndexedRandom::choose`, on the ids and with the generator
/// of the thread. Of the crate rand it is taken on trust that the call
/// gives nothing when there are no ids, and else one of the ids. Which one
/// is left to the generator.
#[verifier::external_body]
fn choose_id(ids: &Vec<u32>, rng: &mut ThreadRng) -> (r: Option<u32>)
    ensures
        match r {
            Some(id) => ids@.contains(id),
            None => ids@.len() == 0,
        },
{
    ids.choose(rng).copied()
}

/// Where a constant load stands and where it may stand.
#[derive(Clone, Copy, Debug, PartialEq, Eq, Structural)]
pub struct MoveWindow {
    pub action_id: u32,
    /// The start that the load has.
    pub current: Time,
    /// The earliest start that the window of the load allows.
    pub earliest: Time,
    /// The latest start that the window of the load allows.
    pub latest: Time,
}

impl MoveWindow {
    /// Whether the load has any other start to move to.
    pub fn movable(&self) -> (r: bool)
        ensures
            r == (self.earliest.minutes < self.latest.minutes),
    {
        self.earliest.minutes < self.latest.minutes
    }

    /// Whether the load may move to the start `minutes`: the start lies in
    /// the window and is not the start that the load has.
    pub fn allows(&self, minutes: i64) -> (r: bool)
        ensures
            r == (self.earliest.minutes <= minutes <= self.latest.minutes && minutes
                != self.current.minutes),
    {
        self.earliest.minutes as i64 <= minutes && minutes <= self.latest.minutes as i64 && minutes
            != self.current.minutes as i64
    }
}

/// The move of one constant load from one start to another.
#[derive(Clone, Copy, Debug, PartialEq, Eq, Structural)]
pub struct RandomMoveChange {
    pub action_id: u32,
    pub old_time: Time,
    pub new_time: Time,
}

impl RandomMoveChange {
    /// The window of the load with id `action_id`, which the state must hold.
    pub fn window(state: &State, action_id: u32) -> (w: MoveWindow)
        requires
            state.wf(),
            holds(state.loads(), action_id),
        ensures
            w.action_id == action_id,
            w.current == state.loads()[rank(state.loads(), action_id)].start_time,
            w.earliest == state.loads()[rank(state.loads(), action_id)].action.start_from,
            w.latest.minutes == state.loads()[rank(state.loads(), action_id)].action.latest_start(),
            w.earliest.minutes <= w.current.minutes <= w.latest.minutes,
    {
        let a = state.get_constant_action(action_id);
        let action = a.get_action();
        MoveWindow {
            action_id,
            current: a.get_start_time(),
            earliest: action.get_start_from(),
            latest: Time {
                minutes: action.get_end_before().get_minutes() - action.get_duration().get_minutes(),
            },
        }
    }

    /// Draws one of the constant loads of the state, each as likely as any
    /// other, and gives its window; nothing when the state has no load.
    pub fn pick(rng: &mut ThreadRng, state: &State) -> (r: Option<MoveWindow>)
        requires
            state.wf(),
            state.complete(),
        ensures
            match r {
                Some(w) => {
                    let loads = state.loads();
                    &&& state.constant_action_ids@.contains(w.action_id)
                    &&& holds(loads, w.action_id)
                    &&& w.current == loads[rank(loads, w.action_id)].start_time
                    &&& w.earliest == loads[rank(loads, w.action_id)].action.start_from
                    &&& w.latest.minutes == loads[rank(loads, w.action_id)].action.latest_start()
                },
                None => state.constant_action_ids@.len() == 0,
            },
    {
        match choose_id(state.get_constant_action_ids(), rng) {
            Some(id) => {
                proof {
                    let k = choose|k: int|
                        0 <= k < state.constant_action_ids@.len() && state.constant_action_ids@[k]
                            == id;
                    assert(holds(state.loads(), state.constant_action_ids@[k]));
                }
                Some(Self::window(state, id))
            },
            None => None,
        }
    }

    /// The move of the load of `window` to the start `minutes`, if the
    /// window allows that start.
    pub fn new(window: &MoveWindow, minutes: i64) -> (r: Option<Self>)
        ensures
            r is Some <==> (window.earliest.minutes <= minutes <= window.latest.minutes && minutes
                != window.current.minutes),
            r matches Some(m) ==> m.action_id == window.action_id && m.old_time == window.current
                && m.new_time.minutes == minutes,
    {
        if window.allows(minutes) {
            Some(
                RandomMoveChange {
                    action_id: window.action_id,
                    old_time: window.current,
                    new_time: Time { minutes: minutes as u32 },
                },
            )
        } else {
            None
        }
    }

    /// Moves the load to the start `to`: gives it up, places it anew, and
    /// takes it up again.
    fn shift(&self, state: &mut State, to: Time)
        requires
            old(state).wf(),
            holds(old(state).loads(), self.action_id),
            admits(old(state).loads()[rank(old(state).loads(), self.action_id)], to),
        ensures
            final(state).wf(),
            final(state).loads() == moved(old(state).loads(), self.action_id, to),
            only_loads_changed(old(state), final(state)),
    {
        let ghost loads = state.loads();
        proof {
            lemma_moved(loads, self.action_id, to);
            lemma_rank(loads, self.action_id);
        }
        let here = match state.remove_constant_action(self.action_id) {
            Some(a) => a,
            None => {
                return ;
            },
        };
        assert(load_ok(here));
        let there = here.get_action().with_start_time(to);
        assert(there == with_start(here, to));
        state.add_constant_action(there);
    }
}

impl RandomMoveChange {
    /// A move that fits the loads fits them still after its load was moved
    /// to a start in its window.
    pub proof fn lemma_fits_after(&self, loads: Seq<AssignedConstantAction>, to: Time)
        requires
            self.fits(loads),
            admits(loads[rank(loads, self.action_id)], to),
        ensures
            self.fits(moved(loads, self.action_id, to)),
            rank(moved(loads, self.action_id, to), self.action_id) == rank(loads, self.action_id),
    {
        let r = rank(loads, self.action_id);
        let m = moved(loads, self.action_id, to);
        lemma_rank(loads, self.action_id);
        lemma_moved(loads, self.action_id, to);
        lemma_same_actions_rank(loads, m, self.action_id);
        assert(m[r].action == loads[r].action);
    }
}

impl Change for RandomMoveChange {
    /// The state holds the load, and both the start the move leads to and
    /// the start it remembers lie in the window of the load.
    open spec fn fits(&self, loads: Seq<AssignedConstantAction>) -> bool {
        &&& loads_ok(loads)
        &&& holds(loads, self.action_id)
        &&& admits(loads[rank(loads, self.action_id)], self.new_time)
        &&& admits(loads[rank(loads, self.action_id)], self.old_time)
    }

    open spec fn recorded(&self, loads: Seq<AssignedConstantAction>) -> bool {
        holds(loads, self.action_id) ==> loads[rank(loads, self.action_id)].start_time
            == self.old_time
    }

    open spec fn applied(&self, loads: Seq<AssignedConstantAction>) -> Seq<AssignedConstantAction> {
        moved(loads, self.action_id, self.new_time)
    }

    open spec fn undone(&self, loads: Seq<AssignedConstantAction>) -> Seq<AssignedConstantAction> {
        moved(loads, self.action_id, self.old_time)
    }

    fn apply(&self, state: &mut State) {
        proof {
            self.lemma_fits_after(state.loads(), self.new_time);
        }
        self.shift(state, self.new_time);
    }

    fn undo(&self, state: &mut State) {
        proof {
            self.lemma_fits_after(state.loads(), self.old_time);
        }
        self.shift(state, self.old_time);
    }

    proof fn lemma_undo_restores(&self, loads: Seq<AssignedConstantAction>) {
        let r = rank(loads, self.action_id);
        let there = moved(loads, self.action_id, self.new_time);
        lemma_rank(loads, self.action_id);
        self.lemma_fits_after(loads, self.new_time);
        assert(rank(there, self.action_id) == r);
        assert(there[r] == with_start(loads[r], self.new_time));
        assert(with_start(there[r], self.old_time) == loads[r]);
        assert(moved(there, self.action_id, self.old_time) =~= loads);
    }
}

} // verus!
