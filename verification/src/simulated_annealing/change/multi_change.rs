use crate::optimizer::loads::{
    lemma_moved, lemma_rank, lemma_same_actions_rank, loads_ok, moved, rank,
    same_actions, with_start,
};
use crate::optimizer_context::action::constant::AssignedConstantAction;
use crate::simulated_annealing::change::random_move::RandomMoveChange;
use crate::simulated_annealing::change::{only_loads_changed, Change};
use crate::simulated_annealing::state::State;
use vstd::prelude::*;

verus! {

/// Several moves of constant loads, applied one after the other and taken
/// back in the opposite order.
pub struct MultiChange {
    pub changes: Vec<RandomMoveChange>,
}

/// The loads after the first `k` of the moves were applied.
pub open spec fn apply_first(
    moves: Seq<RandomMoveChange>,
    loads: Seq<AssignedConstantAction>,
    k: int,
) -> Seq<AssignedConstantAction>
    decreases k,
{
    if k <= 0 {
        loads
    } else {
        moves[k - 1].applied(apply_first(moves, loads, k - 1))
    }
}

/// The loads after the first `k` of the moves were taken back, the last
/// of them first.
pub open spec fn undo_last(
    moves: Seq<RandomMoveChange>,
    loads: Seq<AssignedConstantAction>,
    k: int,
) -> Seq<AssignedConstantAction>
    decreases k,
{
    if k <= 0 {
        loads
    } else {
        undo_last(moves, moves[k - 1].undone(loads), k - 1)
    }
}

/// One of the first `k` moves moves the load with id `id`.
pub open spec fn touched(moves: Seq<RandomMoveChange>, k: int, id: u32) -> bool {
    exists|j: int| 0 <= j < k && (#[trigger] moves[j]).action_id == id
}

/// A move that fits some loads fits loads that differ from them at most in
/// their starts.
pub proof fn lemma_fits_same_actions(
    m: RandomMoveChange,
    loads: Seq<AssignedConstantAction>,
    other: Seq<AssignedConstantAction>,
)
    requires
        m.fits(loads),
        same_actions(loads, other),
        loads_ok(other),
    ensures
        m.fits(other),
        rank(other, m.action_id) == rank(loads, m.action_id),
{
    lemma_rank(loads, m.action_id);
    lemma_same_actions_rank(loads, other, m.action_id);
    assert(other[rank(loads, m.action_id)].action == loads[rank(loads, m.action_id)].action);
}

/// Lists that differ at most in their starts from a third differ at most
/// in their starts from each other.
pub proof fn lemma_same_actions_trans(
    a: Seq<AssignedConstantAction>,
    b: Seq<AssignedConstantAction>,
    c: Seq<AssignedConstantAction>,
)
    requires
        same_actions(a, b),
        same_actions(b, c),
    ensures
        same_actions(a, c),
{
    assert forall|i: int| 0 <= i < a.len() implies (#[trigger] a[i]).action == c[i].action by {
        assert(b[i].action == c[i].action);
    }
}

/// Applying moves changes starts only, and leaves alone every load that
/// none of the moves moves.
pub proof fn lemma_apply_first(
    moves: Seq<RandomMoveChange>,
    loads: Seq<AssignedConstantAction>,
    k: int,
)
    requires
        0 <= k <= moves.len(),
        loads_ok(loads),
        forall|j: int| 0 <= j < moves.len() ==> (#[trigger] moves[j]).fits(loads),
    ensures
        same_actions(loads, apply_first(moves, loads, k)),
        loads_ok(apply_first(moves, loads, k)),
        forall|i: int|
            0 <= i < loads.len() && !touched(moves, k, loads[i].action.id) ==> #[trigger] apply_first(
                moves,
                loads,
                k,
            )[i] == loads[i],
    decreases k,
{
    if k > 0 {
        let m = moves[k - 1];
        let before = apply_first(moves, loads, k - 1);
        let after = apply_first(moves, loads, k);
        lemma_apply_first(moves, loads, k - 1);
        lemma_fits_same_actions(m, loads, before);
        lemma_rank(before, m.action_id);
        lemma_moved(before, m.action_id, m.new_time);
        lemma_same_actions_trans(loads, before, after);
        let r = rank(loads, m.action_id);
        assert forall|i: int| 0 <= i < loads.len() && !touched(moves, k, loads[i].action.id)
            implies #[trigger] after[i] == loads[i] by {
            if touched(moves, k - 1, loads[i].action.id) {
                let j = choose|j: int|
                    0 <= j < k - 1 && (#[trigger] moves[j]).action_id == loads[i].action.id;
                assert(moves[j].action_id == loads[i].action.id);
            }
            if i == r {
                assert(moves[k - 1].action_id == loads[i].action.id);
            }
        }
    }
}

/// Taking moves back changes starts only, puts every load that one of the
/// moves moves back where it stood when the moves were drawn, and leaves
/// every other load alone.
pub proof fn lemma_undo_last(
    moves: Seq<RandomMoveChange>,
    drawn: Seq<AssignedConstantAction>,
    loads: Seq<AssignedConstantAction>,
    k: int,
)
    requires
        0 <= k <= moves.len(),
        loads_ok(drawn),
        loads_ok(loads),
        same_actions(drawn, loads),
        forall|j: int| 0 <= j < moves.len() ==> (#[trigger] moves[j]).fits(drawn),
        forall|j: int| 0 <= j < moves.len() ==> (#[trigger] moves[j]).recorded(drawn),
    ensures
        same_actions(drawn, undo_last(moves, loads, k)),
        loads_ok(undo_last(moves, loads, k)),
        forall|i: int|
            0 <= i < drawn.len() ==> #[trigger] undo_last(moves, loads, k)[i] == if touched(
                moves,
                k,
                drawn[i].action.id,
            ) {
                drawn[i]
            } else {
                loads[i]
            },
    decreases k,
{
    if k > 0 {
        let m = moves[k - 1];
        let back = m.undone(loads);
        let r = rank(drawn, m.action_id);
        lemma_rank(drawn, m.action_id);
        lemma_fits_same_actions(m, drawn, loads);
        lemma_moved(loads, m.action_id, m.old_time);
        lemma_same_actions_trans(drawn, loads, back);
        lemma_undo_last(moves, drawn, back, k - 1);
        assert(back[r] == with_start(loads[r], m.old_time));
        assert(back[r] == drawn[r]);
        let u = undo_last(moves, loads, k);
        assert forall|i: int| 0 <= i < drawn.len() implies #[trigger] u[i] == if touched(
            moves,
            k,
            drawn[i].action.id,
        ) {
            drawn[i]
        } else {
            loads[i]
        } by {
            let id = drawn[i].action.id;
            if touched(moves, k - 1, id) {
                let j = choose|j: int| 0 <= j < k - 1 && (#[trigger] moves[j]).action_id == id;
                assert(moves[j].action_id == id);
            } else if i == r {
                assert(moves[k - 1].action_id == id);
            } else {
                if touched(moves, k, id) {
                    let j = choose|j: int| 0 <= j < k && (#[trigger] moves[j]).action_id == id;
                    assert(j == k - 1);
                    if i < r {
                        assert(drawn[i].action.id < drawn[r].action.id);
                    } else {
                        assert(drawn[r].action.id < drawn[i].action.id);
                    }
                }
                assert(back[i] == loads[i]);
            }
        }
    }
}

impl MultiChange {
    /// The moves `changes`, to be applied in this order.
    pub fn new(changes: Vec<RandomMoveChange>) -> (m: Self)
        ensures
            m.changes@ == changes@,
    {
        MultiChange { changes }
    }
}

impl Change for MultiChange {
    /// Every move fits the loads.
    open spec fn fits(&self, loads: Seq<AssignedConstantAction>) -> bool {
        &&& loads_ok(loads)
        &&& forall|j: int| 0 <= j < self.changes@.len() ==> (#[trigger] self.changes@[j]).fits(loads)
    }

    /// Every move was drawn against the loads.
    open spec fn recorded(&self, loads: Seq<AssignedConstantAction>) -> bool {
        forall|j: int| 0 <= j < self.changes@.len() ==> (#[trigger] self.changes@[j]).recorded(loads)
    }

    open spec fn applied(&self, loads: Seq<AssignedConstantAction>) -> Seq<AssignedConstantAction> {
        apply_first(self.changes@, loads, self.changes@.len() as int)
    }

    open spec fn undone(&self, loads: Seq<AssignedConstantAction>) -> Seq<AssignedConstantAction> {
        undo_last(self.changes@, loads, self.changes@.len() as int)
    }

    /// Applies the moves in their order. Without moves the state stays as
    /// it is, the cost that it keeps included.
    fn apply(&self, state: &mut State)
        ensures
            self.changes@.len() == 0 ==> *final(state) == *old(state),
    {
        let ghost drawn = state.loads();
        let mut j: usize = 0;
        while j < self.changes.len()
            invariant
                j <= self.changes@.len(),
                state.wf(),
                loads_ok(drawn),
                drawn == old(state).loads(),
                forall|i: int| 0 <= i < self.changes@.len() ==> (#[trigger] self.changes@[i]).fits(drawn),
                state.loads() == apply_first(self.changes@, drawn, j as int),
                only_loads_changed(old(state), state),
                j == 0 ==> *state == *old(state),
            decreases self.changes@.len() - j,
        {
            proof {
                lemma_apply_first(self.changes@, drawn, j as int);
                lemma_fits_same_actions(self.changes@[j as int], drawn, state.loads());
            }
            self.changes[j].apply(state);
            j += 1;
        }
        proof {
            lemma_apply_first(self.changes@, drawn, self.changes@.len() as int);
            assert forall|i: int| 0 <= i < self.changes@.len() implies (#[trigger] self.changes@[i]).fits(
                state.loads(),
            ) by {
                lemma_fits_same_actions(self.changes@[i], drawn, state.loads());
            }
        }
    }

    /// Takes the moves back, the last of them first. Without moves the
    /// state stays as it is, the cost that it keeps included.
    fn undo(&self, state: &mut State)
        ensures
            self.changes@.len() == 0 ==> *final(state) == *old(state),
    {
        let ghost start = state.loads();
        let n = self.changes.len();
        let mut j: usize = n;
        while j > 0
            invariant
                j <= n,
                n == self.changes@.len(),
                state.wf(),
                loads_ok(start),
                start == old(state).loads(),
                same_actions(start, state.loads()),
                forall|i: int| 0 <= i < self.changes@.len() ==> (#[trigger] self.changes@[i]).fits(start),
                undo_last(self.changes@, state.loads(), j as int) == undo_last(
                    self.changes@,
                    start,
                    n as int,
                ),
                only_loads_changed(old(state), state),
                j == n ==> *state == *old(state),
            decreases j,
        {
            let ghost before = state.loads();
            proof {
                lemma_fits_same_actions(self.changes@[j - 1], start, before);
                lemma_rank(before, self.changes@[j - 1].action_id);
                lemma_moved(before, self.changes@[j - 1].action_id, self.changes@[j - 1].old_time);
                lemma_same_actions_trans(
                    start,
                    before,
                    moved(before, self.changes@[j - 1].action_id, self.changes@[j - 1].old_time),
                );
            }
            self.changes[j - 1].undo(state);
            j -= 1;
        }
        proof {
            assert forall|i: int| 0 <= i < self.changes@.len() implies (#[trigger] self.changes@[i]).fits(
                state.loads(),
            ) by {
                lemma_fits_same_actions(self.changes@[i], start, state.loads());
            }
        }
    }

    proof fn lemma_undo_restores(&self, loads: Seq<AssignedConstantAction>) {
        let n = self.changes@.len() as int;
        let there = apply_first(self.changes@, loads, n);
        lemma_apply_first(self.changes@, loads, n);
        lemma_undo_last(self.changes@, loads, there, n);
        assert(undo_last(self.changes@, there, n) =~= loads);
    }
}

} // verus!
