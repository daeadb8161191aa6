use crate::optimizer_context::action::constant::AssignedConstantAction;
use crate::time::{Time, STEPS_PER_DAY};
use vstd::prelude::*;

verus! {

/// A constant load that can be laid into the network: its start lies in its
/// window, its window ends within the day, and it does not give energy back.
pub open spec fn load_ok(a: AssignedConstantAction) -> bool {
    &&& a.wf()
    &&& a.action.end_before.minutes <= STEPS_PER_DAY
    &&& a.end_step() <= STEPS_PER_DAY
    &&& a.action.consumption >= 0
}

/// The loads stand in the order of their ids, no id twice.
pub open spec fn ordered(loads: Seq<AssignedConstantAction>) -> bool {
    forall|i: int, j: int|
        0 <= i < j < loads.len() ==> (#[trigger] loads[i]).action.id < (#[trigger] loads[j]).action.id
}

/// Every load can be laid into the network, and the loads stand in the
/// order of their ids, so that the same loads always give the same network.
pub open spec fn loads_ok(loads: Seq<AssignedConstantAction>) -> bool {
    &&& forall|i: int| 0 <= i < loads.len() ==> load_ok(#[trigger] loads[i])
    &&& ordered(loads)
}

/// Number of loads at the front whose id is below `id`: the place of the
/// load with id `id` among ordered loads.
pub open spec fn rank(loads: Seq<AssignedConstantAction>, id: u32) -> int
    decreases loads.len(),
{
    if loads.len() == 0 || loads.first().action.id >= id {
        0
    } else {
        1 + rank(loads.drop_first(), id)
    }
}

/// Whether one of the ordered loads has the id `id`.
pub open spec fn holds(loads: Seq<AssignedConstantAction>, id: u32) -> bool {
    rank(loads, id) < loads.len() && loads[rank(loads, id)].action.id == id
}

/// The loads with `a` taken up: in place of the load with the same id if
/// there is one, else at its place in the order of ids.
pub open spec fn put_load(loads: Seq<AssignedConstantAction>, a: AssignedConstantAction) -> Seq<
    AssignedConstantAction,
> {
    let r = rank(loads, a.action.id);
    if holds(loads, a.action.id) {
        loads.update(r, a)
    } else {
        loads.insert(r, a)
    }
}

/// The loads without the load with id `id`.
pub open spec fn drop_load(loads: Seq<AssignedConstantAction>, id: u32) -> Seq<
    AssignedConstantAction,
> {
    if holds(loads, id) {
        loads.remove(rank(loads, id))
    } else {
        loads
    }
}

/// The rank splits ordered loads into those with a smaller id and the rest.
pub proof fn lemma_rank(loads: Seq<AssignedConstantAction>, id: u32)
    requires
        ordered(loads),
    ensures
        0 <= rank(loads, id) <= loads.len(),
        forall|i: int| 0 <= i < rank(loads, id) ==> (#[trigger] loads[i]).action.id < id,
        forall|i: int| rank(loads, id) <= i < loads.len() ==> (#[trigger] loads[i]).action.id >= id,
    decreases loads.len(),
{
    if loads.len() > 0 {
        let rest = loads.drop_first();
        assert forall|i: int, j: int| 0 <= i < j < rest.len() implies (#[trigger] rest[i]).action.id
            < (#[trigger] rest[j]).action.id by {
            assert(rest[i] == loads[i + 1]);
            assert(rest[j] == loads[j + 1]);
        }
        if loads.first().action.id >= id {
            assert forall|i: int| 0 <= i < loads.len() implies (#[trigger] loads[i]).action.id
                >= id by {
                if i > 0 {
                    assert(loads[0].action.id < loads[i].action.id);
                }
            }
        } else {
            lemma_rank(rest, id);
            assert forall|i: int| 0 <= i < rank(loads, id) implies (#[trigger] loads[i]).action.id
                < id by {
                if i > 0 {
                    assert(loads[i] == rest[i - 1]);
                }
            }
            assert forall|i: int| rank(loads, id) <= i < loads.len() implies (#[trigger] loads[i]).action.id
                >= id by {
                assert(loads[i] == rest[i - 1]);
            }
        }
    }
}

/// The only place that splits ordered loads in this way is the rank.
pub proof fn lemma_rank_is(loads: Seq<AssignedConstantAction>, id: u32, r: int)
    requires
        ordered(loads),
        0 <= r <= loads.len(),
        forall|i: int| 0 <= i < r ==> (#[trigger] loads[i]).action.id < id,
        forall|i: int| r <= i < loads.len() ==> (#[trigger] loads[i]).action.id >= id,
    ensures
        rank(loads, id) == r,
{
    lemma_rank(loads, id);
    let q = rank(loads, id);
    if q < r {
        assert(loads[q].action.id < id);
    } else if q > r {
        assert(loads[r].action.id >= id);
    }
}

/// Taking up a load keeps the loads in order and puts the load at the rank
/// of its id.
pub proof fn lemma_put_load(loads: Seq<AssignedConstantAction>, a: AssignedConstantAction)
    requires
        loads_ok(loads),
        load_ok(a),
    ensures
        loads_ok(put_load(loads, a)),
        rank(put_load(loads, a), a.action.id) == rank(loads, a.action.id),
        holds(put_load(loads, a), a.action.id),
        put_load(loads, a)[rank(loads, a.action.id)] == a,
        put_load(loads, a).len() == if holds(loads, a.action.id) {
            loads.len()
        } else {
            loads.len() + 1
        },
{
    let id = a.action.id;
    let r = rank(loads, id);
    let p = put_load(loads, a);
    lemma_rank(loads, id);
    if holds(loads, id) {
        assert forall|i: int, j: int| 0 <= i < j < p.len() implies (#[trigger] p[i]).action.id
            < (#[trigger] p[j]).action.id by {
            assert(loads[i].action.id < loads[j].action.id);
        }
    } else {
        assert forall|i: int, j: int| 0 <= i < j < p.len() implies (#[trigger] p[i]).action.id
            < (#[trigger] p[j]).action.id by {
            if j < r {
                assert(loads[i].action.id < loads[j].action.id);
            } else if j == r {
                assert(loads[i].action.id < id);
            } else if i < r {
                assert(loads[i].action.id < loads[j - 1].action.id);
            } else if i == r {
                assert(loads[j - 1].action.id >= id);
            } else {
                assert(loads[i - 1].action.id < loads[j - 1].action.id);
            }
        }
        assert forall|i: int| 0 <= i < p.len() implies load_ok(#[trigger] p[i]) by {
            if i < r {
                assert(p[i] == loads[i]);
            } else if i > r {
                assert(p[i] == loads[i - 1]);
            }
        }
    }
    assert forall|i: int| 0 <= i < r implies (#[trigger] p[i]).action.id < id by {
        assert(p[i] == loads[i]);
    }
    assert forall|i: int| r <= i < p.len() implies (#[trigger] p[i]).action.id >= id by {
        if i > r {
            if holds(loads, id) {
                assert(p[i] == loads[i]);
            } else {
                assert(p[i] == loads[i - 1]);
            }
        }
    }
    lemma_rank_is(p, id, r);
}

/// Giving up a load keeps the loads in order and leaves no load with the
/// id, and the place where one would stand is the same.
pub proof fn lemma_drop_load(loads: Seq<AssignedConstantAction>, id: u32)
    requires
        loads_ok(loads),
    ensures
        loads_ok(drop_load(loads, id)),
        rank(drop_load(loads, id), id) == rank(loads, id),
        !holds(drop_load(loads, id), id),
{
    let r = rank(loads, id);
    let d = drop_load(loads, id);
    lemma_rank(loads, id);
    if holds(loads, id) {
        assert forall|i: int, j: int| 0 <= i < j < d.len() implies (#[trigger] d[i]).action.id
            < (#[trigger] d[j]).action.id by {
            let i0 = if i < r {
                i
            } else {
                i + 1
            };
            let j0 = if j < r {
                j
            } else {
                j + 1
            };
            assert(d[i] == loads[i0]);
            assert(d[j] == loads[j0]);
            assert(loads[i0].action.id < loads[j0].action.id);
        }
        assert forall|i: int| 0 <= i < d.len() implies load_ok(#[trigger] d[i]) by {
            if i < r {
                assert(d[i] == loads[i]);
            } else {
                assert(d[i] == loads[i + 1]);
            }
        }
        assert forall|i: int| 0 <= i < r implies (#[trigger] d[i]).action.id < id by {
            assert(d[i] == loads[i]);
        }
        assert forall|i: int| r <= i < d.len() implies (#[trigger] d[i]).action.id > id by {
            assert(d[i] == loads[i + 1]);
            assert(loads[r].action.id < loads[i + 1].action.id);
        }
        assert forall|i: int| r <= i < d.len() implies (#[trigger] d[i]).action.id >= id by {
            assert(d[i].action.id > id);
        }
        lemma_rank_is(d, id, r);
        if r < d.len() {
            assert(d[r].action.id > id);
        }
    }
}

/// Moving a load and moving it back leaves the loads as they were: giving
/// up the load with id `id`, taking up another with that id in its place,
/// giving that one up and taking up the first again gives the loads from
/// before, each at its place.
pub proof fn lemma_move_and_back(
    loads: Seq<AssignedConstantAction>,
    id: u32,
    there: AssignedConstantAction,
)
    requires
        loads_ok(loads),
        holds(loads, id),
        load_ok(there),
        there.action.id == id,
    ensures
        put_load(drop_load(put_load(drop_load(loads, id), there), id), loads[rank(loads, id)])
            == loads,
{
    let r = rank(loads, id);
    let back = loads[r];
    let l1 = drop_load(loads, id);
    lemma_rank(loads, id);
    lemma_drop_load(loads, id);
    let l2 = put_load(l1, there);
    lemma_put_load(l1, there);
    assert(l2 == l1.insert(r, there));
    let l3 = drop_load(l2, id);
    assert(l3 =~= l1);
    assert(load_ok(back));
    let l4 = put_load(l3, back);
    assert(l4 =~= loads);
}

/// The load `a` at the start `t`.
pub open spec fn with_start(a: AssignedConstantAction, t: Time) -> AssignedConstantAction {
    AssignedConstantAction { action: a.action, start_time: t }
}

/// The loads with the load with id `id` moved to the start `t`; without
/// such a load, the loads as they are.
pub open spec fn moved(loads: Seq<AssignedConstantAction>, id: u32, t: Time) -> Seq<
    AssignedConstantAction,
> {
    if holds(loads, id) {
        loads.update(rank(loads, id), with_start(loads[rank(loads, id)], t))
    } else {
        loads
    }
}

/// The start `t` lies in the window of the load `a`.
pub open spec fn admits(a: AssignedConstantAction, t: Time) -> bool {
    a.action.start_from.minutes <= t.minutes && t.minutes + a.action.duration.minutes
        <= a.action.end_before.minutes
}

/// Two lists hold the same loads at the same places and differ at most in
/// their starts.
pub open spec fn same_actions(a: Seq<AssignedConstantAction>, b: Seq<AssignedConstantAction>) -> bool {
    &&& a.len() == b.len()
    &&& forall|i: int| 0 <= i < a.len() ==> (#[trigger] a[i]).action == b[i].action
}

/// Lists that differ at most in their starts find each id at the same place.
pub proof fn lemma_same_actions_rank(
    a: Seq<AssignedConstantAction>,
    b: Seq<AssignedConstantAction>,
    id: u32,
)
    requires
        same_actions(a, b),
        ordered(a),
    ensures
        ordered(b),
        rank(b, id) == rank(a, id),
        holds(b, id) == holds(a, id),
{
    assert forall|i: int, j: int| 0 <= i < j < b.len() implies (#[trigger] b[i]).action.id
        < (#[trigger] b[j]).action.id by {
        assert(a[i].action.id < a[j].action.id);
    }
    lemma_rank(a, id);
    let r = rank(a, id);
    assert forall|i: int| 0 <= i < r implies (#[trigger] b[i]).action.id < id by {
        assert(a[i].action.id < id);
    }
    assert forall|i: int| r <= i < b.len() implies (#[trigger] b[i]).action.id >= id by {
        assert(a[i].action.id >= id);
    }
    lemma_rank_is(b, id, r);
    if r < a.len() {
        assert(a[r].action == b[r].action);
    }
}

/// Giving up the load with id `id` and taking it up again at the start `t`
/// moves it, and leaves every other load at its place. Where the start lies
/// in the window of the load, the loads stay fit to be laid.
pub proof fn lemma_moved(loads: Seq<AssignedConstantAction>, id: u32, t: Time)
    requires
        loads_ok(loads),
        holds(loads, id),
    ensures
        put_load(drop_load(loads, id), with_start(loads[rank(loads, id)], t)) == moved(loads, id, t),
        same_actions(loads, moved(loads, id, t)),
        admits(loads[rank(loads, id)], t) ==> loads_ok(moved(loads, id, t)),
{
    let r = rank(loads, id);
    let there = with_start(loads[r], t);
    let l1 = drop_load(loads, id);
    let m = moved(loads, id, t);
    lemma_rank(loads, id);
    lemma_drop_load(loads, id);
    assert(put_load(l1, there) =~= m);
    if admits(loads[r], t) {
        assert(load_ok(loads[r]));
        assert(load_ok(there));
        lemma_put_load(l1, there);
    }
}

} // verus!
