use crate::optimizer::flow::mcmf::Edge;
use crate::optimizer::flow::wrapper::{NodeIds, Place};
use crate::optimizer_context::action::variable::VariableAction;
use crate::optimizer_context::battery::Battery;
use crate::optimizer_context::fraction::StepFraction;
use crate::time::STEPS_PER_DAY;
use vstd::prelude::*;

verus! {

/// Capacity of a pair that is never the bottleneck.
pub const CAP_INF: i64 = i64::MAX;

/// The place of the source.
pub open spec fn source() -> Place {
    Place::Fixed(0)
}

/// The place of the sink.
pub open spec fn sink() -> Place {
    Place::Fixed(1)
}

/// The place of the node of grid import.
pub open spec fn network() -> Place {
    Place::Keyed(1, 0)
}

/// The place of the node of local generation.
pub open spec fn generator() -> Place {
    Place::Keyed(2, 0)
}

/// The place of the wire of step `t`.
pub open spec fn wire(t: int) -> Place {
    Place::Keyed(0, t as usize)
}

/// The place of the accumulator of the variable load with id `id`.
pub open spec fn accumulator(id: u32) -> Place {
    Place::Keyed(3, id as usize)
}

/// The place of the battery with id `id` at the start of step `t`.
pub open spec fn cell(id: u32, t: int) -> Place {
    Place::Keyed((id + 4) as usize, t as usize)
}

/// The node that stands at the place `p`.
pub open spec fn node_of(ids: NodeIds, p: Place) -> usize {
    match p {
        Place::Fixed(x) => x,
        Place::Keyed(a, b) => ids[(a, b)],
    }
}

/// The place `p` has its node.
pub open spec fn known(ids: NodeIds, p: Place) -> bool {
    match p {
        Place::Fixed(x) => x < 2,
        Place::Keyed(a, b) => ids.contains_key((a, b)),
    }
}

/// The table `more` holds every key of `ids`, with the same node.
pub open spec fn grown(ids: NodeIds, more: NodeIds) -> bool {
    forall|key: (usize, usize)| #[trigger]
        ids.contains_key(key) ==> more.contains_key(key) && more[key] == ids[key]
}

/// The pair from `u` to `v` with capacity `cap` and unit cost `cost`, as
/// it stands in a network without flow: the forward arc with the whole
/// capacity, the reverse arc with none, at the opposite cost.
pub open spec fn pair_arcs(ids: NodeIds, u: Place, v: Place, cap: i64, cost: i64) -> Seq<Edge> {
    seq![
        Edge { to: node_of(ids, v), f: cap, cost: cost },
        Edge { to: node_of(ids, u), f: 0, cost: (-cost) as i64 },
    ]
}

/// The pairs of step `t` of the forecasts: from the generator to the wire
/// of the step with what is generated, from the grid to the wire without
/// limit at the price of the step, and from the wire to the sink with what
/// is consumed beyond control. A pair of capacity zero is left out.
pub open spec fn forecast_step(ids: NodeIds, generated: i64, price: i64, consumed: i64, t: int) -> Seq<
    Edge,
> {
    (if generated > 0 {
        pair_arcs(ids, generator(), wire(t), generated, 0)
    } else {
        Seq::empty()
    }) + pair_arcs(ids, network(), wire(t), CAP_INF, price) + (if consumed > 0 {
        pair_arcs(ids, wire(t), sink(), consumed, 0)
    } else {
        Seq::empty()
    })
}

/// The network of the forecasts up to step `t`: source to generator and
/// source to grid, both without limit, and then the pairs of each step.
pub open spec fn forecast_arcs(
    ids: NodeIds,
    generated: Seq<i64>,
    price: Seq<i64>,
    consumed: Seq<i64>,
    t: int,
) -> Seq<Edge>
    decreases t,
{
    if t <= 0 {
        pair_arcs(ids, source(), generator(), CAP_INF, 0) + pair_arcs(
            ids,
            source(),
            network(),
            CAP_INF,
            0,
        )
    } else {
        forecast_arcs(ids, generated, price, consumed, t - 1) + forecast_step(
            ids,
            generated[t - 1],
            price[t - 1],
            consumed[t - 1],
            t - 1,
        )
    }
}

/// The rate `rate` on step `t`: cut down to the part of the first step
/// that is left, on the first step.
pub open spec fn rate_at(fraction: StepFraction, rate: i64, t: int) -> i64 {
    if t == 0 {
        fraction.scaled(rate as int) as i64
    } else {
        rate
    }
}

/// The pairs over which the battery takes from and gives to the wire, for
/// the steps before `t`: for each step one from the wire to the battery at
/// that step with the charge rate, and one back with the discharge rate.
pub open spec fn rate_arcs(ids: NodeIds, fraction: StepFraction, b: Battery, t: int) -> Seq<Edge>
    decreases t,
{
    if t <= 0 {
        Seq::empty()
    } else {
        rate_arcs(ids, fraction, b, t - 1) + pair_arcs(
            ids,
            wire(t - 1),
            cell(b.id, t - 1),
            rate_at(fraction, b.maximum_charge_rate, t - 1),
            0,
        ) + pair_arcs(
            ids,
            cell(b.id, t - 1),
            wire(t - 1),
            rate_at(fraction, b.maximum_output_rate, t - 1),
            0,
        )
    }
}

/// The pairs that carry the level of the battery on, for the steps before
/// `t`: for each step one from the battery at that step to the battery at
/// the next, with the capacity of the battery.
pub open spec fn level_arcs(ids: NodeIds, b: Battery, t: int) -> Seq<Edge>
    decreases t,
{
    if t <= 0 {
        Seq::empty()
    } else {
        level_arcs(ids, b, t - 1) + pair_arcs(ids, cell(b.id, t - 1), cell(b.id, t), b.capacity, 0)
    }
}

/// The pairs of a battery: one from the source into the battery at step 0
/// that holds the initial level, those over which it takes and gives, and
/// those that carry its level on.
pub open spec fn battery_arcs(ids: NodeIds, fraction: StepFraction, b: Battery) -> Seq<Edge> {
    pair_arcs(ids, source(), cell(b.id, 0), b.initial_level, 0) + rate_arcs(
        ids,
        fraction,
        b,
        STEPS_PER_DAY as int,
    ) + level_arcs(ids, b, STEPS_PER_DAY as int)
}

/// The pairs of the first `k` batteries.
pub open spec fn batteries_arcs(ids: NodeIds, fraction: StepFraction, batteries: Seq<Battery>, k: int) -> Seq<
    Edge,
>
    decreases k,
{
    if k <= 0 {
        Seq::empty()
    } else {
        batteries_arcs(ids, fraction, batteries, k - 1) + battery_arcs(ids, fraction, batteries[k - 1])
    }
}

/// The pairs from the wires of the first `j` steps of the window of a
/// variable load into its accumulator, each with the cap of the load.
pub open spec fn window_arcs(ids: NodeIds, fraction: StepFraction, v: VariableAction, j: int) -> Seq<
    Edge,
>
    decreases j,
{
    if j <= 0 {
        Seq::empty()
    } else {
        window_arcs(ids, fraction, v, j - 1) + pair_arcs(
            ids,
            wire(v.start.minutes + j - 1),
            accumulator(v.id),
            rate_at(fraction, v.max_consumption, v.start.minutes + j - 1),
            0,
        )
    }
}

/// The pairs of a variable load: those of its window, and one from its
/// accumulator to the sink with its total.
pub open spec fn variable_arcs(ids: NodeIds, fraction: StepFraction, v: VariableAction) -> Seq<Edge> {
    window_arcs(ids, fraction, v, v.end.minutes - v.start.minutes) + pair_arcs(
        ids,
        accumulator(v.id),
        sink(),
        v.total_consumption,
        0,
    )
}

/// The pairs of the first `k` variable loads.
pub open spec fn variables_arcs(
    ids: NodeIds,
    fraction: StepFraction,
    variables: Seq<VariableAction>,
    k: int,
) -> Seq<Edge>
    decreases k,
{
    if k <= 0 {
        Seq::empty()
    } else {
        variables_arcs(ids, fraction, variables, k - 1) + variable_arcs(ids, fraction, variables[k - 1])
    }
}

/// A pair between places that have their nodes is the same under a table
/// that has grown.
pub proof fn lemma_pair_grown(ids: NodeIds, more: NodeIds, u: Place, v: Place, cap: i64, cost: i64)
    requires
        grown(ids, more),
        known(ids, u),
        known(ids, v),
    ensures
        pair_arcs(more, u, v, cap, cost) == pair_arcs(ids, u, v, cap, cost),
{
}

/// The wires of the steps before `t` have their nodes.
pub open spec fn wires_upto(ids: NodeIds, t: int) -> bool {
    forall|s: int| 0 <= s < t ==> known(ids, #[trigger] wire(s))
}

/// The battery with id `id` has its nodes for the steps before `t`.
pub open spec fn cells_upto(ids: NodeIds, id: u32, t: int) -> bool {
    forall|s: int| 0 <= s < t ==> known(ids, #[trigger] cell(id, s))
}

/// The network of the forecasts is the same under a table that has grown.
pub proof fn lemma_forecast_grown(
    ids: NodeIds,
    more: NodeIds,
    generated: Seq<i64>,
    price: Seq<i64>,
    consumed: Seq<i64>,
    t: int,
)
    requires
        grown(ids, more),
        known(ids, generator()),
        known(ids, network()),
        wires_upto(ids, t),
    ensures
        forecast_arcs(more, generated, price, consumed, t) == forecast_arcs(
            ids,
            generated,
            price,
            consumed,
            t,
        ),
    decreases t,
{
    if t > 0 {
        lemma_forecast_grown(ids, more, generated, price, consumed, t - 1);
        assert(known(ids, wire(t - 1)));
    }
}

/// The pairs over which a battery takes and gives are the same under a table
/// that has grown.
pub proof fn lemma_rates_grown(ids: NodeIds, more: NodeIds, fraction: StepFraction, b: Battery, t: int)
    requires
        grown(ids, more),
        wires_upto(ids, t),
        cells_upto(ids, b.id, t),
    ensures
        rate_arcs(more, fraction, b, t) == rate_arcs(ids, fraction, b, t),
    decreases t,
{
    if t > 0 {
        lemma_rates_grown(ids, more, fraction, b, t - 1);
        assert(known(ids, wire(t - 1)));
        assert(known(ids, cell(b.id, t - 1)));
    }
}

/// The pairs that carry the level of a battery on are the same under a table
/// that has grown.
pub proof fn lemma_levels_grown(ids: NodeIds, more: NodeIds, b: Battery, t: int)
    requires
        grown(ids, more),
        cells_upto(ids, b.id, t + 1),
    ensures
        level_arcs(more, b, t) == level_arcs(ids, b, t),
    decreases t,
{
    if t > 0 {
        lemma_levels_grown(ids, more, b, t - 1);
        assert(known(ids, cell(b.id, t - 1)));
        assert(known(ids, cell(b.id, t)));
    }
}

/// The pairs of a battery are the same under a table that has grown.
pub proof fn lemma_battery_grown(ids: NodeIds, more: NodeIds, fraction: StepFraction, b: Battery)
    requires
        grown(ids, more),
        wires_upto(ids, STEPS_PER_DAY as int),
        cells_upto(ids, b.id, STEPS_PER_DAY + 1),
    ensures
        battery_arcs(more, fraction, b) == battery_arcs(ids, fraction, b),
{
    lemma_rates_grown(ids, more, fraction, b, STEPS_PER_DAY as int);
    lemma_levels_grown(ids, more, b, STEPS_PER_DAY as int);
    assert(known(ids, cell(b.id, 0)));
}

/// The pairs of batteries are the same under a table that has grown.
pub proof fn lemma_batteries_grown(
    ids: NodeIds,
    more: NodeIds,
    fraction: StepFraction,
    batteries: Seq<Battery>,
    k: int,
)
    requires
        grown(ids, more),
        0 <= k <= batteries.len(),
        wires_upto(ids, STEPS_PER_DAY as int),
        forall|i: int| 0 <= i < k ==> cells_upto(ids, (#[trigger] batteries[i]).id, STEPS_PER_DAY + 1),
    ensures
        batteries_arcs(more, fraction, batteries, k) == batteries_arcs(ids, fraction, batteries, k),
    decreases k,
{
    if k > 0 {
        lemma_batteries_grown(ids, more, fraction, batteries, k - 1);
        lemma_battery_grown(ids, more, fraction, batteries[k - 1]);
    }
}

/// The pairs of the window of a variable load are the same under a table that
/// has grown.
pub proof fn lemma_window_grown(
    ids: NodeIds,
    more: NodeIds,
    fraction: StepFraction,
    v: VariableAction,
    j: int,
)
    requires
        grown(ids, more),
        wires_upto(ids, v.start.minutes + j),
        known(ids, accumulator(v.id)),
    ensures
        window_arcs(more, fraction, v, j) == window_arcs(ids, fraction, v, j),
    decreases j,
{
    if j > 0 {
        lemma_window_grown(ids, more, fraction, v, j - 1);
        assert(known(ids, wire(v.start.minutes + j - 1)));
    }
}

/// The pairs of a variable load are the same under a table that has grown.
pub proof fn lemma_variable_grown(ids: NodeIds, more: NodeIds, fraction: StepFraction, v: VariableAction)
    requires
        grown(ids, more),
        wires_upto(ids, v.end.minutes as int),
        known(ids, accumulator(v.id)),
    ensures
        variable_arcs(more, fraction, v) == variable_arcs(ids, fraction, v),
{
    lemma_window_grown(ids, more, fraction, v, v.end.minutes - v.start.minutes);
}

/// The pairs of variable loads are the same under a table that has grown.
pub proof fn lemma_variables_grown(
    ids: NodeIds,
    more: NodeIds,
    fraction: StepFraction,
    variables: Seq<VariableAction>,
    k: int,
)
    requires
        grown(ids, more),
        0 <= k <= variables.len(),
        wires_upto(ids, STEPS_PER_DAY as int),
        forall|i: int|
            0 <= i < k ==> known(ids, accumulator((#[trigger] variables[i]).id)) && variables[i].end.minutes
                <= STEPS_PER_DAY,
    ensures
        variables_arcs(more, fraction, variables, k) == variables_arcs(ids, fraction, variables, k),
    decreases k,
{
    if k > 0 {
        lemma_variables_grown(ids, more, fraction, variables, k - 1);
        lemma_variable_grown(ids, more, fraction, variables[k - 1]);
    }
}

} // verus!
