use electricity_price_optimizer::error::OptimizeError;
use electricity_price_optimizer::optimizer_context::action::constant::ConstantAction;
use electricity_price_optimizer::optimizer_context::action::variable::VariableAction;
use electricity_price_optimizer::optimizer_context::battery::Battery;
use electricity_price_optimizer::optimizer_context::fraction::StepFraction;
use electricity_price_optimizer::optimizer_context::prognoses::Prognoses;
use electricity_price_optimizer::optimizer_context::OptimizerContext;
use electricity_price_optimizer::simulated_annealing::change::multi_change::MultiChange;
use electricity_price_optimizer::simulated_annealing::change::random_move::{MoveWindow, RandomMoveChange};
use electricity_price_optimizer::simulated_annealing::change::Change;
use electricity_price_optimizer::simulated_annealing::state::State;
use electricity_price_optimizer::simulated_annealing::{cost_rise, needs_draw, settle};
use electricity_price_optimizer::time::{Time, STEPS_PER_DAY};
use rand::Rng;

fn triangular_prices() -> Prognoses<i64> {
    let mut data = Vec::new();
    for t in 0..STEPS_PER_DAY as i64 {
        data.push((t - 720).abs() + 5);
    }
    Prognoses::new(data).unwrap()
}

fn placement_context() -> OptimizerContext {
    OptimizerContext::new(
        triangular_prices(),
        Prognoses::constant(0),
        Prognoses::constant(0),
        vec![],
        vec![ConstantAction::new(
            Time::from_timestep(0),
            Time::from_timestep(1435),
            Time::from_timestep(60),
            1000,
            1,
        )],
        vec![],
        StepFraction::full(),
    )
}

fn first_context() -> OptimizerContext {
    OptimizerContext::new(
        Prognoses::constant(10),
        Prognoses::constant(100),
        Prognoses::constant(20),
        vec![Battery::new(1000, 10, 10, 7, 1)],
        vec![ConstantAction::new(Time::new(0, 0), Time::new(2, 0), Time::new(1, 0), 300, 2)],
        vec![VariableAction::new(Time::new(1, 15), Time::new(10, 0), 300, 100, 3)],
        StepFraction::full(),
    )
}

fn second_context() -> OptimizerContext {
    OptimizerContext::new(
        triangular_prices(),
        Prognoses::constant(0),
        Prognoses::constant(5),
        vec![Battery::new(1000, 50, 50, 7, 1)],
        vec![ConstantAction::new(Time::new(0, 0), Time::new(23, 55), Time::new(1, 0), 1000, 2)],
        vec![VariableAction::new(Time::new(6, 0), Time::new(18, 0), 500, 100, 3)],
        StepFraction::full(),
    )
}

/// A move of the drawn load to a start drawn around the start it has.
fn draw_move(rng: &mut rand::rngs::ThreadRng, state: &State, spread: i64) -> Option<RandomMoveChange> {
    let window: MoveWindow = RandomMoveChange::pick(rng, state)?;
    if !window.movable() {
        return None;
    }
    loop {
        let sample = window.current.get_minutes() as i64 + rng.random_range(-spread..=spread);
        if let Some(m) = RandomMoveChange::new(&window, sample) {
            return Some(m);
        }
    }
}

/// A short annealing: a few dozen steps that cool from `from`.
fn anneal(context: OptimizerContext, from: f64, steps: usize) -> (i64, i64) {
    let mut state = State::new(context).unwrap();
    let mut rng = rand::rng();
    let first = state.get_cost().unwrap();
    let mut cost = first;
    let mut temperature = from;
    for _ in 0..steps {
        let spread = (30.0 * temperature.sqrt()) as i64 + 1;
        let mut moves = Vec::new();
        for _ in 0..2 {
            if let Some(m) = draw_move(&mut rng, &state, spread) {
                moves.push(m);
            }
        }
        let change = MultiChange::new(moves);
        change.apply(&mut state);
        let new_cost = state.get_cost().unwrap();
        let drawn = needs_draw(cost, new_cost)
            && rng.random_range(0.0..1.0) < (-(cost_rise(cost, new_cost) as f64) / temperature).exp();
        cost = settle(&mut state, &change, cost, new_cost, drawn);
        temperature *= 0.99;
    }
    let schedule = state.get_schedule().unwrap();
    assert_eq!(schedule.constant_actions.len(), state.get_constant_action_ids().len());
    (first, cost)
}

#[test]
fn test_simulated_annealing() {
    let (first, last) = anneal(first_context(), 10.0, 20);
    // At the earliest start the load runs from step 0 on. On each of its 60
    // steps the site takes 320 and generates 100; the battery gives the 10
    // that it holds. What is missing is bought at 10, and each unit of the
    // constant load adds a penalty of one.
    assert_eq!(first, 10 * (60 * 220 - 10) + 300 * 60);
    assert!(last <= first);
}

#[test]
fn test_simulated_annealing2() {
    let (first, last) = anneal(second_context(), 10.0, 20);
    assert!(last <= first);
}

#[test]
fn state_starts_with_every_load_at_its_earliest_start() {
    let state = State::new(first_context()).unwrap();
    assert_eq!(state.get_constant_action_ids(), &vec![2]);
    let load = state.get_constant_action(2);
    assert_eq!(load.get_start_time(), Time::new(0, 0));
    assert_eq!(load.get_end_time(), Time::new(1, 0));
    assert_eq!(load.get_consumption(), 300);
}

#[test]
fn constant_load_placement_matters() {
    let mut state = State::new(placement_context()).unwrap();
    let earliest = state.get_cost().unwrap();
    // 60 steps from 0 on, at prices 725 down to 666, plus the penalty.
    let expected: i64 = (0..60).map(|t: i64| ((t - 720).abs() + 5) * 1000).sum::<i64>() + 60_000;
    assert_eq!(earliest, expected);
    let window = RandomMoveChange::window(&state, 1);
    assert_eq!(window.earliest, Time::from_timestep(0));
    assert_eq!(window.latest, Time::from_timestep(1375));
    let to_noon = RandomMoveChange::new(&window, 690).unwrap();
    to_noon.apply(&mut state);
    let at_noon = state.get_cost().unwrap();
    let expected_noon: i64 = (690..750).map(|t: i64| ((t - 720).abs() + 5) * 1000).sum::<i64>() + 60_000;
    assert_eq!(at_noon, expected_noon);
    assert!(at_noon < earliest);
    let schedule = state.get_schedule().unwrap();
    assert_eq!(schedule.get_constant_action(1).unwrap().get_start_time(), Time::from_timestep(690));
    assert_eq!(schedule.network_consumption.get(Time::from_timestep(689)), Some(&0));
    assert_eq!(schedule.network_consumption.get(Time::from_timestep(690)), Some(&1000));
    assert_eq!(schedule.network_consumption.get(Time::from_timestep(749)), Some(&1000));
    assert_eq!(schedule.network_consumption.get(Time::from_timestep(750)), Some(&0));
}

#[test]
fn short_annealing_does_not_end_above_the_earliest_placement() {
    let (first, last) = anneal(placement_context(), 0.5, 25);
    assert!(last <= first);
}

#[test]
fn undo_restores_the_cost() {
    let mut state = State::new(second_context()).unwrap();
    let before = state.get_cost().unwrap();
    let window = RandomMoveChange::window(&state, 2);
    let m = RandomMoveChange::new(&window, 600).unwrap();
    m.apply(&mut state);
    assert_eq!(state.get_constant_action(2).get_start_time(), Time::from_timestep(600));
    let moved = state.get_cost().unwrap();
    assert_ne!(moved, before);
    m.undo(&mut state);
    assert_eq!(state.get_constant_action(2).get_start_time(), Time::from_timestep(0));
    assert_eq!(state.get_cost().unwrap(), before);
}

#[test]
fn empty_compound_move_changes_nothing() {
    let mut state = State::new(second_context()).unwrap();
    let before = state.get_cost().unwrap();
    let nothing = MultiChange::new(vec![]);
    nothing.apply(&mut state);
    assert_eq!(state.get_cost().unwrap(), before);
    nothing.undo(&mut state);
    assert_eq!(state.get_cost().unwrap(), before);
}

#[test]
fn compound_move_of_one_load_twice_is_taken_back() {
    let mut state = State::new(second_context()).unwrap();
    let before = state.get_cost().unwrap();
    let window = RandomMoveChange::window(&state, 2);
    let a = RandomMoveChange::new(&window, 300).unwrap();
    let b = RandomMoveChange::new(&window, 900).unwrap();
    let both = MultiChange::new(vec![a, b]);
    both.apply(&mut state);
    assert_eq!(state.get_constant_action(2).get_start_time(), Time::from_timestep(900));
    both.undo(&mut state);
    assert_eq!(state.get_constant_action(2).get_start_time(), Time::from_timestep(0));
    assert_eq!(state.get_cost().unwrap(), before);
}

#[test]
fn improving_change_is_kept_and_worsening_change_is_taken_back() {
    let mut state = State::new(placement_context()).unwrap();
    let earliest = state.get_cost().unwrap();
    let window = RandomMoveChange::window(&state, 1);
    let better = RandomMoveChange::new(&window, 690).unwrap();
    better.apply(&mut state);
    let at_noon = state.get_cost().unwrap();
    assert!(!needs_draw(earliest, at_noon));
    assert_eq!(settle(&mut state, &better, earliest, at_noon, false), at_noon);
    assert_eq!(state.get_constant_action(1).get_start_time(), Time::from_timestep(690));

    let window = RandomMoveChange::window(&state, 1);
    let worse = RandomMoveChange::new(&window, 100).unwrap();
    worse.apply(&mut state);
    let early = state.get_cost().unwrap();
    assert!(needs_draw(at_noon, early));
    assert_eq!(cost_rise(at_noon, early), (early - at_noon) as i128);
    assert_eq!(settle(&mut state, &worse, at_noon, early, false), at_noon);
    assert_eq!(state.get_constant_action(1).get_start_time(), Time::from_timestep(690));
    assert_eq!(state.get_cost().unwrap(), at_noon);

    worse.apply(&mut state);
    assert_eq!(settle(&mut state, &worse, at_noon, early, true), early);
    assert_eq!(state.get_constant_action(1).get_start_time(), Time::from_timestep(100));
}

#[test]
fn move_outside_the_window_is_refused() {
    let state = State::new(placement_context()).unwrap();
    let window = RandomMoveChange::window(&state, 1);
    assert!(window.movable());
    assert!(RandomMoveChange::new(&window, 0).is_none());
    assert!(RandomMoveChange::new(&window, -1).is_none());
    assert!(RandomMoveChange::new(&window, 1376).is_none());
    assert!(RandomMoveChange::new(&window, 1375).is_some());
}

#[test]
fn pick_draws_one_of_the_loads() {
    let state = State::new(second_context()).unwrap();
    let mut rng = rand::rng();
    let window = RandomMoveChange::pick(&mut rng, &state).unwrap();
    assert_eq!(window.action_id, 2);
    assert_eq!(window.current, Time::from_timestep(0));
    assert_eq!(window.latest, Time::from_timestep(23 * 60 + 55 - 60));
    let empty = State::new(OptimizerContext::new(
        Prognoses::constant(1),
        Prognoses::constant(0),
        Prognoses::constant(0),
        vec![],
        vec![],
        vec![],
        StepFraction::full(),
    ))
    .unwrap();
    assert!(RandomMoveChange::pick(&mut rng, &empty).is_none());
}

fn refusal(context: OptimizerContext) -> OptimizeError {
    match State::new(context) {
        Ok(_) => panic!("the context was taken"),
        Err(e) => e,
    }
}

fn context_with(
    batteries: Vec<Battery>,
    constants: Vec<ConstantAction>,
    variables: Vec<VariableAction>,
) -> OptimizerContext {
    OptimizerContext::new(
        Prognoses::constant(10),
        Prognoses::constant(0),
        Prognoses::constant(0),
        batteries,
        constants,
        variables,
        StepFraction::full(),
    )
}

#[test]
fn each_refusal_has_its_error() {
    let negative = OptimizerContext::new(
        Prognoses::constant(-1),
        Prognoses::constant(0),
        Prognoses::constant(0),
        vec![],
        vec![],
        vec![],
        StepFraction::full(),
    );
    assert_eq!(refusal(negative), OptimizeError::NegativeForecast);
    let fraction = OptimizerContext::new(
        Prognoses::constant(1),
        Prognoses::constant(0),
        Prognoses::constant(0),
        vec![],
        vec![],
        vec![],
        StepFraction { numerator: 3, denominator: 2 },
    );
    assert_eq!(refusal(fraction), OptimizeError::FirstTimestepFraction);
    let huge = OptimizerContext::new(
        Prognoses::constant(1),
        Prognoses::constant(0),
        Prognoses::constant(i64::MAX / 2),
        vec![],
        vec![],
        vec![],
        StepFraction::full(),
    );
    assert_eq!(refusal(huge), OptimizeError::TooLarge);
    let battery = Battery { capacity: 5, initial_level: 1, maximum_charge_rate: -1, maximum_output_rate: 1, id: 4 };
    assert_eq!(refusal(context_with(vec![battery], vec![], vec![])), OptimizeError::BatteryNegative(4));
    let battery = Battery { capacity: 5, initial_level: 6, maximum_charge_rate: 1, maximum_output_rate: 1, id: 4 };
    assert_eq!(refusal(context_with(vec![battery], vec![], vec![])), OptimizeError::BatteryInitialLevel(4));
    let battery = Battery::new(5, 1, 1, 1, 4);
    assert_eq!(refusal(context_with(vec![battery, battery], vec![], vec![])), OptimizeError::DuplicateId(4));
    let load = VariableAction { start: Time::new(1, 0), end: Time::new(2, 0), total_consumption: -1, max_consumption: 1, id: 8 };
    assert_eq!(refusal(context_with(vec![], vec![], vec![load])), OptimizeError::VariableNegative(8));
    let load = VariableAction { start: Time::new(2, 0), end: Time::new(2, 0), total_consumption: 1, max_consumption: 1, id: 8 };
    assert_eq!(refusal(context_with(vec![], vec![], vec![load])), OptimizeError::VariableWindow(8));
    let load = VariableAction::new(Time::new(2, 0), Time::new(25, 0), 1, 1, 8);
    assert_eq!(refusal(context_with(vec![], vec![], vec![load])), OptimizeError::VariableWindow(8));
    let load = VariableAction::new(Time::new(2, 0), Time::new(3, 0), 1, 1, 8);
    assert_eq!(refusal(context_with(vec![], vec![], vec![load, load])), OptimizeError::DuplicateId(8));
    let load = ConstantAction { start_from: Time::new(0, 0), end_before: Time::new(2, 0), duration: Time::new(1, 0), consumption: -5, id: 9 };
    assert_eq!(refusal(context_with(vec![], vec![load], vec![])), OptimizeError::ConstantNegative(9));
    let load = ConstantAction { start_from: Time::new(1, 30), end_before: Time::new(2, 0), duration: Time::new(1, 0), consumption: 5, id: 9 };
    assert_eq!(refusal(context_with(vec![], vec![load], vec![])), OptimizeError::ConstantWindow(9));
    let load = ConstantAction::new(Time::new(0, 0), Time::new(2, 0), Time::new(1, 0), 5, 9);
    assert_eq!(refusal(context_with(vec![], vec![load, load], vec![])), OptimizeError::DuplicateId(9));
    let mut state = State::new(context_with(vec![], vec![], vec![VariableAction::new(Time::new(2, 0), Time::new(3, 0), 61, 1, 8)])).unwrap();
    assert_eq!(state.get_cost(), Err(OptimizeError::Infeasible));
}

#[test]
fn battery_comes_before_variable_load_among_refusals() {
    let battery = Battery { capacity: 5, initial_level: 6, maximum_charge_rate: 1, maximum_output_rate: 1, id: 4 };
    let load = VariableAction { start: Time::new(1, 0), end: Time::new(2, 0), total_consumption: -1, max_consumption: 1, id: 8 };
    assert_eq!(refusal(context_with(vec![battery], vec![], vec![load])), OptimizeError::BatteryInitialLevel(4));
}
