use electricity_price_optimizer::error::OptimizeError;
use electricity_price_optimizer::optimizer::builder::SmartHomeFlowBuilder;
use electricity_price_optimizer::optimizer_context::action::variable::VariableAction;
use electricity_price_optimizer::optimizer_context::battery::Battery;
use electricity_price_optimizer::optimizer_context::fraction::StepFraction;
use electricity_price_optimizer::optimizer_context::prognoses::Prognoses;
use electricity_price_optimizer::time::Time;

#[test]
fn pure_grid_without_loads_costs_nothing() {
    let price = Prognoses::constant(10);
    let zero = Prognoses::constant(0);
    let mut flow = SmartHomeFlowBuilder::new(&zero, &price, &zero, StepFraction::full())
        .unwrap()
        .build();
    assert_eq!(flow.get_cost(), Ok(0));
    let schedule = flow.get_schedule().unwrap();
    for t in 0..1440u32 {
        assert_eq!(schedule.network_consumption.get(Time::from_timestep(t)), Some(&0));
    }
}

#[test]
fn uncontrolled_consumption_is_imported() {
    let price = Prognoses::constant(10);
    let zero = Prognoses::constant(0);
    let five = Prognoses::constant(5);
    let mut flow = SmartHomeFlowBuilder::new(&zero, &price, &five, StepFraction::full())
        .unwrap()
        .build();
    assert_eq!(flow.get_cost(), Ok(72000));
    let schedule = flow.get_schedule().unwrap();
    for t in 0..1440u32 {
        assert_eq!(schedule.network_consumption.get(Time::from_timestep(t)), Some(&5));
    }
}

#[test]
fn battery_shifts_load_to_the_cheap_step() {
    let mut price = Prognoses::constant(100);
    price.set(Time::from_timestep(0), 10);
    let zero = Prognoses::constant(0);
    let battery = Battery::new(10, 0, 10, 7, 1);
    let load = VariableAction::new(Time::from_timestep(0), Time::from_timestep(10), 40, 10, 3);
    let mut flow = SmartHomeFlowBuilder::new(&zero, &price, &zero, StepFraction::full())
        .unwrap()
        .add_battery(&battery)
        .unwrap()
        .add_action(&load)
        .unwrap()
        .build();
    // 10 units go to the load and 10 into the battery at step 0, at 10 each;
    // the other 20 are bought later at 100 each.
    assert_eq!(flow.get_cost(), Ok(20 * 10 + 20 * 100));
    let schedule = flow.get_schedule().unwrap();
    let assigned = schedule.get_variable_action(3).unwrap();
    assert_eq!(assigned.consumption.iter().sum::<i64>(), 40);
    assert!(assigned.consumption.iter().all(|c| 0 <= *c && *c <= 10));
    let b = schedule.get_battery(1).unwrap();
    assert_eq!(b.get_charge_level(Time::from_timestep(0)), Some(&0));
    assert_eq!(b.get_charge_level(Time::from_timestep(1)), Some(&10));
    for t in 0..1440u32 {
        let level = *b.get_charge_level(Time::from_timestep(t)).unwrap();
        assert!(0 <= level && level <= 10);
        let c = *b.charged.get(Time::from_timestep(t)).unwrap();
        let d = *b.discharged.get(Time::from_timestep(t)).unwrap();
        assert!(0 <= c && c <= 10);
        assert!(0 <= d && d <= 7);
    }
    assert_eq!(schedule.network_consumption.get(Time::from_timestep(0)), Some(&20));
}

#[test]
fn impossible_total_is_infeasible() {
    let price = Prognoses::constant(10);
    let zero = Prognoses::constant(0);
    let load = VariableAction::new(Time::from_timestep(5), Time::from_timestep(6), 1_000_000_000, 1, 7);
    let mut flow = SmartHomeFlowBuilder::new(&zero, &price, &zero, StepFraction::full())
        .unwrap()
        .add_action(&load)
        .unwrap()
        .build();
    assert_eq!(flow.get_cost(), Err(OptimizeError::Infeasible));
    assert!(matches!(flow.get_schedule(), Err(OptimizeError::Infeasible)));
}

#[test]
fn first_step_rates_are_cut_down() {
    let mut price = Prognoses::constant(100);
    price.set(Time::from_timestep(0), 1);
    let zero = Prognoses::constant(0);
    let battery = Battery::new(1000, 0, 10, 10, 1);
    let load = VariableAction::new(Time::from_timestep(0), Time::from_timestep(2), 12, 9, 3);
    let mut flow = SmartHomeFlowBuilder::new(&zero, &price, &zero, StepFraction::new(1, 3).unwrap())
        .unwrap()
        .add_battery(&battery)
        .unwrap()
        .add_action(&load)
        .unwrap()
        .build();
    // On the first step the load takes at most 3 and the battery at most 3
    // (a third of 9 and of 10, rounded); the load needs 12 in two steps, so
    // it takes 3 and 9, and 3 of the 9 come out of the battery.
    assert_eq!(flow.get_cost(), Ok(6 * 1 + 6 * 100));
    let schedule = flow.get_schedule().unwrap();
    let assigned = schedule.get_variable_action(3).unwrap();
    assert_eq!(assigned.consumption, vec![3, 9]);
    let b = schedule.get_battery(1).unwrap();
    assert_eq!(b.charged.get(Time::from_timestep(0)), Some(&3));
    assert_eq!(b.get_charge_level(Time::from_timestep(1)), Some(&3));
    assert_eq!(b.discharged.get(Time::from_timestep(1)), Some(&3));
    assert_eq!(b.get_final_level(), 0);
    assert_eq!(b.get_battery().get_capacity(), 1000);
}

#[test]
fn builder_refuses_what_does_not_fit() {
    let price = Prognoses::constant(10);
    let zero = Prognoses::constant(0);
    let builder = || SmartHomeFlowBuilder::new(&zero, &price, &zero, StepFraction::full()).unwrap();
    let battery = Battery::new(10, 5, 1, 1, 1);
    assert!(matches!(
        builder().add_battery(&battery).unwrap().add_battery(&battery),
        Err(OptimizeError::DuplicateId(1))
    ));
    assert!(matches!(
        builder().add_batteries(&vec![battery, Battery::new(10, 5, 1, 1, 2), battery]),
        Err(OptimizeError::DuplicateId(1))
    ));
    let both = builder().add_batteries(&vec![battery, Battery::new(10, 5, 1, 1, 2)]).unwrap();
    assert!(both.holds_battery(2));
    assert!(!both.holds_battery(3));
    let load = VariableAction::new(Time::from_timestep(0), Time::from_timestep(2), i64::MAX, 9, 3);
    let more = VariableAction::new(Time::from_timestep(0), Time::from_timestep(2), 1, 9, 4);
    assert!(matches!(builder().add_actions(&vec![load, more]), Err(OptimizeError::TooLarge)));
    let held = builder().add_actions(&vec![more]).unwrap();
    assert!(held.holds_variable(4));
    assert_eq!(held.demand, 1);
    assert!(matches!(
        SmartHomeFlowBuilder::new(&zero, &price, &zero, StepFraction { numerator: 0, denominator: 1 }),
        Err(OptimizeError::FirstTimestepFraction)
    ));
}

#[test]
fn generation_is_used_before_the_grid() {
    let price = Prognoses::constant(10);
    let generated = Prognoses::constant(3);
    let consumed = Prognoses::constant(5);
    let mut flow = SmartHomeFlowBuilder::new(&generated, &price, &consumed, StepFraction::full())
        .unwrap()
        .build();
    assert_eq!(flow.get_cost(), Ok(10 * 2 * 1440));
    let schedule = flow.get_schedule().unwrap();
    assert_eq!(schedule.network_consumption.get(Time::from_timestep(700)), Some(&2));
    assert!(schedule.constant_actions.is_empty());
    assert!(schedule.batteries.is_empty());
}

#[test]
fn identical_builds_give_identical_schedules() {
    let build = || {
        let mut price = Prognoses::constant(50);
        price.set(Time::from_timestep(3), 5);
        let zero = Prognoses::constant(0);
        let battery = Battery::new(100, 20, 10, 10, 1);
        let load = VariableAction::new(Time::from_timestep(0), Time::from_timestep(30), 100, 10, 3);
        let mut flow = SmartHomeFlowBuilder::new(&zero, &price, &Prognoses::constant(1), StepFraction::full())
            .unwrap()
            .add_battery(&battery)
            .unwrap()
            .add_action(&load)
            .unwrap()
            .build();
        let cost = flow.get_cost().unwrap();
        let schedule = flow.get_schedule().unwrap();
        let import: Vec<i64> = schedule.network_consumption.get_data().clone();
        let levels: Vec<i64> = schedule.get_battery(1).unwrap().charge_level.get_data().clone();
        let taken = schedule.get_variable_action(3).unwrap().consumption.clone();
        (cost, import, levels, taken)
    };
    assert_eq!(build(), build());
}

#[test]
fn cost_is_what_the_import_costs() {
    let mut data = Vec::new();
    for t in 0..1440i64 {
        data.push(1 + (t * 7) % 13);
    }
    let price = Prognoses::new(data.clone()).unwrap();
    let zero = Prognoses::constant(0);
    let battery = Battery::new(50, 0, 5, 5, 1);
    let load = VariableAction::new(Time::from_timestep(100), Time::from_timestep(400), 900, 4, 3);
    let mut flow = SmartHomeFlowBuilder::new(&zero, &price, &Prognoses::constant(2), StepFraction::full())
        .unwrap()
        .add_battery(&battery)
        .unwrap()
        .add_action(&load)
        .unwrap()
        .build();
    let cost = flow.get_cost().unwrap();
    let schedule = flow.get_schedule().unwrap();
    let import = schedule.network_consumption.get_data();
    let paid: i64 = (0..1440).map(|t| data[t] * import[t]).sum();
    assert_eq!(cost, paid);
    assert_eq!(schedule.get_variable_action(3).unwrap().consumption.iter().sum::<i64>(), 900);
    assert_eq!(import.iter().sum::<i64>(), 2 * 1440 + 900);
}

#[test]
fn prices_beyond_the_sentinel_make_the_solver_give_up() {
    let price = Prognoses::constant(1i64 << 61);
    let zero = Prognoses::constant(0);
    let one = Prognoses::constant(1);
    let mut flow = SmartHomeFlowBuilder::new(&zero, &price, &one, StepFraction::full())
        .unwrap()
        .build();
    assert_eq!(flow.get_cost(), Err(OptimizeError::Internal));
    assert!(matches!(flow.get_schedule(), Err(OptimizeError::Internal)));
}

#[test]
fn large_but_modest_prices_are_solved() {
    let price = Prognoses::constant(1_000_000_000);
    let zero = Prognoses::constant(0);
    let load = Prognoses::constant(1_000);
    let mut flow = SmartHomeFlowBuilder::new(&zero, &price, &load, StepFraction::full())
        .unwrap()
        .build();
    assert_eq!(flow.get_cost(), Ok(1_000_000_000i64 * 1_000 * 1440));
}

#[test]
fn battery_levels_follow_from_what_it_takes_and_gives() {
    let mut data = Vec::new();
    for t in 0..1440i64 {
        data.push(1 + (t * 11) % 17);
    }
    let price = Prognoses::new(data).unwrap();
    let zero = Prognoses::constant(0);
    let battery = Battery::new(40, 5, 6, 4, 2);
    let other = Battery::new(15, 0, 3, 3, 9);
    let mut flow = SmartHomeFlowBuilder::new(&zero, &price, &Prognoses::constant(3), StepFraction::full())
        .unwrap()
        .add_batteries(&vec![battery, other])
        .unwrap()
        .build();
    let schedule = flow.get_schedule().unwrap();
    for id in [2u32, 9u32] {
        let b = schedule.get_battery(id).unwrap();
        let rates = b.get_battery();
        for t in 1..1439u32 {
            let now = *b.get_charge_level(Time::from_timestep(t)).unwrap();
            let next = *b.get_charge_level(Time::from_timestep(t + 1)).unwrap();
            let taken = *b.charged.get(Time::from_timestep(t)).unwrap();
            let given = *b.discharged.get(Time::from_timestep(t)).unwrap();
            assert_eq!(next - now, taken - given);
            assert!(next - now <= rates.get_max_charge());
            assert!(now - next <= rates.get_max_output());
        }
        let last = *b.get_charge_level(Time::from_timestep(1439)).unwrap();
        let taken = *b.charged.get(Time::from_timestep(1439)).unwrap();
        let given = *b.discharged.get(Time::from_timestep(1439)).unwrap();
        assert_eq!(b.get_final_level() - last, taken - given);
    }
}
