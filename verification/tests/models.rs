use electricity_price_optimizer::alignment::{
    check_on_timestep_boundary, duration_to_time, stamp_to_time, time_to_nanos, AlignError, Stamp,
    NANOS_PER_MINUTE,
};
use electricity_price_optimizer::helper::stack_proxy::StackProxy;
use electricity_price_optimizer::optimizer::flow::heap::MinHeap;
use electricity_price_optimizer::optimizer::flow::wrapper::{FlowNode, FlowWrapper, IntoNode};
use electricity_price_optimizer::optimizer_context::action::constant::{AssignedConstantAction, ConstantAction};
use electricity_price_optimizer::optimizer_context::action::variable::{AssignedVariableAction, VariableAction};
use electricity_price_optimizer::optimizer_context::fraction::StepFraction;
use electricity_price_optimizer::optimizer_context::prognoses::Prognoses;
use electricity_price_optimizer::optimizer_context::OptimizerContext;
use electricity_price_optimizer::time::{Time, MINUTES_PER_TIMESTEP, STEPS_PER_DAY};

#[test]
fn time_counts_minutes() {
    assert_eq!(STEPS_PER_DAY, 1440);
    assert_eq!(MINUTES_PER_TIMESTEP, 1);
    let t = Time::new(1, 15);
    assert_eq!(t.get_minutes(), 75);
    assert_eq!(t.to_timestep(), 75);
    assert_eq!(Time::from_timestep(75), t);
    assert_eq!(t.get_next_timestep(), Time::from_timestep(76));
    assert_eq!(Time::get_day_end(), Time::new(24, 0));
    assert_eq!(Time::new(1, 0) + Time::new(0, 30), Time::new(1, 30));
    assert_eq!(Time::new(1, 30) - Time::new(0, 45), Time::new(0, 45));
    assert!(Time::new(0, 59) < Time::new(1, 0));
}

#[test]
fn prognoses_holds_one_value_per_step() {
    assert!(Prognoses::new(vec![1i64; 1439]).is_none());
    assert!(Prognoses::new(vec![1i64; 1441]).is_none());
    let mut p = Prognoses::new(vec![1i64; 1440]).unwrap();
    assert_eq!(p.get(Time::from_timestep(0)), Some(&1));
    assert_eq!(p.get(Time::from_timestep(1439)), Some(&1));
    assert_eq!(p.get(Time::from_timestep(1440)), None);
    p.set(Time::from_timestep(7), 9);
    p.set(Time::from_timestep(1440), 9);
    assert_eq!(p.get(Time::from_timestep(7)), Some(&9));
    assert_eq!(p.get_data().len(), 1440);
    assert_eq!(p.get_data().iter().sum::<i64>(), 1439 + 9);
    assert_eq!(p.at(7), 9);
    let q = p.clone();
    assert_eq!(q.get_data(), p.get_data());
}

#[test]
fn prognoses_adds_series_and_loads() {
    let mut p = Prognoses::constant(2);
    p.add_assign(&Prognoses::constant(3));
    assert!(p.get_data().iter().all(|v| *v == 5));
    let load = ConstantAction::new(Time::new(1, 0), Time::new(5, 0), Time::new(2, 0), 40, 6);
    let assigned = load.with_start_time(Time::new(2, 0));
    p.add_constant_action(&assigned);
    assert_eq!(p.at(119), 5);
    assert_eq!(p.at(120), 45);
    assert_eq!(p.at(239), 45);
    assert_eq!(p.at(240), 5);
    let mut context = OptimizerContext::new(
        Prognoses::constant(1),
        Prognoses::constant(0),
        Prognoses::constant(10),
        vec![],
        vec![load],
        vec![],
        StepFraction::full(),
    );
    context.add_constant_action_to_consumption(&assigned);
    assert_eq!(context.get_beyond_control_consumption().at(120), 50);
    assert_eq!(context.get_beyond_control_consumption().at(240), 10);
    assert_eq!(context.get_constant_actions().len(), 1);
    assert_eq!(context.get_first_timestep_fraction(), StepFraction::full());
}

#[test]
fn fraction_rounds_to_the_nearest_with_halves_up() {
    assert!(StepFraction::new(0, 5).is_none());
    assert!(StepFraction::new(6, 5).is_none());
    assert!(StepFraction::new(1, 0).is_none());
    let half = StepFraction::new(1, 2).unwrap();
    assert_eq!(half.scale(10), 5);
    assert_eq!(half.scale(7), 4);
    assert_eq!(half.scale(0), 0);
    let third = StepFraction::new(1, 3).unwrap();
    assert_eq!(third.scale(10), 3);
    assert_eq!(third.scale(11), 4);
    assert_eq!(StepFraction::full().scale(i64::MAX), i64::MAX);
    assert_eq!(StepFraction::new(u64::MAX - 1, u64::MAX).unwrap().scale(i64::MAX), i64::MAX);
}

#[test]
fn assigned_loads_know_their_steps() {
    let load = ConstantAction::new(Time::new(1, 0), Time::new(5, 0), Time::new(2, 0), 40, 6);
    assert!(load.admits(Time::new(1, 0)));
    assert!(load.admits(Time::new(3, 0)));
    assert!(!load.admits(Time::new(3, 1)));
    assert!(!load.admits(Time::new(0, 59)));
    let mut assigned = AssignedConstantAction::new(load, Time::new(1, 30));
    assert_eq!(assigned.get_end_time(), Time::new(3, 30));
    assert_eq!(assigned.get_id(), 6);
    assert_eq!(assigned.get_action().get_end_before(), Time::new(5, 0));
    *assigned.get_start_time_mut() = Time::new(2, 0);
    assert_eq!(assigned.get_start_time(), Time::new(2, 0));
    let other = ConstantAction::new(Time::new(0, 0), Time::new(9, 0), Time::new(1, 0), 1, 6);
    assert!(assigned == AssignedConstantAction::new(other, Time::new(2, 0)));
    assert!(assigned != AssignedConstantAction::new(load, Time::new(2, 1)));
    let variable = VariableAction::new(Time::new(1, 0), Time::new(1, 3), 5, 2, 8);
    let held = AssignedVariableAction::new(variable, vec![2, 1, 2]);
    assert_eq!(held.get_consumption(Time::new(1, 1)), 1);
    assert_eq!(held.get_id(), 8);
    assert_eq!(held.get_action().get_total_consumption(), 5);
}

#[test]
fn stack_restores_the_state_below() {
    let mut stack = StackProxy::new(vec![1, 2, 3]);
    assert_eq!(stack.depth(), 1);
    stack.push();
    assert_eq!(stack.depth(), 2);
    stack.top_mut().push(4);
    stack.top_mut().clear();
    assert_eq!(stack.top(), &Vec::<i32>::new());
    stack.pop();
    assert_eq!(stack.depth(), 1);
    assert_eq!(stack.top(), &vec![1, 2, 3]);
    let fresh: StackProxy<Vec<i32>> = StackProxy::default();
    assert_eq!(fresh.depth(), 1);
}

#[test]
fn stack_of_networks_keeps_handles() {
    let mut w = FlowWrapper::new();
    let h = w.add_edge(FlowNode::Source, FlowNode::Network, 5, 2);
    let k = w.add_edge(FlowNode::Network, FlowNode::Sink, 3, 1);
    let mut stack = StackProxy::new(w);
    stack.push();
    let extra = stack.top_mut().add_edge(FlowNode::Network, FlowNode::Sink, 1, 7);
    assert_eq!(stack.top_mut().mincostflow(), (3 * 3 + 9, 4));
    assert_eq!(stack.top().get_flow(h), 4);
    assert_eq!(stack.top().get_flow(k), 3);
    assert_eq!(stack.top().get_flow(extra), 1);
    stack.pop();
    assert_eq!(stack.top().get_flow(h), 0);
    assert_eq!(stack.top().inner().arc_count(), 4);
    stack.push();
    assert_eq!(stack.top_mut().mincostflow(), (9, 3));
}

#[test]
fn wrapper_finds_each_node_by_its_key() {
    let mut w = FlowWrapper::default();
    assert_eq!(w.source(), 0);
    assert_eq!(w.sink(), 1);
    let wire = FlowNode::Wire(Time::from_timestep(0)).into_node(&mut w);
    let action = FlowNode::Action(0).into_node(&mut w);
    let network = FlowNode::Network.into_node(&mut w);
    let generator = FlowNode::Generator.into_node(&mut w);
    let battery = FlowNode::Battery(0, Time::from_timestep(0)).into_node(&mut w);
    let later = FlowNode::Battery(0, Time::from_timestep(1)).into_node(&mut w);
    let other = FlowNode::Action(1).into_node(&mut w);
    let mut ids = vec![wire, action, network, generator, battery, later, other];
    assert_eq!(ids, vec![2, 3, 4, 5, 6, 7, 8]);
    ids.dedup();
    assert_eq!(ids.len(), 7);
    assert_eq!(FlowNode::Wire(Time::from_timestep(0)).into_node(&mut w), wire);
    assert_eq!(FlowNode::Battery(0, Time::from_timestep(1)).into_node(&mut w), later);
    assert_eq!(FlowNode::Source.into_node(&mut w), 0);
    assert_eq!(FlowNode::Sink.into_node(&mut w), 1);
    assert_eq!(w.node((9, 9)), 9);
    assert_eq!(w.node((9, 9)), 9);
    assert_eq!(w.new_node(), 10);
    assert_eq!(w.inner().node_count(), 11);
    let copy = w.clone();
    assert_eq!(copy.inner().node_count(), 11);
}

#[test]
fn heap_hands_out_the_least_first() {
    let mut heap = MinHeap::new();
    assert_eq!(heap.pop(), None);
    for entry in [(5, 1), (3, 9), (3, 2), (8, 0), (-1, 4), (5, 1), (0, 0)] {
        heap.push(entry);
    }
    assert_eq!(heap.len(), 7);
    let mut out = Vec::new();
    while let Some(entry) = heap.pop() {
        out.push(entry);
    }
    assert_eq!(out, vec![(-1, 4), (0, 0), (3, 2), (3, 9), (5, 1), (5, 1), (8, 0)]);
}

fn stamp(nanos: i64, minute: u32, second: u32, subsec_nanos: u32) -> Stamp {
    Stamp { nanos, minute, second, subsec_nanos }
}

#[test]
fn timestamps_land_on_the_grid() {
    let start = 1_700_000_000 * 1_000_000_000i64;
    // The start lies 20 seconds into minute 13.
    let at_start = stamp(start, 13, 20, 0);
    assert_eq!(time_to_nanos(Time::from_timestep(0), start), Some(start));
    assert_eq!(time_to_nanos(Time::from_timestep(1), start), Some(start + 40 * 1_000_000_000));
    assert_eq!(time_to_nanos(Time::from_timestep(2), start), Some(start + 100 * 1_000_000_000));
    assert_eq!(time_to_nanos(Time::from_timestep(1), i64::MAX - 5), None);
    let next = stamp(start + 40 * 1_000_000_000, 14, 0, 0);
    assert_eq!(check_on_timestep_boundary(&at_start, &at_start), Ok(()));
    assert_eq!(check_on_timestep_boundary(&next, &at_start), Ok(()));
    assert_eq!(
        check_on_timestep_boundary(&stamp(start + 1, 13, 20, 1), &at_start),
        Err(AlignError::OffBoundary)
    );
    assert_eq!(
        check_on_timestep_boundary(&stamp(start - 1, 13, 19, 999_999_999), &at_start),
        Err(AlignError::BeforeStart)
    );
    assert_eq!(stamp_to_time(&at_start, &at_start), Ok(Time::from_timestep(0)));
    assert_eq!(stamp_to_time(&next, &at_start), Ok(Time::from_timestep(1)));
    assert_eq!(
        stamp_to_time(&stamp(start + 100 * 1_000_000_000, 15, 0, 0), &at_start),
        Ok(Time::from_timestep(2))
    );
    assert_eq!(stamp_to_time(&stamp(start - 1, 13, 19, 999_999_999), &at_start), Err(AlignError::BeforeStart));
    assert_eq!(
        stamp_to_time(&stamp(i64::MAX, 0, 0, 0), &stamp(i64::MIN + 100, 0, 0, 0)),
        Ok(Time::from_timestep(307445734))
    );
}

#[test]
fn durations_are_whole_timesteps_below_a_day() {
    assert_eq!(duration_to_time(90 * NANOS_PER_MINUTE), Ok(Time::new(1, 30)));
    assert_eq!(duration_to_time(0), Ok(Time::new(0, 0)));
    assert_eq!(duration_to_time(90 * NANOS_PER_MINUTE + 5), Ok(Time::new(1, 30)));
    assert_eq!(duration_to_time(1440 * NANOS_PER_MINUTE), Err(AlignError::DayOrLonger));
    assert_eq!(duration_to_time(-1440 * NANOS_PER_MINUTE), Err(AlignError::DayOrLonger));
    assert_eq!(duration_to_time(-NANOS_PER_MINUTE), Err(AlignError::BrokenDuration));
}
