use simpy_rs::kernel::{Duration, Event, Priority, SimTime, Simulation};
use simpy_rs::SimError;

#[test]
fn test_basic_simulation() {
    let mut sim = Simulation::new();
    let mut ids: Vec<u64> = Vec::new();
    let mut i: u64 = 0;
    while i < 5 {
        let id = sim
            .schedule_after(Duration::from_seconds(i), Priority::Normal)
            .unwrap();
        ids.push(id);
        i += 1;
    }
    let fired = sim.run_for(Duration::from_seconds(10)).unwrap();
    let results: Vec<u64> = fired.iter().map(|e| e.id).collect();
    assert_eq!(results, vec![0, 1, 2, 3, 4]);
    assert_eq!(ids, vec![0, 1, 2, 3, 4]);
    assert_eq!(sim.now().as_seconds(), 4);
    assert!(!sim.has_events());
}

#[test]
fn high_priority_fires_first_at_equal_time() {
    let mut sim = Simulation::new();
    let normal = sim.schedule_at(SimTime::new(5), Priority::Normal).unwrap();
    let high = sim.schedule_at(SimTime::new(5), Priority::High).unwrap();
    let first = sim.process_next_event().unwrap();
    let second = sim.process_next_event().unwrap();
    assert_eq!(first.id, high);
    assert_eq!(first.priority, Priority::High);
    assert_eq!(second.id, normal);
    assert_eq!(sim.now().as_seconds(), 5);
}

#[test]
fn equal_time_and_priority_fire_in_insertion_order() {
    let mut sim = Simulation::new();
    let a = sim.schedule_at(SimTime::new(2), Priority::Low).unwrap();
    let b = sim.schedule_at(SimTime::new(2), Priority::Low).unwrap();
    let c = sim.schedule_at(SimTime::new(1), Priority::Low).unwrap();
    assert_eq!(sim.process_next_event().unwrap().id, c);
    assert_eq!(sim.process_next_event().unwrap().id, a);
    assert_eq!(sim.process_next_event().unwrap().id, b);
}

#[test]
fn scheduling_in_the_past_is_an_error() {
    let mut sim = Simulation::new();
    sim.schedule_at(SimTime::new(3), Priority::Normal).unwrap();
    sim.process_next_event().unwrap();
    let r = sim.schedule_at(SimTime::new(2), Priority::Normal);
    assert!(matches!(r, Err(SimError::SimulationError(_))));
    assert!(!sim.has_events());
    assert_eq!(sim.now().as_seconds(), 3);
}

#[test]
fn pop_from_empty_queue_is_an_error() {
    let mut sim = Simulation::new();
    let r = sim.process_next_event();
    assert!(matches!(r, Err(SimError::SimulationError(_))));
    assert_eq!(sim.now().as_seconds(), 0);
}

#[test]
fn clear_drops_pending_events() {
    let mut sim = Simulation::new();
    sim.schedule_at(SimTime::new(1), Priority::Normal).unwrap();
    sim.schedule_at(SimTime::new(2), Priority::Normal).unwrap();
    assert!(sim.has_events());
    sim.clear_events();
    assert!(!sim.has_events());
    assert_eq!(sim.next_event_time(), None);
    let id = sim.schedule_at(SimTime::new(1), Priority::Normal).unwrap();
    assert_eq!(id, 2);
}

#[test]
fn set_time_moves_forward_only() {
    let mut sim = Simulation::new();
    sim.schedule_at(SimTime::new(10), Priority::Normal).unwrap();
    assert!(sim.set_time(SimTime::new(4)).is_ok());
    assert_eq!(sim.now().as_seconds(), 4);
    assert!(matches!(
        sim.set_time(SimTime::new(3)),
        Err(SimError::SimulationError(_))
    ));
    assert!(matches!(
        sim.set_time(SimTime::new(11)),
        Err(SimError::SimulationError(_))
    ));
    assert_eq!(sim.now().as_seconds(), 4);
    assert!(sim.set_time(SimTime::new(10)).is_ok());
}

#[test]
fn run_until_stops_when_the_clock_reaches_the_end() {
    let mut sim = Simulation::new();
    sim.schedule_at(SimTime::new(1), Priority::Normal).unwrap();
    sim.schedule_at(SimTime::new(7), Priority::Normal).unwrap();
    sim.schedule_at(SimTime::new(9), Priority::Normal).unwrap();
    let fired = sim.run_until(SimTime::new(5)).unwrap();
    let times: Vec<u64> = fired.iter().map(|e| e.time.as_seconds()).collect();
    assert_eq!(times, vec![1, 7]);
    assert_eq!(sim.now().as_seconds(), 7);
    assert_eq!(sim.next_event_time(), Some(SimTime::new(9)));
}

#[test]
fn take_due_takes_only_events_due_now() {
    let mut sim = Simulation::new();
    sim.schedule_at(SimTime::new(0), Priority::Low).unwrap();
    sim.schedule_at(SimTime::new(0), Priority::High).unwrap();
    sim.schedule_at(SimTime::new(1), Priority::High).unwrap();
    let due = sim.take_due();
    let ids: Vec<u64> = due.iter().map(|e| e.id).collect();
    assert_eq!(ids, vec![1, 0]);
    assert_eq!(sim.now().as_seconds(), 0);
    assert!(sim.has_events());
}

#[test]
fn time_arithmetic_saturates() {
    let big = SimTime::from_millis(u64::MAX - 1);
    assert_eq!(big.saturating_add(SimTime::from_millis(5)).as_millis(), u64::MAX);
    assert_eq!(big.saturating_add(SimTime::from_millis(1)).as_millis(), u64::MAX);
    assert_eq!(SimTime::new(3).saturating_add(SimTime::new(4)).as_seconds(), 7);
    assert_eq!(SimTime::new(3).saturating_sub(SimTime::new(4)).as_seconds(), 0);
    assert_eq!(SimTime::new(9).saturating_sub(SimTime::new(4)).as_seconds(), 5);
    assert_eq!(SimTime::zero(), SimTime::from_seconds(0));
    assert_eq!(Duration::from_seconds(12).as_seconds(), 12);
}

#[test]
fn time_is_counted_in_milliseconds() {
    assert_eq!(SimTime::new(3).as_millis(), 3_000);
    assert_eq!(SimTime::from_seconds(3), SimTime::from_millis(3_000));
    assert_eq!(SimTime::from_millis(2_999).as_seconds(), 2);
    assert_eq!(SimTime::from_millis(2_999).as_millis(), 2_999);
    assert_eq!(Duration::from_seconds(12).as_millis(), 12_000);
    assert_eq!(Duration::from_millis(1_500).as_seconds(), 1);
    assert_eq!(Duration::from_millis(1_500).as_millis(), 1_500);
    assert_eq!(SimTime::new(u64::MAX).as_millis(), u64::MAX);
    assert_eq!(SimTime::new(u64::MAX / 1000 + 1).as_millis(), u64::MAX);
    assert_eq!(SimTime::new(u64::MAX / 1000).as_millis(), u64::MAX / 1000 * 1000);
    assert_eq!(Duration::from_seconds(u64::MAX).as_millis(), u64::MAX);
}

#[test]
fn priority_ranks_and_event_order() {
    assert_eq!(Priority::High.rank(), 0);
    assert_eq!(Priority::Normal.rank(), 1);
    assert_eq!(Priority::Low.rank(), 2);
    let a = Event::new(SimTime::new(1), Priority::Low, 9);
    let b = Event::new(SimTime::new(2), Priority::High, 0);
    let c = Event::new(SimTime::new(2), Priority::Normal, 1);
    let d = Event::new(SimTime::new(2), Priority::Normal, 2);
    assert!(a.fires_before(&b));
    assert!(b.fires_before(&c));
    assert!(c.fires_before(&d));
    assert!(!d.fires_before(&c));
    assert!(!a.fires_before(&a));
}
