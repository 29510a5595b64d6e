use simpy_rs::kernel::{Duration, Priority, SimTime};
use simpy_rs::lua::{LogLevel, LuaCommand, ProcessMessage, ProcessState};
use simpy_rs::simulator::{RunOutcome, Simulator};
use simpy_rs::trace::{TraceEntry, TraceEvent};
use simpy_rs::SimError;

fn entries_of<'a>(sim: &'a Simulator, process: &str) -> Vec<&'a TraceEntry> {
    sim.trace().iter().filter(|e| e.process == process).collect()
}

fn time_of(sim: &Simulator, process: &str, event: &TraceEvent) -> Option<u64> {
    sim.trace()
        .iter()
        .find(|e| e.process == process && e.event == *event)
        .map(|e| e.time.as_seconds())
}

fn finished_at(sim: &Simulator, process: &str) -> Option<u64> {
    time_of(sim, process, &TraceEvent::Message(ProcessMessage::Finished))
}

const HOLD_3: &str = "function body() request('cashier'); wait(3); release('cashier') end";

#[test]
fn lone_sleeper() {
    let mut sim = Simulator::new();
    sim.load_process("p", "function body() wait(5); log('done') end", "body")
        .unwrap();
    let outcome = sim.run(Duration::from_seconds(10)).unwrap();
    assert_eq!(outcome, RunOutcome::Completed);
    let at_five: Vec<TraceEvent> = sim
        .trace()
        .iter()
        .filter(|e| e.time.as_seconds() == 5 && e.process == "p")
        .map(|e| e.event.clone())
        .collect();
    assert_eq!(
        at_five,
        vec![
            TraceEvent::Command(LuaCommand::Resume),
            TraceEvent::Message(ProcessMessage::Log("done".to_string(), LogLevel::Info)),
            TraceEvent::Message(ProcessMessage::Finished),
        ]
    );
    assert_eq!(sim.get_stats().time.as_seconds(), 5);
    assert_eq!(sim.now(), SimTime::new(5));
}

#[test]
fn resource_hand_off() {
    let mut sim = Simulator::new();
    sim.create_resource("cashier", 1).unwrap();
    sim.load_process("ann", HOLD_3, "body").unwrap();
    sim.load_process("bob", HOLD_3, "body").unwrap();

    assert_eq!(sim.run(Duration::from_seconds(0)).unwrap(), RunOutcome::Horizon);
    let stats = sim.get_stats();
    assert_eq!(stats.resources[0].available, 0);
    assert_eq!(stats.resources[0].queue_length, 1);
    assert_eq!(
        sim.process_state("bob"),
        Some(&ProcessState::WaitingForResource("cashier".to_string()))
    );

    assert_eq!(sim.run(Duration::from_seconds(3)).unwrap(), RunOutcome::Horizon);
    let stats = sim.get_stats();
    assert_eq!(stats.time.as_seconds(), 3);
    assert_eq!(stats.resources[0].available, 0);
    assert_eq!(stats.resources[0].queue_length, 0);
    assert_eq!(stats.resources[0].in_use, 1);

    assert_eq!(sim.run(Duration::from_seconds(17)).unwrap(), RunOutcome::Completed);
    let granted = TraceEvent::Command(LuaCommand::ResourceGranted("cashier".to_string()));
    let released = TraceEvent::Message(ProcessMessage::Release("cashier".to_string()));
    assert_eq!(time_of(&sim, "ann", &granted), Some(0));
    assert_eq!(time_of(&sim, "ann", &released), Some(3));
    assert_eq!(time_of(&sim, "bob", &granted), Some(3));
    assert_eq!(time_of(&sim, "bob", &released), Some(6));
    let stats = sim.get_stats();
    assert_eq!(stats.time.as_seconds(), 6);
    assert_eq!(stats.resources[0].available, 1);
    assert_eq!(stats.resources[0].total_requests, 2);
    assert_eq!(stats.resources[0].total_wait_time, 3000);
}

#[test]
fn capacity_sharing() {
    let script = "function body() request('atm'); wait(2); release('atm') end";
    let mut sim = Simulator::new();
    sim.create_resource("atm", 2).unwrap();
    sim.load_process("ann", script, "body").unwrap();
    sim.load_process("bob", script, "body").unwrap();
    sim.load_process("cat", script, "body").unwrap();
    let mut max_queue = 0;
    let mut t = 0;
    while t < 10 {
        sim.run(Duration::from_seconds(0)).unwrap();
        max_queue = max_queue.max(sim.get_stats().resources[0].queue_length);
        sim.run(Duration::from_seconds(1)).unwrap();
        max_queue = max_queue.max(sim.get_stats().resources[0].queue_length);
        t += 1;
    }
    assert_eq!(finished_at(&sim, "ann"), Some(2));
    assert_eq!(finished_at(&sim, "bob"), Some(2));
    assert_eq!(finished_at(&sim, "cat"), Some(4));
    assert_eq!(max_queue, 1);
}

#[test]
fn tie_break_by_priority() {
    let mut sim = Simulator::new();
    let normal = sim.schedule_event(SimTime::new(5), Priority::Normal).unwrap();
    let high = sim.schedule_event(SimTime::new(5), Priority::High).unwrap();
    sim.run(Duration::from_seconds(10)).unwrap();
    let fired: Vec<u64> = sim
        .trace()
        .iter()
        .filter_map(|e| match &e.event {
            TraceEvent::Fired(event) => Some(event.id),
            _ => None,
        })
        .collect();
    assert_eq!(fired, vec![high, normal]);
    assert!(sim.trace().iter().all(|e| e.time.as_seconds() == 5));
}

#[test]
fn spawn() {
    let parent = "function parent() wait(1); spawn('c1', 'child'); wait(1); spawn('c2', 'child') end";
    let child = "function child() wait(2); log('child-done') end";
    let mut sim = Simulator::new();
    sim.load_process("template", child, "child").unwrap();
    sim.load_process("parent", parent, "parent").unwrap();

    let mut peak = 0;
    let mut t = 0;
    while t < 10 {
        sim.run(Duration::from_seconds(1)).unwrap();
        peak = peak.max(sim.get_stats().active_processes);
        t += 1;
    }
    let done = TraceEvent::Message(ProcessMessage::Log("child-done".to_string(), LogLevel::Info));
    assert_eq!(time_of(&sim, "c1", &done), Some(3));
    assert_eq!(time_of(&sim, "c2", &done), Some(4));
    assert_eq!(finished_at(&sim, "parent"), Some(2));
    assert_eq!(finished_at(&sim, "template"), Some(2));
    // parent, c1 and c2, once the template process has been cleared away
    assert_eq!(peak, 3);
}

#[test]
fn deadlock() {
    let mut sim = Simulator::new();
    sim.create_resource("r", 1).unwrap();
    sim.load_process(
        "ann",
        "function body() request('r'); wait(100); release('r') end",
        "body",
    )
    .unwrap();
    sim.load_process(
        "bob",
        "function body() request('r'); request('r'); release('r') end",
        "body",
    )
    .unwrap();
    let outcome = sim.run(Duration::from_seconds(50)).unwrap();
    assert_eq!(outcome, RunOutcome::Horizon);
    let stats = sim.get_stats();
    assert_eq!(stats.time.as_seconds(), 50);
    assert_eq!(stats.resources[0].queue_length, 1);
    assert_eq!(
        sim.process_state("bob"),
        Some(&ProcessState::WaitingForResource("r".to_string()))
    );
}

#[test]
fn run_with_nothing_but_waiters_is_a_deadlock() {
    let mut sim = Simulator::new();
    sim.create_resource("r", 0).unwrap();
    sim.load_process("p", "function body() request('r') end", "body")
        .unwrap();
    assert_eq!(sim.run(Duration::from_seconds(7)).unwrap(), RunOutcome::Deadlock);
    assert_eq!(sim.now().as_seconds(), 7);
    assert_eq!(sim.get_stats().resources[0].queue_length, 1);
}

#[test]
fn unknown_resource_fails_the_requesting_process_only() {
    let mut sim = Simulator::new();
    sim.load_process("bad", "function body() request('nothing'); log('never') end", "body")
        .unwrap();
    sim.load_process("good", "function body() wait(1); log('fine') end", "body")
        .unwrap();
    assert_eq!(sim.run(Duration::from_seconds(5)).unwrap(), RunOutcome::Completed);
    let bad: Vec<TraceEvent> = entries_of(&sim, "bad").iter().map(|e| e.event.clone()).collect();
    assert_eq!(
        bad,
        vec![
            TraceEvent::Message(ProcessMessage::Request("nothing".to_string())),
            TraceEvent::Command(LuaCommand::Error("no such resource".to_string())),
        ]
    );
    let fine = TraceEvent::Message(ProcessMessage::Log("fine".to_string(), LogLevel::Info));
    assert_eq!(time_of(&sim, "good", &fine), Some(1));
}

#[test]
fn script_error_finishes_the_process_and_is_logged() {
    let mut sim = Simulator::new();
    sim.load_process("bad", "function body() wait(1); error('boom') end", "body")
        .unwrap();
    sim.load_process("good", "function body() wait(2); log('fine') end", "body")
        .unwrap();
    assert_eq!(sim.run(Duration::from_seconds(5)).unwrap(), RunOutcome::Completed);
    let complaint = entries_of(&sim, "bad")
        .iter()
        .any(|e| matches!(&e.event, TraceEvent::Message(ProcessMessage::Log(text, LogLevel::Error)) if text.contains("boom")));
    assert!(complaint);
    let fine = TraceEvent::Message(ProcessMessage::Log("fine".to_string(), LogLevel::Info));
    assert_eq!(time_of(&sim, "good", &fine), Some(2));
}

#[test]
fn double_release_is_noted_and_changes_nothing() {
    let mut sim = Simulator::new();
    sim.create_resource("r", 2).unwrap();
    sim.load_process("p", "function body() release('r') end", "body")
        .unwrap();
    sim.run(Duration::from_seconds(1)).unwrap();
    let stats = sim.get_stats();
    assert_eq!(stats.resources[0].available, 2);
    assert_eq!(stats.resources[0].capacity, 2);
    assert!(entries_of(&sim, "p")
        .iter()
        .any(|e| e.event == TraceEvent::Rejected("every unit is free already".to_string())));
}

#[test]
fn spawn_of_unknown_function_or_taken_name_is_rejected() {
    let mut sim = Simulator::new();
    sim.load_process(
        "p",
        "function body() spawn('q', 'missing'); spawn('p', 'body'); log('on') end",
        "body",
    )
    .unwrap();
    assert_eq!(sim.run(Duration::from_seconds(1)).unwrap(), RunOutcome::Completed);
    let rejections = entries_of(&sim, "p")
        .iter()
        .filter(|e| matches!(e.event, TraceEvent::Rejected(_)))
        .count();
    assert_eq!(rejections, 2);
    assert_eq!(sim.process_state("q"), None);
    let on = TraceEvent::Message(ProcessMessage::Log("on".to_string(), LogLevel::Info));
    assert_eq!(time_of(&sim, "p", &on), Some(0));
}

#[test]
fn duplicate_names_are_refused() {
    let mut sim = Simulator::new();
    sim.create_resource("r", 1).unwrap();
    assert!(matches!(
        sim.create_resource("r", 3),
        Err(SimError::ResourceError(_))
    ));
    assert!(matches!(
        sim.create_resource("", 3),
        Err(SimError::ResourceError(_))
    ));
    sim.load_process("p", "function body() end", "body").unwrap();
    assert!(matches!(
        sim.load_process("p", "function body() end", "body"),
        Err(SimError::ProcessError(_))
    ));
    assert!(matches!(
        sim.load_process("q", "function body() end", "other"),
        Err(SimError::ProcessError(_))
    ));
    assert!(matches!(
        sim.load_process("q", "function body( end", "body"),
        Err(SimError::LuaError(_))
    ));
    assert_eq!(sim.get_stats().active_processes, 1);
    assert_eq!(sim.get_stats().resources.len(), 1);
    assert_eq!(sim.ready_queue().len(), 1);
}

#[test]
fn wait_returns_no_earlier_than_asked() {
    let mut sim = Simulator::new();
    sim.load_process(
        "p",
        "function body() wait(2); local t = now(); wait(3); log(tostring(now() - t)) end",
        "body",
    )
    .unwrap();
    sim.run(Duration::from_seconds(10)).unwrap();
    let three = TraceEvent::Message(ProcessMessage::Log("3.0".to_string(), LogLevel::Info));
    assert_eq!(time_of(&sim, "p", &three), Some(5));
}

#[test]
fn two_runs_with_the_same_seed_give_the_same_trace() {
    let script = "function body() for i = 1, 5 do wait(math.random(1, 9)); request('r'); wait(math.random(1, 3)); release('r') end end";
    let mut traces = Vec::new();
    let mut round = 0;
    while round < 2 {
        let mut sim = Simulator::with_seed(42);
        sim.create_resource("r", 1).unwrap();
        sim.load_process("a", script, "body").unwrap();
        sim.load_process("b", script, "body").unwrap();
        sim.run(Duration::from_seconds(1000)).unwrap();
        traces.push(sim.trace().clone());
        round += 1;
    }
    assert!(traces[0].len() > 20);
    assert_eq!(traces[0], traces[1]);
}

#[test]
fn clock_never_runs_backwards_in_the_record() {
    let script = "function body() for i = 1, 4 do wait(i); log('x') end end";
    let mut sim = Simulator::new();
    sim.load_process("a", script, "body").unwrap();
    sim.load_process("b", script, "body").unwrap();
    sim.schedule_event(SimTime::new(4), Priority::Low).unwrap();
    sim.run(Duration::from_seconds(100)).unwrap();
    let times: Vec<u64> = sim.trace().iter().map(|e| e.time.as_seconds()).collect();
    let mut sorted = times.clone();
    sorted.sort();
    assert_eq!(times, sorted);
    assert_eq!(sim.now().as_seconds(), 10);
}

#[test]
fn step_limit_stops_a_process_that_never_lets_time_pass() {
    let mut sim = Simulator::new();
    sim.set_step_limit(50);
    sim.load_process("p", "function body() while true do wait(0) end end", "body")
        .unwrap();
    assert_eq!(sim.run(Duration::from_seconds(10)).unwrap(), RunOutcome::StepLimit);
    assert_eq!(sim.now().as_seconds(), 0);
}

#[test]
fn wakeups_come_before_events_at_the_same_instant() {
    let mut sim = Simulator::new();
    sim.load_process("p", "function body() wait(5) end", "body").unwrap();
    sim.schedule_event(SimTime::new(5), Priority::High).unwrap();
    sim.run(Duration::from_seconds(10)).unwrap();
    let at_five: Vec<bool> = sim
        .trace()
        .iter()
        .filter(|e| e.time.as_seconds() == 5)
        .map(|e| matches!(e.event, TraceEvent::Fired(_)))
        .collect();
    assert_eq!(at_five[0], false);
    assert_eq!(at_five[1], true);
}

#[test]
fn take_trace_starts_a_new_record() {
    let mut sim = Simulator::new();
    sim.load_process("p", "function body() log('a'); wait(1); log('b') end", "body")
        .unwrap();
    sim.run(Duration::from_seconds(0)).unwrap();
    let first = sim.take_trace();
    assert_eq!(first.len(), 2);
    assert!(sim.trace().is_empty());
    sim.run(Duration::from_seconds(5)).unwrap();
    let second = sim.take_trace();
    assert_eq!(second[0].event, TraceEvent::Command(LuaCommand::Resume));
    assert_eq!(second[0].time.as_seconds(), 1);
    assert_eq!(second.len(), 3);
}

#[test]
fn errors_describe_themselves() {
    let e = SimError::from("odd".to_string());
    assert_eq!(e, SimError::SimulationError("odd".to_string()));
    assert_eq!(e.describe(), "Simulation error: odd");
    assert_eq!(e.message(), "odd");
    assert_eq!(SimError::LuaError("x".to_string()).describe(), "Lua error: x");
    assert_eq!(SimError::ResourceError("y".to_string()).describe(), "Resource error: y");
    assert_eq!(SimError::ProcessError("z".to_string()).describe(), "Process error: z");
}

#[test]
fn a_round_can_be_taken_step_by_step() {
    let mut sim = Simulator::new();
    sim.create_resource("r", 1).unwrap();
    sim.load_process("a", "function body() request('r'); wait(2); release('r') end", "body")
        .unwrap();
    sim.load_process("b", "function body() request('r'); log('mine') end", "body")
        .unwrap();
    assert_eq!(sim.ready_queue().clone(), vec!["a", "b"]);

    sim.check_waiting_for_time();
    sim.run_ready_processes();
    assert!(sim.ready_queue().is_empty());
    assert_eq!(sim.process_state("a"), Some(&ProcessState::Running));
    assert!(sim.trace().is_empty());

    sim.process_lua_messages();
    assert_eq!(sim.process_state("a"), Some(&ProcessState::Ready));
    assert_eq!(
        sim.process_state("b"),
        Some(&ProcessState::WaitingForResource("r".to_string()))
    );
    assert_eq!(sim.ready_queue().clone(), vec!["a"]);

    assert_eq!(sim.tick(SimTime::new(10)), None);
    assert_eq!(sim.now().as_seconds(), 2);
    assert_eq!(
        sim.process_state("a"),
        Some(&ProcessState::Ready)
    );
    assert_eq!(sim.tick(SimTime::new(10)), None);
    assert_eq!(sim.process_state("a"), None);
    assert_eq!(sim.process_state("b"), Some(&ProcessState::Ready));
    assert_eq!(sim.tick(SimTime::new(10)), Some(RunOutcome::Completed));
    assert_eq!(sim.get_stats().resources[0].available, 0);
    assert_eq!(sim.get_stats().active_processes, 0);
}

#[test]
fn messages_can_be_dispatched_by_hand() {
    let mut sim = Simulator::new();
    sim.create_resource("r", 1).unwrap();
    sim.load_process("a", "function body() end", "body").unwrap();
    sim.dispatch("a", ProcessMessage::Wait(4000));
    assert_eq!(
        sim.process_state("a"),
        Some(&ProcessState::WaitingForTime(SimTime::new(4)))
    );
    sim.dispatch("ghost", ProcessMessage::Wait(1000));
    assert_eq!(sim.trace().len(), 1);
    assert_eq!(sim.advance_time(SimTime::new(3)), Some(RunOutcome::Horizon));
    assert_eq!(sim.now().as_seconds(), 3);
    assert_eq!(sim.advance_time(SimTime::new(9)), None);
    assert_eq!(sim.now().as_seconds(), 4);
    assert_eq!(sim.process_state("a"), Some(&ProcessState::Ready));
    assert_eq!(sim.ready_queue().clone(), vec!["a", "a"]);
    sim.run_ready_processes();
    assert_eq!(sim.process_state("a"), Some(&ProcessState::Finished));
    sim.dispatch("a", ProcessMessage::Spawn("b".to_string(), "body".to_string()));
    assert_eq!(sim.process_state("b"), Some(&ProcessState::Ready));
    sim.dispatch("a", ProcessMessage::Spawn("b".to_string(), "body".to_string()));
    assert!(matches!(
        sim.trace().last().map(|e| &e.event),
        Some(TraceEvent::Rejected(_))
    ));
}

#[test]
fn a_long_wait_ends_at_the_largest_instant() {
    let mut sim = Simulator::new();
    sim.load_process(
        "p",
        "function body() wait(1); wait('18446744073709551'); log('late') end",
        "body",
    )
    .unwrap();
    assert_eq!(sim.run(Duration::from_seconds(u64::MAX)).unwrap(), RunOutcome::Completed);
    assert_eq!(sim.now().as_millis(), u64::MAX);
    let late = TraceEvent::Message(ProcessMessage::Log("late".to_string(), LogLevel::Info));
    assert_eq!(time_of(&sim, "p", &late), Some(u64::MAX / 1000));
}

#[test]
fn a_spawned_child_sees_the_current_time() {
    let mut sim = Simulator::new();
    sim.load_process("seed", "function child() log(tostring(now())) end", "child")
        .unwrap();
    sim.load_process(
        "parent",
        "function parent() wait(3); spawn('kid', 'child') end",
        "parent",
    )
    .unwrap();
    sim.run(Duration::from_seconds(10)).unwrap();
    let three = TraceEvent::Message(ProcessMessage::Log("3.0".to_string(), LogLevel::Info));
    assert_eq!(time_of(&sim, "kid", &three), Some(3));
    let zero = TraceEvent::Message(ProcessMessage::Log("0.0".to_string(), LogLevel::Info));
    assert_eq!(time_of(&sim, "seed", &zero), Some(0));
}

#[test]
fn every_ready_process_is_resumed_and_heard() {
    let mut sim = Simulator::new();
    sim.load_process("a", "function body() log('a'); wait(1) end", "body")
        .unwrap();
    sim.load_process("b", "function body() log('b') end", "body")
        .unwrap();
    sim.run_ready_processes();
    assert_eq!(sim.process_state("a"), Some(&ProcessState::Running));
    assert_eq!(sim.process_state("b"), Some(&ProcessState::Finished));
    sim.process_lua_messages();
    let logged: Vec<String> = sim
        .trace()
        .iter()
        .filter_map(|e| match &e.event {
            TraceEvent::Message(ProcessMessage::Log(text, _)) => Some(text.clone()),
            _ => None,
        })
        .collect();
    assert_eq!(logged, vec!["a", "b"]);
}

#[test]
fn a_fraction_of_a_second_passes_on_the_clock() {
    let mut sim = Simulator::new();
    sim.load_process(
        "p",
        "function body() wait(0.5); log(tostring(now())); wait(0.25); log(tostring(now())) end",
        "body",
    )
    .unwrap();
    assert_eq!(sim.run(Duration::from_millis(600)).unwrap(), RunOutcome::Horizon);
    assert_eq!(sim.now(), SimTime::from_millis(600));
    assert_eq!(sim.run(Duration::from_seconds(1)).unwrap(), RunOutcome::Completed);
    assert_eq!(sim.now(), SimTime::from_millis(750));
    let logs: Vec<(u64, String)> = sim
        .trace()
        .iter()
        .filter_map(|e| match &e.event {
            TraceEvent::Message(ProcessMessage::Log(text, _)) => Some((e.time.as_millis(), text.clone())),
            _ => None,
        })
        .collect();
    assert_eq!(logs, vec![(500, "0.5".to_string()), (750, "0.75".to_string())]);
}

#[test]
fn a_wait_finer_than_the_clock_still_takes_time() {
    let mut sim = Simulator::new();
    sim.load_process("p", "function body() wait(0.0001); wait(0.0011) end", "body")
        .unwrap();
    assert_eq!(sim.run(Duration::from_seconds(1)).unwrap(), RunOutcome::Completed);
    assert_eq!(sim.now(), SimTime::from_millis(3));
    assert_eq!(finished_at(&sim, "p"), Some(0));
    assert_eq!(sim.get_stats().time.as_millis(), 3);
}

#[test]
fn time_spent_waiting_for_a_resource_is_summed_in_milliseconds() {
    let mut sim = Simulator::new();
    sim.create_resource("desk", 1).unwrap();
    let script = "function body() request('desk'); wait(1.5); release('desk') end";
    sim.load_process("a", script, "body").unwrap();
    sim.load_process("b", script, "body").unwrap();
    sim.load_process("c", script, "body").unwrap();
    assert_eq!(sim.run(Duration::from_seconds(10)).unwrap(), RunOutcome::Completed);
    assert_eq!(sim.now(), SimTime::from_millis(4500));
    let stats = sim.get_stats();
    let desk = stats.resources.iter().find(|r| r.name == "desk").unwrap();
    assert_eq!(desk.total_requests, 3);
    assert_eq!(desk.total_wait_time, 1500 + 3000);
}
