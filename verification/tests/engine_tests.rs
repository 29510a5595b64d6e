use simpy_rs::kernel::SimTime;
use simpy_rs::lua::api::decode_message;
use simpy_rs::lua::number::parse_seconds;
use simpy_rs::lua::process::{classify, Step};
use simpy_rs::lua::vm::{CoroutineStatus, RawYield};
use simpy_rs::lua::{LogLevel, LuaCommand, LuaEngine, LuaProcess, ProcessMessage, ProcessState};
use simpy_rs::timed::TimedWaitSet;
use simpy_rs::SimError;

const SCRIPT: &str = "function body() log('hi'); wait(1) end function other() request('r') end";

fn raw(tag: &str, first: Option<&str>, second: Option<&str>) -> RawYield {
    RawYield {
        tag: Some(tag.to_string()),
        first: first.map(|s| s.to_string()),
        second: second.map(|s| s.to_string()),
    }
}

#[test]
fn decode_reads_every_call() {
    assert_eq!(
        decode_message(raw("wait", Some("7"), None)),
        Some(ProcessMessage::Wait(7000))
    );
    assert_eq!(
        decode_message(raw("wait", Some("7.0"), Some("ignored"))),
        Some(ProcessMessage::Wait(7000))
    );
    assert_eq!(
        decode_message(raw("wait", Some("2.5"), None)),
        Some(ProcessMessage::Wait(2500))
    );
    assert_eq!(
        decode_message(raw("wait", Some("1e-07"), None)),
        Some(ProcessMessage::Wait(1))
    );
    assert_eq!(
        decode_message(raw("request", Some("r"), None)),
        Some(ProcessMessage::Request("r".to_string()))
    );
    assert_eq!(
        decode_message(raw("release", Some("r"), None)),
        Some(ProcessMessage::Release("r".to_string()))
    );
    assert_eq!(
        decode_message(raw("spawn", Some("c"), Some("f"))),
        Some(ProcessMessage::Spawn("c".to_string(), "f".to_string()))
    );
    assert_eq!(
        decode_message(raw("log", Some("m"), None)),
        Some(ProcessMessage::Log("m".to_string(), LogLevel::Info))
    );
    assert_eq!(
        decode_message(raw("log", Some("m"), Some("error"))),
        Some(ProcessMessage::Log("m".to_string(), LogLevel::Error))
    );
}

#[test]
fn decode_refuses_malformed_calls() {
    assert_eq!(decode_message(raw("wait", None, None)), None);
    assert_eq!(decode_message(raw("wait", Some("-1"), None)), None);
    assert_eq!(decode_message(raw("wait", Some("2,5"), None)), None);
    assert_eq!(decode_message(raw("wait", Some("1e400"), Some("1"))), None);
    assert_eq!(decode_message(raw("wait", Some("soon"), None)), None);
    assert_eq!(decode_message(raw("request", None, Some("r"))), None);
    assert_eq!(decode_message(raw("release", None, Some("r"))), None);
    assert_eq!(decode_message(raw("spawn", Some("c"), None)), None);
    assert_eq!(decode_message(raw("log", None, Some("info"))), None);
    assert_eq!(decode_message(raw("finished", None, None)), None);
    assert_eq!(decode_message(raw("", None, None)), None);
    assert_eq!(
        decode_message(RawYield {
            tag: None,
            first: Some("1".to_string()),
            second: None
        }),
        None
    );
}

#[test]
fn whole_seconds_are_read_exactly() {
    assert_eq!(parse_seconds("0"), Some(0));
    assert_eq!(parse_seconds("5"), Some(5_000));
    assert_eq!(parse_seconds("007"), Some(7_000));
    assert_eq!(parse_seconds("1000.0"), Some(1_000_000));
    assert_eq!(parse_seconds("3."), Some(3_000));
    assert_eq!(parse_seconds("3.000"), Some(3_000));
    assert_eq!(parse_seconds("18446744073709551"), Some(18_446_744_073_709_551_000));
}

#[test]
fn fractions_of_a_second_are_read_in_milliseconds() {
    assert_eq!(parse_seconds("0.5"), Some(500));
    assert_eq!(parse_seconds(".5"), Some(500));
    assert_eq!(parse_seconds("2.5"), Some(2_500));
    assert_eq!(parse_seconds("2.05"), Some(2_050));
    assert_eq!(parse_seconds("0.001"), Some(1));
    assert_eq!(parse_seconds("12.345"), Some(12_345));
    assert_eq!(parse_seconds("0.0000"), Some(0));
    assert_eq!(parse_seconds("18446744073709551.615"), Some(u64::MAX));
}

#[test]
fn a_wait_finer_than_a_millisecond_is_rounded_up() {
    assert_eq!(parse_seconds("0.0004"), Some(1));
    assert_eq!(parse_seconds("0.0015"), Some(2));
    assert_eq!(parse_seconds("1.0001"), Some(1_001));
    assert_eq!(parse_seconds("0.00000000000001"), Some(1));
    assert_eq!(parse_seconds("2.5e-05"), Some(1));
    assert_eq!(parse_seconds("1e-999"), Some(1));
    assert_eq!(parse_seconds("0e-999"), Some(0));
}

#[test]
fn exponents_are_read() {
    assert_eq!(parse_seconds("1e3"), Some(1_000_000));
    assert_eq!(parse_seconds("1E3"), Some(1_000_000));
    assert_eq!(parse_seconds("1e+15"), Some(1_000_000_000_000_000_000));
    assert_eq!(parse_seconds("1.5e+15"), Some(1_500_000_000_000_000_000));
    assert_eq!(parse_seconds("1e0005"), Some(100_000_000));
    assert_eq!(parse_seconds("25e-1"), Some(2_500));
    assert_eq!(parse_seconds("2.5e1"), Some(25_000));
    assert_eq!(parse_seconds("1e-3"), Some(1));
    assert_eq!(parse_seconds("0e999"), Some(0));
    assert_eq!(parse_seconds("1e0"), Some(1_000));
}

#[test]
fn what_writes_no_time_is_refused() {
    assert_eq!(parse_seconds(""), None);
    assert_eq!(parse_seconds("."), None);
    assert_eq!(parse_seconds("-3"), None);
    assert_eq!(parse_seconds("-0.5"), None);
    assert_eq!(parse_seconds("+3"), None);
    assert_eq!(parse_seconds(" 1"), None);
    assert_eq!(parse_seconds("1 "), None);
    assert_eq!(parse_seconds("1.2.3"), None);
    assert_eq!(parse_seconds("1e"), None);
    assert_eq!(parse_seconds("1e+"), None);
    assert_eq!(parse_seconds("1e5x"), None);
    assert_eq!(parse_seconds("e5"), None);
    assert_eq!(parse_seconds(".e5"), None);
    assert_eq!(parse_seconds("٣"), None);
    assert_eq!(parse_seconds("inf"), None);
    assert_eq!(parse_seconds("nan"), None);
    assert_eq!(parse_seconds("0x10"), None);
}

#[test]
fn a_time_beyond_the_clock_is_refused() {
    assert_eq!(parse_seconds("18446744073709552"), None);
    assert_eq!(parse_seconds("18446744073709551.616"), None);
    assert_eq!(parse_seconds("18446744073709551615"), None);
    assert_eq!(parse_seconds("99999999999999999999999"), None);
    assert_eq!(parse_seconds("1e+17"), None);
    assert_eq!(parse_seconds("1e1000"), None);
    assert_eq!(parse_seconds("0e1000"), None);
}

#[test]
fn log_levels_by_name() {
    assert_eq!(LogLevel::from_name(&None), LogLevel::Info);
    assert_eq!(LogLevel::from_name(&Some("info".to_string())), LogLevel::Info);
    assert_eq!(LogLevel::from_name(&Some("warn".to_string())), LogLevel::Warning);
    assert_eq!(LogLevel::from_name(&Some("warning".to_string())), LogLevel::Warning);
    assert_eq!(LogLevel::from_name(&Some("error".to_string())), LogLevel::Error);
    assert_eq!(LogLevel::from_name(&Some("debug".to_string())), LogLevel::Debug);
    assert_eq!(LogLevel::from_name(&Some("loud".to_string())), LogLevel::Info);
    assert_eq!(LogLevel::Info.as_str(), "info");
    assert_eq!(LogLevel::Warning.as_str(), "warn");
    assert_eq!(LogLevel::Error.as_str(), "error");
    assert_eq!(LogLevel::Debug.as_str(), "debug");
}

#[test]
fn classify_goes_by_the_status() {
    let yielded = || Ok(raw("wait", Some("2"), None));
    assert_eq!(
        classify(yielded(), Some(CoroutineStatus::Resumable)),
        Step::Emitted(ProcessMessage::Wait(2000))
    );
    assert_eq!(
        classify(yielded(), Some(CoroutineStatus::Unresumable)),
        Step::Finished
    );
    assert_eq!(
        classify(Err("x".to_string()), Some(CoroutineStatus::Unresumable)),
        Step::Finished
    );
    assert_eq!(
        classify(Err("bad argument".to_string()), Some(CoroutineStatus::Resumable)),
        Step::Failed("bad argument".to_string())
    );
    assert_eq!(
        classify(Err("boom".to_string()), Some(CoroutineStatus::Error)),
        Step::Failed("boom".to_string())
    );
    assert!(matches!(
        classify(Ok(raw("jump", None, None)), Some(CoroutineStatus::Resumable)),
        Step::Failed(_)
    ));
    assert!(matches!(classify(yielded(), None), Step::Failed(_)));
}

#[test]
fn registry_keeps_names_unique() {
    let mut e = LuaEngine::new();
    e.create_process("a".to_string(), SCRIPT, "body").unwrap();
    assert!(matches!(
        e.create_process("a".to_string(), SCRIPT, "body"),
        Err(SimError::ProcessError(_))
    ));
    assert!(matches!(
        e.spawn_process("a".to_string(), "body"),
        Err(SimError::ProcessError(_))
    ));
    assert!(matches!(
        e.spawn_process("b".to_string(), "other"),
        Err(SimError::ProcessError(_))
    ));
    e.spawn_process("b".to_string(), "body").unwrap();
    assert_eq!(e.active_processes(), vec!["a", "b"]);
    assert_eq!(e.len(), 2);
    assert!(e.contains("b"));
    assert!(!e.contains("c"));
}

#[test]
fn start_process_collects_messages_in_resume_order() {
    let mut e = LuaEngine::new();
    e.create_process("a".to_string(), SCRIPT, "body").unwrap();
    e.create_process("b".to_string(), SCRIPT, "other").unwrap();
    assert_eq!(e.start_process("b").unwrap(), false);
    assert_eq!(e.start_process("a").unwrap(), false);
    assert!(matches!(
        e.start_process("zz"),
        Err(SimError::ProcessError(_))
    ));
    let messages = e.process_messages();
    assert_eq!(
        messages,
        vec![
            ("b".to_string(), ProcessMessage::Request("r".to_string())),
            ("a".to_string(), ProcessMessage::Log("hi".to_string(), LogLevel::Info)),
            ("a".to_string(), ProcessMessage::Wait(1000)),
        ]
    );
    assert_eq!(e.process_messages(), vec![]);
    assert_eq!(e.process_state("a"), Some(&ProcessState::Running));
}

#[test]
fn commands_and_setters_move_states() {
    let mut e = LuaEngine::new();
    e.create_process("a".to_string(), SCRIPT, "body").unwrap();
    e.set_process_waiting("a", SimTime::new(9));
    assert_eq!(
        e.process_state("a"),
        Some(&ProcessState::WaitingForTime(SimTime::new(9)))
    );
    e.send_command("a", LuaCommand::Resume).unwrap();
    assert_eq!(e.process_state("a"), Some(&ProcessState::Ready));
    e.set_process_waiting_for_resource("a", "r".to_string());
    assert!(e.any_waiting_for_resource());
    e.send_command("a", LuaCommand::ResourceGranted("other".to_string()))
        .unwrap();
    assert_eq!(
        e.process_state("a"),
        Some(&ProcessState::WaitingForResource("r".to_string()))
    );
    e.send_command("a", LuaCommand::ResourceGranted("r".to_string()))
        .unwrap();
    assert_eq!(e.process_state("a"), Some(&ProcessState::Ready));
    assert!(!e.any_waiting_for_resource());
    e.send_command("a", LuaCommand::Terminate).unwrap();
    assert_eq!(e.process_state("a"), Some(&ProcessState::Finished));
    e.set_process_active("a");
    e.send_command("a", LuaCommand::Resume).unwrap();
    assert_eq!(e.process_state("a"), Some(&ProcessState::Finished));
    assert!(matches!(
        e.send_command("b", LuaCommand::Resume),
        Err(SimError::ProcessError(_))
    ));
    assert_eq!(e.process_state("b"), None);
}

#[test]
fn cleanup_removes_finished_processes_only() {
    let mut e = LuaEngine::new();
    e.create_process("a".to_string(), SCRIPT, "body").unwrap();
    e.create_process("b".to_string(), SCRIPT, "body").unwrap();
    e.create_process("c".to_string(), SCRIPT, "body").unwrap();
    e.send_command("a", LuaCommand::Error("x".to_string())).unwrap();
    e.send_command("c", LuaCommand::Terminate).unwrap();
    e.cleanup_finished();
    assert_eq!(e.active_processes(), vec!["b"]);
    e.create_process("a".to_string(), SCRIPT, "body").unwrap();
    assert_eq!(e.active_processes(), vec!["b", "a"]);
    e.terminate_all();
    assert_eq!(e.len(), 0);
    e.spawn_process("d".to_string(), "body").unwrap();
    assert_eq!(e.active_processes(), vec!["d"]);
}

#[test]
fn timed_wait_set_keeps_one_entry_per_process() {
    let mut set = TimedWaitSet::new();
    assert!(set.is_empty());
    assert_eq!(set.next_wake(), None);
    set.put("a", SimTime::new(5));
    set.put("b", SimTime::new(3));
    set.put("c", SimTime::new(8));
    set.put("a", SimTime::new(2));
    assert_eq!(set.len(), 3);
    assert_eq!(set.next_wake(), Some(SimTime::new(2)));
    assert_eq!(set.take_due(SimTime::new(1)), Vec::<String>::new());
    assert_eq!(set.take_due(SimTime::new(3)), vec!["a", "b"]);
    assert_eq!(set.len(), 1);
    assert_eq!(set.next_wake(), Some(SimTime::new(8)));
    assert_eq!(set.take_due(SimTime::new(8)), vec!["c"]);
    assert!(set.is_empty());
}

const DRAW: &str = "function body() wait(math.random(1, 1000000000)) end";

fn first_wait(e: &mut LuaEngine, name: &str) -> ProcessMessage {
    e.start_process(name).unwrap();
    let mut messages = e.process_messages();
    assert_eq!(messages.len(), 1);
    messages.remove(0).1
}

#[test]
fn each_process_draws_from_the_next_seed() {
    let mut e = LuaEngine::with_seed(40);
    e.create_process("a".to_string(), DRAW, "body").unwrap();
    e.create_process("b".to_string(), DRAW, "body").unwrap();
    e.spawn_process("c".to_string(), "body").unwrap();
    let a = first_wait(&mut e, "a");
    let b = first_wait(&mut e, "b");
    let c = first_wait(&mut e, "c");

    let mut alone = LuaProcess::new("x".to_string(), DRAW, "body", 40).unwrap();
    alone.resume().unwrap();
    assert_eq!(alone.take_messages(), vec![a.clone()]);
    let mut next = LuaProcess::new("y".to_string(), DRAW, "body", 41).unwrap();
    next.resume().unwrap();
    assert_eq!(next.take_messages(), vec![b.clone()]);
    let mut third = LuaProcess::new("z".to_string(), DRAW, "body", 42).unwrap();
    third.resume().unwrap();
    assert_eq!(third.take_messages(), vec![c]);
    assert_ne!(a, b);
}

#[test]
fn a_failed_creation_takes_no_seed() {
    let mut e = LuaEngine::with_seed(5);
    assert!(e.create_process("bad".to_string(), "function body( end", "body").is_err());
    assert!(e.create_process("worse".to_string(), DRAW, "missing").is_err());
    assert!(e.spawn_process("none".to_string(), "body").is_err());
    e.create_process("a".to_string(), DRAW, "body").unwrap();
    assert!(e.spawn_process("a".to_string(), "body").is_err());
    e.spawn_process("b".to_string(), "body").unwrap();
    let a = first_wait(&mut e, "a");
    let b = first_wait(&mut e, "b");

    let mut clean = LuaEngine::with_seed(5);
    clean.create_process("a".to_string(), DRAW, "body").unwrap();
    clean.create_process("b".to_string(), DRAW, "body").unwrap();
    assert_eq!(first_wait(&mut clean, "a"), a);
    assert_eq!(first_wait(&mut clean, "b"), b);
}

#[test]
fn the_seed_wraps_around() {
    let mut e = LuaEngine::with_seed(u64::MAX);
    e.create_process("a".to_string(), DRAW, "body").unwrap();
    e.create_process("b".to_string(), DRAW, "body").unwrap();
    let b = first_wait(&mut e, "b");
    let mut zero = LuaProcess::new("z".to_string(), DRAW, "body", 0).unwrap();
    zero.resume().unwrap();
    assert_eq!(zero.take_messages(), vec![b]);
}

#[test]
fn the_first_script_loaded_for_a_function_is_the_one_spawned() {
    let mut e = LuaEngine::new();
    e.create_process("a".to_string(), "function body() wait(1) end", "body")
        .unwrap();
    e.create_process("b".to_string(), "function body() wait(2) end", "body")
        .unwrap();
    e.spawn_process("c".to_string(), "body").unwrap();
    assert_eq!(first_wait(&mut e, "a"), ProcessMessage::Wait(1000));
    assert_eq!(first_wait(&mut e, "b"), ProcessMessage::Wait(2000));
    assert_eq!(first_wait(&mut e, "c"), ProcessMessage::Wait(1000));
}

#[test]
fn update_time_reaches_every_script() {
    let script = "function body() wait(now()) end";
    let mut e = LuaEngine::new();
    e.create_process("a".to_string(), script, "body").unwrap();
    e.create_process("b".to_string(), script, "body").unwrap();
    e.update_time(SimTime::new(8));
    assert_eq!(first_wait(&mut e, "a"), ProcessMessage::Wait(8000));
    assert_eq!(first_wait(&mut e, "b"), ProcessMessage::Wait(8000));
}
