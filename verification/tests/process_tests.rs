use simpy_rs::lua::{LogLevel, LuaProcess, ProcessMessage, ProcessState};
use simpy_rs::SimError;

#[test]
fn process_runs_one_suspension_at_a_time() {
    let script = "function body() log('a'); wait(5); log('b', 'warn'); request('r'); release('r') end";
    let mut p = LuaProcess::new("p".to_string(), script, "body", 1).unwrap();
    assert_eq!(p.name(), "p");
    assert_eq!(*p.state(), ProcessState::Ready);
    assert_eq!(p.resume().unwrap(), false);
    assert_eq!(*p.state(), ProcessState::Running);
    assert_eq!(
        p.take_messages(),
        vec![
            ProcessMessage::Log("a".to_string(), LogLevel::Info),
            ProcessMessage::Wait(5000)
        ]
    );
    assert_eq!(p.resume().unwrap(), false);
    assert_eq!(
        p.take_messages(),
        vec![
            ProcessMessage::Log("b".to_string(), LogLevel::Warning),
            ProcessMessage::Request("r".to_string())
        ]
    );
    assert_eq!(p.resume().unwrap(), true);
    assert_eq!(
        p.take_messages(),
        vec![
            ProcessMessage::Release("r".to_string()),
            ProcessMessage::Finished
        ]
    );
    assert!(p.is_finished());
    assert_eq!(p.resume().unwrap(), true);
    assert_eq!(p.take_messages(), vec![]);
}

#[test]
fn negative_wait_fails_the_process() {
    let mut p = LuaProcess::new("p".to_string(), "function body() wait(-1) end", "body", 1).unwrap();
    let r = p.resume();
    assert!(matches!(r, Err(SimError::LuaError(_))));
    assert!(p.is_finished());
}

#[test]
fn a_fractional_wait_is_a_wait_in_milliseconds() {
    let script = "function body() wait(0.5); wait(1.25); wait(0.1 + 0.2); wait(1e-7); wait(2.5e3) end";
    let mut p = LuaProcess::new("p".to_string(), script, "body", 1).unwrap();
    let mut heard = Vec::new();
    for _ in 0..5 {
        assert_eq!(p.resume().unwrap(), false);
        heard.extend(p.take_messages());
    }
    assert_eq!(
        heard,
        vec![
            ProcessMessage::Wait(500),
            ProcessMessage::Wait(1250),
            ProcessMessage::Wait(300),
            ProcessMessage::Wait(1),
            ProcessMessage::Wait(2_500_000),
        ]
    );
    assert_eq!(p.resume().unwrap(), true);
}

#[test]
fn a_negative_wait_fails_the_process() {
    let mut q = LuaProcess::new("q".to_string(), "function body() wait(-0.5) end", "body", 1).unwrap();
    assert!(matches!(q.resume(), Err(SimError::LuaError(_))));
    assert!(q.is_finished());
    let mut r = LuaProcess::new("r".to_string(), "function body() wait(1 / 0) end", "body", 1).unwrap();
    assert!(matches!(r.resume(), Err(SimError::LuaError(_))));
    assert!(r.is_finished());
}

#[test]
fn a_script_cannot_write_the_mirrored_clock() {
    let script = "function body() _sim_time = 99; wait(now() + 1); _sim_time = 7; wait(now()) end";
    let mut p = LuaProcess::new("p".to_string(), script, "body", 1).unwrap();
    assert_eq!(p.resume().unwrap(), false);
    assert_eq!(p.take_messages(), vec![ProcessMessage::Wait(1000)]);
    p.update_time(simpy_rs::kernel::SimTime::from_millis(2500)).unwrap();
    assert_eq!(p.resume().unwrap(), false);
    assert_eq!(p.take_messages(), vec![ProcessMessage::Wait(2500)]);
}

#[test]
fn a_script_has_no_way_to_the_machine() {
    let script = "function body()
        log(tostring(os) .. tostring(io) .. tostring(debug) .. tostring(package) .. tostring(require))
        log(tostring(dofile) .. tostring(loadfile) .. tostring(load))
        log(type(math.random) .. type(string.format) .. type(table.insert) .. type(coroutine.yield))
    end";
    let mut p = LuaProcess::new("p".to_string(), script, "body", 1).unwrap();
    assert_eq!(p.resume().unwrap(), true);
    assert_eq!(
        p.take_messages(),
        vec![
            ProcessMessage::Log("nil".repeat(5), LogLevel::Info),
            ProcessMessage::Log("nil".repeat(3), LogLevel::Info),
            ProcessMessage::Log("function".repeat(4), LogLevel::Info),
            ProcessMessage::Finished,
        ]
    );
}

#[test]
fn globals_with_metamethods_do_not_hold_the_kernel_up() {
    let script = "function body() wait(now() + 2) end
    now = nil
    setmetatable(_G, {
        __index = function() while true do end end,
        __newindex = function() while true do end end,
    })";
    let missing = LuaProcess::new("p".to_string(), script, "missing", 1);
    assert!(matches!(missing, Err(SimError::ProcessError(_))));
    let mut p = LuaProcess::new("p".to_string(), script, "body", 1).unwrap();
    p.update_time(simpy_rs::kernel::SimTime::new(1)).unwrap();
    assert_eq!(p.resume().unwrap(), false);
    assert_eq!(p.take_messages(), vec![ProcessMessage::Wait(3000)]);
}

#[test]
fn compiled_code_is_not_taken_for_a_script() {
    let compiled = "\u{1b}Lua\u{54}\u{0}\u{19}\u{93}\r\n\u{1a}\n";
    let r = LuaProcess::new("p".to_string(), compiled, "body", 1);
    assert!(matches!(r, Err(SimError::LuaError(_))));
    let dumped = "function body() end
    local code = string.dump(body)
    assert(load == nil)";
    assert!(LuaProcess::new("p".to_string(), dumped, "body", 1).is_ok());
}

#[test]
fn the_seed_is_cut_to_what_the_interpreter_takes() {
    assert_eq!(simpy_rs::lua::process::script_seed(0), 0);
    assert_eq!(simpy_rs::lua::process::script_seed(5), 5);
    assert_eq!(simpy_rs::lua::process::script_seed(i64::MAX as u64), i64::MAX as u64);
    assert_eq!(simpy_rs::lua::process::script_seed(1 << 63), 0);
    assert_eq!(simpy_rs::lua::process::script_seed((1 << 63) + 12), 12);
    assert_eq!(simpy_rs::lua::process::script_seed(u64::MAX), i64::MAX as u64);
}

#[test]
fn whole_floats_and_numeric_texts_are_waits() {
    let script = "function body() wait(6 / 2); wait('4'); wait(2^4) end";
    let mut p = LuaProcess::new("p".to_string(), script, "body", 1).unwrap();
    assert_eq!(p.resume().unwrap(), false);
    assert_eq!(p.take_messages(), vec![ProcessMessage::Wait(3000)]);
    assert_eq!(p.resume().unwrap(), false);
    assert_eq!(p.take_messages(), vec![ProcessMessage::Wait(4000)]);
    assert_eq!(p.resume().unwrap(), false);
    assert_eq!(p.take_messages(), vec![ProcessMessage::Wait(16000)]);
}

#[test]
fn runtime_error_fails_the_process() {
    let mut p =
        LuaProcess::new("p".to_string(), "function body() error('boom') end", "body", 1).unwrap();
    let r = p.resume();
    assert!(matches!(r, Err(SimError::LuaError(_))));
    assert!(p.is_finished());
}

#[test]
fn body_without_suspension_runs_to_completion_in_one_resume() {
    let mut p = LuaProcess::new(
        "p".to_string(),
        "function body() for i = 1, 3 do log('x' .. i) end end",
        "body",
        1,
    )
    .unwrap();
    assert_eq!(p.resume().unwrap(), true);
    assert_eq!(p.take_messages().len(), 4);
}

#[test]
fn missing_entry_function_is_a_process_error() {
    let r = LuaProcess::new("p".to_string(), "function body() end", "other", 1);
    assert!(matches!(r, Err(SimError::ProcessError(_))));
}

#[test]
fn script_that_does_not_compile_is_a_lua_error() {
    let r = LuaProcess::new("p".to_string(), "function body( end", "body", 1);
    assert!(matches!(r, Err(SimError::LuaError(_))));
}

#[test]
fn now_reads_the_mirrored_clock() {
    let script = "function body() wait(now() + 1); wait(now() + 1) end";
    let mut p = LuaProcess::new("p".to_string(), script, "body", 1).unwrap();
    assert_eq!(p.resume().unwrap(), false);
    assert_eq!(p.take_messages(), vec![ProcessMessage::Wait(1000)]);
    p.update_time(simpy_rs::kernel::SimTime::new(41)).unwrap();
    assert_eq!(p.resume().unwrap(), false);
    assert_eq!(p.take_messages(), vec![ProcessMessage::Wait(42000)]);
}

#[test]
fn body_returning_values_still_finishes() {
    let mut p = LuaProcess::new(
        "p".to_string(),
        "function body() return {1, 2}, 'x' end",
        "body",
        1,
    )
    .unwrap();
    assert_eq!(p.resume().unwrap(), true);
    assert_eq!(p.take_messages(), vec![ProcessMessage::Finished]);
}

#[test]
fn malformed_yield_fails_the_process() {
    let mut p = LuaProcess::new(
        "p".to_string(),
        "function body() coroutine.yield('jump', 3) end",
        "body",
        1,
    )
    .unwrap();
    assert!(matches!(p.resume(), Err(SimError::LuaError(_))));
    assert!(p.is_finished());
}

#[test]
fn same_seed_gives_same_random_numbers() {
    let script = "function body() wait(math.random(1, 1000000)) end";
    let mut a = LuaProcess::new("a".to_string(), script, "body", 7).unwrap();
    let mut b = LuaProcess::new("b".to_string(), script, "body", 7).unwrap();
    a.resume().unwrap();
    b.resume().unwrap();
    assert_eq!(a.take_messages(), b.take_messages());
}

#[test]
fn any_seed_is_accepted() {
    let script = "function body() wait(math.random(1, 1000000)) end";
    let mut a = LuaProcess::new("a".to_string(), script, "body", u64::MAX).unwrap();
    let mut b = LuaProcess::new("b".to_string(), script, "body", u64::MAX).unwrap();
    let mut c = LuaProcess::new("c".to_string(), script, "body", 1u64 << 63).unwrap();
    a.resume().unwrap();
    b.resume().unwrap();
    c.resume().unwrap();
    assert_eq!(a.take_messages(), b.take_messages());
    assert_eq!(c.take_messages().len(), 1);
}

#[test]
fn a_process_keeps_the_seed_it_was_created_with() {
    let p = LuaProcess::new("p".to_string(), "function body() end", "body", 9).unwrap();
    assert_eq!(p.seed(), 9);
    let q = LuaProcess::new("q".to_string(), "function body() end", "body", u64::MAX).unwrap();
    assert_eq!(q.seed(), u64::MAX);
}

#[test]
fn script_outcome_keeps_success_and_names_failure() {
    assert_eq!(simpy_rs::lua::process::script_outcome(Ok(())), Ok(()));
    let failed = simpy_rs::lua::process::script_outcome(Err(mlua::Error::RuntimeError(
        "out of luck".to_string(),
    )));
    assert!(matches!(&failed, Err(SimError::LuaError(text)) if text.contains("out of luck")));
}

#[test]
fn a_process_knows_its_script_entry_and_mirror() {
    let script = "function body() wait(1) end";
    let mut p = LuaProcess::new("p".to_string(), script, "body", 3).unwrap();
    assert_eq!(p.script(), script);
    assert_eq!(p.entry(), "body");
    assert_eq!(p.mirror(), Some(simpy_rs::kernel::SimTime::new(0)));
    p.update_time(simpy_rs::kernel::SimTime::new(12)).unwrap();
    assert_eq!(p.mirror(), Some(simpy_rs::kernel::SimTime::new(12)));
    assert_eq!(p.resume().unwrap(), false);
    assert_eq!(p.mirror(), Some(simpy_rs::kernel::SimTime::new(12)));
    assert_eq!(p.seed(), 3);
}

#[test]
fn a_failure_leaves_its_reason_as_the_last_log_line() {
    let mut p = LuaProcess::new(
        "p".to_string(),
        "function body() log('before'); error('boom') end",
        "body",
        1,
    )
    .unwrap();
    let reason = match p.resume() {
        Err(SimError::LuaError(reason)) => reason,
        other => panic!("unexpected {:?}", other),
    };
    assert!(reason.contains("boom"));
    assert_eq!(
        p.take_messages(),
        vec![
            ProcessMessage::Log("before".to_string(), LogLevel::Info),
            ProcessMessage::Log(reason, LogLevel::Error),
        ]
    );
}

#[test]
fn register_api_binds_the_calls_and_starts_the_mirror_at_zero() {
    let lua = mlua::Lua::new();
    let (_maker, shown) = simpy_rs::lua::register_api(&lua).unwrap();
    assert_eq!(shown.as_millis(), 0);
    let now: f64 = lua.load("return now()").eval().unwrap();
    assert_eq!(now, 0.0);
    let kinds: String = lua
        .load("return type(wait) .. type(request) .. type(release) .. type(spawn) .. type(log)")
        .eval()
        .unwrap();
    assert_eq!(kinds, "function".repeat(5));
}
