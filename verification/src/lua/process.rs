//! One scripted process: its Lua state, its coroutine and its state.

use super::api::{decode_message, decoded, register_api};
use super::vm::{
    bind_made, coroutine_status, create_coroutine, error_text, new_state, resume_coroutine,
    run_chunk, set_global_number, set_global_text, CoroutineStatus, RawYield,
};
use crate::error::SimError;
use crate::kernel::time::SimTime;
use vstd::prelude::*;

verus! {

/// The largest whole number that Lua keeps exactly. A seed is cut down to
/// it before it is handed to a script.
pub const LARGEST_LUA_INTEGER: u64 = 0x7fff_ffff_ffff_ffff;

/// The seed that a script is given for `seed`: its lower sixty-three
/// bits, which is a whole number that Lua keeps exactly.
pub fn script_seed(seed: u64) -> (cut: u64)
    ensures
        cut == seed & LARGEST_LUA_INTEGER,
        cut <= LARGEST_LUA_INTEGER,
{
    let cut = seed & LARGEST_LUA_INTEGER;
    assert(seed & 0x7fff_ffff_ffff_ffff <= 0x7fff_ffff_ffff_ffff) by (bit_vector);
    cut
}

/// How loud a log line is.
#[derive(Debug, Clone, Copy, PartialEq, Eq, Structural)]
pub enum LogLevel {
    Info,
    Warning,
    Error,
    Debug,
}

/// What a process tells the kernel.
#[derive(Debug, Clone, PartialEq, Eq)]
pub enum ProcessMessage {
    /// Suspend me for this many milliseconds.
    Wait(u64),
    /// Suspend me until a unit of this resource is mine.
    Request(String),
    /// I give back a unit of this resource.
    Release(String),
    /// My body has run to its end.
    Finished,
    /// Start a process of this name from the entry function of that name.
    Spawn(String, String),
    /// Write this line to the log.
    Log(String, LogLevel),
}

/// What the kernel tells a process.
#[derive(Debug, Clone, PartialEq, Eq)]
pub enum LuaCommand {
    /// Go on.
    Resume,
    /// The unit of this resource that you asked for is yours.
    ResourceGranted(String),
    /// You have failed, for this reason.
    Error(String),
    /// Stop.
    Terminate,
}

/// Where a process stands in its life.
#[derive(Debug, Clone, PartialEq, Eq)]
pub enum ProcessState {
    /// Due to be resumed at the current time.
    Ready,
    /// Being resumed, or resumed and not yet dispatched.
    Running,
    /// Asleep until the given time.
    WaitingForTime(SimTime),
    /// On the wait list of the given resource.
    WaitingForResource(String),
    /// Done, by running to its end, by failing or by being terminated.
    Finished,
}

/// A process state as contracts see it.
pub enum ProcessStateView {
    Ready,
    Running,
    WaitingForTime(nat),
    WaitingForResource(Seq<char>),
    Finished,
}

impl View for ProcessState {
    type V = ProcessStateView;

    open spec fn view(&self) -> ProcessStateView {
        match self {
            ProcessState::Ready => ProcessStateView::Ready,
            ProcessState::Running => ProcessStateView::Running,
            ProcessState::WaitingForTime(t) => ProcessStateView::WaitingForTime(t@),
            ProcessState::WaitingForResource(r) => ProcessStateView::WaitingForResource(r@),
            ProcessState::Finished => ProcessStateView::Finished,
        }
    }
}

/// A message as contracts see it.
pub enum MessageView {
    Wait(nat),
    Request(Seq<char>),
    Release(Seq<char>),
    Finished,
    Spawn(Seq<char>, Seq<char>),
    Log(Seq<char>, LogLevel),
}

impl View for ProcessMessage {
    type V = MessageView;

    open spec fn view(&self) -> MessageView {
        match self {
            ProcessMessage::Wait(millis) => MessageView::Wait(*millis as nat),
            ProcessMessage::Request(resource) => MessageView::Request(resource@),
            ProcessMessage::Release(resource) => MessageView::Release(resource@),
            ProcessMessage::Finished => MessageView::Finished,
            ProcessMessage::Spawn(name, entry) => MessageView::Spawn(name@, entry@),
            ProcessMessage::Log(text, level) => MessageView::Log(text@, *level),
        }
    }
}

/// A command as contracts see it.
pub enum CommandView {
    Resume,
    ResourceGranted(Seq<char>),
    Error(Seq<char>),
    Terminate,
}

impl View for LuaCommand {
    type V = CommandView;

    open spec fn view(&self) -> CommandView {
        match self {
            LuaCommand::Resume => CommandView::Resume,
            LuaCommand::ResourceGranted(resource) => CommandView::ResourceGranted(resource@),
            LuaCommand::Error(reason) => CommandView::Error(reason@),
            LuaCommand::Terminate => CommandView::Terminate,
        }
    }
}

impl ProcessMessage {
    /// Whether the process that sent the message is suspended by it.
    pub open spec fn suspends(self) -> bool {
        self is Wait || self is Request
    }

    /// Whether the process that sent the message goes on at once.
    pub open spec fn passes(self) -> bool {
        self is Release || self is Spawn || self is Log
    }

    /// A copy of the message.
    pub fn duplicate(&self) -> (copy: ProcessMessage)
        ensures
            copy@ == self@,
    {
        match self {
            ProcessMessage::Wait(millis) => ProcessMessage::Wait(*millis),
            ProcessMessage::Request(resource) => ProcessMessage::Request(resource.clone()),
            ProcessMessage::Release(resource) => ProcessMessage::Release(resource.clone()),
            ProcessMessage::Finished => ProcessMessage::Finished,
            ProcessMessage::Spawn(name, entry) => ProcessMessage::Spawn(name.clone(), entry.clone()),
            ProcessMessage::Log(text, level) => ProcessMessage::Log(text.clone(), *level),
        }
    }

    /// Whether the process that sent the message is suspended by it.
    pub fn is_suspending(&self) -> (b: bool)
        ensures
            b == self.suspends(),
    {
        match self {
            ProcessMessage::Wait(_) => true,
            ProcessMessage::Request(_) => true,
            _ => false,
        }
    }
}

/// Whether every message of `s` lets its sender go on at once.
pub open spec fn all_pass(s: Seq<ProcessMessage>) -> bool {
    forall|i: int| 0 <= i < s.len() ==> (#[trigger] s[i]).passes()
}

/// What one resumption of a coroutine came to.
#[derive(Debug, Clone, PartialEq, Eq)]
pub enum Step {
    /// The script called the kernel with this message.
    Emitted(ProcessMessage),
    /// The script ran to its end.
    Finished,
    /// The script failed, for this reason.
    Failed(String),
}

/// A step as contracts see it.
pub enum StepView {
    Emitted(ProcessMessage),
    Finished,
    Failed,
}

impl View for Step {
    type V = StepView;

    open spec fn view(&self) -> StepView {
        match self {
            Step::Emitted(m) => StepView::Emitted(*m),
            Step::Finished => StepView::Finished,
            Step::Failed(_) => StepView::Failed,
        }
    }
}

/// What a resumption came to, given what the resumption returned and the
/// status of the coroutine after it.
///
/// A coroutine that can be resumed again has yielded: the yield is a call
/// to the kernel and must decode to a message. A coroutine that cannot be
/// resumed has run to its end, whatever its body returned. Everything
/// else is a failure.
pub open spec fn classified(resumed: Result<RawYield, String>, status: Option<CoroutineStatus>) -> StepView {
    match status {
        Some(CoroutineStatus::Resumable) => match resumed {
            Ok(raw) => match decoded(raw) {
                Some(m) => StepView::Emitted(m),
                None => StepView::Failed,
            },
            Err(_) => StepView::Failed,
        },
        Some(CoroutineStatus::Unresumable) => StepView::Finished,
        Some(CoroutineStatus::Error) => StepView::Failed,
        None => StepView::Failed,
    }
}

/// Decides what a resumption came to; see `classified`.
pub fn classify(resumed: Result<RawYield, String>, status: Option<CoroutineStatus>) -> (step: Step)
    ensures
        step@ == classified(resumed, status),
        step matches Step::Emitted(m) ==> m.suspends() || m.passes(),
{
    match status {
        Some(CoroutineStatus::Resumable) => match resumed {
            Ok(raw) => match decode_message(raw) {
                Some(m) => Step::Emitted(m),
                None => Step::Failed(String::from_str("malformed call to the kernel")),
            },
            Err(text) => Step::Failed(text),
        },
        Some(CoroutineStatus::Unresumable) => Step::Finished,
        Some(CoroutineStatus::Error) => match resumed {
            Ok(_) => Step::Failed(String::from_str("the script raised an error")),
            Err(text) => Step::Failed(text),
        },
        None => Step::Failed(String::from_str("the coroutine is gone")),
    }
}

/// A process as contracts see it.
pub struct ProcessView {
    pub name: Seq<char>,
    pub state: ProcessStateView,
    /// Messages sent and not yet collected, oldest first.
    pub mailbox: Seq<ProcessMessage>,
    /// The seed that the process was created with.
    pub seed: u64,
    /// The time that the script's mirror of the clock shows: the time
    /// last written into it, or `None` after the interpreter refused a
    /// write, when the mirror is stale.
    pub mirror: Option<nat>,
    /// The source of the script that the process runs.
    pub script: Seq<char>,
    /// The name of the function that is the body of the process.
    pub entry: Seq<char>,
}

impl ProcessView {
    /// A process that has just been created with `seed` to run the
    /// function `entry` of `script`: ready, with nothing sent, and with
    /// its mirror of the clock at zero.
    pub open spec fn fresh(name: Seq<char>, seed: u64, script: Seq<char>, entry: Seq<char>) -> ProcessView {
        ProcessView {
            name,
            state: ProcessStateView::Ready,
            mailbox: Seq::empty(),
            seed,
            mirror: Some(0nat),
            script,
            entry,
        }
    }

    /// The process with its mirror of the clock showing `time`, or
    /// stale for `None`.
    pub open spec fn showing(self, time: Option<nat>) -> ProcessView {
        ProcessView { mirror: time, ..self }
    }

    /// The process put into `state`, unless it is finished: a finished
    /// process stays finished.
    pub open spec fn moved_to(self, state: ProcessStateView) -> ProcessView {
        if self.state is Finished {
            self
        } else {
            ProcessView { state, ..self }
        }
    }

    /// The process after the kernel told it `command`.
    pub open spec fn after_command(self, command: CommandView) -> ProcessView {
        match command {
            CommandView::Resume => self.moved_to(ProcessStateView::Ready),
            CommandView::ResourceGranted(resource) => if self.state
                == ProcessStateView::WaitingForResource(resource) {
                self.moved_to(ProcessStateView::Ready)
            } else {
                self
            },
            CommandView::Error(_) => self.moved_to(ProcessStateView::Finished),
            CommandView::Terminate => self.moved_to(ProcessStateView::Finished),
        }
    }
}

/// A process written in Lua.
///
/// The process owns its Lua state. Its body runs as a coroutine that is
/// resumed by the kernel and suspends itself in `wait` and `request`.
pub struct LuaProcess {
    name: String,
    lua: mlua::Lua,
    coroutine_key: mlua::RegistryKey,
    clock_key: mlua::RegistryKey,
    state: ProcessState,
    mailbox: Vec<ProcessMessage>,
    seed: u64,
    mirror: Option<SimTime>,
    script: String,
    function: String,
}

impl View for LuaProcess {
    type V = ProcessView;

    closed spec fn view(&self) -> ProcessView {
        ProcessView {
            name: self.name@,
            state: self.state@,
            mailbox: self.mailbox@,
            seed: self.seed,
            mirror: match self.mirror {
                Some(time) => Some(time@),
                None => None,
            },
            script: self.script@,
            entry: self.function@,
        }
    }
}

/// What the kernel makes of the interpreter's answer to a request that
/// returns nothing: success stays success, and a failure becomes a
/// `LuaError` with the interpreter's wording.
pub fn script_outcome(answer: Result<(), mlua::Error>) -> (r: Result<(), SimError>)
    ensures
        r is Ok <==> answer is Ok,
        r matches Err(e) ==> e is LuaError,
{
    match answer {
        Ok(_) => Ok(()),
        Err(e) => Err(SimError::LuaError(error_text(&e))),
    }
}

/// What `resume` promises of the messages it added to the mailbox: all
/// but the last let the process go on; the last is the one that stopped
/// it, or, after a failure, a log line of level `Error` with the reason
/// of the failure.
pub open spec fn one_resumption(fresh: Seq<ProcessMessage>, r: Result<bool, SimError>) -> bool {
    match r {
        Ok(done) => {
            &&& fresh.len() > 0
            &&& all_pass(fresh.drop_last())
            &&& if done {
                fresh.last() is Finished
            } else {
                fresh.last().suspends()
            }
        },
        Err(e) => {
            &&& e is LuaError
            &&& fresh.len() > 0
            &&& all_pass(fresh)
            &&& fresh.last()@ == MessageView::Log(e.reason(), LogLevel::Error)
        },
    }
}

/// What one turn of a process that was ready comes to: the process sent
/// at least one message; all but the last let it go on; it is running
/// exactly if the last message suspends it, and finished exactly if the
/// last message says that its body has run to its end or is the log line
/// of its failure.
pub open spec fn one_turn(turn: Seq<ProcessMessage>, state: ProcessStateView) -> bool {
    &&& turn.len() > 0
    &&& all_pass(turn.drop_last())
    &&& state is Running <==> turn.last().suspends()
    &&& state is Finished <==> turn.last() is Finished || turn.last() is Log
}

impl LuaProcess {
    /// Creates a process: a fresh Lua state with its random numbers
    /// seeded by `script_seed(seed)`, the kernel
    /// interface bound into it, `script` run in it, and the global
    /// function `function_name` wrapped in a coroutine.
    ///
    /// The process keeps the script and the name of its entry function;
    /// its mirror of the clock starts at zero.
    ///
    /// Whether this succeeds is up to the script. A failure to compile or
    /// run it is a `LuaError`; a missing entry function is a
    /// `ProcessError`.
    pub fn new(name: String, script_content: &str, function_name: &str, seed: u64) -> (r: Result<
        LuaProcess,
        SimError,
    >)
        ensures
            match r {
                Ok(p) => p@ == ProcessView::fresh(name@, seed, script_content@, function_name@),
                Err(e) => e is LuaError || e is ProcessError,
            },
    {
        let lua = match new_state() {
            Ok(lua) => lua,
            Err(e) => {
                return Err(SimError::LuaError(error_text(&e)));
            },
        };
        if let Err(e) = set_global_text(&lua, "_process_name", name.as_str()) {
            return Err(SimError::LuaError(error_text(&e)));
        }
        if let Err(e) = set_global_number(&lua, "_seed", script_seed(seed)) {
            return Err(SimError::LuaError(error_text(&e)));
        }
        let (clock_key, mirror) = match register_api(&lua) {
            Ok(bound) => bound,
            Err(e) => {
                return Err(e);
            },
        };
        if let Err(e) = run_chunk(&lua, script_content, "=script") {
            return Err(SimError::LuaError(error_text(&e)));
        }
        let coroutine_key = match create_coroutine(&lua, function_name) {
            Ok(key) => key,
            Err(e) => {
                return Err(SimError::ProcessError(error_text(&e)));
            },
        };
        Ok(
            LuaProcess {
                name,
                lua,
                coroutine_key,
                clock_key,
                state: ProcessState::Ready,
                mailbox: Vec::new(),
                seed,
                mirror: Some(mirror),
                script: script_content.to_owned(),
                function: function_name.to_owned(),
            },
        )
    }

    /// Resumes the coroutine once and says what that came to.
    fn advance(&self) -> (step: Step)
        ensures
            step matches Step::Emitted(m) ==> m.suspends() || m.passes(),
    {
        let resumed = match resume_coroutine(&self.lua, &self.coroutine_key) {
            Ok(raw) => Ok(raw),
            Err(e) => Err(error_text(&e)),
        };
        let status = match coroutine_status(&self.lua, &self.coroutine_key) {
            Ok(s) => Some(s),
            Err(_) => None,
        };
        classify(resumed, status)
    }

    /// Runs the process up to its next suspension or to its end.
    ///
    /// Returns `Ok(true)` when the body has run to its end, `Ok(false)`
    /// when it is suspended in `wait` or `request`, and an error when the
    /// script failed. The messages that the body sent on the way are
    /// added to the mailbox in the order in which they were sent; a
    /// failure adds its reason as a log line of level `Error`. A finished
    /// process is left as it is.
    pub fn resume(&mut self) -> (r: Result<bool, SimError>)
        ensures
            final(self)@ == (ProcessView {
                state: final(self)@.state,
                mailbox: final(self)@.mailbox,
                ..old(self)@
            }),
            old(self)@.state is Finished ==> (r matches Ok(done) && done) && final(self)@ == old(
                self,
            )@,
            old(self)@.state !is Finished ==> {
                &&& old(self)@.mailbox.len() <= final(self)@.mailbox.len()
                &&& final(self)@.mailbox.take(old(self)@.mailbox.len() as int) == old(self)@.mailbox
                &&& one_resumption(final(self)@.mailbox.skip(old(self)@.mailbox.len() as int), r)
                &&& final(self)@.state == if r matches Ok(done) && !done {
                    ProcessStateView::Running
                } else {
                    ProcessStateView::Finished
                }
            },
    {
        if let ProcessState::Finished = self.state {
            return Ok(true);
        }
        self.state = ProcessState::Running;
        let ghost start = self.mailbox@;
        let ghost n = start.len() as int;
        assert(self.mailbox@.take(n) =~= start);
        assert(self.mailbox@.skip(n) =~= Seq::<ProcessMessage>::empty());
        loop
            invariant
                old(self)@.state !is Finished,
                self@ == (ProcessView {
                    state: self@.state,
                    mailbox: self@.mailbox,
                    ..old(self)@
                }),
                self.state == ProcessState::Running,
                n == start.len(),
                start == old(self)@.mailbox,
                n <= self.mailbox@.len(),
                self.mailbox@.take(n) == start,
                all_pass(self.mailbox@.skip(n)),
            decreases usize::MAX - self.mailbox.len(),
        {
            let ghost before = self.mailbox@;
            if self.mailbox.len() == usize::MAX {
                self.state = ProcessState::Finished;
                let reason = String::from_str("the mailbox is full");
                let complaint = ProcessMessage::Log(reason.clone(), LogLevel::Error);
                self.mailbox.push(complaint);
                proof {
                    assert(self.mailbox@.take(n) =~= start);
                    assert(self.mailbox@.skip(n) =~= before.skip(n).push(complaint));
                }
                return Err(SimError::LuaError(reason));
            }
            match self.advance() {
                Step::Emitted(message) => {
                    let stop = message.is_suspending();
                    self.mailbox.push(message);
                    proof {
                        assert(self.mailbox@.take(n) =~= start);
                        assert(self.mailbox@.skip(n) =~= before.skip(n).push(message));
                        assert(self.mailbox@.skip(n).drop_last() =~= before.skip(n));
                    }
                    if stop {
                        return Ok(false);
                    }
                },
                Step::Finished => {
                    self.state = ProcessState::Finished;
                    self.mailbox.push(ProcessMessage::Finished);
                    proof {
                        assert(self.mailbox@.take(n) =~= start);
                        assert(self.mailbox@.skip(n) =~= before.skip(n).push(
                            ProcessMessage::Finished,
                        ));
                        assert(self.mailbox@.skip(n).drop_last() =~= before.skip(n));
                    }
                    return Ok(true);
                },
                Step::Failed(reason) => {
                    self.state = ProcessState::Finished;
                    let complaint = ProcessMessage::Log(reason.clone(), LogLevel::Error);
                    self.mailbox.push(complaint);
                    proof {
                        assert(self.mailbox@.take(n) =~= start);
                        assert(self.mailbox@.skip(n) =~= before.skip(n).push(complaint));
                    }
                    return Err(SimError::LuaError(reason));
                },
            }
        }
    }

    /// Hands over the messages in the mailbox, oldest first, and leaves
    /// the mailbox empty.
    pub fn take_messages(&mut self) -> (messages: Vec<ProcessMessage>)
        ensures
            messages@ == old(self)@.mailbox,
            final(self)@ == (ProcessView { mailbox: Seq::empty(), ..old(self)@ }),
    {
        let mut messages: Vec<ProcessMessage> = Vec::new();
        std::mem::swap(&mut self.mailbox, &mut messages);
        messages
    }

    pub fn state(&self) -> (s: &ProcessState)
        ensures
            s@ == self@.state,
    {
        &self.state
    }

    pub fn name(&self) -> (n: &str)
        ensures
            n@ == self@.name,
    {
        self.name.as_str()
    }

    /// The time that the script's mirror of the clock shows, or `None`
    /// when the mirror is stale.
    pub fn mirror(&self) -> (time: Option<SimTime>)
        ensures
            match time {
                Some(shown) => self@.mirror == Some(shown@),
                None => self@.mirror is None,
            },
    {
        self.mirror
    }

    /// The source of the script that the process runs.
    pub fn script(&self) -> (source: &str)
        ensures
            source@ == self@.script,
    {
        self.script.as_str()
    }

    /// The name of the function that is the body of the process.
    pub fn entry(&self) -> (function: &str)
        ensures
            function@ == self@.entry,
    {
        self.function.as_str()
    }

    /// The seed that the process was created with.
    pub fn seed(&self) -> (seed: u64)
        ensures
            seed == self@.seed,
    {
        self.seed
    }

    /// Whether the process is called `name`.
    pub fn is_called(&self, name: &String) -> (b: bool)
        ensures
            b == (self@.name == name@),
    {
        self.name == *name
    }

    /// Whether the process is done.
    pub fn is_finished(&self) -> (b: bool)
        ensures
            b == (self@.state is Finished),
    {
        match self.state {
            ProcessState::Finished => true,
            _ => false,
        }
    }

    /// Puts the process to sleep until `wake_time`, unless it is
    /// finished.
    pub fn set_waiting(&mut self, wake_time: SimTime)
        ensures
            final(self)@ == old(self)@.moved_to(ProcessStateView::WaitingForTime(wake_time@)),
    {
        if !self.is_finished() {
            self.state = ProcessState::WaitingForTime(wake_time);
        }
    }

    /// Marks the process as waiting for a unit of `resource`, unless it
    /// is finished.
    pub fn set_waiting_for_resource(&mut self, resource: String)
        ensures
            final(self)@ == old(self)@.moved_to(ProcessStateView::WaitingForResource(resource@)),
    {
        if !self.is_finished() {
            self.state = ProcessState::WaitingForResource(resource);
        }
    }

    /// Marks the process as due to be resumed, unless it is finished.
    pub fn set_active(&mut self)
        ensures
            final(self)@ == old(self)@.moved_to(ProcessStateView::Ready),
    {
        if !self.is_finished() {
            self.state = ProcessState::Ready;
        }
    }

    /// Ends the process.
    pub fn terminate(&mut self)
        ensures
            final(self)@ == old(self)@.moved_to(ProcessStateView::Finished),
            final(self)@.state is Finished,
    {
        self.state = ProcessState::Finished;
    }

    /// Whether the process waits for a unit of the resource `resource`.
    pub fn waits_for(&self, resource: &String) -> (b: bool)
        ensures
            b == (self@.state == ProcessStateView::WaitingForResource(resource@)),
    {
        match &self.state {
            ProcessState::WaitingForResource(r) => *r == *resource,
            _ => false,
        }
    }

    /// Whether the process waits for a unit of any resource.
    pub fn is_waiting_for_resource(&self) -> (b: bool)
        ensures
            b == (self@.state is WaitingForResource),
    {
        match &self.state {
            ProcessState::WaitingForResource(_) => true,
            _ => false,
        }
    }

    /// Carries out what the kernel tells the process.
    pub fn obey(&mut self, command: LuaCommand)
        ensures
            final(self)@ == old(self)@.after_command(command@),
    {
        match command {
            LuaCommand::Resume => self.set_active(),
            LuaCommand::ResourceGranted(resource) => {
                if self.waits_for(&resource) {
                    self.set_active();
                }
            },
            LuaCommand::Error(_) => self.terminate(),
            LuaCommand::Terminate => self.terminate(),
        }
    }

    /// Writes `time` into the script's mirror of the clock, from which
    /// `now()` reads: `now` is bound anew to a function that holds the
    /// time where the script cannot reach it. When the interpreter
    /// refuses, the mirror is marked as stale.
    pub fn update_time(&mut self, time: SimTime) -> (r: Result<(), SimError>)
        ensures
            final(self)@ == old(self)@.showing(
                if r is Ok {
                    Some(time@)
                } else {
                    None
                },
            ),
            r matches Err(e) ==> e is LuaError,
    {
        let r = script_outcome(bind_made(&self.lua, &self.clock_key, "now", time.as_millis()));
        self.mirror = if r.is_ok() {
            Some(time)
        } else {
            None
        };
        r
    }
}

} // verus!
