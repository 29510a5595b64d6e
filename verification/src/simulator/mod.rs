//! The simulator: processes, resources and the clock under one scheduler.

pub mod laws;

use crate::error::SimError;
use crate::kernel::event::{Event, Priority};
use crate::kernel::simulation::{due_count, scheduled, slot_for, QueueView, Simulation};
use crate::kernel::time::{clamped_sum, Duration, SimTime};
use crate::lua::engine::{
    all_from, bare, commanded, mirrored, moved, process_names, unfinished, EngineView, LuaEngine,
};
use crate::lua::process::{
    one_turn, CommandView, LuaCommand, MessageView, ProcessMessage, ProcessState, ProcessStateView,
    ProcessView,
};
use crate::names::{distinct, lemma_position, listed, position};
use crate::resources::{
    all_wf, names_of, RequestOutcome, Released, ResourceManager, ResourceStats, ResourceView,
};
use crate::timed::{
    due, earliest, lemma_due_split, lemma_earliest, not_due, sleeper_names, with_sleeper,
    SleeperView, TimedWaitSet,
};
use crate::trace::{fired, lines, rejected, sent, told, TraceEntry, TraceEntryView, TraceEvent};
use vstd::prelude::*;

verus! {

/// Why a request or a release could not be carried out.
pub const NO_SUCH_RESOURCE: &'static str = "no such resource";

/// Why a release had no effect.
pub const NOTHING_TO_RELEASE: &'static str = "every unit is free already";

/// How a run ended.
#[derive(Debug, Clone, Copy, PartialEq, Eq, Structural)]
pub enum RunOutcome {
    /// Nothing is left to do: nobody is ready, asleep or waiting, and no
    /// event is pending. The clock stands where the last thing happened.
    Completed,
    /// Nothing will happen any more, but somebody still waits for a
    /// resource. The clock stands at the horizon.
    Deadlock,
    /// The clock has reached the horizon with work left over.
    Horizon,
    /// The scheduler has gone round as often as it is allowed to.
    StepLimit,
}

/// The whole simulator as contracts see it.
pub struct KernelView {
    pub clock: nat,
    /// The pending events, the next to fire first.
    pub events: Seq<Event>,
    pub next_event_id: nat,
    pub resources: Seq<ResourceView>,
    pub processes: Seq<ProcessView>,
    /// The entry functions that can be spawned.
    pub functions: Seq<Seq<char>>,
    /// The sources of the scripts that are kept: `sources[i]` is the
    /// script first loaded for the entry function `functions[i]`.
    pub sources: Seq<Seq<char>>,
    /// Messages sent by resumed processes and not yet dispatched.
    pub outbox: Seq<(String, ProcessMessage)>,
    /// The processes to resume at the current time, the first first.
    pub ready: Seq<Seq<char>>,
    pub sleepers: Seq<SleeperView>,
    pub trace: Seq<TraceEntryView>,
    /// How often `run` lets the scheduler go round.
    pub step_limit: nat,
    /// The seed that the simulator was made with.
    pub seed: u64,
    /// How many processes have been created so far, wrapping around.
    pub created: u64,
}

/// The table `s` after each of `names`, from first to last, was told to
/// resume.
pub open spec fn resumed(s: Seq<ProcessView>, names: Seq<Seq<char>>) -> Seq<ProcessView>
    decreases names.len(),
{
    if names.len() == 0 {
        s
    } else {
        commanded(resumed(s, names.drop_last()), names.last(), CommandView::Resume)
    }
}

/// The lines that record that each of `names` was woken at `time`.
pub open spec fn wake_lines(time: nat, names: Seq<Seq<char>>) -> Seq<TraceEntryView> {
    Seq::new(names.len(), |i: int| told(time, names[i], CommandView::Resume))
}

/// The lines that record that each of `events` fired.
pub open spec fn fired_lines(events: Seq<Event>) -> Seq<TraceEntryView> {
    Seq::new(events.len(), |i: int| fired(events[i]))
}

/// The earlier of two optional times.
pub open spec fn sooner(a: Option<nat>, b: Option<nat>) -> Option<nat> {
    match (a, b) {
        (Some(x), Some(y)) => if x <= y {
            Some(x)
        } else {
            Some(y)
        },
        (Some(x), None) => Some(x),
        (None, b) => b,
    }
}

impl KernelView {
    /// The clock and the event queue.
    pub open spec fn queue(self) -> QueueView {
        QueueView { clock: self.clock, pending: self.events, next_id: self.next_event_id }
    }

    /// The registry of processes.
    pub open spec fn engine(self) -> EngineView {
        EngineView {
            processes: self.processes,
            functions: self.functions,
            sources: self.sources,
            outbox: self.outbox,
            seed: self.seed,
            created: self.created,
        }
    }

    /// With the registry of processes as `engine` has it.
    pub open spec fn with_engine(self, engine: EngineView) -> KernelView {
        KernelView {
            processes: engine.processes,
            functions: engine.functions,
            sources: engine.sources,
            outbox: engine.outbox,
            seed: engine.seed,
            created: engine.created,
            ..self
        }
    }

    /// With the processes as `shown`: as they are after the clock was
    /// written into their mirrors.
    pub open spec fn mirroring(self, shown: Seq<ProcessView>) -> KernelView {
        KernelView { processes: shown, ..self }
    }

    /// What holds of the simulator at every moment: the event queue is in
    /// firing order and holds nothing from the past; every resource has
    /// between zero and its capacity of free units and nobody waiting
    /// while a unit is free; no name is used twice; nobody sleeps past
    /// their time.
    pub open spec fn wf(self) -> bool {
        &&& self.queue().wf()
        &&& self.engine().wf()
        &&& all_wf(self.resources)
        &&& self.clock <= u64::MAX
        &&& distinct(sleeper_names(self.sleepers))
        &&& forall|i: int|
            0 <= i < self.sleepers.len() ==> self.clock <= (#[trigger] self.sleepers[i]).wake_time
                <= u64::MAX
    }

    /// The simulator as it starts out when made with `seed`: time zero,
    /// no limit on the rounds of the scheduler to speak of, no process
    /// created yet, and nothing else.
    pub open spec fn initial(seed: u64) -> KernelView {
        KernelView {
            clock: 0,
            events: Seq::empty(),
            next_event_id: 0,
            resources: Seq::empty(),
            processes: Seq::empty(),
            functions: Seq::empty(),
            sources: Seq::empty(),
            outbox: Seq::empty(),
            ready: Seq::empty(),
            sleepers: Seq::empty(),
            trace: Seq::empty(),
            step_limit: u64::MAX as nat,
            seed,
            created: 0,
        }
    }

    /// With the outbox emptied.
    pub open spec fn collected(self) -> KernelView {
        KernelView { outbox: Seq::empty(), ..self }
    }

    /// With one more line in the record.
    pub open spec fn noting(self, line: TraceEntryView) -> KernelView {
        KernelView { trace: self.trace.push(line), ..self }
    }

    /// After every sleeper whose time has come was woken: it leaves the
    /// sleepers, is told to resume, and joins the back of the ready
    /// queue, the longest asleep first.
    pub open spec fn after_wakeups(self) -> KernelView {
        let woken = sleeper_names(due(self.sleepers, self.clock));
        KernelView {
            sleepers: not_due(self.sleepers, self.clock),
            ready: self.ready + woken,
            processes: resumed(self.processes, woken),
            trace: self.trace + wake_lines(self.clock, woken),
            ..self
        }
    }

    /// After `sender` asked to sleep for `millis` milliseconds.
    pub open spec fn after_wait(self, sender: Seq<char>, millis: nat) -> KernelView {
        let wake = clamped_sum(self.clock, millis);
        KernelView {
            processes: moved(self.processes, sender, ProcessStateView::WaitingForTime(wake)),
            sleepers: with_sleeper(self.sleepers, sender, wake),
            ..self
        }
    }

    /// After `sender` asked for a unit of `resource`: with a unit free
    /// it is granted and the sender is ready again; with none free the
    /// sender joins the wait list; an unknown resource fails the sender.
    pub open spec fn after_request(self, sender: Seq<char>, resource: Seq<char>) -> KernelView {
        let i = position(names_of(self.resources), resource);
        if i >= self.resources.len() {
            KernelView {
                processes: commanded(
                    self.processes,
                    sender,
                    CommandView::Error(NO_SUCH_RESOURCE@),
                ),
                ..self
            }.noting(told(self.clock, sender, CommandView::Error(NO_SUCH_RESOURCE@)))
        } else if self.resources[i].available > 0 {
            KernelView {
                resources: self.resources.update(
                    i,
                    self.resources[i].after_request(sender, self.clock),
                ),
                processes: moved(self.processes, sender, ProcessStateView::Ready),
                ready: self.ready.push(sender),
                ..self
            }.noting(told(self.clock, sender, CommandView::ResourceGranted(resource)))
        } else {
            KernelView {
                resources: self.resources.update(
                    i,
                    self.resources[i].after_request(sender, self.clock),
                ),
                processes: moved(
                    self.processes,
                    sender,
                    ProcessStateView::WaitingForResource(resource),
                ),
                ..self
            }
        }
    }

    /// After `sender` gave back a unit of `resource`: with somebody
    /// waiting the unit goes to the head of the wait list, who is told so
    /// and joins the ready queue; else the unit returns to the pool. An
    /// unknown resource and a pool that is full already are noted and
    /// change nothing else.
    pub open spec fn after_release(self, sender: Seq<char>, resource: Seq<char>) -> KernelView {
        let i = position(names_of(self.resources), resource);
        if i >= self.resources.len() {
            self.noting(rejected(self.clock, sender, NO_SUCH_RESOURCE@))
        } else {
            let was = self.resources[i];
            let released = KernelView {
                resources: self.resources.update(i, was.after_release(self.clock)),
                ..self
            };
            if was.waiters.len() > 0 {
                let target = was.waiters[0].process;
                KernelView {
                    processes: commanded(
                        self.processes,
                        target,
                        CommandView::ResourceGranted(resource),
                    ),
                    ready: self.ready.push(target),
                    ..released
                }.noting(told(self.clock, target, CommandView::ResourceGranted(resource)))
            } else if was.available == was.capacity {
                released.noting(rejected(self.clock, sender, NOTHING_TO_RELEASE@))
            } else {
                released
            }
        }
    }

    /// After the kernel dispatched `message` from `sender`. The message
    /// is noted first. Of a spawn this is only the note: whether the
    /// child comes to life is up to its script.
    pub open spec fn after_message(self, sender: Seq<char>, message: MessageView) -> KernelView {
        let noted = self.noting(sent(self.clock, sender, message));
        match message {
            MessageView::Wait(millis) => noted.after_wait(sender, millis),
            MessageView::Request(resource) => noted.after_request(sender, resource),
            MessageView::Release(resource) => noted.after_release(sender, resource),
            MessageView::Finished => noted,
            MessageView::Spawn(_, _) => noted,
            MessageView::Log(_, _) => noted,
        }
    }

    /// After the kernel dispatched `message` from `sender` for good. For
    /// every message but a spawn this is `after_message`. A spawn then
    /// meets its fate: with `None` the child comes to life, with a reason
    /// the spawn is noted as rejected for that reason.
    pub open spec fn after_delivery(
        self,
        sender: Seq<char>,
        message: MessageView,
        fate: Option<Seq<char>>,
    ) -> KernelView {
        let acted = self.after_message(sender, message);
        match message {
            MessageView::Spawn(name, entry) => match fate {
                None => acted.with_child(name, entry),
                Some(reason) => acted.noting(rejected(self.clock, sender, reason)),
            },
            _ => acted,
        }
    }

    /// The time of the next thing to happen by itself: the earliest
    /// wake-up or the first event, whichever comes sooner.
    pub open spec fn next_happening(self) -> Option<nat> {
        sooner(
            earliest(self.sleepers),
            if self.events.len() > 0 {
                Some(self.events[0].time@)
            } else {
                None
            },
        )
    }

    /// Whether some process waits for a unit of a resource.
    pub open spec fn someone_waits(self) -> bool {
        exists|i: int|
            0 <= i < self.processes.len() && (#[trigger] self.processes[i]).state is WaitingForResource
    }

    /// With the clock at `horizon`, unless it is past it already.
    pub open spec fn at_horizon(self, horizon: nat) -> KernelView {
        KernelView {
            clock: if self.clock < horizon {
                horizon
            } else {
                self.clock
            },
            ..self
        }
    }

    /// After time moved on towards `horizon`.
    ///
    /// When the next thing to happen lies within the horizon, the clock
    /// jumps to it, the sleepers due then are woken, and after them the
    /// events due then fire in firing order. When it lies beyond, or
    /// nothing is left to happen but somebody waits for a resource, the
    /// clock jumps to the horizon. When nothing is left at all, the clock
    /// stays.
    pub open spec fn after_advance(self, horizon: nat) -> KernelView {
        match self.next_happening() {
            Some(t) => if t <= horizon {
                let woken = (KernelView { clock: t, ..self }).after_wakeups();
                let n = due_count(t, self.events) as int;
                KernelView {
                    events: self.events.skip(n),
                    trace: woken.trace + fired_lines(self.events.take(n)),
                    ..woken
                }
            } else {
                self.at_horizon(horizon)
            },
            None => if self.someone_waits() {
                self.at_horizon(horizon)
            } else {
                self
            },
        }
    }

    /// Whether the run is over after time moved on towards `horizon`,
    /// and how it ended.
    pub open spec fn advance_outcome(self, horizon: nat) -> Option<RunOutcome> {
        match self.next_happening() {
            Some(t) => if t <= horizon {
                None
            } else {
                Some(RunOutcome::Horizon)
            },
            None => if self.someone_waits() {
                Some(RunOutcome::Deadlock)
            } else {
                Some(RunOutcome::Completed)
            },
        }
    }

    /// After one round of the scheduler in which the resumed processes
    /// were left as `resumed` and had sent `sent`, and the spawns among
    /// the messages met the `fates`: the due sleepers are woken, the
    /// ready queue is drained, the messages are dispatched, the finished
    /// processes are cleared away, and, with nobody ready, time moves on
    /// towards `horizon`.
    pub open spec fn after_round(
        self,
        resumed: Seq<ProcessView>,
        sent: Seq<(String, ProcessMessage)>,
        fates: Seq<Option<Seq<char>>>,
        horizon: nat,
    ) -> KernelView {
        let cleared = self.before_advance(resumed, sent, fates);
        if cleared.ready.len() == 0 {
            cleared.after_advance(horizon)
        } else {
            cleared
        }
    }

    /// The round of `after_round` up to the point where time may move.
    pub open spec fn before_advance(
        self,
        resumed: Seq<ProcessView>,
        sent: Seq<(String, ProcessMessage)>,
        fates: Seq<Option<Seq<char>>>,
    ) -> KernelView {
        let handled = dispatched(self.drained(resumed), sent, fates);
        KernelView { processes: unfinished(handled.processes), ..handled }
    }

    /// After the due sleepers were woken and the ready processes resumed
    /// and left as `resumed`: the ready queue is empty, and so is the
    /// outbox, whose messages are about to be dispatched.
    pub open spec fn drained(self, resumed: Seq<ProcessView>) -> KernelView {
        KernelView {
            processes: resumed,
            outbox: Seq::empty(),
            ready: Seq::empty(),
            ..self.after_wakeups()
        }
    }

    /// Whether the run is over after the round of `after_round`, and how
    /// it ended.
    pub open spec fn round_outcome(
        self,
        resumed: Seq<ProcessView>,
        sent: Seq<(String, ProcessMessage)>,
        fates: Seq<Option<Seq<char>>>,
        horizon: nat,
    ) -> Option<RunOutcome> {
        let cleared = self.before_advance(resumed, sent, fates);
        if cleared.ready.len() == 0 {
            cleared.advance_outcome(horizon)
        } else if horizon <= cleared.clock {
            Some(RunOutcome::Horizon)
        } else {
            None
        }
    }

    /// What a round can rely on, whatever the scripts do. Resuming
    /// processes neither adds nor removes one; it leaves alone whoever
    /// was not ready, and leaves running or finished whoever was ready
    /// and in the ready queue; see `resumed_from`. The messages that were
    /// in the outbox stay first, and every message behind them was sent
    /// by a process that was in the ready queue. Every process that was
    /// resumed sent at least one message, the processes took their turns
    /// in the order of the ready queue, and the state of each goes by
    /// the last message of its turn; see `heard_in_turn`.
    pub open spec fn resumes_to(
        self,
        resumed: Seq<ProcessView>,
        sent: Seq<(String, ProcessMessage)>,
    ) -> bool {
        let woken = self.after_wakeups();
        &&& process_names(resumed) == process_names(woken.processes)
        &&& resumed_from(woken.processes, resumed, woken.ready)
        &&& sent_from(self.outbox, sent, woken.ready)
        &&& heard_in_turn(
            woken.processes,
            resumed,
            sent.skip(self.outbox.len() as int),
            woken.ready,
        )
    }

    /// After a child called `name` came to life to run the entry
    /// function `entry`: it runs the script that is kept for `entry`, is
    /// registered with the next seed, ready, and last in the ready queue;
    /// see `EngineView::with_process`.
    pub open spec fn with_child(self, name: Seq<char>, entry: Seq<char>) -> KernelView {
        KernelView {
            ready: self.ready.push(name),
            ..self.with_engine(
                self.engine().with_process(name, self.engine().source_for(entry), entry),
            )
        }
    }

    /// After a process called `name` was loaded to run the function
    /// `entry` of `script`: it is registered with the next seed, ready,
    /// and last in the ready queue, and the script is kept for `entry`
    /// unless one is kept already.
    pub open spec fn with_loaded(
        self,
        name: Seq<char>,
        script: Seq<char>,
        entry: Seq<char>,
    ) -> KernelView {
        KernelView {
            ready: self.ready.push(name),
            ..self.with_engine(
                self.engine().with_process(name, script, entry).with_script(script, entry),
            )
        }
    }
}

/// What the interpreter and the scripts contributed to one round of the
/// scheduler.
pub struct Round {
    /// The processes as the writing of the clock into their mirrors
    /// left them.
    pub shown: Seq<ProcessView>,
    /// The processes as the resumed scripts left them.
    pub resumed: Seq<ProcessView>,
    /// The messages that the scripts sent, in the order in which they
    /// were sent, each with the name of its sender, behind the messages
    /// that were in the outbox already.
    pub sent: Seq<(String, ProcessMessage)>,
    /// What became of the spawns among the messages: `fates[i]` is the
    /// fate of message `i`.
    pub fates: Seq<Option<Seq<char>>>,
}

impl KernelView {
    /// Whether `round` can be what the interpreter and the scripts
    /// contribute to a round that starts here, whatever they do. Every
    /// process shows the clock in its mirror, or has a stale mirror where
    /// the interpreter refused the write. The processes are resumed and their messages
    /// sent as `resumes_to` says. Every message has a fate, and a spawn
    /// brings a child to life only if the child's name is free and its
    /// entry function was loaded; see `rightly_fated`.
    pub open spec fn admits(self, round: Round) -> bool {
        &&& mirrored(self.processes, round.shown, self.clock)
        &&& self.mirroring(round.shown).resumes_to(round.resumed, round.sent)
        &&& round.fates.len() == round.sent.len()
        &&& rightly_fated(
            self.mirroring(round.shown).drained(round.resumed),
            round.sent,
            round.fates,
        )
    }

    /// After the round to which the interpreter and the scripts
    /// contributed `round`: the clock is written into the mirrors, and
    /// then the round goes as `after_round` says.
    pub open spec fn after(self, round: Round, horizon: nat) -> KernelView {
        self.mirroring(round.shown).after_round(round.resumed, round.sent, round.fates, horizon)
    }

    /// Whether the run is over after the round to which the interpreter
    /// and the scripts contributed `round`, and how it ended; see
    /// `round_outcome`.
    pub open spec fn verdict(self, round: Round, horizon: nat) -> Option<RunOutcome> {
        self.mirroring(round.shown).round_outcome(
            round.resumed,
            round.sent,
            round.fates,
            horizon,
        )
    }

    /// Whether each of `rounds` can be what is contributed to its round,
    /// when the rounds follow one another from here; see `admits`.
    pub open spec fn admits_all(self, rounds: Seq<Round>, horizon: nat) -> bool
        decreases rounds.len(),
    {
        rounds.len() == 0 || {
            &&& self.admits_all(rounds.drop_last(), horizon)
            &&& self.after_rounds(rounds.drop_last(), horizon).admits(rounds.last())
        }
    }

    /// After the rounds to which the scripts contributed `rounds`, one
    /// after the other.
    pub open spec fn after_rounds(self, rounds: Seq<Round>, horizon: nat) -> KernelView
        decreases rounds.len(),
    {
        if rounds.len() == 0 {
            self
        } else {
            self.after_rounds(rounds.drop_last(), horizon).after(rounds.last(), horizon)
        }
    }

    /// Whether none of `rounds` ended the run.
    pub open spec fn went_on(self, rounds: Seq<Round>, horizon: nat) -> bool
        decreases rounds.len(),
    {
        rounds.len() == 0 || {
            &&& self.went_on(rounds.drop_last(), horizon)
            &&& self.after_rounds(rounds.drop_last(), horizon).verdict(rounds.last(), horizon) is None
        }
    }

    /// Whether a run of `rounds` towards `horizon` ends with `outcome`:
    /// every round is one that can be, the last round ends the run so
    /// and none before ends it; or, for `StepLimit`, no round ends it and
    /// the rounds are as many as the step limit allows.
    pub open spec fn runs_to(self, rounds: Seq<Round>, horizon: nat, outcome: RunOutcome) -> bool {
        &&& self.admits_all(rounds, horizon)
        &&& if outcome == RunOutcome::StepLimit {
            self.went_on(rounds, horizon) && rounds.len() == self.step_limit
        } else {
            &&& 0 < rounds.len() <= self.step_limit
            &&& self.went_on(rounds.drop_last(), horizon)
            &&& self.after_rounds(rounds.drop_last(), horizon).verdict(rounds.last(), horizon)
                == Some(outcome)
        }
    }
}

/// The simulator.
///
/// It owns the clock and the event queue, the registry of processes, the
/// resources, the ready queue, the set of sleepers and the record of the
/// run.
pub struct Simulator {
    simulation: Simulation,
    lua_engine: LuaEngine,
    resources: ResourceManager,
    ready_queue: Vec<String>,
    waiting_for_time: TimedWaitSet,
    trace: Vec<TraceEntry>,
    step_limit: u64,
}

impl View for Simulator {
    type V = KernelView;

    closed spec fn view(&self) -> KernelView {
        KernelView {
            clock: self.simulation@.clock,
            events: self.simulation@.pending,
            next_event_id: self.simulation@.next_id,
            resources: self.resources@,
            processes: self.lua_engine@.processes,
            functions: self.lua_engine@.functions,
            sources: self.lua_engine@.sources,
            outbox: self.lua_engine@.outbox,
            ready: Seq::new(self.ready_queue@.len(), |i: int| self.ready_queue@[i]@),
            sleepers: self.waiting_for_time@,
            trace: lines(self.trace@),
            step_limit: self.step_limit as nat,
            seed: self.lua_engine@.seed,
            created: self.lua_engine@.created,
        }
    }
}

impl Simulator {
    /// What holds of the simulator at every moment; see `KernelView::wf`.
    pub open spec fn wf(&self) -> bool {
        self@.wf()
    }

    /// A simulator at time zero with no process, no resource and no
    /// event, as `with_seed` makes it from seed zero.
    pub fn new() -> (sim: Simulator)
        ensures
            sim.wf(),
            sim@ == KernelView::initial(0),
    {
        Simulator::with_seed(0)
    }

    /// A simulator at time zero with no process, no resource and no
    /// event. Its scripts draw their random numbers from `seed`, each
    /// process from a seed of its own, so that a run can be repeated.
    pub fn with_seed(seed: u64) -> (sim: Simulator)
        ensures
            sim.wf(),
            sim@ == KernelView::initial(seed),
    {
        let sim = Simulator {
            simulation: Simulation::new(),
            lua_engine: LuaEngine::with_seed(seed),
            resources: ResourceManager::new(),
            ready_queue: Vec::new(),
            waiting_for_time: TimedWaitSet::new(),
            trace: Vec::new(),
            step_limit: u64::MAX,
        };
        proof {
            assert(sim@.ready =~= Seq::<Seq<char>>::empty());
            assert(sim@.trace =~= Seq::<TraceEntryView>::empty());
        }
        sim
    }

    /// The current virtual time.
    pub fn now(&self) -> (t: SimTime)
        ensures
            t@ == self@.clock,
    {
        self.simulation.now()
    }

    /// The record of the run so far, oldest line first.
    pub fn trace(&self) -> (t: &Vec<TraceEntry>)
        ensures
            lines(t@) == self@.trace,
    {
        &self.trace
    }

    /// Hands over the record of the run so far, oldest line first, and
    /// starts a new one.
    pub fn take_trace(&mut self) -> (t: Vec<TraceEntry>)
        ensures
            lines(t@) == old(self)@.trace,
            final(self)@ == (KernelView { trace: Seq::empty(), ..old(self)@ }),
    {
        let mut t: Vec<TraceEntry> = Vec::new();
        std::mem::swap(&mut self.trace, &mut t);
        proof {
            assert(self@.ready =~= old(self)@.ready);
            assert(self@.trace =~= Seq::<TraceEntryView>::empty());
        }
        t
    }

    /// The names in the ready queue, the first to resume first.
    pub fn ready_queue(&self) -> (q: &Vec<String>)
        ensures
            q.len() == self@.ready.len(),
            forall|i: int| 0 <= i < q.len() ==> (#[trigger] q[i])@ == self@.ready[i],
    {
        &self.ready_queue
    }

    /// Sets how often `run` lets the scheduler go round.
    pub fn set_step_limit(&mut self, limit: u64)
        ensures
            final(self)@ == (KernelView { step_limit: limit as nat, ..old(self)@ }),
    {
        self.step_limit = limit;
        proof {
            assert(self@.ready =~= old(self)@.ready);
        }
    }

    /// Adds a line to the record.
    fn record(&mut self, process: String, event: TraceEvent)
        ensures
            final(self)@ == old(self)@.noting(
                TraceEntryView { time: old(self)@.clock, process: process@, event: event@ },
            ),
    {
        let time = self.simulation.now();
        self.trace.push(TraceEntry { time, process, event });
        proof {
            assert(self@.trace =~= old(self)@.trace.push(
                TraceEntryView { time: old(self)@.clock, process: process@, event: event@ },
            ));
            assert(self@.ready =~= old(self)@.ready);
        }
    }

    /// Puts `name` last in the ready queue.
    fn make_ready(&mut self, name: String)
        ensures
            final(self)@ == (KernelView { ready: old(self)@.ready.push(name@), ..old(self)@ }),
    {
        self.ready_queue.push(name);
        proof {
            assert(self@.ready =~= old(self)@.ready.push(name@));
        }
    }

    /// Creates a resource with `capacity` free units.
    ///
    /// Fails, changing nothing, when the name is empty or already taken.
    pub fn create_resource(&mut self, name: &str, capacity: usize) -> (r: Result<(), SimError>)
        requires
            old(self).wf(),
        ensures
            final(self).wf(),
            r is Ok <==> name@.len() > 0 && !listed(names_of(old(self)@.resources), name@),
            r is Ok ==> final(self)@ == (KernelView {
                resources: old(self)@.resources.push(ResourceView::fresh(name@, capacity as nat)),
                ..old(self)@
            }),
            r matches Err(e) ==> final(self)@ == old(self)@ && e is ResourceError,
    {
        if name.is_empty() {
            return Err(SimError::ResourceError(String::from_str("a resource needs a name")));
        }
        self.resources.create(name, capacity)
    }

    /// Registers a process called `name` whose body is the function
    /// `function` of `script`, keeps the script for later spawns of that
    /// function, and puts the process last in the ready queue.
    ///
    /// A name that is taken is refused with a `ProcessError`. Otherwise
    /// the outcome is up to the script; a failure changes nothing.
    pub fn load_process(&mut self, name: &str, script: &str, function: &str) -> (r: Result<
        (),
        SimError,
    >)
        requires
            old(self).wf(),
        ensures
            final(self).wf(),
            listed(process_names(old(self)@.processes), name@) ==> (r matches Err(e)
                && e is ProcessError),
            match r {
                Ok(_) => final(self)@ == old(self)@.with_loaded(name@, script@, function@),
                Err(e) => final(self)@ == old(self)@ && (e is ProcessError || e is LuaError),
            },
    {
        match self.lua_engine.create_process(name.to_owned(), script, function) {
            Ok(_) => {
                self.make_ready(name.to_owned());
                Ok(())
            },
            Err(e) => Err(e),
        }
    }

    /// Schedules a kernel event at `time` and returns its id. When the
    /// event fires, that is noted in the record.
    ///
    /// Fails, changing nothing, when `time` lies in the past or the ids
    /// have run out.
    pub fn schedule_event(&mut self, time: SimTime, priority: Priority) -> (r: Result<
        u64,
        SimError,
    >)
        requires
            old(self).wf(),
        ensures
            final(self).wf(),
            r is Ok <==> old(self)@.clock <= time@ && old(self)@.next_event_id < u64::MAX,
            match r {
                Ok(id) => id == old(self)@.next_event_id && final(self)@ == (KernelView {
                    events: old(self)@.events.insert(
                        slot_for(old(self)@.events, scheduled(time, priority, id)),
                        scheduled(time, priority, id),
                    ),
                    next_event_id: id as nat + 1,
                    ..old(self)@
                }),
                Err(e) => final(self)@ == old(self)@ && e is SimulationError,
            },
    {
        self.simulation.schedule_at(time, priority)
    }

    /// Wakes every sleeper whose time has come; see
    /// `KernelView::after_wakeups`.
    pub fn check_waiting_for_time(&mut self)
        requires
            old(self).wf(),
        ensures
            final(self).wf(),
            final(self)@ == old(self)@.after_wakeups(),
    {
        let now = self.simulation.now();
        let ghost start = self@;
        let ghost all = due(start.sleepers, start.clock);
        let woken = self.waiting_for_time.take_due(now);
        let ghost names = sleeper_names(all);
        proof {
            lemma_due_split(start.sleepers, start.clock);
            assert(names.take(0) =~= Seq::<Seq<char>>::empty());
            assert(start.ready + names.take(0) =~= start.ready);
            assert(start.trace + wake_lines(start.clock, names.take(0)) =~= start.trace);
            assert(self@.ready =~= start.ready);
        }
        let ghost given = woken@;
        for name in it: woken
            invariant
                it.seq() == given,
                given.len() == names.len(),
                forall|j: int| 0 <= j < given.len() ==> (#[trigger] given[j])@ == names[j],
                self.wf(),
                self@ == (KernelView {
                    sleepers: not_due(start.sleepers, start.clock),
                    ready: start.ready + names.take(it.index() as int),
                    processes: resumed(start.processes, names.take(it.index() as int)),
                    trace: start.trace + wake_lines(start.clock, names.take(it.index() as int)),
                    ..start
                }),
        {
            let ghost k = it.index() as int;
            let ghost before = self@;
            proof {
                assert(names.take(k + 1).drop_last() =~= names.take(k));
                assert(names.take(k + 1).last() == names[k]);
                assert(name@ == names[k]);
            }
            let _ = self.lua_engine.send_command(name.as_str(), LuaCommand::Resume);
            self.record(name.clone(), TraceEvent::Command(LuaCommand::Resume));
            self.make_ready(name);
            proof {
                assert(self@.ready =~= start.ready + names.take(k + 1));
                assert(self@.trace =~= start.trace + wake_lines(start.clock, names.take(k + 1)));
            }
        }
        proof {
            assert(names.take(names.len() as int) =~= names);
        }
    }

    /// Resumes every process that is named in the ready queue and in
    /// state `Ready`, in queue order, and leaves the queue empty. A
    /// process is resumed once however often it is named. The messages
    /// that the processes send pile up in the outbox in the order in
    /// which they were sent.
    ///
    /// What the processes do is up to their scripts. Whatever they do,
    /// the clock, the events, the resources, the sleepers and the record
    /// stay as they are and no process appears or disappears. A process
    /// that was both named in the queue and ready is running or finished
    /// afterwards; every other process is left alone. The messages that
    /// were in the outbox stay first, and every message behind them was
    /// sent by a process named in the queue.
    ///
    /// Every process that is resumed is heard. The new messages fall
    /// into turns, one for each name of the queue in order. The turn of
    /// a process that was resumed holds at least one message; all but
    /// the last let the process go on; and the process is running
    /// exactly if the last suspends it, finished exactly if the last
    /// says that its body has ended or is the log line of its failure.
    /// The turn of any other name is empty.
    pub fn run_ready_processes(&mut self)
        requires
            old(self).wf(),
        ensures
            final(self).wf(),
            final(self)@ == (KernelView {
                processes: final(self)@.processes,
                outbox: final(self)@.outbox,
                ready: Seq::empty(),
                ..old(self)@
            }),
            process_names(final(self)@.processes) == process_names(old(self)@.processes),
            resumed_from(old(self)@.processes, final(self)@.processes, old(self)@.ready),
            sent_from(old(self)@.outbox, final(self)@.outbox, old(self)@.ready),
            heard_in_turn(
                old(self)@.processes,
                final(self)@.processes,
                final(self)@.outbox.skip(old(self)@.outbox.len() as int),
                old(self)@.ready,
            ),
    {
        let mut names: Vec<String> = Vec::new();
        std::mem::swap(&mut self.ready_queue, &mut names);
        let ghost start = old(self)@;
        proof {
            assert(self@.ready =~= Seq::<Seq<char>>::empty());
            assert(self@.outbox.take(start.outbox.len() as int) =~= start.outbox);
            assert(self@.outbox.skip(start.outbox.len() as int).len() == 0);
        }
        let ghost given = names@;
        let ghost mut cuts: Seq<int> = seq![0int];
        proof {
            assert(takes_turns(
                self@.outbox.skip(start.outbox.len() as int),
                start.ready.take(0),
                cuts,
            ));
            assert(resumed_from(start.processes, self@.processes, start.ready.take(0)));
        }
        for name in it: names
            invariant
                it.seq() == given,
                start == old(self)@,
                self.wf(),
                self@ == (KernelView {
                    processes: self@.processes,
                    outbox: self@.outbox,
                    ready: Seq::empty(),
                    ..start
                }),
                process_names(self@.processes) == process_names(start.processes),
                given.len() == start.ready.len(),
                forall|j: int| 0 <= j < given.len() ==> (#[trigger] given[j])@ == start.ready[j],
                resumed_from(start.processes, self@.processes, start.ready.take(it.index() as int)),
                sent_from(start.outbox, self@.outbox, start.ready.take(it.index() as int)),
                takes_turns(
                    self@.outbox.skip(start.outbox.len() as int),
                    start.ready.take(it.index() as int),
                    cuts,
                ),
                turns_right(
                    start.processes,
                    self@.processes,
                    self@.outbox.skip(start.outbox.len() as int),
                    start.ready.take(it.index() as int),
                    cuts,
                ),
        {
            let ghost before = self@.outbox;
            let ghost table = self@.processes;
            let ghost k = it.index() as int;
            let due = match self.lua_engine.process_state(name.as_str()) {
                Some(ProcessState::Ready) => true,
                _ => false,
            };
            if due {
                let _ = self.lua_engine.start_process(name.as_str());
            }
            proof {
                let sofar = start.ready.take(k);
                let now = start.ready.take(k + 1);
                assert(now[k] == name@);
                assert forall|who: Seq<char>| sofar.contains(who) implies now.contains(who) by {
                    let at = choose|at: int| 0 <= at < sofar.len() && sofar[at] == who;
                    assert(now[at] == who);
                }
                assert forall|who: Seq<char>| now.contains(who) implies sofar.contains(who) || who
                    == name@ by {
                    let at = choose|at: int| 0 <= at < now.len() && now[at] == who;
                    if at < k {
                        assert(sofar[at] == who);
                    }
                }
                assert(self@.outbox.take(start.outbox.len() as int) =~= before.take(
                    start.outbox.len() as int,
                ));
                assert forall|i: int| start.outbox.len() <= i < self@.outbox.len() implies now.contains(
                    (#[trigger] self@.outbox[i]).0@,
                ) by {
                    if i < before.len() {
                        assert(self@.outbox[i] == self@.outbox.take(before.len() as int)[i]);
                        assert(sofar.contains(before[i].0@));
                    } else {
                        assert(self@.outbox[i] == self@.outbox.skip(before.len() as int)[i
                            - before.len()]);
                    }
                }
                let n0 = start.outbox.len() as int;
                let heard = before.skip(n0);
                let hears = self@.outbox.skip(n0);
                let turns = cuts;
                cuts = turns.push(hears.len() as int);
                assert(now.last() == name@);
                assert(all_from(self@.outbox.skip(before.len() as int), name@)) by {
                    if !due {
                        assert(self@.outbox.skip(before.len() as int).len() == 0);
                    }
                }
                assert(turns[k] == heard.len());
                assert forall|a: int, b: int| 0 <= a <= b <= now.len() implies #[trigger] cuts[a]
                    <= #[trigger] cuts[b] by {
                    if b <= k {
                        assert(turns[a] <= turns[b]);
                    } else if a <= k {
                        assert(turns[a] <= turns[k]);
                    }
                }
                assert forall|c: int, i: int|
                    0 <= c < now.len() && cuts[c] <= i < cuts[c + 1] implies (
                #[trigger] hears[i]).0@ == #[trigger] now[c] by {
                    if c < k {
                        assert(turns[c + 1] <= turns[k]);
                        assert(0 <= turns[0] <= turns[c]);
                        assert(hears[i] == heard[i]);
                        assert(heard[i].0@ == sofar[c]);
                    } else {
                        assert(hears[i] == self@.outbox.skip(before.len() as int)[i - heard.len()]);
                    }
                }
                assert(takes_turns(hears, now, cuts));
                lemma_position(process_names(table), name@);
                let pos = position(process_names(table), name@);
                assert(due <==> pos < table.len() && table[pos].state is Ready);
                assert(sofar.contains(name@) <==> !first_mention(now, k)) by {
                    if sofar.contains(name@) {
                        let m = choose|m: int| 0 <= m < sofar.len() && sofar[m] == name@;
                        assert(now[m] == now[k]);
                    }
                    if !first_mention(now, k) {
                        let m = choose|m: int| 0 <= m < k && now[m] == now[k];
                        assert(sofar[m] == name@);
                    }
                }
                assert(due <==> has_turn(start.processes, now, k)) by {
                    if pos < table.len() {
                        assert(process_names(table)[pos] == name@);
                        assert(start.processes[pos].name == name@);
                    }
                }
                assert forall|c: int| 0 <= c < now.len() implies {
                    let turn = #[trigger] turn_of(hears, cuts, c);
                    if has_turn(start.processes, now, c) {
                        one_turn(
                            turn,
                            self@.processes[position(process_names(start.processes), now[c])].state,
                        )
                    } else {
                        turn.len() == 0
                    }
                } by {
                    if c < k {
                        assert(turns[c] <= turns[c + 1] <= turns[k]);
                        assert(0 <= turns[0] <= turns[c]);
                        assert(turn_of(hears, cuts, c) =~= turn_of(heard, turns, c));
                        assert(now[c] == sofar[c]);
                        assert(first_mention(now, c) <==> first_mention(sofar, c)) by {
                            assert forall|m: int| 0 <= m < c implies (now[m] != now[c]) == (sofar[m]
                                != sofar[c]) by {}
                        }
                        assert(has_turn(start.processes, now, c) == has_turn(
                            start.processes,
                            sofar,
                            c,
                        ));
                        if has_turn(start.processes, sofar, c) {
                            let q = position(process_names(start.processes), sofar[c]);
                            lemma_position(process_names(start.processes), sofar[c]);
                            assert(process_names(table)[q] == sofar[c]);
                            if due && q == pos {
                                assert(now[c] == now[k]);
                            }
                            assert(self@.processes[q] == table[q]);
                        }
                    } else {
                        assert(turn_of(hears, cuts, c) =~= bare(
                            self@.outbox.skip(before.len() as int),
                        ));
                    }
                }
                assert forall|j: int| 0 <= j < start.processes.len() implies {
                    let was = #[trigger] start.processes[j];
                    let is = self@.processes[j];
                    if was.state is Ready && now.contains(was.name) {
                        &&& is.state is Running || is.state is Finished
                        &&& is == (ProcessView { state: is.state, ..was })
                    } else {
                        is == was
                    }
                } by {
                    let was = start.processes[j];
                    assert(process_names(table)[j] == was.name);
                    assert(process_names(self@.processes)[j] == was.name);
                    if was.name == name@ {
                        assert(j == position(process_names(table), name@));
                    }
                }
            }
        }
        proof {
            assert(start.ready.take(start.ready.len() as int) =~= start.ready);
            assert(takes_turns(self@.outbox.skip(start.outbox.len() as int), start.ready, cuts));
            assert(turns_right(
                start.processes,
                self@.processes,
                self@.outbox.skip(start.outbox.len() as int),
                start.ready,
                cuts,
            ));
        }
    }

    /// Dispatches a request to sleep; see `KernelView::after_wait`.
    fn dispatch_wait(&mut self, sender: &str, millis: u64)
        requires
            old(self).wf(),
        ensures
            final(self).wf(),
            final(self)@ == old(self)@.after_wait(sender@, millis as nat),
    {
        let now = self.simulation.now();
        let wake = now.saturating_add(SimTime::from_millis(millis));
        let ghost before = self@.sleepers;
        self.lua_engine.set_process_waiting(sender, wake);
        self.waiting_for_time.put(sender, wake);
        proof {
            lemma_position(sleeper_names(before), sender@);
            assert forall|i: int| 0 <= i < self@.sleepers.len() implies self@.clock <= (
            #[trigger] self@.sleepers[i]).wake_time by {
                if i < before.len() && i != position(sleeper_names(before), sender@) {
                    assert(self@.sleepers[i] == before[i]);
                }
            }
            assert(self@.ready =~= old(self)@.ready);
        }
    }

    /// Dispatches a request for a resource; see
    /// `KernelView::after_request`.
    fn dispatch_request(&mut self, sender: &str, resource: String)
        requires
            old(self).wf(),
        ensures
            final(self).wf(),
            final(self)@ == old(self)@.after_request(sender@, resource@),
    {
        let now = self.simulation.now();
        proof {
            lemma_position(names_of(self@.resources), resource@);
        }
        match self.resources.request(resource.as_str(), sender, now) {
            Ok(RequestOutcome::Granted) => {
                self.lua_engine.set_process_active(sender);
                self.make_ready(sender.to_owned());
                self.record(
                    sender.to_owned(),
                    TraceEvent::Command(LuaCommand::ResourceGranted(resource)),
                );
            },
            Ok(RequestOutcome::Queued) => {
                self.lua_engine.set_process_waiting_for_resource(sender, resource);
                proof {
                    assert(self@.ready =~= old(self)@.ready);
                }
            },
            Err(_) => {
                let _ = self.lua_engine.send_command(
                    sender,
                    LuaCommand::Error(String::from_str(NO_SUCH_RESOURCE)),
                );
                self.record(
                    sender.to_owned(),
                    TraceEvent::Command(LuaCommand::Error(String::from_str(NO_SUCH_RESOURCE))),
                );
            },
        }
    }

    /// Dispatches the return of a unit; see `KernelView::after_release`.
    fn dispatch_release(&mut self, sender: &str, resource: String)
        requires
            old(self).wf(),
        ensures
            final(self).wf(),
            final(self)@ == old(self)@.after_release(sender@, resource@),
    {
        let now = self.simulation.now();
        proof {
            lemma_position(names_of(self@.resources), resource@);
        }
        match self.resources.release(resource.as_str(), now) {
            Ok(Released::HandedTo(target)) => {
                let _ = self.lua_engine.send_command(
                    target.as_str(),
                    LuaCommand::ResourceGranted(resource.clone()),
                );
                self.make_ready(target.clone());
                self.record(target, TraceEvent::Command(LuaCommand::ResourceGranted(resource)));
            },
            Ok(Released::Freed) => {
                proof {
                    assert(self@.ready =~= old(self)@.ready);
                }
            },
            Ok(Released::NotHeld) => {
                self.record(
                    sender.to_owned(),
                    TraceEvent::Rejected(String::from_str(NOTHING_TO_RELEASE)),
                );
            },
            Err(_) => {
                self.record(
                    sender.to_owned(),
                    TraceEvent::Rejected(String::from_str(NO_SUCH_RESOURCE)),
                );
            },
        }
    }

    /// Dispatches a spawn: the child comes to life and joins the ready
    /// queue, or the spawn is noted as rejected.
    fn dispatch_spawn(&mut self, sender: &str, name: String, entry: String) -> (fate: Ghost<
        Option<Seq<char>>,
    >)
        requires
            old(self).wf(),
        ensures
            final(self).wf(),
            match fate@ {
                None => {
                    &&& final(self)@ == old(self)@.with_child(name@, entry@)
                    &&& !listed(process_names(old(self)@.processes), name@)
                    &&& listed(old(self)@.functions, entry@)
                },
                Some(reason) => final(self)@ == old(self)@.noting(
                    rejected(old(self)@.clock, sender@, reason),
                ),
            },
    {
        match self.lua_engine.spawn_process(name.clone(), entry.as_str()) {
            Ok(_) => {
                self.make_ready(name);
                Ghost(None)
            },
            Err(e) => {
                let reason = e.message().clone();
                self.record(sender.to_owned(), TraceEvent::Rejected(reason));
                Ghost(Some(reason@))
            },
        }
    }

    /// Dispatches one message and says what became of it if it was a
    /// spawn; see `dispatch`.
    fn deliver(&mut self, sender: &str, message: ProcessMessage) -> (fate: Ghost<
        Option<Seq<char>>,
    >)
        requires
            old(self).wf(),
        ensures
            final(self).wf(),
            final(self)@ == if listed(process_names(old(self)@.processes), sender@) {
                old(self)@.after_delivery(sender@, message@, fate@)
            } else {
                old(self)@
            },
            listed(process_names(old(self)@.processes), sender@) && fate@ is None
                ==> born_rightly(old(self)@, message@),
    {
        if !self.lua_engine.contains(sender) {
            return Ghost(None);
        }
        self.record(sender.to_owned(), TraceEvent::Message(message.duplicate()));
        match message {
            ProcessMessage::Wait(millis) => {
                self.dispatch_wait(sender, millis);
                Ghost(None)
            },
            ProcessMessage::Request(resource) => {
                self.dispatch_request(sender, resource);
                Ghost(None)
            },
            ProcessMessage::Release(resource) => {
                self.dispatch_release(sender, resource);
                Ghost(None)
            },
            ProcessMessage::Spawn(name, entry) => self.dispatch_spawn(sender, name, entry),
            ProcessMessage::Finished => Ghost(None),
            ProcessMessage::Log(_, _) => Ghost(None),
        }
    }

    /// Dispatches one message from the process called `sender`.
    ///
    /// A message from a process that is no longer registered is dropped
    /// without a trace. Every other message is noted in the record and
    /// acted on as `KernelView::after_message` says. A spawn, in
    /// addition, meets its fate: the child comes to life, or the spawn is
    /// noted as rejected, as `KernelView::after_delivery` says. It is
    /// rejected in any case when the child's name is taken or its entry
    /// function was never loaded; whether it is rejected otherwise is up
    /// to the child's script.
    pub fn dispatch(&mut self, sender: &str, message: ProcessMessage)
        requires
            old(self).wf(),
        ensures
            final(self).wf(),
            !listed(process_names(old(self)@.processes), sender@) ==> final(self)@ == old(self)@,
            listed(process_names(old(self)@.processes), sender@) ==> {
                &&& !(message@ is Spawn) ==> final(self)@ == old(self)@.after_message(
                    sender@,
                    message@,
                )
                &&& exists|fate: Option<Seq<char>>|
                    {
                        &&& final(self)@ == #[trigger] old(self)@.after_delivery(
                            sender@,
                            message@,
                            fate,
                        )
                        &&& fate is None ==> born_rightly(old(self)@, message@)
                    }
            },
    {
        let fate = self.deliver(sender, message);
        proof {
            if listed(process_names(old(self)@.processes), sender@) {
                assert(self@ == old(self)@.after_delivery(sender@, message@, fate@));
            }
        }
    }

    /// Dispatches every message in the outbox, oldest first, leaves the
    /// outbox empty, and says what became of the spawns; see
    /// `process_lua_messages`.
    fn deliver_all(&mut self) -> (fates: Ghost<Seq<Option<Seq<char>>>>)
        requires
            old(self).wf(),
        ensures
            final(self).wf(),
            fates@.len() == old(self)@.outbox.len(),
            final(self)@ == dispatched(old(self)@.collected(), old(self)@.outbox, fates@),
            rightly_fated(old(self)@.collected(), old(self)@.outbox, fates@),
    {
        let ghost first = old(self)@;
        let ghost start = first.collected();
        let messages = self.lua_engine.process_messages();
        let ghost given = messages@;
        let ghost mut fates: Seq<Option<Seq<char>>> = Seq::empty();
        proof {
            assert(self@.ready =~= first.ready);
            assert(self@ == start);
            assert(given.take(0) =~= Seq::<(String, ProcessMessage)>::empty());
        }
        for envelope in it: messages
            invariant
                it.seq() == given,
                given == first.outbox,
                self.wf(),
                fates.len() == it.index(),
                self@ == dispatched(start, given.take(it.index() as int), fates),
                rightly_fated(start, given.take(it.index() as int), fates),
        {
            let ghost k = it.index() as int;
            let ghost before = self@;
            let ghost sofar = fates;
            let (sender, message) = envelope;
            let fate = self.deliver(sender.as_str(), message);
            proof {
                fates = sofar.push(fate@);
                assert(given.take(k + 1).drop_last() =~= given.take(k));
                assert(given.take(k + 1).last() == given[k]);
                lemma_later_fates_do_not_matter(start, given.take(k), sofar, fates);
                assert(before == dispatched(start, given.take(k), fates));
            }
        }
        proof {
            assert(given.take(given.len() as int) =~= given);
        }
        Ghost(fates)
    }

    /// Dispatches every message in the outbox, oldest first, and leaves
    /// the outbox empty.
    ///
    /// The outcome is `dispatched`, for some fates of the spawns among
    /// the messages. A spawn brings a child to life only if the child's
    /// name is free and its entry function was loaded when the spawn's
    /// turn comes; see `rightly_fated`. When no message is a spawn, the
    /// fates are immaterial.
    pub fn process_lua_messages(&mut self)
        requires
            old(self).wf(),
        ensures
            final(self).wf(),
            exists|fates: Seq<Option<Seq<char>>>|
                {
                    &&& fates.len() == old(self)@.outbox.len()
                    &&& final(self)@ == #[trigger] dispatched(
                        old(self)@.collected(),
                        old(self)@.outbox,
                        fates,
                    )
                    &&& rightly_fated(old(self)@.collected(), old(self)@.outbox, fates)
                },
            without_spawn(old(self)@.outbox) ==> final(self)@ == dispatched(
                old(self)@.collected(),
                old(self)@.outbox,
                Seq::empty(),
            ),
    {
        let fates = self.deliver_all();
        proof {
            let start = old(self)@.collected();
            assert(self@ == dispatched(start, old(self)@.outbox, fates@));
            if without_spawn(old(self)@.outbox) {
                lemma_fates_are_for_spawns(start, old(self)@.outbox, fates@, Seq::empty());
            }
        }
    }

    /// Moves time on towards `horizon` and says whether the run is over;
    /// see `KernelView::after_advance` and `KernelView::advance_outcome`.
    pub fn advance_time(&mut self, horizon: SimTime) -> (r: Option<RunOutcome>)
        requires
            old(self).wf(),
        ensures
            final(self).wf(),
            final(self)@ == old(self)@.after_advance(horizon@),
            r == old(self)@.advance_outcome(horizon@),
            old(self)@.clock <= final(self)@.clock,
            final(self)@.clock <= old(self)@.clock || final(self)@.clock <= horizon@,
    {
        let ghost start = self@;
        let wake = self.waiting_for_time.next_wake();
        let event = self.simulation.next_event_time();
        let next: Option<SimTime> = match (wake, event) {
            (Some(a), Some(b)) => if a.as_millis() <= b.as_millis() {
                Some(a)
            } else {
                Some(b)
            },
            (Some(a), None) => Some(a),
            (None, b) => b,
        };
        proof {
            lemma_earliest(start.sleepers);
            assert(match next {
                Some(t) => start.next_happening() == Some(t@),
                None => start.next_happening() is None,
            });
        }
        match next {
            Some(t) => {
                if t.as_millis() <= horizon.as_millis() {
                    let moved = self.simulation.set_time(t);
                    assert(moved is Ok);
                    proof {
                        assert(self@ == (KernelView { clock: t@, ..start }));
                        assert(self@.ready =~= start.ready);
                    }
                    self.check_waiting_for_time();
                    let ghost woken = self@;
                    let due = self.simulation.take_due();
                    let ghost n = due_count(t@, start.events) as int;
                    let ghost given = due@;
                    proof {
                        assert(self@.ready =~= woken.ready);
                        assert(given.take(0) =~= Seq::<Event>::empty());
                        assert(woken.trace + fired_lines(given.take(0)) =~= woken.trace);
                    }
                    for e in it: due
                        invariant
                            it.seq() == given,
                            given == start.events.take(n),
                            forall|i: int| 0 <= i < given.len() ==> (#[trigger] given[i]).time@ == t@,
                            self.wf(),
                                        self@ == (KernelView {
                                events: start.events.skip(n),
                                trace: woken.trace + fired_lines(given.take(it.index() as int)),
                                ..woken
                            }),
                            woken.clock == t@,
                    {
                        let ghost k = it.index() as int;
                        let nobody = String::new();
                        self.record(nobody, TraceEvent::Fired(e));
                        proof {
                            assert(e == given[k]);
                            assert(nobody@ =~= Seq::<char>::empty());
                            assert(self@.trace =~= woken.trace + fired_lines(given.take(k + 1)));
                        }
                    }
                    proof {
                        assert(given.take(given.len() as int) =~= given);
                    }
                    None
                } else {
                    self.jump_to(horizon);
                    Some(RunOutcome::Horizon)
                }
            },
            None => {
                if self.lua_engine.any_waiting_for_resource() {
                    self.jump_to(horizon);
                    Some(RunOutcome::Deadlock)
                } else {
                    Some(RunOutcome::Completed)
                }
            },
        }
    }

    /// Sets the clock to `horizon`, unless it is past it already, when
    /// nothing is due before.
    fn jump_to(&mut self, horizon: SimTime)
        requires
            old(self).wf(),
            old(self)@.next_happening() matches Some(t) ==> horizon@ < t,
        ensures
            final(self).wf(),
            final(self)@ == old(self)@.at_horizon(horizon@),
    {
        let ghost start = self@;
        proof {
            lemma_earliest(start.sleepers);
        }
        if self.simulation.now().as_millis() < horizon.as_millis() {
            let moved = self.simulation.set_time(horizon);
            assert(moved is Ok);
            proof {
                assert(self@.ready =~= start.ready);
            }
        }
    }

    /// One round of the scheduler, with what the scripts contributed to
    /// it; see `tick`.
    fn round(&mut self, horizon: SimTime) -> (r: (Option<RunOutcome>, Ghost<Round>))
        requires
            old(self).wf(),
        ensures
            final(self).wf(),
            old(self)@.admits(r.1@),
            final(self)@ == old(self)@.after(r.1@, horizon@),
            r.0 == old(self)@.verdict(r.1@, horizon@),
            final(self)@.step_limit == old(self)@.step_limit,
            old(self)@.clock <= final(self)@.clock,
            final(self)@.clock <= old(self)@.clock || final(self)@.clock <= horizon@,
            final(self)@.outbox == Seq::<(String, ProcessMessage)>::empty(),
            final(self)@.next_event_id == old(self)@.next_event_id,
            final(self)@.functions == old(self)@.functions,
            r.0 matches Some(outcome) ==> ended(final(self)@, outcome, horizon@),
            r.0 != Some(RunOutcome::StepLimit),
    {
        let now = self.simulation.now();
        self.lua_engine.update_time(now);
        let ghost shown = self@.processes;
        let ghost start = old(self)@.mirroring(shown);
        proof {
            assert(self@.ready =~= old(self)@.ready);
            assert(self@ == start);
        }
        self.check_waiting_for_time();
        self.run_ready_processes();
        let ghost resumed = self@.processes;
        let ghost sent = self@.outbox;
        let ghost drained = self@;
        let fates = self.deliver_all();
        let ghost handled = self@;
        self.lua_engine.cleanup_finished();
        let ghost round = Round { shown, resumed, sent, fates: fates@ };
        proof {
            assert(self@.ready =~= handled.ready);
            assert(start.resumes_to(resumed, sent));
            assert(drained.collected() == start.drained(resumed));
            assert(self@ == start.before_advance(resumed, sent, fates@));
            lemma_dispatch_keeps_the_rest(drained.collected(), sent, fates@);
            assert(old(self)@.admits(round));
        }
        let r = if self.ready_queue.len() == 0 {
            let ghost before = self@;
            let r = self.advance_time(horizon);
            proof {
                lemma_earliest(before.sleepers);
                assert(before.ready.len() == 0);
                match r {
                    Some(RunOutcome::Completed) => {
                        assert(self@ == before);
                    },
                    Some(RunOutcome::Deadlock) => {
                        assert(self@ == before.at_horizon(horizon@));
                    },
                    _ => {},
                }
            }
            r
        } else if self.simulation.now().as_millis() >= horizon.as_millis() {
            Some(RunOutcome::Horizon)
        } else {
            None
        };
        (r, Ghost(round))
    }

    /// One round of the scheduler.
    ///
    /// The clock is written into every script's mirror; sleepers whose time has
    /// come are woken; every ready process is resumed once; the messages
    /// they sent are dispatched; finished processes leave the registry.
    /// Then, with nobody ready, time moves on towards `horizon`; with
    /// somebody ready, the round ends and the run is over if the clock
    /// has reached the horizon.
    ///
    /// Returns how the run ended, or `None` when it goes on. What the
    /// interpreter and the scripts contribute is up to them, within what
    /// `KernelView::admits` says; given that, the round is exactly
    /// `KernelView::after` and its result `KernelView::verdict`.
    pub fn tick(&mut self, horizon: SimTime) -> (r: Option<RunOutcome>)
        requires
            old(self).wf(),
        ensures
            final(self).wf(),
            old(self)@.clock <= final(self)@.clock,
            final(self)@.clock <= old(self)@.clock || final(self)@.clock <= horizon@,
            r matches Some(outcome) ==> ended(final(self)@, outcome, horizon@),
            r != Some(RunOutcome::StepLimit),
            exists|round: Round|
                {
                    &&& old(self)@.admits(round)
                    &&& final(self)@ == #[trigger] old(self)@.after(round, horizon@)
                    &&& r == old(self)@.verdict(round, horizon@)
                },
    {
        let (r, round) = self.round(horizon);
        proof {
            assert(self@ == old(self)@.after(round@, horizon@));
        }
        r
    }

    /// Runs the simulation for `duration` of virtual time from now, or
    /// until nothing is left to do.
    ///
    /// The horizon is the current time plus `duration`, or the largest
    /// instant if the sum lies beyond it. The scheduler goes round until
    /// a round ends the run, at most as often as the step limit allows:
    /// the run is nothing but these rounds, one after the other, whatever
    /// the scripts contribute to them. The clock never runs backwards and
    /// never passes the horizon. The kernel's own invariants cannot be
    /// broken by any script, so the run never fails.
    pub fn run(&mut self, duration: Duration) -> (r: Result<RunOutcome, SimError>)
        requires
            old(self).wf(),
        ensures
            final(self).wf(),
            old(self)@.clock <= final(self)@.clock <= clamped_sum(old(self)@.clock, duration@),
            match r {
                Ok(outcome) => {
                    let horizon = clamped_sum(old(self)@.clock, duration@);
                    &&& ended(final(self)@, outcome, horizon)
                    &&& exists|rounds: Seq<Round>|
                        {
                            &&& final(self)@ == #[trigger] old(self)@.after_rounds(rounds, horizon)
                            &&& old(self)@.runs_to(rounds, horizon, outcome)
                        }
                },
                Err(_) => false,
            },
    {
        let horizon = self.simulation.now().saturating_add(SimTime::from_millis(duration.as_millis()));
        let limit: u64 = self.step_limit;
        let mut done: u64 = 0;
        let ghost mut rounds: Seq<Round> = Seq::empty();
        while done < limit
            invariant
                self.wf(),
                limit == old(self)@.step_limit,
                self@.step_limit == old(self)@.step_limit,
                horizon@ == clamped_sum(old(self)@.clock, duration@),
                old(self)@.clock <= self@.clock <= horizon@,
                done <= limit,
                rounds.len() == done,
                self@ == old(self)@.after_rounds(rounds, horizon@),
                old(self)@.went_on(rounds, horizon@),
                old(self)@.admits_all(rounds, horizon@),
            decreases limit - done,
        {
            let ghost sofar = rounds;
            let (r, round) = self.round(horizon);
            done = done + 1;
            proof {
                rounds = sofar.push(round@);
                assert(rounds.drop_last() =~= sofar);
                assert(rounds.last() == round@);
            }
            if let Some(outcome) = r {
                proof {
                    assert(self@ == old(self)@.after_rounds(rounds, horizon@));
                    assert(old(self)@.runs_to(rounds, horizon@, outcome));
                }
                return Ok(outcome);
            }
        }
        proof {
            assert(self@ == old(self)@.after_rounds(rounds, horizon@));
            assert(old(self)@.runs_to(rounds, horizon@, RunOutcome::StepLimit));
        }
        Ok(RunOutcome::StepLimit)
    }

    /// The state of the process called `name`, if it is registered.
    pub fn process_state(&self, name: &str) -> (r: Option<&ProcessState>)
        ensures
            match r {
                Some(state) => {
                    &&& listed(process_names(self@.processes), name@)
                    &&& state@ == self@.processes[position(
                        process_names(self@.processes),
                        name@,
                    )].state
                },
                None => !listed(process_names(self@.processes), name@),
            },
    {
        self.lua_engine.process_state(name)
    }

    /// The figures of the simulation as it stands.
    pub fn get_stats(&self) -> (stats: SimStats)
        requires
            self.wf(),
        ensures
            stats.time@ == self@.clock,
            stats.active_processes == self@.processes.len(),
            stats.resources.len() == self@.resources.len(),
            forall|i: int|
                0 <= i < stats.resources.len() ==> (#[trigger] stats.resources[i]).describes(
                    self@.resources[i],
                ),
    {
        SimStats {
            time: self.simulation.now(),
            active_processes: self.lua_engine.len(),
            resources: self.resources.get_stats(),
        }
    }
}

impl Default for Simulator {
    fn default() -> (sim: Simulator)
        ensures
            sim.wf(),
            sim@ == KernelView::initial(0),
    {
        Simulator::new()
    }
}

/// The figures of a simulation at a moment of the run.
#[derive(Debug, Clone, PartialEq, Eq)]
pub struct SimStats {
    /// The virtual time.
    pub time: SimTime,
    /// How many processes are registered.
    pub active_processes: usize,
    /// The figures of every resource, in the order of creation.
    pub resources: Vec<ResourceStats>,
}

/// What holds of the simulator `k` when a run towards `horizon` has ended
/// with `outcome`.
pub open spec fn ended(k: KernelView, outcome: RunOutcome, horizon: nat) -> bool {
    match outcome {
        RunOutcome::Completed => {
            &&& k.ready.len() == 0
            &&& k.sleepers.len() == 0
            &&& k.events.len() == 0
            &&& !k.someone_waits()
        },
        RunOutcome::Deadlock => {
            &&& k.ready.len() == 0
            &&& k.sleepers.len() == 0
            &&& k.events.len() == 0
            &&& k.someone_waits()
            &&& horizon <= k.clock
        },
        RunOutcome::Horizon => horizon <= k.clock,
        RunOutcome::StepLimit => true,
    }
}

/// Whether the table `after` is what resuming the processes named in
/// `ready` can make of the table `before`. A process is as it was unless
/// it was in state `Ready` and named in `ready`; then it is running or
/// finished, and but for its state it is as it was.
pub open spec fn resumed_from(
    before: Seq<ProcessView>,
    after: Seq<ProcessView>,
    ready: Seq<Seq<char>>,
) -> bool {
    &&& after.len() == before.len()
    &&& forall|j: int|
        0 <= j < before.len() ==> {
            let was = #[trigger] before[j];
            let is = after[j];
            if was.state is Ready && ready.contains(was.name) {
                &&& is.state is Running || is.state is Finished
                &&& is == (ProcessView { state: is.state, ..was })
            } else {
                is == was
            }
        }
}

/// Whether the messages `sent` were sent by the processes named in
/// `ready`, each in its turn, with the turns cut at `cuts`: the messages
/// from place `cuts[k]` up to place `cuts[k + 1]` were sent by `ready[k]`.
pub open spec fn takes_turns(
    sent: Seq<(String, ProcessMessage)>,
    ready: Seq<Seq<char>>,
    cuts: Seq<int>,
) -> bool {
    &&& cuts.len() == ready.len() + 1
    &&& cuts[0] == 0
    &&& cuts[ready.len() as int] == sent.len()
    &&& forall|a: int, b: int| 0 <= a <= b <= ready.len() ==> #[trigger] cuts[a] <= #[trigger] cuts[b]
    &&& forall|k: int, i: int|
        0 <= k < ready.len() && cuts[k] <= i < cuts[k + 1] ==> (#[trigger] sent[i]).0@
            == #[trigger] ready[k]
}

/// Whether `ready[k]` is named in `ready` for the first time at place
/// `k`.
pub open spec fn first_mention(ready: Seq<Seq<char>>, k: int) -> bool {
    forall|m: int| 0 <= m < k ==> #[trigger] ready[m] != ready[k]
}

/// Whether the name at place `k` of `ready` gets a turn there: it is
/// named for the first time, and it names a process of `before` that is
/// in state `Ready`.
pub open spec fn has_turn(before: Seq<ProcessView>, ready: Seq<Seq<char>>, k: int) -> bool {
    let p = position(process_names(before), ready[k]);
    &&& first_mention(ready, k)
    &&& p < before.len()
    &&& before[p].state is Ready
}

/// The messages of the turn at place `k`: those of `sent` from place
/// `cuts[k]` up to place `cuts[k + 1]`, without their senders.
pub open spec fn turn_of(sent: Seq<(String, ProcessMessage)>, cuts: Seq<int>, k: int) -> Seq<
    ProcessMessage,
> {
    bare(sent.subrange(cuts[k], cuts[k + 1]))
}

/// Whether every turn cut at `cuts` is as a turn must be. A name that
/// gets a turn names a process that was resumed: it sent at least one
/// message, and its state in `after` goes by the last of them; see
/// `one_turn`. A name that gets no turn sent nothing.
pub open spec fn turns_right(
    before: Seq<ProcessView>,
    after: Seq<ProcessView>,
    sent: Seq<(String, ProcessMessage)>,
    ready: Seq<Seq<char>>,
    cuts: Seq<int>,
) -> bool {
    forall|k: int|
        0 <= k < ready.len() ==> {
            let turn = #[trigger] turn_of(sent, cuts, k);
            if has_turn(before, ready, k) {
                one_turn(turn, after[position(process_names(before), ready[k])].state)
            } else {
                turn.len() == 0
            }
        }
}

/// Whether the messages `sent` are what resuming the processes named in
/// `ready`, from the table `before` to the table `after`, makes them
/// send: first come the messages of the first name, then those of the
/// second, and so on; and every turn is as `turns_right` says. So every
/// process that is resumed is heard.
pub open spec fn heard_in_turn(
    before: Seq<ProcessView>,
    after: Seq<ProcessView>,
    sent: Seq<(String, ProcessMessage)>,
    ready: Seq<Seq<char>>,
) -> bool {
    exists|cuts: Seq<int>|
        #[trigger] takes_turns(sent, ready, cuts) && turns_right(before, after, sent, ready, cuts)
}

/// Whether the outbox `after` is what resuming the processes named in
/// `ready` can make of the outbox `before`: the messages of `before`
/// come first, and every message behind them was sent by a process named
/// in `ready`.
pub open spec fn sent_from(
    before: Seq<(String, ProcessMessage)>,
    after: Seq<(String, ProcessMessage)>,
    ready: Seq<Seq<char>>,
) -> bool {
    &&& before.len() <= after.len()
    &&& after.take(before.len() as int) == before
    &&& forall|k: int| before.len() <= k < after.len() ==> ready.contains((#[trigger] after[k]).0@)
}

/// Whether no message of `s` is a spawn.
pub open spec fn without_spawn(s: Seq<(String, ProcessMessage)>) -> bool {
    forall|i: int| 0 <= i < s.len() ==> !((#[trigger] s[i]).1 is Spawn)
}

/// Whether the child that `message` asks for can have come to life in
/// `k`: its name was free and its entry function had been loaded.
pub open spec fn born_rightly(k: KernelView, message: MessageView) -> bool {
    message matches MessageView::Spawn(name, entry) ==> !listed(process_names(k.processes), name)
        && listed(k.functions, entry)
}

/// Whether the `fates` are such as spawns can meet when the messages `s`
/// are dispatched from `k`, first to last: a child came to life only
/// where, when its turn came, its name was free and its entry function
/// had been loaded. So a spawn of a function that was never loaded, or
/// under a name that is taken, adds no process.
pub open spec fn rightly_fated(
    k: KernelView,
    s: Seq<(String, ProcessMessage)>,
    fates: Seq<Option<Seq<char>>>,
) -> bool
    decreases s.len(),
{
    s.len() == 0 || {
        let before = dispatched(k, s.drop_last(), fates);
        &&& rightly_fated(k, s.drop_last(), fates)
        &&& listed(process_names(before.processes), s.last().0@) && fates[s.len() - 1] is None
            ==> born_rightly(before, s.last().1@)
    }
}

/// The simulator `k` after the kernel dispatched the messages `s`, first
/// to last, where `fates[i]` is the fate of message `i` if that is a
/// spawn. A message whose sender is not registered when its turn comes
/// is dropped.
pub open spec fn dispatched(
    k: KernelView,
    s: Seq<(String, ProcessMessage)>,
    fates: Seq<Option<Seq<char>>>,
) -> KernelView
    decreases s.len(),
{
    if s.len() == 0 {
        k
    } else {
        let before = dispatched(k, s.drop_last(), fates);
        if listed(process_names(before.processes), s.last().0@) {
            before.after_delivery(s.last().0@, s.last().1@, fates[s.len() - 1])
        } else {
            before
        }
    }
}

/// Only the fates of the messages that there are matter.
pub proof fn lemma_later_fates_do_not_matter(
    k: KernelView,
    s: Seq<(String, ProcessMessage)>,
    f1: Seq<Option<Seq<char>>>,
    f2: Seq<Option<Seq<char>>>,
)
    requires
        forall|i: int| 0 <= i < s.len() ==> f1[i] == f2[i],
    ensures
        dispatched(k, s, f1) == dispatched(k, s, f2),
        rightly_fated(k, s, f1) == rightly_fated(k, s, f2),
    decreases s.len(),
{
    if s.len() > 0 {
        lemma_later_fates_do_not_matter(k, s.drop_last(), f1, f2);
    }
}

/// Only the fates of spawns matter.
pub proof fn lemma_fates_are_for_spawns(
    k: KernelView,
    s: Seq<(String, ProcessMessage)>,
    f1: Seq<Option<Seq<char>>>,
    f2: Seq<Option<Seq<char>>>,
)
    requires
        forall|i: int| 0 <= i < s.len() && (#[trigger] s[i]).1 is Spawn ==> f1[i] == f2[i],
    ensures
        dispatched(k, s, f1) == dispatched(k, s, f2),
    decreases s.len(),
{
    if s.len() > 0 {
        assert forall|i: int| 0 <= i < s.drop_last().len() && (
        #[trigger] s.drop_last()[i]).1 is Spawn implies f1[i] == f2[i] by {
            assert(s.drop_last()[i] == s[i]);
        }
        lemma_fates_are_for_spawns(k, s.drop_last(), f1, f2);
        assert(s.last() == s[s.len() - 1]);
    }
}

/// Dispatching touches neither the clock nor the events, nor the outbox,
/// the entry functions, the step limit or the seed.
pub proof fn lemma_dispatch_keeps_the_rest(
    k: KernelView,
    s: Seq<(String, ProcessMessage)>,
    fates: Seq<Option<Seq<char>>>,
)
    ensures
        dispatched(k, s, fates).clock == k.clock,
        dispatched(k, s, fates).events == k.events,
        dispatched(k, s, fates).next_event_id == k.next_event_id,
        dispatched(k, s, fates).outbox == k.outbox,
        dispatched(k, s, fates).functions == k.functions,
        dispatched(k, s, fates).step_limit == k.step_limit,
        dispatched(k, s, fates).seed == k.seed,
    decreases s.len(),
{
    if s.len() > 0 {
        lemma_dispatch_keeps_the_rest(k, s.drop_last(), fates);
    }
}

} // verus!
