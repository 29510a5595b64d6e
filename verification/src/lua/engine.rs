//! The registry of processes.

use super::process::{
    one_resumption, one_turn, CommandView, LuaCommand, LuaProcess, ProcessMessage, ProcessState, ProcessStateView,
    ProcessView,
};
use crate::error::SimError;
use crate::kernel::time::SimTime;
use crate::names::{distinct, lemma_position, lemma_position_found, listed, position};
use vstd::prelude::*;

verus! {

/// A script kept for later spawns, under the name of its entry function.
struct Script {
    function: String,
    source: String,
}

/// The names of the processes in `s`, in the same order.
pub open spec fn process_names(s: Seq<ProcessView>) -> Seq<Seq<char>> {
    Seq::new(s.len(), |i: int| s[i].name)
}

/// The processes of `s` that are not finished, in the same order.
pub open spec fn unfinished(s: Seq<ProcessView>) -> Seq<ProcessView>
    decreases s.len(),
{
    if s.len() == 0 {
        Seq::empty()
    } else if s[0].state is Finished {
        unfinished(s.drop_first())
    } else {
        seq![s[0]] + unfinished(s.drop_first())
    }
}

/// The messages of `s` without their senders.
pub open spec fn bare(s: Seq<(String, ProcessMessage)>) -> Seq<ProcessMessage> {
    Seq::new(s.len(), |i: int| s[i].1)
}

/// Whether every message of `s` was sent by `name`.
pub open spec fn all_from(s: Seq<(String, ProcessMessage)>, name: Seq<char>) -> bool {
    forall|i: int| 0 <= i < s.len() ==> (#[trigger] s[i]).0@ == name
}

/// Every process of `s` that is kept by `unfinished` is in `s`, in the
/// same order, and none of them is finished.
pub proof fn lemma_unfinished(s: Seq<ProcessView>)
    ensures
        unfinished(s).len() <= s.len(),
        forall|i: int| 0 <= i < unfinished(s).len() ==> !((#[trigger] unfinished(s)[i]).state is Finished),
        forall|i: int|
            0 <= i < unfinished(s).len() ==> listed(
                process_names(s),
                (#[trigger] unfinished(s)[i]).name,
            ),
        distinct(process_names(s)) ==> distinct(process_names(unfinished(s))),
        (forall|i: int| 0 <= i < s.len() ==> !((#[trigger] s[i]).state is Finished)) ==> unfinished(s) == s,
    decreases s.len(),
{
    if s.len() > 0 {
        let rest = s.drop_first();
        lemma_unfinished(rest);
        let u = unfinished(s);
        let ur = unfinished(rest);
        assert forall|i: int| 0 <= i < u.len() implies listed(
            process_names(s),
            (#[trigger] u[i]).name,
        ) by {
            let name = u[i].name;
            if s[0].state is Finished || i > 0 {
                let k = if s[0].state is Finished {
                    i
                } else {
                    i - 1
                };
                assert(u[i] == ur[k]);
                lemma_position(process_names(rest), name);
                let at = position(process_names(rest), name);
                assert(process_names(rest)[at] == name);
                assert(process_names(s)[at + 1] == rest[at].name);
                lemma_position(process_names(s), name);
            } else {
                assert(process_names(s)[0] == name);
                lemma_position(process_names(s), name);
            }
        }
        if distinct(process_names(s)) {
            assert forall|i: int, j: int| 0 <= i < j < process_names(rest).len() implies process_names(
                rest,
            )[i] != process_names(rest)[j] by {
                assert(process_names(rest)[i] == process_names(s)[i + 1]);
                assert(process_names(rest)[j] == process_names(s)[j + 1]);
            }
            assert forall|i: int, j: int| 0 <= i < j < process_names(u).len() implies process_names(
                u,
            )[i] != process_names(u)[j] by {
                if s[0].state is Finished {
                    assert(process_names(u)[i] == process_names(ur)[i]);
                    assert(process_names(u)[j] == process_names(ur)[j]);
                } else if i > 0 {
                    assert(process_names(u)[i] == process_names(ur)[i - 1]);
                    assert(process_names(u)[j] == process_names(ur)[j - 1]);
                } else {
                    let name = ur[j - 1].name;
                    assert(u[j] == ur[j - 1]);
                    assert(listed(process_names(rest), name));
                    lemma_position(process_names(rest), name);
                    let at = position(process_names(rest), name);
                    assert(process_names(rest)[at] == process_names(s)[at + 1]);
                    assert(process_names(s)[0] != process_names(s)[at + 1]);
                }
            }
        }
        if forall|i: int| 0 <= i < s.len() ==> !((#[trigger] s[i]).state is Finished) {
            assert forall|i: int| 0 <= i < rest.len() implies !((#[trigger] rest[i]).state is Finished) by {
                assert(rest[i] == s[i + 1]);
            }
            assert(u =~= s);
        }
    }
}

/// The table `s` with the process called `name` put into `state`; a
/// table without that name, and a finished process, stay as they are.
pub open spec fn moved(s: Seq<ProcessView>, name: Seq<char>, state: ProcessStateView) -> Seq<
    ProcessView,
> {
    let i = position(process_names(s), name);
    if i < s.len() {
        s.update(i, s[i].moved_to(state))
    } else {
        s
    }
}

/// Whether the table `after` is what writing `time` into the mirrors of
/// the clock makes of the table `before`: every process shows `time`,
/// or, where the interpreter refused the write, has a stale mirror. No
/// process shows another time.
pub open spec fn mirrored(before: Seq<ProcessView>, after: Seq<ProcessView>, time: nat) -> bool {
    &&& after.len() == before.len()
    &&& forall|i: int|
        0 <= i < before.len() ==> (#[trigger] after[i]) == before[i].showing(Some(time))
            || after[i] == before[i].showing(None)
}

/// The table `s` after the process called `name` was told `command`; a
/// table without that name stays as it is.
pub open spec fn commanded(s: Seq<ProcessView>, name: Seq<char>, command: CommandView) -> Seq<
    ProcessView,
> {
    let i = position(process_names(s), name);
    if i < s.len() {
        s.update(i, s[i].after_command(command))
    } else {
        s
    }
}

/// Every process kept by `unfinished` is one of the processes of `s`.
pub proof fn lemma_unfinished_members(s: Seq<ProcessView>, k: int)
    requires
        0 <= k < unfinished(s).len(),
    ensures
        exists|i: int| 0 <= i < s.len() && #[trigger] s[i] == unfinished(s)[k],
    decreases s.len(),
{
    if s.len() > 0 {
        let rest = s.drop_first();
        if s[0].state is Finished {
            lemma_unfinished_members(rest, k);
            let i = choose|i: int| 0 <= i < rest.len() && #[trigger] rest[i] == unfinished(rest)[k];
            assert(s[i + 1] == rest[i]);
        } else if k == 0 {
            assert(s[0] == unfinished(s)[0]);
        } else {
            lemma_unfinished_members(rest, k - 1);
            let i = choose|i: int|
                0 <= i < rest.len() && #[trigger] rest[i] == unfinished(rest)[k - 1];
            assert(s[i + 1] == rest[i]);
        }
    }
}

/// The registry of processes, in the order in which they were created,
/// with the scripts that later spawns may use and the messages that
/// resumed processes have sent.
pub struct LuaEngine {
    processes: Vec<LuaProcess>,
    scripts: Vec<Script>,
    outbox: Vec<(String, ProcessMessage)>,
    seed: u64,
    created: u64,
}

/// The registry as contracts see it.
pub struct EngineView {
    /// The processes, in the order of creation.
    pub processes: Seq<ProcessView>,
    /// The entry functions whose scripts are kept, in the order in which
    /// they were first loaded.
    pub functions: Seq<Seq<char>>,
    /// The sources of the scripts that are kept: `sources[i]` is the
    /// script first loaded for the entry function `functions[i]`.
    pub sources: Seq<Seq<char>>,
    /// The messages sent and not yet collected, oldest first, each with
    /// the name of its sender.
    pub outbox: Seq<(String, ProcessMessage)>,
    /// The seed that the registry was made with.
    pub seed: u64,
    /// How many processes have been created so far, wrapping around.
    pub created: u64,
}

impl EngineView {
    /// The registry as it starts out when made with `seed`.
    pub open spec fn initial(seed: u64) -> EngineView {
        EngineView {
            processes: Seq::empty(),
            functions: Seq::empty(),
            sources: Seq::empty(),
            outbox: Seq::empty(),
            seed,
            created: 0,
        }
    }

    /// The source of the script that is kept for the entry function
    /// `function`.
    pub open spec fn source_for(self, function: Seq<char>) -> Seq<char> {
        self.sources[position(self.functions, function)]
    }

    /// With `script` kept for the entry function `entry`, unless a script
    /// is kept for it already: the first one loaded stays.
    pub open spec fn with_script(self, script: Seq<char>, entry: Seq<char>) -> EngineView {
        if listed(self.functions, entry) {
            self
        } else {
            EngineView {
                functions: self.functions.push(entry),
                sources: self.sources.push(script),
                ..self
            }
        }
    }

    /// The seed for the next process to be created: the registry's seed
    /// plus the number of processes created so far, wrapping around.
    pub open spec fn next_seed(self) -> u64 {
        self.seed.wrapping_add(self.created)
    }

    /// The seed and the count of created processes, which only the
    /// creation of a process changes.
    pub open spec fn seeding(self) -> (u64, u64) {
        (self.seed, self.created)
    }

    /// With a process called `name` created to run the function `entry`
    /// of `script`: it comes last, fresh and with the next seed, and the
    /// count of created processes goes up by one, wrapping around.
    pub open spec fn with_process(
        self,
        name: Seq<char>,
        script: Seq<char>,
        entry: Seq<char>,
    ) -> EngineView {
        EngineView {
            processes: self.processes.push(
                ProcessView::fresh(name, self.next_seed(), script, entry),
            ),
            created: self.created.wrapping_add(1),
            ..self
        }
    }

    /// No two processes share a name, no entry function is kept twice,
    /// every kept entry function has its source, and no process holds
    /// back a message.
    pub open spec fn wf(self) -> bool {
        &&& distinct(process_names(self.processes))
        &&& distinct(self.functions)
        &&& self.sources.len() == self.functions.len()
        &&& forall|i: int|
            0 <= i < self.processes.len() ==> (#[trigger] self.processes[i]).mailbox.len() == 0
    }
}

impl View for LuaEngine {
    type V = EngineView;

    closed spec fn view(&self) -> EngineView {
        EngineView {
            processes: Seq::new(self.processes@.len(), |i: int| self.processes@[i]@),
            functions: Seq::new(self.scripts@.len(), |i: int| self.scripts@[i].function@),
            sources: Seq::new(self.scripts@.len(), |i: int| self.scripts@[i].source@),
            outbox: self.outbox@,
            seed: self.seed,
            created: self.created,
        }
    }
}

impl LuaEngine {
    /// No two processes share a name, no entry function is kept twice,
    /// and no process holds back a message.
    pub open spec fn wf(&self) -> bool {
        self@.wf()
    }

    /// An empty registry as `with_seed` makes it from seed zero.
    pub fn new() -> (e: LuaEngine)
        ensures
            e.wf(),
            e@ == EngineView::initial(0),
    {
        LuaEngine::with_seed(0)
    }

    /// An empty registry whose processes will draw their random numbers
    /// from `seed`: the first process to be created from `seed` itself,
    /// the next from `seed + 1`, and so on, wrapping around.
    pub fn with_seed(seed: u64) -> (e: LuaEngine)
        ensures
            e.wf(),
            e@ == EngineView::initial(seed),
    {
        let e = LuaEngine {
            processes: Vec::new(),
            scripts: Vec::new(),
            outbox: Vec::new(),
            seed,
            created: 0,
        };
        assert(e@.processes =~= Seq::<ProcessView>::empty());
        assert(e@.functions =~= Seq::<Seq<char>>::empty());
        assert(e@.sources =~= Seq::<Seq<char>>::empty());
        e
    }

    /// The seed for the next process to be created; see
    /// `EngineView::next_seed`.
    fn next_seed(&self) -> (seed: u64)
        ensures
            seed == self@.next_seed(),
    {
        self.seed.wrapping_add(self.created)
    }

    /// Where the process called `name` stands, if there is one.
    fn find(&self, name: &str) -> (r: Option<usize>)
        ensures
            match r {
                Some(i) => i < self@.processes.len() && i == position(
                    process_names(self@.processes),
                    name@,
                ) && self@.processes[i as int].name == name@,
                None => !listed(process_names(self@.processes), name@),
            },
    {
        let key = name.to_owned();
        let mut i: usize = 0;
        while i < self.processes.len()
            invariant
                i <= self.processes.len(),
                key@ == name@,
                forall|j: int| 0 <= j < i ==> process_names(self@.processes)[j] != name@,
            decreases self.processes.len() - i,
        {
            if self.processes[i].is_called(&key) {
                proof {
                    lemma_position_found(process_names(self@.processes), name@, i as int);
                }
                return Some(i);
            }
            i += 1;
        }
        proof {
            lemma_position_found(process_names(self@.processes), name@, i as int);
        }
        None
    }

    /// Where the script for the entry function `function` stands, if it
    /// is kept.
    fn find_script(&self, function: &str) -> (r: Option<usize>)
        ensures
            match r {
                Some(i) => i < self@.functions.len() && self@.functions[i as int] == function@
                    && listed(self@.functions, function@) && i == position(
                    self@.functions,
                    function@,
                ),
                None => !listed(self@.functions, function@),
            },
    {
        let key = function.to_owned();
        let mut i: usize = 0;
        while i < self.scripts.len()
            invariant
                i <= self.scripts.len(),
                key@ == function@,
                forall|j: int| 0 <= j < i ==> self@.functions[j] != function@,
            decreases self.scripts.len() - i,
        {
            if self.scripts[i].function == key {
                proof {
                    lemma_position_found(self@.functions, function@, i as int);
                }
                return Some(i);
            }
            i += 1;
        }
        proof {
            lemma_position_found(self@.functions, function@, i as int);
        }
        None
    }

    /// Whether a process called `name` is registered.
    pub fn contains(&self, name: &str) -> (b: bool)
        ensures
            b == listed(process_names(self@.processes), name@),
    {
        proof {
            lemma_position(process_names(self@.processes), name@);
        }
        self.find(name).is_some()
    }

    /// Adds `process` at the end of the registry and counts it as
    /// created.
    fn enrol(&mut self, process: LuaProcess)
        requires
            old(self).wf(),
            !listed(process_names(old(self)@.processes), process@.name),
            process@.mailbox.len() == 0,
        ensures
            final(self).wf(),
            final(self)@ == (EngineView {
                processes: old(self)@.processes.push(process@),
                created: old(self)@.created.wrapping_add(1),
                ..old(self)@
            }),
    {
        let ghost before = self@.processes;
        let ghost name = process@.name;
        self.processes.push(process);
        self.created = self.created.wrapping_add(1);
        proof {
            assert(self@.processes =~= before.push(process@));
            assert(self@.functions =~= old(self)@.functions);
            lemma_position(process_names(before), name);
            assert forall|i: int, j: int|
                0 <= i < j < process_names(self@.processes).len() implies process_names(
                self@.processes,
            )[i] != process_names(self@.processes)[j] by {
                if j < before.len() {
                    assert(process_names(before)[i] != process_names(before)[j]);
                } else {
                    assert(process_names(before)[i] != name);
                }
            }
        }
    }

    /// Registers a process called `name` whose body is the function
    /// `function_name` of `script_content`, and keeps the script for
    /// later spawns of that function unless one is kept already.
    ///
    /// A name that is taken is refused with a `ProcessError` before the
    /// script is looked at. Otherwise the outcome is up to the script:
    /// see `LuaProcess::new`. A failure changes nothing.
    pub fn create_process(&mut self, name: String, script_content: &str, function_name: &str) -> (r:
        Result<(), SimError>)
        requires
            old(self).wf(),
        ensures
            final(self).wf(),
            listed(process_names(old(self)@.processes), name@) ==> (r matches Err(e) && e is ProcessError),
            match r {
                Ok(_) => {
                    &&& !listed(process_names(old(self)@.processes), name@)
                    &&& final(self)@ == old(self)@.with_process(
                        name@,
                        script_content@,
                        function_name@,
                    ).with_script(script_content@, function_name@)
                },
                Err(e) => final(self)@ == old(self)@ && (e is ProcessError || e is LuaError),
            },
    {
        if self.find(name.as_str()).is_some() {
            proof {
                lemma_position(process_names(self@.processes), name@);
            }
            return Err(SimError::ProcessError(String::from_str("the process name is taken")));
        }
        let seed = self.next_seed();
        let process = match LuaProcess::new(name, script_content, function_name, seed) {
            Ok(process) => process,
            Err(e) => {
                return Err(e);
            },
        };
        self.enrol(process);
        if self.find_script(function_name).is_none() {
            let ghost before = self@.functions;
            self.scripts.push(
                Script { function: function_name.to_owned(), source: script_content.to_owned() },
            );
            proof {
                assert(self@.functions =~= before.push(function_name@));
                assert(self@.sources =~= old(self)@.sources.push(script_content@));
                assert(self@.processes =~= old(self)@.with_process(
                    name@,
                    script_content@,
                    function_name@,
                ).processes);
                lemma_position(before, function_name@);
                assert forall|i: int, j: int|
                    0 <= i < j < self@.functions.len() implies self@.functions[i]
                    != self@.functions[j] by {
                    if j < before.len() {
                        assert(before[i] != before[j]);
                    } else {
                        assert(before[i] != function_name@);
                    }
                }
            }
        }
        Ok(())
    }

    /// Registers a process called `name` whose body is the entry function
    /// `function_name` of the script that is kept for that function: the
    /// first that was loaded for it.
    ///
    /// A name that is taken and a function that was never loaded are
    /// refused with a `ProcessError` before any script is run. Otherwise
    /// the outcome is up to the script, and a failure is a `ProcessError`
    /// too. A failure changes nothing.
    pub fn spawn_process(&mut self, name: String, function_name: &str) -> (r: Result<(), SimError>)
        requires
            old(self).wf(),
        ensures
            final(self).wf(),
            listed(process_names(old(self)@.processes), name@) || !listed(
                old(self)@.functions,
                function_name@,
            ) ==> r is Err,
            match r {
                Ok(_) => {
                    &&& !listed(process_names(old(self)@.processes), name@)
                    &&& listed(old(self)@.functions, function_name@)
                    &&& final(self)@ == old(self)@.with_process(
                        name@,
                        old(self)@.source_for(function_name@),
                        function_name@,
                    )
                },
                Err(e) => final(self)@ == old(self)@ && e is ProcessError,
            },
    {
        if self.find(name.as_str()).is_some() {
            proof {
                lemma_position(process_names(self@.processes), name@);
            }
            return Err(SimError::ProcessError(String::from_str("the process name is taken")));
        }
        let at = match self.find_script(function_name) {
            Some(at) => at,
            None => {
                return Err(
                    SimError::ProcessError(String::from_str("the function was never loaded")),
                );
            },
        };
        let seed = self.next_seed();
        let created = LuaProcess::new(
            name,
            self.scripts[at].source.as_str(),
            function_name,
            seed,
        );
        match created {
            Ok(process) => {
                self.enrol(process);
                Ok(())
            },
            Err(e) => Err(SimError::ProcessError(e.message().clone())),
        }
    }

    /// Resumes the process called `name` and moves the messages it sent
    /// to the end of the outbox, each under the sender's name.
    ///
    /// An unknown name is a `ProcessError`. For what a resumption can
    /// come to, see `LuaProcess::resume`.
    pub fn start_process(&mut self, name: &str) -> (r: Result<bool, SimError>)
        requires
            old(self).wf(),
        ensures
            final(self).wf(),
            final(self)@.functions == old(self)@.functions,
            final(self)@.sources == old(self)@.sources,
            final(self)@.seeding() == old(self)@.seeding(),
            final(self)@.processes.len() == old(self)@.processes.len(),
            process_names(final(self)@.processes) == process_names(old(self)@.processes),
            old(self)@.outbox.len() <= final(self)@.outbox.len(),
            final(self)@.outbox.take(old(self)@.outbox.len() as int) == old(self)@.outbox,
            all_from(final(self)@.outbox.skip(old(self)@.outbox.len() as int), name@),
            !listed(process_names(old(self)@.processes), name@) ==> {
                &&& r matches Err(e) && e is ProcessError
                &&& final(self)@.processes == old(self)@.processes
                &&& final(self)@.outbox == old(self)@.outbox
            },
            listed(process_names(old(self)@.processes), name@) ==> {
                let i = position(process_names(old(self)@.processes), name@);
                let was = old(self)@.processes[i];
                let fresh = bare(final(self)@.outbox.skip(old(self)@.outbox.len() as int));
                &&& forall|j: int|
                    0 <= j < old(self)@.processes.len() && j != i ==> final(self)@.processes[j]
                        == old(self)@.processes[j]
                &&& final(self)@.processes[i] == (ProcessView {
                    state: final(self)@.processes[i].state,
                    ..was
                })
                &&& was.state is Finished ==> {
                    &&& r matches Ok(done) && done
                    &&& final(self)@.processes == old(self)@.processes
                    &&& fresh.len() == 0
                }
                &&& !(was.state is Finished) ==> {
                    &&& one_turn(fresh, final(self)@.processes[i].state)
                    &&& one_resumption(fresh, r)
                    &&& final(self)@.processes[i].state == if r matches Ok(done) && !done {
                        ProcessStateView::Running
                    } else {
                        ProcessStateView::Finished
                    }
                }
            },
    {
        let ghost box0 = self@.outbox;
        let ghost n0 = box0.len() as int;
        let i = match self.find(name) {
            Some(i) => i,
            None => {
                proof {
                    assert(self@.outbox.take(n0) =~= box0);
                    assert(self@.outbox.skip(n0) =~= Seq::<(String, ProcessMessage)>::empty());
                }
                return Err(SimError::ProcessError(String::from_str("no such process")));
            },
        };
        let ghost before = self@.processes;
        proof {
            lemma_position(process_names(before), name@);
            assert(before[i as int].mailbox.len() == 0);
        }
        let r = self.processes[i].resume();
        let messages = self.processes[i].take_messages();
        proof {
            assert(process_names(self@.processes) =~= process_names(before));
            assert forall|j: int| 0 <= j < before.len() && j != i implies self@.processes[j]
                == before[j] by {}
            assert(messages@.skip(0) =~= messages@);
            assert(self@.processes[i as int].mailbox =~= Seq::<ProcessMessage>::empty());
            assert(before[i as int].mailbox =~= Seq::<ProcessMessage>::empty());
            assert(self@.processes[i as int] == (ProcessView {
                state: self@.processes[i as int].state,
                ..before[i as int]
            }));
            if before[i as int].state is Finished {
                assert(before[i as int].mailbox =~= Seq::<ProcessMessage>::empty());
                assert(self@.processes =~= before);
            }
        }
        let ghost table = self.processes@;
        let ghost mid = self@.processes;
        assert(self.outbox@.take(n0) =~= box0);
        assert(bare(self.outbox@.skip(n0)) =~= messages@.take(0));
        let ghost sent = messages@;
        for message in it: messages
            invariant
                it.seq() == sent,
                n0 == box0.len(),
                self.processes@ == table,
                self.scripts == old(self).scripts,
                self.seed == old(self).seed,
                self.created == old(self).created,
                self.outbox@.len() == n0 + it.index(),
                self.outbox@.take(n0) == box0,
                all_from(self.outbox@.skip(n0), name@),
                bare(self.outbox@.skip(n0)) == sent.take(it.index() as int),
        {
            let ghost sofar = self.outbox@;
            let ghost k = it.index() as int;
            let sender = name.to_owned();
            self.outbox.push((sender, message));
            proof {
                assert(self.outbox@.take(n0) =~= box0);
                assert(self.outbox@.skip(n0) =~= sofar.skip(n0).push((sender, message)));
                assert(bare(self.outbox@.skip(n0)) =~= sent.take(k + 1));
            }
        }
        proof {
            assert(sent.take(sent.len() as int) =~= sent);
            assert(self@.processes == mid);
            assert(process_names(mid) == process_names(before));
            assert forall|j: int| 0 <= j < mid.len() implies (#[trigger] mid[j]).mailbox.len()
                == 0 by {
                if j != i {
                    assert(mid[j] == before[j]);
                }
            }
            assert(self@.functions =~= old(self)@.functions);
        }
        r
    }

    /// Hands over the messages in the outbox, oldest first, and leaves
    /// the outbox empty.
    pub fn process_messages(&mut self) -> (messages: Vec<(String, ProcessMessage)>)
        ensures
            messages@ == old(self)@.outbox,
            final(self)@.outbox == Seq::<(String, ProcessMessage)>::empty(),
            final(self)@.processes == old(self)@.processes,
            final(self)@.functions == old(self)@.functions,
            final(self)@.sources == old(self)@.sources,
            final(self)@.seeding() == old(self)@.seeding(),
            old(self).wf() ==> final(self).wf(),
    {
        let mut messages: Vec<(String, ProcessMessage)> = Vec::new();
        std::mem::swap(&mut self.outbox, &mut messages);
        messages
    }

    /// Removes every finished process from the registry; their names
    /// become free again.
    pub fn cleanup_finished(&mut self)
        requires
            old(self).wf(),
        ensures
            final(self).wf(),
            final(self)@.processes == unfinished(old(self)@.processes),
            final(self)@.functions == old(self)@.functions,
            final(self)@.sources == old(self)@.sources,
            final(self)@.seeding() == old(self)@.seeding(),
            final(self)@.outbox == old(self)@.outbox,
    {
        let ghost start = self@.processes;
        let mut i: usize = 0;
        proof {
            assert(self@.processes.take(0) =~= Seq::<ProcessView>::empty());
            assert(self@.processes.skip(0) =~= start);
        }
        while i < self.processes.len()
            invariant
                i <= self.processes.len(),
                self.scripts == old(self).scripts,
                self.seed == old(self).seed,
                self.created == old(self).created,
                self.outbox == old(self).outbox,
                unfinished(start) == self@.processes.take(i as int) + unfinished(
                    self@.processes.skip(i as int),
                ),
            decreases self.processes.len() - i,
        {
            let ghost before = self@.processes;
            let ghost rest = before.skip(i as int);
            assert(rest[0] == before[i as int]);
            if self.processes[i].is_finished() {
                self.processes.remove(i);
                proof {
                    assert(self@.processes =~= before.remove(i as int));
                    assert(self@.processes.take(i as int) =~= before.take(i as int));
                    assert(self@.processes.skip(i as int) =~= rest.drop_first());
                }
            } else {
                i += 1;
                proof {
                    assert(before.take(i as int) =~= before.take(i - 1).push(before[i - 1]));
                    assert(before.skip(i as int) =~= rest.drop_first());
                    assert(before.take(i - 1) + (seq![rest[0]] + unfinished(rest.drop_first()))
                        =~= before.take(i as int) + unfinished(rest.drop_first()));
                }
            }
        }
        proof {
            assert(self@.processes.skip(i as int) =~= Seq::<ProcessView>::empty());
            assert(self@.processes.take(i as int) =~= self@.processes);
            assert(self@.processes =~= unfinished(start));
            lemma_unfinished(start);
            assert(self@.functions =~= old(self)@.functions);
            assert forall|j: int| 0 <= j < self@.processes.len() implies (
            #[trigger] self@.processes[j]).mailbox.len() == 0 by {
                lemma_unfinished_members(start, j);
            }
        }
    }

    /// Tells the process called `name` what to do: `Resume` makes it
    /// ready, `ResourceGranted` makes it ready if that is the resource it
    /// waits for, `Error` and `Terminate` end it. A finished process
    /// stays finished. An unknown name is a `ProcessError`.
    pub fn send_command(&mut self, process_name: &str, command: LuaCommand) -> (r: Result<
        (),
        SimError,
    >)
        requires
            old(self).wf(),
        ensures
            final(self).wf(),
            final(self)@.functions == old(self)@.functions,
            final(self)@.sources == old(self)@.sources,
            final(self)@.seeding() == old(self)@.seeding(),
            final(self)@.outbox == old(self)@.outbox,
            r is Ok <==> listed(process_names(old(self)@.processes), process_name@),
            final(self)@.processes == commanded(old(self)@.processes, process_name@, command@),
            r matches Err(e) ==> e is ProcessError,
    {
        match self.find(process_name) {
            Some(i) => {
                let ghost before = self@.processes;
                proof {
                    lemma_position(process_names(before), process_name@);
                }
                self.processes[i].obey(command);
                proof {
                    assert(self@.processes =~= before.update(
                        i as int,
                        before[i as int].after_command(command@),
                    ));
                    assert(process_names(self@.processes) =~= process_names(before));
                    assert(self@.functions =~= old(self)@.functions);
                }
                Ok(())
            },
            None => Err(SimError::ProcessError(String::from_str("no such process"))),
        }
    }

    /// The names of all registered processes, in the order of creation.
    pub fn active_processes(&self) -> (names: Vec<String>)
        ensures
            names.len() == self@.processes.len(),
            forall|i: int| 0 <= i < names.len() ==> (#[trigger] names[i])@ == self@.processes[i].name,
    {
        let mut names: Vec<String> = Vec::new();
        let mut i: usize = 0;
        while i < self.processes.len()
            invariant
                i <= self.processes.len(),
                names.len() == i,
                forall|j: int| 0 <= j < i ==> (#[trigger] names[j])@ == self@.processes[j].name,
            decreases self.processes.len() - i,
        {
            names.push(self.processes[i].name().to_owned());
            i += 1;
        }
        names
    }

    /// How many processes are registered.
    pub fn len(&self) -> (n: usize)
        ensures
            n == self@.processes.len(),
    {
        self.processes.len()
    }

    /// The state of the process called `name`, if there is one.
    pub fn process_state(&self, name: &str) -> (r: Option<&ProcessState>)
        ensures
            match r {
                Some(state) => {
                    &&& listed(process_names(self@.processes), name@)
                    &&& state@ == self@.processes[position(
                        process_names(self@.processes),
                        name@,
                    )].state
                },
                None => !listed(process_names(self@.processes), name@),
            },
    {
        match self.find(name) {
            Some(i) => {
                proof {
                    lemma_position(process_names(self@.processes), name@);
                }
                Some(self.processes[i].state())
            },
            None => None,
        }
    }

    /// Whether some process waits for a unit of a resource.
    pub fn any_waiting_for_resource(&self) -> (b: bool)
        ensures
            b == exists|i: int|
                0 <= i < self@.processes.len() && (
                #[trigger] self@.processes[i]).state is WaitingForResource,
    {
        let mut i: usize = 0;
        while i < self.processes.len()
            invariant
                i <= self.processes.len(),
                forall|j: int| 0 <= j < i ==> !((#[trigger] self@.processes[j]).state is WaitingForResource),
            decreases self.processes.len() - i,
        {
            if self.processes[i].is_waiting_for_resource() {
                assert(self@.processes[i as int].state is WaitingForResource);
                return true;
            }
            i += 1;
        }
        false
    }

    /// Puts the process called `name` to sleep until `wake_time`. An
    /// unknown name and a finished process are left alone.
    pub fn set_process_waiting(&mut self, name: &str, wake_time: SimTime)
        requires
            old(self).wf(),
        ensures
            final(self).wf(),
            final(self)@.functions == old(self)@.functions,
            final(self)@.sources == old(self)@.sources,
            final(self)@.seeding() == old(self)@.seeding(),
            final(self)@.outbox == old(self)@.outbox,
            final(self)@.processes == moved(
                old(self)@.processes,
                name@,
                ProcessStateView::WaitingForTime(wake_time@),
            ),
    {
        if let Some(i) = self.find(name) {
            let ghost before = self@.processes;
            proof {
                lemma_position(process_names(before), name@);
            }
            self.processes[i].set_waiting(wake_time);
            proof {
                assert(self@.processes =~= moved(
                    before,
                    name@,
                    ProcessStateView::WaitingForTime(wake_time@),
                ));
                assert(process_names(self@.processes) =~= process_names(before));
                assert(self@.functions =~= old(self)@.functions);
            }
        }
    }

    /// Marks the process called `name` as waiting for a unit of
    /// `resource`. An unknown name and a finished process are left alone.
    pub fn set_process_waiting_for_resource(&mut self, name: &str, resource: String)
        requires
            old(self).wf(),
        ensures
            final(self).wf(),
            final(self)@.functions == old(self)@.functions,
            final(self)@.sources == old(self)@.sources,
            final(self)@.seeding() == old(self)@.seeding(),
            final(self)@.outbox == old(self)@.outbox,
            final(self)@.processes == moved(
                old(self)@.processes,
                name@,
                ProcessStateView::WaitingForResource(resource@),
            ),
    {
        if let Some(i) = self.find(name) {
            let ghost before = self@.processes;
            proof {
                lemma_position(process_names(before), name@);
            }
            self.processes[i].set_waiting_for_resource(resource);
            proof {
                assert(self@.processes =~= moved(
                    before,
                    name@,
                    ProcessStateView::WaitingForResource(resource@),
                ));
                assert(process_names(self@.processes) =~= process_names(before));
                assert(self@.functions =~= old(self)@.functions);
            }
        }
    }

    /// Marks the process called `name` as due to be resumed. An unknown
    /// name and a finished process are left alone.
    pub fn set_process_active(&mut self, name: &str)
        requires
            old(self).wf(),
        ensures
            final(self).wf(),
            final(self)@.functions == old(self)@.functions,
            final(self)@.sources == old(self)@.sources,
            final(self)@.seeding() == old(self)@.seeding(),
            final(self)@.outbox == old(self)@.outbox,
            final(self)@.processes == moved(old(self)@.processes, name@, ProcessStateView::Ready),
    {
        if let Some(i) = self.find(name) {
            let ghost before = self@.processes;
            proof {
                lemma_position(process_names(before), name@);
            }
            self.processes[i].set_active();
            proof {
                assert(self@.processes =~= moved(before, name@, ProcessStateView::Ready));
                assert(process_names(self@.processes) =~= process_names(before));
                assert(self@.functions =~= old(self)@.functions);
            }
        }
    }

    /// Removes every process and discards every uncollected message. The
    /// scripts are kept.
    pub fn terminate_all(&mut self)
        ensures
            final(self)@.processes == Seq::<ProcessView>::empty(),
            final(self)@.outbox == Seq::<(String, ProcessMessage)>::empty(),
            final(self)@.functions == old(self)@.functions,
            final(self)@.sources == old(self)@.sources,
            final(self)@.seeding() == old(self)@.seeding(),
            old(self).wf() ==> final(self).wf(),
    {
        self.processes.clear();
        self.outbox.clear();
        proof {
            assert(self@.processes =~= Seq::<ProcessView>::empty());
            assert(self@.functions =~= old(self)@.functions);
        }
    }

    /// Writes `time` into every script's mirror of the clock. A state
    /// that refuses the write is passed over, with its mirror marked as
    /// stale; see `mirrored`.
    pub fn update_time(&mut self, time: SimTime)
        ensures
            final(self)@ == (EngineView { processes: final(self)@.processes, ..old(self)@ }),
            mirrored(old(self)@.processes, final(self)@.processes, time@),
            old(self).wf() ==> final(self).wf(),
    {
        let mut i: usize = 0;
        while i < self.processes.len()
            invariant
                i <= self.processes.len(),
                self.processes@.len() == old(self).processes@.len(),
                forall|j: int|
                    0 <= j < i ==> (#[trigger] self@.processes[j]) == old(self)@.processes[j].showing(
                        Some(time@),
                    ) || self@.processes[j] == old(self)@.processes[j].showing(None),
                forall|j: int|
                    i <= j < self.processes.len() ==> (#[trigger] self@.processes[j]) == old(
                        self,
                    )@.processes[j],
                self.scripts == old(self).scripts,
                self.seed == old(self).seed,
                self.created == old(self).created,
                self.outbox == old(self).outbox,
            decreases self.processes.len() - i,
        {
            let ghost before = self@.processes;
            let ghost at = i as int;
            assert(before[at] == old(self)@.processes[at]);
            let _ = self.processes[i].update_time(time);
            proof {
                assert forall|j: int| 0 <= j < before.len() && j != at implies (
                #[trigger] self@.processes[j]) == before[j] by {}
                assert(self@.processes[at] == before[at].showing(Some(time@))
                    || self@.processes[at] == before[at].showing(None));
            }
            i += 1;
        }
        proof {
            assert(process_names(self@.processes) =~= process_names(old(self)@.processes));
        }
    }
}

impl Default for LuaEngine {
    fn default() -> (e: LuaEngine)
        ensures
            e.wf(),
            e@ == EngineView::initial(0),
    {
        LuaEngine::new()
    }
}

} // verus!
