//! What holds of the scheduler whatever the scripts do.

use super::{dispatched, lemma_dispatch_keeps_the_rest, resumed, KernelView, Round};
use crate::kernel::event::Event;
use crate::kernel::simulation::{due_count, in_firing_order};
use crate::lua::engine::process_names;
use crate::lua::process::{MessageView, ProcessMessage, ProcessStateView, ProcessView};
use crate::names::{lemma_position, lemma_position_unique, listed, position};
use crate::resources::{all_wf, names_of};
use crate::timed::{
    due, lemma_due_members, lemma_due_split, lemma_not_due_members, sleeper_names, with_sleeper,
};
use vstd::prelude::*;

verus! {

/// A process that asked at time `t` to sleep for `s` milliseconds sleeps until
/// `t + s`.
pub proof fn lemma_wait_sets_the_wake_time(k: KernelView, sender: Seq<char>, millis: nat)
    requires
        k.wf(),
        k.clock + millis <= u64::MAX,
    ensures
        ({
            let sleepers = k.after_wait(sender, millis).sleepers;
            &&& listed(sleeper_names(sleepers), sender)
            &&& sleepers[position(sleeper_names(sleepers), sender)].wake_time == k.clock + millis
        }),
{
    let before = k.sleepers;
    let after = with_sleeper(before, sender, k.clock + millis);
    lemma_position(sleeper_names(before), sender);
    let i = position(sleeper_names(before), sender);
    assert(after[i].process == sender);
    assert(sleeper_names(after)[i] == sender);
    assert forall|j: int| 0 <= j < i implies sleeper_names(after)[j] != sender by {
        assert(sleeper_names(after)[j] == sleeper_names(before)[j]);
    }
    crate::names::lemma_position_found(sleeper_names(after), sender, i);
}

/// Dispatching a wait puts the sender to sleep and nothing else: the
/// sender, unless it is finished, waits for the time `t + s`; it sleeps
/// under exactly one entry, until then; and it is not made ready.
pub proof fn lemma_wait_puts_to_sleep(k: KernelView, sender: Seq<char>, millis: nat)
    requires
        k.wf(),
        listed(process_names(k.processes), sender),
        k.clock + millis <= u64::MAX,
    ensures
        ({
            let after = k.after_message(sender, MessageView::Wait(millis));
            let p = position(process_names(k.processes), sender);
            let at = position(sleeper_names(after.sleepers), sender);
            &&& after.ready == k.ready
            &&& after.processes[p].name == sender
            &&& !(k.processes[p].state is Finished) ==> after.processes[p].state
                == ProcessStateView::WaitingForTime(k.clock + millis)
            &&& 0 <= at < after.sleepers.len()
            &&& after.sleepers[at].wake_time == k.clock + millis
            &&& forall|i: int|
                0 <= i < after.sleepers.len() && (#[trigger] after.sleepers[i]).process == sender
                    ==> i == at
        }),
{
    let noted = k.noting(crate::trace::sent(k.clock, sender, MessageView::Wait(millis)));
    let after = k.after_message(sender, MessageView::Wait(millis));
    lemma_position(process_names(k.processes), sender);
    lemma_wait_sets_the_wake_time(noted, sender, millis);
    let before = k.sleepers;
    lemma_position(sleeper_names(before), sender);
    let q = position(sleeper_names(before), sender);
    assert forall|a: int, b: int| 0 <= a < b < sleeper_names(after.sleepers).len() implies sleeper_names(
        after.sleepers,
    )[a] != sleeper_names(after.sleepers)[b] by {
        if b < before.len() {
            assert(sleeper_names(after.sleepers)[a] == sleeper_names(before)[a]);
            assert(sleeper_names(after.sleepers)[b] == sleeper_names(before)[b]);
        } else {
            assert(sleeper_names(after.sleepers)[a] == sleeper_names(before)[a]);
        }
    }
    lemma_position(sleeper_names(after.sleepers), sender);
    assert forall|i: int|
        0 <= i < after.sleepers.len() && (#[trigger] after.sleepers[i]).process == sender implies i
        == position(sleeper_names(after.sleepers), sender) by {
        assert(sleeper_names(after.sleepers)[i] == sender);
        lemma_position_unique(sleeper_names(after.sleepers), sender, i);
    }
}

/// `wait` is honoured: a process that asked at time `t` to sleep for `s`
/// milliseconds is not among those woken at any time before `t + s`.
///
/// The sum must be an instant that the clock can show; a longer sleep
/// ends at the largest instant.
pub proof fn lemma_wait_is_honoured(k: KernelView, sender: Seq<char>, millis: nat, now: nat)
    requires
        k.wf(),
        k.clock + millis <= u64::MAX,
        listed(sleeper_names(due(k.after_wait(sender, millis).sleepers, now)), sender),
    ensures
        k.clock + millis <= now,
{
    let sleepers = k.after_wait(sender, millis).sleepers;
    let woken = due(sleepers, now);
    lemma_wait_sets_the_wake_time(k, sender, millis);
    lemma_position(sleeper_names(woken), sender);
    let at = position(sleeper_names(woken), sender);
    assert(woken[at].process == sender);
    lemma_due_split(sleepers, now);
    lemma_due_members(sleepers, now, at);
    let i = choose|i: int| 0 <= i < sleepers.len() && #[trigger] sleepers[i] == woken[at];
    assert(sleeper_names(sleepers)[i] == sender);
    assert(crate::names::distinct(sleeper_names(sleepers))) by {
        let before = k.sleepers;
        lemma_position(sleeper_names(before), sender);
        let p = position(sleeper_names(before), sender);
        assert forall|a: int, b: int| 0 <= a < b < sleeper_names(sleepers).len() implies sleeper_names(
            sleepers,
        )[a] != sleeper_names(sleepers)[b] by {
            if p < before.len() {
                assert(sleeper_names(sleepers)[a] == sleeper_names(before)[a]);
                assert(sleeper_names(sleepers)[b] == sleeper_names(before)[b]);
            } else if b < before.len() {
                assert(sleeper_names(sleepers)[a] == sleeper_names(before)[a]);
                assert(sleeper_names(sleepers)[b] == sleeper_names(before)[b]);
            } else {
                assert(sleeper_names(sleepers)[a] == sleeper_names(before)[a]);
            }
        }
    }
    lemma_position_unique(sleeper_names(sleepers), sender, i);
}

/// Nobody is woken before their time: everybody woken at `k.clock` was
/// due by then.
pub proof fn lemma_woken_were_due(k: KernelView, i: int)
    requires
        0 <= i < due(k.sleepers, k.clock).len(),
    ensures
        due(k.sleepers, k.clock)[i].wake_time <= k.clock,
        k.after_wakeups().ready[k.ready.len() + i] == due(k.sleepers, k.clock)[i].process,
{
    lemma_due_split(k.sleepers, k.clock);
}

/// Whether nothing in `k` is overdue: no sleeper and no event lies
/// before the clock.
pub open spec fn timely(k: KernelView) -> bool {
    &&& k.clock <= u64::MAX
    &&& forall|i: int|
        0 <= i < k.sleepers.len() ==> k.clock <= (#[trigger] k.sleepers[i]).wake_time <= u64::MAX
    &&& forall|i: int| 0 <= i < k.events.len() ==> k.clock <= (#[trigger] k.events[i]).time@
    &&& in_firing_order(k.events)
}

/// A well-formed simulator has nothing overdue.
pub proof fn lemma_wf_is_timely(k: KernelView)
    requires
        k.wf(),
    ensures
        timely(k),
{
}

/// Time never runs backwards when it moves on, and never passes the
/// horizon.
pub proof fn lemma_advance_is_monotone(k: KernelView, horizon: nat)
    requires
        timely(k),
    ensures
        k.clock <= k.after_advance(horizon).clock,
        k.after_advance(horizon).clock <= k.clock || k.after_advance(horizon).clock <= horizon,
{
    crate::timed::lemma_earliest(k.sleepers);
}

/// Dispatching a message leaves nothing overdue.
pub proof fn lemma_message_keeps_timely(
    k: KernelView,
    sender: Seq<char>,
    message: MessageView,
    fate: Option<Seq<char>>,
)
    requires
        timely(k),
    ensures
        timely(k.after_delivery(sender, message, fate)),
{
    let after = k.after_delivery(sender, message, fate);
    match message {
        MessageView::Wait(millis) => {
            lemma_position(sleeper_names(k.sleepers), sender);
            let p = position(sleeper_names(k.sleepers), sender);
            assert forall|i: int| 0 <= i < after.sleepers.len() implies after.clock <= (
            #[trigger] after.sleepers[i]).wake_time <= u64::MAX by {
                if i != p {
                    assert(after.sleepers[i] == k.sleepers[i]);
                }
            }
        },
        _ => {},
    }
}

/// Dispatching any messages leaves nothing overdue.
pub proof fn lemma_dispatch_keeps_timely(
    k: KernelView,
    s: Seq<(String, ProcessMessage)>,
    fates: Seq<Option<Seq<char>>>,
)
    requires
        timely(k),
    ensures
        timely(dispatched(k, s, fates)),
    decreases s.len(),
{
    if s.len() > 0 {
        lemma_dispatch_keeps_timely(k, s.drop_last(), fates);
        let before = dispatched(k, s.drop_last(), fates);
        lemma_message_keeps_timely(before, s.last().0@, s.last().1@, fates[s.len() - 1]);
    }
}

/// The clock never runs backwards in a round of the scheduler, whatever
/// the scripts do, and never passes the horizon.
pub proof fn lemma_round_is_monotone(
    k: KernelView,
    resumed: Seq<ProcessView>,
    sent: Seq<(String, ProcessMessage)>,
    fates: Seq<Option<Seq<char>>>,
    horizon: nat,
)
    requires
        timely(k),
        horizon <= u64::MAX,
    ensures
        k.clock <= k.after_round(resumed, sent, fates, horizon).clock,
        k.after_round(resumed, sent, fates, horizon).clock <= k.clock || k.after_round(
            resumed,
            sent,
            fates,
            horizon,
        ).clock <= horizon,
        timely(k.after_round(resumed, sent, fates, horizon)),
{
    let woken = k.after_wakeups();
    lemma_due_split(k.sleepers, k.clock);
    assert(timely(woken)) by {
        assert forall|i: int| 0 <= i < woken.sleepers.len() implies woken.clock <= (
        #[trigger] woken.sleepers[i]).wake_time <= u64::MAX by {
            lemma_not_due_members(k.sleepers, k.clock, i);
        }
    }
    let drained = KernelView {
        processes: resumed,
        outbox: Seq::empty(),
        ready: Seq::empty(),
        ..woken
    };
    lemma_dispatch_keeps_timely(drained, sent, fates);
    lemma_dispatch_keeps_the_rest(drained, sent, fates);
    let cleared = k.before_advance(resumed, sent, fates);
    lemma_advance_is_monotone(cleared, horizon);
    lemma_advance_keeps_timely(cleared, horizon);
}

/// The clock never runs backwards across a run: after more rounds it
/// shows no earlier time than after fewer, whatever the scripts do.
pub proof fn lemma_run_is_monotone(k: KernelView, rounds: Seq<Round>, fewer: int, horizon: nat)
    requires
        timely(k),
        horizon <= u64::MAX,
        0 <= fewer <= rounds.len(),
    ensures
        k.clock <= k.after_rounds(rounds.take(fewer), horizon).clock <= k.after_rounds(
            rounds,
            horizon,
        ).clock,
        timely(k.after_rounds(rounds, horizon)),
    decreases rounds.len(),
{
    if rounds.len() == 0 {
        assert(rounds.take(fewer) =~= rounds);
    } else if fewer == rounds.len() {
        assert(rounds.take(fewer) =~= rounds);
        lemma_run_is_monotone(k, rounds.drop_last(), 0, horizon);
        let last = rounds.last();
        lemma_round_is_monotone(
            k.after_rounds(rounds.drop_last(), horizon),
            last.resumed,
            last.sent,
            last.fates,
            horizon,
        );
    } else {
        assert(rounds.drop_last().take(fewer) =~= rounds.take(fewer));
        lemma_run_is_monotone(k, rounds.drop_last(), fewer, horizon);
        let last = rounds.last();
        lemma_round_is_monotone(
            k.after_rounds(rounds.drop_last(), horizon),
            last.resumed,
            last.sent,
            last.fates,
            horizon,
        );
    }
}

/// Moving time on leaves nothing overdue.
pub proof fn lemma_advance_keeps_timely(k: KernelView, horizon: nat)
    requires
        timely(k),
        horizon <= u64::MAX,
    ensures
        timely(k.after_advance(horizon)),
{
    crate::timed::lemma_earliest(k.sleepers);
    let after = k.after_advance(horizon);
    match k.next_happening() {
        Some(t) => {
            if t <= horizon {
                lemma_due_split(k.sleepers, t);
                let n = due_count(t, k.events) as int;
                lemma_due_count(t, k.events);
                assert forall|i: int| 0 <= i < after.sleepers.len() implies after.clock <= (
                #[trigger] after.sleepers[i]).wake_time <= u64::MAX by {
                    lemma_not_due_members(k.sleepers, t, i);
                }
                assert forall|i: int| 0 <= i < after.events.len() implies after.clock <= (
                #[trigger] after.events[i]).time@ by {
                    assert(after.events[i] == k.events[i + n]);
                    if i + n > 0 {
                        assert(k.events[0].fires_before_spec(k.events[i + n]));
                    }
                }
                assert forall|i: int, j: int| 0 <= i < j < after.events.len() implies (
                #[trigger] after.events[i]).fires_before_spec(#[trigger] after.events[j]) by {
                    assert(after.events[i] == k.events[i + n]);
                    assert(after.events[j] == k.events[j + n]);
                }
            } else {
                assert forall|i: int| 0 <= i < k.events.len() implies horizon <= (
                #[trigger] k.events[i]).time@ by {
                    if i > 0 {
                        assert(k.events[0].fires_before_spec(k.events[i]));
                    }
                }
            }
        },
        None => {},
    }
}

/// `due_count` counts events of the queue.
pub proof fn lemma_due_count(clock: nat, s: Seq<Event>)
    ensures
        due_count(clock, s) <= s.len(),
    decreases s.len(),
{
    if s.len() > 0 && s[0].time@ == clock {
        lemma_due_count(clock, s.drop_first());
    }
}

/// The kernel adds nothing of its own to a run: the same state, the
/// same messages and the same fates of the spawns give the same state,
/// and with it the same record.
pub proof fn lemma_dispatch_is_a_function(
    k: KernelView,
    s1: Seq<(String, ProcessMessage)>,
    s2: Seq<(String, ProcessMessage)>,
    fates: Seq<Option<Seq<char>>>,
)
    requires
        s1.len() == s2.len(),
        forall|i: int| 0 <= i < s1.len() ==> s1[i].0@ == s2[i].0@ && s1[i].1@ == s2[i].1@,
    ensures
        dispatched(k, s1, fates) == dispatched(k, s2, fates),
        dispatched(k, s1, fates).trace == dispatched(k, s2, fates).trace,
    decreases s1.len(),
{
    if s1.len() > 0 {
        assert forall|i: int| 0 <= i < s1.drop_last().len() implies s1.drop_last()[i].0@
            == s2.drop_last()[i].0@ && s1.drop_last()[i].1@ == s2.drop_last()[i].1@ by {
            assert(s1.drop_last()[i] == s1[i]);
            assert(s2.drop_last()[i] == s2[i]);
        }
        lemma_dispatch_is_a_function(k, s1.drop_last(), s2.drop_last(), fates);
        assert(s1.last() == s1[s1.len() - 1]);
        assert(s2.last() == s2[s2.len() - 1]);
    }
}

/// A round of the scheduler adds nothing of its own either: from the same
/// state, with the processes left the same by their scripts, the same
/// messages sent and the same fates of the spawns, it ends in the same
/// state with the same record and the same verdict. So two runs whose
/// scripts behave alike are alike.
pub proof fn lemma_round_is_a_function(
    k: KernelView,
    resumed: Seq<ProcessView>,
    s1: Seq<(String, ProcessMessage)>,
    s2: Seq<(String, ProcessMessage)>,
    fates: Seq<Option<Seq<char>>>,
    horizon: nat,
)
    requires
        s1.len() == s2.len(),
        forall|i: int| 0 <= i < s1.len() ==> s1[i].0@ == s2[i].0@ && s1[i].1@ == s2[i].1@,
    ensures
        k.after_round(resumed, s1, fates, horizon) == k.after_round(resumed, s2, fates, horizon),
        k.after_round(resumed, s1, fates, horizon).trace == k.after_round(
            resumed,
            s2,
            fates,
            horizon,
        ).trace,
        k.round_outcome(resumed, s1, fates, horizon) == k.round_outcome(
            resumed,
            s2,
            fates,
            horizon,
        ),
{
    let drained = KernelView {
        processes: resumed,
        outbox: Seq::empty(),
        ready: Seq::empty(),
        ..k.after_wakeups()
    };
    lemma_dispatch_is_a_function(drained, s1, s2, fates);
}

/// Waking processes leaves their mirrors of the clock, their seeds and
/// their scripts alone: it changes states only.
pub proof fn lemma_waking_changes_states_only(s: Seq<ProcessView>, names: Seq<Seq<char>>)
    ensures
        resumed(s, names).len() == s.len(),
        forall|j: int|
            0 <= j < s.len() ==> (#[trigger] resumed(s, names)[j]) == (ProcessView {
                state: resumed(s, names)[j].state,
                ..s[j]
            }),
    decreases names.len(),
{
    if names.len() > 0 {
        lemma_waking_changes_states_only(s, names.drop_last());
        let before = resumed(s, names.drop_last());
        lemma_position(process_names(before), names.last());
    }
}

/// In every round, whatever the scripts do, every process that is
/// resumed reads the current time from its mirror: after the resuming,
/// each process shows the clock of the round, or has a stale mirror
/// because the interpreter refused the write.
pub proof fn lemma_resumed_show_the_clock(k: KernelView, round: Round, j: int)
    requires
        k.admits(round),
        0 <= j < round.resumed.len(),
    ensures
        round.resumed[j].mirror == Some(k.clock) || round.resumed[j].mirror is None,
{
    let start = k.mirroring(round.shown);
    let woken = start.after_wakeups();
    lemma_waking_changes_states_only(
        round.shown,
        sleeper_names(due(start.sleepers, start.clock)),
    );
    assert(woken.processes[j].mirror == round.shown[j].mirror);
    assert(round.shown[j] == k.processes[j].showing(Some(k.clock)) || round.shown[j]
        == k.processes[j].showing(None));
    let was = woken.processes[j];
    assert(round.resumed[j] == was || round.resumed[j] == (ProcessView {
        state: round.resumed[j].state,
        ..was
    }));
}

/// Whether two rounds got the same from the interpreter and the
/// scripts: the same processes after mirroring and after resuming, the
/// same messages from the same senders in the same order, and the same
/// fates of the spawns.
pub open spec fn alike(a: Round, b: Round) -> bool {
    &&& a.shown == b.shown
    &&& a.resumed == b.resumed
    &&& a.fates == b.fates
    &&& a.sent.len() == b.sent.len()
    &&& forall|i: int| 0 <= i < a.sent.len() ==> a.sent[i].0@ == b.sent[i].0@ && a.sent[i].1@
        == b.sent[i].1@
}

/// Two runs are the same if the interpreter and the scripts behave the
/// same: from the same state, towards the same horizon, with rounds that
/// are alike one by one, both runs end in the same state, with the same
/// record of times, processes and messages, and every round gives the
/// same verdict. Messages are applied in the order in which they were
/// sent, which is the order of the ready queue; nothing else enters.
pub proof fn lemma_run_is_a_function(
    k: KernelView,
    first: Seq<Round>,
    second: Seq<Round>,
    horizon: nat,
)
    requires
        first.len() == second.len(),
        forall|i: int| 0 <= i < first.len() ==> alike(#[trigger] first[i], second[i]),
    ensures
        k.after_rounds(first, horizon) == k.after_rounds(second, horizon),
        k.after_rounds(first, horizon).trace == k.after_rounds(second, horizon).trace,
        k.went_on(first, horizon) == k.went_on(second, horizon),
        first.len() > 0 ==> k.after_rounds(first.drop_last(), horizon).verdict(
            first.last(),
            horizon,
        ) == k.after_rounds(second.drop_last(), horizon).verdict(second.last(), horizon),
    decreases first.len(),
{
    if first.len() > 0 {
        assert forall|i: int| 0 <= i < first.drop_last().len() implies alike(
            #[trigger] first.drop_last()[i],
            second.drop_last()[i],
        ) by {
            assert(first.drop_last()[i] == first[i]);
            assert(second.drop_last()[i] == second[i]);
        }
        lemma_run_is_a_function(k, first.drop_last(), second.drop_last(), horizon);
        let a = first.last();
        let b = second.last();
        assert(a == first[first.len() - 1]);
        assert(b == second[second.len() - 1]);
        assert(alike(a, b));
        let before = k.after_rounds(first.drop_last(), horizon);
        lemma_round_is_a_function(
            before.mirroring(a.shown),
            a.resumed,
            a.sent,
            b.sent,
            a.fates,
            horizon,
        );
    }
}

/// Dispatching a message keeps every resource within its bounds: between
/// zero and its capacity of free units, and nobody waiting while a unit
/// is free.
pub proof fn lemma_message_keeps_bounds(
    k: KernelView,
    sender: Seq<char>,
    message: MessageView,
    fate: Option<Seq<char>>,
)
    requires
        all_wf(k.resources),
    ensures
        all_wf(k.after_delivery(sender, message, fate).resources),
        names_of(k.after_delivery(sender, message, fate).resources) == names_of(k.resources),
{
    let after = k.after_delivery(sender, message, fate).resources;
    match message {
        MessageView::Request(resource) => {
            lemma_position(names_of(k.resources), resource);
            assert(names_of(after) =~= names_of(k.resources));
        },
        MessageView::Release(resource) => {
            lemma_position(names_of(k.resources), resource);
            assert(names_of(after) =~= names_of(k.resources));
        },
        _ => {},
    }
}

/// Dispatching any messages keeps every resource within its bounds.
pub proof fn lemma_dispatch_keeps_bounds(
    k: KernelView,
    s: Seq<(String, ProcessMessage)>,
    fates: Seq<Option<Seq<char>>>,
)
    requires
        all_wf(k.resources),
    ensures
        all_wf(dispatched(k, s, fates).resources),
        names_of(dispatched(k, s, fates).resources) == names_of(k.resources),
    decreases s.len(),
{
    if s.len() > 0 {
        lemma_dispatch_keeps_bounds(k, s.drop_last(), fates);
        let before = dispatched(k, s.drop_last(), fates);
        lemma_message_keeps_bounds(before, s.last().0@, s.last().1@, fates[s.len() - 1]);
    }
}

/// At every moment of every run, whatever the scripts do, every resource
/// has between zero and its capacity of free units, and nobody waits for
/// it while a unit is free.
pub proof fn lemma_run_keeps_bounds(k: KernelView, rounds: Seq<Round>, horizon: nat)
    requires
        all_wf(k.resources),
    ensures
        all_wf(k.after_rounds(rounds, horizon).resources),
        forall|i: int|
            0 <= i < k.after_rounds(rounds, horizon).resources.len() ==> {
                let r = #[trigger] k.after_rounds(rounds, horizon).resources[i];
                &&& 0 <= r.available <= r.capacity
                &&& r.waiters.len() > 0 ==> r.available == 0
            },
    decreases rounds.len(),
{
    if rounds.len() > 0 {
        lemma_run_keeps_bounds(k, rounds.drop_last(), horizon);
        let before = k.after_rounds(rounds.drop_last(), horizon);
        let last = rounds.last();
        let drained = KernelView {
            processes: last.resumed,
            outbox: Seq::empty(),
            ready: Seq::empty(),
            ..before.after_wakeups()
        };
        lemma_dispatch_keeps_bounds(drained, last.sent, last.fates);
    }
    let after = k.after_rounds(rounds, horizon);
    assert forall|i: int| 0 <= i < after.resources.len() implies {
        let r = #[trigger] after.resources[i];
        &&& 0 <= r.available <= r.capacity
        &&& r.waiters.len() > 0 ==> r.available == 0
    } by {
        assert(after.resources[i].wf());
    }
}

} // verus!
