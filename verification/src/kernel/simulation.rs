//! The clock and the queue of pending events.

use super::event::{lemma_fires_before_total, lemma_fires_before_transitive, Event, Priority};
use super::time::{clamped_sum, Duration, SimTime};
use crate::error::SimError;
use std::collections::VecDeque;
use vstd::prelude::*;

verus! {

/// Whether the events of `s` stand in strict firing order.
pub open spec fn in_firing_order(s: Seq<Event>) -> bool {
    forall|i: int, j: int|
        0 <= i < j < s.len() ==> (#[trigger] s[i]).fires_before_spec(#[trigger] s[j])
}

/// The place at which `e` enters a queue `s` that is in firing order:
/// behind every event that fires before it.
pub open spec fn slot_for(s: Seq<Event>, e: Event) -> int
    decreases s.len(),
{
    if s.len() > 0 && s[0].fires_before_spec(e) {
        1 + slot_for(s.drop_first(), e)
    } else {
        0
    }
}

/// The event that `schedule_at` builds from its arguments and a fresh id.
pub open spec fn scheduled(time: SimTime, priority: Priority, id: u64) -> Event {
    Event { time, priority, id }
}

/// How many events `run_until` fires: it takes the head of the queue for
/// as long as the clock, which each fired event moves to its own time, is
/// still short of `end`.
pub open spec fn fired_count(clock: nat, s: Seq<Event>, end: nat) -> nat
    decreases s.len(),
{
    if clock < end && s.len() > 0 {
        1 + fired_count(s[0].time@, s.drop_first(), end)
    } else {
        0
    }
}

/// How many events at the head of `s` are due exactly at `clock`.
pub open spec fn due_count(clock: nat, s: Seq<Event>) -> nat
    decreases s.len(),
{
    if s.len() > 0 && s[0].time@ == clock {
        1 + due_count(clock, s.drop_first())
    } else {
        0
    }
}

/// `slot_for` is the first place whose event does not fire before `e`.
pub proof fn lemma_slot_for_is_first_gap(s: Seq<Event>, e: Event, i: int)
    requires
        0 <= i <= s.len(),
        forall|j: int| 0 <= j < i ==> (#[trigger] s[j]).fires_before_spec(e),
        i == s.len() || !s[i].fires_before_spec(e),
    ensures
        slot_for(s, e) == i,
    decreases i,
{
    if i > 0 {
        let rest = s.drop_first();
        assert forall|j: int| 0 <= j < i - 1 implies (#[trigger] rest[j]).fires_before_spec(e) by {
            assert(rest[j] == s[j + 1]);
        }
        if i < s.len() {
            assert(rest[i - 1] == s[i]);
        }
        lemma_slot_for_is_first_gap(rest, e, i - 1);
    }
}

/// Putting an event with a fresh id into its slot keeps the firing order.
pub proof fn lemma_insert_keeps_order(s: Seq<Event>, e: Event)
    requires
        in_firing_order(s),
        forall|j: int| 0 <= j < s.len() ==> (#[trigger] s[j]).id != e.id,
    ensures
        0 <= slot_for(s, e) <= s.len(),
        in_firing_order(s.insert(slot_for(s, e), e)),
        forall|j: int| 0 <= j < slot_for(s, e) ==> (#[trigger] s[j]).fires_before_spec(e),
        forall|j: int| slot_for(s, e) <= j < s.len() ==> e.fires_before_spec(#[trigger] s[j]),
{
    lemma_slot_for_bounds(s, e);
    let k = slot_for(s, e);
    assert forall|j: int| k <= j < s.len() implies e.fires_before_spec(#[trigger] s[j]) by {
        lemma_fires_before_total(s[k], e);
        if j > k {
            lemma_fires_before_transitive(e, s[k], s[j]);
        }
    }
    let t = s.insert(k, e);
    assert forall|i: int, j: int| 0 <= i < j < t.len() implies (#[trigger] t[i]).fires_before_spec(
        #[trigger] t[j],
    ) by {
        if j < k {
            assert(t[i] == s[i] && t[j] == s[j]);
        } else if j == k {
            assert(t[i] == s[i]);
        } else if i < k {
            assert(t[i] == s[i] && t[j] == s[j - 1]);
            lemma_fires_before_transitive(s[i], e, s[j - 1]);
        } else if i == k {
            assert(t[j] == s[j - 1]);
        } else {
            assert(t[i] == s[i - 1] && t[j] == s[j - 1]);
        }
    }
}

/// `slot_for` lies within the queue, every earlier place fires before `e`,
/// and the event at the slot, if any, does not.
pub proof fn lemma_slot_for_bounds(s: Seq<Event>, e: Event)
    ensures
        0 <= slot_for(s, e) <= s.len(),
        forall|j: int| 0 <= j < slot_for(s, e) ==> (#[trigger] s[j]).fires_before_spec(e),
        slot_for(s, e) < s.len() ==> !s[slot_for(s, e)].fires_before_spec(e),
    decreases s.len(),
{
    if s.len() > 0 && s[0].fires_before_spec(e) {
        let rest = s.drop_first();
        lemma_slot_for_bounds(rest, e);
        let k = slot_for(rest, e);
        assert forall|j: int| 0 <= j < k + 1 implies (#[trigger] s[j]).fires_before_spec(e) by {
            if j > 0 {
                assert(s[j] == rest[j - 1]);
            }
        }
        if k + 1 < s.len() {
            assert(s[k + 1] == rest[k]);
        }
    }
}

/// The clock and the queue as contracts see them.
pub struct QueueView {
    pub clock: nat,
    /// The pending events, the next to fire first.
    pub pending: Seq<Event>,
    /// The id that the next scheduled event will get.
    pub next_id: nat,
}

impl QueueView {
    /// The queue is in firing order, nothing pending lies in the past,
    /// and every pending id has been handed out already.
    pub open spec fn wf(self) -> bool {
        &&& in_firing_order(self.pending)
        &&& forall|i: int| 0 <= i < self.pending.len() ==> self.clock <= (#[trigger] self.pending[i]).time@
        &&& forall|i: int| 0 <= i < self.pending.len() ==> (#[trigger] self.pending[i]).id < self.next_id
        &&& self.next_id <= u64::MAX
    }

    /// The queue as it starts out: time zero, nothing pending, no id
    /// handed out.
    pub open spec fn initial() -> QueueView {
        QueueView { clock: 0, pending: Seq::empty(), next_id: 0 }
    }

    /// After `schedule_at`: unchanged when the time lies in the past or
    /// the ids have run out.
    pub open spec fn after_schedule(self, time: SimTime, priority: Priority) -> QueueView {
        if self.clock <= time@ && self.next_id < u64::MAX {
            let e = scheduled(time, priority, self.next_id as u64);
            QueueView {
                pending: self.pending.insert(slot_for(self.pending, e), e),
                next_id: self.next_id + 1,
                ..self
            }
        } else {
            self
        }
    }

    /// After `process_next_event`: unchanged when nothing is pending.
    pub open spec fn after_fire(self) -> QueueView {
        if self.pending.len() > 0 {
            QueueView {
                clock: self.pending[0].time@,
                pending: self.pending.drop_first(),
                ..self
            }
        } else {
            self
        }
    }

    /// After `set_time`: unchanged when the time lies in the past or
    /// beyond the first pending event.
    pub open spec fn after_advance(self, time: SimTime) -> QueueView {
        if self.clock <= time@ && (self.pending.len() > 0 ==> time@ <= self.pending[0].time@) {
            QueueView { clock: time@, ..self }
        } else {
            self
        }
    }

    /// After `clear_events`.
    pub open spec fn after_clear(self) -> QueueView {
        QueueView { pending: Seq::empty(), ..self }
    }

    /// After `run_until`: the events that fired are gone and the clock
    /// stands at the time of the last of them.
    pub open spec fn after_run(self, end: nat) -> QueueView {
        let k = fired_count(self.clock, self.pending, end) as int;
        QueueView {
            clock: if k == 0 {
                self.clock
            } else {
                self.pending[k - 1].time@
            },
            pending: self.pending.skip(k),
            ..self
        }
    }

    /// After `take_due`: the events due now are gone.
    pub open spec fn after_taking_due(self) -> QueueView {
        QueueView { pending: self.pending.skip(due_count(self.clock, self.pending) as int), ..self }
    }
}

/// The clock and the queue of pending events.
///
/// The queue is kept in firing order, so the next event to fire is taken
/// from its front; a new event is put in its place by a scan from the
/// front. The clock only moves forward, and never past the earliest
/// pending event.
pub struct Simulation {
    current_time: SimTime,
    event_queue: VecDeque<Event>,
    event_counter: u64,
}

impl View for Simulation {
    type V = QueueView;

    closed spec fn view(&self) -> QueueView {
        QueueView {
            clock: self.current_time@,
            pending: self.event_queue@,
            next_id: self.event_counter as nat,
        }
    }
}

impl Simulation {
    /// The queue is in firing order, nothing pending lies in the past, and
    /// every pending id has been handed out already.
    pub open spec fn wf(&self) -> bool {
        self@.wf()
    }

    /// A simulation at time zero with nothing scheduled.
    pub fn new() -> (sim: Simulation)
        ensures
            sim.wf(),
            sim@ == QueueView::initial(),
    {
        Simulation {
            current_time: SimTime::zero(),
            event_queue: VecDeque::new(),
            event_counter: 0,
        }
    }

    /// The current virtual time.
    pub fn now(&self) -> (t: SimTime)
        ensures
            t@ == self@.clock,
    {
        self.current_time
    }

    /// Whether any event is pending.
    pub fn has_events(&self) -> (b: bool)
        ensures
            b == (self@.pending.len() > 0),
    {
        self.event_queue.len() > 0
    }

    /// The time of the next event to fire, if any.
    pub fn next_event_time(&self) -> (t: Option<SimTime>)
        ensures
            match t {
                Some(at) => self@.pending.len() > 0 && at == self@.pending[0].time,
                None => self@.pending.len() == 0,
            },
    {
        if self.event_queue.len() > 0 {
            Some(self.event_queue[0].time)
        } else {
            None
        }
    }

    /// Drops every pending event; the clock and the id counter stay.
    pub fn clear_events(&mut self)
        ensures
            final(self)@ == old(self)@.after_clear(),
            old(self).wf() ==> final(self).wf(),
    {
        self.event_queue.clear();
    }

    /// Moves the clock forward to `time`.
    ///
    /// Fails, changing nothing, when `time` lies before the current time or
    /// after the earliest pending event: either would make time run
    /// backwards, now or when that event fires.
    pub fn set_time(&mut self, time: SimTime) -> (r: Result<(), SimError>)
        requires
            old(self).wf(),
        ensures
            final(self).wf(),
            final(self)@ == old(self)@.after_advance(time),
            r is Ok <==> old(self)@.clock <= time@ && (old(self)@.pending.len() > 0 ==> time@
                <= old(self)@.pending[0].time@),
            r matches Err(e) ==> e is SimulationError,
    {
        if time.as_millis() < self.current_time.as_millis() {
            return Err(SimError::SimulationError(String::from_str("time cannot run backwards")));
        }
        if self.event_queue.len() > 0 && self.event_queue[0].time.as_millis() < time.as_millis() {
            return Err(
                SimError::SimulationError(String::from_str("an earlier event is still pending")),
            );
        }
        proof {
            let s = self@.pending;
            assert forall|i: int| 0 <= i < s.len() implies time@ <= (#[trigger] s[i]).time@ by {
                if i > 0 {
                    assert(s[0].fires_before_spec(s[i]));
                }
            }
        }
        self.current_time = time;
        Ok(())
    }

    /// Schedules an event at `time` and returns the id it was given.
    ///
    /// Fails, changing nothing, when `time` lies in the past or the ids
    /// have run out. Otherwise the event enters the queue behind every
    /// event that fires before it.
    pub fn schedule_at(&mut self, time: SimTime, priority: Priority) -> (r: Result<u64, SimError>)
        requires
            old(self).wf(),
        ensures
            final(self).wf(),
            final(self)@ == old(self)@.after_schedule(time, priority),
            r is Ok <==> old(self)@.clock <= time@ && old(self)@.next_id < u64::MAX,
            match r {
                Ok(id) => id == old(self)@.next_id,
                Err(e) => e is SimulationError,
            },
    {
        if time.as_millis() < self.current_time.as_millis() {
            return Err(
                SimError::SimulationError(String::from_str("cannot schedule an event in the past")),
            );
        }
        if self.event_counter == u64::MAX {
            return Err(SimError::SimulationError(String::from_str("event ids are exhausted")));
        }
        let id: u64 = self.event_counter;
        let event = Event::new(time, priority, id);
        let mut i: usize = 0;
        while i < self.event_queue.len() && self.event_queue[i].fires_before(&event)
            invariant
                i <= self.event_queue.len(),
                forall|j: int| 0 <= j < i ==> (#[trigger] self.event_queue@[j]).fires_before_spec(event),
            decreases self.event_queue.len() - i,
        {
            i += 1;
        }
        proof {
            let s = self@.pending;
            assert(event == scheduled(time, priority, id));
            lemma_slot_for_is_first_gap(s, event, i as int);
            lemma_insert_keeps_order(s, event);
        }
        self.event_queue.insert(i, event);
        self.event_counter = id + 1;
        Ok(id)
    }

    /// Schedules an event `delay` after the current time and returns its id.
    ///
    /// A sum beyond the largest instant stops there. Fails only when the
    /// ids have run out.
    pub fn schedule_after(&mut self, delay: Duration, priority: Priority) -> (r: Result<
        u64,
        SimError,
    >)
        requires
            old(self).wf(),
        ensures
            final(self).wf(),
            final(self)@ == old(self)@.after_schedule(
                SimTime::at(clamped_sum(old(self)@.clock, delay@) as u64),
                priority,
            ),
            r is Ok <==> old(self)@.next_id < u64::MAX,
            match r {
                Ok(id) => id == old(self)@.next_id,
                Err(e) => e is SimulationError,
            },
    {
        proof {
            SimTime::lemma_view_bounded(self.current_time);
        }
        let at = self.current_time.saturating_add(SimTime::from_millis(delay.as_millis()));
        self.schedule_at(at, priority)
    }

    /// Takes the next event off the queue and moves the clock to its time.
    ///
    /// The event is handed to the caller, once, to be acted on. Fails,
    /// changing nothing, when the queue is empty.
    pub fn process_next_event(&mut self) -> (r: Result<Event, SimError>)
        requires
            old(self).wf(),
        ensures
            final(self).wf(),
            final(self)@ == old(self)@.after_fire(),
            r is Ok <==> old(self)@.pending.len() > 0,
            match r {
                Ok(event) => {
                    &&& event == old(self)@.pending[0]
                    &&& old(self)@.clock <= event.time@
                    &&& forall|i: int|
                        0 <= i < final(self)@.pending.len() ==> event.fires_before_spec(
                            #[trigger] final(self)@.pending[i],
                        )
                },
                Err(e) => e is SimulationError,
            },
    {
        let ghost before = self@.pending;
        let event = match self.event_queue.pop_front() {
            Some(event) => event,
            None => {
                return Err(SimError::SimulationError(String::from_str("no events in the queue")));
            },
        };
        self.current_time = event.time;
        proof {
            assert(self@.pending =~= before.drop_first());
            assert forall|i: int| 0 <= i < self@.pending.len() implies event.fires_before_spec(
                #[trigger] self@.pending[i],
            ) by {
                assert(self@.pending[i] == before[i + 1]);
                assert(before[0].fires_before_spec(before[i + 1]));
            }
            assert forall|i: int, j: int| 0 <= i < j < self@.pending.len() implies (
            #[trigger] self@.pending[i]).fires_before_spec(#[trigger] self@.pending[j]) by {
                assert(self@.pending[i] == before[i + 1]);
                assert(self@.pending[j] == before[j + 1]);
            }
            assert forall|i: int| 0 <= i < self@.pending.len() implies (
            #[trigger] self@.pending[i]).id < self@.next_id by {
                assert(self@.pending[i] == before[i + 1]);
            }
        }
        Ok(event)
    }

    /// Fires events for as long as the clock is short of `end_time` and
    /// the queue is not empty, and returns them in the order they fired,
    /// which is firing order. Never fails.
    ///
    /// The clock is tested, not the time of the next event, so the last
    /// event fired may lie at or beyond `end_time`.
    pub fn run_until(&mut self, end_time: SimTime) -> (r: Result<Vec<Event>, SimError>)
        requires
            old(self).wf(),
        ensures
            final(self).wf(),
            final(self)@ == old(self)@.after_run(end_time@),
            old(self)@.clock <= final(self)@.clock,
            match r {
                Ok(fired) => {
                    &&& fired@ == old(self)@.pending.take(
                        fired_count(old(self)@.clock, old(self)@.pending, end_time@) as int,
                    )
                    &&& fired.len() <= old(self)@.pending.len()
                    &&& in_firing_order(fired@)
                },
                Err(_) => false,
            },
    {
        let mut fired: Vec<Event> = Vec::new();
        let ghost start = *self;
        let ghost total = fired_count(start@.clock, start@.pending, end_time@) as int;
        while self.current_time.as_millis() < end_time.as_millis() && self.event_queue.len() > 0
            invariant
                self.wf(),
                start.wf(),
                self@.next_id == start@.next_id,
                start@.clock <= self@.clock,
                total == fired_count(start@.clock, start@.pending, end_time@),
                fired.len() <= start@.pending.len(),
                fired@ == start@.pending.take(fired.len() as int),
                self@.pending == start@.pending.skip(fired.len() as int),
                self@.clock == if fired.len() == 0 {
                    start@.clock
                } else {
                    start@.pending[fired.len() - 1].time@
                },
                total == fired.len() + fired_count(self@.clock, self@.pending, end_time@),
            decreases self.event_queue.len(),
        {
            let ghost n = fired.len() as int;
            let ghost before = self@.pending;
            let event = self.event_queue[0];
            let _ = self.event_queue.pop_front();
            self.current_time = event.time;
            fired.push(event);
            proof {
                assert(event == start@.pending[n]);
                assert(self@.pending =~= before.drop_first());
                assert(self@.pending =~= start@.pending.skip(n + 1));
                assert(fired@ =~= start@.pending.take(n + 1));
                assert forall|i: int, j: int| 0 <= i < j < self@.pending.len() implies (
                #[trigger] self@.pending[i]).fires_before_spec(#[trigger] self@.pending[j]) by {
                    assert(self@.pending[i] == before[i + 1]);
                    assert(self@.pending[j] == before[j + 1]);
                }
                assert forall|i: int| 0 <= i < self@.pending.len() implies self@.clock <= (
                #[trigger] self@.pending[i]).time@ by {
                    assert(self@.pending[i] == before[i + 1]);
                    assert(before[0].fires_before_spec(before[i + 1]));
                }
                assert forall|i: int| 0 <= i < self@.pending.len() implies (
                #[trigger] self@.pending[i]).id < self@.next_id by {
                    assert(self@.pending[i] == before[i + 1]);
                }
                assert(start@.clock <= before[0].time@);
            }
        }
        proof {
            assert forall|i: int, j: int| 0 <= i < j < fired@.len() implies (
            #[trigger] fired@[i]).fires_before_spec(#[trigger] fired@[j]) by {
                assert(fired@[i] == start@.pending[i]);
                assert(fired@[j] == start@.pending[j]);
            }
        }
        Ok(fired)
    }

    /// Runs as `run_until` does, up to `duration` after the current time.
    pub fn run_for(&mut self, duration: Duration) -> (r: Result<Vec<Event>, SimError>)
        requires
            old(self).wf(),
        ensures
            final(self).wf(),
            final(self)@ == old(self)@.after_run(clamped_sum(old(self)@.clock, duration@)),
            old(self)@.clock <= final(self)@.clock,
            match r {
                Ok(fired) => {
                    &&& fired@ == old(self)@.pending.take(
                        fired_count(
                            old(self)@.clock,
                            old(self)@.pending,
                            clamped_sum(old(self)@.clock, duration@),
                        ) as int,
                    )
                    &&& fired.len() <= old(self)@.pending.len()
                    &&& in_firing_order(fired@)
                },
                Err(_) => false,
            },
    {
        let end = self.current_time.saturating_add(SimTime::from_millis(duration.as_millis()));
        self.run_until(end)
    }

    /// Takes off the queue every event that is due exactly now, in firing
    /// order. The clock stays.
    pub fn take_due(&mut self) -> (due: Vec<Event>)
        requires
            old(self).wf(),
        ensures
            final(self).wf(),
            final(self)@ == old(self)@.after_taking_due(),
            due@ == old(self)@.pending.take(due_count(old(self)@.clock, old(self)@.pending) as int),
            due.len() <= old(self)@.pending.len(),
            forall|i: int| 0 <= i < due.len() ==> (#[trigger] due[i]).time@ == old(self)@.clock,
            forall|i: int|
                0 <= i < final(self)@.pending.len() ==> (#[trigger] final(self)@.pending[i]).time@
                    > old(self)@.clock,
    {
        let mut due: Vec<Event> = Vec::new();
        let ghost start = *self;
        let ghost total = due_count(start@.clock, start@.pending) as int;
        while self.event_queue.len() > 0 && self.event_queue[0].time.as_millis()
            == self.current_time.as_millis()
            invariant
                self.wf(),
                start.wf(),
                self@.next_id == start@.next_id,
                self@.clock == start@.clock,
                total == due_count(start@.clock, start@.pending),
                due.len() <= start@.pending.len(),
                due@ == start@.pending.take(due.len() as int),
                self@.pending == start@.pending.skip(due.len() as int),
                total == due.len() + due_count(self@.clock, self@.pending),
                forall|i: int| 0 <= i < due.len() ==> (#[trigger] due[i]).time@ == start@.clock,
            decreases self.event_queue.len(),
        {
            let ghost n = due.len() as int;
            let ghost before = self@.pending;
            let event = self.event_queue[0];
            let _ = self.event_queue.pop_front();
            due.push(event);
            proof {
                assert(event == start@.pending[n]);
                assert(self@.pending =~= before.drop_first());
                assert(self@.pending =~= start@.pending.skip(n + 1));
                assert(due@ =~= start@.pending.take(n + 1));
                assert forall|i: int, j: int| 0 <= i < j < self@.pending.len() implies (
                #[trigger] self@.pending[i]).fires_before_spec(#[trigger] self@.pending[j]) by {
                    assert(self@.pending[i] == before[i + 1]);
                    assert(self@.pending[j] == before[j + 1]);
                }
                assert forall|i: int| 0 <= i < self@.pending.len() implies self@.clock <= (
                #[trigger] self@.pending[i]).time@ by {
                    assert(self@.pending[i] == before[i + 1]);
                }
                assert forall|i: int| 0 <= i < self@.pending.len() implies (
                #[trigger] self@.pending[i]).id < self@.next_id by {
                    assert(self@.pending[i] == before[i + 1]);
                }
            }
        }
        proof {
            let s = self@.pending;
            assert forall|i: int| 0 <= i < s.len() implies (#[trigger] s[i]).time@ > start@.clock by {
                if i > 0 {
                    assert(s[0].fires_before_spec(s[i]));
                }
            }
        }
        due
    }
}

impl Default for Simulation {
    fn default() -> (sim: Simulation)
        ensures
            sim.wf(),
            sim@ == QueueView::initial(),
    {
        Simulation::new()
    }
}

} // verus!
