//! Events and the order in which they fire.

use super::time::SimTime;
use vstd::prelude::*;

verus! {

/// Urgency of an event among those due at the same instant.
#[derive(Debug, Clone, Copy, PartialEq, Eq, PartialOrd, Ord, Hash, Structural)]
pub enum Priority {
    High,
    Normal,
    Low,
}

impl Priority {
    /// Numeric rank: the lower the rank, the sooner the event fires.
    pub open spec fn rank_spec(self) -> nat {
        match self {
            Priority::High => 0,
            Priority::Normal => 1,
            Priority::Low => 2,
        }
    }

    /// Numeric rank: 0 for `High`, 1 for `Normal`, 2 for `Low`.
    pub fn rank(self) -> (r: u8)
        ensures
            r == self.rank_spec(),
    {
        match self {
            Priority::High => 0,
            Priority::Normal => 1,
            Priority::Low => 2,
        }
    }
}

/// A happening scheduled for a point in virtual time.
///
/// The `id` is handed out by the queue in increasing order and makes the
/// firing order total; whoever schedules an event keeps the id to know
/// what to do when the event comes back from the queue.
#[derive(Debug, Clone, Copy, PartialEq, Eq, Structural)]
pub struct Event {
    pub time: SimTime,
    pub priority: Priority,
    pub id: u64,
}

impl Event {
    /// Whether `self` fires strictly before `other`: earlier time first,
    /// then lower priority rank, then lower id.
    pub open spec fn fires_before_spec(self, other: Event) -> bool {
        ||| self.time@ < other.time@
        ||| (self.time@ == other.time@ && self.priority.rank_spec() < other.priority.rank_spec())
        ||| (self.time@ == other.time@ && self.priority.rank_spec() == other.priority.rank_spec()
            && self.id < other.id)
    }

    pub fn new(time: SimTime, priority: Priority, id: u64) -> (e: Event)
        ensures
            e.time == time,
            e.priority == priority,
            e.id == id,
    {
        Event { time, priority, id }
    }

    /// Whether `self` fires strictly before `other`.
    pub fn fires_before(&self, other: &Event) -> (b: bool)
        ensures
            b == self.fires_before_spec(*other),
    {
        let t1: u64 = self.time.as_millis();
        let t2: u64 = other.time.as_millis();
        if t1 != t2 {
            return t1 < t2;
        }
        let r1: u8 = self.priority.rank();
        let r2: u8 = other.priority.rank();
        if r1 != r2 {
            return r1 < r2;
        }
        self.id < other.id
    }
}

/// No event fires before itself.
pub proof fn lemma_fires_before_irreflexive(a: Event)
    ensures
        !a.fires_before_spec(a),
{
}

/// Firing order is transitive.
pub proof fn lemma_fires_before_transitive(a: Event, b: Event, c: Event)
    requires
        a.fires_before_spec(b),
        b.fires_before_spec(c),
    ensures
        a.fires_before_spec(c),
{
}

/// Of two events with different ids exactly one fires before the other.
pub proof fn lemma_fires_before_total(a: Event, b: Event)
    requires
        a.id != b.id,
    ensures
        a.fires_before_spec(b) != b.fires_before_spec(a),
{
}

/// An event with a later-issued id and a time not before another's never
/// overtakes it unless its priority is strictly more urgent.
pub proof fn lemma_later_id_keeps_place(a: Event, b: Event)
    requires
        a.id < b.id,
        a.time@ <= b.time@,
        a.priority.rank_spec() <= b.priority.rank_spec(),
    ensures
        a.fires_before_spec(b),
{
}

} // verus!
