//! What holds of the clock and the event queue over any sequence of
//! operations.

use super::event::{Event, Priority};
use super::simulation::{lemma_insert_keeps_order, scheduled, slot_for, QueueView};
use super::time::SimTime;
use vstd::prelude::*;

verus! {

/// One operation on the clock and the event queue.
pub enum QueueOp {
    /// `schedule_at` with this time and priority.
    Schedule { time: SimTime, priority: Priority },
    /// `process_next_event`.
    Fire,
    /// `set_time` with this time.
    Advance { time: SimTime },
    /// `clear_events`.
    Clear,
}

/// An event that was fired, with the number of ids that had been handed
/// out by then: every event with a lower id was scheduled before.
pub struct Firing {
    pub event: Event,
    pub issued: nat,
}

/// The clock and the queue after a sequence of operations, with the
/// events that were fired on the way, the first fired first.
pub struct QueueHistory {
    pub state: QueueView,
    pub fired: Seq<Firing>,
}

/// The history of `start` under `ops`, applied first to last. An
/// operation that fails changes nothing.
pub open spec fn replay(start: QueueView, ops: Seq<QueueOp>) -> QueueHistory
    decreases ops.len(),
{
    if ops.len() == 0 {
        QueueHistory { state: start, fired: Seq::empty() }
    } else {
        let h = replay(start, ops.drop_last());
        match ops.last() {
            QueueOp::Schedule { time, priority } => QueueHistory {
                state: h.state.after_schedule(time, priority),
                ..h
            },
            QueueOp::Fire => if h.state.pending.len() > 0 {
                QueueHistory {
                    state: h.state.after_fire(),
                    fired: h.fired.push(
                        Firing { event: h.state.pending[0], issued: h.state.next_id },
                    ),
                }
            } else {
                h
            },
            QueueOp::Advance { time } => QueueHistory { state: h.state.after_advance(time), ..h },
            QueueOp::Clear => QueueHistory { state: h.state.after_clear(), ..h },
        }
    }
}

/// Whether `later` was fired behind `firing` rightly: it has no earlier
/// time, and if it was scheduled before `firing` was fired, `firing`
/// comes before it in firing order.
pub open spec fn rightly_behind(firing: Firing, later: Event) -> bool {
    &&& firing.event.time@ <= later.time@
    &&& later.id < firing.issued ==> firing.event.fires_before_spec(later)
}

/// What the proofs below carry from one operation to the next.
spec fn orderly(h: QueueHistory) -> bool {
    &&& h.state.wf()
    &&& forall|i: int|
        0 <= i < h.fired.len() ==> {
            &&& (#[trigger] h.fired[i]).event.time@ <= h.state.clock
            &&& h.fired[i].issued <= h.state.next_id
            &&& h.fired[i].event.id < h.fired[i].issued
        }
    &&& forall|i: int, j: int|
        0 <= i < h.fired.len() && 0 <= j < h.state.pending.len() ==> rightly_behind(
            #[trigger] h.fired[i],
            #[trigger] h.state.pending[j],
        )
    &&& forall|i: int, j: int|
        0 <= i < j < h.fired.len() ==> rightly_behind(
            #[trigger] h.fired[i],
            (#[trigger] h.fired[j]).event,
        )
}

proof fn lemma_replay_orderly(start: QueueView, ops: Seq<QueueOp>)
    requires
        start.wf(),
    ensures
        orderly(replay(start, ops)),
        start.clock <= replay(start, ops).state.clock,
    decreases ops.len(),
{
    if ops.len() > 0 {
        lemma_replay_orderly(start, ops.drop_last());
        let h = replay(start, ops.drop_last());
        let g = replay(start, ops);
        let n = h.fired.len() as int;
        match ops.last() {
            QueueOp::Schedule { time, priority } => {
                if h.state.clock <= time@ && h.state.next_id < u64::MAX {
                    let e = scheduled(time, priority, h.state.next_id as u64);
                    let k = slot_for(h.state.pending, e);
                    lemma_insert_keeps_order(h.state.pending, e);
                    assert forall|j: int| 0 <= j < g.state.pending.len() implies {
                        let p = #[trigger] g.state.pending[j];
                        &&& g.state.clock <= p.time@
                        &&& p.id < g.state.next_id
                        &&& forall|i: int| 0 <= i < n ==> rightly_behind(#[trigger] h.fired[i], p)
                    } by {
                        if j < k {
                            assert(g.state.pending[j] == h.state.pending[j]);
                        } else if j > k {
                            assert(g.state.pending[j] == h.state.pending[j - 1]);
                        }
                    }
                }
            },
            QueueOp::Fire => {
                if h.state.pending.len() > 0 {
                    let head = h.state.pending[0];
                    assert forall|j: int| 0 <= j < g.state.pending.len() implies {
                        let p = #[trigger] g.state.pending[j];
                        &&& p == h.state.pending[j + 1]
                        &&& head.fires_before_spec(p)
                        &&& forall|i: int| 0 <= i < n ==> rightly_behind(#[trigger] h.fired[i], p)
                    } by {
                        assert(g.state.pending[j] == h.state.pending[j + 1]);
                    }
                    assert forall|i: int| 0 <= i < g.fired.len() implies {
                        let f = #[trigger] g.fired[i];
                        &&& f.event.time@ <= g.state.clock
                        &&& f.issued <= g.state.next_id
                        &&& f.event.id < f.issued
                        &&& i < n ==> f == h.fired[i] && rightly_behind(f, head)
                        &&& i == n ==> f.event == head
                    } by {}
                    assert forall|i: int, j: int|
                        0 <= i < g.state.pending.len() && i < j < g.state.pending.len() implies (
                    #[trigger] g.state.pending[i]).fires_before_spec(
                        #[trigger] g.state.pending[j],
                    ) by {
                        assert(g.state.pending[i] == h.state.pending[i + 1]);
                        assert(g.state.pending[j] == h.state.pending[j + 1]);
                    }
                }
            },
            QueueOp::Advance { time } => {
                if h.state.clock <= time@ && (h.state.pending.len() > 0 ==> time@
                    <= h.state.pending[0].time@) {
                    assert forall|j: int| 0 <= j < g.state.pending.len() implies g.state.clock <= (
                    #[trigger] g.state.pending[j]).time@ by {
                        if j > 0 {
                            assert(h.state.pending[0].fires_before_spec(h.state.pending[j]));
                        }
                    }
                }
            },
            QueueOp::Clear => {},
        }
    }
}

/// The clock never runs backwards: after more operations it shows no
/// earlier time than after fewer.
pub proof fn lemma_clock_is_monotone(start: QueueView, ops: Seq<QueueOp>, fewer: int)
    requires
        start.wf(),
        0 <= fewer <= ops.len(),
    ensures
        start.clock <= replay(start, ops.take(fewer)).state.clock <= replay(start, ops).state.clock,
    decreases ops.len() - fewer,
{
    lemma_replay_orderly(start, ops.take(fewer));
    if fewer == ops.len() {
        assert(ops.take(fewer) =~= ops);
    } else {
        lemma_clock_is_monotone(start, ops, fewer + 1);
        let longer = ops.take(fewer + 1);
        assert(longer.drop_last() =~= ops.take(fewer));
        lemma_replay_orderly(start, longer.drop_last());
        let h = replay(start, longer.drop_last());
        if h.state.pending.len() > 0 {
            assert(h.state.clock <= h.state.pending[0].time@);
        }
    }
}

/// The queue stays well formed under any sequence of operations.
pub proof fn lemma_queue_stays_well_formed(start: QueueView, ops: Seq<QueueOp>)
    requires
        start.wf(),
    ensures
        replay(start, ops).state.wf(),
{
    lemma_replay_orderly(start, ops);
}

/// Of two fired events the one fired first has no later time. If the
/// second was already scheduled when the first was fired, the first
/// comes before it in firing order: it has the earlier time, or the same
/// time and the more urgent priority, or the same time and priority and
/// the lower id.
pub proof fn lemma_firing_order(start: QueueView, ops: Seq<QueueOp>, first: int, second: int)
    requires
        start.wf(),
        0 <= first < second < replay(start, ops).fired.len(),
    ensures
        ({
            let e1 = replay(start, ops).fired[first];
            let e2 = replay(start, ops).fired[second].event;
            &&& rightly_behind(e1, e2)
            &&& e2.id < e1.issued ==> {
                &&& e1.event.time@ < e2.time@ || (e1.event.time@ == e2.time@
                    && e1.event.priority.rank_spec() <= e2.priority.rank_spec())
                &&& e1.event.time@ == e2.time@ && e1.event.priority == e2.priority
                    ==> e1.event.id < e2.id
            }
        }),
{
    lemma_replay_orderly(start, ops);
}

/// With nothing scheduled in between, events fire in firing order: if
/// every operation is a `Fire`, each fired event comes before every
/// event fired after it.
pub proof fn lemma_uninterrupted_firing(start: QueueView, ops: Seq<QueueOp>, first: int, second: int)
    requires
        start.wf(),
        forall|i: int| 0 <= i < ops.len() ==> ops[i] is Fire,
        0 <= first < second < replay(start, ops).fired.len(),
    ensures
        replay(start, ops).fired[first].event.fires_before_spec(
            replay(start, ops).fired[second].event,
        ),
{
    lemma_replay_orderly(start, ops);
    lemma_only_fires(start, ops);
    let h = replay(start, ops);
    assert(h.fired[second].event.id < start.next_id);
    assert(h.fired[first].issued == start.next_id);
}

/// Firing hands out no ids: after nothing but `Fire` the counter stands
/// where it stood, and every fired event was scheduled before the start.
proof fn lemma_only_fires(start: QueueView, ops: Seq<QueueOp>)
    requires
        start.wf(),
        forall|i: int| 0 <= i < ops.len() ==> ops[i] is Fire,
    ensures
        replay(start, ops).state.next_id == start.next_id,
        forall|i: int|
            0 <= i < replay(start, ops).fired.len() ==> (#[trigger] replay(start, ops).fired[i]).issued
                == start.next_id,
    decreases ops.len(),
{
    if ops.len() > 0 {
        assert forall|i: int| 0 <= i < ops.drop_last().len() implies ops.drop_last()[i] is Fire by {
            assert(ops.drop_last()[i] == ops[i]);
        }
        lemma_only_fires(start, ops.drop_last());
        assert(ops.last() == ops[ops.len() - 1]);
        let h = replay(start, ops.drop_last());
        let g = replay(start, ops);
        assert forall|i: int| 0 <= i < g.fired.len() implies (#[trigger] g.fired[i]).issued
            == start.next_id by {
            if i < h.fired.len() {
                assert(g.fired[i] == h.fired[i]);
            }
        }
    }
}

} // verus!
