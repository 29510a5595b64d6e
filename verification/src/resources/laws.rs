//! What holds of a resource over any sequence of requests and releases.

use super::{all_wf, names_of, ResourceView, WaiterView};
use crate::names::{lemma_position, listed};
use vstd::prelude::*;

verus! {

/// One operation on a resource.
pub enum ResourceOp {
    /// `process` asks for a unit at time `now`.
    Request { process: Seq<char>, now: nat },
    /// A unit is given back at time `now`.
    Release { now: nat },
}

/// A resource after a sequence of operations, with what happened on the
/// way.
pub struct History {
    /// The resource as it stands.
    pub state: ResourceView,
    /// The processes that had to join the wait list, in the order in
    /// which they joined.
    pub entered: Seq<WaiterView>,
    /// The processes that got their unit by hand-off, in the order in
    /// which they got it.
    pub handed: Seq<WaiterView>,
}

/// The history of `start` under `ops`, applied first to last.
pub open spec fn replay(start: ResourceView, ops: Seq<ResourceOp>) -> History
    decreases ops.len(),
{
    if ops.len() == 0 {
        History { state: start, entered: Seq::empty(), handed: Seq::empty() }
    } else {
        let h = replay(start, ops.drop_last());
        match ops.last() {
            ResourceOp::Request { process, now } => History {
                state: h.state.after_request(process, now),
                entered: if h.state.available > 0 {
                    h.entered
                } else {
                    h.entered.push(WaiterView { process, since: now })
                },
                handed: h.handed,
            },
            ResourceOp::Release { now } => History {
                state: h.state.after_release(now),
                entered: h.entered,
                handed: if h.state.waiters.len() > 0 {
                    h.handed.push(h.state.waiters[0])
                } else {
                    h.handed
                },
            },
        }
    }
}

/// A request keeps the number of free units within the capacity and
/// nobody waiting while a unit is free.
pub proof fn lemma_request_keeps_bounds(r: ResourceView, process: Seq<char>, now: nat)
    requires
        r.wf(),
    ensures
        r.after_request(process, now).wf(),
        r.after_request(process, now).capacity == r.capacity,
{
}

/// A release keeps the number of free units within the capacity and
/// nobody waiting while a unit is free.
pub proof fn lemma_release_keeps_bounds(r: ResourceView, now: nat)
    requires
        r.wf(),
    ensures
        r.after_release(now).wf(),
        r.after_release(now).capacity == r.capacity,
{
}

/// At every moment of every run the free units number between zero and
/// the capacity, and the wait list is empty unless no unit is free.
pub proof fn lemma_bounds_hold_throughout(start: ResourceView, ops: Seq<ResourceOp>)
    requires
        start.wf(),
    ensures
        replay(start, ops).state.wf(),
        replay(start, ops).state.capacity == start.capacity,
        0 <= replay(start, ops).state.available <= start.capacity,
        replay(start, ops).state.waiters.len() > 0 ==> replay(start, ops).state.available == 0,
    decreases ops.len(),
{
    if ops.len() > 0 {
        lemma_bounds_hold_throughout(start, ops.drop_last());
    }
}

/// A release with somebody waiting leaves the number of free units as it
/// was and takes exactly one process, the head, off the wait list.
pub proof fn lemma_release_unblocks_one(r: ResourceView, now: nat)
    requires
        r.wf(),
        r.waiters.len() > 0,
    ensures
        r.after_release(now).available == r.available,
        r.after_release(now).available == 0,
        r.after_release(now).waiters.len() == r.waiters.len() - 1,
        r.after_release(now).waiters == r.waiters.drop_first(),
{
}

/// First come, first served: the processes that got a unit by hand-off
/// are, in that order, the first of those that waited, in the order in
/// which they joined the wait list; those still waiting follow in the
/// same order.
pub proof fn lemma_hand_off_is_fifo(start: ResourceView, ops: Seq<ResourceOp>)
    requires
        start.wf(),
    ensures
        ({
            let h = replay(start, ops);
            let joined = start.waiters + h.entered;
            &&& h.handed.len() <= joined.len()
            &&& h.handed == joined.take(h.handed.len() as int)
            &&& h.state.waiters == joined.skip(h.handed.len() as int)
        }),
    decreases ops.len(),
{
    let h = replay(start, ops);
    let joined = start.waiters + h.entered;
    if ops.len() == 0 {
        assert(joined =~= start.waiters);
        assert(h.handed =~= joined.take(0));
        assert(h.state.waiters =~= joined.skip(0));
    } else {
        let prev = replay(start, ops.drop_last());
        let before = start.waiters + prev.entered;
        lemma_hand_off_is_fifo(start, ops.drop_last());
        lemma_bounds_hold_throughout(start, ops.drop_last());
        let n = prev.handed.len() as int;
        match ops.last() {
            ResourceOp::Request { process, now } => {
                if prev.state.available > 0 {
                    assert(joined =~= before);
                } else {
                    let w = WaiterView { process, since: now };
                    assert(joined =~= before.push(w));
                    assert(h.handed =~= joined.take(n));
                    assert(h.state.waiters =~= joined.skip(n));
                }
            },
            ResourceOp::Release { now } => {
                assert(joined =~= before);
                if prev.state.waiters.len() > 0 {
                    assert(prev.state.waiters[0] == before[n]);
                    assert(h.handed =~= joined.take(n + 1));
                    assert(h.state.waiters =~= joined.skip(n + 1));
                }
            },
        }
    }
}

/// If `a` joined the wait list before `b` and `b` has got its unit, then
/// `a` got one before `b` did.
pub proof fn lemma_no_overtaking(start: ResourceView, ops: Seq<ResourceOp>, a: int, b: int)
    requires
        start.wf(),
        0 <= a < b < (start.waiters + replay(start, ops).entered).len(),
        b < replay(start, ops).handed.len(),
    ensures
        replay(start, ops).handed[a] == (start.waiters + replay(start, ops).entered)[a],
        replay(start, ops).handed[b] == (start.waiters + replay(start, ops).entered)[b],
{
    lemma_hand_off_is_fifo(start, ops);
}

/// Creating a resource under a name that is not taken keeps every
/// resource within its bounds, a resource without units too, and leaves
/// the others as they were. The new resource has every unit free,
/// nobody waiting and its counters at zero.
pub proof fn lemma_create_keeps_bounds(s: Seq<ResourceView>, name: Seq<char>, capacity: nat)
    requires
        all_wf(s),
        !listed(names_of(s), name),
    ensures
        all_wf(s.push(ResourceView::fresh(name, capacity))),
        forall|i: int| 0 <= i < s.len() ==> s.push(ResourceView::fresh(name, capacity))[i] == s[i],
        ({
            let new = s.push(ResourceView::fresh(name, capacity))[s.len() as int];
            &&& new.name == name
            &&& new.capacity == capacity
            &&& new.available == capacity
            &&& new.waiters.len() == 0
            &&& new.total_requests == 0
            &&& new.total_wait_time == 0
        }),
{
    let after = s.push(ResourceView::fresh(name, capacity));
    lemma_position(names_of(s), name);
    assert forall|i: int, j: int| 0 <= i < j < names_of(after).len() implies names_of(after)[i]
        != names_of(after)[j] by {
        if j < s.len() {
            assert(names_of(s)[i] != names_of(s)[j]);
        } else {
            assert(names_of(s)[i] != name);
        }
    }
}

} // verus!
