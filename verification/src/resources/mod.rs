//! Capacity-limited resources with first-come-first-served waiting.
//!
//! A resource has a number of units. A request takes a free unit or, when
//! none is free, joins the back of the resource's wait list. A release
//! hands the unit straight to the head of the wait list when there is one
//! and only otherwise returns it to the pool, so a waiting process is
//! never overtaken.

pub mod laws;

use crate::error::SimError;
use crate::kernel::time::{clamped_diff, clamped_sum, SimTime};
use crate::names::{distinct, lemma_position, lemma_position_found, listed, position};
use std::collections::VecDeque;
use vstd::prelude::*;

verus! {

/// A count one higher, stopping at the largest value a counter holds.
pub open spec fn bumped(n: nat) -> nat {
    if n < u64::MAX {
        n + 1
    } else {
        n
    }
}

/// A process on a wait list, as contracts see it.
pub struct WaiterView {
    pub process: Seq<char>,
    pub since: nat,
}

/// A resource as contracts see it.
pub struct ResourceView {
    pub name: Seq<char>,
    pub capacity: nat,
    pub available: nat,
    /// The waiting processes, the longest-waiting first.
    pub waiters: Seq<WaiterView>,
    /// How many requests have been granted, at once or by hand-off.
    pub total_requests: nat,
    /// Milliseconds that granted requests spent on the wait list, summed.
    pub total_wait_time: nat,
}

impl ResourceView {
    /// No more units are free than exist, and nobody waits while a unit
    /// is free.
    pub open spec fn wf(self) -> bool {
        &&& self.available <= self.capacity
        &&& self.waiters.len() > 0 ==> self.available == 0
    }

    /// A resource just created: every unit free, nobody waiting.
    pub open spec fn fresh(name: Seq<char>, capacity: nat) -> ResourceView {
        ResourceView {
            name,
            capacity,
            available: capacity,
            waiters: Seq::empty(),
            total_requests: 0,
            total_wait_time: 0,
        }
    }

    /// The resource after `process` joined the back of the wait list.
    pub open spec fn after_queueing(self, process: Seq<char>, now: nat) -> ResourceView {
        ResourceView { waiters: self.waiters.push(WaiterView { process, since: now }), ..self }
    }

    /// The resource after a request at time `now`: a free unit is taken,
    /// or else `process` joins the back of the wait list.
    pub open spec fn after_request(self, process: Seq<char>, now: nat) -> ResourceView {
        if self.available > 0 {
            ResourceView {
                available: (self.available - 1) as nat,
                total_requests: bumped(self.total_requests),
                ..self
            }
        } else {
            self.after_queueing(process, now)
        }
    }

    /// The resource after a release at time `now`: the unit goes to the
    /// head of the wait list, or else back to the pool unless the pool is
    /// full already.
    pub open spec fn after_release(self, now: nat) -> ResourceView {
        if self.waiters.len() > 0 {
            ResourceView {
                waiters: self.waiters.drop_first(),
                total_requests: bumped(self.total_requests),
                total_wait_time: clamped_sum(
                    self.total_wait_time,
                    clamped_diff(now, self.waiters[0].since),
                ),
                ..self
            }
        } else if self.available < self.capacity {
            ResourceView { available: self.available + 1, ..self }
        } else {
            self
        }
    }
}

/// How a request ended.
#[derive(Debug, Clone, Copy, PartialEq, Eq, Structural)]
pub enum RequestOutcome {
    /// A unit was free and now belongs to the caller.
    Granted,
    /// No unit was free; the caller is on the wait list.
    Queued,
}

/// How a release ended.
#[derive(Debug, Clone, PartialEq, Eq)]
pub enum Released {
    /// The unit went straight to this process, the head of the wait list.
    HandedTo(String),
    /// The unit went back to the pool.
    Freed,
    /// Every unit was free already; nothing changed.
    NotHeld,
}

/// A process on a wait list and the time at which it joined.
#[derive(Debug, Clone)]
pub struct Waiter {
    process: String,
    since: SimTime,
}

impl View for Waiter {
    type V = WaiterView;

    closed spec fn view(&self) -> WaiterView {
        WaiterView { process: self.process@, since: self.since@ }
    }
}

/// A named pool of units with its wait list and counters.
#[derive(Debug, Clone)]
pub struct Resource {
    name: String,
    capacity: usize,
    available: usize,
    wait_queue: VecDeque<Waiter>,
    total_requests: u64,
    total_wait_time: u64,
}

impl View for Resource {
    type V = ResourceView;

    closed spec fn view(&self) -> ResourceView {
        ResourceView {
            name: self.name@,
            capacity: self.capacity as nat,
            available: self.available as nat,
            waiters: Seq::new(self.wait_queue@.len(), |i: int| self.wait_queue@[i]@),
            total_requests: self.total_requests as nat,
            total_wait_time: self.total_wait_time as nat,
        }
    }
}

impl Resource {
    /// A resource with every unit free and nobody waiting.
    pub fn new(name: &str, capacity: usize) -> (r: Resource)
        ensures
            r@ == ResourceView::fresh(name@, capacity as nat),
            r@.wf(),
    {
        let r = Resource {
            name: name.to_owned(),
            capacity,
            available: capacity,
            wait_queue: VecDeque::new(),
            total_requests: 0,
            total_wait_time: 0,
        };
        assert(r@.waiters =~= Seq::empty());
        r
    }

    pub fn name(&self) -> (n: &String)
        ensures
            n@ == self@.name,
    {
        &self.name
    }

    pub fn capacity(&self) -> (n: usize)
        ensures
            n == self@.capacity,
    {
        self.capacity
    }

    pub fn available(&self) -> (n: usize)
        ensures
            n == self@.available,
    {
        self.available
    }

    /// How many processes are waiting.
    pub fn queue_length(&self) -> (n: usize)
        ensures
            n == self@.waiters.len(),
    {
        self.wait_queue.len()
    }

    pub fn total_requests(&self) -> (n: u64)
        ensures
            n == self@.total_requests,
    {
        self.total_requests
    }

    pub fn total_wait_time(&self) -> (n: u64)
        ensures
            n == self@.total_wait_time,
    {
        self.total_wait_time
    }

    /// Puts `process` at the back of the wait list.
    fn enqueue(&mut self, process: &str, now: SimTime)
        ensures
            final(self)@ == old(self)@.after_queueing(process@, now@),
    {
        self.wait_queue.push_back(Waiter { process: process.to_owned(), since: now });
        assert(self@.waiters =~= old(self)@.waiters.push(
            WaiterView { process: process@, since: now@ },
        ));
    }

    /// Takes a free unit, or joins the wait list when none is free.
    pub fn request(&mut self, process: &str, now: SimTime) -> (out: RequestOutcome)
        requires
            old(self)@.wf(),
        ensures
            final(self)@.wf(),
            final(self)@ == old(self)@.after_request(process@, now@),
            out == if old(self)@.available > 0 {
                RequestOutcome::Granted
            } else {
                RequestOutcome::Queued
            },
    {
        if self.available > 0 {
            self.available = self.available - 1;
            if self.total_requests < u64::MAX {
                self.total_requests = self.total_requests + 1;
            }
            assert(self@.waiters =~= old(self)@.waiters);
            RequestOutcome::Granted
        } else {
            self.enqueue(process, now);
            RequestOutcome::Queued
        }
    }

    /// Gives a unit back: to the head of the wait list if there is one,
    /// else to the pool.
    pub fn release(&mut self, now: SimTime) -> (out: Released)
        requires
            old(self)@.wf(),
        ensures
            final(self)@.wf(),
            final(self)@ == old(self)@.after_release(now@),
            match out {
                Released::HandedTo(p) => old(self)@.waiters.len() > 0 && p@
                    == old(self)@.waiters[0].process,
                Released::Freed => old(self)@.waiters.len() == 0 && old(self)@.available < old(
                    self,
                )@.capacity,
                Released::NotHeld => old(self)@.waiters.len() == 0 && old(self)@.available == old(
                    self,
                )@.capacity,
            },
    {
        let ghost before = self.wait_queue@;
        match self.wait_queue.pop_front() {
            Some(head) => {
                if self.total_requests < u64::MAX {
                    self.total_requests = self.total_requests + 1;
                }
                let waited: u64 = now.saturating_sub(head.since).as_millis();
                if self.total_wait_time > u64::MAX - waited {
                    self.total_wait_time = u64::MAX;
                } else {
                    self.total_wait_time = self.total_wait_time + waited;
                }
                proof {
                    assert(old(self)@.waiters[0] == before[0]@);
                    assert(self@.waiters =~= old(self)@.waiters.drop_first());
                }
                Released::HandedTo(head.process)
            },
            None => {
                assert(self@.waiters =~= old(self)@.waiters);
                if self.available < self.capacity {
                    self.available = self.available + 1;
                    assert(self@.waiters =~= old(self)@.waiters);
                    Released::Freed
                } else {
                    Released::NotHeld
                }
            },
        }
    }
}

/// One resource's figures at a moment of the run.
///
/// Utilisation is `in_use` divided by `capacity`, and zero for a resource
/// without units.
#[derive(Debug, Clone, PartialEq, Eq)]
pub struct ResourceStats {
    pub name: String,
    pub capacity: usize,
    pub available: usize,
    pub in_use: usize,
    pub queue_length: usize,
    pub total_requests: u64,
    pub total_wait_time: u64,
}

impl ResourceStats {
    /// Whether the figures are those of the resource `r`.
    pub open spec fn describes(&self, r: ResourceView) -> bool {
        &&& self.name@ == r.name
        &&& self.capacity == r.capacity
        &&& self.available == r.available
        &&& self.in_use == r.capacity - r.available
        &&& self.queue_length == r.waiters.len()
        &&& self.total_requests == r.total_requests
        &&& self.total_wait_time == r.total_wait_time
    }
}

/// The names of the resources in `s`, in the same order.
pub open spec fn names_of(s: Seq<ResourceView>) -> Seq<Seq<char>> {
    Seq::new(s.len(), |i: int| s[i].name)
}

/// Whether every resource in `s` is well formed and no name occurs twice.
pub open spec fn all_wf(s: Seq<ResourceView>) -> bool {
    &&& forall|i: int| 0 <= i < s.len() ==> (#[trigger] s[i]).wf()
    &&& distinct(names_of(s))
}

/// The resources of a simulation, in the order in which they were created.
pub struct ResourceManager {
    resources: Vec<Resource>,
}

impl View for ResourceManager {
    type V = Seq<ResourceView>;

    closed spec fn view(&self) -> Seq<ResourceView> {
        Seq::new(self.resources@.len(), |i: int| self.resources@[i]@)
    }
}

impl ResourceManager {
    /// Every resource is well formed and no name occurs twice.
    pub open spec fn wf(&self) -> bool {
        all_wf(self@)
    }

    /// A manager without resources.
    pub fn new() -> (m: ResourceManager)
        ensures
            m@ == Seq::<ResourceView>::empty(),
            m.wf(),
    {
        let m = ResourceManager { resources: Vec::new() };
        assert(m@ =~= Seq::<ResourceView>::empty());
        m
    }

    /// How many resources there are.
    pub fn len(&self) -> (n: usize)
        ensures
            n == self@.len(),
    {
        self.resources.len()
    }

    /// Where the resource called `name` stands, if there is one.
    fn find(&self, name: &str) -> (r: Option<usize>)
        ensures
            match r {
                Some(i) => i < self@.len() && i == position(names_of(self@), name@) && self@[i as int].name
                    == name@,
                None => !listed(names_of(self@), name@),
            },
    {
        let key = name.to_owned();
        let mut i: usize = 0;
        while i < self.resources.len()
            invariant
                i <= self.resources.len(),
                key@ == name@,
                forall|j: int| 0 <= j < i ==> names_of(self@)[j] != name@,
            decreases self.resources.len() - i,
        {
            if *self.resources[i].name() == key {
                proof {
                    lemma_position_found(names_of(self@), name@, i as int);
                }
                return Some(i);
            }
            i += 1;
        }
        proof {
            lemma_position_found(names_of(self@), name@, i as int);
        }
        None
    }

    /// Whether a resource called `name` exists.
    pub fn contains(&self, name: &str) -> (b: bool)
        ensures
            b == listed(names_of(self@), name@),
    {
        proof {
            lemma_position(names_of(self@), name@);
        }
        self.find(name).is_some()
    }

    /// Creates a resource with `capacity` free units.
    ///
    /// Fails, changing nothing, when the name is already taken.
    pub fn create(&mut self, name: &str, capacity: usize) -> (r: Result<(), SimError>)
        requires
            old(self).wf(),
        ensures
            final(self).wf(),
            r is Ok <==> !listed(names_of(old(self)@), name@),
            r is Ok ==> final(self)@ == old(self)@.push(ResourceView::fresh(name@, capacity as nat)),
            r matches Err(e) ==> final(self)@ == old(self)@ && e is ResourceError,
    {
        if self.find(name).is_some() {
            proof {
                lemma_position(names_of(self@), name@);
            }
            return Err(SimError::ResourceError(String::from_str("the resource exists already")));
        }
        let ghost before = self@;
        self.resources.push(Resource::new(name, capacity));
        proof {
            assert(self@ =~= before.push(ResourceView::fresh(name@, capacity as nat)));
            lemma_position(names_of(before), name@);
            assert forall|i: int, j: int| 0 <= i < j < names_of(self@).len() implies names_of(
                self@,
            )[i] != names_of(self@)[j] by {
                if j < before.len() {
                    assert(names_of(before)[i] != names_of(before)[j]);
                } else {
                    assert(names_of(before)[i] != name@);
                }
            }
        }
        Ok(())
    }

    /// Asks for a unit of `name` on behalf of `process` at time `now`.
    ///
    /// The unit is granted when one is free; otherwise `process` joins
    /// the back of the wait list. Fails, changing nothing, when no
    /// resource has that name.
    pub fn request(&mut self, name: &str, process: &str, now: SimTime) -> (r: Result<
        RequestOutcome,
        SimError,
    >)
        requires
            old(self).wf(),
        ensures
            final(self).wf(),
            r is Ok <==> listed(names_of(old(self)@), name@),
            match r {
                Ok(out) => {
                    let i = position(names_of(old(self)@), name@);
                    &&& final(self)@ == old(self)@.update(
                        i,
                        old(self)@[i].after_request(process@, now@),
                    )
                    &&& out == if old(self)@[i].available > 0 {
                        RequestOutcome::Granted
                    } else {
                        RequestOutcome::Queued
                    }
                },
                Err(e) => final(self)@ == old(self)@ && e is ResourceError,
            },
    {
        match self.find(name) {
            Some(i) => {
                let ghost before = self@;
                proof {
                    lemma_position(names_of(before), name@);
                }
                let out = self.resources[i].request(process, now);
                proof {
                    assert(self@ =~= before.update(
                        i as int,
                        before[i as int].after_request(process@, now@),
                    ));
                    assert(names_of(self@) =~= names_of(before));
                }
                Ok(out)
            },
            None => Err(SimError::ResourceError(String::from_str("no such resource"))),
        }
    }

    /// Puts `process` on the wait list of `name` without asking for a
    /// unit.
    ///
    /// Fails, changing nothing, when no resource has that name or a unit
    /// is free: nobody waits while a unit is free.
    pub fn queue_request(&mut self, name: &str, process: &str, now: SimTime) -> (r: Result<
        (),
        SimError,
    >)
        requires
            old(self).wf(),
        ensures
            final(self).wf(),
            r is Ok <==> listed(names_of(old(self)@), name@) && old(self)@[position(
                names_of(old(self)@),
                name@,
            )].available == 0,
            match r {
                Ok(_) => {
                    let i = position(names_of(old(self)@), name@);
                    final(self)@ == old(self)@.update(
                        i,
                        old(self)@[i].after_queueing(process@, now@),
                    )
                },
                Err(e) => final(self)@ == old(self)@ && e is ResourceError,
            },
    {
        match self.find(name) {
            Some(i) => {
                let ghost before = self@;
                proof {
                    lemma_position(names_of(before), name@);
                }
                if self.resources[i].available() > 0 {
                    return Err(SimError::ResourceError(String::from_str("a unit is free")));
                }
                self.resources[i].enqueue(process, now);
                proof {
                    assert(self@ =~= before.update(
                        i as int,
                        before[i as int].after_queueing(process@, now@),
                    ));
                    assert(names_of(self@) =~= names_of(before));
                }
                Ok(())
            },
            None => Err(SimError::ResourceError(String::from_str("no such resource"))),
        }
    }

    /// Gives back a unit of `name` at time `now`.
    ///
    /// With a non-empty wait list the unit goes straight to its head,
    /// whose name is returned so that it can be woken; the number of free
    /// units stays at zero. Otherwise the unit returns to the pool, unless
    /// every unit is free already. Fails, changing nothing, when no
    /// resource has that name.
    pub fn release(&mut self, name: &str, now: SimTime) -> (r: Result<Released, SimError>)
        requires
            old(self).wf(),
        ensures
            final(self).wf(),
            r is Ok <==> listed(names_of(old(self)@), name@),
            match r {
                Ok(out) => {
                    let i = position(names_of(old(self)@), name@);
                    let was = old(self)@[i];
                    &&& final(self)@ == old(self)@.update(i, was.after_release(now@))
                    &&& match out {
                        Released::HandedTo(p) => was.waiters.len() > 0 && p@
                            == was.waiters[0].process,
                        Released::Freed => was.waiters.len() == 0 && was.available < was.capacity,
                        Released::NotHeld => was.waiters.len() == 0 && was.available
                            == was.capacity,
                    }
                },
                Err(e) => final(self)@ == old(self)@ && e is ResourceError,
            },
    {
        match self.find(name) {
            Some(i) => {
                let ghost before = self@;
                proof {
                    lemma_position(names_of(before), name@);
                }
                let out = self.resources[i].release(now);
                proof {
                    assert(self@ =~= before.update(i as int, before[i as int].after_release(now@)));
                    assert(names_of(self@) =~= names_of(before));
                }
                Ok(out)
            },
            None => Err(SimError::ResourceError(String::from_str("no such resource"))),
        }
    }

    /// The figures of every resource, in the order of creation.
    pub fn get_stats(&self) -> (stats: Vec<ResourceStats>)
        requires
            self.wf(),
        ensures
            stats.len() == self@.len(),
            forall|i: int| 0 <= i < stats.len() ==> (#[trigger] stats[i]).describes(self@[i]),
    {
        let mut stats: Vec<ResourceStats> = Vec::new();
        let mut i: usize = 0;
        while i < self.resources.len()
            invariant
                i <= self.resources.len(),
                self.wf(),
                stats.len() == i,
                forall|j: int| 0 <= j < i ==> (#[trigger] stats[j]).describes(self@[j]),
            decreases self.resources.len() - i,
        {
            let r = &self.resources[i];
            assert(r@ == self@[i as int]);
            assert(self@[i as int].wf());
            stats.push(
                ResourceStats {
                    name: r.name().clone(),
                    capacity: r.capacity(),
                    available: r.available(),
                    in_use: r.capacity() - r.available(),
                    queue_length: r.queue_length(),
                    total_requests: r.total_requests(),
                    total_wait_time: r.total_wait_time(),
                },
            );
            i += 1;
        }
        stats
    }
}

impl Default for ResourceManager {
    fn default() -> (m: ResourceManager)
        ensures
            m@ == Seq::<ResourceView>::empty(),
            m.wf(),
    {
        ResourceManager::new()
    }
}

} // verus!
