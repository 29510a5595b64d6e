//! The processes that sleep until a given time.

use crate::kernel::time::SimTime;
use crate::names::{distinct, lemma_position, lemma_position_found, listed, position};
use vstd::prelude::*;

verus! {

/// A sleeping process as contracts see it.
pub struct SleeperView {
    pub process: Seq<char>,
    pub wake_time: nat,
}

/// A sleeping process and the time at which it is to be woken.
#[derive(Debug, Clone)]
struct Sleeper {
    process: String,
    wake_time: SimTime,
}

impl View for Sleeper {
    type V = SleeperView;

    closed spec fn view(&self) -> SleeperView {
        SleeperView { process: self.process@, wake_time: self.wake_time@ }
    }
}

/// The names of the sleepers in `s`, in the same order.
pub open spec fn sleeper_names(s: Seq<SleeperView>) -> Seq<Seq<char>> {
    Seq::new(s.len(), |i: int| s[i].process)
}

/// The sleepers of `s` whose time has come at `now`, in the same order.
pub open spec fn due(s: Seq<SleeperView>, now: nat) -> Seq<SleeperView>
    decreases s.len(),
{
    if s.len() == 0 {
        Seq::empty()
    } else if s.last().wake_time <= now {
        due(s.drop_last(), now).push(s.last())
    } else {
        due(s.drop_last(), now)
    }
}

/// The sleepers of `s` whose time has not come at `now`, in the same
/// order.
pub open spec fn not_due(s: Seq<SleeperView>, now: nat) -> Seq<SleeperView>
    decreases s.len(),
{
    if s.len() == 0 {
        Seq::empty()
    } else if s.last().wake_time <= now {
        not_due(s.drop_last(), now)
    } else {
        not_due(s.drop_last(), now).push(s.last())
    }
}

/// The earliest wake time in `s`, if `s` holds anybody.
pub open spec fn earliest(s: Seq<SleeperView>) -> Option<nat>
    decreases s.len(),
{
    if s.len() == 0 {
        None
    } else {
        match earliest(s.drop_last()) {
            None => Some(s.last().wake_time),
            Some(t) => if s.last().wake_time < t {
                Some(s.last().wake_time)
            } else {
                Some(t)
            },
        }
    }
}

/// The set `s` with `process` due at `wake_time`: an entry for the
/// process is overwritten, and else a new one comes last.
pub open spec fn with_sleeper(s: Seq<SleeperView>, process: Seq<char>, wake_time: nat) -> Seq<
    SleeperView,
> {
    let i = position(sleeper_names(s), process);
    if i < s.len() {
        s.update(i, SleeperView { process, wake_time })
    } else {
        s.push(SleeperView { process, wake_time })
    }
}

/// `earliest` is the least wake time: somebody sleeps until then and
/// nobody wakes before.
pub proof fn lemma_earliest(s: Seq<SleeperView>)
    ensures
        earliest(s) is None <==> s.len() == 0,
        earliest(s) matches Some(t) ==> {
            &&& exists|i: int| 0 <= i < s.len() && (#[trigger] s[i]).wake_time == t
            &&& forall|i: int| 0 <= i < s.len() ==> t <= (#[trigger] s[i]).wake_time
        },
    decreases s.len(),
{
    if s.len() > 0 {
        let front = s.drop_last();
        lemma_earliest(front);
        let t = earliest(s)->0;
        match earliest(front) {
            None => {
                assert(s[s.len() - 1].wake_time == t);
            },
            Some(m) => {
                if s.last().wake_time < m {
                    assert(s[s.len() - 1].wake_time == t);
                } else {
                    let i = choose|i: int| 0 <= i < front.len() && (#[trigger] front[i]).wake_time == m;
                    assert(s[i] == front[i]);
                }
                assert forall|i: int| 0 <= i < s.len() implies t <= (#[trigger] s[i]).wake_time by {
                    if i < front.len() {
                        assert(s[i] == front[i]);
                    }
                }
            },
        }
    }
}

/// Everybody in `due` is in `s` and due; everybody in `not_due` is in
/// `s` and not due; together they are all of `s`.
pub proof fn lemma_due_split(s: Seq<SleeperView>, now: nat)
    ensures
        due(s, now).len() + not_due(s, now).len() == s.len(),
        forall|i: int| 0 <= i < due(s, now).len() ==> (#[trigger] due(s, now)[i]).wake_time <= now,
        forall|i: int|
            0 <= i < not_due(s, now).len() ==> (#[trigger] not_due(s, now)[i]).wake_time > now,
        forall|i: int|
            0 <= i < due(s, now).len() ==> listed(sleeper_names(s), (#[trigger] due(s, now)[i]).process),
        forall|i: int|
            0 <= i < not_due(s, now).len() ==> listed(
                sleeper_names(s),
                (#[trigger] not_due(s, now)[i]).process,
            ),
        distinct(sleeper_names(s)) ==> distinct(sleeper_names(not_due(s, now))),
        (forall|i: int| 0 <= i < s.len() ==> (#[trigger] s[i]).wake_time > now) ==> not_due(s, now) == s,
    decreases s.len(),
{
    if s.len() > 0 {
        let front = s.drop_last();
        let last = s.last();
        lemma_due_split(front, now);
        let d = due(s, now);
        let n = not_due(s, now);
        assert forall|k: int| 0 <= k < front.len() implies listed(
            sleeper_names(s),
            (#[trigger] front[k]).process,
        ) by {
            assert(sleeper_names(s)[k] == front[k].process);
            lemma_position(sleeper_names(s), front[k].process);
        }
        assert(listed(sleeper_names(s), last.process)) by {
            assert(sleeper_names(s)[s.len() - 1] == last.process);
            lemma_position(sleeper_names(s), last.process);
        }
        assert forall|i: int| 0 <= i < d.len() implies listed(
            sleeper_names(s),
            (#[trigger] d[i]).process,
        ) by {
            if i < due(front, now).len() {
                let name = due(front, now)[i].process;
                assert(d[i] == due(front, now)[i]);
                lemma_position(sleeper_names(front), name);
                let at = position(sleeper_names(front), name);
                assert(sleeper_names(front)[at] == front[at].process);
            }
        }
        assert forall|i: int| 0 <= i < n.len() implies listed(
            sleeper_names(s),
            (#[trigger] n[i]).process,
        ) by {
            if i < not_due(front, now).len() {
                let name = not_due(front, now)[i].process;
                assert(n[i] == not_due(front, now)[i]);
                lemma_position(sleeper_names(front), name);
                let at = position(sleeper_names(front), name);
                assert(sleeper_names(front)[at] == front[at].process);
            }
        }
        if distinct(sleeper_names(s)) {
            assert forall|i: int, j: int| 0 <= i < j < sleeper_names(front).len() implies sleeper_names(
                front,
            )[i] != sleeper_names(front)[j] by {
                assert(sleeper_names(front)[i] == sleeper_names(s)[i]);
                assert(sleeper_names(front)[j] == sleeper_names(s)[j]);
            }
            let nf = not_due(front, now);
            assert forall|i: int, j: int| 0 <= i < j < sleeper_names(n).len() implies sleeper_names(
                n,
            )[i] != sleeper_names(n)[j] by {
                if j < nf.len() {
                    assert(sleeper_names(n)[i] == sleeper_names(nf)[i]);
                    assert(sleeper_names(n)[j] == sleeper_names(nf)[j]);
                } else {
                    let name = nf[i].process;
                    assert(n[i] == nf[i]);
                    lemma_position(sleeper_names(front), name);
                    let at = position(sleeper_names(front), name);
                    assert(sleeper_names(front)[at] == sleeper_names(s)[at]);
                    assert(sleeper_names(s)[at] != sleeper_names(s)[s.len() - 1]);
                }
            }
        }
        if forall|i: int| 0 <= i < s.len() ==> (#[trigger] s[i]).wake_time > now {
            assert forall|i: int| 0 <= i < front.len() implies (#[trigger] front[i]).wake_time > now by {
                assert(front[i] == s[i]);
            }
            assert(s[s.len() - 1].wake_time > now);
            assert(n =~= s);
        }
    }
}

/// Everybody in `due` is one of the sleepers of `s`.
pub proof fn lemma_due_members(s: Seq<SleeperView>, now: nat, k: int)
    requires
        0 <= k < due(s, now).len(),
    ensures
        exists|i: int| 0 <= i < s.len() && #[trigger] s[i] == due(s, now)[k],
    decreases s.len(),
{
    if s.len() > 0 {
        let front = s.drop_last();
        if k < due(front, now).len() {
            lemma_due_members(front, now, k);
            let i = choose|i: int| 0 <= i < front.len() && #[trigger] front[i] == due(front, now)[k];
            assert(s[i] == front[i]);
        } else {
            assert(s[s.len() - 1] == due(s, now)[k]);
        }
    }
}

/// Everybody in `not_due` is one of the sleepers of `s`.
pub proof fn lemma_not_due_members(s: Seq<SleeperView>, now: nat, k: int)
    requires
        0 <= k < not_due(s, now).len(),
    ensures
        exists|i: int| 0 <= i < s.len() && #[trigger] s[i] == not_due(s, now)[k],
    decreases s.len(),
{
    if s.len() > 0 {
        let front = s.drop_last();
        if k < not_due(front, now).len() {
            lemma_not_due_members(front, now, k);
            let i = choose|i: int|
                0 <= i < front.len() && #[trigger] front[i] == not_due(front, now)[k];
            assert(s[i] == front[i]);
        } else {
            assert(s[s.len() - 1] == not_due(s, now)[k]);
        }
    }
}

/// The set of sleeping processes, in the order in which they fell
/// asleep. A process is in it at most once.
pub struct TimedWaitSet {
    sleepers: Vec<Sleeper>,
}

impl View for TimedWaitSet {
    type V = Seq<SleeperView>;

    closed spec fn view(&self) -> Seq<SleeperView> {
        Seq::new(self.sleepers@.len(), |i: int| self.sleepers@[i]@)
    }
}

impl TimedWaitSet {
    /// No process is in the set twice, and every wake time is an instant
    /// that the clock can show.
    pub open spec fn wf(&self) -> bool {
        &&& distinct(sleeper_names(self@))
        &&& forall|i: int| 0 <= i < self@.len() ==> (#[trigger] self@[i]).wake_time <= u64::MAX
    }

    /// The empty set.
    pub fn new() -> (set: TimedWaitSet)
        ensures
            set@ == Seq::<SleeperView>::empty(),
            set.wf(),
    {
        let set = TimedWaitSet { sleepers: Vec::new() };
        assert(set@ =~= Seq::<SleeperView>::empty());
        set
    }

    /// How many processes sleep.
    pub fn len(&self) -> (n: usize)
        ensures
            n == self@.len(),
    {
        self.sleepers.len()
    }

    /// Whether nobody sleeps.
    pub fn is_empty(&self) -> (b: bool)
        ensures
            b == (self@.len() == 0),
    {
        self.sleepers.len() == 0
    }

    /// Puts `process` to sleep until `wake_time`. A process that sleeps
    /// already gets the new time.
    pub fn put(&mut self, process: &str, wake_time: SimTime)
        requires
            old(self).wf(),
        ensures
            final(self).wf(),
            final(self)@ == with_sleeper(old(self)@, process@, wake_time@),
    {
        let ghost before = self@;
        let key = process.to_owned();
        let mut i: usize = 0;
        while i < self.sleepers.len()
            invariant
                i <= self.sleepers.len(),
                self.sleepers == old(self).sleepers,
                before == self@,
                distinct(sleeper_names(before)),
                forall|j: int| 0 <= j < before.len() ==> (#[trigger] before[j]).wake_time <= u64::MAX,
                key@ == process@,
                forall|j: int| 0 <= j < i ==> sleeper_names(self@)[j] != process@,
            decreases self.sleepers.len() - i,
        {
            if self.sleepers[i].process == key {
                proof {
                    lemma_position_found(sleeper_names(before), process@, i as int);
                }
                self.sleepers[i].wake_time = wake_time;
                proof {
                    assert(self@ =~= with_sleeper(before, process@, wake_time@));
                    assert(sleeper_names(self@) =~= sleeper_names(before));
                    SimTime::lemma_view_bounded(wake_time);
                    assert forall|j: int| 0 <= j < self@.len() implies (#[trigger] self@[j]).wake_time
                        <= u64::MAX by {
                        if j != i {
                            assert(self@[j] == before[j]);
                        }
                    }
                }
                return ;
            }
            i += 1;
        }
        proof {
            lemma_position_found(sleeper_names(before), process@, i as int);
        }
        self.sleepers.push(Sleeper { process: key, wake_time });
        proof {
            assert(self@ =~= with_sleeper(before, process@, wake_time@));
            SimTime::lemma_view_bounded(wake_time);
            assert forall|j: int| 0 <= j < self@.len() implies (#[trigger] self@[j]).wake_time
                <= u64::MAX by {
                if j < before.len() {
                    assert(self@[j] == before[j]);
                }
            }
            assert forall|a: int, b: int| 0 <= a < b < sleeper_names(self@).len() implies sleeper_names(
                self@,
            )[a] != sleeper_names(self@)[b] by {
                if b < before.len() {
                    assert(sleeper_names(before)[a] != sleeper_names(before)[b]);
                } else {
                    assert(sleeper_names(before)[a] != process@);
                }
            }
        }
    }

    /// The earliest wake time, if anybody sleeps.
    pub fn next_wake(&self) -> (t: Option<SimTime>)
        ensures
            match t {
                Some(at) => earliest(self@) == Some(at@),
                None => earliest(self@) is None,
            },
    {
        let mut best: Option<SimTime> = None;
        let mut i: usize = 0;
        assert(self@.take(0) =~= Seq::<SleeperView>::empty());
        while i < self.sleepers.len()
            invariant
                i <= self.sleepers.len(),
                match best {
                    Some(at) => earliest(self@.take(i as int)) == Some(at@),
                    None => earliest(self@.take(i as int)) is None,
                },
            decreases self.sleepers.len() - i,
        {
            let at = self.sleepers[i].wake_time;
            proof {
                assert(self@.take(i + 1).drop_last() =~= self@.take(i as int));
                assert(self@.take(i + 1).last() == self@[i as int]);
            }
            best = match best {
                None => Some(at),
                Some(t) => if at.as_millis() < t.as_millis() {
                    Some(at)
                } else {
                    Some(t)
                },
            };
            i += 1;
        }
        assert(self@.take(i as int) =~= self@);
        best
    }

    /// Takes out of the set everybody whose time has come at `now` and
    /// returns their names in the order in which they fell asleep.
    pub fn take_due(&mut self, now: SimTime) -> (woken: Vec<String>)
        requires
            old(self).wf(),
        ensures
            final(self).wf(),
            final(self)@ == not_due(old(self)@, now@),
            woken.len() == due(old(self)@, now@).len(),
            forall|i: int|
                0 <= i < woken.len() ==> (#[trigger] woken[i])@ == due(old(self)@, now@)[i].process,
    {
        let ghost start = self@;
        let mut all: Vec<Sleeper> = Vec::new();
        std::mem::swap(&mut self.sleepers, &mut all);
        let mut woken: Vec<String> = Vec::new();
        let ghost taken = all@;
        assert(start.take(0) =~= Seq::<SleeperView>::empty());
        assert(self@ =~= Seq::<SleeperView>::empty());
        for sleeper in it: all
            invariant
                it.seq() == taken,
                start.len() == taken.len(),
                forall|j: int| 0 <= j < taken.len() ==> (#[trigger] taken[j])@ == start[j],
                self@ == not_due(start.take(it.index() as int), now@),
                woken.len() == due(start.take(it.index() as int), now@).len(),
                forall|j: int|
                    0 <= j < woken.len() ==> (#[trigger] woken[j])@ == due(
                        start.take(it.index() as int),
                        now@,
                    )[j].process,
        {
            let ghost k = it.index() as int;
            let ghost kept = self@;
            proof {
                assert(start.take(k + 1).drop_last() =~= start.take(k));
                assert(start.take(k + 1).last() == start[k]);
                assert(sleeper@ == start[k]);
            }
            if sleeper.wake_time.as_millis() <= now.as_millis() {
                woken.push(sleeper.process);
            } else {
                self.sleepers.push(sleeper);
                assert(self@ =~= kept.push(start[k]));
            }
        }
        proof {
            assert(start.take(start.len() as int) =~= start);
            lemma_due_split(start, now@);
            assert forall|j: int| 0 <= j < self@.len() implies (#[trigger] self@[j]).wake_time
                <= u64::MAX by {
                lemma_not_due_members(start, now@, j);
            }
        }
        woken
    }
}

} // verus!
