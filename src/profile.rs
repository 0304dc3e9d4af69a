//! The accounting state: the active call path and the time and starts of each path.
use vstd::prelude::*;
use crate::labels::{path_eq, path_view};
use crate::tally::{
    occurs, Entry, entries_of, time_in, count_in, total_time, total_count, time_at, count_at,
    time_all, count_all, distinct_paths, lemma_sum_push, lemma_sum_update, lemma_sum_ge_at,
};

verus! {

/// Time (nanoseconds) between the last commit `last` and `now`; nothing if the clock
/// did not move forward.
pub open spec fn elapsed(last: nat, now: nat) -> nat {
    if now > last { (now - last) as nat } else { 0 }
}

/// The accounting state of one measurement scope.
///
/// Times are nanoseconds on a caller-chosen clock. Each recorded path is held once,
/// at the same index of `paths`, `times` and `counts`.
pub struct Profile {
    paths: Vec<Vec<&'static str>>,
    times: Vec<u64>,
    counts: Vec<u64>,
    stack: Vec<&'static str>,
    started: u64,
    origin: u64,
    events: u64,
}

/// The handle of one active task, bound to the depth at which it was begun.
pub struct Guard {
    depth: usize,
}

impl Guard {
    pub closed spec fn depth(&self) -> nat {
        self.depth as nat
    }

    /// The depth at which this guard's task runs (1 for an outermost task).
    pub fn level(&self) -> (r: usize)
        ensures
            r == self.depth(),
    {
        self.depth
    }

    /// Ends this guard's task and begins `task` at the same depth, attributing the
    /// time since the last commit to the path before the change.
    pub fn replace(&self, p: &mut Profile, task: &'static str, now: u64)
        requires
            old(p).wf(),
            old(p).has_room(),
            self.depth() == old(p).active().len(),
            self.depth() > 0,
        ensures
            final(p).wf(),
            final(p).active() == old(p).active().drop_last().push(task@),
            forall|q: Seq<Seq<char>>| #[trigger] final(p).time_of(q) == old(p).time_of(q) + (
            if q == old(p).active() { elapsed(old(p).last_commit(), now as nat) } else { 0 }),
            forall|q: Seq<Seq<char>>| #[trigger] final(p).count_of(q) == old(p).count_of(q) + (
            if q == final(p).active() { 1nat } else { 0 }),
            final(p).last_commit() == later(old(p).last_commit(), now as nat),
            final(p).events() == old(p).events() + 1,
            final(p).cleared_at() == old(p).cleared_at(),
    {
        p.add_time(now);
        let ghost mid = *p;
        let ghost s0 = p.stack@;
        p.stack.pop();
        p.stack.push(task);
        assert(path_view(p.stack@) =~= path_view(s0).drop_last().push(task@));
        proof {
            p.keep_counts_through(mid);
        }
        p.increment_map();
    }

    /// Ends this guard's task, attributing the time since the last commit to the path
    /// that still includes it.
    pub fn release(self, p: &mut Profile, now: u64)
        requires
            old(p).wf(),
            self.depth() == old(p).active().len(),
            self.depth() > 0,
        ensures
            final(p).wf(),
            final(p).active() == old(p).active().drop_last(),
            forall|q: Seq<Seq<char>>| #[trigger] final(p).time_of(q) == old(p).time_of(q) + (
            if q == old(p).active() { elapsed(old(p).last_commit(), now as nat) } else { 0 }),
            forall|q: Seq<Seq<char>>| #[trigger] final(p).count_of(q) == old(p).count_of(q),
            final(p).last_commit() == later(old(p).last_commit(), now as nat),
            final(p).events() == old(p).events(),
            final(p).cleared_at() == old(p).cleared_at(),
    {
        p.add_time(now);
        let ghost mid = *p;
        let ghost s0 = p.stack@;
        p.stack.pop();
        assert(path_view(p.stack@) =~= path_view(s0).drop_last());
        proof {
            p.keep_counts_through(mid);
        }
    }
}

/// The later of two times.
pub open spec fn later(a: nat, b: nat) -> nat {
    if b > a { b } else { a }
}

/// Begins `task` nested under the active path and returns the guard that ends it.
/// The time since the last commit goes to the path active before the call.
pub fn push(p: &mut Profile, task: &'static str, now: u64) -> (g: Guard)
    requires
        old(p).wf(),
        old(p).has_room(),
    ensures
        final(p).wf(),
        final(p).active() == old(p).active().push(task@),
        forall|q: Seq<Seq<char>>| #[trigger] final(p).time_of(q) == old(p).time_of(q) + (
        if q == old(p).active() { elapsed(old(p).last_commit(), now as nat) } else { 0 }),
        forall|q: Seq<Seq<char>>| #[trigger] final(p).count_of(q) == old(p).count_of(q) + (
        if q == final(p).active() { 1nat } else { 0 }),
        final(p).last_commit() == later(old(p).last_commit(), now as nat),
        final(p).events() == old(p).events() + 1,
        final(p).cleared_at() == old(p).cleared_at(),
        g.depth() == final(p).active().len(),
{
    p.add_time(now);
    let ghost mid = *p;
    let ghost s0 = p.stack@;
    p.stack.push(task);
    assert(path_view(p.stack@) =~= path_view(s0).push(task@));
    proof {
        p.keep_counts_through(mid);
    }
    p.increment_map();
    Guard { depth: p.stack.len() }
}

/// Forgets all recorded time and active tasks; the clock restarts at `now`.
pub fn clear(p: &mut Profile, now: u64)
    ensures
        final(p).wf(),
        final(p).is_fresh(now as nat),
        final(p).cleared_at() == now,
{
    *p = Profile::new(now);
}

impl Profile {
    /// What has been recorded, one entry per distinct path.
    pub closed spec fn entries(&self) -> Seq<Entry> {
        entries_of(self.paths@, self.times@, self.counts@)
    }

    /// The active call path, outermost first.
    pub closed spec fn active(&self) -> Seq<Seq<char>> {
        path_view(self.stack@)
    }

    /// The time of the last commit.
    pub closed spec fn last_commit(&self) -> nat {
        self.started as nat
    }

    /// The number of starts recorded since the state was created or cleared.
    pub closed spec fn events(&self) -> nat {
        self.events as nat
    }

    /// The time at which the state was created or last cleared.
    pub closed spec fn cleared_at(&self) -> nat {
        self.origin as nat
    }

    /// All recorded time fits in the time since the state was created or cleared:
    /// intervals are attributed once, and those the clock did not move through are
    /// dropped.
    pub proof fn lemma_recorded_time_bounded(&self)
        requires
            self.wf(),
        ensures
            self.cleared_at() <= self.last_commit(),
            total_time(self.entries()) <= self.last_commit() - self.cleared_at(),
    {
    }

    pub open spec fn time_of(&self, k: Seq<Seq<char>>) -> nat {
        time_in(self.entries(), k)
    }

    pub open spec fn count_of(&self, k: Seq<Seq<char>>) -> nat {
        count_in(self.entries(), k)
    }

    /// Whether the state is empty, with its last commit at `now`.
    pub open spec fn is_fresh(&self, now: nat) -> bool {
        &&& self.entries().len() == 0
        &&& self.active().len() == 0
        &&& self.last_commit() == now
        &&& self.events() == 0
    }

    /// Paths are recorded once each, the vectors run in step, and the recorded time
    /// never exceeds the time elapsed since the state was created or cleared.
    pub closed spec fn wf(&self) -> bool {
        &&& self.paths.len() == self.times.len()
        &&& self.paths.len() == self.counts.len()
        &&& distinct_paths(self.entries())
        &&& self.origin <= self.started
        &&& total_time(self.entries()) <= self.started - self.origin
        &&& total_count(self.entries()) == self.events
    }

    /// Whether nothing has been recorded or begun since the state was created or cleared.
    pub open spec fn is_cleared(&self) -> bool {
        &&& self.entries().len() == 0
        &&& self.active().len() == 0
        &&& self.events() == 0
    }

    /// Whether one more start can be counted.
    pub open spec fn has_room(&self) -> bool {
        self.events() < u64::MAX
    }

    /// A fresh state whose clock starts at `now`.
    pub fn new(now: u64) -> (p: Profile)
        ensures
            p.wf(),
            p.is_fresh(now as nat),
            p.cleared_at() == now,
    {
        let p = Profile {
            paths: Vec::new(),
            times: Vec::new(),
            counts: Vec::new(),
            stack: Vec::new(),
            started: now,
            origin: now,
            events: 0,
        };
        assert(p.entries() =~= Seq::<Entry>::empty());
        assert(p.active() =~= Seq::<Seq<char>>::empty());
        p
    }

    /// The number of currently active tasks.
    pub fn depth(&self) -> (r: usize)
        ensures
            r == self.active().len(),
    {
        self.stack.len()
    }

    /// The number of starts recorded since the state was created or cleared.
    pub fn event_count(&self) -> (r: u64)
        ensures
            r == self.events(),
    {
        self.events
    }

    /// The recorded paths, times and counts, index by index.
    pub fn records(&self) -> (r: (&Vec<Vec<&'static str>>, &Vec<u64>, &Vec<u64>))
        requires
            self.wf(),
        ensures
            r.0.len() == r.1.len(),
            r.0.len() == r.2.len(),
            entries_of(r.0@, r.1@, r.2@) == self.entries(),
            distinct_paths(self.entries()),
            total_time(self.entries()) <= u64::MAX,
            total_count(self.entries()) <= u64::MAX,
    {
        (&self.paths, &self.times, &self.counts)
    }

    /// A change of the active path alone keeps what is recorded.
    proof fn keep_counts_through(&self, mid: Profile)
        requires
            mid.wf(),
            self.paths == mid.paths,
            self.times == mid.times,
            self.counts == mid.counts,
            self.started == mid.started,
            self.origin == mid.origin,
            self.events == mid.events,
        ensures
            self.wf(),
            forall|q: Seq<Seq<char>>| #[trigger] self.time_of(q) == mid.time_of(q),
            forall|q: Seq<Seq<char>>| #[trigger] self.count_of(q) == mid.count_of(q),
    {
        assert(self.entries() == mid.entries());
    }

    /// Index of the entry for path `k`, appending an empty one if there is none.
    fn slot(&mut self, k: &Vec<&'static str>) -> (i: usize)
        requires
            old(self).wf(),
        ensures
            final(self).wf(),
            i < final(self).entries().len(),
            final(self).entries()[i as int].0 == path_view(k@),
            forall|s: Seq<char>| #[trigger] occurs(final(self).entries(), s) ==> occurs(old(self).entries(), s)
                || path_view(k@).contains(s),
            forall|q: Seq<Seq<char>>| #[trigger] final(self).time_of(q) == old(self).time_of(q),
            forall|q: Seq<Seq<char>>| #[trigger] final(self).count_of(q) == old(self).count_of(q),
            total_time(final(self).entries()) == total_time(old(self).entries()),
            final(self).stack == old(self).stack,
            final(self).started == old(self).started,
            final(self).origin == old(self).origin,
            final(self).events == old(self).events,
    {
        let mut i: usize = 0;
        while i < self.paths.len()
            invariant
                self.wf(),
                i <= self.paths.len(),
                forall|j: int| 0 <= j < i ==> self.entries()[j].0 != path_view(k@),
            decreases self.paths.len() - i,
        {
            if path_eq(&self.paths[i], k) {
                return i;
            }
            i = i + 1;
        }
        let ghost es = self.entries();
        let ghost e: Entry = (path_view(k@), 0nat, 0nat);
        self.paths.push(k.clone());
        self.times.push(0);
        self.counts.push(0);
        proof {
            assert(self.entries() =~= es.push(e));
            assert forall|q: Seq<Seq<char>>| #[trigger] self.time_of(q) == time_in(es, q) by {
                lemma_sum_push(es, e, time_at(q));
            }
            assert forall|q: Seq<Seq<char>>| #[trigger] self.count_of(q) == count_in(es, q) by {
                lemma_sum_push(es, e, count_at(q));
            }
            lemma_sum_push(es, e, time_all());
            lemma_sum_push(es, e, count_all());
            assert forall|s: Seq<char>| #[trigger] occurs(self.entries(), s) implies occurs(es, s)
                || path_view(k@).contains(s) by {
                let j = choose|j: int| 0 <= j < self.entries().len() && self.entries()[j].0.contains(s);
                if j < es.len() {
                    assert(self.entries()[j] == es[j]);
                }
            }
        }
        i
    }

    /// Adds `d` to the time of the active path.
    fn add_to_map(&mut self, d: u64)
        requires
            old(self).wf(),
            old(self).started + d <= u64::MAX,
        ensures
            final(self).paths.len() == final(self).times.len(),
            final(self).paths.len() == final(self).counts.len(),
            distinct_paths(final(self).entries()),
            total_time(final(self).entries()) == total_time(old(self).entries()) + d,
            total_count(final(self).entries()) == final(self).events,
            forall|s: Seq<char>| #[trigger] occurs(final(self).entries(), s) ==> occurs(old(self).entries(), s)
                || old(self).active().contains(s),
            forall|q: Seq<Seq<char>>| #[trigger] final(self).time_of(q) == old(self).time_of(q) + (
            if q == old(self).active() { d as nat } else { 0 }),
            forall|q: Seq<Seq<char>>| #[trigger] final(self).count_of(q) == old(self).count_of(q),
            final(self).stack == old(self).stack,
            final(self).started == old(self).started,
            final(self).origin == old(self).origin,
            final(self).events == old(self).events,
    {
        let k = self.stack.clone();
        assert(k@ == self.stack@);
        let i = self.slot(&k);
        let ghost mid = *self;
        let ghost es = self.entries();
        proof {
            lemma_time_le_total(es, i as int);
        }
        let t = self.times[i] + d;
        self.times.set(i, t);
        let ghost e: Entry = (es[i as int].0, t as nat, es[i as int].2);
        proof {
            assert(self.entries() =~= es.update(i as int, e));
            assert forall|q: Seq<Seq<char>>| #[trigger] self.time_of(q) == old(self).time_of(q) + (
            if q == path_view(k@) { d as nat } else { 0 }) by {
                lemma_sum_update(es, i as int, e, time_at(q));
                assert(mid.time_of(q) == old(self).time_of(q));
            }
            assert forall|q: Seq<Seq<char>>| #[trigger] self.count_of(q) == old(self).count_of(q) by {
                lemma_sum_update(es, i as int, e, count_at(q));
                assert(mid.count_of(q) == old(self).count_of(q));
            }
            lemma_sum_update(es, i as int, e, time_all());
            lemma_sum_update(es, i as int, e, count_all());
            assert forall|a: int, b: int|
                0 <= a < self.entries().len() && 0 <= b < self.entries().len() && a != b
                implies self.entries()[a].0 != self.entries()[b].0 by {
                assert(es[a].0 != es[b].0);
            }
            assert forall|s: Seq<char>| #[trigger] occurs(self.entries(), s) implies occurs(es, s) by {
                let j = choose|j: int| 0 <= j < self.entries().len() && self.entries()[j].0.contains(s);
                assert(self.entries()[j].0 == es[j].0);
            }
        }
    }

    /// Adds one start to the active path.
    fn increment_map(&mut self)
        requires
            old(self).wf(),
            old(self).events < u64::MAX,
        ensures
            final(self).wf(),
            forall|q: Seq<Seq<char>>| #[trigger] final(self).time_of(q) == old(self).time_of(q),
            forall|q: Seq<Seq<char>>| #[trigger] final(self).count_of(q) == old(self).count_of(q) + (
            if q == old(self).active() { 1nat } else { 0 }),
            final(self).stack == old(self).stack,
            final(self).started == old(self).started,
            final(self).origin == old(self).origin,
            final(self).events == old(self).events + 1,
    {
        let k = self.stack.clone();
        assert(k@ == self.stack@);
        let i = self.slot(&k);
        let ghost mid = *self;
        let ghost es = self.entries();
        proof {
            lemma_count_le_total(es, i as int);
        }
        let c = self.counts[i] + 1;
        self.counts.set(i, c);
        self.events = self.events + 1;
        let ghost e: Entry = (es[i as int].0, es[i as int].1, c as nat);
        proof {
            assert(self.entries() =~= es.update(i as int, e));
            assert forall|q: Seq<Seq<char>>| #[trigger] self.count_of(q) == old(self).count_of(q) + (
            if q == path_view(k@) { 1nat } else { 0 }) by {
                lemma_sum_update(es, i as int, e, count_at(q));
                assert(mid.count_of(q) == old(self).count_of(q));
            }
            assert forall|q: Seq<Seq<char>>| #[trigger] self.time_of(q) == old(self).time_of(q) by {
                lemma_sum_update(es, i as int, e, time_at(q));
                assert(mid.time_of(q) == old(self).time_of(q));
            }
            lemma_sum_update(es, i as int, e, time_all());
            lemma_sum_update(es, i as int, e, count_all());
            assert forall|a: int, b: int|
                0 <= a < self.entries().len() && 0 <= b < self.entries().len() && a != b
                implies self.entries()[a].0 != self.entries()[b].0 by {
                assert(es[a].0 != es[b].0);
            }
        }
    }

    /// Attributes the time since the last commit to the active path, then moves the
    /// last commit forward to `now` (never backward).
    pub fn add_time(&mut self, now: u64)
        requires
            old(self).wf(),
        ensures
            final(self).wf(),
            forall|q: Seq<Seq<char>>| #[trigger] final(self).time_of(q) == old(self).time_of(q) + (
            if q == old(self).active() { elapsed(old(self).last_commit(), now as nat) } else { 0 }),
            forall|q: Seq<Seq<char>>| #[trigger] final(self).count_of(q) == old(self).count_of(q),
            final(self).active() == old(self).active(),
            final(self).last_commit() == later(old(self).last_commit(), now as nat),
            final(self).events() == old(self).events(),
            final(self).cleared_at() == old(self).cleared_at(),
            forall|s: Seq<char>| #[trigger] occurs(final(self).entries(), s) ==> occurs(old(self).entries(), s)
                || old(self).active().contains(s),
    {
        if now > self.started {
            let d = now - self.started;
            self.add_to_map(d);
            let ghost mid = *self;
            self.started = now;
            assert forall|q: Seq<Seq<char>>| #[trigger] self.time_of(q) == mid.time_of(q) by {
                assert(self.entries() == mid.entries());
            }
            assert forall|q: Seq<Seq<char>>| #[trigger] self.count_of(q) == mid.count_of(q) by {
                assert(self.entries() == mid.entries());
            }
            assert(self.entries() == mid.entries());
        }
    }
}

proof fn lemma_time_le_total(es: Seq<Entry>, i: int)
    requires
        0 <= i < es.len(),
    ensures
        es[i].1 <= total_time(es),
{
    lemma_sum_ge_at(es, i, time_all());
}

proof fn lemma_count_le_total(es: Seq<Entry>, i: int)
    requires
        0 <= i < es.len(),
    ensures
        es[i].2 <= total_count(es),
{
    lemma_sum_ge_at(es, i, count_all());
}

} // verus!
