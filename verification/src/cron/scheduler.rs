//! The scheduler for cron [`Job`]s.
//!
//! The scheduler keeps the jobs ordered by the next time at which each runs.
//! It decides which jobs are due at a given time and when each runs next;
//! running them is left to the caller, which gets the functions of the due
//! jobs back.

use vstd::prelude::*;

use core::marker::PhantomData;

use super::civil::DateTime;
use super::job::Job;

verus! {

/// A [`Scheduler`] that has this type is not initialized.
#[derive(Debug, Default, Clone, Copy, PartialEq, Eq, PartialOrd, Ord)]
pub struct Uninitialized;

/// A [`Scheduler`] that has this type is initialized.
#[derive(Debug, Default, Clone, Copy, PartialEq, Eq, PartialOrd, Ord)]
pub struct Initialized;

/// A job with the next time at which it runs; `None` when it has none.
pub type Upcoming<F> = (Job<F>, Option<DateTime>);

/// Next times in order: every time comes before "no next time".
pub open spec fn next_le(a: Option<DateTime>, b: Option<DateTime>) -> bool {
    match (a, b) {
        (_, None) => true,
        (None, Some(_)) => false,
        (Some(x), Some(y)) => x.not_after(y),
    }
}

/// The job of an entry is due at `now`.
pub open spec fn is_due<F>(e: Upcoming<F>, now: DateTime) -> bool {
    match e.1 {
        Some(t) => t.not_after(now),
        None => false,
    }
}

/// The entries are ordered by their next times.
pub open spec fn is_sorted_by_next<F>(s: Seq<Upcoming<F>>) -> bool {
    forall|i: int, j: int| 0 <= i < j < s.len() ==> next_le(s[i].1, s[j].1)
}

/// The number of leading entries of `s` whose next time is not later than `key`.
pub open spec fn upper_bound<F>(s: Seq<Upcoming<F>>, key: Option<DateTime>) -> int
    decreases s.len(),
{
    if s.len() == 0 || !next_le(s[0].1, key) {
        0
    } else {
        1 + upper_bound(s.drop_first(), key)
    }
}

/// `s` with `e` inserted after every entry whose next time is not later than that of `e`.
pub open spec fn insert_by_next<F>(s: Seq<Upcoming<F>>, e: Upcoming<F>) -> Seq<Upcoming<F>> {
    s.insert(upper_bound(s, e.1), e)
}

/// The entries of `s` ordered by next time, entries with equal next times in
/// their order in `s` (a stable sort).
pub open spec fn sort_by_next<F>(s: Seq<Upcoming<F>>) -> Seq<Upcoming<F>>
    decreases s.len(),
{
    if s.len() == 0 {
        s
    } else {
        insert_by_next(sort_by_next(s.drop_last()), s.last())
    }
}

/// Each job paired with the next time after `now` at which it runs.
pub open spec fn schedule_all<F>(jobs: Seq<Job<F>>, now: DateTime) -> Seq<Upcoming<F>> {
    jobs.map_values(|j: Job<F>| (j, j.cron()@.spec_get_next_time(now)))
}

/// The entries of `s` that are due at `now`, in order.
pub open spec fn due_entries<F>(s: Seq<Upcoming<F>>, now: DateTime) -> Seq<Upcoming<F>> {
    s.filter(|e: Upcoming<F>| is_due(e, now))
}

/// The entries of `s` that are not due at `now`, in order.
pub open spec fn waiting_entries<F>(s: Seq<Upcoming<F>>, now: DateTime) -> Seq<Upcoming<F>> {
    s.filter(|e: Upcoming<F>| !is_due(e, now))
}

/// The entries after a tick at `now`: the jobs that are not due, and the
/// due ones with their next time after `now`, ordered by next time.
pub open spec fn after_tick<F>(s: Seq<Upcoming<F>>, now: DateTime) -> Seq<Upcoming<F>> {
    sort_by_next(
        waiting_entries(s, now) + schedule_all(due_entries(s, now).map_values(|e: Upcoming<F>| e.0), now),
    )
}

/// `s` with each job of `jobs` inserted in turn by its next time after its
/// own current time.
pub open spec fn insert_all<F>(s: Seq<Upcoming<F>>, jobs: Seq<(Job<F>, DateTime)>) -> Seq<Upcoming<F>>
    decreases jobs.len(),
{
    if jobs.len() == 0 {
        s
    } else {
        let (job, time) = jobs.last();
        insert_by_next(insert_all(s, jobs.drop_last()), (job, job.cron()@.spec_get_next_time(time)))
    }
}

pub proof fn lemma_datetime_le_transitive(a: DateTime, b: DateTime, c: DateTime)
    requires
        a.not_after(b),
        b.not_after(c),
    ensures
        a.not_after(c),
{
}

pub proof fn lemma_datetime_le_total(a: DateTime, b: DateTime)
    ensures
        a.not_after(b) || b.not_after(a),
{
}

proof fn lemma_next_le_facts()
    ensures
        forall|a: Option<DateTime>, b: Option<DateTime>, c: Option<DateTime>|
            #![trigger next_le(a, b), next_le(b, c)]
            next_le(a, b) && next_le(b, c) ==> next_le(a, c),
        forall|a: Option<DateTime>, b: Option<DateTime>|
            #![trigger next_le(a, b)]
            next_le(a, b) || next_le(b, a),
{
    assert forall|a: Option<DateTime>, b: Option<DateTime>, c: Option<DateTime>|
        next_le(a, b) && next_le(b, c) implies next_le(a, c) by {
        if let (Some(x), Some(y), Some(z)) = (a, b, c) {
            lemma_datetime_le_transitive(x, y, z);
        }
    }
    assert forall|a: Option<DateTime>, b: Option<DateTime>| next_le(a, b) || next_le(b, a) by {
        if let (Some(x), Some(y)) = (a, b) {
            lemma_datetime_le_total(x, y);
        }
    }
}

/// In a sorted sequence, the entries before `p` are not later than `key`
/// and the rest are: `p` is the upper bound.
proof fn lemma_upper_bound_at<F>(s: Seq<Upcoming<F>>, key: Option<DateTime>, p: int)
    requires
        0 <= p <= s.len(),
        forall|i: int| 0 <= i < p ==> next_le(#[trigger] s[i].1, key),
        forall|i: int| p <= i < s.len() ==> !next_le(#[trigger] s[i].1, key),
    ensures
        upper_bound(s, key) == p,
    decreases s.len(),
{
    if s.len() > 0 && p > 0 {
        assert forall|i: int| 0 <= i < p - 1 implies next_le(#[trigger] s.drop_first()[i].1, key) by {
            assert(s.drop_first()[i] == s[i + 1]);
        }
        assert forall|i: int| p - 1 <= i < s.len() - 1 implies !next_le(
            #[trigger] s.drop_first()[i].1,
            key,
        ) by {
            assert(s.drop_first()[i] == s[i + 1]);
        }
        lemma_upper_bound_at(s.drop_first(), key, p - 1);
    }
}

proof fn lemma_upper_bound_range<F>(s: Seq<Upcoming<F>>, key: Option<DateTime>)
    ensures
        0 <= upper_bound(s, key) <= s.len(),
    decreases s.len(),
{
    if s.len() > 0 && next_le(s[0].1, key) {
        lemma_upper_bound_range(s.drop_first(), key);
    }
}

/// Inserting at the upper bound keeps a sorted sequence sorted.
proof fn lemma_insert_sorted<F>(s: Seq<Upcoming<F>>, e: Upcoming<F>, p: int)
    requires
        is_sorted_by_next(s),
        0 <= p <= s.len(),
        forall|i: int| 0 <= i < p ==> next_le(#[trigger] s[i].1, e.1),
        forall|i: int| p <= i < s.len() ==> !next_le(#[trigger] s[i].1, e.1),
    ensures
        is_sorted_by_next(s.insert(p, e)),
{
    lemma_next_le_facts();
    let t = s.insert(p, e);
    assert forall|i: int, j: int| 0 <= i < j < t.len() implies next_le(t[i].1, t[j].1) by {
        if j < p {
            assert(t[i] == s[i] && t[j] == s[j]);
        } else if j == p {
            assert(t[i] == s[i]);
        } else if i < p {
            assert(t[i] == s[i] && t[j] == s[j - 1]);
            assert(next_le(s[i].1, s[j - 1].1));
        } else if i == p {
            assert(t[j] == s[j - 1]);
            assert(!next_le(s[j - 1].1, e.1));
        } else {
            assert(t[i] == s[i - 1] && t[j] == s[j - 1]);
        }
    }
}

/// Whether next time `a` is not later than next time `b`.
fn next_is_le(a: &Option<DateTime>, b: &Option<DateTime>) -> (r: bool)
    ensures
        r == next_le(*a, *b),
{
    match (a, b) {
        (_, None) => true,
        (None, Some(_)) => false,
        (Some(x), Some(y)) => x.is_le(y),
    }
}

/// Whether the next time `a` is due at `now`.
fn next_is_due(a: &Option<DateTime>, now: &DateTime) -> (r: bool)
    ensures
        r == (match *a {
            Some(t) => t.not_after(*now),
            None => false,
        }),
{
    match a {
        Some(t) => t.is_le(now),
        None => false,
    }
}

/// Inserts `e` after every entry whose next time is not later than its own.
fn insert_upcoming<F>(v: &mut Vec<Upcoming<F>>, e: Upcoming<F>)
    requires
        is_sorted_by_next(old(v)@),
    ensures
        final(v)@ == insert_by_next(old(v)@, e),
        is_sorted_by_next(final(v)@),
{
    proof {
        lemma_next_le_facts();
    }
    let mut lo: usize = 0;
    let mut hi: usize = v.len();
    while lo < hi
        invariant
            lo <= hi <= v.len(),
            is_sorted_by_next(v@),
            forall|i: Option<DateTime>, j: Option<DateTime>, k: Option<DateTime>|
                #![trigger next_le(i, j), next_le(j, k)]
                next_le(i, j) && next_le(j, k) ==> next_le(i, k),
            forall|i: int| 0 <= i < lo ==> next_le(#[trigger] v@[i].1, e.1),
            forall|i: int| hi <= i < v.len() ==> !next_le(#[trigger] v@[i].1, e.1),
        decreases hi - lo,
    {
        let mid = lo + (hi - lo) / 2;
        if next_is_le(&v[mid].1, &e.1) {
            assert forall|i: int| 0 <= i < mid + 1 implies next_le(#[trigger] v@[i].1, e.1) by {
                if i < mid {
                    assert(next_le(v@[i].1, v@[mid as int].1));
                }
            }
            lo = mid + 1;
        } else {
            assert forall|i: int| mid <= i < v.len() implies !next_le(#[trigger] v@[i].1, e.1) by {
                if i > mid {
                    assert(next_le(v@[mid as int].1, v@[i].1));
                }
            }
            hi = mid;
        }
    }
    proof {
        lemma_upper_bound_at(v@, e.1, lo as int);
        lemma_insert_sorted(v@, e, lo as int);
    }
    v.insert(lo, e);
}

/// The entries ordered by next time, stably.
fn sort_upcoming<F>(entries: Vec<Upcoming<F>>) -> (r: Vec<Upcoming<F>>)
    ensures
        r@ == sort_by_next(entries@),
        is_sorted_by_next(r@),
{
    let ghost all = entries@;
    let mut sorted: Vec<Upcoming<F>> = Vec::new();
    for e in it: entries.into_iter()
        invariant
            it.seq() == all,
            sorted@ == sort_by_next(all.take(it.index())),
            is_sorted_by_next(sorted@),
    {
        proof {
            assert(all.take(it.index() + 1).drop_last() =~= all.take(it.index()));
            assert(all.take(it.index() + 1).last() == e);
        }
        insert_upcoming(&mut sorted, e);
    }
    proof {
        assert(all.take(all.len() as int) =~= all);
    }
    sorted
}

/// The scheduler for cron [`Job`]s.
///
/// An uninitialized scheduler collects jobs; initializing it computes the
/// next time of every job. An initialized scheduler hands out the jobs that
/// are due at a given time and schedules them anew.
pub struct Scheduler<S, F> {
    scheduled_jobs: Vec<Job<F>>,
    upcoming_jobs: Vec<Upcoming<F>>,
    status: PhantomData<S>,
}

impl<S, F> Scheduler<S, F> {
    /// The jobs added before initialization, in order.
    pub closed spec fn pending(self) -> Seq<Job<F>> {
        self.scheduled_jobs@
    }

    /// The jobs of an initialized scheduler with their next times, ordered by next time.
    pub closed spec fn upcoming(self) -> Seq<Upcoming<F>> {
        self.upcoming_jobs@
    }

    /// The scheduler's state holds together: the upcoming jobs are ordered by
    /// next time. Every scheduler keeps it.
    #[verifier::type_invariant]
    pub closed spec fn wf(self) -> bool {
        is_sorted_by_next(self.upcoming_jobs@)
    }
}

impl<F> Scheduler<Uninitialized, F> {
    /// Creates a new [`Scheduler`] for cron [`Job`]s.
    pub fn new() -> (r: Self)
        ensures
            r.pending() == Seq::<Job<F>>::empty(),
            r.upcoming() == Seq::<Upcoming<F>>::empty(),
    {
        Scheduler { scheduled_jobs: Vec::new(), upcoming_jobs: Vec::new(), status: PhantomData }
    }

    /// Creates a new [`Scheduler`] holding the given [`Job`]s.
    pub fn new_with_jobs(jobs: Vec<Job<F>>) -> (r: Self)
        ensures
            r.pending() == jobs@,
            r.upcoming() == Seq::<Upcoming<F>>::empty(),
    {
        Scheduler { scheduled_jobs: jobs, upcoming_jobs: Vec::new(), status: PhantomData }
    }

    /// Add a [`Job`] to the [`Scheduler`].
    pub fn add_job(&mut self, job: Job<F>)
        ensures
            final(self).pending() == old(self).pending().push(job),
            final(self).upcoming() == old(self).upcoming(),
    {
        proof {
            use_type_invariant(&*self);
        }
        let mut jobs: Vec<Job<F>> = Vec::new();
        core::mem::swap(&mut jobs, &mut self.scheduled_jobs);
        jobs.push(job);
        self.scheduled_jobs = jobs;
    }

    /// Adds every job of `jobs`, in order.
    pub fn extend(&mut self, jobs: Vec<Job<F>>)
        ensures
            final(self).pending() == old(self).pending() + jobs@,
            final(self).upcoming() == old(self).upcoming(),
    {
        let mut jobs = jobs;
        proof {
            use_type_invariant(&*self);
        }
        let mut all: Vec<Job<F>> = Vec::new();
        core::mem::swap(&mut all, &mut self.scheduled_jobs);
        all.append(&mut jobs);
        self.scheduled_jobs = all;
    }

    /// Initializes the scheduler at the current time `curr`: every job gets
    /// the next time after `curr` at which it runs, and the jobs are ordered
    /// by that time.
    pub fn init(self, curr: DateTime) -> (r: Scheduler<Initialized, F>)
        requires
            curr.is_valid(),
        ensures
            r.pending() == Seq::<Job<F>>::empty(),
            r.upcoming() == sort_by_next(schedule_all(self.pending(), curr)),
            is_sorted_by_next(r.upcoming()),
    {
        let ghost jobs = self.scheduled_jobs@;
        let mut entries: Vec<Upcoming<F>> = Vec::new();
        for job in it: self.scheduled_jobs.into_iter()
            invariant
                it.seq() == jobs,
                curr.is_valid(),
                entries@ == schedule_all(jobs.take(it.index()), curr),
        {
            let next = job.get_next_time(curr);
            entries.push((job, next));
            proof {
                assert(entries@ =~= schedule_all(jobs.take(it.index() + 1), curr));
            }
        }
        proof {
            assert(jobs.take(jobs.len() as int) =~= jobs);
        }
        let upcoming_jobs = sort_upcoming(entries);
        Scheduler { scheduled_jobs: Vec::new(), upcoming_jobs, status: PhantomData }
    }
}

impl<F> Scheduler<Initialized, F> {
    /// Add a [`Job`] to the [`Scheduler`] at the current time `curr`: it is
    /// placed after the jobs that run no later than it.
    pub fn add_job(&mut self, job: Job<F>, curr: DateTime)
        requires
            curr.is_valid(),
        ensures
            final(self).upcoming() == insert_by_next(
                old(self).upcoming(),
                (job, job.cron()@.spec_get_next_time(curr)),
            ),
            final(self).upcoming().len() == old(self).upcoming().len() + 1,
            final(self).pending() == old(self).pending(),
            is_sorted_by_next(final(self).upcoming()),
    {
        proof {
            use_type_invariant(&*self);
            lemma_upper_bound_range(self.upcoming(), job.cron()@.spec_get_next_time(curr));
        }
        let next_time = job.get_next_time(curr);
        let mut upcoming: Vec<Upcoming<F>> = Vec::new();
        core::mem::swap(&mut upcoming, &mut self.upcoming_jobs);
        insert_upcoming(&mut upcoming, (job, next_time));
        self.upcoming_jobs = upcoming;
    }

    /// Adds every job of `jobs` in turn, each at its own current time.
    pub fn extend(&mut self, jobs: Vec<(Job<F>, DateTime)>)
        requires
            forall|i: int| 0 <= i < jobs.len() ==> (#[trigger] jobs@[i]).1.is_valid(),
        ensures
            final(self).pending() == old(self).pending(),
            final(self).upcoming() == insert_all(old(self).upcoming(), jobs@),
            final(self).upcoming().len() == old(self).upcoming().len() + jobs.len(),
            is_sorted_by_next(final(self).upcoming()),
    {
        proof {
            use_type_invariant(&*self);
        }
        let ghost all = jobs@;
        let ghost start = self.upcoming();
        for pair in it: jobs.into_iter()
            invariant
                it.seq() == all,
                self.pending() == old(self).pending(),
                start == old(self).upcoming(),
                self.upcoming() == insert_all(start, all.take(it.index())),
                self.upcoming().len() == start.len() + it.index(),
                is_sorted_by_next(self.upcoming()),
                forall|i: int| 0 <= i < all.len() ==> (#[trigger] all[i]).1.is_valid(),
        {
            let (job, time) = pair;
            proof {
                assert(all.take(it.index() + 1).drop_last() =~= all.take(it.index()));
                assert(all.take(it.index() + 1).last() == (job, time));
            }
            self.add_job(job, time);
        }
        proof {
            assert(all.take(all.len() as int) =~= all);
        }
    }

    /// The next times of the upcoming jobs, in order.
    pub fn upcoming_times(&self) -> (r: Vec<Option<DateTime>>)
        ensures
            r@ == self.upcoming().map_values(|e: Upcoming<F>| e.1),
    {
        let mut r: Vec<Option<DateTime>> = Vec::new();
        let mut i: usize = 0;
        while i < self.upcoming_jobs.len()
            invariant
                i <= self.upcoming_jobs.len(),
                r@ == self.upcoming().take(i as int).map_values(|e: Upcoming<F>| e.1),
            decreases self.upcoming_jobs.len() - i,
        {
            r.push(self.upcoming_jobs[i].1);
            proof {
                assert(self.upcoming().take(i + 1).map_values(|e: Upcoming<F>| e.1) =~= self.upcoming().take(
                    i as int,
                ).map_values(|e: Upcoming<F>| e.1).push(self.upcoming_jobs@[i as int].1));
            }
            i = i + 1;
        }
        proof {
            assert(self.upcoming().take(i as int) =~= self.upcoming());
        }
        r
    }
}

impl<F: Clone> Scheduler<Initialized, F> {
    /// Returns the functions of the jobs that are due at `now` (those whose
    /// next time is not later than `now`), in order, and schedules those jobs
    /// anew: each gets the next time after `now`, and all jobs are ordered
    /// by next time again.
    pub fn manual_tick(&mut self, now: DateTime) -> (r: Vec<F>)
        requires
            now.is_valid(),
        ensures
            r.len() == due_entries(old(self).upcoming(), now).len(),
            forall|i: int|
                0 <= i < r.len() ==> cloned::<F>(
                    due_entries(old(self).upcoming(), now)[i].0.function(),
                    #[trigger] r@[i],
                ),
            final(self).upcoming() == sort_by_next(
                waiting_entries(old(self).upcoming(), now) + schedule_all(
                    due_entries(old(self).upcoming(), now).map_values(|e: Upcoming<F>| e.0),
                    now,
                ),
            ),
            final(self).upcoming() == after_tick(old(self).upcoming(), now),
            final(self).pending() == old(self).pending(),
            is_sorted_by_next(final(self).upcoming()),
    {
        let ghost old_up = self.upcoming_jobs@;
        let mut all: Vec<Upcoming<F>> = Vec::new();
        core::mem::swap(&mut all, &mut self.upcoming_jobs);
        let mut waiting: Vec<Upcoming<F>> = Vec::new();
        let mut finished: Vec<Job<F>> = Vec::new();
        let mut futures: Vec<F> = Vec::new();
        for e in it: all.into_iter()
            invariant
                it.seq() == old_up,
                now.is_valid(),
                waiting@ == waiting_entries(old_up.take(it.index()), now),
                finished@ == due_entries(old_up.take(it.index()), now).map_values(
                    |e: Upcoming<F>| e.0,
                ),
                futures.len() == finished.len(),
                forall|i: int|
                    0 <= i < futures.len() ==> cloned::<F>(
                        finished@[i].function(),
                        #[trigger] futures@[i],
                    ),
        {
            let ghost k = it.index();
            proof {
                assert(old_up.take(k + 1) =~= old_up.take(k).push(e));
                reveal(Seq::filter);
                assert(old_up.take(k + 1).drop_last() =~= old_up.take(k));
            }
            let (job, next) = e;
            if next_is_due(&next, &now) {
                assert(is_due(old_up[k], now));
                futures.push(job.func().clone());
                finished.push(job);
            } else {
                waiting.push((job, next));
            }
        }
        proof {
            assert(old_up.take(old_up.len() as int) =~= old_up);
        }
        let ghost rescheduled_jobs = finished@;
        for job in it: finished.into_iter()
            invariant
                it.seq() == rescheduled_jobs,
                now.is_valid(),
                waiting@ == waiting_entries(old_up, now) + schedule_all(rescheduled_jobs.take(it.index()), now),
        {
            let next = job.get_next_time(now);
            waiting.push((job, next));
            proof {
                assert(schedule_all(rescheduled_jobs.take(it.index() + 1), now) =~= schedule_all(rescheduled_jobs.take(it.index()), now).push((job, next)));
            }
        }
        proof {
            assert(rescheduled_jobs.take(rescheduled_jobs.len() as int) =~= rescheduled_jobs);
        }
        self.upcoming_jobs = sort_upcoming(waiting);
        futures
    }
}

impl<S, F> Default for Scheduler<S, F> {
    fn default() -> (r: Self)
        ensures
            r.pending() == Seq::<Job<F>>::empty(),
            r.upcoming() == Seq::<Upcoming<F>>::empty(),
    {
        Scheduler { scheduled_jobs: Vec::new(), upcoming_jobs: Vec::new(), status: PhantomData }
    }
}

/// In a sorted sequence, the entries before the upper bound are not later
/// than the key and the entries from it on are later.
proof fn lemma_upper_bound_split<F>(s: Seq<Upcoming<F>>, key: Option<DateTime>)
    requires
        is_sorted_by_next(s),
    ensures
        forall|i: int| 0 <= i < upper_bound(s, key) ==> next_le(#[trigger] s[i].1, key),
        forall|i: int| upper_bound(s, key) <= i < s.len() ==> !next_le(#[trigger] s[i].1, key),
    decreases s.len(),
{
    lemma_next_le_facts();
    lemma_upper_bound_range(s, key);
    if s.len() > 0 {
        if next_le(s[0].1, key) {
            let t = s.drop_first();
            assert(is_sorted_by_next(t)) by {
                assert forall|i: int, j: int| 0 <= i < j < t.len() implies next_le(t[i].1, t[j].1) by {
                    assert(t[i] == s[i + 1] && t[j] == s[j + 1]);
                }
            }
            lemma_upper_bound_split(t, key);
            assert(upper_bound(s, key) == 1 + upper_bound(t, key));
            assert forall|i: int| 0 <= i < upper_bound(s, key) implies next_le(#[trigger] s[i].1, key) by {
                if i > 0 {
                    assert(s[i] == t[i - 1]);
                }
            }
            assert forall|i: int| upper_bound(s, key) <= i < s.len() implies !next_le(#[trigger] s[i].1, key) by {
                assert(s[i] == t[i - 1]);
            }
        } else {
            assert forall|i: int| 0 <= i < s.len() implies !next_le(#[trigger] s[i].1, key) by {
                if i > 0 {
                    assert(next_le(s[0].1, s[i].1));
                }
            }
        }
    }
}

/// Ordering by next time gives a sorted sequence that holds the same entries.
pub proof fn law_sort_by_next_is_sorted_permutation<F>(s: Seq<Upcoming<F>>)
    ensures
        is_sorted_by_next(sort_by_next(s)),
        sort_by_next(s).to_multiset() == s.to_multiset(),
        sort_by_next(s).len() == s.len(),
    decreases s.len(),
{
    broadcast use vstd::seq_lib::to_multiset_insert, vstd::seq_lib::to_multiset_build;
    if s.len() > 0 {
        let rest = s.drop_last();
        law_sort_by_next_is_sorted_permutation(rest);
        let t = sort_by_next(rest);
        let e = s.last();
        lemma_upper_bound_range(t, e.1);
        lemma_upper_bound_split(t, e.1);
        lemma_insert_sorted(t, e, upper_bound(t, e.1));
        assert(rest.push(e) =~= s);
    }
}

proof fn lemma_filter_partition<F>(s: Seq<Upcoming<F>>, now: DateTime)
    ensures
        due_entries(s, now).len() + waiting_entries(s, now).len() == s.len(),
    decreases s.len(),
{
    reveal(Seq::filter);
    if s.len() > 0 {
        lemma_filter_partition(s.drop_last(), now);
    }
}

/// A tick keeps every job: the scheduler holds as many jobs after it as before.
pub proof fn law_manual_tick_keeps_job_count<F>(s: Seq<Upcoming<F>>, now: DateTime)
    ensures
        sort_by_next(
            waiting_entries(s, now) + schedule_all(
                due_entries(s, now).map_values(|e: Upcoming<F>| e.0),
                now,
            ),
        ).len() == s.len(),
{
    lemma_filter_partition(s, now);
    law_sort_by_next_is_sorted_permutation(
        waiting_entries(s, now) + schedule_all(
            due_entries(s, now).map_values(|e: Upcoming<F>| e.0),
            now,
        ),
    );
}

/// A tick hands out exactly the jobs that are due: every entry that it
/// hands out is due, and every due entry is handed out.
pub proof fn law_manual_tick_hands_out_due_jobs<F>(s: Seq<Upcoming<F>>, now: DateTime)
    ensures
        forall|i: int|
            0 <= i < due_entries(s, now).len() ==> is_due(#[trigger] due_entries(s, now)[i], now),
        forall|i: int|
            0 <= i < s.len() && is_due(#[trigger] s[i], now) ==> due_entries(s, now).contains(s[i]),
        forall|i: int|
            0 <= i < waiting_entries(s, now).len() ==> !is_due(#[trigger] waiting_entries(s, now)[i], now),
{
    broadcast use vstd::seq_lib::group_filter_ensures;

}

/// A tick hands out every job whose next time has come, at `now` or
/// earlier, whatever the date of that time, and holds back every job whose
/// next time lies after `now` or that has none.
pub proof fn law_tick_hands_out_jobs_whose_time_has_come<F>(s: Seq<Upcoming<F>>, now: DateTime)
    ensures
        forall|i: int|
            0 <= i < s.len() ==> (#[trigger] s[i]).1 matches Some(t) && (t.is_before(now) || t == now)
                ==> due_entries(s, now).contains(s[i]) && !waiting_entries(s, now).contains(s[i]),
        forall|i: int|
            0 <= i < s.len() ==> ((#[trigger] s[i]).1 is None || (s[i].1 matches Some(t) && now.is_before(t)))
                ==> waiting_entries(s, now).contains(s[i]) && !due_entries(s, now).contains(s[i]),
{
    broadcast use vstd::seq_lib::group_filter_ensures;

    assert forall|i: int| 0 <= i < s.len() && ((#[trigger] s[i]).1 matches Some(t) && (t.is_before(now) || t == now))
        implies due_entries(s, now).contains(s[i]) && !waiting_entries(s, now).contains(s[i]) by {
        if let Some(t) = s[i].1 {
            if t.is_before(now) || t == now {
                assert(is_due(s[i], now));
                if waiting_entries(s, now).contains(s[i]) {
                    let k = choose|k: int| 0 <= k < waiting_entries(s, now).len() && waiting_entries(s, now)[k] == s[i];
                    assert(!is_due(waiting_entries(s, now)[k], now));
                }
            }
        }
    }
    assert forall|i: int| 0 <= i < s.len() && ((#[trigger] s[i]).1 is None || (s[i].1 matches Some(t) && now.is_before(t)))
        implies waiting_entries(s, now).contains(s[i]) && !due_entries(s, now).contains(s[i]) by {
        if s[i].1 is None || (s[i].1 matches Some(t) && now.is_before(t)) {
            assert(!is_due(s[i], now));
            if due_entries(s, now).contains(s[i]) {
                let k = choose|k: int| 0 <= k < due_entries(s, now).len() && due_entries(s, now)[k] == s[i];
                assert(is_due(due_entries(s, now)[k], now));
            }
        }
    }
}

/// After a tick at `now` no job is due any more: every job that the tick
/// leaves in the scheduler runs only after `now`, or never.
pub proof fn law_tick_leaves_nothing_due<F>(s: Seq<Upcoming<F>>, now: DateTime)
    requires
        now.is_valid(),
    ensures
        forall|i: int|
            0 <= i < after_tick(s, now).len() ==> ((#[trigger] after_tick(s, now)[i]).1 matches Some(t)
                ==> now.is_before(t)),
{
    broadcast use vstd::seq_lib::group_filter_ensures;
    broadcast use vstd::seq_lib::group_to_multiset_ensures;

    let w = waiting_entries(s, now);
    let sch = schedule_all(due_entries(s, now).map_values(|e: Upcoming<F>| e.0), now);
    let all = w + sch;
    let out = after_tick(s, now);
    law_sort_by_next_is_sorted_permutation(all);
    assert forall|i: int| 0 <= i < out.len() implies ((#[trigger] out[i]).1 matches Some(t) ==> now.is_before(t)) by {
        let e = out[i];
        assert(out.contains(e));
        assert(out.to_multiset().count(e) > 0);
        assert(all.contains(e));
        let k = choose|k: int| 0 <= k < all.len() && all[k] == e;
        if k < w.len() {
            assert(w[k] == e);
            assert(!is_due(e, now));
            if let Some(t) = e.1 {
                lemma_datetime_le_total(t, now);
            }
        } else {
            let m = k - w.len();
            assert(sch[m] == e);
            let job = due_entries(s, now).map_values(|e: Upcoming<F>| e.0)[m];
            assert(e.1 == job.cron()@.spec_get_next_time(now));
            crate::cron::parser::next::law_next_time_is_the_next_run(job.cron()@, now);
        }
    }
}

} // verus!
