//! A spoke holds the jobs whose trigger times fall within one half-open
//! interval of time.

use std::collections::HashMap;
use vstd::prelude::*;
use crate::job::{Job, JobBody, JobId, JobMetadata, new_job_id};
use crate::times;

verus! {

/// The half-open interval `[start, end)` of milliseconds that a spoke is
/// responsible for. Intervals are equal when both ends are, and ordered by
/// start, then by end, earliest first.
#[derive(Debug, Clone, Copy, PartialEq, Eq, Structural, PartialOrd, Ord, Hash)]
pub struct BoundingSpokeTime {
    start_time_ms: u64,
    end_time_ms: u64,
}

impl BoundingSpokeTime {
    pub closed spec fn start(self) -> u64 {
        self.start_time_ms
    }

    pub closed spec fn end(self) -> u64 {
        self.end_time_ms
    }

    /// Whether the instant `t` lies within the interval.
    pub open spec fn covers(self, t: u64) -> bool {
        self.start() <= t < self.end()
    }

    /// Whether the interval has begun at the instant `now`.
    pub open spec fn begun_at(self, now: u64) -> bool {
        self.start() <= now
    }

    /// Whether the interval is over at the instant `now`.
    pub open spec fn over_at(self, now: u64) -> bool {
        self.end() < now
    }

    pub fn new(start_time_ms: u64, end_time_ms: u64) -> (r: BoundingSpokeTime)
        ensures
            r.start() == start_time_ms,
            r.end() == end_time_ms,
    {
        BoundingSpokeTime { start_time_ms, end_time_ms }
    }

    pub fn get_start_time_ms(&self) -> (r: u64)
        ensures
            r == self.start(),
    {
        self.start_time_ms
    }

    pub fn get_end_time_ms(&self) -> (r: u64)
        ensures
            r == self.end(),
    {
        self.end_time_ms
    }

    /// Whether `other` starts no earlier than this interval and ends strictly
    /// before it.
    pub fn contains(&self, other: &BoundingSpokeTime) -> (r: bool)
        ensures
            r == (self.start() <= other.start() && other.end() < self.end()),
    {
        self.start_time_ms <= other.start_time_ms && self.end_time_ms > other.end_time_ms
    }

    /// Whether the interval has begun at the instant `now`.
    pub fn is_ready_at(&self, now: u64) -> (r: bool)
        ensures
            r == self.begun_at(now),
    {
        self.start_time_ms <= now
    }

    /// Whether the interval has begun, by the system clock: it has at some
    /// instant, so one that starts at 0 always has.
    pub fn is_ready(&self) -> (r: bool)
        ensures
            exists|now: u64| #[trigger] self.begun_at(now) == r,
            self.start() == 0 ==> r,
    {
        let now = times::current_time_ms();
        self.is_ready_at(now)
    }

    /// Whether the interval is over at the instant `now`.
    pub fn is_expired_at(&self, now: u64) -> (r: bool)
        ensures
            r == self.over_at(now),
    {
        self.end_time_ms < now
    }

    /// Whether the interval is over, by the system clock: it is at some
    /// instant, so one that ends at `u64::MAX` never is.
    pub fn is_expired(&self) -> (r: bool)
        ensures
            exists|now: u64| #[trigger] self.over_at(now) == r,
            self.end() == u64::MAX ==> !r,
    {
        let now = times::current_time_ms();
        self.is_expired_at(now)
    }
}

/// Queue entries ordered latest trigger first, so that the next to fire is
/// the last.
pub open spec fn latest_first(q: Seq<JobMetadata>) -> bool {
    forall|i: int, j: int| 0 <= i < j < q.len() ==> q[i].trigger() >= q[j].trigger()
}

/// Whether some entry of `q` has the identity `id`.
pub open spec fn queued(q: Seq<JobMetadata>, id: JobId) -> bool {
    exists|i: int| 0 <= i < q.len() && #[trigger] q[i].id() == id
}

/// The metadata and body of each job of `jobs`, in order.
pub open spec fn parts(jobs: Seq<Job>) -> Seq<(JobMetadata, JobBody)> {
    jobs.map_values(|j: Job| (j.metadata(), j.body()))
}

/// Walking the queue `q` with the bodies `b` at the instant `now`: the jobs
/// handed out, as metadata and body in the order they leave; the queue left;
/// the bodies left. Entries leave from the end while they are due. One whose
/// body is gone (the job was cancelled, or an earlier entry with its identity
/// took the body) is dropped.
pub open spec fn walk_spec(q: Seq<JobMetadata>, b: Map<JobId, JobBody>, now: u64) -> (
    Seq<(JobMetadata, JobBody)>,
    Seq<JobMetadata>,
    Map<JobId, JobBody>,
)
    decreases q.len(),
{
    if q.len() == 0 || q.last().trigger() > now {
        (Seq::empty(), q, b)
    } else {
        let m = q.last();
        if b.contains_key(m.id()) {
            let r = walk_spec(q.drop_last(), b.remove(m.id()), now);
            (seq![(m, b[m.id()])] + r.0, r.1, r.2)
        } else {
            walk_spec(q.drop_last(), b, now)
        }
    }
}

/// A time-bounded queue of jobs. Job metadata waits in `job_list`, latest
/// trigger first; bodies wait in `job_id_map`, keyed by identity. Cancelling
/// a job removes its body only: its entry is dropped when it leaves the queue.
#[derive(Debug)]
pub struct Spoke {
    /// A random identity of the spoke itself, the bits of a v4 UUID.
    id: u128,
    bst: BoundingSpokeTime,
    job_id_map: HashMap<JobId, JobBody>,
    job_list: Vec<JobMetadata>,
}

impl Spoke {
    pub closed spec fn bounds(self) -> BoundingSpokeTime {
        self.bst
    }

    /// The queued metadata, latest trigger first.
    pub closed spec fn queue(self) -> Seq<JobMetadata> {
        self.job_list@
    }

    /// The bodies of the jobs still pending, by identity.
    pub closed spec fn bodies(self) -> Map<JobId, JobBody> {
        self.job_id_map@
    }

    /// The queue is ordered, every entry lies within the bounds, and every
    /// pending body has an entry in the queue.
    pub open spec fn wf(self) -> bool {
        &&& latest_first(self.queue())
        &&& forall|i: int|
            0 <= i < self.queue().len() ==> self.bounds().covers(#[trigger] self.queue()[i].trigger())
        &&& forall|id: JobId| #[trigger] self.bodies().contains_key(id) ==> queued(self.queue(), id)
    }

    /// Whether the spoke takes a job due at `t` at the instant `now`: it is
    /// not expired and its bounds cover `t`.
    pub open spec fn accepts(self, t: u64, now: u64) -> bool {
        !(self.bounds().end() < now) && self.bounds().covers(t)
    }

    /// `after` is `before` once `job` was offered at the instant `now`, with
    /// `r` returned: taken in, placed after the entries due later and before
    /// those due no later, if the spoke accepts it; else handed back with the
    /// spoke unchanged.
    pub open spec fn offered(before: Spoke, after: Spoke, job: Job, now: u64, r: Option<Job>) -> bool {
        &&& after.bounds() == before.bounds()
        &&& if before.accepts(job.trigger(), now) {
            &&& r is None
            &&& after.bodies() == before.bodies().insert(job.id(), job.body())
            &&& exists|i: int|
                0 <= i <= before.queue().len() && after.queue() == before.queue().insert(
                    i,
                    job.metadata(),
                ) && (forall|j: int|
                    0 <= j < i ==> #[trigger] before.queue()[j].trigger() > job.trigger()) && (
                forall|j: int|
                    i <= j < before.queue().len() ==> #[trigger] before.queue()[j].trigger()
                        <= job.trigger())
        } else {
            &&& r == Some(job)
            &&& after == before
        }
    }

    /// An empty spoke over `bst`.
    pub fn new_from_bounds(bst: BoundingSpokeTime) -> (r: Spoke)
        ensures
            r.wf(),
            r.bounds() == bst,
            r.queue() == Seq::<JobMetadata>::empty(),
            r.bodies() == Map::<JobId, JobBody>::empty(),
    {
        Spoke { id: new_job_id(), bst, job_id_map: HashMap::new(), job_list: Vec::new() }
    }

    /// An empty spoke over `[start_time_ms, start_time_ms + duration_ms)`.
    pub fn new(start_time_ms: u64, duration_ms: u64) -> (r: Spoke)
        requires
            start_time_ms + duration_ms <= u64::MAX,
        ensures
            r.wf(),
            r.bounds().start() == start_time_ms,
            r.bounds().end() == start_time_ms + duration_ms,
            r.queue() == Seq::<JobMetadata>::empty(),
            r.bodies() == Map::<JobId, JobBody>::empty(),
    {
        Spoke::new_from_bounds(BoundingSpokeTime::new(start_time_ms, start_time_ms + duration_ms))
    }

    /// An empty spoke that starts now, by the system clock, and lasts
    /// `duration_ms`, or up to `u64::MAX` where that is sooner.
    pub fn new_from_now(duration_ms: u64) -> (r: Spoke)
        ensures
            r.wf(),
            r.bounds().end() == (if r.bounds().start() + duration_ms <= u64::MAX {
                r.bounds().start() + duration_ms
            } else {
                u64::MAX as int
            }),
            r.queue() == Seq::<JobMetadata>::empty(),
            r.bodies() == Map::<JobId, JobBody>::empty(),
    {
        let now = times::current_time_ms();
        let end = if now <= u64::MAX - duration_ms {
            now + duration_ms
        } else {
            u64::MAX
        };
        Spoke::new_from_bounds(BoundingSpokeTime::new(now, end))
    }

    /// Offers `job` to the spoke at the instant `now`. The spoke takes it,
    /// and returns `None`, when it is not expired and its bounds cover the
    /// job's trigger time; otherwise it hands the job back unchanged.
    pub fn add_job_at(&mut self, job: Job, now: u64) -> (r: Option<Job>)
        requires
            old(self).wf(),
        ensures
            final(self).wf(),
            Spoke::offered(*old(self), *final(self), job, now, r),
    {
        let t = job.trigger_at_ms();
        if self.bst.end_time_ms < now {
            return Some(job);
        }
        if !(self.bst.start_time_ms <= t && t < self.bst.end_time_ms) {
            return Some(job);
        }
        let ghost q0 = self.job_list@;
        let mut i: usize = 0;
        while i < self.job_list.len() && self.job_list[i].trigger_at_ms() > t
            invariant
                self.job_list@ == q0,
                0 <= i <= q0.len(),
                forall|j: int| 0 <= j < i ==> #[trigger] q0[j].trigger() > t,
            decreases q0.len() - i,
        {
            i = i + 1;
        }
        assert(forall|j: int| i <= j < q0.len() ==> #[trigger] q0[j].trigger() <= t) by {
            assert forall|j: int| i <= j < q0.len() implies #[trigger] q0[j].trigger() <= t by {
                assert(q0[i as int].trigger() <= t);
                if j > i {
                    assert(q0[i as int].trigger() >= q0[j].trigger());
                }
            }
        }
        let (jm, body) = job.into_parts();
        let id = jm.get_id();
        self.job_list.insert(i, jm);
        self.job_id_map.insert(id, body);
        proof {
            let q1 = self.job_list@;
            assert(q1 == q0.insert(i as int, jm));
            assert forall|a: int, b: int| 0 <= a < b < q1.len() implies q1[a].trigger()
                >= q1[b].trigger() by {
                if a < i && b > i {
                    assert(q1[a] == q0[a]);
                    assert(q1[b] == q0[b - 1]);
                } else if a < i && b == i {
                } else if a < i {
                    assert(q0[a].trigger() >= q0[b].trigger());
                } else if a == i {
                    assert(q1[b] == q0[b - 1]);
                } else {
                    assert(q1[a] == q0[a - 1]);
                    assert(q1[b] == q0[b - 1]);
                    assert(q0[a - 1].trigger() >= q0[b - 1].trigger());
                }
            }
            assert forall|k: int| 0 <= k < q1.len() implies self.bst.covers(
                #[trigger] q1[k].trigger(),
            ) by {
                if k < i {
                    assert(q1[k] == q0[k]);
                } else if k > i {
                    assert(q1[k] == q0[k - 1]);
                }
            }
            assert forall|x: JobId| #[trigger] self.job_id_map@.contains_key(x) implies queued(
                q1,
                x,
            ) by {
                if x == id {
                    assert(q1[i as int].id() == x);
                } else {
                    assert(old(self).bodies().contains_key(x));
                    assert(queued(q0, x));
                    let k = choose|k: int| 0 <= k < q0.len() && #[trigger] q0[k].id() == x;
                    if k < i {
                        assert(q1[k] == q0[k]);
                    } else {
                        assert(q1[k + 1] == q0[k]);
                    }
                }
            }
        }
        None
    }
}



/// What walking an ordered queue yields: only entries of the queue, each due
/// at `now`, in non-decreasing trigger order; and what stays is an initial
/// part of the queue, each entry due after `now`.
pub proof fn lemma_walk_spec(q: Seq<JobMetadata>, b: Map<JobId, JobBody>, now: u64)
    requires
        latest_first(q),
    ensures
        ({
            let r = walk_spec(q, b, now);
            &&& r.1.len() <= q.len()
            &&& r.1 == q.subrange(0, r.1.len() as int)
            &&& forall|i: int| 0 <= i < r.1.len() ==> #[trigger] r.1[i].trigger() > now
            &&& forall|i: int| 0 <= i < r.0.len() ==> q.contains(#[trigger] r.0[i].0)
            &&& forall|i: int| 0 <= i < r.0.len() ==> #[trigger] r.0[i].0.trigger() <= now
            &&& forall|i: int, j: int|
                0 <= i < j < r.0.len() ==> r.0[i].0.trigger() <= r.0[j].0.trigger()
        }),
    decreases q.len(),
{
    let r = walk_spec(q, b, now);
    if q.len() == 0 || q.last().trigger() > now {
        assert(r.1 =~= q.subrange(0, q.len() as int));
        assert forall|i: int| 0 <= i < r.1.len() implies #[trigger] r.1[i].trigger() > now by {
            if i < q.len() - 1 {
                assert(q[i].trigger() >= q[q.len() - 1].trigger());
            }
        }
    } else {
        let m = q.last();
        let rest = q.drop_last();
        assert(latest_first(rest));
        let b2 = if b.contains_key(m.id()) {
            b.remove(m.id())
        } else {
            b
        };
        lemma_walk_spec(rest, b2, now);
        let s = walk_spec(rest, b2, now);
        assert(r.1 == s.1);
        assert(r.1 =~= q.subrange(0, r.1.len() as int)) by {
            assert forall|i: int| 0 <= i < r.1.len() implies r.1[i] == q[i] by {
                assert(s.1[i] == rest.subrange(0, s.1.len() as int)[i]);
            }
        }
        assert forall|i: int| 0 <= i < s.0.len() implies q.contains(#[trigger] s.0[i].0) by {
            assert(rest.contains(s.0[i].0));
            let k = choose|k: int| 0 <= k < rest.len() && rest[k] == s.0[i].0;
            assert(q[k] == rest[k]);
        }
        assert forall|i: int| 0 <= i < s.0.len() implies m.trigger() <= #[trigger] s.0[i].0.trigger() by {
            assert(rest.contains(s.0[i].0));
            let k = choose|k: int| 0 <= k < rest.len() && rest[k] == s.0[i].0;
            assert(q[k] == rest[k]);
            assert(q[k].trigger() >= q[q.len() - 1].trigger());
        }
        if b.contains_key(m.id()) {
            assert(r.0 == seq![(m, b[m.id()])] + s.0);
            assert(q.contains(m)) by {
                assert(q[q.len() - 1] == m);
            }
            assert forall|i: int| 0 <= i < r.0.len() implies q.contains(#[trigger] r.0[i].0) by {
                if i > 0 {
                    assert(r.0[i] == s.0[i - 1]);
                }
            }
            assert forall|i: int| 0 <= i < r.0.len() implies #[trigger] r.0[i].0.trigger() <= now by {
                if i > 0 {
                    assert(r.0[i] == s.0[i - 1]);
                }
            }
            assert forall|i: int, j: int|
                0 <= i < j < r.0.len() implies r.0[i].0.trigger() <= r.0[j].0.trigger() by {
                assert(r.0[j] == s.0[j - 1]);
                if i > 0 {
                    assert(r.0[i] == s.0[i - 1]);
                }
            }
        }
    }
}

impl Spoke {
    /// Hands out, soonest first, every job due at the instant `now`. The
    /// queue and the bodies are left as `walk_spec` says.
    pub fn walk_at(&mut self, now: u64) -> (r: Vec<Job>)
        requires
            old(self).wf(),
        ensures
            final(self).wf(),
            final(self).bounds() == old(self).bounds(),
            parts(r@) == walk_spec(old(self).queue(), old(self).bodies(), now).0,
            final(self).queue() == walk_spec(old(self).queue(), old(self).bodies(), now).1,
            final(self).bodies() == walk_spec(old(self).queue(), old(self).bodies(), now).2,
    {
        let ghost w = walk_spec(self.job_list@, self.job_id_map@, now);
        let mut ready_jobs: Vec<Job> = Vec::new();
        loop
            invariant
                self.wf(),
                self.bst == old(self).bst,
                w == walk_spec(old(self).queue(), old(self).bodies(), now),
                w.0 == parts(ready_jobs@) + walk_spec(self.queue(), self.bodies(), now).0,
                w.1 == walk_spec(self.queue(), self.bodies(), now).1,
                w.2 == walk_spec(self.queue(), self.bodies(), now).2,
            ensures
                self.wf(),
                self.bst == old(self).bst,
                self.queue().len() == 0 || self.queue().last().trigger() > now,
                w.0 == parts(ready_jobs@) + walk_spec(self.queue(), self.bodies(), now).0,
                w.1 == walk_spec(self.queue(), self.bodies(), now).1,
                w.2 == walk_spec(self.queue(), self.bodies(), now).2,
            decreases self.job_list@.len(),
        {
            let n = self.job_list.len();
            if n == 0 {
                break;
            }
            if !self.job_list[n - 1].is_ready_at(now) {
                break;
            }
            let ghost q0 = self.job_list@;
            let ghost b0 = self.job_id_map@;
            let ghost done = ready_jobs@;
            let jm = self.job_list[n - 1];
            self.job_list.truncate(n - 1);
            assert(self.job_list@ == q0.drop_last());
            let id = jm.get_id();
            assert(jm == q0.last());
            match self.job_id_map.remove(&id) {
                Some(body) => {
                    let job = Job::new_from_metadata(jm, body);
                    ready_jobs.push(job);
                    proof {
                        assert(b0.contains_key(id));
                        assert(body == b0[id]);
                        assert(parts(ready_jobs@) =~= parts(done).push((jm, body)));
                        let rest = walk_spec(q0.drop_last(), b0.remove(id), now);
                        assert(self.job_id_map@ == b0.remove(id));
                        assert(walk_spec(q0, b0, now) == (seq![(jm, body)] + rest.0, rest.1, rest.2));
                        assert(parts(done) + (seq![(jm, body)] + rest.0) =~= parts(
                            ready_jobs@,
                        ) + rest.0);
                    }
                },
                None => {
                    assert(!b0.contains_key(id));
                    assert(self.job_id_map@ =~= b0);
                    assert(walk_spec(q0, b0, now) == walk_spec(q0.drop_last(), b0, now));
                },
            }
            proof {
                let q1 = self.job_list@;
                assert forall|x: JobId| #[trigger] self.job_id_map@.contains_key(x) implies queued(
                    q1,
                    x,
                ) by {
                    assert(b0.contains_key(x));
                    assert(queued(q0, x));
                    let k = choose|k: int| 0 <= k < q0.len() && #[trigger] q0[k].id() == x;
                    if k == q0.len() - 1 {
                        assert(false);
                    }
                    assert(q1[k] == q0[k]);
                }
            }
        }
        proof {
            lemma_walk_spec(self.queue(), self.bodies(), now);
            assert(walk_spec(self.queue(), self.bodies(), now).0 == Seq::<
                (JobMetadata, JobBody),
            >::empty());
            assert(w.0 =~= parts(ready_jobs@));
        }
        ready_jobs
    }
}

impl Spoke {
    /// Offers `job` to the spoke, reading the system clock for whether the
    /// spoke has expired: what `add_job_at` does at some instant. A job
    /// outside the bounds is always handed back; one inside the bounds of a
    /// spoke that ends at `u64::MAX` is always taken.
    pub fn add_job(&mut self, job: Job) -> (r: Option<Job>)
        requires
            old(self).wf(),
        ensures
            final(self).wf(),
            exists|now: u64| #[trigger] Spoke::offered(*old(self), *final(self), job, now, r),
            !old(self).bounds().covers(job.trigger()) ==> r == Some(job),
            old(self).bounds().end() == u64::MAX && old(self).bounds().covers(job.trigger())
                ==> r is None,
    {
        let now = times::current_time_ms();
        self.add_job_at(job, now)
    }

    /// Hands out, soonest first, every job due now by the system clock: what
    /// `walk_at` does at some instant.
    pub fn walk(&mut self) -> (r: Vec<Job>)
        requires
            old(self).wf(),
        ensures
            final(self).wf(),
            final(self).bounds() == old(self).bounds(),
            exists|now: u64|
                #[trigger] walk_spec(old(self).queue(), old(self).bodies(), now) == (
                    parts(r@),
                    final(self).queue(),
                    final(self).bodies(),
                ),
    {
        let now = times::current_time_ms();
        let r = self.walk_at(now);
        assert(walk_spec(old(self).queue(), old(self).bodies(), now) == (
            parts(r@),
            self.queue(),
            self.bodies(),
        ));
        r
    }

    /// Cancels the job `id`: removes its body and says whether there was
    /// one. Its queue entry stays, and is dropped when it leaves the queue.
    pub fn cancel_job(&mut self, id: JobId) -> (r: bool)
        requires
            old(self).wf(),
        ensures
            final(self).wf(),
            r == old(self).bodies().contains_key(id),
            final(self).bodies() == old(self).bodies().remove(id),
            final(self).queue() == old(self).queue(),
            final(self).bounds() == old(self).bounds(),
    {
        let r = self.job_id_map.remove(&id);
        proof {
            assert forall|x: JobId| #[trigger] self.job_id_map@.contains_key(x) implies queued(
                self.job_list@,
                x,
            ) by {
                assert(old(self).bodies().contains_key(x));
            }
        }
        r.is_some()
    }

    /// Whether the job `id` is pending in this spoke.
    pub fn owns_job(&self, id: JobId) -> (r: bool)
        ensures
            r == self.bodies().contains_key(id),
    {
        self.job_id_map.contains_key(&id)
    }

    /// The number of jobs pending: those with a body, not counting entries
    /// of cancelled jobs still in the queue.
    pub fn pending_job_len(&self) -> (r: usize)
        ensures
            r == self.bodies().len(),
    {
        self.job_id_map.len()
    }

    /// The number of entries in the queue, those of cancelled jobs included.
    pub fn queue_len(&self) -> (r: usize)
        ensures
            r == self.queue().len(),
    {
        self.job_list.len()
    }

    /// Whether the spoke has begun at the instant `now`.
    pub fn is_ready_at(&self, now: u64) -> (r: bool)
        ensures
            r == self.bounds().begun_at(now),
    {
        self.bst.is_ready_at(now)
    }

    /// Whether the spoke has begun, by the system clock: it has at some
    /// instant, so the past spoke always has.
    pub fn is_ready(&self) -> (r: bool)
        ensures
            exists|now: u64| #[trigger] self.bounds().begun_at(now) == r,
            self.bounds().start() == 0 ==> r,
    {
        let now = times::current_time_ms();
        self.is_ready_at(now)
    }

    pub fn get_bounds(&self) -> (r: BoundingSpokeTime)
        ensures
            r == self.bounds(),
    {
        self.bst
    }

    /// Whether the spoke is over at the instant `now`. An expired spoke takes
    /// no more jobs; jobs can still leave it.
    pub fn is_expired_at(&self, now: u64) -> (r: bool)
        ensures
            r == self.bounds().over_at(now),
    {
        self.bst.is_expired_at(now)
    }

    /// Whether the spoke is over, by the system clock: it is at some
    /// instant, so the past spoke never is.
    pub fn is_expired(&self) -> (r: bool)
        ensures
            exists|now: u64| #[trigger] self.bounds().over_at(now) == r,
            self.bounds().end() == u64::MAX ==> !r,
    {
        let now = times::current_time_ms();
        self.is_expired_at(now)
    }
}

/// Two spokes are equal when their bounds are.
impl PartialEq for Spoke {
    fn eq(&self, other: &Spoke) -> (r: bool) {
        self.bst == other.bst
    }
}

impl vstd::std_specs::cmp::PartialEqSpecImpl for Spoke {
    open spec fn obeys_eq_spec() -> bool {
        true
    }

    open spec fn eq_spec(&self, other: &Spoke) -> bool {
        self.bounds() == other.bounds()
    }
}

impl Eq for Spoke {
}

} // verus!
