//! The hub: an ordered run of spokes of one width, plus a spoke for jobs
//! that arrive already due. It routes jobs to spokes, hands out the jobs
//! that are due, finds and cancels jobs, and prunes spokes that are over.

use vstd::prelude::*;
use crate::job::{Job, JobBody, JobId, JobMetadata};
use crate::spoke::{BoundingSpokeTime, Spoke, parts, walk_spec};
use crate::times::{self, bucket_start, floor_to_bucket, lemma_bucket_start};

verus! {

/// Why a hub could not be made.
#[derive(Debug, Clone, Copy, PartialEq, Eq, Structural)]
pub enum HubError {
    /// The spoke duration was zero.
    ZeroSpokeDuration,
}

/// A regular spoke of a hub with spokes of width `w`: well formed, exactly
/// `w` wide, and starting at a multiple of `w`.
pub open spec fn regular_spoke(s: Spoke, w: u64) -> bool {
    &&& s.wf()
    &&& s.bounds().end() == s.bounds().start() + w
    &&& s.bounds().start() % w == 0
}

/// `after` is `before` with `job` taken in.
pub open spec fn took(before: Spoke, after: Spoke, job: Job) -> bool {
    &&& after.bounds() == before.bounds()
    &&& after.bodies() == before.bodies().insert(job.id(), job.body())
    &&& exists|i: int|
        0 <= i <= before.queue().len() && after.queue() == before.queue().insert(
            i,
            job.metadata(),
        )
}

/// `after` is the spokes `before` once `job` went to the spoke of its
/// bucket: the one that starts at the bucket's start if there is one, else a
/// new spoke over the bucket that holds just the job, put in its place.
pub open spec fn bucket_added(before: Seq<Spoke>, after: Seq<Spoke>, job: Job, w: u64) -> bool {
    let k = bucket_start(job.trigger(), w);
    if exists|i: int| 0 <= i < before.len() && #[trigger] before[i].bounds().start() == k {
        exists|i: int|
            0 <= i < before.len() && #[trigger] before[i].bounds().start() == k && after
                == before.update(i, after[i]) && took(before[i], after[i], job)
    } else {
        exists|i: int|
            0 <= i <= before.len() && after == before.insert(i, #[trigger] after[i])
                && after[i].bounds().start() == k && after[i].bounds().end() == k + w
                && after[i].bodies() == Map::<JobId, JobBody>::empty().insert(job.id(), job.body())
                && after[i].queue() == seq![job.metadata()]
    }
}

/// A hub of spokes of width `spoke_duration_ms`, ordered by start, and the
/// spoke `[0, u64::MAX)` for jobs that were already due when they came.
#[derive(Debug)]
pub struct Hub {
    spoke_duration_ms: u64,
    spokes: Vec<Spoke>,
    past_spoke: Spoke,
}

impl Hub {
    pub closed spec fn duration(self) -> u64 {
        self.spoke_duration_ms
    }

    /// The regular spokes, by start.
    pub closed spec fn spokes(self) -> Seq<Spoke> {
        self.spokes@
    }

    pub closed spec fn past(self) -> Spoke {
        self.past_spoke
    }

    /// The width is positive; the past spoke spans `[0, u64::MAX)`; every
    /// regular spoke is one bucket wide, and they start in increasing order.
    pub open spec fn wf(self) -> bool {
        &&& self.duration() > 0
        &&& self.past().wf()
        &&& self.past().bounds().start() == 0
        &&& self.past().bounds().end() == u64::MAX
        &&& forall|i: int|
            0 <= i < self.spokes().len() ==> regular_spoke(#[trigger] self.spokes()[i], self.duration())
        &&& forall|i: int, j: int|
            0 <= i < j < self.spokes().len() ==> self.spokes()[i].bounds().start()
                < self.spokes()[j].bounds().start()
    }

    /// Whether a job due at `t` can be routed: the end of its bucket fits in
    /// a `u64`.
    pub open spec fn routable(self, t: u64) -> bool {
        bucket_start(t, self.duration()) + self.duration() <= u64::MAX
    }

    /// `after` is `before` once `job` was routed at the instant `now`: to the past
    /// spoke when it is already due, else to the spoke of its bucket.
    pub open spec fn added(before: Hub, after: Hub, job: Job, now: u64) -> bool {
        &&& after.duration() == before.duration()
        &&& if job.trigger() < now {
            &&& after.spokes() == before.spokes()
            &&& took(before.past(), after.past(), job)
        } else {
            &&& after.past() == before.past()
            &&& bucket_added(before.spokes(), after.spokes(), job, before.duration())
        }
    }

    /// A hub whose spokes last `spoke_duration_ms`, which must be positive.
    pub fn new(spoke_duration_ms: u64) -> (r: Result<Hub, HubError>)
        ensures
            r is Err <==> spoke_duration_ms == 0,
            r matches Err(e) ==> e == HubError::ZeroSpokeDuration,
            r matches Ok(h) ==> {
                &&& h.wf()
                &&& h.duration() == spoke_duration_ms
                &&& h.spokes().len() == 0
                &&& h.past().queue().len() == 0
                &&& h.past().bodies().len() == 0
            },
    {
        if spoke_duration_ms == 0 {
            return Err(HubError::ZeroSpokeDuration);
        }
        Ok(Hub { spoke_duration_ms, spokes: Vec::new(), past_spoke: Spoke::new(0, u64::MAX) })
    }

    pub fn spoke_duration_ms(&self) -> (r: u64)
        ensures
            r == self.duration(),
    {
        self.spoke_duration_ms
    }

    /// The number of regular spokes.
    pub fn spoke_count(&self) -> (r: usize)
        ensures
            r == self.spokes().len(),
    {
        self.spokes.len()
    }

    /// The spoke that takes jobs that are already due.
    pub fn past_spoke(&self) -> (r: &Spoke)
        ensures
            *r == self.past(),
    {
        &self.past_spoke
    }

    /// The bucket of width `spoke_duration_ms` that holds the job's trigger
    /// time: the interval a spoke that owns the job spans.
    pub fn job_bounding_spoke_time(job: &Job, spoke_duration_ms: u64) -> (r: BoundingSpokeTime)
        requires
            spoke_duration_ms > 0,
            bucket_start(job.trigger(), spoke_duration_ms) + spoke_duration_ms <= u64::MAX,
        ensures
            r.start() == bucket_start(job.trigger(), spoke_duration_ms),
            r.end() == r.start() + spoke_duration_ms,
            r.covers(job.trigger()),
    {
        let start = floor_to_bucket(job.trigger_at_ms(), spoke_duration_ms);
        BoundingSpokeTime::new(start, start + spoke_duration_ms)
    }

    /// Where the regular spoke starting at `start` is (`Ok`), or where one
    /// would go (`Err`).
    fn locate_spoke(&self, start: u64) -> (r: Result<usize, usize>)
        requires
            self.wf(),
        ensures
            match r {
                Ok(i) => i < self.spokes().len() && self.spokes()[i as int].bounds().start()
                    == start,
                Err(i) => {
                    &&& i <= self.spokes().len()
                    &&& forall|j: int|
                        0 <= j < i ==> #[trigger] self.spokes()[j].bounds().start() < start
                    &&& forall|j: int|
                        i <= j < self.spokes().len() ==> #[trigger] self.spokes()[j].bounds().start()
                            > start
                },
            },
    {
        let mut lo: usize = 0;
        let mut hi: usize = self.spokes.len();
        while lo < hi
            invariant
                self.wf(),
                0 <= lo <= hi <= self.spokes().len(),
                forall|j: int| 0 <= j < lo ==> #[trigger] self.spokes()[j].bounds().start() < start,
                forall|j: int|
                    hi <= j < self.spokes().len() ==> #[trigger] self.spokes()[j].bounds().start()
                        > start,
            decreases hi - lo,
        {
            let mid = lo + (hi - lo) / 2;
            let s = self.spokes[mid].get_bounds().get_start_time_ms();
            if s == start {
                return Ok(mid);
            } else if s < start {
                assert forall|j: int| 0 <= j <= mid implies #[trigger] self.spokes()[j].bounds().start()
                    < start by {
                    if j < mid {
                        assert(self.spokes()[j].bounds().start() < self.spokes()[mid as int].bounds().start());
                    }
                }
                lo = mid + 1;
            } else {
                assert forall|j: int| mid <= j < self.spokes().len() implies #[trigger] self.spokes()[j].bounds().start()
                    > start by {
                    if j > mid {
                        assert(self.spokes()[mid as int].bounds().start() < self.spokes()[j].bounds().start());
                    }
                }
                hi = mid;
            }
        }
        Err(lo)
    }
}

impl Hub {
    /// Routes `job` at the instant `now`. A job due before `now` goes to the
    /// past spoke. Any other goes to the spoke of its bucket, which is made
    /// when there is none. Every spoke it is offered to takes it.
    pub fn add_job_at(&mut self, job: Job, now: u64)
        requires
            old(self).wf(),
            job.trigger() >= now ==> old(self).routable(job.trigger()),
        ensures
            final(self).wf(),
            Hub::added(*old(self), *final(self), job, now),
    {
        match self.maybe_add_job_to_past(job, now) {
            Some(j) => self.add_job_to_spokes(j, now),
            None => {},
        }
    }

    /// Gives `job` to the past spoke if it is due before `now`, and returns
    /// `None`; hands any other job back.
    fn maybe_add_job_to_past(&mut self, job: Job, now: u64) -> (r: Option<Job>)
        requires
            old(self).wf(),
        ensures
            final(self).wf(),
            final(self).duration() == old(self).duration(),
            final(self).spokes() == old(self).spokes(),
            if job.trigger() < now {
                &&& r is None
                &&& took(old(self).past(), final(self).past(), job)
            } else {
                &&& r == Some(job)
                &&& final(self).past() == old(self).past()
            },
    {
        if job.trigger_at_ms() < now {
            let ghost p0 = self.past_spoke;
            let rejected = self.past_spoke.add_job_at(job, now);
            assert(rejected is None);
            assert(took(p0, self.past_spoke, job));
            assert(self.spokes() == old(self).spokes());
            assert(self.past().bounds() == old(self).past().bounds());
            return None;
        }
        Some(job)
    }

    /// Whether a job due at `t` can be routed: the end of its bucket fits in
    /// a `u64`.
    pub fn can_route(&self, t: u64) -> (r: bool)
        requires
            self.wf(),
        ensures
            r == self.routable(t),
    {
        let start = floor_to_bucket(t, self.spoke_duration_ms);
        start <= u64::MAX - self.spoke_duration_ms
    }

    /// Routes a job that is not yet due to the spoke of its bucket.
    fn add_job_to_spokes(&mut self, job: Job, now: u64)
        requires
            old(self).wf(),
            old(self).routable(job.trigger()),
            job.trigger() >= now,
        ensures
            final(self).wf(),
            final(self).duration() == old(self).duration(),
            final(self).past() == old(self).past(),
            bucket_added(old(self).spokes(), final(self).spokes(), job, old(self).duration()),
    {
        let w = self.spoke_duration_ms;
        let ghost t = job.trigger();
        let ghost s0 = self.spokes@;
        proof {
            lemma_bucket_start(t, w);
        }
        let bst = Hub::job_bounding_spoke_time(&job, w);
        let key = bst.get_start_time_ms();
        match self.locate_spoke(key) {
            Ok(i) => {
                let ghost before = self.spokes@[i as int];
                let rejected = self.spokes[i].add_job_at(job, now);
                assert(rejected is None);
                proof {
                    let s1 = self.spokes@;
                    assert(s1 == s0.update(i as int, s1[i as int]));
                    assert(took(before, s1[i as int], job));
                    assert(regular_spoke(s1[i as int], w));
                    assert forall|j: int| 0 <= j < s1.len() implies regular_spoke(
                        #[trigger] s1[j],
                        w,
                    ) by {
                        if j != i {
                            assert(s1[j] == s0[j]);
                        }
                    }
                    assert forall|a: int, b: int|
                        0 <= a < b < s1.len() implies s1[a].bounds().start()
                        < s1[b].bounds().start() by {
                        assert(s1[a].bounds() == s0[a].bounds());
                        assert(s1[b].bounds() == s0[b].bounds());
                    }
                    assert(s0[i as int].bounds().start() == key);
                }
            },
            Err(i) => {
                let mut spoke = Spoke::new_from_bounds(bst);
                let rejected = spoke.add_job_at(job, now);
                assert(rejected is None);
                let ghost fresh = spoke;
                self.spokes.insert(i, spoke);
                proof {
                    let s1 = self.spokes@;
                    assert(s1 == s0.insert(i as int, fresh));
                    assert(s1[i as int] == fresh);
                    assert(fresh.queue() =~= seq![job.metadata()]) by {
                        let q = fresh.queue();
                        let k = choose|k: int|
                            0 <= k <= 0 && q == Seq::<JobMetadata>::empty().insert(
                                k,
                                job.metadata(),
                            );
                        assert(k == 0);
                    }
                    assert(regular_spoke(fresh, w));
                    assert forall|j: int| 0 <= j < s1.len() implies regular_spoke(
                        #[trigger] s1[j],
                        w,
                    ) by {
                        if j < i {
                            assert(s1[j] == s0[j]);
                        } else if j > i {
                            assert(s1[j] == s0[j - 1]);
                        }
                    }
                    assert forall|a: int, b: int|
                        0 <= a < b < s1.len() implies s1[a].bounds().start()
                        < s1[b].bounds().start() by {
                        if a < i {
                            assert(s1[a] == s0[a]);
                        } else if a > i {
                            assert(s1[a] == s0[a - 1]);
                        }
                        if b < i {
                            assert(s1[b] == s0[b]);
                        } else if b > i {
                            assert(s1[b] == s0[b - 1]);
                        }
                    }
                    assert(!exists|j: int| 0 <= j < s0.len() && #[trigger] s0[j].bounds().start() == key);
                }
            },
        }
    }
}

/// `i` is the first of the spokes `s` that holds a body for `id`.
pub open spec fn first_owner(s: Seq<Spoke>, id: JobId, i: int) -> bool {
    &&& 0 <= i < s.len()
    &&& s[i].bodies().contains_key(id)
    &&& forall|j: int| 0 <= j < i ==> !(#[trigger] s[j].bodies().contains_key(id))
}

/// None of the spokes `s` holds a body for `id`.
pub open spec fn owned_by_none(s: Seq<Spoke>, id: JobId) -> bool {
    forall|j: int| 0 <= j < s.len() ==> !(#[trigger] s[j].bodies().contains_key(id))
}

/// `after` is `before` with the body for `id` taken out of `s`.
pub open spec fn body_removed(before: Spoke, after: Spoke, id: JobId) -> bool {
    &&& after.wf()
    &&& after.bounds() == before.bounds()
    &&& after.queue() == before.queue()
    &&& after.bodies() == before.bodies().remove(id)
}

impl Hub {
    /// What `find_job_owner_bst` returns: the past spoke's bounds if it holds
    /// `id`, else those of the first regular spoke that does, else `None`.
    pub open spec fn owner(self, id: JobId, r: Option<BoundingSpokeTime>) -> bool {
        if self.past().bodies().contains_key(id) {
            r == Some(self.past().bounds())
        } else {
            match r {
                None => owned_by_none(self.spokes(), id),
                Some(b) => exists|i: int|
                    #[trigger] first_owner(self.spokes(), id, i) && b == self.spokes()[i].bounds(),
            }
        }
    }

    /// `after` is `before` once `id` was cancelled, with `r` returned: the
    /// first spoke that holds the job, the past spoke first, loses its body,
    /// and `r` says whether there was one.
    pub open spec fn cancelled(before: Hub, after: Hub, id: JobId, r: bool) -> bool {
        &&& after.duration() == before.duration()
        &&& if before.past().bodies().contains_key(id) {
            &&& r
            &&& after.spokes() == before.spokes()
            &&& body_removed(before.past(), after.past(), id)
        } else if owned_by_none(before.spokes(), id) {
            &&& !r
            &&& after == before
        } else {
            &&& r
            &&& after.past() == before.past()
            &&& exists|i: int|
                #[trigger] first_owner(before.spokes(), id, i) && after.spokes() == before.spokes().update(
                    i,
                    after.spokes()[i],
                ) && body_removed(before.spokes()[i], after.spokes()[i], id)
        }
    }

    /// Where the first regular spoke that holds `id` is, if one does.
    fn find_owner_index(&self, id: JobId) -> (r: Option<usize>)
        requires
            self.wf(),
        ensures
            match r {
                None => owned_by_none(self.spokes(), id),
                Some(i) => first_owner(self.spokes(), id, i as int),
            },
    {
        let mut i: usize = 0;
        while i < self.spokes.len()
            invariant
                0 <= i <= self.spokes().len(),
                forall|j: int| 0 <= j < i ==> !(#[trigger] self.spokes()[j].bodies().contains_key(id)),
            decreases self.spokes().len() - i,
        {
            if self.spokes[i].owns_job(id) {
                return Some(i);
            }
            i = i + 1;
        }
        None
    }

    /// The bounds of the spoke that holds the job `id`: the past spoke is
    /// looked at first, then the regular spokes in order.
    pub fn find_job_owner_bst(&self, id: JobId) -> (r: Option<BoundingSpokeTime>)
        requires
            self.wf(),
        ensures
            self.owner(id, r),
    {
        if self.past_spoke.owns_job(id) {
            return Some(self.past_spoke.get_bounds());
        }
        match self.find_owner_index(id) {
            Some(i) => Some(self.spokes[i].get_bounds()),
            None => None,
        }
    }

    /// Cancels the job `id` in the spoke that holds it, and says whether one
    /// did.
    pub fn cancel_job(&mut self, id: JobId) -> (r: bool)
        requires
            old(self).wf(),
        ensures
            final(self).wf(),
            Hub::cancelled(*old(self), *final(self), id, r),
    {
        if self.past_spoke.owns_job(id) {
            return self.past_spoke.cancel_job(id);
        }
        match self.find_owner_index(id) {
            Some(i) => {
                let ghost s0 = self.spokes@;
                let r = self.spokes[i].cancel_job(id);
                proof {
                    let s1 = self.spokes@;
                    assert(s1 == s0.update(i as int, s1[i as int]));
                    assert forall|j: int| 0 <= j < s1.len() implies regular_spoke(
                        #[trigger] s1[j],
                        self.duration(),
                    ) by {
                        if j != i {
                            assert(s1[j] == s0[j]);
                        }
                    }
                    assert forall|a: int, b: int|
                        0 <= a < b < s1.len() implies s1[a].bounds().start()
                        < s1[b].bounds().start() by {
                        assert(s1[a].bounds() == s0[a].bounds());
                        assert(s1[b].bounds() == s0[b].bounds());
                    }
                    assert(!owned_by_none(s0, id));
                }
                r
            },
            None => false,
        }
    }

    /// Routes `job` at the current time by the system clock, and hands the
    /// hub back so that calls can be chained.
    pub fn add_job(&mut self, job: Job) -> (r: &mut Hub)
        requires
            old(self).wf(),
            old(self).routable(job.trigger()),
        ensures
            r.wf(),
            exists|now: u64| #[trigger] Hub::added(*old(self), *r, job, now),
            *final(self) == *final(r),
    {
        let now = times::current_time_ms();
        self.add_job_at(job, now);
        self
    }
}

/// Whether pruning at the instant `now` removes the spoke `s`: it is over and
/// holds no pending job.
pub open spec fn prunable(s: Spoke, now: u64) -> bool {
    s.bounds().end() < now && s.bodies().len() == 0
}

/// The spokes `s` that pruning at `now` keeps, in order.
pub open spec fn pruned(s: Seq<Spoke>, now: u64) -> Seq<Spoke>
    decreases s.len(),
{
    if s.len() == 0 {
        s
    } else if prunable(s.last(), now) {
        pruned(s.drop_last(), now)
    } else {
        pruned(s.drop_last(), now).push(s.last())
    }
}

/// Pruning keeps only spokes of `s`, none of them prunable, and keeps
/// spokes ordered by start ordered.
pub proof fn lemma_pruned(s: Seq<Spoke>, now: u64)
    ensures
        pruned(s, now).len() <= s.len(),
        forall|i: int| 0 <= i < pruned(s, now).len() ==> s.contains(#[trigger] pruned(s, now)[i]),
        forall|i: int| 0 <= i < pruned(s, now).len() ==> !prunable(#[trigger] pruned(s, now)[i], now),
        (forall|i: int, j: int| 0 <= i < j < s.len() ==> s[i].bounds().start() < s[j].bounds().start())
            ==> (forall|i: int, j: int|
            0 <= i < j < pruned(s, now).len() ==> pruned(s, now)[i].bounds().start() < pruned(
                s,
                now,
            )[j].bounds().start()),
    decreases s.len(),
{
    if s.len() > 0 {
        let rest = s.drop_last();
        lemma_pruned(rest, now);
        let p = pruned(rest, now);
        assert forall|i: int| 0 <= i < p.len() implies s.contains(#[trigger] p[i]) by {
            assert(rest.contains(p[i]));
            let k = choose|k: int| 0 <= k < rest.len() && rest[k] == p[i];
            assert(s[k] == rest[k]);
        }
        if !prunable(s.last(), now) {
            let q = p.push(s.last());
            assert(s.contains(s.last())) by {
                assert(s[s.len() - 1] == s.last());
            }
            assert forall|i: int| 0 <= i < q.len() implies s.contains(#[trigger] q[i]) by {
                if i < p.len() {
                    assert(q[i] == p[i]);
                }
            }
            assert forall|i: int| 0 <= i < q.len() implies !prunable(#[trigger] q[i], now) by {
                if i < p.len() {
                    assert(q[i] == p[i]);
                }
            }
            if forall|i: int, j: int|
                0 <= i < j < s.len() ==> s[i].bounds().start() < s[j].bounds().start() {
                assert forall|i: int, j: int|
                    0 <= i < j < q.len() implies q[i].bounds().start() < q[j].bounds().start() by {
                    assert(q[i] == p[i]);
                    if j < p.len() {
                        assert(q[j] == p[j]);
                    } else {
                        assert(rest.contains(p[i]));
                        let k = choose|k: int| 0 <= k < rest.len() && rest[k] == p[i];
                        assert(s[k] == p[i]);
                    }
                }
            }
        }
    }
}

impl Hub {
    /// Removes every regular spoke that is over at the instant `now` and
    /// holds no pending job, and says how many went (at most `u32::MAX`).
    pub fn prune_spokes_at(&mut self, now: u64) -> (r: u32)
        requires
            old(self).wf(),
        ensures
            final(self).wf(),
            final(self).duration() == old(self).duration(),
            final(self).past() == old(self).past(),
            final(self).spokes() == pruned(old(self).spokes(), now),
            r == (if old(self).spokes().len() - final(self).spokes().len() <= u32::MAX {
                old(self).spokes().len() - final(self).spokes().len()
            } else {
                u32::MAX as int
            }),
    {
        let mut all: Vec<Spoke> = Vec::new();
        std::mem::swap(&mut self.spokes, &mut all);
        let ghost s0 = all@;
        let mut kept: Vec<Spoke> = Vec::new();
        let mut removed: u32 = 0;
        for spoke in it: all.into_iter()
            invariant
                it.seq() == s0,
                kept@ == pruned(s0.take(it.index() as int), now),
                kept@.len() <= it.index(),
                removed == (if it.index() - kept@.len() <= u32::MAX {
                    it.index() - kept@.len()
                } else {
                    u32::MAX as int
                }),
        {
            let ghost i = it.index();
            proof {
                assert(s0.take(i + 1).drop_last() =~= s0.take(i));
                assert(s0.take(i + 1).last() == spoke);
            }
            if spoke.is_expired_at(now) && spoke.pending_job_len() == 0 {
                if removed < u32::MAX {
                    removed = removed + 1;
                }
            } else {
                kept.push(spoke);
            }
        }
        proof {
            assert(s0.take(s0.len() as int) =~= s0);
            assert(s0 == old(self).spokes());
            assert(forall|i: int, j: int|
                0 <= i < j < s0.len() ==> s0[i].bounds().start() < s0[j].bounds().start());
            lemma_pruned(s0, now);
            let p = pruned(s0, now);
            assert forall|i: int| 0 <= i < p.len() implies regular_spoke(
                #[trigger] p[i],
                self.duration(),
            ) by {
                assert(s0.contains(p[i]));
                let k = choose|k: int| 0 <= k < s0.len() && s0[k] == p[i];
                assert(s0[k] == old(self).spokes()[k]);
            }
        }
        self.spokes = kept;
        removed
    }
}

/// What walking the spokes `s` in order at the instant `now` hands out: the
/// walk of each spoke that has begun, up to the first that has not.
pub open spec fn walk_spokes_spec(s: Seq<Spoke>, now: u64) -> Seq<(JobMetadata, JobBody)>
    decreases s.len(),
{
    if s.len() == 0 || s[0].bounds().start() > now {
        Seq::empty()
    } else {
        walk_spec(s[0].queue(), s[0].bodies(), now).0 + walk_spokes_spec(s.drop_first(), now)
    }
}

/// `after` is the spoke `before` once walked at `now`: unchanged if it has
/// not begun, else left with what `walk_spec` leaves.
pub open spec fn walked(before: Spoke, after: Spoke, now: u64) -> bool {
    &&& after.wf()
    &&& after.bounds() == before.bounds()
    &&& if before.bounds().start() <= now {
        &&& after.queue() == walk_spec(before.queue(), before.bodies(), now).1
        &&& after.bodies() == walk_spec(before.queue(), before.bodies(), now).2
    } else {
        after == before
    }
}

/// `t` is each of the spokes `s` walked at `now`.
pub open spec fn walked_all(s: Seq<Spoke>, t: Seq<Spoke>, now: u64) -> bool {
    &&& t.len() == s.len()
    &&& forall|i: int| 0 <= i < s.len() ==> walked(s[i], #[trigger] t[i], now)
}

impl Hub {
    /// `after` is `before` once its regular spokes were walked at `now`,
    /// handing out `out`, and then pruned at `now`.
    pub open spec fn walked_regular(before: Hub, after: Hub, now: u64, out: Seq<Job>) -> bool {
        &&& after.duration() == before.duration()
        &&& parts(out) == walk_spokes_spec(before.spokes(), now)
        &&& exists|t: Seq<Spoke>|
            #[trigger] walked_all(before.spokes(), t, now) && after.spokes() == pruned(t, now)
    }

    /// `after` is `before` once drained at `now`, handing out `out`: the past
    /// spoke's due jobs first, then those of the regular spokes in order; then
    /// pruned at `now`.
    pub open spec fn drained(before: Hub, after: Hub, now: u64, out: Seq<Job>) -> bool {
        let w = walk_spec(before.past().queue(), before.past().bodies(), now);
        &&& after.duration() == before.duration()
        &&& after.past().bounds() == before.past().bounds()
        &&& after.past().queue() == w.1
        &&& after.past().bodies() == w.2
        &&& parts(out) == w.0 + walk_spokes_spec(before.spokes(), now)
        &&& exists|t: Seq<Spoke>|
            #[trigger] walked_all(before.spokes(), t, now) && after.spokes() == pruned(t, now)
    }

    /// Walks, in order, every regular spoke that has begun at the instant
    /// `now`, handing out their due jobs, then prunes at `now`.
    pub fn walk_at(&mut self, now: u64) -> (r: Vec<Job>)
        requires
            old(self).wf(),
        ensures
            final(self).wf(),
            final(self).past() == old(self).past(),
            Hub::walked_regular(*old(self), *final(self), now, r@),
    {
        let ghost s0 = self.spokes@;
        let n = self.spokes.len();
        let mut ready_jobs: Vec<Job> = Vec::new();
        let mut i: usize = 0;
        assert(s0.subrange(0, n as int) =~= s0);
        while i < n && self.spokes[i].is_ready_at(now)
            invariant
                self.wf(),
                self.duration() == old(self).duration(),
                self.past() == old(self).past(),
                s0 == old(self).spokes(),
                n == s0.len(),
                self.spokes().len() == n,
                0 <= i <= n,
                forall|j: int| 0 <= j < i ==> walked(s0[j], #[trigger] self.spokes()[j], now),
                forall|j: int| i <= j < n ==> #[trigger] self.spokes()[j] == s0[j],
                walk_spokes_spec(s0, now) == parts(ready_jobs@) + walk_spokes_spec(
                    s0.subrange(i as int, n as int),
                    now,
                ),
            decreases n - i,
        {
            let ghost sp = self.spokes@;
            let ghost done = ready_jobs@;
            let mut out = self.spokes[i].walk_at(now);
            let ghost got = out@;
            ready_jobs.append(&mut out);
            proof {
                let s1 = self.spokes@;
                assert(s1 == sp.update(i as int, s1[i as int]));
                assert(walked(s0[i as int], s1[i as int], now));
                assert forall|j: int| 0 <= j < s1.len() implies regular_spoke(
                    #[trigger] s1[j],
                    self.duration(),
                ) by {
                    if j != i {
                        assert(s1[j] == sp[j]);
                    }
                }
                assert forall|a: int, b: int|
                    0 <= a < b < s1.len() implies s1[a].bounds().start() < s1[b].bounds().start() by {
                    assert(s1[a].bounds() == sp[a].bounds());
                    assert(s1[b].bounds() == sp[b].bounds());
                }
                assert forall|j: int| 0 <= j < i + 1 implies walked(
                    s0[j],
                    #[trigger] s1[j],
                    now,
                ) by {
                    if j < i {
                        assert(s1[j] == sp[j]);
                    }
                }
                assert forall|j: int| i + 1 <= j < n implies #[trigger] s1[j] == s0[j] by {
                    assert(s1[j] == sp[j]);
                }
                let sub = s0.subrange(i as int, n as int);
                assert(sub[0] == s0[i as int]);
                assert(sub.drop_first() =~= s0.subrange(i + 1, n as int));
                assert(walk_spokes_spec(sub, now) == walk_spec(
                    s0[i as int].queue(),
                    s0[i as int].bodies(),
                    now,
                ).0 + walk_spokes_spec(s0.subrange(i + 1, n as int), now));
                assert(parts(ready_jobs@) =~= parts(done) + parts(got));
                assert(parts(done) + (parts(got) + walk_spokes_spec(
                    s0.subrange(i + 1, n as int),
                    now,
                )) =~= parts(ready_jobs@) + walk_spokes_spec(s0.subrange(i + 1, n as int), now));
            }
            i = i + 1;
        }
        proof {
            let t = self.spokes@;
            assert forall|j: int| i <= j < n implies walked(s0[j], #[trigger] t[j], now) by {
                assert(t[j] == s0[j]);
                assert(s0[i as int].bounds().start() > now);
                if j > i {
                    assert(s0[i as int].bounds().start() < s0[j].bounds().start());
                }
                assert(regular_spoke(t[j], self.duration()));
            }
            assert(walked_all(s0, t, now));
            let sub = s0.subrange(i as int, n as int);
            if i < n {
                assert(sub[0] == s0[i as int]);
            }
            assert(walk_spokes_spec(sub, now) == Seq::<(JobMetadata, JobBody)>::empty());
            assert(parts(ready_jobs@) =~= walk_spokes_spec(s0, now));
        }
        self.prune_spokes_at(now);
        ready_jobs
    }

    /// Hands out every job due at the instant `now`: first the past spoke's,
    /// soonest first, then those of each regular spoke that has begun, in
    /// order of the spokes and soonest first within each; then prunes at
    /// `now`.
    pub fn walk_jobs_at(&mut self, now: u64) -> (r: Vec<Job>)
        requires
            old(self).wf(),
        ensures
            final(self).wf(),
            Hub::drained(*old(self), *final(self), now, r@),
    {
        let mut jobs = self.past_spoke.walk_at(now);
        let ghost first = jobs@;
        let ghost mid = *self;
        assert(self.spokes() == old(self).spokes());
        assert(self.past().bounds() == old(self).past().bounds());
        assert(self.duration() == old(self).duration());
        let mut rest = self.walk_at(now);
        let ghost second = rest@;
        jobs.append(&mut rest);
        proof {
            assert(parts(jobs@) =~= parts(first) + parts(second));
            assert(mid.spokes() == old(self).spokes());
        }
        jobs
    }

    /// `walk_at` at the current time by the system clock.
    pub fn walk(&mut self) -> (r: Vec<Job>)
        requires
            old(self).wf(),
        ensures
            final(self).wf(),
            final(self).past() == old(self).past(),
            exists|now: u64| #[trigger] Hub::walked_regular(*old(self), *final(self), now, r@),
    {
        let now = times::current_time_ms();
        self.walk_at(now)
    }

    /// `walk_jobs_at` at the current time by the system clock.
    pub fn walk_jobs(&mut self) -> (r: Vec<Job>)
        requires
            old(self).wf(),
        ensures
            final(self).wf(),
            exists|now: u64| #[trigger] Hub::drained(*old(self), *final(self), now, r@),
    {
        let now = times::current_time_ms();
        self.walk_jobs_at(now)
    }

    /// `prune_spokes_at` at the current time by the system clock.
    pub fn prune_spokes(&mut self) -> (r: u32)
        requires
            old(self).wf(),
        ensures
            final(self).wf(),
            final(self).duration() == old(self).duration(),
            final(self).past() == old(self).past(),
            exists|now: u64| #[trigger] pruned(old(self).spokes(), now) == final(self).spokes(),
    {
        let now = times::current_time_ms();
        self.prune_spokes_at(now)
    }
}

} // verus!
