//! Jobs: a unit of deferred work with an identity, a trigger time in
//! milliseconds since the Unix epoch, and a body.
//!
//! Two jobs are equal when their identities are; the trigger time and the
//! body play no part in it.

use uuid::Uuid;
use vstd::prelude::*;
use crate::temporal_state::{Temporal, TemporalState, temporal_state_of};
use crate::times;

verus! {

/// A job's identity: the 128 bits of a UUID, most significant first.
pub type JobId = u128;

/// Whether `id` carries the version of a random (v4) UUID: bits 76 to 79,
/// counted from the least significant, hold 4.
pub open spec fn is_random_id(id: JobId) -> bool {
    (id >> 76u128) & 0xfu128 == 4u128
}

/// Relies on `uuid::Uuid::new_v4`: a fresh random UUID, whose version bits
/// that function sets to 4.
#[verifier::external_body]
fn new_random_id() -> (r: JobId)
    ensures
        is_random_id(r),
{
    Uuid::new_v4().as_u128()
}

/// Whether `id` is accepted as a job identity by `Job::new`: whether it is
/// a random (v4) UUID, whose version field, the high four bits of its seventh
/// byte, holds 4.
pub fn is_job_id(id: JobId) -> (r: bool)
    ensures
        r == is_random_id(id),
{
    (id >> 76u128) & 0xfu128 == 4u128
}

/// A fresh random job identity.
pub fn new_job_id() -> (r: JobId)
    ensures
        is_random_id(r),
{
    new_random_id()
}

/// Whether a job due at `t` is due at the instant `now`.
pub open spec fn due_at(t: u64, now: u64) -> bool {
    t <= now
}

/// What the queue of a spoke holds of a job: its identity and trigger time.
#[derive(Debug, Clone, Copy)]
pub struct JobMetadata {
    id: JobId,
    trigger_at_ms: u64,
}

/// The opaque body of a job.
#[derive(Debug, Clone)]
pub struct JobBody {
    body: String,
}

/// A job: its metadata and its body.
#[derive(Debug)]
pub struct Job {
    job_metadata: JobMetadata,
    body: JobBody,
}

impl JobMetadata {
    pub closed spec fn id(self) -> JobId {
        self.id
    }

    pub closed spec fn trigger(self) -> u64 {
        self.trigger_at_ms
    }

    pub fn new(id: JobId, trigger_at_ms: u64) -> (r: JobMetadata)
        ensures
            r.id() == id,
            r.trigger() == trigger_at_ms,
    {
        JobMetadata { id, trigger_at_ms }
    }

    pub fn trigger_at_ms(&self) -> (r: u64)
        ensures
            r == self.trigger(),
    {
        self.trigger_at_ms
    }

    /// Whether the job is due at the instant `now`.
    pub fn is_ready_at(&self, now: u64) -> (r: bool)
        ensures
            r == due_at(self.trigger(), now),
    {
        self.trigger_at_ms <= now
    }

    /// Whether the job is due now, by the system clock: it is at some
    /// instant, so one due at 0 always is.
    pub fn is_ready(&self) -> (r: bool)
        ensures
            exists|now: u64| #[trigger] due_at(self.trigger(), now) == r,
            self.trigger() == 0 ==> r,
    {
        let now = times::current_time_ms();
        self.is_ready_at(now)
    }

    pub fn get_id(&self) -> (r: JobId)
        ensures
            r == self.id(),
    {
        self.id
    }
}

impl PartialEq for JobMetadata {
    fn eq(&self, other: &JobMetadata) -> (r: bool) {
        self.id == other.id
    }
}

impl vstd::std_specs::cmp::PartialEqSpecImpl for JobMetadata {
    open spec fn obeys_eq_spec() -> bool {
        true
    }

    open spec fn eq_spec(&self, other: &JobMetadata) -> bool {
        self.id() == other.id()
    }
}

impl Eq for JobMetadata {
}

impl JobBody {
    pub closed spec fn text(self) -> Seq<char> {
        self.body@
    }

    pub fn new(body: &str) -> (r: JobBody)
        ensures
            r.text() == body@,
    {
        JobBody { body: body.to_owned() }
    }

    pub fn as_str(&self) -> (r: &str)
        ensures
            r@ == self.text(),
    {
        self.body.as_str()
    }
}

impl Job {
    pub closed spec fn metadata(self) -> JobMetadata {
        self.job_metadata
    }

    pub closed spec fn body(self) -> JobBody {
        self.body
    }

    pub open spec fn id(self) -> JobId {
        self.metadata().id()
    }

    pub open spec fn trigger(self) -> u64 {
        self.metadata().trigger()
    }

    /// A job with identity `id`, due at `trigger_at_ms`, carrying `body`.
    pub fn new(id: JobId, trigger_at_ms: u64, body: &str) -> (r: Job)
        requires
            is_random_id(id),
        ensures
            r.id() == id,
            r.trigger() == trigger_at_ms,
            r.body().text() == body@,
    {
        Job { job_metadata: JobMetadata::new(id, trigger_at_ms), body: JobBody::new(body) }
    }

    pub fn new_from_metadata(job_metadata: JobMetadata, body: JobBody) -> (r: Job)
        ensures
            r.metadata() == job_metadata,
            r.body() == body,
    {
        Job { job_metadata, body }
    }

    /// A job with a fresh random identity.
    pub fn new_auto_id(trigger_at_ms: u64, body: &str) -> (r: Job)
        ensures
            is_random_id(r.id()),
            r.trigger() == trigger_at_ms,
            r.body().text() == body@,
    {
        Job::new(new_random_id(), trigger_at_ms, body)
    }

    pub fn trigger_at_ms(&self) -> (r: u64)
        ensures
            r == self.trigger(),
    {
        self.job_metadata.trigger_at_ms()
    }

    /// Whether the job is due at the instant `now`.
    pub fn is_ready_at(&self, now: u64) -> (r: bool)
        ensures
            r == due_at(self.trigger(), now),
    {
        self.job_metadata.is_ready_at(now)
    }

    /// Whether the job is due now, by the system clock: it is at some
    /// instant, so one due at 0 always is.
    pub fn is_ready(&self) -> (r: bool)
        ensures
            exists|now: u64| #[trigger] due_at(self.trigger(), now) == r,
            self.trigger() == 0 ==> r,
    {
        let now = times::current_time_ms();
        self.is_ready_at(now)
    }

    pub fn get_body(&self) -> (r: JobBody)
        ensures
            r.text() == self.body().text(),
    {
        JobBody { body: self.body.body.clone() }
    }

    pub fn get_metadata(&self) -> (r: JobMetadata)
        ensures
            r == self.metadata(),
    {
        self.job_metadata
    }

    /// Splits the job into its metadata and its body.
    pub fn into_parts(self) -> (r: (JobMetadata, JobBody))
        ensures
            r.0 == self.metadata(),
            r.1 == self.body(),
    {
        (self.job_metadata, self.body)
    }

    /// The job's state at the instant `now`.
    pub fn temporal_state_at(&self, now: u64) -> (r: TemporalState)
        ensures
            r == temporal_state_of(self.trigger(), now),
    {
        let t = self.job_metadata.trigger_at_ms;
        if t < now {
            TemporalState::Past
        } else if t == now {
            TemporalState::Current
        } else {
            TemporalState::Future
        }
    }
}

impl Temporal for Job {
    fn as_temporal_state(&self) -> TemporalState {
        self.temporal_state_at(times::current_time_ms())
    }
}

impl PartialEq for Job {
    fn eq(&self, other: &Job) -> (r: bool) {
        self.job_metadata.id == other.job_metadata.id
    }
}

impl vstd::std_specs::cmp::PartialEqSpecImpl for Job {
    open spec fn obeys_eq_spec() -> bool {
        true
    }

    open spec fn eq_spec(&self, other: &Job) -> bool {
        self.id() == other.id()
    }
}

impl Eq for Job {
}

} // verus!
