use yaad::job::Job;
use yaad::spoke::{BoundingSpokeTime, Spoke};
use yaad::times;
use uuid::Uuid;

#[test]
fn can_create_spoke() {
    let s: Spoke = Spoke::new_from_now(10);
    assert_eq!(s.queue_len(), 0);
}

#[test]
fn can_add_jobs() {
    let current_ms = times::current_time_ms();
    let mut s: Spoke = Spoke::new_from_now(10_000);
    s.add_job(Job::new_auto_id(current_ms + 4000, "Hello Second Job!"));
    assert_eq!(s.queue_len(), 1);
    s.add_job(Job::new_auto_id(current_ms + 6000, "Hello Second Job!"));
    assert_eq!(s.queue_len(), 2);
}

#[test]
fn owns_jobs() {
    let current_ms = times::current_time_ms();
    let mut s: Spoke = Spoke::new_from_now(10_000);
    let j = Job::new_auto_id(current_ms + 4000, "Hello Second Job!");
    let id = j.get_metadata().get_id();
    s.add_job(j);
    assert_eq!(s.queue_len(), 1, "Adding a job should increase job list len");
    assert!(s.owns_job(id), "Spoke should advertise ownership of job");

    assert!(
        !s.owns_job(Uuid::new_v4().as_u128()),
        "Spoke should not advertise ownership of unknown jobs"
    );
}

#[test]
fn walk_empty_spoke() {
    let mut s: Spoke = Spoke::new_from_now(1000);
    let res = s.walk();
    assert_eq!(res.len(), 0, "Empty spoke should have no jobs")
}

#[test]
fn walk_spoke_with_jobs() {
    let current_time = times::current_time_ms();
    let mut s: Spoke = Spoke::new(current_time, 1000);
    s.add_job_at(Job::new_auto_id(current_time + 300, "I am Job"), current_time);
    s.add_job_at(Job::new_auto_id(current_time + 523, "I am Job"), current_time);
    let res = s.walk_at(current_time + 750);
    assert_eq!(res.len(), 2, "Test should have found 2 jobs ready")
}

#[test]
fn walk_spoke_with_jobs_idempotent() {
    let current_time = times::current_time_ms();
    let mut s: Spoke = Spoke::new(current_time, 10_000);
    s.add_job_at(Job::new_auto_id(current_time + 500, "I am Job"), current_time);
    s.add_job_at(Job::new_auto_id(current_time + 500, "I am Job"), current_time);

    let first_job_set = s.walk_at(current_time + 750);
    assert_eq!(first_job_set.len(), 2, "Test should have found 2 jobs ready");

    let second_job_set = s.walk_at(current_time + 750);
    assert_eq!(second_job_set.len(), 0, "Test should have found 0 jobs ready");
}

#[test]
fn reject_outoftimebounds_jobs() {
    let current_time = times::current_time_ms();
    let mut s: Spoke = Spoke::new(current_time, 20_000);

    let j_accept: Job = Job::new_auto_id(current_time + 7000, "in spoke duration");
    let jj_accept: Job = Job::new_auto_id(current_time + 11_000, "in spoke duration");
    let j_reject: Job = Job::new_auto_id(current_time + 44_000, "beyond spoke duration");
    let jj_reject: Job = Job::new_auto_id(current_time - 2_000, "before spoke duration");

    assert!(s.add_job(j_accept).is_none(), "Should accept jobs in spoke span");
    assert!(s.add_job(jj_accept).is_none(), "Should accept jobs in spoke span");
    assert!(s.add_job(j_reject).is_some(), "Should reject jobs beyond spoke span");
    assert!(s.add_job(jj_reject).is_some(), "Should reject jobs before spoke span");
}

#[test]
fn spoke_from_bounds() {
    let bst = BoundingSpokeTime::new(500, 800);
    let spoke = Spoke::new_from_bounds(bst);

    let bst = BoundingSpokeTime::new(500, 799);
    assert!(spoke.get_bounds().contains(&bst));
}

#[test]
fn can_cancel_job() {
    let current_ms = times::current_time_ms();
    let mut s: Spoke = Spoke::new_from_now(10_000);

    let j_one = Job::new_auto_id(current_ms + 600, "one");
    let j_two = Job::new_auto_id(current_ms + 700, "two");

    let j_one_id = j_one.get_metadata().get_id();
    s.add_job(j_one);
    s.add_job(j_two);

    assert_eq!(s.pending_job_len(), 2);

    assert!(s.cancel_job(j_one_id));
    assert!(!s.cancel_job(j_one_id));
}

#[test]
fn expired_spoke_rejects_jobs() {
    let mut s = Spoke::new(1_000, 10);
    let j = Job::new_auto_id(1_005, "late");
    let back = s.add_job_at(j, 1_011).unwrap();
    assert_eq!(back.trigger_at_ms(), 1_005);
    assert_eq!(back.get_body().as_str(), "late");
    assert!(s.add_job_at(Job::new_auto_id(1_005, "on time"), 1_010).is_none());
}

#[test]
fn interval_is_half_open() {
    let mut s = Spoke::new(1_000, 10);
    assert!(s.add_job_at(Job::new_auto_id(1_000, "start"), 0).is_none());
    assert!(s.add_job_at(Job::new_auto_id(1_009, "last"), 0).is_none());
    assert!(s.add_job_at(Job::new_auto_id(1_010, "end"), 0).is_some());
    assert!(s.add_job_at(Job::new_auto_id(999, "before"), 0).is_some());
}

#[test]
fn walk_hands_out_soonest_first_and_stops_at_first_not_due() {
    let mut s = Spoke::new(0, 1_000);
    s.add_job_at(Job::new_auto_id(300, "c"), 0);
    s.add_job_at(Job::new_auto_id(100, "a"), 0);
    s.add_job_at(Job::new_auto_id(200, "b"), 0);
    s.add_job_at(Job::new_auto_id(900, "d"), 0);
    let out = s.walk_at(300);
    let texts: Vec<String> = out.iter().map(|j| j.get_body().as_str().to_owned()).collect();
    assert_eq!(texts, vec!["a", "b", "c"]);
    assert_eq!(s.pending_job_len(), 1);
    assert_eq!(s.queue_len(), 1);
}

#[test]
fn cancelled_entry_is_dropped_lazily() {
    let mut s = Spoke::new(0, 1_000);
    let j = Job::new_auto_id(10, "gone");
    let id = j.get_metadata().get_id();
    s.add_job_at(j, 0);
    s.add_job_at(Job::new_auto_id(20, "kept"), 0);
    assert!(s.cancel_job(id));
    assert_eq!(s.pending_job_len(), 1);
    assert_eq!(s.queue_len(), 2);
    let out = s.walk_at(50);
    assert_eq!(out.len(), 1);
    assert_eq!(out[0].get_body().as_str(), "kept");
    assert_eq!(s.queue_len(), 0);
}

#[test]
fn spoke_readiness_and_expiry() {
    let s = Spoke::new(1_000, 10);
    assert!(!s.is_ready_at(999));
    assert!(s.is_ready_at(1_000));
    assert!(!s.is_expired_at(1_010));
    assert!(s.is_expired_at(1_011));
    let b = s.get_bounds();
    assert!(b.is_ready_at(1_000) && !b.is_ready_at(999));
    assert!(b.is_expired_at(1_011) && !b.is_expired_at(1_010));
}

#[test]
fn spokes_equal_by_bounds() {
    let a = Spoke::new(100, 10);
    let b = Spoke::new_from_bounds(BoundingSpokeTime::new(100, 110));
    let c = Spoke::new(110, 10);
    assert!(a == b);
    assert!(a != c);
    assert!(BoundingSpokeTime::new(1, 2) < BoundingSpokeTime::new(1, 3));
    assert!(BoundingSpokeTime::new(1, 9) < BoundingSpokeTime::new(2, 3));
}

#[test]
fn new_from_now_saturates_end() {
    let s = Spoke::new_from_now(u64::MAX);
    assert_eq!(s.get_bounds().get_end_time_ms(), u64::MAX);
}

#[test]
fn whole_range_is_never_expired_and_always_ready() {
    let b = BoundingSpokeTime::new(0, u64::MAX);
    assert!(!b.is_expired());
    assert!(b.is_ready());
    let mut s = Spoke::new_from_bounds(b);
    assert!(!s.is_expired());
    assert!(s.is_ready());
    assert!(s.add_job(Job::new_auto_id(5, "always taken")).is_none());
    assert!(s.add_job(Job::new_auto_id(u64::MAX, "outside")).is_some());
}
