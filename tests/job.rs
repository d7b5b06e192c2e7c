use yaad::job::{is_job_id, new_job_id, Job, JobBody, JobMetadata};
use yaad::temporal_state::{Temporal, TemporalState};
use uuid::Uuid;

#[test]
fn can_create_job() {
    let id = Uuid::new_v4().as_u128();
    let j = Job::new(id, 5u64, "Test Body");
    assert_eq!(j.get_metadata().get_id(), id, "Should be able to create a job");
}

#[test]
fn id_equality() {
    let id = Uuid::new_v4().as_u128();
    let j_one = Job::new(id, 100, "foo one");
    let j_two = Job::new(id, 100, "foo two");
    assert_eq!(
        j_one, j_two,
        "Job: {:?} should be eq: {:?} when ids are same",
        j_one, j_two
    )
}

#[test]
fn different_ids_differ_despite_same_trigger() {
    let one = Job::new_auto_id(2, "one");
    let two = Job::new_auto_id(2, "two");
    assert!(one != two);
}

#[test]
fn job_parts_are_kept() {
    let j = Job::new_auto_id(42, "payload");
    assert_eq!(j.trigger_at_ms(), 42);
    assert_eq!(j.get_body().as_str(), "payload");
    let m = j.get_metadata();
    assert_eq!(m.trigger_at_ms(), 42);
    let rebuilt = Job::new_from_metadata(m, JobBody::new("other"));
    assert_eq!(rebuilt, j);
    assert_eq!(rebuilt.get_body().as_str(), "other");
    assert_eq!(JobMetadata::new(7, 9).get_id(), 7);
}

#[test]
fn job_ids_are_random_uuids() {
    assert!(is_job_id(new_job_id()));
    assert!(is_job_id(Uuid::new_v4().as_u128()));
    assert!(!is_job_id(0));
    assert!(!is_job_id(u128::MAX));
    let v1_shaped: u128 = 0x00000000_0000_1000_8000_000000000000;
    assert!(!is_job_id(v1_shaped));
    let v4_shaped: u128 = 0x00000000_0000_4000_8000_000000000000;
    assert!(is_job_id(v4_shaped));
}

#[test]
fn job_readiness_against_an_instant() {
    let j = Job::new_auto_id(100, "x");
    assert!(!j.is_ready_at(99));
    assert!(j.is_ready_at(100));
    assert!(j.get_metadata().is_ready_at(101));
    assert!(Job::new_auto_id(0, "old").is_ready());
}

#[test]
fn temporal_state_against_an_instant() {
    let j = Job::new_auto_id(100, "x");
    assert_eq!(j.temporal_state_at(101), TemporalState::Past);
    assert_eq!(j.temporal_state_at(100), TemporalState::Current);
    assert_eq!(j.temporal_state_at(99), TemporalState::Future);
    assert_eq!(Job::new_auto_id(0, "old").as_temporal_state(), TemporalState::Past);
    assert_eq!(Job::new_auto_id(u64::MAX, "far").as_temporal_state(), TemporalState::Future);
}
