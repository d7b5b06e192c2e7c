use yaad::hub::Hub;
use yaad::job::{new_job_id, Job};
use yaad::times::floor_to_bucket;

const T0: u64 = 1_700_000_000_000;

fn bodies(jobs: &[Job]) -> Vec<String> {
    jobs.iter().map(|j| j.get_body().as_str().to_owned()).collect()
}

#[test]
fn empty_drain() {
    let mut h = Hub::new(10).unwrap();
    assert!(h.walk_jobs_at(T0).is_empty());
    assert!(h.walk_jobs().is_empty());
}

#[test]
fn past_delivery() {
    let mut h = Hub::new(10).unwrap();
    h.add_job_at(Job::new_auto_id(T0 - 10_000, "old"), T0);
    assert_eq!(bodies(&h.walk_jobs_at(T0)), vec!["old"]);
    assert!(h.walk_jobs_at(T0).is_empty());
}

#[test]
fn future_then_ready() {
    let mut h = Hub::new(10).unwrap();
    h.add_job_at(Job::new_auto_id(T0 + 3, "a"), T0);
    h.add_job_at(Job::new_auto_id(T0 + 4, "b"), T0);
    assert!(h.walk_jobs_at(T0).is_empty());
    assert_eq!(bodies(&h.walk_jobs_at(T0 + 12)), vec!["a", "b"]);
    h.prune_spokes_at(T0 + 25);
    assert_eq!(h.spoke_count(), 0);
}

#[test]
fn two_buckets() {
    let mut h = Hub::new(10).unwrap();
    let a = Job::new_auto_id(T0 + 3, "a");
    let c = Job::new_auto_id(T0 + 24, "c");
    let (ida, idc) = (a.get_metadata().get_id(), c.get_metadata().get_id());
    h.add_job_at(a, T0);
    h.add_job_at(c, T0);
    assert_eq!(h.spoke_count(), 2);
    let sa = h.find_job_owner_bst(ida).unwrap().get_start_time_ms();
    let sc = h.find_job_owner_bst(idc).unwrap().get_start_time_ms();
    assert_eq!(sa, floor_to_bucket(T0 + 3, 10));
    assert_eq!(sc, floor_to_bucket(T0 + 24, 10));
    assert_eq!(sc - sa, 20);
}

#[test]
fn cancel_scenario() {
    let mut h = Hub::new(10).unwrap();
    let x = Job::new_auto_id(T0 + 500, "x");
    let id = x.get_metadata().get_id();
    h.add_job_at(x, T0);
    assert!(h.cancel_job(id));
    let out = h.walk_jobs_at(T0 + 600);
    assert!(!bodies(&out).contains(&"x".to_string()));
    assert!(!h.cancel_job(id));
}

#[test]
fn find_unknown() {
    let h = Hub::new(10).unwrap();
    assert!(h.find_job_owner_bst(new_job_id()).is_none());
}

#[test]
fn jobs_lie_in_their_bucket() {
    let mut h = Hub::new(10).unwrap();
    let triggers = [T0 + 1, T0 + 9, T0 + 10, T0 + 37, T0 + 1_000];
    let mut ids = Vec::new();
    for t in triggers {
        let j = Job::new_auto_id(t, "j");
        ids.push((j.get_metadata().get_id(), t));
        h.add_job_at(j, T0);
    }
    for (id, t) in ids {
        let b = h.find_job_owner_bst(id).unwrap();
        assert!(b.get_start_time_ms() <= t && t < b.get_end_time_ms());
        assert_eq!(b.get_end_time_ms() - b.get_start_time_ms(), 10);
        assert_eq!(b.get_start_time_ms() % 10, 0);
    }
}

#[test]
fn drain_is_in_trigger_order() {
    let mut h = Hub::new(10).unwrap();
    for (t, body) in [(37, "e"), (5, "b"), (21, "d"), (3, "a"), (15, "c")] {
        h.add_job_at(Job::new_auto_id(T0 + t, body), T0);
    }
    let out = h.walk_jobs_at(T0 + 100);
    assert_eq!(bodies(&out), vec!["a", "b", "c", "d", "e"]);
    for w in out.windows(2) {
        assert!(w[0].trigger_at_ms() <= w[1].trigger_at_ms());
    }
}

#[test]
fn drain_leaves_nothing_due() {
    let mut h = Hub::new(10).unwrap();
    let mut due = Vec::new();
    let mut later = Vec::new();
    for t in [T0 - 50, T0 + 2, T0 + 14, T0 + 31, T0 + 60] {
        let j = Job::new_auto_id(t, "j");
        let id = j.get_metadata().get_id();
        if t <= T0 + 31 { due.push(id) } else { later.push(id) }
        h.add_job_at(j, T0);
    }
    let out = h.walk_jobs_at(T0 + 31);
    assert_eq!(out.len(), due.len());
    for id in due {
        assert!(h.find_job_owner_bst(id).is_none());
    }
    for id in later {
        assert!(h.find_job_owner_bst(id).is_some());
    }
}

#[test]
fn second_cancel_is_false() {
    let mut h = Hub::new(10).unwrap();
    let j = Job::new_auto_id(T0 + 40, "j");
    let id = j.get_metadata().get_id();
    h.add_job_at(j, T0);
    assert!(h.cancel_job(id));
    assert!(!h.cancel_job(id));
}

#[test]
fn prune_removes_only_over_and_empty() {
    let mut h = Hub::new(10).unwrap();
    let a = Job::new_auto_id(T0 + 1, "a");
    let ida = a.get_metadata().get_id();
    h.add_job_at(a, T0);
    h.add_job_at(Job::new_auto_id(T0 + 11, "b"), T0);
    h.add_job_at(Job::new_auto_id(T0 + 300, "c"), T0);
    assert!(h.cancel_job(ida));
    // [T0, T0+10) is over and empty; [T0+10, T0+20) is over but holds "b";
    // [T0+300, T0+310) is not over.
    assert_eq!(h.prune_spokes_at(T0 + 50), 1);
    assert_eq!(h.spoke_count(), 2);
    assert_eq!(h.prune_spokes_at(T0 + 50), 0);
}

#[test]
fn past_round_trip() {
    let mut h = Hub::new(10).unwrap();
    let j = Job::new_auto_id(T0 - 1, "late");
    let id = j.get_metadata().get_id();
    h.add_job_at(j, T0);
    let b = h.find_job_owner_bst(id).unwrap();
    assert_eq!((b.get_start_time_ms(), b.get_end_time_ms()), (0, u64::MAX));
    let out = h.walk_jobs_at(T0);
    assert_eq!(out.len(), 1);
    assert_eq!(out[0].get_metadata().get_id(), id);
}

#[test]
fn past_spoke_is_drained_before_regular_spokes() {
    let mut h = Hub::new(10).unwrap();
    h.add_job_at(Job::new_auto_id(T0 + 5, "regular"), T0);
    h.add_job_at(Job::new_auto_id(T0 + 7, "late"), T0 + 20);
    let out = h.walk_jobs_at(T0 + 20);
    assert_eq!(bodies(&out), vec!["late", "regular"]);
}

#[test]
fn past_job_comes_back_whole() {
    let mut h = Hub::new(10).unwrap();
    let j = Job::new_auto_id(T0 - 123, "whole");
    let id = j.get_metadata().get_id();
    h.add_job_at(j, T0);
    let out = h.walk_jobs_at(T0 + 1);
    assert_eq!(out.len(), 1);
    assert_eq!(out[0].get_metadata().get_id(), id);
    assert_eq!(out[0].trigger_at_ms(), T0 - 123);
    assert_eq!(out[0].get_body().as_str(), "whole");
}

#[test]
fn cancelled_job_is_gone_after_drain() {
    let mut h = Hub::new(10).unwrap();
    let j = Job::new_auto_id(T0 + 5, "x");
    let id = j.get_metadata().get_id();
    h.add_job_at(j, T0);
    assert!(h.cancel_job(id));
    assert!(h.walk_jobs_at(T0 + 100).is_empty());
    assert!(h.find_job_owner_bst(id).is_none());
    assert_eq!(h.spoke_count(), 0);
}

#[test]
fn unroutable_trigger_in_the_past_still_goes_to_past_spoke() {
    let mut h = Hub::new(10).unwrap();
    assert!(!h.can_route(u64::MAX - 3));
    assert!(h.can_route(u64::MAX - 10));
    let j = Job::new_auto_id(u64::MAX - 3, "far");
    let id = j.get_metadata().get_id();
    h.add_job_at(j, u64::MAX);
    let b = h.find_job_owner_bst(id).unwrap();
    assert_eq!((b.get_start_time_ms(), b.get_end_time_ms()), (0, u64::MAX));
}
