use std::time::{Duration, SystemTime, UNIX_EPOCH};
use yaad::times::{
    current_time_ms, duration_to_ms, floor_ms_from_epoch, floor_to_bucket, ms_to_system_time,
    system_time_to_ms, to_string,
};

#[test]
fn ms_system_time_conversion() {
    let now = SystemTime::now();

    let now_ms = system_time_to_ms(now);
    let now = ms_to_system_time(now_ms).unwrap();
    let now_no_nanos_ms = system_time_to_ms(now);

    assert_eq!(now_ms, now_no_nanos_ms);
}

#[test]
fn floor_to_bucket_values() {
    assert_eq!(floor_to_bucket(1_234, 10), 1_230);
    assert_eq!(floor_to_bucket(1_230, 10), 1_230);
    assert_eq!(floor_to_bucket(1_234, 25), 1_225);
    assert_eq!(floor_to_bucket(7, 1), 7);
    assert_eq!(floor_to_bucket(u64::MAX, 10), 18_446_744_073_709_551_610);
    assert_eq!(floor_ms_from_epoch(99), 90);
}

#[test]
fn duration_to_ms_values() {
    assert_eq!(duration_to_ms(2, 345_678_901), 2_345);
    assert_eq!(duration_to_ms(0, 999_999), 0);
    assert_eq!(duration_to_ms(u64::MAX, 0), u64::MAX);
}

#[test]
fn system_time_to_ms_values() {
    let t = UNIX_EPOCH + Duration::new(3, 7_500_000);
    assert_eq!(system_time_to_ms(t), 3_007);
    assert_eq!(system_time_to_ms(UNIX_EPOCH), 0);
    assert_eq!(ms_to_system_time(1_500), Some(UNIX_EPOCH + Duration::from_millis(1_500)));
}

#[test]
fn clock_reads_after_epoch() {
    assert!(current_time_ms() > 1_500_000_000_000);
}

#[test]
fn to_string_values() {
    assert_eq!(to_string(0), Some("1970-01-01 00:00:00 UTC".to_string()));
    assert_eq!(to_string(1_999), Some("1970-01-01 00:00:01 UTC".to_string()));
    assert_eq!(to_string(u64::MAX), None);
}
