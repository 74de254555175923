use std::time::{Duration, Instant, SystemTime, UNIX_EPOCH};

use hl_blockscope::clock::{
    clock, deadline, deadline_from, next_big, now_s, stamp_ms, stamp_s, wall_ms,
};

#[test]
fn times_of_day() {
    assert_eq!(clock(0), "00:00:00.000");
    assert_eq!(clock(1), "00:00:00.001");
    assert_eq!(clock(86_399_999), "23:59:59.999");
    assert_eq!(clock(86_400_000), "00:00:00.000");
    assert_eq!(clock(1_700_000_000_123), "22:13:20.123");
}

#[test]
fn countdown_to_the_minute() {
    assert_eq!(next_big(0), 60);
    assert_eq!(next_big(59), 1);
    assert_eq!(next_big(60), 60);
    assert_eq!(next_big(61), 59);
}

#[test]
fn readings_of_the_clock() {
    assert_eq!(stamp_ms(Ok(Duration::from_micros(1_234_999))), 1234);
    assert_eq!(stamp_s(Ok(Duration::from_millis(1_999))), 1);
    let before = UNIX_EPOCH - Duration::from_secs(1);
    assert_eq!(stamp_ms(before.duration_since(UNIX_EPOCH)), 0);
    assert_eq!(stamp_s(before.duration_since(UNIX_EPOCH)), 0);
}

#[test]
fn the_wall_clock() {
    let early = SystemTime::now().duration_since(UNIX_EPOCH).unwrap();
    let ms = wall_ms();
    let s = now_s();
    let late = SystemTime::now().duration_since(UNIX_EPOCH).unwrap();
    assert!(early.as_millis() as u64 <= ms && ms <= late.as_millis() as u64);
    assert!(early.as_secs() <= s && s <= late.as_secs());
}

#[test]
fn deadlines() {
    let now = Instant::now();
    let end = deadline_from(&now, 120).unwrap();
    assert_eq!(end.duration_since(now), Duration::from_secs(120));
    let end = deadline(60).unwrap();
    assert!(end.duration_since(now) >= Duration::from_secs(60));
    let early = Instant::now();
    let end = deadline(60).unwrap();
    let late = Instant::now();
    assert!(deadline_from(&early, 60).unwrap() <= end && end <= deadline_from(&late, 60).unwrap());
    assert!(end <= deadline(61).unwrap());
    assert_eq!(deadline_from(&now, 0), Some(now));
    assert!(deadline(0).is_some());
    assert!(deadline_from(&now, u64::MAX).is_none());
    assert!(deadline(u64::MAX).is_none());
}
