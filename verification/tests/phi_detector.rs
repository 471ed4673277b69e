//! The heartbeat window of the failure detector.

use p2p_distribute::phi_detector::{PhiDetector, DEFAULT_WINDOW_SIZE, MIN_SAMPLES};
use p2p_distribute::time::{Duration, Instant};

/// A point in time to count from.
fn start() -> Instant {
    Instant::at(Duration::from_secs(1_000))
}

/// Old samples are evicted when the window is full.
#[test]
fn window_evicts_old_samples() {
    let now = start();
    let mut det = PhiDetector::with_window(now, 5);
    // Record 10 heartbeats, only last 5 intervals should remain.
    for i in 1..=10 {
        det.record_heartbeat(now + Duration::from_millis(i * 100));
    }
    assert_eq!(det.sample_count(), 5);
}

/// Custom window size is respected.
#[test]
fn custom_window_size() {
    let now = start();
    let det = PhiDetector::with_window(now, 10);
    assert_eq!(det.sample_count(), 0);
}

/// The window holds the newest intervals.
#[test]
fn window_holds_newest_intervals() {
    let now = start();
    let mut det = PhiDetector::with_window(now, 3);
    let mut t = now;
    for ms in [5u64, 10, 20, 30, 40] {
        t = t + Duration::from_millis(ms);
        det.record_heartbeat(t);
    }
    let expected: Vec<Duration> = [20u64, 30, 40]
        .iter()
        .map(|ms| Duration::from_millis(*ms))
        .collect();
    assert_eq!(det.intervals(), &expected[..]);
    assert_eq!(
        det.silence(t + Duration::from_millis(7)),
        Duration::from_millis(7)
    );
}

/// The default window is bounded too, and a few samples are enough.
#[test]
fn default_window_is_bounded() {
    let now = start();
    let mut det = PhiDetector::new(now);
    let mut t = now;
    assert!(!det.has_enough_samples());
    for i in 0..DEFAULT_WINDOW_SIZE + 20 {
        t = t + Duration::from_millis(1);
        det.record_heartbeat(t);
        assert_eq!(
            det.has_enough_samples(),
            det.sample_count() >= MIN_SAMPLES,
            "after {i}"
        );
    }
    assert_eq!(det.sample_count(), DEFAULT_WINDOW_SIZE);
}
