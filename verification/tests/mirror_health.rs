//! Mirror tiers, latencies and selection.

use p2p_distribute::mirror_health::{
    HealthTier, MirrorEntry, MirrorRegistry, CONSECUTIVE_FAILURE_THRESHOLD, DEAD_PROBE_NANOS,
    MAX_LATENCY_SAMPLES,
};
use p2p_distribute::phi_detector::Suspicion;
use p2p_distribute::time::{Duration, Instant};

/// A point in time to count from.
fn start() -> Instant {
    Instant::at(Duration::from_secs(1_000))
}

/// New mirror starts as Healthy with no history.
#[test]
fn new_mirror_is_healthy() {
    let entry = MirrorEntry::new("https://example.com".into(), start());
    assert_eq!(entry.tier(), HealthTier::Healthy);
    assert_eq!(entry.total_requests(), 0);
    assert_eq!(entry.total_successes(), 0);
}

/// Consecutive failures trigger demotion to Dead tier.
#[test]
fn consecutive_failures_demote_to_dead() {
    let mut entry = MirrorEntry::new("https://example.com".into(), start());
    let now = start();

    for _ in 0..CONSECUTIVE_FAILURE_THRESHOLD {
        entry.record_failure(Suspicion::Low, now);
    }

    assert_eq!(entry.tier(), HealthTier::Dead);
}

/// A success resets consecutive failure counter.
#[test]
fn success_resets_consecutive_failures() {
    let mut entry = MirrorEntry::new("https://example.com".into(), start());
    let now = start();

    entry.record_failure(Suspicion::Low, now);
    entry.record_failure(Suspicion::Low, now);
    entry.record_success(Duration::from_millis(50), Suspicion::Low, now);

    assert_eq!(entry.consecutive_failures(), 0);
    assert_ne!(entry.tier(), HealthTier::Dead);
}

/// Median latency is computed from the sample window.
#[test]
fn median_latency_computed() {
    let mut entry = MirrorEntry::new("https://example.com".into(), start());
    let now = start();

    for ms in &[10, 20, 30, 40, 50] {
        entry.record_success(Duration::from_millis(*ms), Suspicion::Low, now);
    }

    let median = entry.median_latency().unwrap();
    assert_eq!(median, Duration::from_millis(30));
}

/// Dead mirror is eligible for probe after interval.
#[test]
fn dead_mirror_probe_eligibility() {
    let mut entry = MirrorEntry::new("https://example.com".into(), start());
    let now = start();

    for _ in 0..CONSECUTIVE_FAILURE_THRESHOLD {
        entry.record_failure(Suspicion::Low, now);
    }
    assert_eq!(entry.tier(), HealthTier::Dead);
    assert!(!entry.should_probe(now));

    // After probe interval, should be eligible.
    let later = now + Duration::from_nanos(DEAD_PROBE_NANOS) + Duration::from_secs(1);
    assert!(entry.should_probe(later));
}

/// Registry rejects duplicates.
#[test]
fn registry_rejects_duplicate() {
    let mut reg = MirrorRegistry::new(10);
    reg.add("https://a.example.com".into(), start()).unwrap();
    let err = reg.add("https://a.example.com".into(), start()).unwrap_err();
    assert!(err.display().contains("duplicate"));
}

/// Registry rejects when full.
#[test]
fn registry_rejects_when_full() {
    let mut reg = MirrorRegistry::new(2);
    reg.add("https://a.example.com".into(), start()).unwrap();
    reg.add("https://b.example.com".into(), start()).unwrap();
    let err = reg.add("https://c.example.com".into(), start()).unwrap_err();
    assert!(err.display().contains("full"));
}

/// Select best returns healthy mirrors first.
#[test]
fn select_best_prefers_healthy() {
    let mut reg = MirrorRegistry::new(10);
    let now = start();

    reg.add("https://healthy.example.com".into(), start()).unwrap();
    reg.add("https://failing.example.com".into(), start()).unwrap();

    // Make one mirror healthy, one degraded.
    for _ in 0..5 {
        reg.record_success(
            "https://healthy.example.com",
            Duration::from_millis(20),
            Suspicion::Low,
            now,
        );
    }
    for _ in 0..CONSECUTIVE_FAILURE_THRESHOLD {
        reg.record_failure("https://failing.example.com", Suspicion::Low, now);
    }

    let best = reg.select_best(&[90, 10], now);
    // Healthy mirror should be first (Dead ones excluded unless probeable).
    assert!(!best.is_empty());
    assert_eq!(best.first().unwrap().url(), "https://healthy.example.com");
}

/// Prune dead removes old dead mirrors.
#[test]
fn prune_dead_removes_old() {
    let mut reg = MirrorRegistry::new(10);
    let now = start();

    reg.add("https://dead.example.com".into(), start()).unwrap();
    for _ in 0..CONSECUTIVE_FAILURE_THRESHOLD {
        reg.record_failure("https://dead.example.com", Suspicion::Low, now);
    }

    // Not yet old enough.
    let pruned = reg.prune_dead(Duration::from_secs(600), now);
    assert_eq!(pruned, 0);

    // After retention period.
    let later = now + Duration::from_secs(601);
    let pruned = reg.prune_dead(Duration::from_secs(600), later);
    assert_eq!(pruned, 1);
    assert!(reg.is_empty());
}

/// Tier counts reflect actual mirror state.
#[test]
fn tier_counts_accurate() {
    let mut reg = MirrorRegistry::new(10);
    let now = start();

    reg.add("https://a.example.com".into(), start()).unwrap();
    reg.add("https://b.example.com".into(), start()).unwrap();

    // a is healthy by default, b goes dead.
    for _ in 0..CONSECUTIVE_FAILURE_THRESHOLD {
        reg.record_failure("https://b.example.com", Suspicion::Low, now);
    }

    let counts = reg.tier_counts(now);
    assert_eq!(counts.healthy, 1);
    assert_eq!(counts.dead, 1);
}

/// P90 latency requires minimum samples.
#[test]
fn p90_requires_minimum_samples() {
    let mut entry = MirrorEntry::new("https://example.com".into(), start());
    let now = start();

    // Only 3 samples — insufficient for p90.
    for ms in &[10, 20, 30] {
        entry.record_success(Duration::from_millis(*ms), Suspicion::Low, now);
    }
    assert!(entry.p90_latency().is_none());

    // Add enough for p90.
    for ms in &[40, 50] {
        entry.record_success(Duration::from_millis(*ms), Suspicion::Low, now);
    }
    assert!(entry.p90_latency().is_some());
}

/// Empty mirror has no median latency.
#[test]
fn empty_mirror_no_median() {
    let entry = MirrorEntry::new("https://example.com".into(), start());
    assert!(entry.median_latency().is_none());
}

/// Get retrieves mirror entry by URL.
#[test]
fn get_by_url() {
    let mut reg = MirrorRegistry::new(10);
    reg.add("https://a.example.com".into(), start()).unwrap();

    assert!(reg.get("https://a.example.com").is_some());
    assert!(reg.get("https://b.example.com").is_none());
}

/// Success recording updates the correct mirror.
#[test]
fn record_to_unknown_mirror_is_noop() {
    let mut reg = MirrorRegistry::new(10);
    let now = start();

    // Should not panic.
    reg.record_success(
        "https://nonexistent.com",
        Duration::from_millis(10),
        Suspicion::Low,
        now,
    );
    reg.record_failure("https://nonexistent.com", Suspicion::Low, now);
}

/// Latency window is bounded.
#[test]
fn latency_window_bounded() {
    let mut entry = MirrorEntry::new("https://example.com".into(), start());
    let now = start();

    for i in 0..200 {
        entry.record_success(Duration::from_millis(i), Suspicion::Low, now);
    }

    assert!(
        entry.latency_count() <= MAX_LATENCY_SAMPLES,
        "latency window grew to {}",
        entry.latency_count()
    );
}

/// Better tiers come first, and within a tier the higher score.
#[test]
fn selection_order() {
    let now = start();
    let mut reg = MirrorRegistry::new(10);
    for url in ["a", "b", "c"] {
        reg.add(url.into(), now).unwrap();
    }
    // The failure streak of `a` ends its good standing.
    reg.record_failure("a", Suspicion::Critical, now);
    let best = reg.select_best(&[99, 10, 20], now);
    let urls: Vec<&str> = best.iter().map(|m| m.url()).collect();
    assert_eq!(&urls[..2], &["c", "b"]);
}

/// The ninth of ten latencies is the 90th percentile.
#[test]
fn p90_of_ten() {
    let now = start();
    let mut entry = MirrorEntry::new("u".into(), now);
    for ms in 1..=10u64 {
        entry.record_success(Duration::from_millis(ms), Suspicion::Low, now);
    }
    assert_eq!(entry.p90_latency(), Some(Duration::from_millis(10)));
    assert_eq!(entry.median_latency(), Some(Duration::from_millis(6)));
}

/// The exact texts of the errors.
#[test]
fn registry_error_texts() {
    let mut reg = MirrorRegistry::new(1);
    reg.add("u".into(), start()).unwrap();
    let err = reg.add("u".into(), start()).unwrap_err();
    assert_eq!(err.display(), "mirror registry full: 1 maximum mirrors");
    let mut reg = MirrorRegistry::new(2);
    reg.add("u".into(), start()).unwrap();
    let err = reg.add("u".into(), start()).unwrap_err();
    assert_eq!(err.display(), "duplicate mirror URL: u");
}

/// A mirror that has been dead for exactly the given duration stays, as does
/// one that answered since.
#[test]
fn prune_dead_boundary() {
    let mut reg = MirrorRegistry::new(10);
    let now = start();
    for url in ["https://silent.example.com", "https://back.example.com"] {
        reg.add(url.into(), now).unwrap();
        for _ in 0..CONSECUTIVE_FAILURE_THRESHOLD {
            reg.record_failure(url, Suspicion::Low, now);
        }
    }
    let probe = now + Duration::from_secs(300);
    reg.record_success(
        "https://back.example.com",
        Duration::from_millis(50),
        Suspicion::Critical,
        probe,
    );
    assert_eq!(
        reg.get("https://back.example.com").unwrap().tier(),
        HealthTier::Dead
    );

    let limit = Duration::from_secs(600);
    assert_eq!(reg.prune_dead(limit, now + limit), 0);
    assert_eq!(reg.prune_dead(limit, now + Duration::from_secs(601)), 1);
    assert!(reg.get("https://silent.example.com").is_none());
    assert_eq!(reg.len(), 1);
}
