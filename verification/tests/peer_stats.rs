//! Session statistics of peers, trust and reputation.

use p2p_distribute::peer::RejectionReason;
use p2p_distribute::peer_id::PeerId;
use p2p_distribute::peer_stats::{
    PeerReputation, PeerStats, PeerTracker, Recency, SpeedSample, TrustLevel,
};
use p2p_distribute::time::{Duration, Instant};

/// Weight of the newest speed in the moving average.
const SMOOTHING: f64 = 0.3;

/// Measures the speed of a fetch, smooths it, and records the fetch.
fn fetched(stats: &mut PeerStats, bytes: u64, fetch_duration: Duration, now: Instant) {
    let secs = fetch_duration.nanos as f64 / 1e9;
    let sample = if secs > 0.0 {
        let speed = bytes as f64 / secs;
        let before = stats.ewma_speed as f64;
        let smoothed = if before == 0.0 {
            speed
        } else {
            SMOOTHING * speed + (1.0 - SMOOTHING) * before
        };
        Some(SpeedSample {
            speed: speed as u64,
            smoothed: smoothed as u64,
        })
    } else {
        None
    };
    stats.record_success(bytes, fetch_duration, sample, now);
}

/// A point in time to count from.
fn start() -> Instant {
    Instant::at(Duration::from_secs(1_000))
}

/// Fresh `PeerStats` starts with zero counters and no history.
#[test]
fn peer_stats_new_initial_values() {
    let now = start();
    let stats = PeerStats::new(now);

    assert_eq!(stats.pieces_served, 0);
    assert_eq!(stats.pieces_requested, 0);
    assert_eq!(stats.bytes_received, 0);
    assert_eq!(stats.corruption_count, 0);
    assert_eq!(stats.timeout_count, 0);
    assert_eq!(stats.rejection_count, 0);
    assert!(stats.last_rejection.is_none());
    assert_eq!(stats.peak_speed, 0);
    assert!(stats.last_success_at.is_none());
    assert!(stats.last_failure_at.is_none());
    assert_eq!(stats.disconnect_count, 0);
    assert_eq!(stats.first_seen, now);
}

/// `record_success` updates served count, byte total, and speed.
#[test]
fn record_success_updates_fields() {
    let now = start();
    let mut stats = PeerStats::new(now);

    fetched(&mut stats, 1000, Duration::from_millis(100), now);

    assert_eq!(stats.pieces_served, 1);
    assert_eq!(stats.pieces_requested, 1);
    assert_eq!(stats.bytes_received, 1000);
    assert_eq!(stats.peak_speed, 10_000); // 1000 bytes / 0.1s
    assert!(stats.last_success_at.is_some());
}

/// `record_corruption` increments corruption_count and total failures.
#[test]
fn record_corruption_updates_counts() {
    let now = start();
    let mut stats = PeerStats::new(now);

    stats.record_corruption(now);

    assert_eq!(stats.corruption_count, 1);
    assert_eq!(stats.pieces_requested, 1);
    assert_eq!(stats.pieces_served, 0);
}

/// `record_timeout` increments timeout_count and total failures.
#[test]
fn record_timeout_updates_counts() {
    let now = start();
    let mut stats = PeerStats::new(now);

    stats.record_timeout(now);

    assert_eq!(stats.timeout_count, 1);
    assert_eq!(stats.pieces_requested, 1);
}

/// `record_rejection` tracks the reason and increments rejection count.
#[test]
fn record_rejection_tracks_reason() {
    let now = start();
    let mut stats = PeerStats::new(now);

    stats.record_rejection(RejectionReason::RateLimited, now);

    assert_eq!(stats.rejection_count, 1);
    assert_eq!(stats.last_rejection, Some(RejectionReason::RateLimited));
    assert_eq!(stats.pieces_requested, 1);
}

/// `should_back_off` returns true for recent transient rejections.
#[test]
fn should_back_off_transient_rejection() {
    let now = start();
    let mut stats = PeerStats::new(now);

    stats.record_rejection(RejectionReason::RateLimited, now);
    assert!(stats.should_back_off(now));
}

/// `should_back_off` returns false for permanent rejections.
#[test]
fn should_back_off_false_for_permanent() {
    let now = start();
    let mut stats = PeerStats::new(now);

    stats.record_rejection(RejectionReason::Maintenance, now);
    assert!(!stats.should_back_off(now));
}

/// `should_avoid_permanently` returns true for non-transient rejections.
#[test]
fn should_avoid_permanently_policy_violation() {
    let now = start();
    let mut stats = PeerStats::new(now);

    stats.record_rejection(RejectionReason::PolicyViolation, now);
    assert!(stats.should_avoid_permanently());
}

/// `should_avoid_permanently` returns false for transient rejections.
#[test]
fn should_avoid_permanently_false_for_transient() {
    let now = start();
    let mut stats = PeerStats::new(now);

    stats.record_rejection(RejectionReason::SwarmFull, now);
    assert!(!stats.should_avoid_permanently());
}

/// A success→failure→success cycle increments disconnect_count.
#[test]
fn disconnect_detected_on_success_after_failure() {
    let now = start();
    let mut stats = PeerStats::new(now);

    // First success — establishes baseline.
    fetched(&mut stats, 1000, Duration::from_millis(10), now);
    assert_eq!(stats.disconnect_count, 0);

    // Failure — peer dropped.
    stats.record_failure(now);

    // Second success — peer reconnected.
    fetched(&mut stats, 1000, Duration::from_millis(10), now);
    assert_eq!(stats.disconnect_count, 1);
}

/// `PeerTracker` creates stats for the requested number of peers.
#[test]
fn peer_tracker_creates_correct_count() {
    let now = start();
    let tracker = PeerTracker::new(5, now);

    assert_eq!(tracker.peer_count(), 5);
    assert!(tracker.get(0).is_some());
    assert!(tracker.get(4).is_some());
    assert!(tracker.get(5).is_none());
}

/// `reference_speed` returns the max average speed across all peers.
#[test]
fn peer_tracker_reference_speed() {
    let now = start();
    let mut tracker = PeerTracker::new(2, now);

    // Peer 0: 10 KB/s, Peer 1: 100 KB/s.
    if let Some(s) = tracker.get_mut(0) {
        fetched(s, 1000, Duration::from_millis(100), now);
    }
    if let Some(s) = tracker.get_mut(1) {
        fetched(s, 10_000, Duration::from_millis(100), now);
    }

    assert_eq!(tracker.reference_speed(), 100_000); // 10KB/0.1s
}

/// Each `RejectionReason` variant has a meaningful display string.
#[test]
fn rejection_reason_display() {
    assert_eq!(RejectionReason::RateLimited.display(), "rate limited");
    assert_eq!(RejectionReason::SwarmFull.display(), "swarm full");
    assert_eq!(
        RejectionReason::InsufficientAuth.display(),
        "insufficient authentication"
    );
    assert_eq!(
        RejectionReason::PolicyViolation.display(),
        "policy violation"
    );
    assert_eq!(RejectionReason::Maintenance.display(), "peer maintenance");
    assert_eq!(
        RejectionReason::Other("custom".into()).display(),
        "custom"
    );
}

/// Trust progresses from Untested through Probationary and Established
/// to Trusted as pieces_served increases.
#[test]
fn trust_level_transitions() {
    let now = start();
    let mut stats = PeerStats::new(now);

    assert_eq!(stats.trust_level(), TrustLevel::Untested);

    // 1 success → Probationary.
    fetched(&mut stats, 100, Duration::from_millis(10), now);
    assert_eq!(stats.trust_level(), TrustLevel::Probationary);

    // 2 more → Established (total: 3).
    fetched(&mut stats, 100, Duration::from_millis(10), now);
    fetched(&mut stats, 100, Duration::from_millis(10), now);
    assert_eq!(stats.trust_level(), TrustLevel::Established);

    // 7 more → Trusted (total: 10).
    for _ in 0..7 {
        fetched(&mut stats, 100, Duration::from_millis(10), now);
    }
    assert_eq!(stats.trust_level(), TrustLevel::Trusted);
}

/// EWMA speed initialises from the first successful fetch.
#[test]
fn ewma_speed_initialises_from_first_fetch() {
    let now = start();
    let mut stats = PeerStats::new(now);

    // 10000 bytes in 100ms = 100 KB/s.
    fetched(&mut stats, 10_000, Duration::from_millis(100), now);
    assert_eq!(stats.ewma_speed_bytes_per_sec(), 100_000);
}

/// EWMA speed converges toward the current rate over successive fetches.
#[test]
fn ewma_speed_converges_toward_current_rate() {
    let now = start();
    let mut stats = PeerStats::new(now);

    // One fetch at 100 KB/s.
    fetched(&mut stats, 10_000, Duration::from_millis(100), now);
    let after_slow = stats.ewma_speed;

    // Three fetches at 200 KB/s — EWMA should trend upward.
    for _ in 0..3 {
        fetched(&mut stats, 20_000, Duration::from_millis(100), now);
    }
    let after_fast = stats.ewma_speed;

    assert!(
        after_fast > after_slow,
        "EWMA should increase: {after_slow} → {after_fast}"
    );
    // Should be above 100K but below 200K (still converging).
    assert!(after_fast > 100_000);
    assert!(after_fast < 200_000);
}

/// EWMA speed returns 0 when no fetches recorded.
#[test]
fn ewma_speed_zero_when_no_fetches() {
    let now = start();
    let stats = PeerStats::new(now);
    assert_eq!(stats.ewma_speed_bytes_per_sec(), 0);
}

/// Consecutive transient rejections double the backoff window.
#[test]
fn exponential_backoff_doubles_with_consecutive_rejections() {
    let now = start();
    let mut stats = PeerStats::new(now);

    // First rejection: 5s backoff.
    stats.record_rejection(RejectionReason::RateLimited, now);
    assert_eq!(stats.consecutive_transient_rejections, 1);
    assert!(stats.should_back_off(now));

    // Second rejection: 10s backoff.
    stats.record_rejection(RejectionReason::RateLimited, now);
    assert_eq!(stats.consecutive_transient_rejections, 2);
    assert!(stats.should_back_off(now));

    // Third rejection: 20s backoff.
    stats.record_rejection(RejectionReason::SwarmFull, now);
    assert_eq!(stats.consecutive_transient_rejections, 3);
    assert!(stats.should_back_off(now));
}

/// A successful fetch resets the consecutive rejection counter.
#[test]
fn backoff_resets_on_success() {
    let now = start();
    let mut stats = PeerStats::new(now);

    // Build up consecutive rejections.
    stats.record_rejection(RejectionReason::RateLimited, now);
    stats.record_rejection(RejectionReason::RateLimited, now);
    assert_eq!(stats.consecutive_transient_rejections, 2);

    // Success resets the counter.
    fetched(&mut stats, 1000, Duration::from_millis(10), now);
    assert_eq!(stats.consecutive_transient_rejections, 0);
}

/// Non-transient rejections don't increment the consecutive counter.
#[test]
fn non_transient_rejection_does_not_increment_consecutive() {
    let now = start();
    let mut stats = PeerStats::new(now);

    stats.record_rejection(RejectionReason::PolicyViolation, now);
    assert_eq!(stats.consecutive_transient_rejections, 0);

    stats.record_rejection(RejectionReason::Maintenance, now);
    assert_eq!(stats.consecutive_transient_rejections, 0);
}

/// `to_reputation` creates a snapshot capturing trust level, speed,
/// and piece counts from the current session.
#[test]
fn to_reputation_captures_session_state() {
    let now = start();
    let id = PeerId::from_key_material(b"test-peer");
    let mut stats = PeerStats::new(now);

    // Build up some history.
    for _ in 0..5 {
        fetched(&mut stats, 10_000, Duration::from_millis(100), now);
    }

    let rep = stats.to_reputation(id, 1_700_000_000, None);

    assert_eq!(rep.peer_id, id);
    assert_eq!(rep.trust_level, TrustLevel::Established);
    assert_eq!(rep.lifetime_pieces_served, 5);
    assert_eq!(rep.lifetime_corruption_count, 0);
    assert!(rep.avg_speed_bytes_per_sec > 0);
    assert_eq!(rep.last_seen_unix_secs, 1_700_000_000);
    assert!(!rep.banned);
}

/// `to_reputation` accumulates lifetime counters across sessions
/// when given a prior reputation.
#[test]
fn to_reputation_accumulates_with_prior() {
    let now = start();
    let id = PeerId::from_key_material(b"returning-peer");

    // Prior: 100 pieces served in earlier sessions.
    let prior = PeerReputation {
        peer_id: id,
        trust_level: TrustLevel::Trusted,
        lifetime_pieces_served: 100,
        lifetime_corruption_count: 2,
        avg_speed_bytes_per_sec: 50_000,
        last_seen_unix_secs: 1_699_000_000,
        banned: false,
    };

    let mut stats = PeerStats::new(now);
    fetched(&mut stats, 10_000, Duration::from_millis(100), now);
    stats.record_corruption(now);

    let rep = stats.to_reputation(id, 1_700_000_000, Some(&prior));

    // Current session: 1 served + prior 100 = 101.
    assert_eq!(rep.lifetime_pieces_served, 101);
    // Current session: 1 corruption + prior 2 = 3.
    assert_eq!(rep.lifetime_corruption_count, 3);
}

/// `to_reputation` marks banned peers when permanently avoided.
#[test]
fn to_reputation_marks_banned() {
    let now = start();
    let id = PeerId::from_key_material(b"bad-peer");
    let mut stats = PeerStats::new(now);

    stats.record_rejection(RejectionReason::PolicyViolation, now);

    let rep = stats.to_reputation(id, 1_700_000_000, None);
    assert!(rep.banned);
}

/// `register_identity` binds a PeerId to a peer index.
#[test]
fn register_identity_and_lookup() {
    let now = start();
    let mut tracker = PeerTracker::new(3, now);
    let id = PeerId::from_key_material(b"https://mirror.example.com/file.zip");

    tracker.register_identity(1, id);

    assert_eq!(tracker.identity(1), Some(&id));
    assert_eq!(tracker.find_by_identity(&id), Some(1));
    assert!(tracker.identity(0).is_none());
}

/// `find_by_identity` returns `None` for unregistered identities.
#[test]
fn find_by_identity_unknown() {
    let now = start();
    let tracker = PeerTracker::new(2, now);
    let id = PeerId::from_key_material(b"unknown");

    assert!(tracker.find_by_identity(&id).is_none());
}

/// Prior reputation restores trust level for returning peers.
#[test]
fn prior_reputation_restores_trust_level() {
    let now = start();
    let id = PeerId::from_key_material(b"returning-trusted-peer");

    let prior = vec![PeerReputation {
        peer_id: id,
        trust_level: TrustLevel::Trusted,
        lifetime_pieces_served: 500,
        lifetime_corruption_count: 0,
        avg_speed_bytes_per_sec: 100_000,
        last_seen_unix_secs: 1_699_000_000,
        banned: false,
    }];

    let mut tracker = PeerTracker::with_prior_reputation(2, now, prior);

    // Before identity registration — peer is fresh (Untested).
    assert_eq!(
        tracker.get(0).map(|s| s.trust_level()),
        Some(TrustLevel::Untested)
    );

    // Register identity for peer 0 — should restore Trusted.
    tracker.register_identity(0, id);

    assert_eq!(
        tracker.get(0).map(|s| s.trust_level()),
        Some(TrustLevel::Trusted)
    );
    // EWMA speed also restored from prior.
    assert_eq!(
        tracker.get(0).map(|s| s.ewma_speed_bytes_per_sec()),
        Some(100_000)
    );
}

/// Prior reputation bans carry over to new sessions.
#[test]
fn prior_reputation_applies_ban() {
    let now = start();
    let id = PeerId::from_key_material(b"banned-peer");

    let prior = vec![PeerReputation {
        peer_id: id,
        trust_level: TrustLevel::Trusted,
        lifetime_pieces_served: 200,
        lifetime_corruption_count: 50,
        avg_speed_bytes_per_sec: 80_000,
        last_seen_unix_secs: 1_699_000_000,
        banned: true,
    }];

    let mut tracker = PeerTracker::with_prior_reputation(1, now, prior);
    tracker.register_identity(0, id);

    // Banned peer should be permanently avoided.
    assert!(tracker
        .get(0)
        .map(|s| s.should_avoid_permanently())
        .unwrap_or(false));
}

/// `snapshot_reputations` only includes identified peers.
#[test]
fn snapshot_reputations_excludes_unidentified() {
    let now = start();
    let mut tracker = PeerTracker::new(3, now);
    let id = PeerId::from_key_material(b"identified-peer");

    // Only peer 1 is identified.
    tracker.register_identity(1, id);

    // Record some activity for all peers.
    for i in 0..3 {
        if let Some(s) = tracker.get_mut(i) {
            fetched(s, 1000, Duration::from_millis(10), now);
        }
    }

    let reps = tracker.snapshot_reputations(1_700_000_000, &[]);

    // Only 1 reputation (the identified peer).
    assert_eq!(reps.len(), 1);
    assert_eq!(reps[0].peer_id, id);
    assert_eq!(reps[0].lifetime_pieces_served, 1);
}

/// `snapshot_reputations` merges with prior reputation data.
#[test]
fn snapshot_reputations_merges_prior() {
    let now = start();
    let id = PeerId::from_key_material(b"multi-session-peer");

    let prior = vec![PeerReputation {
        peer_id: id,
        trust_level: TrustLevel::Established,
        lifetime_pieces_served: 50,
        lifetime_corruption_count: 1,
        avg_speed_bytes_per_sec: 75_000,
        last_seen_unix_secs: 1_699_000_000,
        banned: false,
    }];

    let mut tracker = PeerTracker::new(1, now);
    tracker.register_identity(0, id);

    if let Some(s) = tracker.get_mut(0) {
        fetched(s, 10_000, Duration::from_millis(100), now);
    }

    let reps = tracker.snapshot_reputations(1_700_000_000, &prior);

    assert_eq!(reps.len(), 1);
    // 50 prior + 1 current = 51.
    assert_eq!(reps[0].lifetime_pieces_served, 51);
}

/// A freshly created peer is not snubbed within the grace period.
#[test]
fn not_snubbed_within_grace_period() {
    let now = start();
    let stats = PeerStats::new(now);
    // 30 seconds in — well under the 60s threshold.
    let later = now + Duration::from_secs(30);
    assert!(!stats.is_snubbed(later));
}

/// A peer with no successes becomes snubbed after the timeout.
#[test]
fn snubbed_after_timeout_without_success() {
    let now = start();
    let stats = PeerStats::new(now);
    let later = now + Duration::from_secs(61);
    assert!(stats.is_snubbed(later));
}

/// A recent success resets the snub timer.
#[test]
fn success_resets_snub_timer() {
    let now = start();
    let mut stats = PeerStats::new(now);
    let t1 = now + Duration::from_secs(50);
    fetched(&mut stats, 1000, Duration::from_millis(100), t1);
    // 70s after initial creation, but only 20s after last success.
    let t2 = now + Duration::from_secs(70);
    assert!(!stats.is_snubbed(t2));
    // 111s after last success — snubbed.
    let t3 = t1 + Duration::from_secs(61);
    assert!(stats.is_snubbed(t3));
}

/// A freshly created peer has not interacted.
#[test]
fn new_peer_has_not_interacted() {
    let now = start();
    let stats = PeerStats::new(now);
    assert!(!stats.has_interacted());
}

/// A peer that delivered a piece has interacted.
#[test]
fn success_counts_as_interaction() {
    let now = start();
    let mut stats = PeerStats::new(now);
    fetched(&mut stats, 1000, Duration::from_millis(100), now);
    assert!(stats.has_interacted());
}

/// A peer that rejected a request has interacted.
#[test]
fn rejection_counts_as_interaction() {
    let now = start();
    let mut stats = PeerStats::new(now);
    stats.record_rejection(RejectionReason::RateLimited, now);
    assert!(stats.has_interacted());
}

/// The backoff after rejections: 5, 10, 20, 40, then 60 seconds.
#[test]
fn rejection_backoff_lengths() {
    let now = start();
    let mut stats = PeerStats::new(now);
    for secs in [5u64, 10, 20, 40, 60, 60] {
        stats.record_rejection(RejectionReason::SwarmFull, now);
        let before = now + Duration::from_nanos(Duration::from_secs(secs).nanos - 1);
        assert!(stats.should_back_off(before));
        assert!(!stats.should_back_off(now + Duration::from_secs(secs)));
    }
}

/// What goes into the score of a peer without history.
#[test]
fn factors_of_new_peer() {
    let now = start();
    let stats = PeerStats::new(now);
    let factors = stats.score_factors(1_000, now);
    assert_eq!(factors.speed, Some((0, 1_000)));
    assert_eq!(factors.reliability, None);
    assert_eq!(factors.disconnects, 0);
    assert_eq!(factors.recency, Recency::New);
    assert_eq!(factors.trust, TrustLevel::Untested);
}

/// Recency fades with the age of the last success.
#[test]
fn recency_fades() {
    let now = start();
    let mut stats = PeerStats::new(now);
    fetched(&mut stats, 1_000, Duration::from_millis(10), now);
    let factors = stats.score_factors(1, now + Duration::from_secs(100));
    assert_eq!(factors.recency, Recency::Succeeded { age_secs: 100 });
    let factors = stats.score_factors(1, now + Duration::from_secs(300));
    assert_eq!(factors.recency, Recency::Stale);
}

/// A session starts when the tracker does.
#[test]
fn session_start_is_kept() {
    let now = start();
    assert_eq!(PeerTracker::new(1, now).session_start(), now);
}

/// A tracker with one peer that returns as a trusted one, and its reputation.
fn returning_peer() -> (PeerTracker, Vec<PeerReputation>) {
    let id = PeerId::from_bytes([7; 32]);
    let prior = vec![PeerReputation {
        peer_id: id,
        trust_level: TrustLevel::Trusted,
        lifetime_pieces_served: 500,
        lifetime_corruption_count: 0,
        avg_speed_bytes_per_sec: 100_000,
        last_seen_unix_secs: 0,
        banned: false,
    }];
    (
        PeerTracker::with_prior_reputation(1, start(), prior.clone()),
        prior,
    )
}

/// Restored trust credits pieces without counting them as served.
#[test]
fn credited_pieces_are_not_served() {
    let (mut tracker, prior) = returning_peer();
    let id = prior[0].peer_id;
    tracker.register_identity(0, id);
    let stats = tracker.get(0).unwrap();
    assert_eq!(stats.pieces_served, 10);
    assert_eq!(stats.credited_pieces, 10);
    assert_eq!(stats.session_pieces_served(), 0);

    let reps = tracker.snapshot_reputations(9, &prior);
    assert_eq!(reps.len(), 1);
    assert_eq!(reps[0].peer_id, id);
    assert_eq!(reps[0].trust_level, TrustLevel::Trusted);
    assert_eq!(reps[0].lifetime_pieces_served, 500);
    assert_eq!(reps[0].lifetime_corruption_count, 0);
    assert_eq!(reps[0].last_seen_unix_secs, 9);
    assert!(!reps[0].banned);

    // One success, one failure: one piece out of two.
    let now = start();
    fetched(
        tracker.get_mut(0).unwrap(),
        1000,
        Duration::from_millis(10),
        now,
    );
    tracker.get_mut(0).unwrap().record_failure(now);
    let factors = tracker.score_factors(0, now).unwrap();
    assert_eq!(factors.reliability, Some((1, 2)));
    assert_eq!(factors.trust, TrustLevel::Trusted);
    let reps = tracker.snapshot_reputations(10, &prior);
    assert_eq!(reps[0].lifetime_pieces_served, 501);
}

/// Pieces served before a peer identified itself still count, whichever way
/// the restored count differs.
#[test]
fn pieces_before_registration_count() {
    for served in [3u32, 25] {
        let (mut tracker, prior) = returning_peer();
        let now = start();
        for _ in 0..served {
            fetched(
                tracker.get_mut(0).unwrap(),
                1000,
                Duration::from_millis(10),
                now,
            );
        }
        tracker.register_identity(0, prior[0].peer_id);
        tracker.register_identity(0, prior[0].peer_id);
        let stats = tracker.get(0).unwrap();
        assert_eq!(stats.pieces_served, 10);
        assert_eq!(stats.session_pieces_served(), served);
        let reps = tracker.snapshot_reputations(9, &prior);
        assert_eq!(reps[0].lifetime_pieces_served, 500 + u64::from(served));
    }
}
