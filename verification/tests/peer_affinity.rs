//! Peer profiles and what affinity is made of.

use p2p_distribute::peer_affinity::{
    AffinityScorer, PeerProfile, RegionMatch, DEFAULT_MAX_PEERS, MAX_SPEED_SAMPLES,
};
use p2p_distribute::time::{Duration, Instant};

/// The lowest highest speed, in bytes per second.
const FLOOR: f64 = 1.0;

/// A scorer in a region. Speeds are handed in as the bits of a float, which
/// order as the floats do.
fn default_scorer(local_region: Option<&str>) -> AffinityScorer {
    AffinityScorer::new(
        DEFAULT_MAX_PEERS,
        local_region.map(String::from),
        FLOOR.to_bits(),
    )
}

/// A point in time to count from.
fn start() -> Instant {
    Instant::at(Duration::from_secs(1_000))
}

/// New profile has no measurements.
#[test]
fn new_profile_empty() {
    let now = start();
    let profile = PeerProfile::new([1u8; 20], now);
    assert!(profile.latency().is_none());
    assert!(profile.speed_samples().is_empty());
    assert!(profile.region().is_none());
}

/// Speed window is bounded.
#[test]
fn speed_window_bounded() {
    let now = start();
    let mut profile = PeerProfile::new([1u8; 20], now);

    for i in 0..50 {
        profile.record_speed((i as f64 * 100.0).to_bits(), now);
    }

    assert!(
        profile.speed_samples().len() <= MAX_SPEED_SAMPLES,
        "samples grew to {}",
        profile.speed_samples().len()
    );
}

/// Ranked peers returned in descending score order.
#[test]
fn ranked_peers_descending() {
    let mut scorer = default_scorer(Some("eu-west"));
    let now = start();

    scorer.register_peer([1u8; 20], now);
    scorer.set_peer_region(&[1u8; 20], "eu-west".into());
    scorer.record_peer_latency(&[1u8; 20], Duration::from_millis(10), now);

    scorer.register_peer([2u8; 20], now);
    scorer.set_peer_region(&[2u8; 20], "us-east".into());
    scorer.record_peer_latency(&[2u8; 20], Duration::from_millis(200), now);

    let ranked = scorer.ranked_peers(&[80, 40]);
    assert_eq!(ranked.len(), 2);
    assert!(ranked[0].1 >= ranked[1].1, "should be descending");
    assert_eq!(ranked[0].0, [1u8; 20], "EU peer should be first");
}

/// Peer eviction when capacity exceeded.
#[test]
fn evicts_oldest_when_full() {
    let mut scorer = AffinityScorer::new(3, None, FLOOR.to_bits());
    let now = start();

    scorer.register_peer([1u8; 20], now);
    scorer.register_peer([2u8; 20], now);
    scorer.register_peer([3u8; 20], now);
    assert_eq!(scorer.peer_count(), 3);

    // Adding a 4th should evict one.
    scorer.register_peer([4u8; 20], now);
    assert_eq!(scorer.peer_count(), 3);
}

/// Remove peer clears its profile.
#[test]
fn remove_peer_clears_profile() {
    let mut scorer = default_scorer(None);
    let now = start();

    scorer.register_peer([1u8; 20], now);
    assert_eq!(scorer.peer_count(), 1);

    scorer.remove_peer(&[1u8; 20]);
    assert_eq!(scorer.peer_count(), 0);
}

/// Prune stale removes old profiles.
#[test]
fn peer_affinity_prune_stale_peers() {
    let mut scorer = default_scorer(None);
    let now = start();

    scorer.register_peer([1u8; 20], now);

    // 0 seconds of staleness → nothing pruned.
    let pruned = scorer.prune_stale(Duration::from_secs(60), now);
    assert_eq!(pruned, 0);

    // After staleness period.
    let later = now + Duration::from_secs(61);
    let pruned = scorer.prune_stale(Duration::from_secs(60), later);
    assert_eq!(pruned, 1);
}

/// Duplicate registration is idempotent.
#[test]
fn duplicate_registration_noop() {
    let mut scorer = default_scorer(None);
    let now = start();

    scorer.register_peer([1u8; 20], now);
    scorer.register_peer([1u8; 20], now);
    assert_eq!(scorer.peer_count(), 1);
}

/// What the affinity of a peer is made of.
#[test]
fn factors_of_known_peer() {
    let mut scorer = default_scorer(Some("eu"));
    let now = start();
    scorer.register_peer([1u8; 20], now);
    let factors = scorer.score_factors(&[1u8; 20]).unwrap();
    assert_eq!(factors.region, RegionMatch::Unknown);
    assert_eq!(factors.latency, None);
    assert_eq!(f64::from_bits(factors.max_speed), FLOOR);

    scorer.set_peer_region(&[1u8; 20], "eu".into());
    scorer.record_peer_latency(&[1u8; 20], Duration::from_millis(30), now);
    scorer.record_peer_speed(&[1u8; 20], 500.0f64.to_bits(), now);
    scorer.record_peer_speed(&[1u8; 20], 250.0f64.to_bits(), now);
    let factors = scorer.score_factors(&[1u8; 20]).unwrap();
    assert_eq!(factors.region, RegionMatch::Same);
    assert_eq!(factors.latency, Some(Duration::from_millis(30)));
    assert_eq!(factors.speeds.len(), 2);
    assert_eq!(f64::from_bits(factors.max_speed), 500.0);

    scorer.set_peer_region(&[1u8; 20], "us".into());
    let factors = scorer.score_factors(&[1u8; 20]).unwrap();
    assert_eq!(factors.region, RegionMatch::Different);
    assert!(scorer.score_factors(&[9u8; 20]).is_none());
}

/// A scorer without room tracks nobody.
#[test]
fn no_room_tracks_nobody() {
    let mut scorer = AffinityScorer::new(0, None, FLOOR.to_bits());
    scorer.register_peer([1u8; 20], start());
    assert_eq!(scorer.peer_count(), 0);
}

/// The peer that was heard of longest ago makes room.
#[test]
fn oldest_profile_makes_room() {
    let mut scorer = AffinityScorer::new(2, None, FLOOR.to_bits());
    let now = start();
    scorer.register_peer([1u8; 20], now);
    scorer.register_peer([2u8; 20], now + Duration::from_secs(1));
    scorer.record_peer_latency(
        &[1u8; 20],
        Duration::from_millis(5),
        now + Duration::from_secs(2),
    );
    scorer.register_peer([3u8; 20], now + Duration::from_secs(3));
    assert!(scorer.get_profile(&[1u8; 20]).is_some());
    assert!(scorer.get_profile(&[2u8; 20]).is_none());
    assert!(scorer.get_profile(&[3u8; 20]).is_some());
}
