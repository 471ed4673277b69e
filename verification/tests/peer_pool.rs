//! The pool of connected peers.

use p2p_distribute::peer_pool::{
    PeerPool, PeerPoolConfig, PeerState, PoolFullError, DEFAULT_MAX_PEERS, INITIAL_BACKOFF_SECS,
    MAX_BACKOFF_SECS,
};
use p2p_distribute::time::{Duration, Instant};

/// A point in time to count from.
fn start() -> Instant {
    Instant::at(Duration::from_secs(1_000))
}

/// Helper: creates a peer ID from a single byte (zero-padded).
fn pid(b: u8) -> [u8; 32] {
    let mut id = [0u8; 32];
    id[0] = b;
    id
}

/// Adding a peer increases active count.
#[test]
fn add_peer_increments_count() {
    let now = start();
    let mut pool = PeerPool::with_defaults();
    pool.try_add(pid(1), now).unwrap();
    assert_eq!(pool.active_count(), 1);
    assert_eq!(pool.total_count(), 1);
}

/// Adding the same peer twice is idempotent.
#[test]
fn add_same_peer_idempotent() {
    let now = start();
    let mut pool = PeerPool::with_defaults();
    pool.try_add(pid(1), now).unwrap();
    pool.try_add(pid(1), now).unwrap();
    assert_eq!(pool.active_count(), 1);
}

/// Pool respects max_peers capacity.
#[test]
fn pool_capacity_enforced() {
    let now = start();
    let config = PeerPoolConfig {
        max_peers: 2,
        ..Default::default()
    };
    let mut pool = PeerPool::new(config);
    pool.try_add(pid(1), now).unwrap();
    pool.try_add(pid(2), now).unwrap();

    let err = pool.try_add(pid(3), now).unwrap_err();
    assert!(matches!(err, PoolFullError::AtCapacity { max_peers: 2 }));
}

/// Disconnection transitions peer to Disconnected state.
#[test]
fn disconnect_changes_state() {
    let now = start();
    let mut pool = PeerPool::with_defaults();
    pool.try_add(pid(1), now).unwrap();
    pool.record_disconnect(&pid(1), now);

    let entry = pool.get(&pid(1)).unwrap();
    assert_eq!(entry.state(), PeerState::Disconnected);
    assert_eq!(pool.active_count(), 0);
}

/// Backoff prevents immediate reconnection.
#[test]
fn backoff_prevents_reconnect() {
    let now = start();
    let mut pool = PeerPool::with_defaults();
    pool.try_add(pid(1), now).unwrap();
    pool.record_disconnect(&pid(1), now);

    // Immediate reconnect attempt fails.
    let err = pool.try_add(pid(1), now).unwrap_err();
    assert!(matches!(err, PoolFullError::BackoffActive));
}

/// Reconnection succeeds after backoff expires.
#[test]
fn reconnect_after_backoff() {
    let t0 = start();
    let mut pool = PeerPool::with_defaults();
    pool.try_add(pid(1), t0).unwrap();
    pool.record_disconnect(&pid(1), t0);

    // After backoff.
    let t1 = t0 + Duration::from_secs(INITIAL_BACKOFF_SECS) + Duration::from_millis(1);
    pool.try_add(pid(1), t1).unwrap();
    assert_eq!(pool.active_count(), 1);
}

/// Exponential backoff doubles each disconnect.
#[test]
fn exponential_backoff() {
    let t0 = start();
    let mut pool = PeerPool::with_defaults();
    pool.try_add(pid(1), t0).unwrap();

    // First disconnect → 5s backoff.
    pool.record_disconnect(&pid(1), t0);
    let t1 = t0 + Duration::from_secs(6);
    pool.try_add(pid(1), t1).unwrap();

    // Second disconnect → 10s backoff.
    pool.record_disconnect(&pid(1), t1);
    let t2 = t1 + Duration::from_secs(8);
    let err = pool.try_add(pid(1), t2).unwrap_err();
    assert!(matches!(err, PoolFullError::BackoffActive));

    // Wait long enough for 10s backoff.
    let t3 = t1 + Duration::from_secs(11);
    pool.try_add(pid(1), t3).unwrap();
}

/// Backoff is capped at MAX_BACKOFF.
#[test]
fn backoff_capped() {
    let t0 = start();
    let mut pool = PeerPool::with_defaults();
    pool.try_add(pid(1), t0).unwrap();

    // Disconnect many times.
    let mut t = t0;
    for _ in 0..20 {
        pool.record_disconnect(&pid(1), t);
        t = t + Duration::from_secs(MAX_BACKOFF_SECS + 1);
        pool.try_add(pid(1), t).unwrap();
    }

    // After 20 disconnects, backoff should still be ≤ MAX_BACKOFF.
    pool.record_disconnect(&pid(1), t);
    let entry = pool.get(&pid(1)).unwrap();
    let deadline = entry.reconnect_after().unwrap();
    let actual_backoff = deadline.duration_since(t);
    assert!(actual_backoff.nanos <= Duration::from_secs(MAX_BACKOFF_SECS).nanos);
}

/// Banned peers cannot be re-added.
#[test]
fn ban_prevents_reconnect() {
    let now = start();
    let mut pool = PeerPool::with_defaults();
    pool.try_add(pid(1), now).unwrap();
    pool.ban(&pid(1), now);

    let err = pool.try_add(pid(1), now).unwrap_err();
    assert!(matches!(err, PoolFullError::Banned));
}

/// Ban overrides disconnected state.
#[test]
fn ban_from_disconnected() {
    let now = start();
    let mut pool = PeerPool::with_defaults();
    pool.try_add(pid(1), now).unwrap();
    pool.record_disconnect(&pid(1), now);
    pool.ban(&pid(1), now);

    let entry = pool.get(&pid(1)).unwrap();
    assert_eq!(entry.state(), PeerState::Banned);
}

/// `ranked_peers` returns active peers sorted by score descending.
#[test]
fn ranked_peers_sorted() {
    let now = start();
    let mut pool = PeerPool::with_defaults();
    pool.try_add(pid(1), now).unwrap();
    pool.try_add(pid(2), now).unwrap();
    pool.try_add(pid(3), now).unwrap();

    pool.update_score(&pid(1), 100);
    pool.update_score(&pid(2), 500);
    pool.update_score(&pid(3), 250);

    let ranked = pool.ranked_peers();
    assert_eq!(ranked.len(), 3);
    assert_eq!(ranked[0].peer_id()[0], 2); // score 500
    assert_eq!(ranked[1].peer_id()[0], 3); // score 250
    assert_eq!(ranked[2].peer_id()[0], 1); // score 100
}

/// `evict_worst` removes the lowest-scoring active peer.
#[test]
fn evict_worst_removes_lowest() {
    let t0 = start();
    let config = PeerPoolConfig {
        max_peers: 10,
        eviction_threshold: 200,
        min_active_duration: Duration::from_secs(0), // Allow immediate eviction for test.
    };
    let mut pool = PeerPool::new(config);
    pool.try_add(pid(1), t0).unwrap();
    pool.try_add(pid(2), t0).unwrap();

    pool.update_score(&pid(1), 50); // Below threshold → evictable.
    pool.update_score(&pid(2), 300); // Above threshold → safe.

    let evicted = pool.evict_worst(t0);
    assert_eq!(evicted, Some(pid(1)));
    assert_eq!(pool.active_count(), 1);
}

/// `evict_worst` respects min_active_duration.
#[test]
fn evict_respects_min_active_duration() {
    let now = start();
    let config = PeerPoolConfig {
        max_peers: 10,
        eviction_threshold: 200,
        min_active_duration: Duration::from_secs(60),
    };
    let mut pool = PeerPool::new(config);
    pool.try_add(pid(1), now).unwrap();
    pool.update_score(&pid(1), 10);

    // Too soon — min_active_duration not met.
    assert_eq!(pool.evict_worst(now), None);

    // After 60 seconds — eligible.
    let later = now + Duration::from_secs(61);
    assert_eq!(pool.evict_worst(later), Some(pid(1)));
}

/// `evict_worst` returns None when no peers qualify.
#[test]
fn evict_worst_none_when_all_above_threshold() {
    let now = start();
    let config = PeerPoolConfig {
        max_peers: 10,
        eviction_threshold: 100,
        min_active_duration: Duration::from_secs(0),
    };
    let mut pool = PeerPool::new(config);
    pool.try_add(pid(1), now).unwrap();
    pool.update_score(&pid(1), 500);

    assert_eq!(pool.evict_worst(now), None);
}

/// `reconnectable_peers` lists disconnected peers past backoff.
#[test]
fn reconnectable_peers_lists_ready() {
    let t0 = start();
    let mut pool = PeerPool::with_defaults();
    pool.try_add(pid(1), t0).unwrap();
    pool.try_add(pid(2), t0).unwrap();

    pool.record_disconnect(&pid(1), t0);
    pool.record_disconnect(&pid(2), t0);

    // At t0 — neither is ready.
    assert_eq!(pool.reconnectable_peers(t0).len(), 0);

    // After backoff — both ready.
    let later = t0 + Duration::from_secs(INITIAL_BACKOFF_SECS) + Duration::from_secs(1);
    assert_eq!(pool.reconnectable_peers(later).len(), 2);
}

/// `prune_stale` removes old disconnected entries.
#[test]
fn prune_stale_removes_old_disconnected() {
    let t0 = start();
    let mut pool = PeerPool::with_defaults();
    pool.try_add(pid(1), t0).unwrap();
    pool.try_add(pid(2), t0).unwrap();
    pool.try_add(pid(3), t0).unwrap();

    pool.record_disconnect(&pid(1), t0); // Will be stale.
    pool.ban(&pid(2), t0); // Banned — kept.
                           // pid(3) stays active.

    let later = t0 + Duration::from_secs(3600);
    pool.prune_stale(Duration::from_secs(600), later);

    assert_eq!(pool.total_count(), 2); // pid(2) banned + pid(3) active.
    assert!(pool.get(&pid(1)).is_none());
    assert!(pool.get(&pid(2)).is_some());
    assert!(pool.get(&pid(3)).is_some());
}

/// Empty pool has zero counts and has_capacity.
#[test]
fn empty_pool() {
    let pool = PeerPool::with_defaults();
    assert_eq!(pool.active_count(), 0);
    assert_eq!(pool.total_count(), 0);
    assert!(pool.has_capacity());
    assert_eq!(pool.max_peers(), DEFAULT_MAX_PEERS);
}

/// `get` returns None for unknown peer.
#[test]
fn get_unknown_peer() {
    let pool = PeerPool::with_defaults();
    assert!(pool.get(&pid(99)).is_none());
}

/// `ranked_peers` excludes disconnected and banned peers.
#[test]
fn ranked_excludes_non_active() {
    let now = start();
    let mut pool = PeerPool::with_defaults();
    pool.try_add(pid(1), now).unwrap();
    pool.try_add(pid(2), now).unwrap();
    pool.try_add(pid(3), now).unwrap();

    pool.record_disconnect(&pid(2), now);
    pool.ban(&pid(3), now);

    let ranked = pool.ranked_peers();
    assert_eq!(ranked.len(), 1);
    assert_eq!(ranked[0].peer_id()[0], 1);
}

/// Error Display messages contain diagnostic context.
#[test]
fn error_display_messages() {
    let at_cap = PoolFullError::AtCapacity { max_peers: 55 };
    assert!(at_cap.display().contains("55"));

    let backoff = PoolFullError::BackoffActive;
    assert!(backoff.display().contains("backoff"));

    let banned = PoolFullError::Banned;
    assert!(banned.display().contains("banned"));
}

/// Debug formatting works.
#[test]
fn debug_format() {
    let now = start();
    let mut pool = PeerPool::with_defaults();
    pool.try_add(pid(1), now).unwrap();
    let dbg = format!("{pool:?}");
    assert!(dbg.contains("PeerPool"));

    let entry = pool.get(&pid(1)).unwrap();
    let entry_dbg = format!("{entry:?}");
    assert!(entry_dbg.contains("PeerEntry"));
}

/// `disconnect_count` increments with each disconnect.
#[test]
fn disconnect_count_increments() {
    let t0 = start();
    let mut pool = PeerPool::with_defaults();
    pool.try_add(pid(1), t0).unwrap();

    pool.record_disconnect(&pid(1), t0);
    assert_eq!(pool.get(&pid(1)).unwrap().disconnect_count(), 1);

    let t1 = t0 + Duration::from_secs(10);
    pool.try_add(pid(1), t1).unwrap();
    pool.record_disconnect(&pid(1), t1);
    assert_eq!(pool.get(&pid(1)).unwrap().disconnect_count(), 2);
}

/// `time_in_state` reflects actual elapsed duration.
#[test]
fn time_in_state_accurate() {
    let t0 = start();
    let mut pool = PeerPool::with_defaults();
    pool.try_add(pid(1), t0).unwrap();

    let later = t0 + Duration::from_secs(42);
    let entry = pool.get(&pid(1)).unwrap();
    let elapsed = entry.time_in_state(later);
    assert_eq!(elapsed, Duration::from_secs(42));
}

/// A full pool makes room for a newcomer if somebody may go.
#[test]
fn newcomer_replaces_worst_peer() {
    let t0 = start();
    let config = PeerPoolConfig {
        max_peers: 2,
        eviction_threshold: 100,
        min_active_duration: Duration::from_secs(10),
    };
    let mut pool = PeerPool::new(config);
    pool.try_add(pid(1), t0).unwrap();
    pool.try_add(pid(2), t0).unwrap();
    pool.update_score(&pid(1), 50);
    pool.update_score(&pid(2), 20);
    let t1 = t0 + Duration::from_secs(10);
    pool.try_add(pid(3), t1).unwrap();
    assert_eq!(pool.active_count(), 2);
    assert_ne!(
        pool.get(&pid(2)).map(|e| e.state()),
        Some(PeerState::Active)
    );
    assert_eq!(pool.get(&pid(3)).unwrap().state(), PeerState::Active);
}

/// The backoffs of a peer that keeps disconnecting.
#[test]
fn backoff_sequence() {
    let mut pool = PeerPool::with_defaults();
    let mut t = start();
    pool.try_add(pid(1), t).unwrap();
    for secs in [5u64, 10, 20, 40, 80, 160, 300, 300] {
        pool.record_disconnect(&pid(1), t);
        let until = pool.get(&pid(1)).unwrap().reconnect_after().unwrap();
        assert_eq!(until, t + Duration::from_secs(secs));
        t = until;
        pool.try_add(pid(1), t).unwrap();
    }
}

/// A ban outlasts time and pruning.
#[test]
fn ban_is_permanent() {
    let t0 = start();
    let mut pool = PeerPool::with_defaults();
    pool.try_add(pid(1), t0).unwrap();
    pool.ban(&pid(1), t0);
    let later = t0 + Duration::from_secs(1_000_000);
    pool.prune_stale(Duration::from_secs(1), later);
    assert!(matches!(
        pool.try_add(pid(1), later),
        Err(PoolFullError::Banned)
    ));
    assert!(!pool.get(&pid(1)).unwrap().can_reconnect(later));
}

/// The exact texts of the errors.
#[test]
fn pool_error_texts() {
    assert_eq!(
        PoolFullError::AtCapacity { max_peers: 55 }.display(),
        "pool at capacity (55 active peers)"
    );
    assert_eq!(
        PoolFullError::BackoffActive.display(),
        "peer is in reconnection backoff"
    );
    assert_eq!(PoolFullError::Banned.display(), "peer is banned");
}
