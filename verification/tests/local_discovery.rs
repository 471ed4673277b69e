//! Announces on the local network and the peers that they lead to.

use p2p_distribute::local_discovery::{
    parse_hex_hash, LpdAnnounce, LpdPeer, LpdService, ANNOUNCE_HEADER, ANNOUNCE_INTERVAL_NANOS,
    LPD_MULTICAST_ADDR, LPD_PORT, MAX_LPD_PEERS, PEER_STALE_NANOS,
};
use p2p_distribute::time::{Duration, Instant};

/// A point in time to count from.
fn start() -> Instant {
    Instant::at(Duration::from_secs(1_000))
}

/// Announce round-trips through serialisation.
#[test]
fn announce_round_trip() {
    let original = LpdAnnounce::new([0xAB; 20], 6881);
    let bytes = original.to_bytes();
    let parsed = LpdAnnounce::from_bytes(&bytes).unwrap();
    assert_eq!(original, parsed);
}

/// Announce contains required fields.
#[test]
fn announce_format() {
    let announce = LpdAnnounce::new([0x42; 20], 51234);
    let text = String::from_utf8(announce.to_bytes()).unwrap();

    assert!(text.starts_with("BT-SEARCH * HTTP/1.1\r\n"));
    assert!(text.contains("Port: 51234"));
    assert!(text.contains("Infohash: "));
    assert!(text.ends_with("\r\n\r\n"));
}

/// Rejects malformed announce.
#[test]
fn rejects_malformed() {
    assert!(LpdAnnounce::from_bytes(b"GET / HTTP/1.1\r\n").is_none());
}

/// Rejects announce missing port.
#[test]
fn rejects_missing_port() {
    let msg = format!(
        "{}\r\nHost: {}:{}\r\nInfohash: {}\r\n\r\n",
        ANNOUNCE_HEADER,
        LPD_MULTICAST_ADDR,
        LPD_PORT,
        "aa".repeat(20),
    );
    assert!(LpdAnnounce::from_bytes(msg.as_bytes()).is_none());
}

/// Hex hash parsing for valid input.
#[test]
fn hex_hash_valid() {
    let hex = "abcdef0123456789abcdef0123456789abcdef01";
    let result = parse_hex_hash(hex);
    assert!(result.is_some());
    assert_eq!(result.unwrap()[0], 0xAB);
}

/// Hex hash rejects wrong length.
#[test]
fn hex_hash_wrong_length() {
    assert!(parse_hex_hash("abcdef").is_none());
    assert!(parse_hex_hash(&"ab".repeat(21)).is_none());
}

/// Subscribe and discover peers.
#[test]
fn subscribe_and_discover() {
    let now = start();
    let mut service = LpdService::new();
    let hash = [0x42; 20];

    service.subscribe(hash, 6881);
    assert_eq!(service.subscription_count(), 1);

    // Receive an announce from another peer.
    let announce = LpdAnnounce::new(hash, 51234);
    service.handle_announce(&announce, "192.168.1.100", now);

    let peers = service.peers_for(&hash);
    assert_eq!(peers.len(), 1);
    assert_eq!(peers[0].ip(), "192.168.1.100");
    assert_eq!(peers[0].port(), 51234);
}

/// Duplicate peers are refreshed, not duplicated.
#[test]
fn duplicate_peer_refreshed() {
    let now = start();
    let mut service = LpdService::new();
    let hash = [0x42; 20];

    service.subscribe(hash, 6881);

    let announce = LpdAnnounce::new(hash, 51234);
    service.handle_announce(&announce, "192.168.1.100", now);
    service.handle_announce(&announce, "192.168.1.100", now);

    assert_eq!(service.peers_for(&hash).len(), 1);
}

/// Unsubscribed info hashes are ignored.
#[test]
fn ignores_unsubscribed() {
    let now = start();
    let mut service = LpdService::new();

    let announce = LpdAnnounce::new([0xFF; 20], 6881);
    service.handle_announce(&announce, "192.168.1.100", now);

    assert_eq!(service.total_peer_count(), 0);
}

/// Pending announces for new subscriptions.
#[test]
fn pending_announces_due_immediately() {
    let now = start();
    let mut service = LpdService::new();
    service.subscribe([0x42; 20], 6881);

    let pending = service.pending_announces(now);
    assert_eq!(pending.len(), 1);
}

/// No pending announces after recent send.
#[test]
fn no_pending_after_recent_announce() {
    let now = start();
    let hash = [0x42; 20];
    let mut service = LpdService::new();
    service.subscribe(hash, 6881);

    service.mark_announced(&hash, now);
    let pending = service.pending_announces(now);
    assert!(pending.is_empty());

    // After interval elapses.
    let later = now + Duration::from_nanos(ANNOUNCE_INTERVAL_NANOS);
    let pending = service.pending_announces(later);
    assert_eq!(pending.len(), 1);
}

/// Prune stale peers.
#[test]
fn local_discovery_prune_stale_peers() {
    let now = start();
    let mut service = LpdService::new();
    let hash = [0x42; 20];
    service.subscribe(hash, 6881);

    let announce = LpdAnnounce::new(hash, 51234);
    service.handle_announce(&announce, "192.168.1.100", now);
    assert_eq!(service.total_peer_count(), 1);

    let later = now + Duration::from_nanos(PEER_STALE_NANOS) + Duration::from_secs(1);
    let pruned = service.prune_stale(later);
    assert_eq!(pruned, 1);
    assert_eq!(service.total_peer_count(), 0);
}

/// Unsubscribe removes subscription and its peers.
#[test]
fn unsubscribe_clears() {
    let now = start();
    let hash = [0x42; 20];
    let mut service = LpdService::new();
    service.subscribe(hash, 6881);

    let announce = LpdAnnounce::new(hash, 51234);
    service.handle_announce(&announce, "192.168.1.100", now);

    service.unsubscribe(&hash);
    assert_eq!(service.subscription_count(), 0);
    assert_eq!(service.total_peer_count(), 0);
}

/// Peer cap prevents unbounded growth.
#[test]
fn peer_cap_enforced() {
    let now = start();
    let hash = [0x42; 20];
    let mut service = LpdService::new();
    service.subscribe(hash, 6881);

    for i in 0..(MAX_LPD_PEERS + 10) {
        let announce = LpdAnnounce::new(hash, 50000 + i as u16);
        service.handle_announce(&announce, &format!("192.168.1.{}", i % 256), now);
    }

    assert!(service.total_peer_count() <= MAX_LPD_PEERS);
}

/// The exact text of an announce.
#[test]
fn announce_exact_text() {
    let announce = LpdAnnounce::new([0x0F; 20], 80);
    let expected = format!(
        "BT-SEARCH * HTTP/1.1\r\nHost: {LPD_MULTICAST_ADDR}:{LPD_PORT}\r\nPort: 80\r\nInfohash: {}\r\n\r\n",
        "0f".repeat(20)
    );
    assert_eq!(announce.to_bytes(), expected.into_bytes());
}

/// Bytes that are no text are no announce.
#[test]
fn rejects_invalid_utf8() {
    let mut bytes = LpdAnnounce::new([1; 20], 80).to_bytes();
    bytes.push(0xFF);
    assert!(LpdAnnounce::from_bytes(&bytes).is_none());
}

/// A port that does not fit is refused.
#[test]
fn rejects_port_overflow() {
    let msg = format!(
        "{ANNOUNCE_HEADER}\r\nPort: 65536\r\nInfohash: {}\r\n\r\n",
        "aa".repeat(20)
    );
    assert!(LpdAnnounce::from_bytes(msg.as_bytes()).is_none());
}

/// A peer that was heard again is as fresh as its last announce.
#[test]
fn heard_again_is_fresh() {
    let now = start();
    let hash = [7; 20];
    let mut service = LpdService::new();
    service.subscribe(hash, 1);
    let announce = LpdAnnounce::new(hash, 2);
    service.handle_announce(&announce, "10.0.0.1", now);
    let later = now + Duration::from_nanos(PEER_STALE_NANOS);
    service.handle_announce(&announce, "10.0.0.1", later);
    let end = later + Duration::from_secs(1);
    assert_eq!(service.prune_stale(end), 0);
    assert_eq!(service.peers_for(&hash)[0].discovered_at(), now);
    assert_eq!(service.peers_for(&hash)[0].last_seen(), later);
}

/// One port apart is another peer.
#[test]
fn ports_tell_peers_apart() {
    let hash = [7; 20];
    let mut service = LpdService::new();
    service.subscribe(hash, 1);
    service.handle_announce(&LpdAnnounce::new(hash, 2), "10.0.0.1", start());
    service.handle_announce(&LpdAnnounce::new(hash, 3), "10.0.0.1", start());
    assert_eq!(service.peers_for(&hash).len(), 2);
}

/// A peer that is refreshed is not stale.
#[test]
fn refreshed_peer_is_fresh() {
    let now = start();
    let mut peer = LpdPeer::new("10.0.0.1".into(), 80, now);
    let later = now + Duration::from_nanos(PEER_STALE_NANOS + 1);
    assert!(peer.is_stale(later));
    peer.refresh(later);
    assert!(!peer.is_stale(later));
}
