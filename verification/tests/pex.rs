//! Peer exchange messages and what recipients know.

use p2p_distribute::network_id::NetworkId;
use p2p_distribute::peer_id::PeerId;
use p2p_distribute::pex::{
    PexDeltaTracker, PexEntry, PexFlags, PexMessage, MAX_PEX_ADDED, MAX_PEX_DROPPED,
};

/// Flags round-trip through byte encoding.
#[test]
fn flags_round_trip() {
    let flags = PexFlags {
        encryption: true,
        seed: false,
        utp: true,
        utp_holepunch: false,
        connectable: true,
    };
    let byte = flags.to_byte();
    let decoded = PexFlags::from_byte(byte);
    assert_eq!(flags, decoded);
}

/// Default flags are all false (byte 0x00).
#[test]
fn flags_default_all_false() {
    let flags = PexFlags::default();
    assert_eq!(flags.to_byte(), 0x00);
}

/// All flags set produces the expected byte value.
#[test]
fn flags_all_set() {
    let flags = PexFlags {
        encryption: true,
        seed: true,
        utp: true,
        utp_holepunch: true,
        connectable: true,
    };
    assert_eq!(flags.to_byte(), 0x01 | 0x02 | 0x04 | 0x08 | 0x10);
}

/// Seed flag is bit 1 (0x02).
#[test]
fn flags_seed_bit() {
    let flags = PexFlags::from_byte(0x02);
    assert!(flags.seed);
    assert!(!flags.encryption);
    assert!(!flags.connectable);
}

/// Empty PEX message reports as empty.
#[test]
fn empty_message_is_empty() {
    let msg = PexMessage::new(NetworkId::test());
    assert!(msg.is_empty());
    assert!(!msg.is_oversized());
}

/// Message with entries is not empty.
#[test]
fn message_with_entries_not_empty() {
    let mut msg = PexMessage::new(NetworkId::production());
    msg.added.push(PexEntry {
        peer_id: PeerId::from_key_material(b"peer-1"),
        addr: "192.168.1.1:6881".into(),
        flags: PexFlags::default(),
    });
    assert!(!msg.is_empty());
}

/// Oversized detection triggers above the limits.
#[test]
fn oversized_detection() {
    let mut msg = PexMessage::new(NetworkId::test());
    for i in 0..=MAX_PEX_ADDED {
        msg.added.push(PexEntry {
            peer_id: PeerId::from_key_material(format!("peer-{i}").as_bytes()),
            addr: format!("10.0.0.{i}:6881"),
            flags: PexFlags::default(),
        });
    }
    assert!(msg.is_oversized());
}

/// Network ID is carried in the message for cross-network filtering.
#[test]
fn network_id_carried() {
    let msg = PexMessage::new(NetworkId::production());
    assert_eq!(msg.network_id, NetworkId::production());
}

/// Unknown high bits in a flags byte are silently ignored.
#[test]
fn adversarial_unknown_flag_bits_ignored() {
    // 0xE0 = bits 5,6,7 set — all undefined.
    let flags = PexFlags::from_byte(0xE0);
    assert!(!flags.encryption);
    assert!(!flags.seed);
    assert!(!flags.utp);
    assert!(!flags.utp_holepunch);
    assert!(!flags.connectable);
}

/// All 256 possible flag bytes round-trip without panic.
#[test]
fn adversarial_all_256_flag_bytes_decodable() {
    for b in 0..=255u8 {
        let flags = PexFlags::from_byte(b);
        let re_encoded = flags.to_byte();
        // Known bits must survive round-trip; unknown bits are lost.
        assert_eq!(re_encoded & 0x1F, b & 0x1F);
    }
}

/// Mixed known and unknown bits decode correctly.
#[test]
fn adversarial_mixed_known_unknown_bits() {
    let flags = PexFlags::from_byte(0xFF);
    assert!(flags.encryption);
    assert!(flags.seed);
    assert!(flags.utp);
    assert!(flags.utp_holepunch);
    assert!(flags.connectable);
    // Re-encode loses bits 5-7.
    assert_eq!(flags.to_byte(), 0x1F);
}

/// Oversized dropped list triggers is_oversized.
#[test]
fn adversarial_oversized_dropped() {
    let mut msg = PexMessage::new(NetworkId::test());
    for i in 0..=MAX_PEX_DROPPED {
        msg.dropped
            .push(PeerId::from_key_material(format!("peer-{i}").as_bytes()));
    }
    assert!(msg.is_oversized());
}

/// New tracker starts with no recipients.
#[test]
fn delta_tracker_starts_empty() {
    let tracker = PexDeltaTracker::new();
    assert_eq!(tracker.recipient_count(), 0);
}

/// All candidates pass through when recipient has no history.
#[test]
fn delta_tracker_all_new_for_unknown_recipient() {
    let tracker = PexDeltaTracker::new();
    let recipient = PeerId::from_key_material(b"recipient");
    let candidates = vec![
        PexEntry {
            peer_id: PeerId::from_key_material(b"p1"),
            addr: "1.2.3.4:6881".into(),
            flags: PexFlags::default(),
        },
        PexEntry {
            peer_id: PeerId::from_key_material(b"p2"),
            addr: "5.6.7.8:6881".into(),
            flags: PexFlags::default(),
        },
    ];
    let filtered = tracker.filter_new(&recipient, &candidates);
    assert_eq!(filtered.len(), 2);
}

/// Already-sent peers are filtered out on subsequent calls.
#[test]
fn delta_tracker_filters_already_known() {
    let mut tracker = PexDeltaTracker::new();
    let recipient = PeerId::from_key_material(b"recipient");
    let p1 = PeerId::from_key_material(b"p1");
    let p2 = PeerId::from_key_material(b"p2");

    tracker.mark_sent(&recipient, std::slice::from_ref(&p1));

    let candidates = vec![
        PexEntry {
            peer_id: p1,
            addr: "1.2.3.4:6881".into(),
            flags: PexFlags::default(),
        },
        PexEntry {
            peer_id: p2,
            addr: "5.6.7.8:6881".into(),
            flags: PexFlags::default(),
        },
    ];
    let filtered = tracker.filter_new(&recipient, &candidates);
    assert_eq!(filtered.len(), 1);
    assert_eq!(filtered[0].peer_id, p2);
}

/// Per-recipient isolation — marking sent for one doesn't affect another.
#[test]
fn delta_tracker_per_recipient_isolation() {
    let mut tracker = PexDeltaTracker::new();
    let r1 = PeerId::from_key_material(b"r1");
    let r2 = PeerId::from_key_material(b"r2");
    let p1 = PeerId::from_key_material(b"p1");

    tracker.mark_sent(&r1, std::slice::from_ref(&p1));

    let candidates = vec![PexEntry {
        peer_id: p1,
        addr: "1.2.3.4:6881".into(),
        flags: PexFlags::default(),
    }];

    // r1 already knows p1 → filtered out
    assert_eq!(tracker.filter_new(&r1, &candidates).len(), 0);
    // r2 doesn't know p1 → passes through
    assert_eq!(tracker.filter_new(&r2, &candidates).len(), 1);
}

/// Removing a recipient clears all tracking state.
#[test]
fn delta_tracker_remove_recipient() {
    let mut tracker = PexDeltaTracker::new();
    let r = PeerId::from_key_material(b"r");
    let p = PeerId::from_key_material(b"p");

    tracker.mark_sent(&r, std::slice::from_ref(&p));
    assert_eq!(tracker.known_count(&r), 1);

    tracker.remove_recipient(&r);
    assert_eq!(tracker.recipient_count(), 0);
    assert_eq!(tracker.known_count(&r), 0);
}

/// known_count reflects the number of known peers per recipient.
#[test]
fn delta_tracker_known_count() {
    let mut tracker = PexDeltaTracker::new();
    let r = PeerId::from_key_material(b"r");
    let p1 = PeerId::from_key_material(b"p1");
    let p2 = PeerId::from_key_material(b"p2");

    assert_eq!(tracker.known_count(&r), 0);
    tracker.mark_sent(&r, &[p1, p2]);
    assert_eq!(tracker.known_count(&r), 2);
}

/// Default trait implementation works.
#[test]
fn delta_tracker_default() {
    let tracker = PexDeltaTracker::default();
    assert_eq!(tracker.recipient_count(), 0);
}

/// An empty list makes a recipient known, with nothing.
#[test]
fn delta_tracker_empty_mark() {
    let mut tracker = PexDeltaTracker::new();
    let r = PeerId::from_key_material(b"r");
    tracker.mark_sent(&r, &[]);
    assert_eq!(tracker.recipient_count(), 1);
    assert_eq!(tracker.known_count(&r), 0);
}

/// A peer that is sent twice is known once, and order is kept.
#[test]
fn delta_tracker_counts_once() {
    let mut tracker = PexDeltaTracker::new();
    let r = PeerId::from_key_material(b"r");
    let ids: Vec<PeerId> = (0u8..4).map(|i| PeerId::from_bytes([i; 32])).collect();
    tracker.mark_sent(&r, &[ids[1], ids[1]]);
    tracker.mark_sent(&r, &[ids[1]]);
    assert_eq!(tracker.known_count(&r), 1);
    let candidates: Vec<PexEntry> = ids
        .iter()
        .map(|id| PexEntry {
            peer_id: *id,
            addr: "x".into(),
            flags: PexFlags::default(),
        })
        .collect();
    let left: Vec<PeerId> = tracker
        .filter_new(&r, &candidates)
        .iter()
        .map(|e| e.peer_id)
        .collect();
    assert_eq!(left, vec![ids[0], ids[2], ids[3]]);
}

/// Exactly as many entries as allowed are not too many.
#[test]
fn limits_are_inclusive() {
    let mut msg = PexMessage::new(NetworkId::test());
    msg.dropped = vec![PeerId::from_bytes([0; 32]); MAX_PEX_DROPPED];
    assert!(!msg.is_oversized());
    msg.dropped.push(PeerId::from_bytes([0; 32]));
    assert!(msg.is_oversized());
}
