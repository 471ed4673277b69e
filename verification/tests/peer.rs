//! Peer errors, rejections and capabilities.

use p2p_distribute::peer::{PeerCapabilities, PeerError, RejectionReason, StorageTier};

/// Every `RejectionReason` variant produces a non-empty, meaningful message.
#[test]
fn rejection_reason_display_all_variants() {
    let cases = [
        (RejectionReason::RateLimited, "rate limited"),
        (RejectionReason::SwarmFull, "swarm full"),
        (
            RejectionReason::InsufficientAuth,
            "insufficient authentication",
        ),
        (RejectionReason::PolicyViolation, "policy violation"),
        (RejectionReason::Maintenance, "peer maintenance"),
        (
            RejectionReason::Other("custom reason".into()),
            "custom reason",
        ),
    ];
    for (reason, expected_substr) in &cases {
        let msg = reason.display();
        assert!(
            msg.contains(expected_substr),
            "{reason:?} display should contain '{expected_substr}': got '{msg}'"
        );
    }
}

/// `RejectionReason::Other` carries the detail string through Display.
#[test]
fn rejection_reason_other_carries_detail() {
    let reason = RejectionReason::Other("peer is on fire".into());
    assert_eq!(reason.display(), "peer is on fire");
}

/// `PeerError::Http` includes piece index, URL, and detail.
#[test]
fn peer_error_http_display() {
    let err = PeerError::Http {
        piece_index: 42,
        url: "https://mirror.example.com/data.zip".into(),
        detail: "HTTP 503 Service Unavailable".into(),
    };
    let msg = err.display();
    assert!(msg.contains("42"), "should contain piece index: {msg}");
    assert!(
        msg.contains("mirror.example.com"),
        "should contain URL: {msg}"
    );
    assert!(msg.contains("503"), "should contain HTTP status: {msg}");
}

/// `PeerError::BtSwarm` includes piece index and detail.
#[test]
fn peer_error_bt_swarm_display() {
    let err = PeerError::BtSwarm {
        piece_index: 7,
        detail: "peer disconnected mid-transfer".into(),
    };
    let msg = err.display();
    assert!(msg.contains("7"), "should contain piece index: {msg}");
    assert!(msg.contains("disconnected"), "should contain detail: {msg}");
}

/// `PeerError::Timeout` includes piece index.
#[test]
fn peer_error_timeout_display() {
    let err = PeerError::Timeout { piece_index: 99 };
    let msg = err.display();
    assert!(msg.contains("99"), "should contain piece index: {msg}");
    assert!(msg.contains("timeout"), "should mention timeout: {msg}");
}

/// `PeerError::Rejected` includes piece index and rejection reason.
#[test]
fn peer_error_rejected_display() {
    let err = PeerError::Rejected {
        piece_index: 3,
        reason: RejectionReason::SwarmFull,
    };
    let msg = err.display();
    assert!(msg.contains("3"), "should contain piece index: {msg}");
    assert!(msg.contains("swarm full"), "should contain reason: {msg}");
}

/// `PeerError::Io` wraps the underlying I/O error.
#[test]
fn peer_error_io_display() {
    let err = PeerError::Io {
        detail: "connection reset by peer".into(),
    };
    let msg = err.display();
    assert!(
        msg.contains("connection reset"),
        "should contain source: {msg}"
    );
}

/// Default `PeerCapabilities` has no limits and no special features.
#[test]
fn capabilities_default_no_limits() {
    let caps = PeerCapabilities::default();
    assert!(caps.max_upload_rate.is_none());
    assert!(caps.max_concurrent_requests.is_none());
    assert!(caps.announced_piece_count.is_none());
    assert!(!caps.supports_priority);
    assert!(caps.storage_tier.is_none());
}

/// SSD has higher priority than HDD, Flash, Network, and Archive.
#[test]
fn storage_tier_priority_ordering() {
    assert!(StorageTier::Ssd.priority() > StorageTier::Flash.priority());
    assert!(StorageTier::Flash.priority() > StorageTier::Hdd.priority());
    assert!(StorageTier::Hdd.priority() > StorageTier::Network.priority());
    assert!(StorageTier::Network.priority() > StorageTier::Archive.priority());
    assert!(StorageTier::Archive.priority() > StorageTier::Unknown.priority());
}

/// Unknown tier has zero priority — no preference adjustment.
#[test]
fn storage_tier_unknown_is_zero() {
    assert_eq!(StorageTier::Unknown.priority(), 0);
    assert_eq!(StorageTier::default(), StorageTier::Unknown);
}

/// Display produces human-readable tier names.
#[test]
fn storage_tier_display() {
    assert_eq!(StorageTier::Ssd.display(), "SSD");
    assert_eq!(StorageTier::Hdd.display(), "HDD");
    assert_eq!(StorageTier::Flash.display(), "Flash");
    assert_eq!(StorageTier::Network.display(), "Network");
    assert_eq!(StorageTier::Archive.display(), "Archive");
    assert_eq!(StorageTier::Unknown.display(), "Unknown");
}

/// `RejectionReason` variants are distinguishable via PartialEq.
#[test]
fn rejection_reason_equality() {
    assert_eq!(RejectionReason::RateLimited, RejectionReason::RateLimited);
    assert_ne!(RejectionReason::RateLimited, RejectionReason::SwarmFull);
    assert_ne!(
        RejectionReason::Other("a".into()),
        RejectionReason::Other("b".into())
    );
    assert_eq!(
        RejectionReason::Other("same".into()),
        RejectionReason::Other("same".into())
    );
}

/// The exact texts of the errors.
#[test]
fn peer_error_texts() {
    let err = PeerError::Http {
        piece_index: 1,
        url: "u".into(),
        detail: "d".into(),
    };
    assert_eq!(err.display(), "HTTP error fetching piece 1 from u: d");
    let err = PeerError::BtSwarm {
        piece_index: 2,
        detail: "d".into(),
    };
    assert_eq!(err.display(), "BT swarm error for piece 2: d");
    let err = PeerError::Timeout { piece_index: 3 };
    assert_eq!(err.display(), "peer timeout for piece 3");
    let err = PeerError::Rejected {
        piece_index: 4,
        reason: RejectionReason::Maintenance,
    };
    assert_eq!(
        err.display(),
        "peer rejected request for piece 4: peer maintenance"
    );
    let err = PeerError::Io { detail: "d".into() };
    assert_eq!(err.display(), "I/O error: d");
}
