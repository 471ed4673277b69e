//! Network identities.

use p2p_distribute::network_id::{NetworkId, NETWORK_ID_LEN};
use sha2::{Digest, Sha256};

/// Production and test network IDs are distinct.
#[test]
fn production_and_test_are_distinct() {
    assert_ne!(NetworkId::production(), NetworkId::test());
}

/// Well-known constants are 32 bytes.
#[test]
fn well_known_constants_correct_size() {
    assert_eq!(NetworkId::production().as_bytes().len(), NETWORK_ID_LEN);
    assert_eq!(NetworkId::test().as_bytes().len(), NETWORK_ID_LEN);
}

/// `from_name` is deterministic — same name → same NetworkId.
#[test]
fn from_name_deterministic() {
    let a = NetworkId::from_name("lan-party");
    let b = NetworkId::from_name("lan-party");
    assert_eq!(a, b);
}

/// Different names produce different network IDs.
#[test]
fn from_name_different_names_differ() {
    let a = NetworkId::from_name("network-alpha");
    let b = NetworkId::from_name("network-bravo");
    assert_ne!(a, b);
}

/// Custom networks are distinct from well-known constants.
#[test]
fn custom_differs_from_well_known() {
    let custom = NetworkId::from_name("custom");
    assert_ne!(custom, NetworkId::production());
    assert_ne!(custom, NetworkId::test());
}

/// Display shows truncated hex for readability.
#[test]
fn network_id_display_truncated_hex() {
    let id = NetworkId::production();
    let s = id.display();
    assert!(s.ends_with('…'), "should end with ellipsis: {s}");
    // "ic-p" in hex is "69632d70", first 4 of 8 bytes shown.
    assert!(
        s.starts_with("69632d70"),
        "should start with 'ic-p' hex: {s}"
    );
}

/// An identity from a name is the hash of the name behind a tag.
#[test]
fn from_name_is_a_hash() {
    let hash: [u8; 32] = Sha256::digest(b"ic-network-id:lan-party").into();
    assert_eq!(NetworkId::from_name("lan-party").as_bytes(), &hash);
}

/// Raw bytes are kept, and shown as far as the eighth.
#[test]
fn raw_bytes_are_kept() {
    let id = NetworkId::from_raw([0x5A; 32]);
    assert_eq!(id.as_bytes(), &[0x5A; 32]);
    assert_eq!(id.display(), "5a5a5a5a5a5a5a5a\u{2026}");
}
