//! Capabilities and the handshake that negotiates them.

use p2p_distribute::handshake::{Capabilities, HandshakeMessage, PROTOCOL_VERSION};
use p2p_distribute::network_id::NetworkId;
use p2p_distribute::peer_id::PeerId;

/// Individual capability constants have the correct bit positions.
#[test]
fn capability_bit_positions() {
    assert_eq!(Capabilities::encryption().to_u32(), 0x01);
    assert_eq!(Capabilities::merkle_verify().to_u32(), 0x02);
    assert_eq!(Capabilities::pex().to_u32(), 0x04);
    assert_eq!(Capabilities::dht().to_u32(), 0x08);
    assert_eq!(Capabilities::web_seed().to_u32(), 0x10);
    assert_eq!(Capabilities::streaming().to_u32(), 0x20);
    assert_eq!(Capabilities::upload_slots().to_u32(), 0x40);
    assert_eq!(Capabilities::rate_limit().to_u32(), 0x80);
}

/// supports() correctly tests for presence of capability bits.
#[test]
fn supports_checks_bit_presence() {
    let caps = Capabilities::encryption() | Capabilities::pex();
    assert!(caps.supports(Capabilities::encryption()));
    assert!(caps.supports(Capabilities::pex()));
    assert!(!caps.supports(Capabilities::dht()));
    assert!(!caps.supports(Capabilities::merkle_verify()));
}

/// supports() with NONE always returns true (vacuous truth).
#[test]
fn supports_none_always_true() {
    let caps = Capabilities::encryption();
    assert!(caps.supports(Capabilities::none()));
    assert!(Capabilities::none().supports(Capabilities::none()));
}

/// Intersection of two capability sets.
#[test]
fn intersect_common_caps() {
    let local = Capabilities::encryption() | Capabilities::pex() | Capabilities::dht();
    let remote = Capabilities::pex() | Capabilities::streaming();
    let common = local.intersect(remote);

    assert!(common.supports(Capabilities::pex()));
    assert!(!common.supports(Capabilities::encryption()));
    assert!(!common.supports(Capabilities::streaming()));
}

/// Round-trip through u32 preserves all bits (including unknown).
#[test]
fn round_trip_preserves_unknown_bits() {
    let caps = Capabilities::from_u32(0xDEAD_BEEF);
    let wire = caps.to_u32();
    let decoded = Capabilities::from_u32(wire);
    assert_eq!(caps, decoded);
}

/// count() returns the number of set bits.
#[test]
fn count_set_bits() {
    let caps = Capabilities::encryption() | Capabilities::pex() | Capabilities::dht();
    assert_eq!(caps.count(), 3);
    assert_eq!(Capabilities::none().count(), 0);
    assert_eq!(Capabilities::all_known().count(), 8);
}

/// is_empty() returns true for NONE, false otherwise.
#[test]
fn is_empty_check() {
    assert!(Capabilities::none().is_empty());
    assert!(!Capabilities::encryption().is_empty());
}

/// BitOr combines capabilities.
#[test]
fn bitor_combines() {
    let mut caps = Capabilities::encryption();
    caps |= Capabilities::pex();
    assert!(caps.supports(Capabilities::encryption()));
    assert!(caps.supports(Capabilities::pex()));
}

/// Handshake uses the current protocol version.
#[test]
fn handshake_protocol_version() {
    let msg = HandshakeMessage::new(
        PeerId::from_key_material(b"alice"),
        NetworkId::test(),
        Capabilities::pex(),
    );
    assert_eq!(msg.protocol_version, PROTOCOL_VERSION);
}

/// Negotiate succeeds when network IDs match.
#[test]
fn negotiate_same_network() {
    let local = HandshakeMessage::new(
        PeerId::from_key_material(b"alice"),
        NetworkId::test(),
        Capabilities::encryption() | Capabilities::pex() | Capabilities::dht(),
    );
    let remote = HandshakeMessage::new(
        PeerId::from_key_material(b"bob"),
        NetworkId::test(),
        Capabilities::pex() | Capabilities::streaming(),
    );

    let common = local.negotiate(&remote);
    assert!(common.is_some());
    let common = common.unwrap();
    assert!(common.supports(Capabilities::pex()));
    assert!(!common.supports(Capabilities::encryption()));
}

/// Negotiate returns None when network IDs differ.
#[test]
fn negotiate_different_network_fails() {
    let local = HandshakeMessage::new(
        PeerId::from_key_material(b"alice"),
        NetworkId::test(),
        Capabilities::all_known(),
    );
    let remote = HandshakeMessage::new(
        PeerId::from_key_material(b"bob"),
        NetworkId::production(),
        Capabilities::all_known(),
    );

    assert!(local.negotiate(&remote).is_none());
}

/// Handshake carries the correct peer identity.
#[test]
fn handshake_carries_peer_id() {
    let id = PeerId::from_key_material(b"test-peer");
    let msg = HandshakeMessage::new(id, NetworkId::test(), Capabilities::none());
    assert_eq!(msg.peer_id, id);
}

/// Handshake equality is structural.
#[test]
fn handshake_equality() {
    let msg1 = HandshakeMessage::new(
        PeerId::from_key_material(b"alice"),
        NetworkId::test(),
        Capabilities::pex(),
    );
    let msg2 = msg1.clone();
    assert_eq!(msg1, msg2);
}

/// Negotiation gives both sides the same capabilities.
#[test]
fn negotiation_is_symmetric() {
    let a = HandshakeMessage::new(
        PeerId::from_key_material(b"a"),
        NetworkId::test(),
        Capabilities::from_u32(0b1110_0101),
    );
    let b = HandshakeMessage::new(
        PeerId::from_key_material(b"b"),
        NetworkId::test(),
        Capabilities::from_u32(0b0111_0001),
    );
    assert_eq!(a.negotiate(&b), b.negotiate(&a));
    assert_eq!(
        a.negotiate(&b),
        Some(Capabilities::from_u32(0b0110_0001))
    );
}

/// Bits without a name survive, and count.
#[test]
fn unknown_bits_count() {
    let caps = Capabilities::from_u32(0x8000_0001);
    assert_eq!(caps.count(), 2);
    assert_eq!((caps & Capabilities::all_known()).to_u32(), 1);
    assert_eq!(Capabilities::all_known().to_u32(), 0xFF);
}
