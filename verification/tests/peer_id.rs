//! Peer identities: derivation, encoding, callsigns.

use std::collections::HashMap;
use std::collections::HashSet;

use p2p_distribute::entropy::{drawn_array, EntropyUnavailable};
use p2p_distribute::peer_id::{
    callsign_title, PeerId, PeerIdDecodeError, PeerIdKind, PEER_ID_LEN,
};
use sha2::{Digest, Sha256};

/// `from_key_material` produces deterministic identities.
#[test]
fn from_key_material_deterministic() {
    let a = PeerId::from_key_material(b"https://example.com/file.zip");
    let b = PeerId::from_key_material(b"https://example.com/file.zip");
    assert_eq!(a, b);
}

/// Different input material produces different identities.
#[test]
fn from_key_material_different_inputs_differ() {
    let a = PeerId::from_key_material(b"https://example.com/file.zip");
    let b = PeerId::from_key_material(b"https://other.com/file.zip");
    assert_ne!(a, b);
}

/// `from_ed25519_pubkey` stores the key directly without hashing.
#[test]
fn from_ed25519_pubkey_stores_raw() {
    let key = [0x42; PEER_ID_LEN];
    let id = PeerId::from_ed25519_pubkey(key);
    assert_eq!(id.as_bytes(), &key);
}

/// `from_bytes` round-trips with `as_bytes`.
#[test]
fn from_bytes_round_trip() {
    let bytes = [0xAB; PEER_ID_LEN];
    let id = PeerId::from_bytes(bytes);
    assert_eq!(*id.as_bytes(), bytes);
}

/// `from_key_material` produces valid 32-byte output regardless of
/// input length — empty, short, and long inputs all work.
#[test]
fn from_key_material_various_lengths() {
    let empty = PeerId::from_key_material(b"");
    let short = PeerId::from_key_material(b"x");
    let long = PeerId::from_key_material(&[0xFF; 1024]);

    // All produce valid 32-byte identities.
    assert_eq!(empty.as_bytes().len(), PEER_ID_LEN);
    assert_eq!(short.as_bytes().len(), PEER_ID_LEN);
    assert_eq!(long.as_bytes().len(), PEER_ID_LEN);

    // All are distinct.
    assert_ne!(empty, short);
    assert_ne!(short, long);
    assert_ne!(empty, long);
}

/// `Display` shows truncated hex (first 8 bytes + ellipsis).
#[test]
fn peer_id_display_truncated_hex() {
    let id = PeerId::from_bytes([0xAB; PEER_ID_LEN]);
    let s = id.display();
    // 8 bytes × 2 hex chars + "…" = 17 chars.
    assert_eq!(s, "abababababababab…");
}

/// `Debug` shows the full 32-byte hex.
#[test]
fn debug_full_hex() {
    let mut bytes = [0u8; PEER_ID_LEN];
    bytes[0] = 0x01;
    bytes[31] = 0xFF;
    let id = PeerId::from_bytes(bytes);
    let s = id.debug_text();
    assert!(s.starts_with("PeerId(01"));
    assert!(s.ends_with("ff)"));
    // Full hex is 64 chars + "PeerId(" + ")" = 72 chars.
    assert_eq!(s.len(), 72);
}

/// `PeerId` implements `Ord` for use in sorted collections.
#[test]
fn peer_id_ordering() {
    let low = PeerId::from_bytes([0x00; PEER_ID_LEN]);
    let high = PeerId::from_bytes([0xFF; PEER_ID_LEN]);
    assert!(low < high);
}

/// `PeerId` can be used as a `HashMap` key.
#[test]
fn peer_id_hashable() {
    let mut map = HashMap::new();
    let id = PeerId::from_key_material(b"test");
    map.insert(id, 42);
    assert_eq!(map.get(&id), Some(&42));
}

/// A URL and a BT peer ID with the same byte content produce different
/// `PeerId`s when constructed via `from_key_material`.
#[test]
fn url_and_bt_peer_id_same_bytes_still_same() {
    // When the *same bytes* are passed, from_key_material produces the
    // same PeerId. Namespace isolation relies on the source material
    // being naturally different (URLs are human-readable, BT peer IDs
    // are 20-byte binary), not on the hashing step.
    let a = PeerId::from_key_material(b"shared-bytes");
    let b = PeerId::from_key_material(b"shared-bytes");
    assert_eq!(a, b);
}

/// A filled buffer is what was drawn, a failure keeps its code.
#[test]
fn draws_keep_bytes_and_codes() {
    assert_eq!(drawn_array(Ok(()), [1, 2, 3]), Ok([1, 2, 3]));
    assert_eq!(
        drawn_array(Err(0x8000_0000), [1, 2, 3]),
        Err(EntropyUnavailable { code: 0x8000_0000 })
    );
}

/// Drawn bytes become the identity, a failed draw stays a failure.
#[test]
fn drawn_bytes_become_a_random_identity() {
    let mut bytes = [0x5A; PEER_ID_LEN];
    bytes[0] = 1;
    let id = PeerId::from_drawn(Ok(bytes)).unwrap();
    assert_eq!(id.as_bytes(), &bytes);
    assert_eq!(id.kind(), PeerIdKind::Random);
    assert_eq!(
        PeerId::from_drawn(Err(EntropyUnavailable { code: 38 })).unwrap_err(),
        EntropyUnavailable { code: 38 }
    );
}

/// `generate()` produces a valid 32-byte identity from OS randomness.
#[test]
fn generate_produces_valid_identity() {
    let id = PeerId::generate().unwrap();
    assert_eq!(id.as_bytes().len(), PEER_ID_LEN);
}

/// `generate()` produces unique identities on each call.
#[test]
fn generate_produces_unique_identities() {
    let a = PeerId::generate().unwrap();
    let b = PeerId::generate().unwrap();
    assert_ne!(a, b);
}

/// `generate()` produces non-zero identities.
#[test]
fn generate_not_all_zeros() {
    let id = PeerId::generate().unwrap();
    assert_ne!(id.as_bytes(), &[0u8; PEER_ID_LEN]);
}

/// `callsign()` is deterministic — same identity always produces
/// the same callsign.
#[test]
fn callsign_deterministic() {
    let id = PeerId::from_key_material(b"stable-callsign-test");
    let a = id.callsign();
    let b = id.callsign();
    assert_eq!(a, b);
}

/// `callsign()` follows the "Title_XXX" format.
#[test]
fn callsign_format_title_underscore_suffix() {
    let id = PeerId::generate().unwrap();
    let cs = id.callsign();

    // Must contain exactly one underscore separating title and suffix.
    let parts: Vec<&str> = cs.splitn(2, '_').collect();
    assert_eq!(
        parts.len(),
        2,
        "callsign should have title_suffix format: {cs}"
    );

    // Suffix must be exactly 3 alphanumeric characters.
    let suffix = parts[1];
    assert_eq!(suffix.len(), 3, "suffix should be 3 chars: {suffix}");
    assert!(
        suffix.chars().all(|c| c.is_ascii_alphanumeric()),
        "suffix should be alphanumeric: {suffix}"
    );

    // Title must be one of the known military titles.
    let title = parts[0];
    assert!(
        (0u8..16).any(|nibble| callsign_title(nibble) == title),
        "title should be a known military title: {title}"
    );
}

/// `callsign()` produces the expected output for known byte values.
#[test]
fn callsign_known_bytes() {
    let id = PeerId::from_bytes([0x42; PEER_ID_LEN]);
    assert_eq!(id.callsign(), "Major_UUU");
}

/// `callsign()` changes title when the upper nibble of byte 0 changes.
#[test]
fn callsign_title_varies_with_first_nibble() {
    let mut bytes_low = [0u8; PEER_ID_LEN];
    bytes_low[0] = 0x00;
    let cs_low = PeerId::from_bytes(bytes_low).callsign();
    assert!(
        cs_low.starts_with("Commander_"),
        "expected Commander, got {cs_low}"
    );

    let mut bytes_high = [0u8; PEER_ID_LEN];
    bytes_high[0] = 0xF0;
    let cs_high = PeerId::from_bytes(bytes_high).callsign();
    assert!(
        cs_high.starts_with("Phantom_"),
        "expected Phantom, got {cs_high}"
    );
}

/// Different identities generally produce different callsigns.
#[test]
fn callsign_different_identities_differ() {
    let a = PeerId::from_key_material(b"alpha-peer").callsign();
    let b = PeerId::from_key_material(b"bravo-peer").callsign();
    assert_ne!(a, b);
}

/// All 16 title indices produce valid, distinct titles.
#[test]
fn callsign_all_titles_reachable() {
    let mut seen = HashSet::new();
    for nibble in 0u8..16 {
        let mut bytes = [0u8; PEER_ID_LEN];
        bytes[0] = nibble << 4;
        let cs = PeerId::from_bytes(bytes).callsign();
        let title = cs.split('_').next().unwrap();
        seen.insert(title.to_owned());
    }
    assert_eq!(seen.len(), 16, "all 16 titles should be reachable");
}

/// `kind()` returns the derivation method used to create the identity.
#[test]
fn kind_reflects_constructor() {
    assert_eq!(PeerId::generate().unwrap().kind(), PeerIdKind::Random);
    assert_eq!(PeerId::from_key_material(b"x").kind(), PeerIdKind::Hashed);
    assert_eq!(
        PeerId::from_ed25519_pubkey([0; 32]).kind(),
        PeerIdKind::Ed25519
    );
    assert_eq!(PeerId::from_bytes([0; 32]).kind(), PeerIdKind::Random);
}

/// Equality is kind-agnostic — same bytes, different kind → equal.
#[test]
fn equality_ignores_kind() {
    let bytes = [0x42; PEER_ID_LEN];
    let a = PeerId::from_bytes(bytes);
    let b = PeerId::from_ed25519_pubkey(bytes);
    assert_eq!(a, b, "same bytes with different kinds should be equal");
}

/// Hashing is kind-agnostic — same bytes, different kind → same bucket.
#[test]
fn hash_ignores_kind() {
    let bytes = [0x42; PEER_ID_LEN];
    let a = PeerId::from_bytes(bytes);
    let b = PeerId::from_ed25519_pubkey(bytes);
    let mut map = HashMap::new();
    map.insert(a, "first");
    map.insert(b, "second");
    assert_eq!(map.len(), 1);
    assert_eq!(map.get(&a), Some(&"second"));
}

/// `to_encoded()` produces the expected format prefix and length.
#[test]
fn to_encoded_format() {
    let id = PeerId::from_key_material(b"test");
    let encoded = id.to_encoded();
    assert_eq!(encoded.len(), 68);
    assert!(
        encoded.starts_with("ic1h"),
        "hashed identity should use 'h' prefix: {encoded}"
    );
}

/// `to_encoded()` reflects the correct kind character for each constructor.
#[test]
fn to_encoded_kind_chars() {
    let random = PeerId::generate().unwrap();
    assert!(random.to_encoded().starts_with("ic1r"));

    let hashed = PeerId::from_key_material(b"data");
    assert!(hashed.to_encoded().starts_with("ic1h"));

    let ed25519 = PeerId::from_ed25519_pubkey([0x42; 32]);
    assert!(ed25519.to_encoded().starts_with("ic1e"));
}

/// `from_encoded()` round-trips with `to_encoded()`.
#[test]
fn encoded_round_trip() {
    let original = PeerId::from_key_material(b"round-trip-test");
    let encoded = original.to_encoded();
    let decoded = PeerId::from_encoded(&encoded).unwrap();
    assert_eq!(decoded, original);
    assert_eq!(decoded.kind(), original.kind());
}

/// `from_encoded()` rejects strings with wrong length.
#[test]
fn from_encoded_rejects_wrong_length() {
    let result = PeerId::from_encoded("ic1rtooShort");
    assert!(matches!(
        result,
        Err(PeerIdDecodeError::InvalidLength { .. })
    ));
}

/// `from_encoded()` rejects strings with wrong prefix.
#[test]
fn from_encoded_rejects_wrong_prefix() {
    let bad = format!("xx1r{}", "00".repeat(32));
    let result = PeerId::from_encoded(&bad);
    assert!(matches!(
        result,
        Err(PeerIdDecodeError::InvalidPrefix { .. })
    ));
}

/// `from_encoded()` rejects unknown kind characters.
#[test]
fn from_encoded_rejects_unknown_kind() {
    let bad = format!("ic1z{}", "00".repeat(32));
    let result = PeerId::from_encoded(&bad);
    assert!(matches!(result, Err(PeerIdDecodeError::InvalidKind { .. })));
}

/// `from_encoded()` rejects invalid hex characters.
#[test]
fn from_encoded_rejects_invalid_hex() {
    let bad = format!("ic1r{}gg", "00".repeat(31));
    let result = PeerId::from_encoded(&bad);
    assert!(matches!(result, Err(PeerIdDecodeError::InvalidHex { .. })));
}

/// `PeerIdDecodeError` display messages contain key context.
#[test]
fn decode_error_display_messages() {
    let err = PeerIdDecodeError::InvalidLength { length: 10 };
    let msg = err.display();
    assert!(msg.contains("10"), "should contain length: {msg}");
    assert!(msg.contains("68"), "should contain expected: {msg}");
}

/// An identity from material is the hash of the material.
#[test]
fn from_key_material_is_a_hash() {
    let hash: [u8; 32] = Sha256::digest(b"material").into();
    assert_eq!(PeerId::from_key_material(b"material").as_bytes(), &hash);
}

/// The exact encoding, and upper-case digits on the way back.
#[test]
fn encoded_exact_text() {
    let id = PeerId::from_ed25519_pubkey([0xAB; 32]);
    let text = format!("ic1e{}", "ab".repeat(32));
    assert_eq!(id.to_encoded(), text);
    let back = PeerId::from_encoded(&format!("ic1e{}", "AB".repeat(32))).unwrap();
    assert_eq!(back, id);
    assert_eq!(back.kind(), PeerIdKind::Ed25519);
}

/// Each error has its own text.
#[test]
fn decode_error_texts() {
    let err = PeerId::from_encoded("short").unwrap_err();
    assert_eq!(
        err.display(),
        "invalid encoded PeerId length: expected 68, got 5"
    );
    let err = PeerId::from_encoded(&format!("xx1r{}", "00".repeat(32))).unwrap_err();
    assert_eq!(
        err.display(),
        "invalid prefix: expected 'ic1', found 'xx1'"
    );
    let err = PeerId::from_encoded(&format!("ic1z{}", "00".repeat(32))).unwrap_err();
    assert_eq!(
        err.display(),
        "invalid kind byte: 0x7a (expected 'r', 'h', or 'e')"
    );
    let err = PeerId::from_encoded(&format!("ic1r{}zz", "00".repeat(31))).unwrap_err();
    assert!(err.display().starts_with("invalid hex encoding: "));
}

/// Order is that of the bytes.
#[test]
fn order_is_that_of_bytes() {
    let mut a = [7u8; 32];
    let mut b = [7u8; 32];
    a[31] = 1;
    b[30] = 8;
    assert!(PeerId::from_bytes(a) < PeerId::from_bytes(b));
    assert!(PeerId::from_bytes(b) > PeerId::from_ed25519_pubkey(a));
}
