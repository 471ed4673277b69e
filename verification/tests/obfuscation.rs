//! Random ports and stream masking.

use p2p_distribute::obfuscation::{
    deobfuscate_in_place, ephemeral_port, obfuscate_in_place, random_port, ObfuscationKey,
    EPHEMERAL_PORT_MAX, EPHEMERAL_PORT_MIN,
};

/// Random port is within the ephemeral range.
#[test]
fn random_port_in_range() {
    for _ in 0..100 {
        let port = random_port();
        assert!(
            (EPHEMERAL_PORT_MIN..=EPHEMERAL_PORT_MAX).contains(&port),
            "port {port} out of range"
        );
    }
}

/// Two consecutive random ports are unlikely to be identical.
#[test]
fn random_port_has_entropy() {
    let ports: std::collections::HashSet<u16> = (0..100).map(|_| random_port()).collect();
    assert!(
        ports.len() > 1,
        "100 random ports produced only {} distinct value(s)",
        ports.len()
    );
}

/// Key round-trips through from_info_hash / as_bytes.
#[test]
fn key_round_trip() {
    let hash = [0xAB; 20];
    let key = ObfuscationKey::from_info_hash(&hash);
    assert_eq!(key.as_bytes(), &hash);
}

/// Obfuscation round-trip restores original data.
#[test]
fn obfuscate_round_trip() {
    let key = ObfuscationKey::from_info_hash(&[0x42; 20]);
    let original = b"BitTorrent wire protocol".to_vec();
    let mut buf = original.clone();

    obfuscate_in_place(&mut buf, &key, 0);
    assert_ne!(buf, original, "obfuscation should change the data");

    deobfuscate_in_place(&mut buf, &key, 0);
    assert_eq!(buf, original, "deobfuscation should restore original");
}

/// Obfuscation with zero key is a no-op.
#[test]
fn zero_key_is_noop() {
    let key = ObfuscationKey::from_info_hash(&[0; 20]);
    let original = b"Hello world".to_vec();
    let mut buf = original.clone();

    obfuscate_in_place(&mut buf, &key, 0);
    assert_eq!(buf, original);
}

/// Stream offset aligns the key correctly for mid-stream buffers.
#[test]
fn stream_offset_alignment() {
    let key = ObfuscationKey::from_info_hash(&[
        0x01, 0x02, 0x03, 0x04, 0x05, 0x06, 0x07, 0x08, 0x09, 0x0A, 0x0B, 0x0C, 0x0D, 0x0E,
        0x0F, 0x10, 0x11, 0x12, 0x13, 0x14,
    ]);

    // Obfuscate a 40-byte message in one go.
    let original = vec![0xFFu8; 40];
    let mut whole = original.clone();
    obfuscate_in_place(&mut whole, &key, 0);

    // Obfuscate in two 20-byte chunks with correct offsets.
    let mut first_half = original[..20].to_vec();
    let mut second_half = original[20..].to_vec();
    obfuscate_in_place(&mut first_half, &key, 0);
    obfuscate_in_place(&mut second_half, &key, 20);

    let mut combined = first_half;
    combined.extend_from_slice(&second_half);
    assert_eq!(whole, combined, "chunked obfuscation must match whole");
}

/// Obfuscation on empty buffer is a no-op.
#[test]
fn empty_buffer_noop() {
    let key = ObfuscationKey::from_info_hash(&[0xFF; 20]);
    let mut buf: Vec<u8> = Vec::new();
    obfuscate_in_place(&mut buf, &key, 0);
    assert!(buf.is_empty());
}

/// Large stream offset does not cause overflow.
#[test]
fn large_stream_offset_no_overflow() {
    let key = ObfuscationKey::from_info_hash(&[0xAA; 20]);
    let mut buf = vec![0x55u8; 10];
    // This should not panic — uses saturating_add internally.
    obfuscate_in_place(&mut buf, &key, u64::MAX - 5);
    // Just check it didn't panic; exact values don't matter.
}

/// Different keys produce different obfuscated output.
#[test]
fn different_keys_different_output() {
    let key_a = ObfuscationKey::from_info_hash(&[0x11; 20]);
    let key_b = ObfuscationKey::from_info_hash(&[0x22; 20]);
    let original = b"same plaintext data!".to_vec();

    let mut buf_a = original.clone();
    let mut buf_b = original.clone();
    obfuscate_in_place(&mut buf_a, &key_a, 0);
    obfuscate_in_place(&mut buf_b, &key_b, 0);

    assert_ne!(buf_a, buf_b, "different keys must produce different output");
}

/// Two bytes give a port, none give the middle of the range.
#[test]
fn ports_from_bytes() {
    assert_eq!(ephemeral_port(Some([0, 0])), 49152);
    assert_eq!(ephemeral_port(Some([0xFF, 0x3F])), 65535);
    assert_eq!(ephemeral_port(Some([0x01, 0x40])), 49153);
    assert_eq!(ephemeral_port(None), 57343);
}

/// The mask is the key, repeated from the offset on.
#[test]
fn mask_repeats_the_key() {
    let mut hash = [0u8; 20];
    for (i, b) in hash.iter_mut().enumerate() {
        *b = i as u8;
    }
    let key = ObfuscationKey::from_info_hash(&hash);
    let mut buf = vec![0u8; 4];
    obfuscate_in_place(&mut buf, &key, 18);
    assert_eq!(buf, vec![18, 19, 0, 1]);
    let mut buf = vec![0u8; 3];
    // The largest offset there is has remainder 15.
    obfuscate_in_place(&mut buf, &key, u64::MAX - 1);
    assert_eq!(buf, vec![14, 15, 15]);
}
