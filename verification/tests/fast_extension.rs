//! Fast extension messages, the allowed-fast set and the suggestion cache.

use p2p_distribute::fast_extension::{
    AllowedFastSet, FastDecodeError, FastMessage, SuggestCache, DEFAULT_ALLOWED_FAST_COUNT,
    MAX_ALLOWED_FAST_COUNT, MAX_SUGGESTIONS, MSG_ALLOWED_FAST, MSG_HAVE_ALL, MSG_HAVE_NONE,
    MSG_REJECT_REQUEST, MSG_SUGGEST_PIECE,
};

/// SuggestPiece encodes and decodes correctly.
#[test]
fn suggest_piece_round_trip() {
    let msg = FastMessage::SuggestPiece { piece_index: 42 };
    let bytes = msg.encode();
    assert_eq!(bytes.len(), 9); // 4 + 1 + 4
    // Decode uses payload (after length prefix + ID).
    let payload = &bytes[5..];
    let decoded = FastMessage::decode(MSG_SUGGEST_PIECE, payload).unwrap();
    assert_eq!(decoded, msg);
}

/// HaveAll encodes and decodes correctly.
#[test]
fn have_all_round_trip() {
    let msg = FastMessage::HaveAll;
    let bytes = msg.encode();
    assert_eq!(bytes.len(), 5); // 4 + 1
    let decoded = FastMessage::decode(MSG_HAVE_ALL, &[]).unwrap();
    assert_eq!(decoded, msg);
}

/// HaveNone encodes and decodes correctly.
#[test]
fn have_none_round_trip() {
    let msg = FastMessage::HaveNone;
    let bytes = msg.encode();
    assert_eq!(bytes.len(), 5);
    let decoded = FastMessage::decode(MSG_HAVE_NONE, &[]).unwrap();
    assert_eq!(decoded, msg);
}

/// RejectRequest encodes and decodes correctly.
#[test]
fn reject_request_round_trip() {
    let msg = FastMessage::RejectRequest {
        index: 10,
        begin: 0,
        length: 16384,
    };
    let bytes = msg.encode();
    assert_eq!(bytes.len(), 17); // 4 + 1 + 12
    let payload = &bytes[5..];
    let decoded = FastMessage::decode(MSG_REJECT_REQUEST, payload).unwrap();
    assert_eq!(decoded, msg);
}

/// AllowedFast encodes and decodes correctly.
#[test]
fn allowed_fast_round_trip() {
    let msg = FastMessage::AllowedFast { piece_index: 99 };
    let bytes = msg.encode();
    assert_eq!(bytes.len(), 9);
    let payload = &bytes[5..];
    let decoded = FastMessage::decode(MSG_ALLOWED_FAST, payload).unwrap();
    assert_eq!(decoded, msg);
}

/// Message IDs are those of the wire protocol.
#[test]
fn fast_extension_message_ids_match_spec() {
    assert_eq!(
        FastMessage::SuggestPiece { piece_index: 0 }.message_id(),
        0x0D
    );
    assert_eq!(FastMessage::HaveAll.message_id(), 0x0E);
    assert_eq!(FastMessage::HaveNone.message_id(), 0x0F);
    assert_eq!(
        FastMessage::RejectRequest {
            index: 0,
            begin: 0,
            length: 0
        }
        .message_id(),
        0x10
    );
    assert_eq!(
        FastMessage::AllowedFast { piece_index: 0 }.message_id(),
        0x11
    );
}

/// Add and contains work correctly.
#[test]
fn allowed_fast_add_contains() {
    let mut afs = AllowedFastSet::new();
    assert!(afs.is_empty());

    assert!(afs.add(42));
    assert!(afs.contains(42));
    assert!(!afs.contains(43));
    assert_eq!(afs.count(), 1);
}

/// Duplicate adds are rejected.
#[test]
fn allowed_fast_no_duplicates() {
    let mut afs = AllowedFastSet::new();
    assert!(afs.add(42));
    assert!(!afs.add(42));
    assert_eq!(afs.count(), 1);
}

/// Set respects maximum capacity.
#[test]
fn allowed_fast_cap() {
    let mut afs = AllowedFastSet::new();
    for i in 0..MAX_ALLOWED_FAST_COUNT as u32 {
        assert!(afs.add(i));
    }
    assert!(!afs.add(999));
    assert_eq!(afs.count(), MAX_ALLOWED_FAST_COUNT);
}

/// Clear empties the set.
#[test]
fn allowed_fast_clear() {
    let mut afs = AllowedFastSet::new();
    afs.add(1);
    afs.add(2);
    afs.clear();
    assert!(afs.is_empty());
}

/// Suggestion tracking works.
#[test]
fn suggest_cache_basic() {
    let mut cache = SuggestCache::new();
    cache.add(10);
    assert!(cache.is_suggested(10));
    assert!(!cache.is_suggested(11));
    assert_eq!(cache.count(), 1);
}

/// Duplicate suggestions promote to most-recent.
#[test]
fn suggest_cache_dedup() {
    let mut cache = SuggestCache::new();
    cache.add(10);
    cache.add(20);
    cache.add(10); // Re-add: should move to end.

    assert_eq!(cache.suggestions(), &[20, 10]);
}

/// Suggest cache respects maximum capacity.
#[test]
fn suggest_cache_cap() {
    let mut cache = SuggestCache::new();
    for i in 0..MAX_SUGGESTIONS as u32 + 5 {
        cache.add(i);
    }
    assert_eq!(cache.count(), MAX_SUGGESTIONS);
}

/// Truncated SuggestPiece payload returns error.
#[test]
fn decode_truncated_suggest() {
    let result = FastMessage::decode(MSG_SUGGEST_PIECE, &[0, 0]);
    assert!(matches!(
        result,
        Err(FastDecodeError::PayloadTooShort { .. })
    ));
}

/// Non-fast message ID returns error.
#[test]
fn decode_non_fast_id() {
    let result = FastMessage::decode(0x00, &[]); // Choke is not fast.
    assert!(matches!(
        result,
        Err(FastDecodeError::NotFastMessage { .. })
    ));
}

/// Default count is accessible.
#[test]
fn default_allowed_fast_count() {
    assert_eq!(AllowedFastSet::default_count(), DEFAULT_ALLOWED_FAST_COUNT);
}

/// The wire format is the length, the ID and the payload in network order.
#[test]
fn fast_wire_bytes() {
    let msg = FastMessage::RejectRequest {
        index: 1,
        begin: 0x0102_0304,
        length: 0xFFFF_FFFF,
    };
    assert_eq!(
        msg.encode(),
        vec![0, 0, 0, 13, 0x10, 0, 0, 0, 1, 1, 2, 3, 4, 0xFF, 0xFF, 0xFF, 0xFF]
    );
    assert_eq!(FastMessage::HaveNone.encode(), vec![0, 0, 0, 1, 0x0F]);
}

/// Bytes behind a payload do not matter.
#[test]
fn fast_decode_ignores_rest() {
    let decoded = FastMessage::decode(MSG_SUGGEST_PIECE, &[0, 0, 0, 7, 9, 9]).unwrap();
    assert_eq!(decoded, FastMessage::SuggestPiece { piece_index: 7 });
    let decoded = FastMessage::decode(MSG_HAVE_ALL, &[1, 2, 3]).unwrap();
    assert_eq!(decoded, FastMessage::HaveAll);
}

/// Errors name the message, what it needs and what was there.
#[test]
fn fast_decode_error_texts() {
    let err = FastMessage::decode(MSG_REJECT_REQUEST, &[0; 11]).unwrap_err();
    assert_eq!(
        err,
        FastDecodeError::PayloadTooShort {
            msg_id: MSG_REJECT_REQUEST,
            needed: 12,
            actual: 11
        }
    );
    assert_eq!(err.display(), "fast message 0x10: need 12 bytes, got 11");
    let err = FastMessage::decode(MSG_ALLOWED_FAST, &[]).unwrap_err();
    assert_eq!(err.display(), "fast message 0x11: need 4 bytes, got 0");
    let err = FastMessage::decode(0x05, &[]).unwrap_err();
    assert_eq!(
        err.display(),
        "message ID 0x05 is not a fast extension message"
    );
}

/// A full suggestion cache drops the oldest suggestion.
#[test]
fn suggest_cache_drops_oldest() {
    let mut cache = SuggestCache::new();
    for i in 0..=MAX_SUGGESTIONS as u32 {
        cache.add(i);
    }
    assert!(!cache.is_suggested(0));
    assert!(cache.is_suggested(1));
    assert_eq!(cache.suggestions().last(), Some(&(MAX_SUGGESTIONS as u32)));
    // A repeated suggestion needs no room.
    cache.add(1);
    assert!(cache.is_suggested(2));
    cache.clear();
    assert_eq!(cache.count(), 0);
}

/// A set keeps the order in which pieces were added.
#[test]
fn allowed_fast_order() {
    let mut afs = AllowedFastSet::with_capacity(500);
    assert!(afs.add(9));
    assert!(afs.add(3));
    assert_eq!(afs.pieces(), &[9, 3]);
}
