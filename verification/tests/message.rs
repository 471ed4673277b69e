//! The peer wire protocol.

use p2p_distribute::message::{
    decode_message, encode_message, MessageError, PeerMessage, BLOCK_SIZE, MAX_MESSAGE_LENGTH,
    MSG_HAVE, MSG_REQUEST,
};

/// Keep-alive round-trips correctly.
#[test]
fn keepalive_round_trip() {
    let bytes = encode_message(&PeerMessage::KeepAlive);
    assert_eq!(bytes, [0, 0, 0, 0]);
    let decoded = decode_message(&bytes).unwrap();
    assert_eq!(decoded, PeerMessage::KeepAlive);
}

/// Choke round-trips correctly.
#[test]
fn choke_round_trip() {
    let msg = PeerMessage::Choke;
    let bytes = encode_message(&msg);
    assert_eq!(bytes.len(), 5);
    assert_eq!(decode_message(&bytes).unwrap(), msg);
}

/// Unchoke round-trips correctly.
#[test]
fn unchoke_round_trip() {
    let msg = PeerMessage::Unchoke;
    assert_eq!(decode_message(&encode_message(&msg)).unwrap(), msg);
}

/// Interested round-trips correctly.
#[test]
fn interested_round_trip() {
    let msg = PeerMessage::Interested;
    assert_eq!(decode_message(&encode_message(&msg)).unwrap(), msg);
}

/// NotInterested round-trips correctly.
#[test]
fn not_interested_round_trip() {
    let msg = PeerMessage::NotInterested;
    assert_eq!(decode_message(&encode_message(&msg)).unwrap(), msg);
}

/// Have round-trips with correct piece index.
#[test]
fn have_round_trip() {
    let msg = PeerMessage::Have {
        piece_index: 0x1234_5678,
    };
    let bytes = encode_message(&msg);
    assert_eq!(bytes.len(), 9); // 4 + 1 + 4
    assert_eq!(decode_message(&bytes).unwrap(), msg);
}

/// Bitfield round-trips with arbitrary data.
#[test]
fn bitfield_round_trip() {
    let msg = PeerMessage::Bitfield {
        data: vec![0xFF, 0x80, 0x00],
    };
    assert_eq!(decode_message(&encode_message(&msg)).unwrap(), msg);
}

/// Request round-trips with all three fields.
#[test]
fn request_round_trip() {
    let msg = PeerMessage::Request {
        index: 10,
        begin: 0,
        length: BLOCK_SIZE,
    };
    let bytes = encode_message(&msg);
    assert_eq!(bytes.len(), 17); // 4 + 1 + 12
    assert_eq!(decode_message(&bytes).unwrap(), msg);
}

/// Piece round-trips with block data.
#[test]
fn piece_round_trip() {
    let block = vec![0xDE, 0xAD, 0xBE, 0xEF];
    let msg = PeerMessage::Piece {
        index: 5,
        begin: 16384,
        block: block.clone(),
    };
    let bytes = encode_message(&msg);
    // 4 (prefix) + 1 (id) + 4 (index) + 4 (begin) + 4 (block) = 17
    assert_eq!(bytes.len(), 17);
    assert_eq!(decode_message(&bytes).unwrap(), msg);
}

/// Cancel round-trips correctly.
#[test]
fn cancel_round_trip() {
    let msg = PeerMessage::Cancel {
        index: 7,
        begin: 0,
        length: BLOCK_SIZE,
    };
    assert_eq!(decode_message(&encode_message(&msg)).unwrap(), msg);
}

/// Port round-trips with correct value.
#[test]
fn port_round_trip() {
    let msg = PeerMessage::Port { port: 6881 };
    let bytes = encode_message(&msg);
    assert_eq!(bytes.len(), 7); // 4 + 1 + 2
    assert_eq!(decode_message(&bytes).unwrap(), msg);
}

/// Extended round-trips with ext_id and payload.
#[test]
fn extended_round_trip() {
    let msg = PeerMessage::Extended {
        ext_id: 1,
        payload: b"d1:v5:test1e".to_vec(),
    };
    assert_eq!(decode_message(&encode_message(&msg)).unwrap(), msg);
}

/// Message IDs are those of the wire protocol.
#[test]
fn message_message_ids_match_spec() {
    assert_eq!(PeerMessage::Choke.message_id(), Some(0));
    assert_eq!(PeerMessage::Unchoke.message_id(), Some(1));
    assert_eq!(PeerMessage::Interested.message_id(), Some(2));
    assert_eq!(PeerMessage::NotInterested.message_id(), Some(3));
    assert_eq!(PeerMessage::Have { piece_index: 0 }.message_id(), Some(4));
    assert_eq!(PeerMessage::Bitfield { data: vec![] }.message_id(), Some(5));
    assert_eq!(
        PeerMessage::Request {
            index: 0,
            begin: 0,
            length: 0
        }
        .message_id(),
        Some(6)
    );
    assert_eq!(
        PeerMessage::Piece {
            index: 0,
            begin: 0,
            block: vec![]
        }
        .message_id(),
        Some(7)
    );
    assert_eq!(
        PeerMessage::Cancel {
            index: 0,
            begin: 0,
            length: 0
        }
        .message_id(),
        Some(8)
    );
    assert_eq!(PeerMessage::Port { port: 0 }.message_id(), Some(9));
    assert_eq!(
        PeerMessage::Extended {
            ext_id: 0,
            payload: vec![]
        }
        .message_id(),
        Some(20)
    );
    assert_eq!(PeerMessage::KeepAlive.message_id(), None);
}

/// Piece messages are classified as data.
#[test]
fn piece_is_data() {
    let msg = PeerMessage::Piece {
        index: 0,
        begin: 0,
        block: vec![1],
    };
    assert!(msg.is_data());
    assert!(!msg.is_control());
}

/// Control messages are classified correctly.
#[test]
fn choke_is_control() {
    assert!(PeerMessage::Choke.is_control());
    assert!(!PeerMessage::Choke.is_data());
}

/// Keep-alive is neither data nor control.
#[test]
fn keepalive_classification() {
    assert!(!PeerMessage::KeepAlive.is_data());
    assert!(!PeerMessage::KeepAlive.is_control());
}

/// Decoding too-short input returns TooShort error.
#[test]
fn decode_too_short() {
    let result = decode_message(&[0, 0]);
    assert!(matches!(result, Err(MessageError::TooShort { .. })));
}

/// Decoding oversized length prefix returns TooLarge error.
#[test]
fn decode_too_large() {
    // Encode a length of MAX_MESSAGE_LENGTH + 1.
    let bad_len = (MAX_MESSAGE_LENGTH + 1).to_be_bytes();
    let result = decode_message(&bad_len);
    assert!(matches!(result, Err(MessageError::TooLarge { .. })));
}

/// Unknown message ID returns UnknownId error.
#[test]
fn decode_unknown_id() {
    // Length=1, ID=99 (not defined).
    let data = [0, 0, 0, 1, 99];
    let result = decode_message(&data);
    assert!(matches!(
        result,
        Err(MessageError::UnknownId { msg_id: 99 })
    ));
}

/// Truncated Have payload returns InvalidPayload error.
#[test]
fn decode_truncated_have() {
    // Length=3, ID=4 (have), but only 2 bytes of index.
    let data = [0, 0, 0, 3, MSG_HAVE, 0, 0];
    let result = decode_message(&data);
    assert!(matches!(result, Err(MessageError::InvalidPayload { .. })));
}

/// Truncated Request payload returns InvalidPayload error.
#[test]
fn decode_truncated_request() {
    // Length=5, ID=6 (request), only 4 bytes instead of 12.
    let data = [0, 0, 0, 5, MSG_REQUEST, 0, 0, 0, 0];
    let result = decode_message(&data);
    assert!(matches!(result, Err(MessageError::InvalidPayload { .. })));
}

/// The exact bytes of a request.
#[test]
fn request_wire_bytes() {
    let msg = PeerMessage::Request {
        index: 1,
        begin: 2,
        length: 0x4000,
    };
    assert_eq!(
        encode_message(&msg),
        vec![0, 0, 0, 13, 6, 0, 0, 0, 1, 0, 0, 0, 2, 0, 0, 0x40, 0]
    );
}

/// Bytes behind a message are left alone.
#[test]
fn decode_ignores_following_bytes() {
    let mut bytes = encode_message(&PeerMessage::Have { piece_index: 3 });
    bytes.extend_from_slice(&[1, 2, 3]);
    assert_eq!(
        decode_message(&bytes).unwrap(),
        PeerMessage::Have { piece_index: 3 }
    );
}

/// A message that has not arrived in full is too short.
#[test]
fn decode_incomplete_message() {
    let bytes = encode_message(&PeerMessage::Port { port: 1 });
    let err = decode_message(&bytes[..6]).unwrap_err();
    assert!(matches!(
        err,
        MessageError::TooShort {
            needed: 7,
            actual: 6
        }
    ));
    assert_eq!(err.display(), "message too short: need 7 bytes, got 6");
}

/// Each error has its own text.
#[test]
fn message_error_texts() {
    let err = decode_message(&(MAX_MESSAGE_LENGTH + 1).to_be_bytes()).unwrap_err();
    assert_eq!(
        err.display(),
        format!(
            "message too large: {} bytes exceeds max {MAX_MESSAGE_LENGTH}",
            MAX_MESSAGE_LENGTH + 1
        )
    );
    let err = decode_message(&[0, 0, 0, 1, 99]).unwrap_err();
    assert_eq!(err.display(), "unknown message ID: 99");
    let err = decode_message(&[0, 0, 0, 1, MSG_HAVE]).unwrap_err();
    assert!(err
        .display()
        .starts_with("invalid payload for message ID 4: "));
}

/// An empty block and an empty bitfield are messages too.
#[test]
fn empty_payloads_round_trip() {
    let piece = PeerMessage::Piece {
        index: 1,
        begin: 2,
        block: vec![],
    };
    assert_eq!(decode_message(&encode_message(&piece)).unwrap(), piece);
    let bitfield = PeerMessage::Bitfield { data: vec![] };
    assert_eq!(decode_message(&encode_message(&bitfield)).unwrap(), bitfield);
}
