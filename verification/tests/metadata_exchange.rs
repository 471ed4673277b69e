//! Fetching torrent metadata block by block.

use p2p_distribute::metadata_exchange::{
    BlockStatus, MetadataError, MetadataExchange, MetadataMessage, MAX_METADATA_SIZE,
    METADATA_BLOCK_SIZE,
};
use sha1::{Digest, Sha1};

/// Helper: creates test metadata and its SHA-1 info hash.
fn make_test_metadata(size: usize) -> (Vec<u8>, [u8; 20]) {
    let data: Vec<u8> = (0..size).map(|i| (i % 256) as u8).collect();
    let hash = Sha1::digest(&data);
    let info_hash: [u8; 20] = hash.into();
    (data, info_hash)
}

/// Message type IDs are those of the wire protocol.
#[test]
fn message_types() {
    assert_eq!(MetadataMessage::Request { piece: 0 }.msg_type(), 0);
    assert_eq!(
        MetadataMessage::Data {
            piece: 0,
            total_size: 16384,
            payload: vec![]
        }
        .msg_type(),
        1
    );
    assert_eq!(MetadataMessage::Reject { piece: 0 }.msg_type(), 2);
}

/// Setting metadata size computes correct block count.
#[test]
fn block_count_exact() {
    let mut ex = MetadataExchange::new([0; 20]);
    ex.set_metadata_size(32768).unwrap();
    assert_eq!(ex.block_count(), 2);
}

/// Partial last block rounds up.
#[test]
fn block_count_partial() {
    let mut ex = MetadataExchange::new([0; 20]);
    ex.set_metadata_size(20000).unwrap();
    assert_eq!(ex.block_count(), 2);
}

/// Rejects oversized metadata.
#[test]
fn rejects_too_large() {
    let mut ex = MetadataExchange::new([0; 20]);
    let result = ex.set_metadata_size(MAX_METADATA_SIZE + 1);
    assert!(result.is_err());
}

/// Rejects empty metadata.
#[test]
fn rejects_empty() {
    let mut ex = MetadataExchange::new([0; 20]);
    assert!(ex.set_metadata_size(0).is_err());
}

/// Full metadata exchange cycle with verification.
#[test]
fn full_exchange_cycle() {
    let (data, info_hash) = make_test_metadata(20000);
    let mut ex = MetadataExchange::new(info_hash);

    ex.set_metadata_size(20000).unwrap();
    assert_eq!(ex.block_count(), 2);

    // Send block 0 (16384 bytes).
    ex.receive_block(0, 20000, &data[..METADATA_BLOCK_SIZE])
        .unwrap();
    assert!(!ex.all_blocks_received());

    // Send block 1 (3616 bytes).
    ex.receive_block(1, 20000, &data[METADATA_BLOCK_SIZE..])
        .unwrap();
    assert!(ex.all_blocks_received());

    let result = ex.verify().unwrap();
    assert_eq!(result, data);
    assert!(ex.is_complete());
}

/// Hash mismatch resets all blocks.
#[test]
fn hash_mismatch_resets_blocks() {
    let (data, _info_hash) = make_test_metadata(METADATA_BLOCK_SIZE);
    let wrong_hash = [0xFF; 20]; // Deliberately wrong.
    let mut ex = MetadataExchange::new(wrong_hash);

    ex.set_metadata_size(METADATA_BLOCK_SIZE).unwrap();
    ex.receive_block(0, METADATA_BLOCK_SIZE, &data).unwrap();

    let result = ex.verify();
    assert!(result.is_err());

    // All blocks should be reset.
    assert_eq!(ex.block_status(0), Some(BlockStatus::Missing));
}

/// Reject message resets pending block to missing.
#[test]
fn reject_resets_pending() {
    let mut ex = MetadataExchange::new([0; 20]);
    ex.set_metadata_size(METADATA_BLOCK_SIZE).unwrap();

    ex.mark_pending(0);
    assert_eq!(ex.block_status(0), Some(BlockStatus::Pending));

    ex.handle_reject(0);
    assert_eq!(ex.block_status(0), Some(BlockStatus::Missing));
}

/// next_needed_block returns first missing block.
#[test]
fn next_needed_block() {
    let mut ex = MetadataExchange::new([0; 20]);
    ex.set_metadata_size(32768).unwrap();

    assert_eq!(ex.next_needed_block(), Some(0));
    ex.mark_pending(0);
    assert_eq!(ex.next_needed_block(), Some(1));
}

/// Size mismatch between blocks from different peers.
#[test]
fn size_mismatch_rejected() {
    let mut ex = MetadataExchange::new([0; 20]);
    ex.set_metadata_size(METADATA_BLOCK_SIZE).unwrap();

    let result = ex.receive_block(0, METADATA_BLOCK_SIZE * 2, &[0; METADATA_BLOCK_SIZE]);
    assert!(result.is_err());
}

/// Invalid block index rejected.
#[test]
fn invalid_block_index() {
    let mut ex = MetadataExchange::new([0; 20]);
    ex.set_metadata_size(METADATA_BLOCK_SIZE).unwrap();

    let result = ex.receive_block(99, METADATA_BLOCK_SIZE, &[0; METADATA_BLOCK_SIZE]);
    assert!(result.is_err());
}

/// Block payload size must match expected.
#[test]
fn block_size_mismatch() {
    let mut ex = MetadataExchange::new([0; 20]);
    ex.set_metadata_size(METADATA_BLOCK_SIZE).unwrap();

    // Send wrong-sized payload.
    let result = ex.receive_block(0, METADATA_BLOCK_SIZE, &[0; 100]);
    assert!(result.is_err());
}

/// Verify without all blocks returns incomplete error.
#[test]
fn verify_incomplete() {
    let mut ex = MetadataExchange::new([0; 20]);
    ex.set_metadata_size(32768).unwrap();

    let result = ex.verify();
    assert!(result.is_err());
}

/// Each refusal has its own error and text.
#[test]
fn metadata_error_texts() {
    let mut ex = MetadataExchange::new([0; 20]);
    let err = ex.set_metadata_size(MAX_METADATA_SIZE + 1).unwrap_err();
    assert_eq!(
        err.display(),
        format!(
            "metadata too large ({} bytes, max {MAX_METADATA_SIZE})",
            MAX_METADATA_SIZE + 1
        )
    );
    let err = ex.set_metadata_size(0).unwrap_err();
    assert_eq!(err.display(), "metadata size is zero");
    ex.set_metadata_size(METADATA_BLOCK_SIZE + 1).unwrap();
    let err = ex.receive_block(0, 5, &[]).unwrap_err();
    assert!(matches!(err, MetadataError::SizeMismatch { .. }));
    assert_eq!(
        err.display(),
        "metadata size mismatch: expected 16385, received 5"
    );
    let err = ex
        .receive_block(2, METADATA_BLOCK_SIZE + 1, &[0])
        .unwrap_err();
    assert!(matches!(err, MetadataError::InvalidBlock { .. }));
    assert_eq!(err.display(), "invalid block index 2 (only 2 blocks)");
    let err = ex
        .receive_block(1, METADATA_BLOCK_SIZE + 1, &[0, 0])
        .unwrap_err();
    assert!(matches!(err, MetadataError::BlockSizeMismatch { .. }));
    assert_eq!(
        err.display(),
        "block 1 size mismatch: expected 1, received 2"
    );
    let err = ex.verify().unwrap_err();
    assert!(matches!(err, MetadataError::Incomplete { .. }));
    assert_eq!(err.display(), "metadata incomplete: 0/2 blocks");
    let whole = MetadataExchange::new([1; 20]);
    assert_eq!(whole.metadata_size(), None);
}

/// Blocks assemble whatever the order in which they come.
#[test]
fn blocks_in_any_order() {
    let (data, info_hash) = make_test_metadata(METADATA_BLOCK_SIZE * 2 + 7);
    let size = data.len();
    let mut ex = MetadataExchange::new(info_hash);
    ex.set_metadata_size(size).unwrap();
    ex.receive_block(2, size, &data[METADATA_BLOCK_SIZE * 2..])
        .unwrap();
    ex.receive_block(0, size, &data[..METADATA_BLOCK_SIZE])
        .unwrap();
    assert_eq!(ex.received_count(), 2);
    ex.receive_block(
        1,
        size,
        &data[METADATA_BLOCK_SIZE..METADATA_BLOCK_SIZE * 2],
    )
    .unwrap();
    assert_eq!(ex.verify().unwrap(), data);
}

/// A wrong hash is reported with both hashes.
#[test]
fn hash_mismatch_names_hashes() {
    let (data, info_hash) = make_test_metadata(100);
    let mut ex = MetadataExchange::new([0xFF; 20]);
    ex.set_metadata_size(100).unwrap();
    ex.receive_block(0, 100, &data).unwrap();
    match ex.verify() {
        Err(MetadataError::HashMismatch { expected, actual }) => {
            assert_eq!(expected, [0xFF; 20]);
            assert_eq!(actual, info_hash);
        }
        other => panic!("unexpected {other:?}"),
    }
    assert!(!ex.is_complete());
}

/// New data is complete only after it was verified in its turn.
#[test]
fn complete_only_while_verified() {
    let (data, info_hash) = make_test_metadata(100);
    let mut ex = MetadataExchange::new(info_hash);
    ex.receive_block(0, 100, &data).unwrap();
    assert!(!ex.is_complete());
    ex.verify().unwrap();
    assert!(ex.is_complete());

    // A new size starts over.
    ex.set_metadata_size(16384).unwrap();
    assert!(!ex.is_complete());
    assert!(!ex.all_blocks_received());

    // So does a block that replaces a verified one.
    ex.set_metadata_size(100).unwrap();
    ex.receive_block(0, 100, &data).unwrap();
    ex.verify().unwrap();
    ex.receive_block(0, 100, &[0; 100]).unwrap();
    assert!(!ex.is_complete());

    // A mismatch leaves nothing verified.
    assert!(matches!(
        ex.verify(),
        Err(MetadataError::HashMismatch { .. })
    ));
    assert!(!ex.is_complete());
    assert!(!ex.all_blocks_received());

    // A refused size changes nothing.
    ex.receive_block(0, 100, &data).unwrap();
    ex.verify().unwrap();
    assert!(ex.set_metadata_size(0).is_err());
    assert!(ex.receive_block(1, 100, &data).is_err());
    assert!(ex.is_complete());
}
