//! Piece validation, quarantine and retries.

use p2p_distribute::merkle::{LEAF_SIZE, MIN_PIECE_SIZE_FOR_MERKLE};
use p2p_distribute::piece_validator::{
    PieceValidator, QuarantineEntry, RetryDecision, ValidationResult, ValidatorConfig,
    DEFAULT_MAX_RETRIES,
};
use p2p_distribute::torrent_info::TorrentInfo;
use sha1::{Digest, Sha1};

/// Helper: creates TorrentInfo from raw piece data slices.
fn make_info(pieces: &[&[u8]], piece_length: u64) -> TorrentInfo {
    let file_size: u64 = pieces.iter().map(|p| p.len() as u64).sum();
    let mut piece_hashes = Vec::with_capacity(pieces.len() * 20);

    for piece in pieces {
        let mut hasher = Sha1::new();
        hasher.update(piece);
        piece_hashes.extend_from_slice(hasher.finalize().as_slice());
    }

    TorrentInfo {
        piece_length,
        piece_hashes,
        file_size,
        file_name: "test.bin".into(),
    }
}

/// Valid piece data passes validation.
#[test]
fn valid_piece_passes() {
    let data = vec![0xAA; 1024];
    let info = make_info(&[&data], 1024);
    let mut validator = PieceValidator::with_defaults(info);

    let result = validator.validate_piece(0, &data);
    assert_eq!(result, ValidationResult::Valid);
}

/// Corrupt piece data fails validation.
#[test]
fn corrupt_piece_fails() {
    let data = vec![0xAA; 1024];
    let info = make_info(&[&data], 1024);
    let mut validator = PieceValidator::with_defaults(info);

    let mut corrupt = data.clone();
    corrupt[0] = 0xBB;
    let result = validator.validate_piece(0, &corrupt);
    assert!(matches!(result, ValidationResult::Invalid { .. }));
}

/// Out-of-bounds piece index returns Invalid.
#[test]
fn out_of_bounds_index_invalid() {
    let data = vec![0xAA; 1024];
    let info = make_info(&[&data], 1024);
    let mut validator = PieceValidator::with_defaults(info);

    let result = validator.validate_piece(99, &data);
    assert!(matches!(result, ValidationResult::Invalid { .. }));
}

/// Quarantined piece can be retried.
#[test]
fn quarantine_and_retry() {
    let data = vec![0xAA; 1024];
    let info = make_info(&[&data], 1024);
    let mut validator = PieceValidator::with_defaults(info);

    validator.quarantine(0, 5, vec![]);
    assert_eq!(validator.quarantine_count(), 1);

    let decision = validator.next_retry().unwrap();
    assert_eq!(
        decision,
        RetryDecision::Retry {
            piece_index: 0,
            avoid_peer: 5,
            corrupt_leaves: vec![],
        }
    );
    assert_eq!(validator.quarantine_count(), 0);
}

/// Retry budget exhaustion produces permanent failure.
#[test]
fn permanent_failure_after_budget() {
    let data = vec![0xAA; 1024];
    let info = make_info(&[&data], 1024);
    let config = ValidatorConfig {
        max_retries: 2,
        use_merkle: false,
    };
    let mut validator = PieceValidator::new(info, config);

    // Quarantine and retry twice.
    validator.quarantine(0, 1, vec![]);
    validator.quarantine(0, 2, vec![]); // retry_count = 1
    validator.quarantine(0, 3, vec![]); // retry_count = 2

    let decision = validator.next_retry().unwrap();
    assert_eq!(decision, RetryDecision::PermanentFailure { piece_index: 0 });
    assert!(validator.is_permanently_failed(0));
}

/// Empty quarantine returns None.
#[test]
fn empty_quarantine_returns_none() {
    let info = make_info(&[&[0u8; 256]], 256);
    let mut validator = PieceValidator::with_defaults(info);
    assert_eq!(validator.next_retry(), None);
}

/// Quarantining the same piece increments retry count.
#[test]
fn re_quarantine_increments_count() {
    let info = make_info(&[&[0u8; 256]], 256);
    let mut validator = PieceValidator::with_defaults(info);

    validator.quarantine(0, 1, vec![]);
    validator.quarantine(0, 2, vec![]);
    validator.quarantine(0, 3, vec![]);

    // Should still be one entry, with retry_count = 2.
    assert_eq!(validator.quarantine_count(), 1);
}

/// Merkle is skipped for small pieces.
#[test]
fn merkle_skipped_for_small_pieces() {
    let data = vec![0xAA; 1024]; // Well under 1 MiB.
    let info = make_info(&[&data], 1024);
    let mut validator = PieceValidator::with_defaults(info);

    let mut corrupt = data.clone();
    corrupt[0] = 0xBB;
    let result = validator.validate_piece(0, &corrupt);

    match result {
        ValidationResult::Invalid { corrupt_leaves } => {
            assert!(corrupt_leaves.is_empty());
        }
        _ => panic!("expected Invalid"),
    }
}

/// Merkle is used for large pieces when enabled.
#[test]
fn merkle_used_for_large_pieces() {
    // Create a piece that is exactly MIN_PIECE_SIZE_FOR_MERKLE.
    let data = vec![0xAA; MIN_PIECE_SIZE_FOR_MERKLE];
    let info = make_info(&[&data], MIN_PIECE_SIZE_FOR_MERKLE as u64);
    let mut validator = PieceValidator::with_defaults(info);

    let mut corrupt = data.clone();
    // Corrupt a byte in the data.
    corrupt[0] = 0xBB;
    let result = validator.validate_piece(0, &corrupt);

    // Should be Invalid (SHA-1 mismatch).  Merkle may or may not
    // find leaves depending on internal tree consistency, but
    // validation must still fail.
    assert!(matches!(result, ValidationResult::Invalid { .. }));
}

/// Merkle disabled in config skips sub-piece localisation.
#[test]
fn merkle_disabled() {
    let data = vec![0xAA; MIN_PIECE_SIZE_FOR_MERKLE];
    let info = make_info(&[&data], MIN_PIECE_SIZE_FOR_MERKLE as u64);
    let config = ValidatorConfig {
        max_retries: 3,
        use_merkle: false,
    };
    let mut validator = PieceValidator::new(info, config);

    let mut corrupt = data.clone();
    corrupt[0] = 0xBB;
    let result = validator.validate_piece(0, &corrupt);

    match result {
        ValidationResult::Invalid { corrupt_leaves } => {
            assert!(corrupt_leaves.is_empty());
        }
        _ => panic!("expected Invalid"),
    }
}

/// `leaf_count_for_piece` computes correct leaf count.
#[test]
fn leaf_count_exact() {
    let data = vec![0; 1_048_576]; // 1 MiB
    let info = make_info(&[&data], 1_048_576);
    let validator = PieceValidator::with_defaults(info);

    assert_eq!(validator.leaf_count_for_piece(0), 4);
}

/// `leaf_count_for_piece` handles partial last leaf.
#[test]
fn leaf_count_partial() {
    let data = vec![0; 300 * 1024]; // 300 KiB
    let info = make_info(&[&data], 300 * 1024);
    let validator = PieceValidator::with_defaults(info);

    assert_eq!(validator.leaf_count_for_piece(0), 2);
}

/// `leaf_count_for_piece` returns 0 for out-of-bounds index.
#[test]
fn leaf_count_out_of_bounds() {
    let data = vec![0; 1024];
    let info = make_info(&[&data], 1024);
    let validator = PieceValidator::with_defaults(info);

    // piece_size(99) returns 0 for OOB → leaf count = 0.
    assert_eq!(validator.leaf_count_for_piece(99), 0);
}

/// Validator handles multiple pieces independently.
#[test]
fn multiple_pieces_independent() {
    let piece_a = vec![0xAA; 512];
    let piece_b = vec![0xBB; 512];
    let info = make_info(&[&piece_a, &piece_b], 512);
    let mut validator = PieceValidator::with_defaults(info);

    assert_eq!(
        validator.validate_piece(0, &piece_a),
        ValidationResult::Valid
    );
    assert_eq!(
        validator.validate_piece(1, &piece_b),
        ValidationResult::Valid
    );

    // Corrupt piece 0.
    let mut corrupt = piece_a.clone();
    corrupt[0] = 0xFF;
    assert!(matches!(
        validator.validate_piece(0, &corrupt),
        ValidationResult::Invalid { .. }
    ));

    // Piece 1 still valid.
    assert_eq!(
        validator.validate_piece(1, &piece_b),
        ValidationResult::Valid
    );
}

/// Default config has expected values.
#[test]
fn default_config() {
    let config = ValidatorConfig::default();
    assert_eq!(config.max_retries, DEFAULT_MAX_RETRIES);
    assert!(config.use_merkle);
}

/// `max_retries` accessor reflects configuration.
#[test]
fn max_retries_accessor() {
    let info = make_info(&[&[0u8; 256]], 256);
    let config = ValidatorConfig {
        max_retries: 7,
        use_merkle: false,
    };
    let validator = PieceValidator::new(info, config);
    assert_eq!(validator.max_retries(), 7);
}

/// `info` accessor returns torrent metadata.
#[test]
fn info_accessor() {
    let data = vec![0u8; 256];
    let info = make_info(&[&data], 256);
    let validator = PieceValidator::with_defaults(info.clone());
    assert_eq!(validator.info().file_name, "test.bin");
    assert_eq!(validator.info().piece_count(), 1);
}

/// Corrupt leaf indices are preserved through quarantine and retry.
#[test]
fn quarantine_preserves_leaves() {
    let info = make_info(&[&[0u8; 256]], 256);
    let mut validator = PieceValidator::with_defaults(info);

    validator.quarantine(0, 3, vec![1, 3]);
    let decision = validator.next_retry().unwrap();

    assert_eq!(
        decision,
        RetryDecision::Retry {
            piece_index: 0,
            avoid_peer: 3,
            corrupt_leaves: vec![1, 3],
        }
    );
}

/// Multiple pieces can be quarantined simultaneously.
#[test]
fn multiple_quarantine_entries() {
    let info = make_info(&[&[0u8; 256], &[1u8; 256]], 256);
    let mut validator = PieceValidator::with_defaults(info);

    validator.quarantine(0, 1, vec![]);
    validator.quarantine(1, 2, vec![]);
    assert_eq!(validator.quarantine_count(), 2);

    // FIFO order.
    let first = validator.next_retry().unwrap();
    assert!(matches!(first, RetryDecision::Retry { piece_index: 0, .. }));
    let second = validator.next_retry().unwrap();
    assert!(matches!(
        second,
        RetryDecision::Retry { piece_index: 1, .. }
    ));
}

/// Permanent failures list is accessible.
#[test]
fn permanent_failures_list() {
    let info = make_info(&[&[0u8; 256]], 256);
    let config = ValidatorConfig {
        max_retries: 0,
        use_merkle: false,
    };
    let mut validator = PieceValidator::new(info, config);

    validator.quarantine(0, 1, vec![]);
    let _ = validator.next_retry();

    assert_eq!(validator.permanent_failures(), &[0]);
    assert!(validator.is_permanently_failed(0));
    assert!(!validator.is_permanently_failed(1));
}

/// Debug formatting works for all types.
#[test]
fn piece_validator_debug_formatting() {
    let result = ValidationResult::Valid;
    let dbg = format!("{result:?}");
    assert!(dbg.contains("Valid"));

    let entry = QuarantineEntry {
        piece_index: 0,
        source_peer: 1,
        retry_count: 2,
        corrupt_leaves: vec![0, 1],
    };
    let dbg = format!("{entry:?}");
    assert!(dbg.contains("QuarantineEntry"));

    let decision = RetryDecision::PermanentFailure { piece_index: 5 };
    let dbg = format!("{decision:?}");
    assert!(dbg.contains("PermanentFailure"));

    let config = ValidatorConfig::default();
    let dbg = format!("{config:?}");
    assert!(dbg.contains("ValidatorConfig"));
}

/// A piece is retried as often as allowed, then never again.
#[test]
fn retry_budget_spans_retries() {
    let info = make_info(&[&[0u8; 256]], 256);
    let mut validator = PieceValidator::with_defaults(info);
    for peer in 0..DEFAULT_MAX_RETRIES as usize {
        validator.quarantine(0, peer, vec![]);
        assert!(matches!(
            validator.next_retry(),
            Some(RetryDecision::Retry { piece_index: 0, .. })
        ));
    }
    for _ in 0..2 {
        validator.quarantine(0, 9, vec![]);
        assert_eq!(
            validator.next_retry(),
            Some(RetryDecision::PermanentFailure { piece_index: 0 })
        );
    }
}

/// Once a large piece was valid, corrupt leaves are found.
#[test]
fn corrupt_leaves_are_located() {
    let data = vec![0x5A; MIN_PIECE_SIZE_FOR_MERKLE + 10];
    let info = make_info(&[&data], data.len() as u64);
    let mut validator = PieceValidator::with_defaults(info);
    let mut corrupt = data.clone();
    corrupt[LEAF_SIZE] = 0;
    corrupt[MIN_PIECE_SIZE_FOR_MERKLE] = 0;
    assert_eq!(
        validator.validate_piece(0, &corrupt),
        ValidationResult::Invalid {
            corrupt_leaves: vec![]
        }
    );
    assert_eq!(validator.validate_piece(0, &data), ValidationResult::Valid);
    assert_eq!(
        validator.validate_piece(0, &corrupt),
        ValidationResult::Invalid {
            corrupt_leaves: vec![1, 4]
        }
    );
}

/// An entry shows what it holds.
#[test]
fn quarantine_entry_accessors() {
    let entry = QuarantineEntry {
        piece_index: 1,
        source_peer: 2,
        retry_count: 3,
        corrupt_leaves: vec![4],
    };
    assert_eq!(entry.piece_index(), 1);
    assert_eq!(entry.source_peer(), 2);
    assert_eq!(entry.retry_count(), 3);
    assert_eq!(entry.corrupt_leaves(), &[4]);
}

/// Pieces of a file whose last piece is shorter.
#[test]
fn piece_sizes() {
    let info = make_info(&[&[1u8; 10], &[2u8; 10], &[3u8; 4]], 10);
    assert_eq!(info.piece_count(), 3);
    assert_eq!(info.piece_size(1), 10);
    assert_eq!(info.piece_size(2), 4);
    assert_eq!(info.piece_size(3), 0);
    let hash: [u8; 20] = Sha1::digest([2u8; 10]).into();
    assert_eq!(info.piece_hash(1), Some(&hash[..]));
    assert_eq!(info.piece_hash(3), None);
}
