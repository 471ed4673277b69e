//! Piece states and who claims a piece.

use p2p_distribute::piece_map::{PieceState, SharedPieceMap};

/// `PieceState::from_u8` correctly maps known values.
#[test]
fn piece_state_from_u8_known_values() {
    assert_eq!(PieceState::from_u8(0), PieceState::Needed);
    assert_eq!(PieceState::from_u8(1), PieceState::InFlight);
    assert_eq!(PieceState::from_u8(2), PieceState::Done);
    assert_eq!(PieceState::from_u8(3), PieceState::Failed);
}

/// `PieceState::from_u8` defaults to `Needed` for unknown values.
#[test]
fn piece_state_from_u8_unknown_defaults_to_needed() {
    assert_eq!(PieceState::from_u8(4), PieceState::Needed);
    assert_eq!(PieceState::from_u8(255), PieceState::Needed);
}

/// New `SharedPieceMap` starts with all pieces in `Needed` state.
#[test]
fn piece_map_initial_state_all_needed() {
    let mut map = SharedPieceMap::new(4);
    assert_eq!(map.piece_count(), 4);
    assert_eq!(map.done_count(), 0);
    assert!(!map.is_complete());
    for i in 0..4 {
        assert_eq!(map.get(i), PieceState::Needed);
    }
}

/// `try_claim` transitions `Needed → InFlight` exactly once.
#[test]
fn piece_map_try_claim_succeeds_once() {
    let mut map = SharedPieceMap::new(2);
    assert!(map.try_claim(0));
    assert!(!map.try_claim(0)); // already InFlight
    assert_eq!(map.get(0), PieceState::InFlight);
}

/// `mark_done` transitions a piece to `Done` and updates the done count.
#[test]
fn piece_map_mark_done_updates_count() {
    let mut map = SharedPieceMap::new(3);
    map.try_claim(0);
    map.mark_done(0);
    assert_eq!(map.get(0), PieceState::Done);
    assert_eq!(map.done_count(), 1);
}

/// `is_complete()` returns `true` only when ALL pieces are `Done`.
#[test]
fn piece_map_is_complete_all_done() {
    let mut map = SharedPieceMap::new(2);
    map.try_claim(0);
    map.mark_done(0);
    assert!(!map.is_complete());
    map.try_claim(1);
    map.mark_done(1);
    assert!(map.is_complete());
}

/// `mark_failed` + `retry_failed` cycle allows piece re-download.
#[test]
fn piece_map_fail_then_retry() {
    let mut map = SharedPieceMap::new(1);
    map.try_claim(0);
    map.mark_failed(0);
    assert_eq!(map.get(0), PieceState::Failed);
    assert!(map.retry_failed(0));
    assert_eq!(map.get(0), PieceState::Needed);
    // Can claim again after retry.
    assert!(map.try_claim(0));
}

/// `retry_failed` returns `false` for non-failed pieces.
#[test]
fn piece_map_retry_non_failed_returns_false() {
    let mut map = SharedPieceMap::new(1);
    assert!(!map.retry_failed(0)); // Needed, not Failed
    map.try_claim(0);
    assert!(!map.retry_failed(0)); // InFlight, not Failed
    map.mark_done(0);
    assert!(!map.retry_failed(0)); // Done, not Failed
}

/// `next_needed` returns the first `Needed` piece.
#[test]
fn piece_map_next_needed_sequential() {
    let mut map = SharedPieceMap::new(3);
    assert_eq!(map.next_needed(), Some(0));
    map.try_claim(0);
    assert_eq!(map.next_needed(), Some(1));
    map.try_claim(1);
    map.try_claim(2);
    assert_eq!(map.next_needed(), None); // all InFlight
}

/// Out-of-bounds piece index access is safe.
#[test]
fn piece_map_out_of_bounds_safe() {
    let mut map = SharedPieceMap::new(1);
    assert_eq!(map.get(999), PieceState::Needed);
    assert!(!map.try_claim(999));
    map.mark_done(999); // no-op, no panic
    map.mark_failed(999); // no-op, no panic
    assert!(!map.retry_failed(999));
}

/// Zero-piece map is immediately complete.
#[test]
fn piece_map_zero_pieces_is_complete() {
    let mut map = SharedPieceMap::new(0);
    assert_eq!(map.piece_count(), 0);
    assert!(map.is_complete());
    assert_eq!(map.done_count(), 0);
    assert!(map.next_needed().is_none());
}

/// `from_verified` with empty slice and zero pieces.
#[test]
fn piece_map_from_verified_empty() {
    let mut map = SharedPieceMap::from_verified(0, &[]);
    assert!(map.is_complete());
    assert_eq!(map.done_count(), 0);
}

/// Multiple state transitions cycle correctly.
#[test]
fn piece_map_full_lifecycle() {
    let mut map = SharedPieceMap::new(1);
    assert_eq!(map.get(0), PieceState::Needed);

    assert!(map.try_claim(0));
    assert_eq!(map.get(0), PieceState::InFlight);

    map.mark_failed(0);
    assert_eq!(map.get(0), PieceState::Failed);

    assert!(map.retry_failed(0));
    assert_eq!(map.get(0), PieceState::Needed);

    assert!(map.try_claim(0));
    assert_eq!(map.get(0), PieceState::InFlight);

    map.mark_done(0);
    assert_eq!(map.get(0), PieceState::Done);
    assert!(map.is_complete());
}

/// Values and states go together.
#[test]
fn piece_state_values() {
    for v in 0..4u8 {
        assert_eq!(PieceState::from_u8(v).to_u8(), v);
    }
    assert_eq!(PieceState::from_u8(200).to_u8(), 0);
}

/// Verified pieces are done, all others needed.
#[test]
fn piece_map_from_verified_list() {
    let map = SharedPieceMap::from_verified(4, &[true, false, true]);
    assert_eq!(map.done_count(), 2);
    assert_eq!(map.next_needed(), Some(1));
    assert_eq!(map.get(3), PieceState::Needed);
    // More than enough entries do no harm.
    let map = SharedPieceMap::from_verified(1, &[true, true]);
    assert!(map.is_complete());
}

/// Of many claims in any order one gets each needed piece.
#[test]
fn one_claim_wins() {
    let mut map = SharedPieceMap::new(4);
    map.mark_done(3);
    let mut won = [0; 4];
    for index in [2, 0, 2, 9, 0, 3, 2, 0, 3, 0] {
        if map.try_claim(index) {
            won[index as usize] += 1;
        }
    }
    assert_eq!(won, [1, 0, 1, 0]);
    assert_eq!(map.get(0), PieceState::InFlight);
    assert_eq!(map.get(1), PieceState::Needed);
    assert_eq!(map.get(2), PieceState::InFlight);
    assert_eq!(map.get(3), PieceState::Done);
}
