//! Piece validation: hash check, search for corrupt parts of a piece,
//! quarantine and retries.
//!
//! [`PieceValidator`] checks a piece against its SHA-1 hash. Of a large piece
//! that was valid once it keeps the Merkle tree, so that later data for the
//! piece can be told apart leaf by leaf: only the corrupt leaves need to be
//! fetched again. Pieces that failed wait in quarantine with the peer that
//! sent them, and are handed out for retry in order until their retries are
//! used up.

use std::collections::HashMap;

use vstd::prelude::*;

use crate::codec::slices_equal;
use crate::digest::sha1;
use crate::digest::sha1_digest;
use crate::digest::sha256_digest;
use crate::merkle::is_corrupt;
use crate::merkle::leaf_hashes;
use crate::merkle::leaf_of;
use crate::merkle::leaf_total;
use crate::merkle::MerkleTree;
use crate::merkle::LEAF_SIZE;
use crate::merkle::MIN_PIECE_SIZE_FOR_MERKLE;
use crate::torrent_info::TorrentInfo;

verus! {

broadcast use vstd::std_specs::hash::group_hash_axioms;

/// Default maximum retries per piece before permanent failure.
pub const DEFAULT_MAX_RETRIES: u32 = 3;

// ── Configuration and results ───────────────────────────────────────

/// Configuration for piece validation behaviour.
#[derive(Debug, Clone, Copy)]
pub struct ValidatorConfig {
    /// Maximum times a piece can be retried before permanent failure.
    pub max_retries: u32,
    /// Whether to look for corrupt leaves of large pieces.
    pub use_merkle: bool,
}

impl Default for ValidatorConfig {
    fn default() -> (r: ValidatorConfig)
        ensures
            r == (ValidatorConfig { max_retries: DEFAULT_MAX_RETRIES, use_merkle: true }),
    {
        ValidatorConfig { max_retries: DEFAULT_MAX_RETRIES, use_merkle: true }
    }
}

/// Result of validating a piece's data against expected hashes.
#[derive(Debug, Clone, PartialEq, Eq)]
pub enum ValidationResult {
    /// Piece data matches the expected SHA-1 hash.
    Valid,
    /// Piece data does not match.
    Invalid {
        /// Indices of corrupt 256 KiB leaves within the piece. Empty if the
        /// piece was too small, the search was disabled, or no valid data for
        /// the piece has been seen to compare with.
        corrupt_leaves: Vec<usize>,
    },
}

/// A piece awaiting re-download after validation failure.
#[derive(Debug, Clone)]
pub struct QuarantineEntry {
    /// Which piece failed validation.
    pub piece_index: u32,
    /// Peer that provided the corrupt data.
    pub source_peer: usize,
    /// How many times this piece has been retried so far.
    pub retry_count: u32,
    /// Corrupt leaf indices (for sub-piece re-download).
    pub corrupt_leaves: Vec<usize>,
}

/// What should happen next for a quarantined piece.
#[derive(Debug, Clone, PartialEq, Eq)]
pub enum RetryDecision {
    /// The piece should be retried from a different peer.
    Retry {
        /// Which piece to retry.
        piece_index: u32,
        /// Peer to avoid (the one that sent corrupt data).
        avoid_peer: usize,
        /// Corrupt leaves to re-request (empty = whole piece).
        corrupt_leaves: Vec<usize>,
    },
    /// The piece has exceeded its retry budget.
    PermanentFailure {
        /// Which piece failed permanently.
        piece_index: u32,
    },
}

// ── Model ───────────────────────────────────────────────────────────

/// A quarantine entry.
#[verifier::ext_equal]
pub struct QuarantineView {
    /// Which piece failed validation.
    pub piece_index: u32,
    /// Peer that provided the corrupt data.
    pub source_peer: usize,
    /// How many times this piece has been retried so far.
    pub retry_count: u32,
    /// Corrupt leaf indices.
    pub corrupt_leaves: Seq<usize>,
}

/// What a quarantined piece comes to.
#[verifier::ext_equal]
pub enum DecisionView {
    /// The piece is retried.
    Retry {
        /// Which piece to retry.
        piece_index: u32,
        /// Peer to avoid.
        avoid_peer: usize,
        /// Corrupt leaves to re-request.
        corrupt_leaves: Seq<usize>,
    },
    /// The piece failed for good.
    PermanentFailure {
        /// Which piece failed.
        piece_index: u32,
    },
}

/// The pieces that failed, and what became of them.
#[verifier::ext_equal]
pub struct RetryState {
    /// Pieces in quarantine, first in first.
    pub quarantine: Seq<QuarantineView>,
    /// Pieces that failed for good, in order.
    pub failures: Seq<u32>,
    /// How many of its retries a piece had used when it last left quarantine.
    pub used: Map<u32, u32>,
}

impl View for QuarantineEntry {
    type V = QuarantineView;

    open spec fn view(&self) -> QuarantineView {
        QuarantineView {
            piece_index: self.piece_index,
            source_peer: self.source_peer,
            retry_count: self.retry_count,
            corrupt_leaves: self.corrupt_leaves@,
        }
    }
}

impl View for RetryDecision {
    type V = DecisionView;

    open spec fn view(&self) -> DecisionView {
        match *self {
            RetryDecision::Retry { piece_index, avoid_peer, corrupt_leaves } => {
                DecisionView::Retry { piece_index, avoid_peer, corrupt_leaves: corrupt_leaves@ }
            },
            RetryDecision::PermanentFailure { piece_index } => DecisionView::PermanentFailure {
                piece_index,
            },
        }
    }
}

/// A decision that may be missing.
pub open spec fn decision_view(decision: Option<RetryDecision>) -> Option<DecisionView> {
    match decision {
        Some(d) => Some(d@),
        None => None,
    }
}

/// The entries of a list.
pub open spec fn entry_views(entries: Seq<QuarantineEntry>) -> Seq<QuarantineView> {
    Seq::new(entries.len(), |i: int| entries[i]@)
}

/// The data has the hash that the torrent gives for the piece.
pub open spec fn matches_hash(info: TorrentInfo, piece_index: u32, data: Seq<u8>) -> bool {
    info.expected_hash(piece_index) == Some(sha1_digest(data))
}

/// Whether leaves of the data are looked at.
pub open spec fn searches_leaves(config: ValidatorConfig, data: Seq<u8>) -> bool {
    config.use_merkle && data.len() >= MIN_PIECE_SIZE_FOR_MERKLE
}

/// `found` lists the corrupt leaves of the data in ascending order, measured by
/// the leaf hashes that are known, none if there are none.
pub open spec fn lists_corrupt_leaves(
    found: Seq<usize>,
    known: Option<Seq<Seq<u8>>>,
    data: Seq<u8>,
) -> bool {
    match known {
        Some(leaves) => {
            &&& forall|a: int, b: int|
                0 <= a < b < found.len() ==> #[trigger] found[a] < #[trigger] found[b]
            &&& forall|i: usize| #[trigger]
                found.contains(i) <==> is_corrupt(leaves, data, i as int)
        },
        None => found == Seq::<usize>::empty(),
    }
}

/// Entry `i` is that of a piece.
pub open spec fn is_entry_of(
    quarantine: Seq<QuarantineView>,
    piece_index: u32,
    i: int,
) -> bool {
    0 <= i < quarantine.len() && quarantine[i].piece_index == piece_index
}

/// No piece is in quarantine twice.
pub open spec fn pieces_differ(quarantine: Seq<QuarantineView>) -> bool {
    forall|i: int, j: int|
        0 <= i < j < quarantine.len() ==> (#[trigger] quarantine[i]).piece_index != (
        #[trigger] quarantine[j]).piece_index
}

/// How many of its retries a piece has used.
pub open spec fn used_by(used: Map<u32, u32>, piece_index: u32) -> u32 {
    if used.contains_key(piece_index) {
        used[piece_index]
    } else {
        0
    }
}

/// One more, up to the largest number there is.
pub open spec fn one_more(n: u32) -> u32 {
    if n < u32::MAX {
        (n + 1) as u32
    } else {
        u32::MAX
    }
}

/// The state after a piece went to quarantine. A piece that is there already
/// has used one more retry.
pub open spec fn quarantined(
    state: RetryState,
    piece_index: u32,
    source_peer: usize,
    corrupt_leaves: Seq<usize>,
) -> RetryState {
    let q = state.quarantine;
    let i = choose|i: int| is_entry_of(q, piece_index, i);
    let quarantine = if exists|i: int| is_entry_of(q, piece_index, i) {
        q.update(
            i,
            QuarantineView {
                piece_index,
                source_peer,
                retry_count: one_more(q[i].retry_count),
                corrupt_leaves,
            },
        )
    } else {
        q.push(
            QuarantineView {
                piece_index,
                source_peer,
                retry_count: used_by(state.used, piece_index),
                corrupt_leaves,
            },
        )
    };
    RetryState { quarantine, ..state }
}

/// What becomes of the piece that is first in quarantine.
pub open spec fn decision(state: RetryState, max_retries: u32) -> Option<DecisionView> {
    if state.quarantine.len() == 0 {
        None
    } else {
        let first = state.quarantine[0];
        if first.retry_count >= max_retries {
            Some(DecisionView::PermanentFailure { piece_index: first.piece_index })
        } else {
            Some(
                DecisionView::Retry {
                    piece_index: first.piece_index,
                    avoid_peer: first.source_peer,
                    corrupt_leaves: first.corrupt_leaves,
                },
            )
        }
    }
}

/// The state after that decision.
pub open spec fn decided(state: RetryState, max_retries: u32) -> RetryState {
    if state.quarantine.len() == 0 {
        state
    } else {
        let first = state.quarantine[0];
        let quarantine = state.quarantine.remove(0);
        if first.retry_count >= max_retries {
            RetryState {
                quarantine,
                failures: state.failures.push(first.piece_index),
                used: state.used.insert(first.piece_index, first.retry_count),
            }
        } else {
            RetryState {
                quarantine,
                failures: state.failures,
                used: state.used.insert(first.piece_index, one_more(first.retry_count)),
            }
        }
    }
}

// ── PieceValidator ──────────────────────────────────────────────────

/// Piece validator with leaf search and quarantine.
#[derive(Debug)]
pub struct PieceValidator {
    info: TorrentInfo,
    config: ValidatorConfig,
    quarantine: Vec<QuarantineEntry>,
    permanent_failures: Vec<u32>,
    used_retries: HashMap<u32, u32>,
    merkle_cache: HashMap<u32, MerkleTree>,
}

/// The pieces that failed, and what became of them.
impl View for PieceValidator {
    type V = RetryState;

    closed spec fn view(&self) -> RetryState {
        RetryState {
            quarantine: entry_views(self.quarantine@),
            failures: self.permanent_failures@,
            used: self.used_retries@,
        }
    }
}

impl QuarantineEntry {
    /// Returns the piece index.
    pub fn piece_index(&self) -> (r: u32)
        ensures
            r == self@.piece_index,
    {
        self.piece_index
    }

    /// Returns the peer index that provided corrupt data.
    pub fn source_peer(&self) -> (r: usize)
        ensures
            r == self@.source_peer,
    {
        self.source_peer
    }

    /// Returns the number of retries so far.
    pub fn retry_count(&self) -> (r: u32)
        ensures
            r == self@.retry_count,
    {
        self.retry_count
    }

    /// Returns the corrupt leaf indices (empty if none are known).
    pub fn corrupt_leaves(&self) -> (r: &[usize])
        ensures
            r@ == self@.corrupt_leaves,
    {
        self.corrupt_leaves.as_slice()
    }
}

impl PieceValidator {
    /// No piece is in quarantine twice, and the trees are well-formed.
    pub closed spec fn wf(self) -> bool {
        &&& pieces_differ(entry_views(self.quarantine@))
        &&& forall|i: u32| #[trigger]
            self.merkle_cache@.contains_key(i) ==> self.merkle_cache@[i].wf()
    }

    /// The torrent.
    pub closed spec fn torrent(self) -> TorrentInfo {
        self.info
    }

    /// The configuration.
    pub closed spec fn settings(self) -> ValidatorConfig {
        self.config
    }

    /// The leaf hashes of a piece, if valid data for it has been seen.
    pub closed spec fn known_leaves(self, piece_index: u32) -> Option<Seq<Seq<u8>>> {
        if self.merkle_cache@.contains_key(piece_index) {
            Some(self.merkle_cache@[piece_index]@)
        } else {
            None
        }
    }

    /// Creates a new validator for the given torrent.
    pub fn new(info: TorrentInfo, config: ValidatorConfig) -> (r: PieceValidator)
        ensures
            r.wf(),
            r.torrent() == info,
            r.settings() == config,
            r@ == (RetryState {
                quarantine: Seq::empty(),
                failures: Seq::empty(),
                used: Map::empty(),
            }),
            forall|i: u32| #[trigger] r.known_leaves(i) is None,
    {
        let r = PieceValidator {
            info,
            config,
            quarantine: Vec::new(),
            permanent_failures: Vec::new(),
            used_retries: HashMap::new(),
            merkle_cache: HashMap::new(),
        };
        assert(r@.quarantine == Seq::<QuarantineView>::empty());
        assert(r@.used == Map::<u32, u32>::empty());
        r
    }

    /// Creates a validator with default configuration.
    pub fn with_defaults(info: TorrentInfo) -> (r: PieceValidator)
        ensures
            r.wf(),
            r.torrent() == info,
            r.settings() == (ValidatorConfig {
                max_retries: DEFAULT_MAX_RETRIES,
                use_merkle: true,
            }),
            r@ == (RetryState {
                quarantine: Seq::empty(),
                failures: Seq::empty(),
                used: Map::empty(),
            }),
            forall|i: u32| #[trigger] r.known_leaves(i) is None,
    {
        PieceValidator::new(info, ValidatorConfig::default())
    }

    /// Validates piece data against the expected SHA-1 hash.
    ///
    /// A piece that does not exist is never valid. Of large pieces that are not
    /// valid the corrupt leaves are told, if valid data for the piece has been
    /// seen before.
    pub fn validate_piece(&mut self, piece_index: u32, data: &[u8]) -> (r: ValidationResult)
        requires
            old(self).wf(),
        ensures
            final(self).wf(),
            final(self)@ == old(self)@,
            final(self).torrent() == old(self).torrent(),
            final(self).settings() == old(self).settings(),
            match r {
                ValidationResult::Valid => matches_hash(old(self).torrent(), piece_index, data@),
                ValidationResult::Invalid { corrupt_leaves } => {
                    &&& !matches_hash(old(self).torrent(), piece_index, data@)
                    &&& if searches_leaves(old(self).settings(), data@) && old(
                        self,
                    ).torrent().expected_hash(piece_index) is Some {
                        lists_corrupt_leaves(
                            corrupt_leaves@,
                            old(self).known_leaves(piece_index),
                            data@,
                        )
                    } else {
                        corrupt_leaves@ == Seq::<usize>::empty()
                    }
                },
            },
            forall|i: u32| #[trigger]
                final(self).known_leaves(i) == if i == piece_index && old(self).known_leaves(
                    i,
                ) is None && matches_hash(old(self).torrent(), piece_index, data@)
                    && searches_leaves(old(self).settings(), data@) {
                    Some(leaf_hashes(data@))
                } else {
                    old(self).known_leaves(i)
                },
    {
        let matching = match self.info.piece_hash(piece_index) {
            Some(expected) => {
                let actual = sha1(data);
                slices_equal(&actual, expected)
            },
            None => {
                return ValidationResult::Invalid { corrupt_leaves: Vec::new() };
            },
        };
        let search = self.config.use_merkle && data.len() >= MIN_PIECE_SIZE_FOR_MERKLE;
        if matching {
            if search && !self.merkle_cache.contains_key(&piece_index) {
                let tree = MerkleTree::build(data);
                self.merkle_cache.insert(piece_index, tree);
            }
            return ValidationResult::Valid;
        }
        let corrupt_leaves: Vec<usize> = if search {
            self.find_corrupt_leaves(piece_index, data)
        } else {
            Vec::new()
        };
        ValidationResult::Invalid { corrupt_leaves }
    }

    /// Finds the leaves that differ from the tree that is kept for the piece.
    fn find_corrupt_leaves(&self, piece_index: u32, data: &[u8]) -> (r: Vec<usize>)
        requires
            self.wf(),
        ensures
            lists_corrupt_leaves(r@, self.known_leaves(piece_index), data@),
    {
        match self.merkle_cache.get(&piece_index) {
            Some(tree) => tree.find_corrupt_leaves(data),
            None => Vec::new(),
        }
    }

    /// Adds a piece to the quarantine list for re-download.
    ///
    /// If the piece is already quarantined, increments the retry count. A piece
    /// that was retried before comes back with the retries that it has used.
    pub fn quarantine(&mut self, piece_index: u32, source_peer: usize, corrupt_leaves: Vec<usize>)
        requires
            old(self).wf(),
        ensures
            final(self).wf(),
            final(self)@ == quarantined(
                old(self)@,
                piece_index,
                source_peer,
                corrupt_leaves@,
            ),
            final(self).torrent() == old(self).torrent(),
            final(self).settings() == old(self).settings(),
            forall|i: u32| #[trigger] final(self).known_leaves(i) == old(self).known_leaves(i),
    {
        let ghost q = self@.quarantine;
        let mut i: usize = 0;
        while i < self.quarantine.len()
            invariant
                self.wf(),
                *self == *old(self),
                q == self@.quarantine,
                i <= self.quarantine@.len(),
                forall|k: int| 0 <= k < i ==> !is_entry_of(q, piece_index, k),
            decreases self.quarantine@.len() - i,
        {
            if self.quarantine[i].piece_index == piece_index {
                assert(is_entry_of(q, piece_index, i as int));
                let count: u32 = self.quarantine[i].retry_count.saturating_add(1);
                let entry = QuarantineEntry {
                    piece_index,
                    source_peer,
                    retry_count: count,
                    corrupt_leaves,
                };
                self.quarantine.set(i, entry);
                proof {
                    let k = choose|k: int| is_entry_of(q, piece_index, k);
                    assert(k == i);
                    assert(self@.quarantine == q.update(i as int, entry@));
                    assert(self@ == quarantined(
                        old(self)@,
                        piece_index,
                        source_peer,
                        corrupt_leaves@,
                    ));
                }
                return ;
            }
            i += 1;
        }
        let used: u32 = match self.used_retries.get(&piece_index) {
            Some(n) => *n,
            None => 0,
        };
        let entry = QuarantineEntry {
            piece_index,
            source_peer,
            retry_count: used,
            corrupt_leaves,
        };
        self.quarantine.push(entry);
        proof {
            assert forall|k: int| !is_entry_of(q, piece_index, k) by {}
            assert(self@.quarantine == q.push(entry@));
            assert(self@ == quarantined(old(self)@, piece_index, source_peer, corrupt_leaves@));
            assert forall|a: int, b: int|
                0 <= a < b < self@.quarantine.len() implies self@.quarantine[a].piece_index
                != self@.quarantine[b].piece_index by {
                assert(!is_entry_of(q, piece_index, a));
                if b < q.len() {
                    assert(q[a].piece_index != q[b].piece_index);
                }
            }
        }
    }

    /// Returns the next quarantined piece that should be retried, and removes it
    /// from quarantine. Returns `PermanentFailure` if the retry budget is
    /// exhausted.
    pub fn next_retry(&mut self) -> (r: Option<RetryDecision>)
        requires
            old(self).wf(),
        ensures
            final(self).wf(),
            decision_view(r) == decision(old(self)@, old(self).settings().max_retries),
            final(self)@ == decided(old(self)@, old(self).settings().max_retries),
            final(self).torrent() == old(self).torrent(),
            final(self).settings() == old(self).settings(),
            forall|i: u32| #[trigger] final(self).known_leaves(i) == old(self).known_leaves(i),
    {
        if self.quarantine.len() == 0 {
            return None;
        }
        let ghost q = self@.quarantine;
        let entry = self.quarantine.remove(0);
        proof {
            assert(entry@ == q[0]);
            assert(self@.quarantine == q.remove(0));
            assert forall|a: int, b: int|
                0 <= a < b < self@.quarantine.len() implies self@.quarantine[a].piece_index
                != self@.quarantine[b].piece_index by {
                assert(q[a + 1].piece_index != q[b + 1].piece_index);
            }
        }
        if entry.retry_count >= self.config.max_retries {
            self.permanent_failures.push(entry.piece_index);
            self.used_retries.insert(entry.piece_index, entry.retry_count);
            return Some(RetryDecision::PermanentFailure { piece_index: entry.piece_index });
        }
        self.used_retries.insert(entry.piece_index, entry.retry_count + 1);
        Some(
            RetryDecision::Retry {
                piece_index: entry.piece_index,
                avoid_peer: entry.source_peer,
                corrupt_leaves: entry.corrupt_leaves,
            },
        )
    }

    /// Returns the number of pieces currently in quarantine.
    pub fn quarantine_count(&self) -> (r: usize)
        ensures
            r == self@.quarantine.len(),
    {
        self.quarantine.len()
    }

    /// Returns the list of permanently failed piece indices.
    pub fn permanent_failures(&self) -> (r: &[u32])
        ensures
            r@ == self@.failures,
    {
        self.permanent_failures.as_slice()
    }

    /// Returns whether a piece has permanently failed.
    pub fn is_permanently_failed(&self, piece_index: u32) -> (r: bool)
        ensures
            r == self@.failures.contains(piece_index),
    {
        let mut i: usize = 0;
        while i < self.permanent_failures.len()
            invariant
                i <= self.permanent_failures@.len(),
                forall|k: int| 0 <= k < i ==> self.permanent_failures@[k] != piece_index,
            decreases self.permanent_failures@.len() - i,
        {
            if self.permanent_failures[i] == piece_index {
                return true;
            }
            i += 1;
        }
        false
    }

    /// Returns the configured maximum retries per piece.
    pub fn max_retries(&self) -> (r: u32)
        ensures
            r == self.settings().max_retries,
    {
        self.config.max_retries
    }

    /// Returns a reference to the torrent info.
    pub fn info(&self) -> (r: &TorrentInfo)
        ensures
            *r == self.torrent(),
    {
        &self.info
    }

    /// Returns the number of 256 KiB leaves in a piece, 0 for a piece that does
    /// not exist.
    pub fn leaf_count_for_piece(&self, piece_index: u32) -> (r: usize)
        requires
            leaf_total(self.torrent().size_of_piece(piece_index)) <= usize::MAX,
        ensures
            r == leaf_total(self.torrent().size_of_piece(piece_index)),
    {
        let size: u64 = self.info.piece_size(piece_index);
        let whole: u64 = size / (LEAF_SIZE as u64);
        let leaves: u64 = if size % (LEAF_SIZE as u64) == 0 {
            whole
        } else {
            whole + 1
        };
        leaves as usize
    }
}

// ── Laws ────────────────────────────────────────────────────────────

/// The pieces in quarantine carry at least the retries that they have used.
pub open spec fn counts_are_carried(state: RetryState) -> bool {
    forall|i: int|
        0 <= i < state.quarantine.len() ==> (#[trigger] state.quarantine[i]).retry_count >= used_by(
            state.used,
            state.quarantine[i].piece_index,
        )
}

/// Nothing that happens to a validator makes a piece forget its retries.
pub proof fn law_retries_are_remembered(
    state: RetryState,
    max_retries: u32,
    piece_index: u32,
    source_peer: usize,
    corrupt_leaves: Seq<usize>,
)
    requires
        pieces_differ(state.quarantine),
        counts_are_carried(state),
    ensures
        counts_are_carried(quarantined(state, piece_index, source_peer, corrupt_leaves)),
        counts_are_carried(decided(state, max_retries)),
{
    let q = state.quarantine;
    let after = quarantined(state, piece_index, source_peer, corrupt_leaves);
    if exists|i: int| is_entry_of(q, piece_index, i) {
        let i = choose|i: int| is_entry_of(q, piece_index, i);
        assert forall|k: int| 0 <= k < after.quarantine.len() implies (
        #[trigger] after.quarantine[k]).retry_count >= used_by(
            after.used,
            after.quarantine[k].piece_index,
        ) by {
            assert(q[k].retry_count >= used_by(state.used, q[k].piece_index));
        }
    } else {
        assert forall|k: int| 0 <= k < after.quarantine.len() implies (
        #[trigger] after.quarantine[k]).retry_count >= used_by(
            after.used,
            after.quarantine[k].piece_index,
        ) by {
            if k < q.len() {
                assert(q[k].retry_count >= used_by(state.used, q[k].piece_index));
            }
        }
    }
    if q.len() > 0 {
        let next = decided(state, max_retries);
        assert forall|k: int| 0 <= k < next.quarantine.len() implies (
        #[trigger] next.quarantine[k]).retry_count >= used_by(
            next.used,
            next.quarantine[k].piece_index,
        ) by {
            assert(next.quarantine[k] == q[k + 1]);
            assert(q[0].piece_index != q[k + 1].piece_index);
            assert(q[k + 1].retry_count >= used_by(state.used, q[k + 1].piece_index));
        }
    }
}

/// Each retry that is handed out for a piece uses one up, and none is handed out
/// once all are used: a piece is retried at most `max_retries` times.
pub proof fn law_retry_budget(state: RetryState, max_retries: u32)
    requires
        counts_are_carried(state),
    ensures
        match decision(state, max_retries) {
            Some(DecisionView::Retry { piece_index, .. }) => {
                &&& used_by(state.used, piece_index) < max_retries
                &&& used_by(state.used, piece_index) < used_by(
                    decided(state, max_retries).used,
                    piece_index,
                ) <= max_retries
            },
            Some(DecisionView::PermanentFailure { piece_index }) => {
                &&& decided(state, max_retries).failures.contains(piece_index)
                &&& used_by(decided(state, max_retries).used, piece_index) >= max_retries
            },
            None => state.quarantine.len() == 0,
        },
{
    if state.quarantine.len() > 0 {
        let first = state.quarantine[0];
        let next = decided(state, max_retries);
        assert(first.retry_count >= used_by(state.used, first.piece_index));
        if first.retry_count >= max_retries {
            assert(next.failures[next.failures.len() - 1] == first.piece_index);
        }
    }
}

/// A piece that comes to an empty quarantine is the next that is decided on,
/// with what it was put there with.
pub proof fn law_quarantine_gives_back(
    state: RetryState,
    max_retries: u32,
    piece_index: u32,
    source_peer: usize,
    corrupt_leaves: Seq<usize>,
)
    requires
        state.quarantine.len() == 0,
        used_by(state.used, piece_index) < max_retries,
    ensures
        decision(quarantined(state, piece_index, source_peer, corrupt_leaves), max_retries) == Some(
            DecisionView::Retry { piece_index, avoid_peer: source_peer, corrupt_leaves },
        ),
{
    assert forall|i: int| !is_entry_of(state.quarantine, piece_index, i) by {}
}

/// Quarantine keeps order: what a piece is followed by stays behind it.
pub proof fn law_quarantine_is_in_order(
    state: RetryState,
    piece_index: u32,
    source_peer: usize,
    corrupt_leaves: Seq<usize>,
    i: int,
)
    requires
        0 <= i < state.quarantine.len(),
    ensures
        quarantined(
            state,
            piece_index,
            source_peer,
            corrupt_leaves,
        ).quarantine[i].piece_index == state.quarantine[i].piece_index,
{
}

/// A leaf is reported exactly if its hash differs from that of the same leaf of
/// the data that the piece is measured by.
pub proof fn law_corrupt_leaves_are_found(
    found: Seq<usize>,
    valid: Seq<u8>,
    data: Seq<u8>,
    i: usize,
)
    requires
        lists_corrupt_leaves(found, Some(leaf_hashes(valid)), data),
        i < leaf_total(valid.len() as int),
        i < leaf_total(data.len() as int),
    ensures
        found.contains(i) <==> sha256_digest(leaf_of(data, i as int)) != sha256_digest(
            leaf_of(valid, i as int),
        ),
{
    assert(found.contains(i) <==> is_corrupt(leaf_hashes(valid), data, i as int));
}

/// Data that is as valid as the data that a piece is measured by has no corrupt
/// leaf, and nothing is reported for it.
pub proof fn law_no_leaf_of_known_data_is_corrupt(found: Seq<usize>, data: Seq<u8>)
    requires
        lists_corrupt_leaves(found, Some(leaf_hashes(data)), data),
    ensures
        found == Seq::<usize>::empty(),
{
    if found.len() > 0 {
        assert(found.contains(found[0]));
        assert(is_corrupt(leaf_hashes(data), data, found[0] as int));
    }
}

/// The piece that has waited longest is decided on: retried, away from the peer
/// that gave it, as long as it has retries left, and given up otherwise. It
/// leaves quarantine, and nothing is done to other pieces.
pub proof fn law_first_is_decided(state: RetryState, max_retries: u32, other: u32)
    requires
        state.quarantine.len() > 0,
    ensures
        ({
            let first = state.quarantine[0];
            let next = decided(state, max_retries);
            &&& next.quarantine == state.quarantine.skip(1)
            &&& first.retry_count < max_retries ==> {
                &&& decision(state, max_retries) == Some(
                    DecisionView::Retry {
                        piece_index: first.piece_index,
                        avoid_peer: first.source_peer,
                        corrupt_leaves: first.corrupt_leaves,
                    },
                )
                &&& next.failures == state.failures
                &&& next.used.contains_key(first.piece_index)
                &&& next.used[first.piece_index] == first.retry_count + 1
            }
            &&& first.retry_count >= max_retries ==> {
                &&& decision(state, max_retries) == Some(
                    DecisionView::PermanentFailure { piece_index: first.piece_index },
                )
                &&& next.failures == state.failures.push(first.piece_index)
                &&& next.used.contains_key(first.piece_index)
                &&& next.used[first.piece_index] == first.retry_count
            }
            &&& other != first.piece_index ==> next.used.contains_key(other)
                == state.used.contains_key(other) && next.used[other] == state.used[other]
        }),
{
    assert(state.quarantine.remove(0) == state.quarantine.skip(1));
}

/// A piece that comes to quarantine is put behind the others, with the retries
/// that it has used before. One that is there stays in its place, has used one
/// more, and is known by what was found last.
pub proof fn law_piece_is_quarantined(
    state: RetryState,
    piece_index: u32,
    source_peer: usize,
    corrupt_leaves: Seq<usize>,
    i: int,
    k: int,
)
    requires
        pieces_differ(state.quarantine),
        0 <= k < state.quarantine.len(),
    ensures
        ({
            let q = state.quarantine;
            let after = quarantined(state, piece_index, source_peer, corrupt_leaves);
            &&& after.failures == state.failures && after.used == state.used
            &&& q[k].piece_index != piece_index ==> after.quarantine[k] == q[k]
            &&& 0 <= i < q.len() && q[i].piece_index == piece_index ==> {
                &&& after.quarantine.len() == q.len()
                &&& after.quarantine[i].piece_index == piece_index
                &&& after.quarantine[i].source_peer == source_peer
                &&& after.quarantine[i].corrupt_leaves == corrupt_leaves
                &&& q[i].retry_count < u32::MAX ==> after.quarantine[i].retry_count
                    == q[i].retry_count + 1
                &&& q[i].retry_count == u32::MAX ==> after.quarantine[i].retry_count == u32::MAX
            }
        }),
{
    let q = state.quarantine;
    if 0 <= i < q.len() && q[i].piece_index == piece_index {
        assert(is_entry_of(q, piece_index, i));
        let j = choose|j: int| is_entry_of(q, piece_index, j);
        assert(is_entry_of(q, piece_index, j));
        assert(i == j);
    }
}

/// A piece that is not in quarantine comes in behind the others, with the
/// retries that it has used before.
pub proof fn law_new_piece_comes_last(
    state: RetryState,
    piece_index: u32,
    source_peer: usize,
    corrupt_leaves: Seq<usize>,
)
    requires
        forall|k: int|
            0 <= k < state.quarantine.len() ==> (#[trigger] state.quarantine[k]).piece_index
                != piece_index,
    ensures
        ({
            let after = quarantined(state, piece_index, source_peer, corrupt_leaves).quarantine;
            &&& after.len() == state.quarantine.len() + 1
            &&& after.drop_last() == state.quarantine
            &&& after.last().piece_index == piece_index
            &&& after.last().source_peer == source_peer
            &&& after.last().corrupt_leaves == corrupt_leaves
            &&& state.used.contains_key(piece_index) ==> after.last().retry_count
                == state.used[piece_index]
            &&& !state.used.contains_key(piece_index) ==> after.last().retry_count == 0
        }),
{
    assert forall|k: int| !is_entry_of(state.quarantine, piece_index, k) by {}
    assert(quarantined(state, piece_index, source_peer, corrupt_leaves).quarantine.drop_last()
        == state.quarantine);
}

/// A piece is valid if its SHA-1 hash is the one in its place of the torrent's
/// hashes; leaves are looked at in pieces of 1 MiB and more, where that is asked
/// for.
pub proof fn law_what_is_valid(info: TorrentInfo, config: ValidatorConfig, i: u32, data: Seq<u8>)
    ensures
        matches_hash(info, i, data) <==> 20 * i + 20 <= info.piece_hashes@.len()
            && info.piece_hashes@.subrange(20 * i, 20 * i + 20) == sha1_digest(data),
        searches_leaves(config, data) <==> config.use_merkle && data.len() >= 1_048_576,
{
}

/// Without known leaves nothing is reported; with them, what is reported ascends,
/// and is what both sides have and differs.
pub proof fn law_reported_leaves(
    found: Seq<usize>,
    leaves: Seq<Seq<u8>>,
    data: Seq<u8>,
    a: int,
    b: int,
)
    ensures
        lists_corrupt_leaves(found, None, data) ==> found.len() == 0,
        lists_corrupt_leaves(found, Some(leaves), data) && 0 <= a < b < found.len() ==> found[a]
            < found[b],
        lists_corrupt_leaves(found, Some(leaves), data) && 0 <= a < found.len() ==> found[a]
            < leaves.len() && found[a] * 262_144 < data.len() && sha256_digest(
            leaf_of(data, found[a] as int),
        ) != leaves[found[a] as int],
{
    if lists_corrupt_leaves(found, Some(leaves), data) && 0 <= a < found.len() {
        assert(found.contains(found[a]));
        assert(is_corrupt(leaves, data, found[a] as int));
    }
}

/// A piece is usually retried three times.
pub proof fn law_limits()
    ensures
        DEFAULT_MAX_RETRIES == 3,
{
}

} // verus!
