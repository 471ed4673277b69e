//! Peer lifecycle pool: connection limits, eviction, reconnection backoff and
//! ranking by score.
//!
//! [`PeerPool`] keeps a bounded set of active peers. It remembers peers that
//! disconnected and lets them back in after a delay that doubles with each
//! disconnection, never lets banned peers back in, and makes room for new
//! peers by evicting the worst active peer that scores too low.

use vstd::prelude::*;

use crate::codec::arrays_equal;
use crate::list::retain;
use crate::rank::arranged;
use crate::rank::is_ranked_by;
use crate::rank::is_stable_order;
use crate::rank::stable_order;
use crate::text::decimal;
use crate::text::push_decimal;
use crate::time::elapsed;
use crate::time::Duration;
use crate::time::Instant;

verus! {

/// Default maximum number of active peers.
pub const DEFAULT_MAX_PEERS: usize = 55;

/// Initial reconnection backoff, in seconds.
pub const INITIAL_BACKOFF_SECS: u64 = 5;

/// Maximum reconnection backoff, in seconds.
pub const MAX_BACKOFF_SECS: u64 = 300;

/// Score below which a peer is considered for eviction.
pub const EVICTION_SCORE_THRESHOLD: u64 = 100;

/// Minimum time a peer must be active before it can be evicted, in seconds.
pub const MIN_ACTIVE_SECS: u64 = 30;

// ── Configuration ───────────────────────────────────────────────────

/// Configuration for a peer pool.
#[derive(Debug, Clone, Copy)]
pub struct PeerPoolConfig {
    /// Maximum number of simultaneously active peers.
    pub max_peers: usize,
    /// Minimum score to avoid eviction when pool is full.
    pub eviction_threshold: u64,
    /// Minimum time a peer must be active before eviction is considered.
    pub min_active_duration: Duration,
}

impl Default for PeerPoolConfig {
    fn default() -> (r: PeerPoolConfig)
        ensures
            r.max_peers == DEFAULT_MAX_PEERS,
            r.eviction_threshold == EVICTION_SCORE_THRESHOLD,
            r.min_active_duration.nanos == MIN_ACTIVE_SECS * 1_000_000_000,
    {
        PeerPoolConfig {
            max_peers: DEFAULT_MAX_PEERS,
            eviction_threshold: EVICTION_SCORE_THRESHOLD,
            min_active_duration: Duration::from_secs(MIN_ACTIVE_SECS),
        }
    }
}

// ── Entries ─────────────────────────────────────────────────────────

/// Lifecycle state of a peer.
#[derive(Debug, Clone, Copy, PartialEq, Eq, Structural)]
pub enum PeerState {
    /// Peer is actively connected and exchanging data.
    Active,
    /// Peer disconnected; waiting for backoff to expire.
    Disconnected,
    /// Peer is permanently banned (corruption, protocol violation).
    Banned,
}

/// What the pool knows of a peer.
#[verifier::ext_equal]
pub struct EntryView {
    /// Unique peer identifier.
    pub peer_id: Seq<u8>,
    /// Current state in the lifecycle.
    pub state: PeerState,
    /// Composite score.
    pub score: u64,
    /// Number of disconnections.
    pub disconnect_count: u32,
    /// When the peer entered the current state.
    pub state_changed_at: Instant,
    /// When reconnection is allowed.
    pub reconnect_after: Option<Instant>,
}

impl EntryView {
    /// How long the peer has been in its state.
    pub open spec fn time_in_state(self, now: Instant) -> int {
        elapsed(now, self.state_changed_at)
    }

    /// Whether the peer is disconnected and its backoff is over.
    pub open spec fn may_reconnect(self, now: Instant) -> bool {
        self.state is Disconnected && match self.reconnect_after {
            Some(deadline) => now.nanos >= deadline.nanos,
            None => true,
        }
    }

    /// Whether the peer may be evicted.
    pub open spec fn evictable(self, config: PeerPoolConfig, now: Instant) -> bool {
        &&& self.state is Active
        &&& self.time_in_state(now) >= config.min_active_duration.nanos
        &&& self.score < config.eviction_threshold
    }

    /// Whether pruning drops the peer: it is disconnected, its backoff is over
    /// and it was not seen for a long time.
    pub open spec fn prunable(self, threshold: Duration, now: Instant) -> bool {
        self.may_reconnect(now) && self.time_in_state(now) >= threshold.nanos
    }
}

/// Lifecycle record of a single peer in the pool.
#[derive(Debug, Clone, Copy)]
pub struct PeerEntry {
    peer_id: [u8; 32],
    state: PeerState,
    score: u64,
    disconnect_count: u32,
    state_changed_at: Instant,
    reconnect_after: Option<Instant>,
}

impl View for PeerEntry {
    type V = EntryView;

    closed spec fn view(&self) -> EntryView {
        EntryView {
            peer_id: self.peer_id@,
            state: self.state,
            score: self.score,
            disconnect_count: self.disconnect_count,
            state_changed_at: self.state_changed_at,
            reconnect_after: self.reconnect_after,
        }
    }
}

impl PeerEntry {
    /// Creates a new active peer entry.
    fn new_active(peer_id: [u8; 32], now: Instant) -> (r: PeerEntry)
        ensures
            r@ == new_entry(peer_id@, now),
    {
        PeerEntry {
            peer_id,
            state: PeerState::Active,
            score: 0,
            disconnect_count: 0,
            state_changed_at: now,
            reconnect_after: None,
        }
    }

    /// Returns the peer identifier.
    pub fn peer_id(&self) -> (r: &[u8; 32])
        ensures
            r@ == self@.peer_id,
    {
        &self.peer_id
    }

    /// Returns the current lifecycle state.
    pub fn state(&self) -> (r: PeerState)
        ensures
            r == self@.state,
    {
        self.state
    }

    /// Returns the current composite score.
    pub fn score(&self) -> (r: u64)
        ensures
            r == self@.score,
    {
        self.score
    }

    /// Returns the disconnect count.
    pub fn disconnect_count(&self) -> (r: u32)
        ensures
            r == self@.disconnect_count,
    {
        self.disconnect_count
    }

    /// Returns when reconnection is allowed, if the peer ever disconnected.
    pub fn reconnect_after(&self) -> (r: Option<Instant>)
        ensures
            r == self@.reconnect_after,
    {
        self.reconnect_after
    }

    /// Returns how long the peer has been in its current state.
    pub fn time_in_state(&self, now: Instant) -> (r: Duration)
        ensures
            r.nanos == self@.time_in_state(now),
    {
        now.duration_since(self.state_changed_at)
    }

    /// Returns whether the peer can be reconnected (backoff expired).
    pub fn can_reconnect(&self, now: Instant) -> (r: bool)
        ensures
            r == self@.may_reconnect(now),
    {
        match self.state {
            PeerState::Disconnected => match self.reconnect_after {
                Some(deadline) => now.nanos >= deadline.nanos,
                None => true,
            },
            PeerState::Active => false,
            PeerState::Banned => false,
        }
    }
}

// ── Errors ──────────────────────────────────────────────────────────

/// Error returned when a peer cannot be added to the pool.
#[derive(Debug, Clone, Copy, PartialEq, Eq, Structural)]
pub enum PoolFullError {
    /// Pool is at maximum active peer capacity.
    AtCapacity {
        /// The configured maximum.
        max_peers: usize,
    },
    /// Peer is currently in backoff after a disconnect.
    BackoffActive,
    /// Peer is permanently banned.
    Banned,
}

impl PoolFullError {
    /// The text shown for an error.
    pub open spec fn text(self) -> Seq<char> {
        match self {
            PoolFullError::AtCapacity { max_peers } => "pool at capacity ("@ + decimal(
                max_peers as nat,
            ) + " active peers)"@,
            PoolFullError::BackoffActive => "peer is in reconnection backoff"@,
            PoolFullError::Banned => "peer is banned"@,
        }
    }

    /// The text shown for this error.
    pub fn display(&self) -> (r: String)
        ensures
            r@ == self.text(),
    {
        let mut out = String::new();
        match self {
            PoolFullError::AtCapacity { max_peers } => {
                out.append("pool at capacity (");
                push_decimal(&mut out, *max_peers as u64);
                out.append(" active peers)");
            },
            PoolFullError::BackoffActive => {
                out.append("peer is in reconnection backoff");
            },
            PoolFullError::Banned => {
                out.append("peer is banned");
            },
        }
        out
    }
}

// ── Model ───────────────────────────────────────────────────────────

/// A peer that has just become active.
pub open spec fn new_entry(peer_id: Seq<u8>, now: Instant) -> EntryView {
    EntryView {
        peer_id,
        state: PeerState::Active,
        score: 0,
        disconnect_count: 0,
        state_changed_at: now,
        reconnect_after: None,
    }
}

/// The model of a list of entries.
pub open spec fn entry_views(entries: Seq<PeerEntry>) -> Seq<EntryView> {
    Seq::new(entries.len(), |i: int| entries[i]@)
}

/// Entries behind references.
pub open spec fn referred(entries: Seq<&PeerEntry>) -> Seq<EntryView> {
    Seq::new(entries.len(), |i: int| entries[i]@)
}

/// The entry at `i` is of this peer.
pub open spec fn is_at(entries: Seq<EntryView>, peer_id: Seq<u8>, i: int) -> bool {
    0 <= i < entries.len() && entries[i].peer_id == peer_id
}

/// Where the entry of a peer stands.
pub open spec fn place_of(entries: Seq<EntryView>, peer_id: Seq<u8>) -> Option<int> {
    if exists|i: int| is_at(entries, peer_id, i) {
        Some(choose|i: int| is_at(entries, peer_id, i))
    } else {
        None
    }
}

/// The active entries, in order.
pub open spec fn active_entries(entries: Seq<EntryView>) -> Seq<EntryView>
    decreases entries.len(),
{
    if entries.len() == 0 {
        Seq::empty()
    } else {
        let rest = active_entries(entries.drop_last());
        if entries.last().state is Active {
            rest.push(entries.last())
        } else {
            rest
        }
    }
}

/// The entries that may reconnect, in order.
pub open spec fn reconnectable(entries: Seq<EntryView>, now: Instant) -> Seq<EntryView>
    decreases entries.len(),
{
    if entries.len() == 0 {
        Seq::empty()
    } else {
        let rest = reconnectable(entries.drop_last(), now);
        if entries.last().may_reconnect(now) {
            rest.push(entries.last())
        } else {
            rest
        }
    }
}

/// The entries that pruning keeps, in order.
pub open spec fn unpruned(entries: Seq<EntryView>, threshold: Duration, now: Instant) -> Seq<
    EntryView,
>
    decreases entries.len(),
{
    if entries.len() == 0 {
        Seq::empty()
    } else {
        let rest = unpruned(entries.drop_last(), threshold, now);
        if entries.last().prunable(threshold, now) {
            rest
        } else {
            rest.push(entries.last())
        }
    }
}

/// The backoff after `n` disconnections, in seconds: it doubles up to a cap.
pub open spec fn backoff_secs(n: nat) -> nat
    decreases n,
{
    if n <= 1 {
        INITIAL_BACKOFF_SECS as nat
    } else if backoff_secs((n - 1) as nat) * 2 < MAX_BACKOFF_SECS {
        backoff_secs((n - 1) as nat) * 2
    } else {
        MAX_BACKOFF_SECS as nat
    }
}

/// Keys that put high scores first.
pub open spec fn score_keys(entries: Seq<EntryView>) -> Seq<u128> {
    Seq::new(entries.len(), |i: int| (u64::MAX - entries[i].score) as u128)
}

/// What the pool holds.
#[verifier::ext_equal]
pub struct PoolView {
    /// Limits and thresholds.
    pub config: PeerPoolConfig,
    /// Known peers, oldest first.
    pub entries: Seq<EntryView>,
}

impl PoolView {
    /// No peer twice, and not more active peers than allowed.
    pub open spec fn wf(self) -> bool {
        &&& forall|i: int, j: int|
            0 <= i < j < self.entries.len() ==> (#[trigger] self.entries[i]).peer_id != (
            #[trigger] self.entries[j]).peer_id
        &&& active_entries(self.entries).len() <= self.config.max_peers
    }

    /// The entry at `i` is the first with the lowest score among those that may
    /// be evicted.
    pub open spec fn is_worst(self, now: Instant, i: int) -> bool {
        &&& 0 <= i < self.entries.len()
        &&& self.entries[i].evictable(self.config, now)
        &&& forall|j: int|
            0 <= j < self.entries.len() && (#[trigger] self.entries[j]).evictable(self.config, now)
                ==> self.entries[i].score < self.entries[j].score || self.entries[i].score
                == self.entries[j].score && i <= j
    }

    /// The entry to be evicted, if any.
    pub open spec fn worst(self, now: Instant) -> Option<int> {
        if exists|i: int| self.is_worst(now, i) {
            Some(choose|i: int| self.is_worst(now, i))
        } else {
            None
        }
    }

    /// The pool without one entry.
    pub open spec fn dropped(self, i: int) -> PoolView {
        PoolView { entries: self.entries.remove(i), ..self }
    }

    /// The pool with room for one more active peer, if there can be.
    pub open spec fn with_room(self, now: Instant) -> Option<PoolView> {
        if active_entries(self.entries).len() < self.config.max_peers {
            Some(self)
        } else {
            match self.worst(now) {
                Some(i) => Some(self.dropped(i)),
                None => None,
            }
        }
    }

    /// The pool with another record for one entry.
    pub open spec fn with_entry(self, i: int, entry: EntryView) -> PoolView {
        PoolView { entries: self.entries.update(i, entry), ..self }
    }

    /// The pool with a peer active again.
    pub open spec fn reactivated(self, peer_id: Seq<u8>, now: Instant) -> PoolView {
        let i = place_of(self.entries, peer_id)->0;
        self.with_entry(
            i,
            EntryView { state: PeerState::Active, state_changed_at: now, ..self.entries[i] },
        )
    }

    /// What adding a peer comes to. A banned peer and one in backoff are turned
    /// away, an active one is left alone, and any other needs room.
    pub open spec fn add_outcome(self, peer_id: Seq<u8>, now: Instant) -> Result<
        PoolView,
        PoolFullError,
    > {
        let full = PoolFullError::AtCapacity { max_peers: self.config.max_peers };
        match place_of(self.entries, peer_id) {
            Some(i) => match self.entries[i].state {
                PeerState::Banned => Err(PoolFullError::Banned),
                PeerState::Active => Ok(self),
                PeerState::Disconnected => if !self.entries[i].may_reconnect(now) {
                    Err(PoolFullError::BackoffActive)
                } else {
                    match self.with_room(now) {
                        Some(roomy) => Ok(roomy.reactivated(peer_id, now)),
                        None => Err(full),
                    }
                },
            },
            None => match self.with_room(now) {
                Some(roomy) => Ok(
                    PoolView { entries: roomy.entries.push(new_entry(peer_id, now)), ..roomy },
                ),
                None => Err(full),
            },
        }
    }

    /// The record of a peer after it disconnected.
    pub open spec fn after_disconnect(entry: EntryView, now: Instant) -> EntryView {
        if entry.state is Banned {
            entry
        } else {
            let count = if entry.disconnect_count < u32::MAX {
                (entry.disconnect_count + 1) as u32
            } else {
                entry.disconnect_count
            };
            EntryView {
                disconnect_count: count,
                state: PeerState::Disconnected,
                state_changed_at: now,
                reconnect_after: Some(
                    Instant {
                        nanos: (now.nanos + backoff_secs(count as nat) * 1_000_000_000) as u128,
                    },
                ),
                ..entry
            }
        }
    }

    /// The pool after a peer disconnected.
    pub open spec fn disconnected(self, peer_id: Seq<u8>, now: Instant) -> PoolView {
        match place_of(self.entries, peer_id) {
            Some(i) => self.with_entry(i, PoolView::after_disconnect(self.entries[i], now)),
            None => self,
        }
    }

    /// The pool after a peer was banned.
    pub open spec fn banned(self, peer_id: Seq<u8>, now: Instant) -> PoolView {
        match place_of(self.entries, peer_id) {
            Some(i) => self.with_entry(
                i,
                EntryView {
                    state: PeerState::Banned,
                    state_changed_at: now,
                    reconnect_after: None,
                    ..self.entries[i]
                },
            ),
            None => self,
        }
    }

    /// The pool with another score for a peer.
    pub open spec fn scored(self, peer_id: Seq<u8>, score: u64) -> PoolView {
        match place_of(self.entries, peer_id) {
            Some(i) => self.with_entry(i, EntryView { score, ..self.entries[i] }),
            None => self,
        }
    }
}

// ── Lemmas ──────────────────────────────────────────────────────────

/// The backoff is at least the initial one, at most the cap, and stays at the
/// cap once there.
proof fn lemma_backoff(n: nat, m: nat)
    requires
        n <= m,
    ensures
        INITIAL_BACKOFF_SECS <= backoff_secs(n) <= MAX_BACKOFF_SECS,
        backoff_secs(n) == MAX_BACKOFF_SECS ==> backoff_secs(m) == MAX_BACKOFF_SECS,
    decreases m,
{
    if n < m {
        lemma_backoff(n, (m - 1) as nat);
    } else if n > 1 {
        lemma_backoff((n - 1) as nat, (n - 1) as nat);
    }
}

/// A peer stands in one place at most.
proof fn lemma_place(v: PoolView, peer_id: Seq<u8>, i: int)
    requires
        v.wf(),
        is_at(v.entries, peer_id, i),
    ensures
        place_of(v.entries, peer_id) == Some(i),
{
    let j = choose|j: int| is_at(v.entries, peer_id, j);
    assert(is_at(v.entries, peer_id, j));
    if i < j {
        assert(v.entries[i].peer_id != v.entries[j].peer_id);
    } else if j < i {
        assert(v.entries[j].peer_id != v.entries[i].peer_id);
    }
}

/// One if the entry is active.
spec fn weight(e: EntryView) -> int {
    if e.state is Active {
        1
    } else {
        0
    }
}

/// How a changed entry changes the number of active entries.
proof fn lemma_active_update(entries: Seq<EntryView>, i: int, e: EntryView)
    requires
        0 <= i < entries.len(),
    ensures
        active_entries(entries.update(i, e)).len() == active_entries(entries).len() + weight(e)
            - weight(entries[i]),
    decreases entries.len(),
{
    let after = entries.update(i, e);
    if i == entries.len() - 1 {
        assert(after.drop_last() == entries.drop_last());
    } else {
        assert(after.drop_last() == entries.drop_last().update(i, e));
        lemma_active_update(entries.drop_last(), i, e);
    }
}

/// How a dropped entry changes the number of active entries.
proof fn lemma_active_remove(entries: Seq<EntryView>, i: int)
    requires
        0 <= i < entries.len(),
    ensures
        active_entries(entries.remove(i)).len() == active_entries(entries).len() - weight(
            entries[i],
        ),
    decreases entries.len(),
{
    let after = entries.remove(i);
    if i == entries.len() - 1 {
        assert(after == entries.drop_last());
    } else {
        assert(after.drop_last() == entries.drop_last().remove(i));
        assert(after.last() == entries.last());
        lemma_active_remove(entries.drop_last(), i);
    }
}

/// Another record for one peer keeps the peers apart.
proof fn lemma_with_entry_wf(v: PoolView, i: int, e: EntryView)
    requires
        v.wf(),
        0 <= i < v.entries.len(),
        e.peer_id == v.entries[i].peer_id,
        weight(e) <= weight(v.entries[i]) || active_entries(v.entries).len() < v.config.max_peers,
    ensures
        v.with_entry(i, e).wf(),
{
    lemma_active_update(v.entries, i, e);
}

/// Dropping an entry keeps the rest in order, and a peer that stays is found
/// with the same record.
proof fn lemma_dropped_wf(v: PoolView, i: int)
    requires
        v.wf(),
        0 <= i < v.entries.len(),
    ensures
        v.dropped(i).wf(),
{
    let w = v.dropped(i);
    lemma_active_remove(v.entries, i);
    assert forall|a: int| 0 <= a < w.entries.len() implies #[trigger] w.entries[a]
        == v.entries[if a < i { a } else { a + 1 }] by {}
}

/// A peer that is not the dropped one is found behind the drop.
proof fn lemma_dropped_place(v: PoolView, i: int, peer_id: Seq<u8>)
    requires
        v.wf(),
        0 <= i < v.entries.len(),
        v.entries[i].peer_id != peer_id,
    ensures
        match place_of(v.entries, peer_id) {
            Some(j) => {
                &&& place_of(v.dropped(i).entries, peer_id) == Some(if j < i { j } else { j - 1 })
                &&& v.dropped(i).entries[if j < i { j } else { j - 1 }] == v.entries[j]
            },
            None => place_of(v.dropped(i).entries, peer_id) is None,
        },
{
    let w = v.dropped(i);
    lemma_dropped_wf(v, i);
    match place_of(v.entries, peer_id) {
        Some(j) => {
            assert(is_at(v.entries, peer_id, j));
            let k = if j < i { j } else { j - 1 };
            assert(w.entries[k] == v.entries[j]);
            assert(is_at(w.entries, peer_id, k));
            lemma_place(w, peer_id, k);
        },
        None => {
            if exists|k: int| is_at(w.entries, peer_id, k) {
                let k = choose|k: int| is_at(w.entries, peer_id, k);
                assert(w.entries[k] == v.entries[if k < i { k } else { k + 1 }]);
                assert(is_at(v.entries, peer_id, if k < i { k } else { k + 1 }));
            }
        },
    }
}

/// The worst entry is unique.
proof fn lemma_worst(v: PoolView, now: Instant, i: int)
    requires
        v.is_worst(now, i),
    ensures
        v.worst(now) == Some(i),
{
    let j = choose|j: int| v.is_worst(now, j);
    assert(v.is_worst(now, j));
    assert(v.entries[i].evictable(v.config, now));
    assert(v.entries[j].evictable(v.config, now));
}

/// Pruning keeps peers apart and does not touch active ones.
proof fn lemma_unpruned(entries: Seq<EntryView>, threshold: Duration, now: Instant)
    ensures
        active_entries(unpruned(entries, threshold, now)) == active_entries(entries),
        forall|k: int|
            0 <= k < unpruned(entries, threshold, now).len() ==> entries.contains(
                #[trigger] unpruned(entries, threshold, now)[k],
            ),
        (forall|i: int, j: int|
            0 <= i < j < entries.len() ==> (#[trigger] entries[i]).peer_id != (
            #[trigger] entries[j]).peer_id) ==> (forall|i: int, j: int|
            0 <= i < j < unpruned(entries, threshold, now).len() ==> (#[trigger] unpruned(
                entries,
                threshold,
                now,
            )[i]).peer_id != (#[trigger] unpruned(entries, threshold, now)[j]).peer_id),
    decreases entries.len(),
{
    if entries.len() > 0 {
        let front = entries.drop_last();
        let last = entries.last();
        let rest = unpruned(front, threshold, now);
        let all = unpruned(entries, threshold, now);
        lemma_unpruned(front, threshold, now);
        assert(entries[entries.len() - 1] == last);
        assert forall|k: int| 0 <= k < all.len() implies entries.contains(#[trigger] all[k]) by {
            if k < rest.len() {
                assert(front.contains(rest[k]));
                let i = choose|i: int| 0 <= i < front.len() && front[i] == rest[k];
                assert(entries[i] == all[k]);
            }
        }
        if !last.prunable(threshold, now) {
            assert(rest.push(last).drop_last() == rest);
        }
        if forall|i: int, j: int|
            0 <= i < j < entries.len() ==> (#[trigger] entries[i]).peer_id != (
            #[trigger] entries[j]).peer_id {
            assert forall|i: int, j: int| 0 <= i < j < front.len() implies (
            #[trigger] front[i]).peer_id != (#[trigger] front[j]).peer_id by {
                assert(entries[i].peer_id != entries[j].peer_id);
            }
            assert forall|i: int, j: int| 0 <= i < j < all.len() implies (
            #[trigger] all[i]).peer_id != (#[trigger] all[j]).peer_id by {
                if j < rest.len() {
                    assert(rest[i].peer_id != rest[j].peer_id);
                } else {
                    assert(front.contains(rest[i]));
                    let k = choose|k: int| 0 <= k < front.len() && front[k] == rest[i];
                    assert(entries[k].peer_id != entries[entries.len() - 1].peer_id);
                }
            }
        }
    }
}

/// Filtering records filters what is known of them.
proof fn lemma_filter_entries(entries: Seq<PeerEntry>, threshold: Duration, now: Instant)
    ensures
        entry_views(entries.filter(|e: PeerEntry| !e@.prunable(threshold, now))) == unpruned(
            entry_views(entries),
            threshold,
            now,
        ),
    decreases entries.len(),
{
    reveal(Seq::filter);
    let keep = |e: PeerEntry| !e@.prunable(threshold, now);
    if entries.len() > 0 {
        lemma_filter_entries(entries.drop_last(), threshold, now);
        assert(entry_views(entries).drop_last() == entry_views(entries.drop_last()));
        let rest = entries.drop_last().filter(keep);
        if keep(entries.last()) {
            assert(entry_views(rest.push(entries.last())) == entry_views(rest).push(
                entries.last()@,
            ));
        }
    }
}

// ── Pool ────────────────────────────────────────────────────────────

/// Bounded peer lifecycle manager with eviction and reconnection backoff.
#[derive(Debug)]
pub struct PeerPool {
    config: PeerPoolConfig,
    entries: Vec<PeerEntry>,
}

impl View for PeerPool {
    type V = PoolView;

    closed spec fn view(&self) -> PoolView {
        PoolView { config: self.config, entries: entry_views(self.entries@) }
    }
}

/// The backoff after `n` disconnections.
fn backoff(n: u32) -> (r: Duration)
    ensures
        r.nanos == backoff_secs(n as nat) * 1_000_000_000,
{
    let mut secs: u64 = INITIAL_BACKOFF_SECS;
    let mut i: u32 = 1;
    while i < n && secs < MAX_BACKOFF_SECS
        invariant
            1 <= i,
            n >= 1 ==> i <= n,
            n == 0 ==> i == 1,
            secs == backoff_secs(i as nat),
            secs <= MAX_BACKOFF_SECS,
        decreases n - i,
    {
        secs = if secs * 2 < MAX_BACKOFF_SECS {
            secs * 2
        } else {
            MAX_BACKOFF_SECS
        };
        i += 1;
    }
    proof {
        assert(backoff_secs(0) == backoff_secs(1));
        if i < n {
            lemma_backoff(i as nat, n as nat);
        }
    }
    Duration::from_secs(secs)
}

impl PeerPool {
    /// No peer twice, and not more active peers than allowed.
    pub open spec fn wf(self) -> bool {
        self@.wf()
    }

    /// Creates an empty peer pool with the given configuration.
    pub fn new(config: PeerPoolConfig) -> (r: PeerPool)
        ensures
            r.wf(),
            r@ == (PoolView { config, entries: Seq::empty() }),
    {
        PeerPool { config, entries: Vec::new() }
    }

    /// Creates a pool with default configuration.
    pub fn with_defaults() -> (r: PeerPool)
        ensures
            r.wf(),
            r@.entries == Seq::<EntryView>::empty(),
            r@.config.max_peers == DEFAULT_MAX_PEERS,
            r@.config.eviction_threshold == EVICTION_SCORE_THRESHOLD,
            r@.config.min_active_duration.nanos == MIN_ACTIVE_SECS * 1_000_000_000,
    {
        PeerPool::new(PeerPoolConfig::default())
    }

    /// Finds the entry of a peer.
    fn find(&self, peer_id: &[u8; 32]) -> (r: Option<usize>)
        requires
            self.wf(),
        ensures
            match r {
                Some(i) => i < self@.entries.len() && place_of(self@.entries, peer_id@) == Some(
                    i as int,
                ),
                None => place_of(self@.entries, peer_id@) is None,
            },
    {
        let mut i: usize = 0;
        while i < self.entries.len()
            invariant
                self.wf(),
                self@.entries.len() == self.entries@.len(),
                i <= self.entries@.len(),
                forall|k: int| 0 <= k < i ==> !#[trigger] is_at(self@.entries, peer_id@, k),
            decreases self.entries@.len() - i,
        {
            assert(self@.entries[i as int] == self.entries@[i as int]@);
            if arrays_equal(&self.entries[i].peer_id, peer_id) {
                proof {
                    assert(is_at(self@.entries, peer_id@, i as int));
                    lemma_place(self@, peer_id@, i as int);
                }
                return Some(i);
            }
            i += 1;
        }
        None
    }

    /// Replaces the record at `i`.
    fn put(&mut self, i: usize, entry: PeerEntry)
        requires
            i < old(self)@.entries.len(),
        ensures
            final(self)@ == old(self)@.with_entry(i as int, entry@),
    {
        let ghost start = self@;
        self.entries[i] = entry;
        assert(self@ == start.with_entry(i as int, entry@));
    }

    /// Makes room for one more active peer. Returns whether there is room.
    fn make_room(&mut self, now: Instant) -> (r: bool)
        requires
            old(self).wf(),
        ensures
            final(self).wf(),
            match old(self)@.with_room(now) {
                Some(roomy) => r && final(self)@ == roomy,
                None => !r && final(self)@ == old(self)@,
            },
            r ==> active_entries(final(self)@.entries).len() < final(self)@.config.max_peers,
    {
        let ghost start = self@;
        if self.has_capacity() {
            return true;
        }
        match self.evict_worst(now) {
            Some(_) => {
                proof {
                    lemma_active_remove(start.entries, start.worst(now)->0);
                }
                true
            },
            None => false,
        }
    }

    /// Attempts to add a peer as active.
    ///
    /// Fails if the peer is banned, if its backoff is still running, or if the
    /// pool is at capacity and no peer qualifies for eviction. A peer that is
    /// already active is left as it is.
    pub fn try_add(&mut self, peer_id: [u8; 32], now: Instant) -> (r: Result<(), PoolFullError>)
        requires
            old(self).wf(),
        ensures
            final(self).wf(),
            match r {
                Ok(()) => old(self)@.add_outcome(peer_id@, now) == Ok::<PoolView, PoolFullError>(
                    final(self)@,
                ),
                Err(e) => {
                    &&& old(self)@.add_outcome(peer_id@, now) == Err::<PoolView, PoolFullError>(e)
                    &&& final(self)@ == old(self)@
                },
            },
    {
        let ghost start = self@;
        match self.find(&peer_id) {
            Some(i) => {
                let entry = self.entries[i];
                assert(entry@ == start.entries[i as int]);
                match entry.state {
                    PeerState::Banned => Err(PoolFullError::Banned),
                    PeerState::Active => Ok(()),
                    PeerState::Disconnected => {
                        if !entry.can_reconnect(now) {
                            return Err(PoolFullError::BackoffActive);
                        }
                        if !self.make_room(now) {
                            return Err(
                                PoolFullError::AtCapacity { max_peers: self.config.max_peers },
                            );
                        }
                        let ghost roomy = self@;
                        proof {
                            assert(is_at(start.entries, peer_id@, i as int));
                            if roomy != start {
                                let gone = start.worst(now)->0;
                                assert(start.is_worst(now, gone));
                                assert(start.entries[gone].state is Active);
                                assert(start.entries[gone].peer_id != peer_id@) by {
                                    if gone < i {
                                        assert(start.entries[gone].peer_id
                                            != start.entries[i as int].peer_id);
                                    } else {
                                        assert(start.entries[i as int].peer_id
                                            != start.entries[gone].peer_id);
                                    }
                                }
                                lemma_dropped_place(start, gone, peer_id@);
                            }
                        }
                        match self.find(&peer_id) {
                            Some(at) => {
                                let mut entry = self.entries[at];
                                entry.state = PeerState::Active;
                                entry.state_changed_at = now;
                                proof {
                                    assert(is_at(roomy.entries, peer_id@, at as int));
                                    lemma_with_entry_wf(roomy, at as int, entry@);
                                }
                                self.put(at, entry);
                            },
                            None => {},
                        }
                        Ok(())
                    },
                }
            },
            None => {
                if !self.make_room(now) {
                    return Err(PoolFullError::AtCapacity { max_peers: self.config.max_peers });
                }
                let ghost roomy = self@;
                proof {
                    assert forall|k: int| 0 <= k < start.entries.len() implies (
                    #[trigger] start.entries[k]).peer_id != peer_id@ by {
                        assert(!is_at(start.entries, peer_id@, k));
                    }
                    if roomy != start {
                        let gone = start.worst(now)->0;
                        assert(start.is_worst(now, gone));
                        assert forall|k: int| 0 <= k < roomy.entries.len() implies (
                        #[trigger] roomy.entries[k]).peer_id != peer_id@ by {
                            assert(roomy.entries[k] == start.entries[if k < gone {
                                k
                            } else {
                                k + 1
                            }]);
                        }
                    }
                }
                let entry = PeerEntry::new_active(peer_id, now);
                self.entries.push(entry);
                proof {
                    assert(self@.entries == roomy.entries.push(entry@));
                    assert(self@.entries.drop_last() == roomy.entries);
                }
                Ok(())
            },
        }
    }

    /// Records a peer disconnection, starting the backoff timer.
    ///
    /// The backoff doubles with each disconnection: 5 s, 10 s, 20 s, and so on
    /// up to 300 s. Banned peers stay banned.
    pub fn record_disconnect(&mut self, peer_id: &[u8; 32], now: Instant)
        requires
            old(self).wf(),
            now.nanos + MAX_BACKOFF_SECS * 1_000_000_000 <= u128::MAX,
        ensures
            final(self).wf(),
            final(self)@ == old(self)@.disconnected(peer_id@, now),
    {
        let ghost start = self@;
        match self.find(peer_id) {
            Some(i) => {
                let mut entry = self.entries[i];
                assert(entry@ == start.entries[i as int]);
                if entry.state == PeerState::Banned {
                    assert(start.entries.update(i as int, entry@) == start.entries);
                    return;
                }
                entry.disconnect_count = entry.disconnect_count.saturating_add(1);
                entry.state = PeerState::Disconnected;
                entry.state_changed_at = now;
                proof {
                    lemma_backoff(entry.disconnect_count as nat, entry.disconnect_count as nat);
                }
                entry.reconnect_after = Some(now + backoff(entry.disconnect_count));
                proof {
                    assert(entry@ == PoolView::after_disconnect(start.entries[i as int], now));
                    lemma_with_entry_wf(start, i as int, entry@);
                }
                self.put(i, entry);
            },
            None => {},
        }
    }

    /// Permanently bans a peer (for example for corruption or protocol
    /// violation).
    pub fn ban(&mut self, peer_id: &[u8; 32], now: Instant)
        requires
            old(self).wf(),
        ensures
            final(self).wf(),
            final(self)@ == old(self)@.banned(peer_id@, now),
    {
        let ghost start = self@;
        match self.find(peer_id) {
            Some(i) => {
                let mut entry = self.entries[i];
                assert(entry@ == start.entries[i as int]);
                entry.state = PeerState::Banned;
                entry.state_changed_at = now;
                entry.reconnect_after = None;
                proof {
                    lemma_with_entry_wf(start, i as int, entry@);
                }
                self.put(i, entry);
            },
            None => {},
        }
    }

    /// Updates the composite score for a peer.
    pub fn update_score(&mut self, peer_id: &[u8; 32], score: u64)
        requires
            old(self).wf(),
        ensures
            final(self).wf(),
            final(self)@ == old(self)@.scored(peer_id@, score),
    {
        let ghost start = self@;
        match self.find(peer_id) {
            Some(i) => {
                let mut entry = self.entries[i];
                assert(entry@ == start.entries[i as int]);
                entry.score = score;
                proof {
                    lemma_with_entry_wf(start, i as int, entry@);
                }
                self.put(i, entry);
            },
            None => {},
        }
    }

    /// Evicts the worst-scoring active peer that has been active long enough
    /// and scores below the threshold.
    ///
    /// Returns the evicted peer's ID, or `None` if no peer qualifies.
    pub fn evict_worst(&mut self, now: Instant) -> (r: Option<[u8; 32]>)
        requires
            old(self).wf(),
        ensures
            final(self).wf(),
            match r {
                Some(peer_id) => {
                    &&& old(self)@.worst(now) is Some
                    &&& peer_id@ == old(self)@.entries[old(self)@.worst(now)->0].peer_id
                    &&& final(self)@ == old(self)@.dropped(old(self)@.worst(now)->0)
                    &&& 0 <= old(self)@.worst(now)->0 < old(self)@.entries.len()
                    &&& old(self)@.entries[old(self)@.worst(now)->0].state is Active
                },
                None => old(self)@.worst(now) is None && final(self)@ == old(self)@,
            },
    {
        let ghost start = self@;
        let mut candidate: Option<usize> = None;
        let mut i: usize = 0;
        while i < self.entries.len()
            invariant
                start == self@,
                self@.entries.len() == self.entries@.len(),
                i <= self.entries@.len(),
                match candidate {
                    Some(c) => {
                        &&& c < i
                        &&& start.entries[c as int].evictable(start.config, now)
                        &&& forall|j: int|
                            0 <= j < i && (#[trigger] start.entries[j]).evictable(
                                start.config,
                                now,
                            ) ==> start.entries[c as int].score < start.entries[j].score
                                || start.entries[c as int].score == start.entries[j].score && c
                                <= j
                    },
                    None => forall|j: int|
                        0 <= j < i ==> !(#[trigger] start.entries[j]).evictable(start.config, now),
                },
            decreases self.entries@.len() - i,
        {
            let entry = &self.entries[i];
            assert(start.entries[i as int] == entry@);
            if entry.state == PeerState::Active && entry.time_in_state(now).nanos
                >= self.config.min_active_duration.nanos && entry.score
                < self.config.eviction_threshold {
                let better = match candidate {
                    Some(c) => {
                        assert(start.entries[c as int] == self.entries@[c as int]@);
                        entry.score < self.entries[c].score
                    },
                    None => true,
                };
                if better {
                    candidate = Some(i);
                }
            }
            i += 1;
        }
        match candidate {
            Some(c) => {
                proof {
                    assert(start.is_worst(now, c as int));
                    lemma_worst(start, now, c as int);
                    lemma_dropped_wf(start, c as int);
                }
                let entry = self.entries.remove(c);
                assert(self@ == start.dropped(c as int));
                Some(entry.peer_id)
            },
            None => {
                assert(start.worst(now) is None);
                None
            },
        }
    }

    /// Returns active peers sorted by score (highest first).
    pub fn ranked_peers(&self) -> (r: Vec<&PeerEntry>)
        ensures
            is_ranked_by(
                referred(r@),
                active_entries(self@.entries),
                score_keys(active_entries(self@.entries)),
            ),
    {
        let mut active: Vec<&PeerEntry> = Vec::new();
        let mut keys: Vec<u128> = Vec::new();
        let ghost all = self@.entries;
        let mut i: usize = 0;
        assert(all.take(0) == Seq::<EntryView>::empty());
        while i < self.entries.len()
            invariant
                all == entry_views(self.entries@),
                i <= self.entries@.len(),
                referred(active@) == active_entries(all.take(i as int)),
                keys@ == score_keys(referred(active@)),
            decreases self.entries@.len() - i,
        {
            let entry = &self.entries[i];
            proof {
                assert(all.take(i + 1).drop_last() == all.take(i as int));
                assert(all[i as int] == entry@);
            }
            if entry.state == PeerState::Active {
                let ghost before = referred(active@);
                active.push(entry);
                keys.push((0xffff_ffff_ffff_ffff - entry.score) as u128);
                assert(referred(active@) == before.push(entry@));
            }
            i += 1;
        }
        assert(all.take(i as int) == all);
        let order = stable_order(&keys);
        let mut ranked: Vec<&PeerEntry> = Vec::new();
        let mut k: usize = 0;
        while k < order.len()
            invariant
                is_stable_order(keys@, order@),
                keys@.len() == active@.len(),
                k <= order@.len(),
                ranked@.len() == k,
                forall|p: int| 0 <= p < k ==> ranked@[p] == active@[#[trigger] order@[p] as int],
            decreases order@.len() - k,
        {
            ranked.push(active[order[k]]);
            k += 1;
        }
        assert(referred(ranked@) == arranged(referred(active@), order@)) by {
            assert forall|p: int| 0 <= p < order@.len() implies referred(ranked@)[p] == referred(
                active@,
            )[#[trigger] order@[p] as int] by {}
        }
        ranked
    }

    /// Returns peers that are disconnected and ready for reconnection.
    pub fn reconnectable_peers(&self, now: Instant) -> (r: Vec<&PeerEntry>)
        ensures
            referred(r@) == reconnectable(self@.entries, now),
    {
        let mut ready: Vec<&PeerEntry> = Vec::new();
        let ghost all = self@.entries;
        let mut i: usize = 0;
        assert(all.take(0) == Seq::<EntryView>::empty());
        while i < self.entries.len()
            invariant
                all == entry_views(self.entries@),
                i <= self.entries@.len(),
                referred(ready@) == reconnectable(all.take(i as int), now),
            decreases self.entries@.len() - i,
        {
            let entry = &self.entries[i];
            proof {
                assert(all.take(i + 1).drop_last() == all.take(i as int));
                assert(all[i as int] == entry@);
            }
            if entry.can_reconnect(now) {
                let ghost before = referred(ready@);
                ready.push(entry);
                assert(referred(ready@) == before.push(entry@));
            }
            i += 1;
        }
        assert(all.take(i as int) == all);
        ready
    }

    /// Number of currently active (connected) peers.
    pub fn active_count(&self) -> (r: usize)
        ensures
            r == active_entries(self@.entries).len(),
    {
        let mut count: usize = 0;
        let ghost all = self@.entries;
        let mut i: usize = 0;
        assert(all.take(0) == Seq::<EntryView>::empty());
        while i < self.entries.len()
            invariant
                all == entry_views(self.entries@),
                i <= self.entries@.len(),
                count <= i,
                count == active_entries(all.take(i as int)).len(),
            decreases self.entries@.len() - i,
        {
            proof {
                assert(all.take(i + 1).drop_last() == all.take(i as int));
                assert(all[i as int] == self.entries@[i as int]@);
            }
            if self.entries[i].state == PeerState::Active {
                count += 1;
            }
            i += 1;
        }
        assert(all.take(i as int) == all);
        count
    }

    /// Total entries tracked (active, disconnected and banned).
    pub fn total_count(&self) -> (r: usize)
        ensures
            r == self@.entries.len(),
    {
        self.entries.len()
    }

    /// Maximum number of active peers allowed.
    pub fn max_peers(&self) -> (r: usize)
        ensures
            r == self@.config.max_peers,
    {
        self.config.max_peers
    }

    /// Returns `true` if the pool has room for more active peers.
    pub fn has_capacity(&self) -> (r: bool)
        ensures
            r == (active_entries(self@.entries).len() < self@.config.max_peers),
    {
        self.active_count() < self.config.max_peers
    }

    /// Removes all disconnected entries whose backoff has expired and who were
    /// not seen for a long time.
    pub fn prune_stale(&mut self, stale_threshold: Duration, now: Instant)
        requires
            old(self).wf(),
        ensures
            final(self).wf(),
            final(self)@ == (PoolView {
                entries: unpruned(old(self)@.entries, stale_threshold, now),
                ..old(self)@
            }),
    {
        proof {
            lemma_unpruned(self@.entries, stale_threshold, now);
            lemma_filter_entries(self.entries@, stale_threshold, now);
        }
        let keep = |e: &PeerEntry| -> (kept: bool)
            ensures
                kept == !e@.prunable(stale_threshold, now),
        {
            !(e.can_reconnect(now) && e.time_in_state(now).nanos >= stale_threshold.nanos)
        };
        retain(
            &mut self.entries,
            keep,
            Ghost(|e: PeerEntry| !e@.prunable(stale_threshold, now)),
        );
    }

    /// Returns the entry for a specific peer, if it exists.
    pub fn get(&self, peer_id: &[u8; 32]) -> (r: Option<&PeerEntry>)
        requires
            self.wf(),
        ensures
            match r {
                Some(entry) => place_of(self@.entries, peer_id@) matches Some(i)
                    && entry@ == self@.entries[i],
                None => place_of(self@.entries, peer_id@) is None,
            },
    {
        match self.find(peer_id) {
            Some(i) => Some(&self.entries[i]),
            None => None,
        }
    }
}

// ── Laws ────────────────────────────────────────────────────────────

/// The backoff starts at its initial value, doubles with each disconnection
/// and never exceeds its cap.
pub proof fn law_backoff_doubles_to_cap(n: nat)
    requires
        n >= 1,
    ensures
        backoff_secs(1) == INITIAL_BACKOFF_SECS,
        backoff_secs(n) <= MAX_BACKOFF_SECS,
        backoff_secs(n) <= backoff_secs(n + 1),
        backoff_secs(n + 1) < MAX_BACKOFF_SECS ==> backoff_secs(n + 1) == 2 * backoff_secs(n),
{
    lemma_backoff(n, n + 1);
}

/// A banned peer is never let in, whatever the time.
pub proof fn law_ban_is_permanent(v: PoolView, peer_id: Seq<u8>, banned_at: Instant, now: Instant)
    requires
        v.wf(),
        place_of(v.entries, peer_id) is Some,
    ensures
        v.banned(peer_id, banned_at).add_outcome(peer_id, now) == Err::<PoolView, PoolFullError>(
            PoolFullError::Banned,
        ),
        v.banned(peer_id, banned_at).disconnected(peer_id, now) == v.banned(peer_id, banned_at),
{
    let i = place_of(v.entries, peer_id)->0;
    assert(is_at(v.entries, peer_id, i));
    let w = v.banned(peer_id, banned_at);
    lemma_with_entry_wf(v, i, w.entries[i]);
    assert(is_at(w.entries, peer_id, i));
    lemma_place(w, peer_id, i);
    assert(w.entries.update(i, w.entries[i]) == w.entries);
}

/// A peer that disconnected is kept out until its backoff is over, and is let
/// in from then on if there is room.
pub proof fn law_backoff_keeps_out(v: PoolView, peer_id: Seq<u8>, gone: Instant, now: Instant)
    requires
        v.wf(),
        place_of(v.entries, peer_id) matches Some(i) && !(v.entries[i].state is Banned),
        gone.nanos + MAX_BACKOFF_SECS * 1_000_000_000 <= u128::MAX,
    ensures
        ({
            let w = v.disconnected(peer_id, gone);
            let count = w.entries[place_of(v.entries, peer_id)->0].disconnect_count as nat;
            let over = now.nanos >= gone.nanos + backoff_secs(count) * 1_000_000_000;
            &&& !over ==> w.add_outcome(peer_id, now) == Err::<PoolView, PoolFullError>(
                PoolFullError::BackoffActive,
            )
            &&& over && active_entries(w.entries).len() < w.config.max_peers ==> w.add_outcome(
                peer_id,
                now,
            ) is Ok
        }),
{
    let i = place_of(v.entries, peer_id)->0;
    assert(is_at(v.entries, peer_id, i));
    let w = v.disconnected(peer_id, gone);
    let count = w.entries[i].disconnect_count as nat;
    lemma_backoff(count, count);
    lemma_with_entry_wf(v, i, w.entries[i]);
    assert(is_at(w.entries, peer_id, i));
    lemma_place(w, peer_id, i);
}

/// Adding a peer that is active changes nothing, and a peer that was added is
/// active.
pub proof fn law_added_peer_is_active(v: PoolView, peer_id: Seq<u8>, now: Instant, w: PoolView)
    requires
        v.wf(),
        w.wf(),
        v.add_outcome(peer_id, now) == Ok::<PoolView, PoolFullError>(w),
    ensures
        place_of(w.entries, peer_id) matches Some(i) && w.entries[i].state is Active,
        w.add_outcome(peer_id, now) == Ok::<PoolView, PoolFullError>(w),
{
    match place_of(v.entries, peer_id) {
        Some(i) => {
            assert(is_at(v.entries, peer_id, i));
            if v.entries[i].state is Disconnected {
                let roomy = v.with_room(now)->0;
                if roomy != v {
                    let gone = v.worst(now)->0;
                    assert(v.is_worst(now, gone));
                    if gone < i {
                        assert(v.entries[gone].peer_id != v.entries[i].peer_id);
                    } else {
                        assert(v.entries[i].peer_id != v.entries[gone].peer_id);
                    }
                    lemma_dropped_place(v, gone, peer_id);
                }
                let at = place_of(roomy.entries, peer_id)->0;
                assert(is_at(roomy.entries, peer_id, at));
                assert(is_at(w.entries, peer_id, at));
                lemma_place(w, peer_id, at);
            }
        },
        None => {
            let at = w.entries.len() - 1;
            assert(is_at(w.entries, peer_id, at));
            lemma_place(w, peer_id, at);
        },
    }
}

/// A peer that has been active for the minimum time and scores below the
/// threshold, by its record and the clock alone.
pub open spec fn scores_too_low(e: EntryView, config: PeerPoolConfig, now: Instant) -> bool {
    &&& e.state == PeerState::Active
    &&& now.nanos >= e.state_changed_at.nanos + config.min_active_duration.nanos
        || config.min_active_duration.nanos == 0
    &&& e.score < config.eviction_threshold
}

/// Who is evicted: a peer that scores too low, such that every other one that
/// does scores at least as high, and no earlier one scores the same. Nobody is
/// evicted only where nobody scores too low.
pub proof fn law_worst_peer_scores_lowest(v: PoolView, now: Instant)
    ensures
        match v.worst(now) {
            Some(i) => {
                &&& 0 <= i < v.entries.len()
                &&& scores_too_low(v.entries[i], v.config, now)
                &&& forall|j: int|
                    0 <= j < v.entries.len() && scores_too_low(
                        #[trigger] v.entries[j],
                        v.config,
                        now,
                    ) ==> v.entries[i].score <= v.entries[j].score
                &&& forall|j: int|
                    0 <= j < i && scores_too_low(#[trigger] v.entries[j], v.config, now)
                        ==> v.entries[i].score < v.entries[j].score
            },
            None => forall|j: int|
                0 <= j < v.entries.len() ==> !scores_too_low(
                    #[trigger] v.entries[j],
                    v.config,
                    now,
                ),
        },
{
    assert forall|j: int| 0 <= j < v.entries.len() implies (#[trigger] v.entries[j]).evictable(
        v.config,
        now,
    ) == scores_too_low(v.entries[j], v.config, now) by {}
    lemma_some_worst(v, now, v.entries.len() as int);
    match v.worst(now) {
        Some(i) => {
            assert(v.is_worst(now, i));
        },
        None => {
            assert forall|j: int| 0 <= j < v.entries.len() implies !scores_too_low(
                #[trigger] v.entries[j],
                v.config,
                now,
            ) by {
                if scores_too_low(v.entries[j], v.config, now) {
                    assert(v.entries[j].evictable(v.config, now));
                }
            }
        },
    }
}

/// Among the first entries that may be evicted there is a worst one.
proof fn lemma_some_worst(v: PoolView, now: Instant, n: int)
    requires
        0 <= n <= v.entries.len(),
    ensures
        (exists|j: int| 0 <= j < n && (#[trigger] v.entries[j]).evictable(v.config, now)) ==> exists|
            i: int,
        |
            0 <= i < n && #[trigger] is_worst_of(v, now, n, i),
        n == v.entries.len() ==> forall|i: int| #[trigger]
            is_worst_of(v, now, n, i) && 0 <= i < n ==> v.is_worst(now, i),
    decreases n,
{
    if n > 0 {
        lemma_some_worst(v, now, n - 1);
        if v.entries[n - 1].evictable(v.config, now) {
            if exists|j: int| 0 <= j < n - 1 && (#[trigger] v.entries[j]).evictable(v.config, now) {
                let c = choose|i: int| 0 <= i < n - 1 && #[trigger] is_worst_of(v, now, n - 1, i);
                if v.entries[n - 1].score < v.entries[c].score {
                    assert(is_worst_of(v, now, n, n - 1));
                } else {
                    assert(is_worst_of(v, now, n, c));
                }
            } else {
                assert(is_worst_of(v, now, n, n - 1));
            }
        } else if exists|j: int|
            0 <= j < n && (#[trigger] v.entries[j]).evictable(v.config, now) {
            let j = choose|j: int|
                0 <= j < n && (#[trigger] v.entries[j]).evictable(v.config, now);
            assert(j < n - 1);
            let c = choose|i: int| 0 <= i < n - 1 && #[trigger] is_worst_of(v, now, n - 1, i);
            assert(is_worst_of(v, now, n, c));
        }
    }
}

/// The entry at `i` is the worst of the first `n`.
spec fn is_worst_of(v: PoolView, now: Instant, n: int, i: int) -> bool {
    &&& v.entries[i].evictable(v.config, now)
    &&& forall|j: int|
        0 <= j < n && (#[trigger] v.entries[j]).evictable(v.config, now) ==> v.entries[i].score
            < v.entries[j].score || v.entries[i].score == v.entries[j].score && i <= j
}

/// The peer at `i` made way: it scored too low, nobody who did scored lower, and
/// of all records its own alone is gone.
pub open spec fn made_way(
    v: PoolView,
    w: PoolView,
    peer_id: Seq<u8>,
    now: Instant,
    i: int,
) -> bool {
    &&& 0 <= i < v.entries.len()
    &&& scores_too_low(v.entries[i], v.config, now)
    &&& forall|j: int|
        0 <= j < v.entries.len() && scores_too_low(#[trigger] v.entries[j], v.config, now)
            ==> v.entries[i].score <= v.entries[j].score
    &&& forall|k: int|
        0 <= k < w.entries.len() ==> (#[trigger] w.entries[k]).peer_id != v.entries[i].peer_id
    &&& forall|j: int|
        0 <= j < v.entries.len() && j != i && (#[trigger] v.entries[j]).peer_id != peer_id
            ==> w.entries.contains(v.entries[j])
}

/// What a full pool does for a peer that comes in: it drops one peer that scores
/// too low, one with the lowest score of those, and keeps the records of all
/// others.
pub proof fn law_full_pool_drops_lowest_score(
    v: PoolView,
    peer_id: Seq<u8>,
    now: Instant,
    w: PoolView,
)
    requires
        v.wf(),
        v.add_outcome(peer_id, now) == Ok::<PoolView, PoolFullError>(w),
        forall|i: int|
            0 <= i < v.entries.len() && (#[trigger] v.entries[i]).peer_id == peer_id
                ==> v.entries[i].state != PeerState::Active,
        active_entries(v.entries).len() >= v.config.max_peers,
    ensures
        exists|i: int| #[trigger] made_way(v, w, peer_id, now, i),
{
    law_worst_peer_scores_lowest(v, now);
    let i = v.worst(now)->0;
    let place = place_of(v.entries, peer_id);
    if place is Some {
        assert(is_at(v.entries, peer_id, place->0));
    }
    let roomy = v.dropped(i);
    assert(v.with_room(now) == Some(roomy));
    lemma_dropped_wf(v, i);
    assert(v.entries[i].peer_id != peer_id);
    lemma_dropped_place(v, i, peer_id);
    let at = place_of(roomy.entries, peer_id);
    if place is Some {
        assert(is_at(roomy.entries, peer_id, at->0));
    }
    lemma_others_stay(v, w, peer_id, i, if place is Some { at->0 } else { -1 });
    assert(made_way(v, w, peer_id, now, i));
}

/// Dropping one record and then writing or adding one of another peer leaves all
/// others.
proof fn lemma_others_stay(v: PoolView, w: PoolView, peer_id: Seq<u8>, i: int, at: int)
    requires
        v.wf(),
        0 <= i < v.entries.len(),
        v.entries[i].peer_id != peer_id,
        v.dropped(i).entries.len() <= w.entries.len() <= v.dropped(i).entries.len() + 1,
        forall|k: int|
            0 <= k < v.dropped(i).entries.len() && k != at ==> #[trigger] w.entries[k] == v.dropped(
                i,
            ).entries[k],
        0 <= at < v.dropped(i).entries.len() ==> w.entries[at].peer_id == peer_id && v.dropped(
            i,
        ).entries[at].peer_id == peer_id,
        w.entries.len() > v.dropped(i).entries.len() ==> w.entries.last().peer_id == peer_id,
    ensures
        forall|k: int|
            0 <= k < w.entries.len() ==> (#[trigger] w.entries[k]).peer_id != v.entries[i].peer_id,
        forall|j: int|
            0 <= j < v.entries.len() && j != i && (#[trigger] v.entries[j]).peer_id != peer_id
                ==> w.entries.contains(v.entries[j]),
{
    let roomy = v.dropped(i);
    assert forall|k: int| 0 <= k < w.entries.len() implies (#[trigger] w.entries[k]).peer_id
        != v.entries[i].peer_id by {
        if k < roomy.entries.len() && k != at {
            let o = if k < i { k } else { k + 1 };
            assert(roomy.entries[k] == v.entries[o]);
            assert(o != i);
            if o < i {
                assert(v.entries[o].peer_id != v.entries[i].peer_id);
            } else {
                assert(v.entries[i].peer_id != v.entries[o].peer_id);
            }
        }
    }
    assert forall|j: int|
        0 <= j < v.entries.len() && j != i && (#[trigger] v.entries[j]).peer_id
            != peer_id implies w.entries.contains(v.entries[j]) by {
        let k = if j < i { j } else { j - 1 };
        assert(roomy.entries[k] == v.entries[j]);
        assert(w.entries[k] == v.entries[j]);
    }
}

/// Who gets in: a banned peer never does, a disconnected one not before its
/// backoff is over, an active one is left as it is, and any other does exactly
/// if there is room or somebody scores too low.
pub proof fn law_who_gets_in(v: PoolView, peer_id: Seq<u8>, now: Instant, i: int)
    requires
        v.wf(),
        0 <= i < v.entries.len() ==> v.entries[i].peer_id == peer_id,
        !(0 <= i < v.entries.len()) ==> forall|j: int|
            0 <= j < v.entries.len() ==> (#[trigger] v.entries[j]).peer_id != peer_id,
    ensures
        ({
            let known = 0 <= i < v.entries.len();
            let waits = known && v.entries[i].state == PeerState::Disconnected
                && v.entries[i].reconnect_after is Some && now.nanos
                < v.entries[i].reconnect_after->0.nanos;
            let room = active_entries(v.entries).len() < v.config.max_peers || exists|j: int|
                0 <= j < v.entries.len() && scores_too_low(
                    #[trigger] v.entries[j],
                    v.config,
                    now,
                );
            let r = v.add_outcome(peer_id, now);
            &&& known && v.entries[i].state == PeerState::Banned ==> r == Err::<
                PoolView,
                PoolFullError,
            >(PoolFullError::Banned)
            &&& known && v.entries[i].state == PeerState::Active ==> r == Ok::<
                PoolView,
                PoolFullError,
            >(v)
            &&& waits ==> r == Err::<PoolView, PoolFullError>(PoolFullError::BackoffActive)
            &&& (!known || v.entries[i].state == PeerState::Disconnected) && !waits ==> (r is Ok
                <==> room)
            &&& (!known || v.entries[i].state == PeerState::Disconnected) && !waits && !room ==> r
                == Err::<PoolView, PoolFullError>(
                PoolFullError::AtCapacity { max_peers: v.config.max_peers },
            )
        }),
{
    law_worst_peer_scores_lowest(v, now);
    if 0 <= i < v.entries.len() {
        assert(is_at(v.entries, peer_id, i));
        lemma_place(v, peer_id, i);
    } else if place_of(v.entries, peer_id) is Some {
        assert(is_at(v.entries, peer_id, place_of(v.entries, peer_id)->0));
    }
}

/// What the record of a peer that got in says: it is active from now on; a new
/// one starts without a score and without disconnections, one that came back
/// keeps both. Where there was room, all other records stay.
pub proof fn law_record_of_joined_peer(
    v: PoolView,
    peer_id: Seq<u8>,
    now: Instant,
    w: PoolView,
    k: int,
)
    requires
        v.wf(),
        v.add_outcome(peer_id, now) == Ok::<PoolView, PoolFullError>(w),
        0 <= k < w.entries.len(),
    ensures
        w.config == v.config,
        w.entries[k].peer_id == peer_id ==> w.entries[k].state == PeerState::Active,
        w.entries[k].peer_id == peer_id && (forall|j: int|
            0 <= j < v.entries.len() ==> (#[trigger] v.entries[j]).peer_id != peer_id)
            ==> w.entries[k].score == 0 && w.entries[k].disconnect_count == 0
            && w.entries[k].state_changed_at == now,
        forall|j: int|
            #![trigger v.entries[j]]
            0 <= j < v.entries.len() && v.entries[j].peer_id == peer_id && w.entries[k].peer_id
                == peer_id ==> w.entries[k].score == v.entries[j].score
                && w.entries[k].disconnect_count == v.entries[j].disconnect_count && (
            v.entries[j].state == PeerState::Disconnected ==> w.entries[k].state_changed_at == now),
        w.entries[k].peer_id != peer_id ==> v.entries.contains(w.entries[k]),
        active_entries(v.entries).len() < v.config.max_peers ==> forall|j: int|
            #![trigger v.entries[j]]
            0 <= j < v.entries.len() && v.entries[j].peer_id != peer_id ==> w.entries.contains(
                v.entries[j],
            ),
{
    let place = place_of(v.entries, peer_id);
    if place is Some {
        assert(is_at(v.entries, peer_id, place->0));
    }
    if forall|j: int| 0 <= j < v.entries.len() ==> (#[trigger] v.entries[j]).peer_id != peer_id {
        assert(place is None) by {
            if place is Some {
                assert(v.entries[place->0].peer_id != peer_id);
            }
        }
    }
    assert forall|j: int|
        #![trigger v.entries[j]]
        0 <= j < v.entries.len() && v.entries[j].peer_id == peer_id implies place == Some(j) by {
        assert(is_at(v.entries, peer_id, j));
        lemma_place(v, peer_id, j);
    }
    if place is Some && v.entries[place->0].state is Active {
        if w.entries[k].peer_id == peer_id {
            assert(v.entries[k].peer_id == peer_id);
        }
        assert forall|j: int|
            #![trigger v.entries[j]]
            0 <= j < v.entries.len() implies w.entries.contains(v.entries[j]) by {}
        assert(v.entries.contains(w.entries[k]));
    } else {
        let full = active_entries(v.entries).len() >= v.config.max_peers;
        let roomy = v.with_room(now)->0;
        let gone = v.worst(now)->0;
        if full {
            assert(v.is_worst(now, gone));
            lemma_dropped_wf(v, gone);
            if place is Some && place->0 == gone {
                assert(v.entries[gone].state is Active);
            }
            if v.entries[gone].peer_id == peer_id {
                assert(place == Some(gone));
            }
            lemma_dropped_place(v, gone, peer_id);
            assert forall|a: int|
                0 <= a < roomy.entries.len() implies #[trigger] roomy.entries[a] == v.entries[if a
                < gone {
                a
            } else {
                a + 1
            }] by {}
        }
        let at = place_of(roomy.entries, peer_id);
        if at is Some {
            assert(is_at(roomy.entries, peer_id, at->0));
        }
        if w.entries[k].peer_id == peer_id {
            if place is Some {
                if k != at->0 {
                    assert(roomy.entries[k].peer_id == peer_id);
                    assert(is_at(roomy.entries, peer_id, k));
                    lemma_place(roomy, peer_id, k);
                }
            } else if k < roomy.entries.len() {
                assert(is_at(roomy.entries, peer_id, k));
            }
        } else {
            assert(w.entries[k] == roomy.entries[k]);
            if full {
                assert(roomy.entries[k] == v.entries[if k < gone { k } else { k + 1 }]);
            } else {
                assert(roomy.entries[k] == v.entries[k]);
            }
        }
        if !full {
            assert forall|j: int|
                #![trigger v.entries[j]]
                0 <= j < v.entries.len() && v.entries[j].peer_id
                    != peer_id implies w.entries.contains(v.entries[j]) by {
                assert(w.entries[j] == v.entries[j]);
            }
        }
    }
}

/// The delays after one disconnection and more: 5, 10, 20, 40, 80 and 160
/// seconds, then 5 minutes each time.
pub proof fn law_backoff_delays(n: nat)
    ensures
        backoff_secs(1) == 5,
        backoff_secs(2) == 10,
        backoff_secs(3) == 20,
        backoff_secs(4) == 40,
        backoff_secs(5) == 80,
        backoff_secs(6) == 160,
        n >= 7 ==> backoff_secs(n) == 300,
{
    reveal_with_fuel(backoff_secs, 8);
    if n >= 7 {
        lemma_backoff(7, n);
    }
}

/// A disconnection is counted, starts now and keeps the peer away for the delay
/// of that count; score and identity stay, as do all other records. A banned peer
/// stays banned.
pub proof fn law_disconnection(v: PoolView, peer_id: Seq<u8>, now: Instant, i: int, j: int)
    requires
        v.wf(),
        0 <= i < v.entries.len(),
        v.entries[i].peer_id == peer_id,
        0 <= j < v.entries.len(),
        now.nanos + 300_000_000_000 <= u128::MAX,
    ensures
        v.disconnected(peer_id, now).entries.len() == v.entries.len(),
        j != i ==> v.disconnected(peer_id, now).entries[j] == v.entries[j],
        v.disconnected(peer_id, now).config == v.config,
        v.entries[i].state == PeerState::Banned ==> v.disconnected(peer_id, now).entries[i]
            == v.entries[i],
        v.entries[i].state != PeerState::Banned ==> {
            let e = v.disconnected(peer_id, now).entries[i];
            &&& e.peer_id == peer_id
            &&& e.state == PeerState::Disconnected
            &&& e.state_changed_at == now
            &&& e.score == v.entries[i].score
            &&& v.entries[i].disconnect_count < u32::MAX ==> e.disconnect_count
                == v.entries[i].disconnect_count + 1
            &&& v.entries[i].disconnect_count == u32::MAX ==> e.disconnect_count == u32::MAX
            &&& e.reconnect_after is Some
            &&& e.reconnect_after->0.nanos == now.nanos + backoff_secs(e.disconnect_count as nat)
                * 1_000_000_000
        },
{
    assert(is_at(v.entries, peer_id, i));
    lemma_place(v, peer_id, i);
    let e = v.disconnected(peer_id, now).entries[i];
    lemma_backoff(e.disconnect_count as nat, e.disconnect_count as nat);
}

/// A ban changes the state of one peer and a score one number; all else stays.
/// What is said of an unknown peer changes nothing.
pub proof fn law_ban_and_score_touch_one_peer(
    v: PoolView,
    peer_id: Seq<u8>,
    score: u64,
    now: Instant,
    i: int,
)
    requires
        v.wf(),
        0 <= i < v.entries.len(),
    ensures
        v.entries[i].peer_id == peer_id ==> {
            let e = v.banned(peer_id, now).entries[i];
            &&& e.peer_id == peer_id && e.state == PeerState::Banned
            &&& e.score == v.entries[i].score
            &&& e.disconnect_count == v.entries[i].disconnect_count
            &&& e.state_changed_at == now
            &&& v.scored(peer_id, score).entries[i] == (EntryView { score, ..v.entries[i] })
        },
        v.entries[i].peer_id != peer_id ==> v.banned(peer_id, now).entries[i] == v.entries[i]
            && v.scored(peer_id, score).entries[i] == v.entries[i],
        v.banned(peer_id, now).entries.len() == v.entries.len(),
        v.scored(peer_id, score).entries.len() == v.entries.len(),
        (forall|j: int| 0 <= j < v.entries.len() ==> (#[trigger] v.entries[j]).peer_id != peer_id)
            ==> v.banned(peer_id, now) == v && v.scored(peer_id, score) == v && v.disconnected(
            peer_id,
            now,
        ) == v,
{
    if v.entries[i].peer_id == peer_id {
        assert(is_at(v.entries, peer_id, i));
        lemma_place(v, peer_id, i);
    }
    if place_of(v.entries, peer_id) is Some {
        assert(is_at(v.entries, peer_id, place_of(v.entries, peer_id)->0));
    }
}

/// What is listed: the active peers, those whose backoff is over, and after
/// pruning all but those disconnected ones whose backoff is over and who have
/// been away for the threshold; each in the order in which they are known.
pub proof fn law_lists_select_by_record(
    entries: Seq<EntryView>,
    threshold: Duration,
    now: Instant,
)
    ensures
        active_entries(entries) == entries.filter(|e: EntryView| e.state == PeerState::Active),
        reconnectable(entries, now) == entries.filter(
            |e: EntryView|
                e.state == PeerState::Disconnected && (e.reconnect_after is Some ==> now.nanos
                    >= e.reconnect_after->0.nanos),
        ),
        unpruned(entries, threshold, now) == entries.filter(
            |e: EntryView|
                !(e.state == PeerState::Disconnected && (e.reconnect_after is Some ==> now.nanos
                    >= e.reconnect_after->0.nanos) && (now.nanos >= e.state_changed_at.nanos
                    + threshold.nanos || threshold.nanos == 0)),
        ),
    decreases entries.len(),
{
    reveal(Seq::filter);
    if entries.len() > 0 {
        law_lists_select_by_record(entries.drop_last(), threshold, now);
    }
}

/// A ranking lists exactly the active peers, those with higher scores first, and
/// of two with the same score the one that is known longer.
pub proof fn law_ranking_is_by_score(
    out: Seq<EntryView>,
    entries: Seq<EntryView>,
    p: int,
    q: int,
)
    requires
        is_ranked_by(out, active_entries(entries), score_keys(active_entries(entries))),
        0 <= p < q < out.len(),
    ensures
        out[p].score >= out[q].score,
        out.len() == entries.filter(|e: EntryView| e.state == PeerState::Active).len(),
        out[p].state == PeerState::Active && entries.contains(out[p]),
        forall|e: EntryView| #[trigger]
            entries.contains(e) && e.state == PeerState::Active ==> out.contains(e),
{
    let active = active_entries(entries);
    let keys = score_keys(active);
    let order = choose|order: Seq<usize>| #[trigger]
        is_stable_order(keys, order) && out == arranged(active, order);
    let is_active = |e: EntryView| e.state == PeerState::Active;
    law_lists_select_by_record(entries, Duration { nanos: 0 }, Instant { nanos: 0 });
    assert(crate::rank::goes_before(keys, order[p] as int, order[q] as int));
    assert(0 <= order[p] < active.len());
    entries.lemma_filter_pred(is_active, order[p] as int);
    assert(active.contains(out[p]));
    entries.lemma_filter_contains_rev(is_active, out[p]);
    assert forall|e: EntryView| #[trigger]
        entries.contains(e) && e.state == PeerState::Active implies out.contains(e) by {
        let k = choose|k: int| 0 <= k < entries.len() && entries[k] == e;
        entries.lemma_filter_contains(is_active, k);
        let a = choose|a: int| 0 <= a < active.len() && active[a] == e;
        crate::rank::lemma_stable_order_covers(keys, order, a);
        let at = choose|at: int| 0 <= at < order.len() && #[trigger] order[at] == a;
        assert(out[at] == e);
    }
}

/// A peer is found exactly if it has a record, and then its own.
pub proof fn law_peer_is_found(v: PoolView, peer_id: Seq<u8>, i: int)
    requires
        v.wf(),
    ensures
        0 <= i < v.entries.len() && v.entries[i].peer_id == peer_id ==> place_of(
            v.entries,
            peer_id,
        ) == Some(i),
        place_of(v.entries, peer_id) matches Some(k) ==> 0 <= k < v.entries.len()
            && v.entries[k].peer_id == peer_id,
{
    if 0 <= i < v.entries.len() && v.entries[i].peer_id == peer_id {
        assert(is_at(v.entries, peer_id, i));
        lemma_place(v, peer_id, i);
    }
    if place_of(v.entries, peer_id) is Some {
        assert(is_at(v.entries, peer_id, place_of(v.entries, peer_id)->0));
    }
}

/// The limits of a pool: peers, seconds of waiting from and to, the score below
/// which peers go, and the seconds for which they stay.
pub proof fn law_limits()
    ensures
        DEFAULT_MAX_PEERS == 55,
        INITIAL_BACKOFF_SECS == 5,
        MAX_BACKOFF_SECS == 300,
        EVICTION_SCORE_THRESHOLD == 100,
        MIN_ACTIVE_SECS == 30,
{
}

} // verus!
