//! Per-peer session statistics for peer selection.
//!
//! [`PeerTracker`] maintains [`PeerStats`] for every peer in a download
//! session: what was served and refused, how long fetches took, how often a
//! peer came back after failing. From these it decides how far a peer is
//! trusted, when to stay away from it, and what goes into its score. A
//! [`PeerReputation`] carries the essentials into the next session.
//!
//! Speeds are measured in whole bytes per second. Whoever fetches a piece
//! measures and smooths the speed and hands both numbers in as a
//! [`SpeedSample`].

use vstd::prelude::*;

use crate::peer::RejectionReason;
use crate::peer_id::PeerId;
use crate::time::elapsed;
use crate::time::Duration;
use crate::time::Instant;
use crate::time::NANOS_PER_SEC;

verus! {

/// Peers not seen for this long get no credit for recency.
pub const RECENCY_WINDOW_SECS: u64 = 300;

/// Disconnect count from which a peer gets no credit for availability.
pub const MAX_DISCONNECTS: u32 = 10;

/// Seconds for which a new peer gets the benefit of the doubt.
pub const NEW_PEER_GRACE_SECS: u64 = 10;

/// Pieces a peer must serve before advancing to [`TrustLevel::Established`].
pub const ESTABLISHED_THRESHOLD: u32 = 3;

/// Pieces a peer must serve before reaching [`TrustLevel::Trusted`].
pub const TRUSTED_THRESHOLD: u32 = 10;

/// Seconds without data after which a peer counts as snubbed.
pub const SNUB_TIMEOUT_SECS: u64 = 60;

// ── Trust ───────────────────────────────────────────────────────────

/// Trust level for a peer based on observed successful deliveries.
#[derive(Debug, Clone, Copy, PartialEq, Eq, PartialOrd, Ord, Structural)]
pub enum TrustLevel {
    /// No successful pieces yet.
    Untested,
    /// 1 or 2 successful pieces.
    Probationary,
    /// 3 to 9 successful pieces.
    Established,
    /// 10 or more successful pieces.
    Trusted,
}

impl TrustLevel {
    /// How far up a level stands.
    pub open spec fn height(self) -> int {
        match self {
            TrustLevel::Untested => 0,
            TrustLevel::Probationary => 1,
            TrustLevel::Established => 2,
            TrustLevel::Trusted => 3,
        }
    }

    /// The level of a peer that has served so many pieces.
    pub open spec fn after_pieces(served: u32) -> TrustLevel {
        if served >= TRUSTED_THRESHOLD {
            TrustLevel::Trusted
        } else if served >= ESTABLISHED_THRESHOLD {
            TrustLevel::Established
        } else if served > 0 {
            TrustLevel::Probationary
        } else {
            TrustLevel::Untested
        }
    }

    /// The least number of pieces for a level.
    pub open spec fn least_pieces(self) -> u32 {
        match self {
            TrustLevel::Untested => 0,
            TrustLevel::Probationary => 1,
            TrustLevel::Established => ESTABLISHED_THRESHOLD,
            TrustLevel::Trusted => TRUSTED_THRESHOLD,
        }
    }
}

// ── Reputation ──────────────────────────────────────────────────────

/// Cross-session peer reputation snapshot for persistent trust.
#[derive(Debug, Clone, Copy, PartialEq, Eq)]
pub struct PeerReputation {
    /// The peer's cryptographic identity.
    pub peer_id: PeerId,
    /// Trust level at the end of the previous session.
    pub trust_level: TrustLevel,
    /// Lifetime pieces successfully served across all sessions.
    pub lifetime_pieces_served: u64,
    /// Lifetime corruption events across all sessions.
    pub lifetime_corruption_count: u32,
    /// Average speed in bytes per second from the last estimate.
    pub avg_speed_bytes_per_sec: u64,
    /// Last time this peer was successfully contacted (Unix epoch seconds).
    pub last_seen_unix_secs: u64,
    /// Whether this peer is permanently banned.
    pub banned: bool,
}

/// The first reputation of a peer.
pub open spec fn is_first_reputation(reps: Seq<PeerReputation>, id: PeerId, i: int) -> bool {
    &&& 0 <= i < reps.len()
    &&& reps[i].peer_id@ == id@
    &&& forall|j: int| 0 <= j < i ==> (#[trigger] reps[j]).peer_id@ != id@
}

/// The reputation that counts for a peer, if there is one.
pub open spec fn reputation_of(reps: Seq<PeerReputation>, id: PeerId) -> Option<PeerReputation> {
    if exists|i: int| is_first_reputation(reps, id, i) {
        Some(reps[choose|i: int| is_first_reputation(reps, id, i)])
    } else {
        None
    }
}

/// Finds the reputation that counts for a peer.
fn find_reputation<'a>(reps: &'a [PeerReputation], id: &PeerId) -> (r: Option<&'a PeerReputation>)
    ensures
        match r {
            Some(rep) => reputation_of(reps@, *id) == Some(*rep),
            None => reputation_of(reps@, *id) is None,
        },
{
    let mut i: usize = 0;
    while i < reps.len()
        invariant
            i <= reps@.len(),
            forall|j: int| 0 <= j < i ==> (#[trigger] reps@[j]).peer_id@ != id@,
        decreases reps@.len() - i,
    {
        if reps[i].peer_id == *id {
            proof {
                assert(is_first_reputation(reps@, *id, i as int));
                let k = choose|k: int| is_first_reputation(reps@, *id, k);
                assert(is_first_reputation(reps@, *id, k));
                if k < i {
                    assert(reps@[k].peer_id@ != id@);
                } else if i < k {
                    assert(reps@[i as int].peer_id@ != id@);
                }
            }
            return Some(&reps[i]);
        }
        i += 1;
    }
    None
}

// ── Stats ───────────────────────────────────────────────────────────

/// The speed of one fetch and the smoothed speed after it, in whole bytes per
/// second.
#[derive(Debug, Clone, Copy, PartialEq, Eq, Structural)]
pub struct SpeedSample {
    /// Speed of the fetch.
    pub speed: u64,
    /// Exponentially weighted moving average after the fetch.
    pub smoothed: u64,
}

/// Per-peer session statistics collected during download coordination.
#[derive(Debug, Clone)]
pub struct PeerStats {
    /// Total pieces successfully served by this peer, with those credited.
    pub pieces_served: u32,
    /// Pieces among those served that an earlier reputation credits and that
    /// were not served in this session. Negative where the reputation set the
    /// count back.
    pub credited_pieces: i64,
    /// Total pieces requested (success and failure).
    pub pieces_requested: u32,
    /// Total bytes successfully received from this peer.
    pub bytes_received: u64,
    /// Total corruption events (subset of failures).
    pub corruption_count: u32,
    /// Total timeout events (subset of failures).
    pub timeout_count: u32,
    /// Total rejection events (peer actively refused).
    pub rejection_count: u32,
    /// Last rejection reason (if any).
    pub last_rejection: Option<RejectionReason>,
    /// Sum of individual piece fetch durations.
    pub cumulative_fetch_duration: Duration,
    /// Peak observed speed in bytes per second for any single piece.
    pub peak_speed: u64,
    /// Timestamp of the last successful piece fetch.
    pub last_success_at: Option<Instant>,
    /// Timestamp of the last failure (any kind).
    pub last_failure_at: Option<Instant>,
    /// Number of times this peer came back after failing.
    pub disconnect_count: u32,
    /// When the peer was first seen in this session.
    pub first_seen: Instant,
    /// Consecutive transient rejection count. Reset to 0 on any successful
    /// fetch.
    pub consecutive_transient_rejections: u32,
    /// Smoothed speed in whole bytes per second.
    pub ewma_speed: u64,
}

/// One more, unless the counter is full.
pub open spec fn bumped(n: u32) -> u32 {
    if n < u32::MAX {
        (n + 1) as u32
    } else {
        n
    }
}

/// The backoff after so many transient rejections in a row, in seconds:
/// 5, 10, 20, 40, then 60.
pub open spec fn rejection_backoff_secs(n: u32) -> int {
    if n <= 1 {
        5
    } else if n == 2 {
        10
    } else if n == 3 {
        20
    } else if n == 4 {
        40
    } else {
        60
    }
}

/// Whole seconds between two points in time.
pub open spec fn elapsed_secs(later: Instant, earlier: Instant) -> int {
    elapsed(later, earlier) / NANOS_PER_SEC as int
}

/// How recently a peer was useful.
#[derive(Debug, Clone, Copy, PartialEq, Eq, Structural)]
pub enum Recency {
    /// Succeeded so many seconds ago, less than the recency window.
    Succeeded {
        /// Age of the last success in seconds.
        age_secs: u64,
    },
    /// Never succeeded but is brand-new.
    New,
    /// Neither.
    Stale,
}

/// What a peer's score is made of, as plain numbers.
#[derive(Debug, Clone, Copy, PartialEq, Eq)]
pub struct ScoreFactors {
    /// Share of the reference speed that the peer reaches.
    pub speed: Option<(u64, u64)>,
    /// Pieces served in this session out of pieces requested, if any were
    /// requested.
    pub reliability: Option<(u32, u32)>,
    /// Disconnects, up to the number from which they all count the same.
    pub disconnects: u32,
    /// How recently the peer was useful.
    pub recency: Recency,
    /// How far the peer is trusted.
    pub trust: TrustLevel,
}

impl PeerStats {
    /// Fresh stats for a peer.
    pub open spec fn is_fresh(self, now: Instant) -> bool {
        &&& self.pieces_served == 0
        &&& self.credited_pieces == 0
        &&& self.pieces_requested == 0
        &&& self.bytes_received == 0
        &&& self.corruption_count == 0
        &&& self.timeout_count == 0
        &&& self.rejection_count == 0
        &&& self.last_rejection is None
        &&& self.cumulative_fetch_duration.nanos == 0
        &&& self.peak_speed == 0
        &&& self.last_success_at is None
        &&& self.last_failure_at is None
        &&& self.disconnect_count == 0
        &&& self.first_seen == now
        &&& self.consecutive_transient_rejections == 0
        &&& self.ewma_speed == 0
    }

    /// The pieces served in this session, without those credited.
    pub open spec fn session_pieces(self) -> int {
        let pieces = self.pieces_served - self.credited_pieces;
        if pieces < 0 {
            0
        } else if pieces > u32::MAX {
            u32::MAX as int
        } else {
            pieces
        }
    }

    /// A failure came after the last success.
    pub open spec fn failed_since_success(self) -> bool {
        match (self.last_failure_at, self.last_success_at) {
            (Some(f), Some(s)) => f.nanos >= s.nanos,
            (Some(_), None) => true,
            (None, _) => false,
        }
    }

    /// The stats after a successful fetch.
    pub open spec fn after_success(
        self,
        bytes: u64,
        fetch_duration: Duration,
        sample: Option<SpeedSample>,
        now: Instant,
    ) -> PeerStats {
        PeerStats {
            pieces_served: bumped(self.pieces_served),
            pieces_requested: bumped(self.pieces_requested),
            bytes_received: if self.bytes_received + bytes <= u64::MAX {
                (self.bytes_received + bytes) as u64
            } else {
                u64::MAX
            },
            cumulative_fetch_duration: self.cumulative_fetch_duration.plus(fetch_duration),
            consecutive_transient_rejections: 0,
            peak_speed: match sample {
                Some(s) => if s.speed > self.peak_speed {
                    s.speed
                } else {
                    self.peak_speed
                },
                None => self.peak_speed,
            },
            ewma_speed: match sample {
                Some(s) => s.smoothed,
                None => self.ewma_speed,
            },
            disconnect_count: if self.failed_since_success() {
                bumped(self.disconnect_count)
            } else {
                self.disconnect_count
            },
            last_success_at: Some(now),
            ..self
        }
    }

    /// The stats after a failed fetch.
    pub open spec fn after_failure(self, now: Instant) -> PeerStats {
        PeerStats {
            pieces_requested: bumped(self.pieces_requested),
            last_failure_at: Some(now),
            ..self
        }
    }

    /// The stats after a corrupt piece.
    pub open spec fn after_corruption(self, now: Instant) -> PeerStats {
        PeerStats { corruption_count: bumped(self.corruption_count), ..self }.after_failure(now)
    }

    /// The stats after a timeout.
    pub open spec fn after_timeout(self, now: Instant) -> PeerStats {
        PeerStats { timeout_count: bumped(self.timeout_count), ..self }.after_failure(now)
    }

    /// The stats after a rejection.
    pub open spec fn after_rejection(self, reason: RejectionReason, now: Instant) -> PeerStats {
        PeerStats {
            rejection_count: bumped(self.rejection_count),
            consecutive_transient_rejections: if reason.is_transient() {
                bumped(self.consecutive_transient_rejections)
            } else {
                self.consecutive_transient_rejections
            },
            last_rejection: Some(reason),
            ..self
        }.after_failure(now)
    }

    /// The backoff window of a transient rejection is open.
    pub open spec fn backs_off(self, now: Instant) -> bool {
        &&& self.last_rejection matches Some(reason)
        &&& reason.is_transient()
        &&& self.consecutive_transient_rejections > 0
        &&& self.last_failure_at matches Some(t)
        &&& elapsed_secs(now, t) < rejection_backoff_secs(self.consecutive_transient_rejections)
    }

    /// The last rejection is for good.
    pub open spec fn avoided(self) -> bool {
        self.last_rejection matches Some(reason) && reason.is_permanent()
    }

    /// No data came for too long.
    pub open spec fn snubbed(self, now: Instant) -> bool {
        let since = match self.last_success_at {
            Some(t) => t,
            None => self.first_seen,
        };
        elapsed_secs(now, since) >= SNUB_TIMEOUT_SECS
    }

    /// How recently the peer was useful.
    pub open spec fn recency(self, now: Instant) -> Recency {
        match self.last_success_at {
            Some(t) => if elapsed_secs(now, t) >= RECENCY_WINDOW_SECS {
                Recency::Stale
            } else {
                Recency::Succeeded { age_secs: elapsed_secs(now, t) as u64 }
            },
            None => if elapsed_secs(now, self.first_seen) < NEW_PEER_GRACE_SECS {
                Recency::New
            } else {
                Recency::Stale
            },
        }
    }

    /// What the score is made of.
    pub open spec fn factors(self, reference_speed: u64, now: Instant) -> ScoreFactors {
        ScoreFactors {
            speed: if reference_speed == 0 {
                None
            } else if self.ewma_speed >= reference_speed {
                Some((1, 1))
            } else {
                Some((self.ewma_speed, reference_speed))
            },
            reliability: if self.pieces_requested == 0 {
                None
            } else {
                Some((self.session_pieces() as u32, self.pieces_requested))
            },
            disconnects: if self.disconnect_count < MAX_DISCONNECTS {
                self.disconnect_count
            } else {
                MAX_DISCONNECTS
            },
            recency: self.recency(now),
            trust: TrustLevel::after_pieces(self.pieces_served),
        }
    }

    /// The snapshot at the end of a session.
    pub open spec fn reputation(
        self,
        peer_id: PeerId,
        now_unix_secs: u64,
        prior: Option<PeerReputation>,
    ) -> PeerReputation {
        let pieces = match prior {
            Some(p) => p.lifetime_pieces_served,
            None => 0,
        };
        let corruption = match prior {
            Some(p) => p.lifetime_corruption_count,
            None => 0,
        };
        PeerReputation {
            peer_id,
            trust_level: TrustLevel::after_pieces(self.pieces_served),
            lifetime_pieces_served: if pieces + self.session_pieces() <= u64::MAX {
                (pieces + self.session_pieces()) as u64
            } else {
                u64::MAX
            },
            lifetime_corruption_count: if corruption + self.corruption_count <= u32::MAX {
                (corruption + self.corruption_count) as u32
            } else {
                u32::MAX
            },
            avg_speed_bytes_per_sec: self.ewma_speed,
            last_seen_unix_secs: now_unix_secs,
            banned: self.avoided(),
        }
    }

    /// The stats of a peer with a known reputation: a banned peer is avoided,
    /// any other starts at the trust level that it had, with the pieces that it
    /// takes credited.
    pub open spec fn restored(self, rep: PeerReputation) -> PeerStats {
        if rep.banned {
            PeerStats { last_rejection: Some(RejectionReason::PolicyViolation), ..self }
        } else {
            PeerStats {
                pieces_served: rep.trust_level.least_pieces(),
                credited_pieces: (rep.trust_level.least_pieces() - self.session_pieces()) as i64,
                ewma_speed: if rep.avg_speed_bytes_per_sec > 0 {
                    rep.avg_speed_bytes_per_sec
                } else {
                    self.ewma_speed
                },
                ..self
            }
        }
    }

    /// Creates fresh stats for a peer, timestamped to `now`.
    pub fn new(now: Instant) -> (r: PeerStats)
        ensures
            r.is_fresh(now),
    {
        PeerStats {
            pieces_served: 0,
            credited_pieces: 0,
            pieces_requested: 0,
            bytes_received: 0,
            corruption_count: 0,
            timeout_count: 0,
            rejection_count: 0,
            last_rejection: None,
            cumulative_fetch_duration: Duration::from_nanos(0),
            peak_speed: 0,
            last_success_at: None,
            last_failure_at: None,
            disconnect_count: 0,
            first_seen: now,
            consecutive_transient_rejections: 0,
            ewma_speed: 0,
        }
    }

    /// Records a successful piece fetch.
    ///
    /// Updates served count, byte total, speed tracking, and detects reconnect
    /// patterns (a success after a recent failure). `sample` is the measured
    /// speed, if the fetch took any time.
    pub fn record_success(
        &mut self,
        bytes: u64,
        fetch_duration: Duration,
        sample: Option<SpeedSample>,
        now: Instant,
    )
        ensures
            *final(self) == old(self).after_success(bytes, fetch_duration, sample, now),
    {
        self.pieces_served = self.pieces_served.saturating_add(1);
        self.pieces_requested = self.pieces_requested.saturating_add(1);
        self.bytes_received = self.bytes_received.saturating_add(bytes);
        self.cumulative_fetch_duration = self.cumulative_fetch_duration.saturating_add(
            fetch_duration,
        );
        self.consecutive_transient_rejections = 0;
        match sample {
            Some(s) => {
                if s.speed > self.peak_speed {
                    self.peak_speed = s.speed;
                }
                self.ewma_speed = s.smoothed;
            },
            None => {},
        }
        let had_recent_failure = match self.last_failure_at {
            Some(f) => match self.last_success_at {
                Some(s) => f.nanos >= s.nanos,
                None => true,
            },
            None => false,
        };
        if had_recent_failure {
            self.disconnect_count = self.disconnect_count.saturating_add(1);
        }
        self.last_success_at = Some(now);
    }

    /// Records a piece fetch failure (timeout, network error, etc.).
    pub fn record_failure(&mut self, now: Instant)
        ensures
            *final(self) == old(self).after_failure(now),
    {
        self.pieces_requested = self.pieces_requested.saturating_add(1);
        self.last_failure_at = Some(now);
    }

    /// Records a corruption event (a specific type of failure).
    pub fn record_corruption(&mut self, now: Instant)
        ensures
            *final(self) == old(self).after_corruption(now),
    {
        self.corruption_count = self.corruption_count.saturating_add(1);
        self.record_failure(now);
    }

    /// Records a timeout event (a specific type of failure).
    pub fn record_timeout(&mut self, now: Instant)
        ensures
            *final(self) == old(self).after_timeout(now),
    {
        self.timeout_count = self.timeout_count.saturating_add(1);
        self.record_failure(now);
    }

    /// Records a structured rejection from the peer.
    pub fn record_rejection(&mut self, reason: RejectionReason, now: Instant)
        ensures
            *final(self) == old(self).after_rejection(reason, now),
    {
        self.rejection_count = self.rejection_count.saturating_add(1);
        if matches!(reason, RejectionReason::RateLimited | RejectionReason::SwarmFull) {
            self.consecutive_transient_rejections =
            self.consecutive_transient_rejections.saturating_add(1);
        }
        self.last_rejection = Some(reason);
        self.record_failure(now);
    }

    /// Current trust level based on observed successful deliveries.
    pub fn trust_level(&self) -> (r: TrustLevel)
        ensures
            r == TrustLevel::after_pieces(self.pieces_served),
    {
        if self.pieces_served >= TRUSTED_THRESHOLD {
            TrustLevel::Trusted
        } else if self.pieces_served >= ESTABLISHED_THRESHOLD {
            TrustLevel::Established
        } else if self.pieces_served > 0 {
            TrustLevel::Probationary
        } else {
            TrustLevel::Untested
        }
    }

    /// Pieces served in this session, without those that an earlier reputation
    /// credits.
    pub fn session_pieces_served(&self) -> (r: u32)
        ensures
            r == self.session_pieces(),
    {
        let pieces: i128 = self.pieces_served as i128 - self.credited_pieces as i128;
        if pieces < 0 {
            0
        } else if pieces > u32::MAX as i128 {
            u32::MAX
        } else {
            pieces as u32
        }
    }

    /// Smoothed speed in whole bytes per second, 0 if there were no successful
    /// fetches yet.
    pub fn ewma_speed_bytes_per_sec(&self) -> (r: u64)
        ensures
            r == self.ewma_speed,
    {
        self.ewma_speed
    }

    /// What the composite score of this peer is made of.
    ///
    /// `reference_speed` is the speed of the fastest peer in the session, 0 if
    /// unknown.
    pub fn score_factors(&self, reference_speed: u64, now: Instant) -> (r: ScoreFactors)
        ensures
            r == self.factors(reference_speed, now),
    {
        let speed = if reference_speed == 0 {
            None
        } else if self.ewma_speed >= reference_speed {
            Some((1u64, 1u64))
        } else {
            Some((self.ewma_speed, reference_speed))
        };
        let reliability = if self.pieces_requested == 0 {
            None
        } else {
            Some((self.session_pieces_served(), self.pieces_requested))
        };
        let disconnects: u32 = if self.disconnect_count < MAX_DISCONNECTS {
            self.disconnect_count
        } else {
            MAX_DISCONNECTS
        };
        let recency = match self.last_success_at {
            Some(t) => {
                let age: u128 = now.duration_since(t).as_secs();
                if age >= RECENCY_WINDOW_SECS as u128 {
                    Recency::Stale
                } else {
                    Recency::Succeeded { age_secs: age as u64 }
                }
            },
            None => {
                let age: u128 = now.duration_since(self.first_seen).as_secs();
                if age < NEW_PEER_GRACE_SECS as u128 {
                    Recency::New
                } else {
                    Recency::Stale
                }
            },
        };
        ScoreFactors { speed, reliability, disconnects, recency, trust: self.trust_level() }
    }

    /// Whether to back off from this peer for a while.
    ///
    /// True if the last rejection was transient and its backoff window has not
    /// expired. Each consecutive transient rejection doubles the window:
    /// 5 s, 10 s, 20 s, 40 s, 60 s (capped).
    pub fn should_back_off(&self, now: Instant) -> (r: bool)
        ensures
            r == self.backs_off(now),
    {
        let is_transient = match &self.last_rejection {
            Some(reason) => matches!(
                reason,
                RejectionReason::RateLimited | RejectionReason::SwarmFull
            ),
            None => false,
        };
        if !is_transient || self.consecutive_transient_rejections == 0 {
            return false;
        }
        let backoff_secs: u128 = match self.consecutive_transient_rejections {
            0 | 1 => 5,
            2 => 10,
            3 => 20,
            4 => 40,
            _ => 60,
        };
        match self.last_failure_at {
            Some(t) => now.duration_since(t).as_secs() < backoff_secs,
            None => false,
        }
    }

    /// Whether to avoid this peer permanently.
    ///
    /// True if the last rejection was non-transient (policy violation,
    /// maintenance, or insufficient authentication).
    pub fn should_avoid_permanently(&self) -> (r: bool)
        ensures
            r == self.avoided(),
    {
        match &self.last_rejection {
            Some(reason) => matches!(
                reason,
                RejectionReason::PolicyViolation | RejectionReason::Maintenance
                    | RejectionReason::InsufficientAuth
            ),
            None => false,
        }
    }

    /// Whether this peer is not delivering data despite being connected.
    ///
    /// Counts from the last success, or from when the peer was first seen.
    pub fn is_snubbed(&self, now: Instant) -> (r: bool)
        ensures
            r == self.snubbed(now),
    {
        let reference = match self.last_success_at {
            Some(t) => t,
            None => self.first_seen,
        };
        now.duration_since(reference).as_secs() >= SNUB_TIMEOUT_SECS as u128
    }

    /// Whether this peer has had any meaningful interaction.
    pub fn has_interacted(&self) -> (r: bool)
        ensures
            r == (self.pieces_requested > 0 || self.rejection_count > 0),
    {
        self.pieces_requested > 0 || self.rejection_count > 0
    }

    /// Creates a cross-session reputation snapshot from this peer's stats.
    /// Lifetime counters go on from `prior`; credited pieces do not count.
    pub fn to_reputation(
        &self,
        peer_id: PeerId,
        now_unix_secs: u64,
        prior: Option<&PeerReputation>,
    ) -> (r: PeerReputation)
        ensures
            r == self.reputation(
                peer_id,
                now_unix_secs,
                match prior {
                    Some(p) => Some(*p),
                    None => None,
                },
            ),
    {
        let prior_pieces: u64 = match prior {
            Some(p) => p.lifetime_pieces_served,
            None => 0,
        };
        let prior_corruption: u32 = match prior {
            Some(p) => p.lifetime_corruption_count,
            None => 0,
        };
        PeerReputation {
            peer_id,
            trust_level: self.trust_level(),
            lifetime_pieces_served: prior_pieces.saturating_add(
                self.session_pieces_served() as u64,
            ),
            lifetime_corruption_count: prior_corruption.saturating_add(self.corruption_count),
            avg_speed_bytes_per_sec: self.ewma_speed,
            last_seen_unix_secs: now_unix_secs,
            banned: self.should_avoid_permanently(),
        }
    }
}

// ── Laws of stats ───────────────────────────────────────────────────

/// Trust never falls: a success keeps or raises the level, and nothing else
/// changes it.
pub proof fn law_trust_never_falls(
    s: PeerStats,
    bytes: u64,
    fetch_duration: Duration,
    sample: Option<SpeedSample>,
    reason: RejectionReason,
    now: Instant,
)
    ensures
        TrustLevel::after_pieces(s.pieces_served).height() <= TrustLevel::after_pieces(
            s.after_success(bytes, fetch_duration, sample, now).pieces_served,
        ).height(),
        s.after_failure(now).pieces_served == s.pieces_served,
        s.after_corruption(now).pieces_served == s.pieces_served,
        s.after_timeout(now).pieces_served == s.pieces_served,
        s.after_rejection(reason, now).pieces_served == s.pieces_served,
{
}

/// A peer with a reputation starts where it left off: one that was banned is
/// avoided, any other has the trust level that it had.
pub proof fn law_reputation_restores_trust(
    s: PeerStats,
    old_stats: PeerStats,
    id: PeerId,
    now_unix_secs: u64,
    prior: Option<PeerReputation>,
)
    ensures
        ({
            let rep = old_stats.reputation(id, now_unix_secs, prior);
            &&& old_stats.avoided() ==> s.restored(rep).avoided()
            &&& !old_stats.avoided() ==> TrustLevel::after_pieces(s.restored(rep).pieces_served)
                == TrustLevel::after_pieces(old_stats.pieces_served)
        }),
{
}

/// A success ends a backoff.
pub proof fn law_success_resets_backoff(
    s: PeerStats,
    bytes: u64,
    fetch_duration: Duration,
    sample: Option<SpeedSample>,
    now: Instant,
    later: Instant,
)
    ensures
        !s.after_success(bytes, fetch_duration, sample, now).backs_off(later),
{
}

/// Every share in a score is between none and all.
pub proof fn law_factors_are_fractions(s: PeerStats, reference_speed: u64, now: Instant)
    requires
        s.session_pieces() <= s.pieces_requested,
    ensures
        s.factors(reference_speed, now).speed matches Some((a, b)) ==> a <= b && b > 0,
        s.factors(reference_speed, now).reliability matches Some((a, b)) ==> a <= b && b > 0,
        s.factors(reference_speed, now).disconnects <= MAX_DISCONNECTS,
        s.factors(reference_speed, now).recency matches Recency::Succeeded { age_secs }
            ==> age_secs < RECENCY_WINDOW_SECS,
{
}

/// What was served in a session was requested in it: this holds of fresh stats,
/// and neither an event nor a restored reputation breaks it.
pub proof fn law_served_within_requested(
    s: PeerStats,
    bytes: u64,
    fetch_duration: Duration,
    sample: Option<SpeedSample>,
    reason: RejectionReason,
    rep: PeerReputation,
    now: Instant,
)
    requires
        s.is_fresh(now) || s.session_pieces() <= s.pieces_requested,
    ensures
        s.session_pieces() <= s.pieces_requested,
        s.after_success(bytes, fetch_duration, sample, now).session_pieces() <= s.after_success(
            bytes,
            fetch_duration,
            sample,
            now,
        ).pieces_requested,
        s.after_failure(now).session_pieces() <= s.after_failure(now).pieces_requested,
        s.after_corruption(now).session_pieces() <= s.after_corruption(now).pieces_requested,
        s.after_timeout(now).session_pieces() <= s.after_timeout(now).pieces_requested,
        s.after_rejection(reason, now).session_pieces() <= s.after_rejection(
            reason,
            now,
        ).pieces_requested,
        s.restored(rep).session_pieces() <= s.restored(rep).pieces_requested,
{
}

/// Restoring a reputation serves no piece: what a session adds to the lifetime
/// count is the same with and without it.
pub proof fn law_credit_is_not_served(
    s: PeerStats,
    rep: PeerReputation,
    id: PeerId,
    now_unix_secs: u64,
    prior: Option<PeerReputation>,
)
    ensures
        s.restored(rep).session_pieces() == s.session_pieces(),
        s.restored(rep).reputation(id, now_unix_secs, prior).lifetime_pieces_served
            == s.reputation(id, now_unix_secs, prior).lifetime_pieces_served,
{
}

/// The speed share of a score is the peer's smoothed speed against the
/// reference, and all of it from there on. Of two peers with the same reference
/// the faster one, up to the reference, has the larger share.
pub proof fn law_speed_share(s: PeerStats, t: PeerStats, reference_speed: u64, now: Instant)
    requires
        reference_speed > 0,
    ensures
        s.factors(reference_speed, now).speed matches Some((a, b)) && b > 0 && a
            * reference_speed == (if s.ewma_speed < reference_speed {
            s.ewma_speed
        } else {
            reference_speed
        }) * b,
        s.factors(0, now).speed is None,
        s.ewma_speed < t.ewma_speed && s.ewma_speed < reference_speed ==> {
            let x = s.factors(reference_speed, now).speed->0;
            let y = t.factors(reference_speed, now).speed->0;
            x.0 * y.1 < y.0 * x.1
        },
{
    let m = if s.ewma_speed < reference_speed {
        s.ewma_speed as int
    } else {
        reference_speed as int
    };
    let x = s.factors(reference_speed, now).speed->0;
    let y = t.factors(reference_speed, now).speed->0;
    assert(x.0 * reference_speed == m * x.1) by (nonlinear_arith)
        requires
            (x.0 == 1 && x.1 == 1 && m == reference_speed) || (x.0 == m && x.1 == reference_speed),
    ;
    if s.ewma_speed < t.ewma_speed && s.ewma_speed < reference_speed {
        let a = s.ewma_speed as int;
        let b = reference_speed as int;
        assert(x.0 == a && x.1 == b);
        assert(x.0 * y.1 < y.0 * x.1) by (nonlinear_arith)
            requires
                x.0 == a,
                x.1 == b,
                0 <= a < b,
                (y.0 == 1 && y.1 == 1) || (y.1 == b && y.0 > a),
        ;
    }
}

/// The other parts of a score: pieces served in this session out of those
/// requested, disconnections up to 10, and the trust that the served pieces
/// earned.
pub proof fn law_reliability_and_availability(s: PeerStats, reference_speed: u64, now: Instant)
    ensures
        s.pieces_requested == 0 ==> s.factors(reference_speed, now).reliability is None,
        s.pieces_requested > 0 && 0 <= s.pieces_served - s.credited_pieces <= u32::MAX
            ==> (s.factors(reference_speed, now).reliability matches Some((a, b)) && a
            == s.pieces_served - s.credited_pieces && b == s.pieces_requested),
        s.disconnect_count <= 10 ==> s.factors(reference_speed, now).disconnects
            == s.disconnect_count,
        s.disconnect_count > 10 ==> s.factors(reference_speed, now).disconnects == 10,
        s.pieces_served == 0 <==> s.factors(reference_speed, now).trust == TrustLevel::Untested,
        1 <= s.pieces_served <= 2 <==> s.factors(reference_speed, now).trust
            == TrustLevel::Probationary,
        3 <= s.pieces_served <= 9 <==> s.factors(reference_speed, now).trust
            == TrustLevel::Established,
        s.pieces_served >= 10 <==> s.factors(reference_speed, now).trust == TrustLevel::Trusted,
{
}

/// The recency part of a score: the whole seconds since the last success, as
/// long as they are fewer than 300; a peer that never succeeded counts as new for
/// its first 10 seconds.
pub proof fn law_recency(s: PeerStats, reference_speed: u64, now: Instant)
    ensures
        s.last_success_at matches Some(t) && t.nanos <= now.nanos ==> {
            let age = now.nanos - s.last_success_at->0.nanos;
            &&& age < 300_000_000_000 ==> (s.factors(
                reference_speed,
                now,
            ).recency matches Recency::Succeeded { age_secs } && age_secs * 1_000_000_000 <= age
                < (age_secs + 1) * 1_000_000_000)
            &&& age >= 300_000_000_000 ==> s.factors(reference_speed, now).recency
                == Recency::Stale
        },
        s.last_success_at is None && s.first_seen.nanos <= now.nanos ==> {
            let age = now.nanos - s.first_seen.nanos;
            &&& age < 10_000_000_000 ==> s.factors(reference_speed, now).recency == Recency::New
            &&& age >= 10_000_000_000 ==> s.factors(reference_speed, now).recency == Recency::Stale
        },
{
}

/// A success counts one piece served and requested, its bytes and its time; it
/// ends a streak of rejections, raises the peak speed only, takes over the
/// smoothed speed, and counts a reconnection exactly if a failure came after the
/// last success. It changes nothing else.
pub proof fn law_success_is_recorded(
    s: PeerStats,
    bytes: u64,
    fetch_duration: Duration,
    sample: Option<SpeedSample>,
    now: Instant,
)
    ensures
        ({
            let t = s.after_success(bytes, fetch_duration, sample, now);
            &&& s.pieces_served < u32::MAX ==> t.pieces_served == s.pieces_served + 1
            &&& s.pieces_requested < u32::MAX ==> t.pieces_requested == s.pieces_requested + 1
            &&& s.bytes_received + bytes <= u64::MAX ==> t.bytes_received == s.bytes_received
                + bytes
            &&& s.bytes_received + bytes > u64::MAX ==> t.bytes_received == u64::MAX
            &&& s.cumulative_fetch_duration.nanos + fetch_duration.nanos
                <= 18_446_744_073_709_551_615_999_999_999
                ==> t.cumulative_fetch_duration.nanos == s.cumulative_fetch_duration.nanos
                + fetch_duration.nanos
            &&& t.consecutive_transient_rejections == 0
            &&& sample matches Some(m) ==> t.ewma_speed == m.smoothed && t.peak_speed
                >= s.peak_speed && t.peak_speed >= m.speed && (t.peak_speed == s.peak_speed
                || t.peak_speed == m.speed)
            &&& sample is None ==> t.ewma_speed == s.ewma_speed && t.peak_speed == s.peak_speed
            &&& t.last_success_at == Some(now)
            &&& s.last_failure_at is None ==> t.disconnect_count == s.disconnect_count
            &&& s.last_failure_at is Some && s.last_success_at is Some
                && s.last_failure_at->0.nanos < s.last_success_at->0.nanos ==> t.disconnect_count
                == s.disconnect_count
            &&& s.last_failure_at is Some && (s.last_success_at is None
                || s.last_failure_at->0.nanos >= s.last_success_at->0.nanos)
                && s.disconnect_count < u32::MAX ==> t.disconnect_count == s.disconnect_count + 1
            &&& t.corruption_count == s.corruption_count
            &&& t.timeout_count == s.timeout_count
            &&& t.rejection_count == s.rejection_count
            &&& t.last_rejection == s.last_rejection
            &&& t.last_failure_at == s.last_failure_at
            &&& t.first_seen == s.first_seen
            &&& t.credited_pieces == s.credited_pieces
        }),
{
}

/// A failure counts one request and its time; a corruption, a timeout and a
/// rejection count as what they are besides. Only rate limits and full swarms
/// lengthen the streak of rejections. No failure changes what was served.
pub proof fn law_failure_is_recorded(s: PeerStats, reason: RejectionReason, now: Instant)
    requires
        s.pieces_requested < u32::MAX,
        s.corruption_count < u32::MAX,
        s.timeout_count < u32::MAX,
        s.rejection_count < u32::MAX,
        s.consecutive_transient_rejections < u32::MAX,
    ensures
        ({
            let f = s.after_failure(now);
            let c = s.after_corruption(now);
            let t = s.after_timeout(now);
            let r = s.after_rejection(reason, now);
            let streak = s.consecutive_transient_rejections;
            &&& f == (PeerStats {
                pieces_requested: (s.pieces_requested + 1) as u32,
                last_failure_at: Some(now),
                ..s
            })
            &&& c == (PeerStats { corruption_count: (s.corruption_count + 1) as u32, ..f })
            &&& t == (PeerStats { timeout_count: (s.timeout_count + 1) as u32, ..f })
            &&& r.last_rejection == Some(reason)
            &&& r.rejection_count == s.rejection_count + 1
            &&& r == (PeerStats {
                rejection_count: r.rejection_count,
                last_rejection: r.last_rejection,
                consecutive_transient_rejections: r.consecutive_transient_rejections,
                ..f
            })
            &&& reason is RateLimited || reason is SwarmFull
                ==> r.consecutive_transient_rejections == streak + 1
            &&& !(reason is RateLimited || reason is SwarmFull)
                ==> r.consecutive_transient_rejections == streak
        }),
{
}

/// When to back off: after a rate limit or a full swarm, for 5 seconds, 10, 20,
/// 40 and from the fifth in a row on 60, in whole seconds since the failure. The
/// window never shrinks as the streak grows.
pub proof fn law_backoff_window(s: PeerStats, now: Instant)
    ensures
        s.backs_off(now) ==> s.last_rejection is Some && (s.last_rejection->0 is RateLimited
            || s.last_rejection->0 is SwarmFull),
        s.last_failure_at matches Some(t) && t.nanos <= now.nanos && (s.last_rejection == Some(
            RejectionReason::RateLimited,
        ) || s.last_rejection == Some(RejectionReason::SwarmFull)) ==> {
            let since = now.nanos - s.last_failure_at->0.nanos;
            let n = s.consecutive_transient_rejections;
            &&& n == 0 ==> !s.backs_off(now)
            &&& n == 1 ==> (s.backs_off(now) <==> since < 5_000_000_000)
            &&& n == 2 ==> (s.backs_off(now) <==> since < 10_000_000_000)
            &&& n == 3 ==> (s.backs_off(now) <==> since < 20_000_000_000)
            &&& n == 4 ==> (s.backs_off(now) <==> since < 40_000_000_000)
            &&& n >= 5 ==> (s.backs_off(now) <==> since < 60_000_000_000)
        },
{
}

/// Who is avoided for good and who is snubbed: the first by the last rejection
/// alone, the second by 60 seconds without a success, counted from the first
/// sight of a peer that had none.
pub proof fn law_avoided_and_snubbed(s: PeerStats, now: Instant)
    ensures
        s.avoided() <==> s.last_rejection is Some && (s.last_rejection->0 is PolicyViolation
            || s.last_rejection->0 is Maintenance || s.last_rejection->0 is InsufficientAuth),
        s.last_success_at matches Some(t) ==> (s.snubbed(now) <==> now.nanos >= t.nanos
            + 60_000_000_000),
        s.last_success_at is None ==> (s.snubbed(now) <==> now.nanos >= s.first_seen.nanos
            + 60_000_000_000),
{
}

/// A snapshot carries over lifetime counts: those of the prior one and what this
/// session added, with the identity, the trust, the speed and the time.
pub proof fn law_snapshot_adds_session(
    s: PeerStats,
    id: PeerId,
    now_unix_secs: u64,
    prior: Option<PeerReputation>,
)
    requires
        0 <= s.pieces_served - s.credited_pieces <= u32::MAX,
    ensures
        ({
            let r = s.reputation(id, now_unix_secs, prior);
            let pieces = if prior is Some {
                prior->0.lifetime_pieces_served as int
            } else {
                0
            };
            let corrupt = if prior is Some {
                prior->0.lifetime_corruption_count as int
            } else {
                0
            };
            let total = pieces + s.pieces_served - s.credited_pieces;
            &&& r.peer_id == id
            &&& r.last_seen_unix_secs == now_unix_secs
            &&& total <= u64::MAX ==> r.lifetime_pieces_served == total
            &&& corrupt + s.corruption_count <= u32::MAX ==> r.lifetime_corruption_count == corrupt
                + s.corruption_count
            &&& r.avg_speed_bytes_per_sec == s.ewma_speed
            &&& r.banned <==> s.last_rejection is Some && (s.last_rejection->0 is PolicyViolation
                || s.last_rejection->0 is Maintenance || s.last_rejection->0 is InsufficientAuth)
            &&& s.pieces_served >= 10 <==> r.trust_level == TrustLevel::Trusted
            &&& 3 <= s.pieces_served <= 9 <==> r.trust_level == TrustLevel::Established
            &&& 1 <= s.pieces_served <= 2 <==> r.trust_level == TrustLevel::Probationary
        }),
{
}

/// What a reputation restores: the least pieces of its trust level and its
/// speed, or for a banned peer a policy violation; nothing else changes.
pub proof fn law_restored_stats(s: PeerStats, rep: PeerReputation)
    ensures
        rep.banned ==> s.restored(rep) == (PeerStats {
            last_rejection: Some(RejectionReason::PolicyViolation),
            ..s
        }),
        !rep.banned ==> {
            let t = s.restored(rep);
            &&& rep.trust_level == TrustLevel::Untested ==> t.pieces_served == 0
            &&& rep.trust_level == TrustLevel::Probationary ==> t.pieces_served == 1
            &&& rep.trust_level == TrustLevel::Established ==> t.pieces_served == 3
            &&& rep.trust_level == TrustLevel::Trusted ==> t.pieces_served == 10
            &&& rep.avg_speed_bytes_per_sec > 0 ==> t.ewma_speed == rep.avg_speed_bytes_per_sec
            &&& rep.avg_speed_bytes_per_sec == 0 ==> t.ewma_speed == s.ewma_speed
            &&& t == (PeerStats {
                pieces_served: t.pieces_served,
                credited_pieces: t.credited_pieces,
                ewma_speed: t.ewma_speed,
                ..s
            })
        },
{
}

// ── Tracker ─────────────────────────────────────────────────────────

/// What a tracker holds.
#[verifier::ext_equal]
pub struct TrackerView {
    /// Statistics by peer index.
    pub stats: Seq<PeerStats>,
    /// Identities by peer index.
    pub identities: Seq<Option<PeerId>>,
    /// Reputations from earlier sessions.
    pub prior_reputations: Seq<PeerReputation>,
    /// Session start time.
    pub session_start: Instant,
}

/// The first peer with an identity.
pub open spec fn is_first_identity(ids: Seq<Option<PeerId>>, id: PeerId, i: int) -> bool {
    &&& 0 <= i < ids.len()
    &&& ids[i] is Some
    &&& ids[i]->0@ == id@
    &&& forall|j: int|
        0 <= j < i ==> !((#[trigger] ids[j]) is Some && ids[j]->0@ == id@)
}

/// The snapshots of the identified peers, in order.
pub open spec fn snapshots(
    stats: Seq<PeerStats>,
    ids: Seq<Option<PeerId>>,
    now_unix_secs: u64,
    priors: Seq<PeerReputation>,
) -> Seq<PeerReputation>
    decreases stats.len(),
{
    if stats.len() == 0 {
        Seq::empty()
    } else {
        let rest = snapshots(stats.drop_last(), ids.drop_last(), now_unix_secs, priors);
        match ids.last() {
            Some(id) => rest.push(
                stats.last().reputation(id, now_unix_secs, reputation_of(priors, id)),
            ),
            None => rest,
        }
    }
}

impl TrackerView {
    /// Every peer has stats and a place for an identity.
    pub open spec fn wf(self) -> bool {
        self.stats.len() == self.identities.len()
    }

    /// Fresh stats for so many unidentified peers.
    pub open spec fn is_fresh(
        self,
        peer_count: usize,
        now: Instant,
        priors: Seq<PeerReputation>,
    ) -> bool {
        &&& self.stats.len() == peer_count
        &&& self.identities.len() == peer_count
        &&& forall|i: int| 0 <= i < peer_count ==> (#[trigger] self.stats[i]).is_fresh(now)
        &&& forall|i: int| 0 <= i < peer_count ==> (#[trigger] self.identities[i]) is None
        &&& self.prior_reputations == priors
        &&& self.session_start == now
    }

    /// The tracker after a peer was identified.
    pub open spec fn identified(self, peer_index: int, id: PeerId) -> TrackerView {
        if peer_index >= self.stats.len() {
            self
        } else {
            TrackerView {
                identities: self.identities.update(peer_index, Some(id)),
                stats: match reputation_of(self.prior_reputations, id) {
                    Some(rep) => self.stats.update(peer_index, self.stats[peer_index].restored(rep)),
                    None => self.stats,
                },
                ..self
            }
        }
    }

    /// `speed` is the highest smoothed speed of all peers.
    pub open spec fn is_reference_speed(self, speed: u64) -> bool {
        &&& forall|i: int|
            0 <= i < self.stats.len() ==> (#[trigger] self.stats[i]).ewma_speed <= speed
        &&& speed > 0 ==> exists|i: int|
            0 <= i < self.stats.len() && (#[trigger] self.stats[i]).ewma_speed == speed
    }
}

/// Session-level peer statistics manager with optional identity tracking.
pub struct PeerTracker {
    stats: Vec<PeerStats>,
    identities: Vec<Option<PeerId>>,
    prior_reputations: Vec<PeerReputation>,
    session_start: Instant,
}

impl View for PeerTracker {
    type V = TrackerView;

    closed spec fn view(&self) -> TrackerView {
        TrackerView {
            stats: self.stats@,
            identities: self.identities@,
            prior_reputations: self.prior_reputations@,
            session_start: self.session_start,
        }
    }
}

impl PeerTracker {
    /// Every peer has stats and a place for an identity.
    pub open spec fn wf(self) -> bool {
        self@.wf()
    }

    /// Creates a new tracker for the given number of peers.
    pub fn new(peer_count: usize, now: Instant) -> (r: PeerTracker)
        ensures
            r.wf(),
            r@.is_fresh(peer_count, now, Seq::empty()),
    {
        PeerTracker::with_prior_reputation(peer_count, now, Vec::new())
    }

    /// Creates a tracker pre-seeded with prior session reputations, which
    /// count for peers that identify themselves later.
    pub fn with_prior_reputation(
        peer_count: usize,
        now: Instant,
        prior_reputations: Vec<PeerReputation>,
    ) -> (r: PeerTracker)
        ensures
            r.wf(),
            r@.is_fresh(peer_count, now, prior_reputations@),
    {
        let mut stats: Vec<PeerStats> = Vec::new();
        let mut identities: Vec<Option<PeerId>> = Vec::new();
        while stats.len() < peer_count
            invariant
                stats@.len() <= peer_count,
                identities@.len() == stats@.len(),
                forall|i: int| 0 <= i < stats@.len() ==> (#[trigger] stats@[i]).is_fresh(now),
                forall|i: int| 0 <= i < identities@.len() ==> (#[trigger] identities@[i]) is None,
            decreases peer_count - stats@.len(),
        {
            stats.push(PeerStats::new(now));
            identities.push(None);
        }
        PeerTracker { stats, identities, prior_reputations, session_start: now }
    }

    /// Returns the stats for a specific peer, if in bounds.
    pub fn get(&self, peer_index: usize) -> (r: Option<&PeerStats>)
        ensures
            match r {
                Some(s) => peer_index < self@.stats.len() && *s == self@.stats[peer_index as int],
                None => peer_index >= self@.stats.len(),
            },
    {
        if peer_index < self.stats.len() {
            Some(&self.stats[peer_index])
        } else {
            None
        }
    }

    /// Returns mutable stats for a specific peer, if in bounds.
    pub fn get_mut(&mut self, peer_index: usize) -> (r: Option<&mut PeerStats>)
        ensures
            match r {
                Some(s) => {
                    &&& peer_index < old(self)@.stats.len()
                    &&& *s == old(self)@.stats[peer_index as int]
                    &&& final(self)@ == (TrackerView {
                        stats: old(self)@.stats.update(peer_index as int, *final(s)),
                        ..old(self)@
                    })
                },
                None => peer_index >= old(self)@.stats.len() && final(self)@ == old(self)@,
            },
    {
        if peer_index < self.stats.len() {
            Some(&mut self.stats[peer_index])
        } else {
            None
        }
    }

    /// Binds a cryptographic identity to a peer index.
    ///
    /// Where the identity has a reputation from an earlier session, a banned
    /// peer is avoided from now on and any other starts at the trust level
    /// that it had.
    pub fn register_identity(&mut self, peer_index: usize, id: PeerId)
        requires
            old(self).wf(),
        ensures
            final(self).wf(),
            final(self)@ == old(self)@.identified(peer_index as int, id),
    {
        if peer_index >= self.stats.len() {
            return;
        }
        self.identities[peer_index] = Some(id);
        let rep = match find_reputation(self.prior_reputations.as_slice(), &id) {
            Some(rep) => *rep,
            None => return,
        };
        if rep.banned {
            self.stats[peer_index].last_rejection = Some(RejectionReason::PolicyViolation);
        } else {
            let threshold: u32 = match rep.trust_level {
                TrustLevel::Untested => 0,
                TrustLevel::Probationary => 1,
                TrustLevel::Established => ESTABLISHED_THRESHOLD,
                TrustLevel::Trusted => TRUSTED_THRESHOLD,
            };
            let session: u32 = self.stats[peer_index].session_pieces_served();
            self.stats[peer_index].pieces_served = threshold;
            self.stats[peer_index].credited_pieces = threshold as i64 - session as i64;
            if rep.avg_speed_bytes_per_sec > 0 {
                self.stats[peer_index].ewma_speed = rep.avg_speed_bytes_per_sec;
            }
        }
    }

    /// Returns the identity for a peer, if registered.
    pub fn identity(&self, peer_index: usize) -> (r: Option<&PeerId>)
        ensures
            match r {
                Some(id) => peer_index < self@.identities.len()
                    && self@.identities[peer_index as int] == Some(*id),
                None => peer_index >= self@.identities.len()
                    || self@.identities[peer_index as int] is None,
            },
    {
        if peer_index < self.identities.len() {
            match &self.identities[peer_index] {
                Some(id) => Some(id),
                None => None,
            }
        } else {
            None
        }
    }

    /// Finds a peer index by identity, if registered.
    pub fn find_by_identity(&self, id: &PeerId) -> (r: Option<usize>)
        ensures
            match r {
                Some(i) => is_first_identity(self@.identities, *id, i as int),
                None => forall|i: int|
                    0 <= i < self@.identities.len() ==> !((#[trigger] self@.identities[i]) is Some
                        && self@.identities[i]->0@ == id@),
            },
    {
        let mut i: usize = 0;
        while i < self.identities.len()
            invariant
                self@.identities == self.identities@,
                i <= self.identities@.len(),
                forall|j: int|
                    0 <= j < i ==> !((#[trigger] self.identities@[j]) is Some
                        && self.identities@[j]->0@ == id@),
            decreases self.identities@.len() - i,
        {
            match &self.identities[i] {
                Some(known) => {
                    if *known == *id {
                        return Some(i);
                    }
                },
                None => {},
            }
            i += 1;
        }
        None
    }

    /// Returns the highest smoothed speed among all peers (for normalisation).
    pub fn reference_speed(&self) -> (r: u64)
        ensures
            self@.is_reference_speed(r),
    {
        let mut best: u64 = 0;
        let mut i: usize = 0;
        while i < self.stats.len()
            invariant
                self@.stats == self.stats@,
                i <= self.stats@.len(),
                forall|j: int| 0 <= j < i ==> (#[trigger] self.stats@[j]).ewma_speed <= best,
                best > 0 ==> exists|j: int|
                    0 <= j < i && (#[trigger] self.stats@[j]).ewma_speed == best,
            decreases self.stats@.len() - i,
        {
            let speed: u64 = self.stats[i].ewma_speed;
            if speed > best {
                best = speed;
                assert(self.stats@[i as int].ewma_speed == best);
            }
            i += 1;
        }
        best
    }

    /// What the composite score of a peer is made of, or `None` out of bounds.
    pub fn score_factors(&self, peer_index: usize, now: Instant) -> (r: Option<ScoreFactors>)
        ensures
            match r {
                Some(f) => peer_index < self@.stats.len() && exists|speed: u64| #[trigger]
                    self@.is_reference_speed(speed) && f == self@.stats[peer_index as int].factors(
                        speed,
                        now,
                    ),
                None => peer_index >= self@.stats.len(),
            },
    {
        let speed: u64 = self.reference_speed();
        if peer_index < self.stats.len() {
            Some(self.stats[peer_index].score_factors(speed, now))
        } else {
            None
        }
    }

    /// Number of tracked peers.
    pub fn peer_count(&self) -> (r: usize)
        ensures
            r == self@.stats.len(),
    {
        self.stats.len()
    }

    /// Session start time.
    pub fn session_start(&self) -> (r: Instant)
        ensures
            r == self@.session_start,
    {
        self.session_start
    }

    /// Snapshots all identified peers for persistence. Lifetime counters go on
    /// from `prior_reputations`.
    pub fn snapshot_reputations(
        &self,
        now_unix_secs: u64,
        prior_reputations: &[PeerReputation],
    ) -> (r: Vec<PeerReputation>)
        requires
            self.wf(),
        ensures
            r@ == snapshots(
                self@.stats,
                self@.identities,
                now_unix_secs,
                prior_reputations@,
            ),
    {
        let mut result: Vec<PeerReputation> = Vec::new();
        let mut i: usize = 0;
        proof {
            assert(self.stats@.take(0) == Seq::<PeerStats>::empty());
        }
        while i < self.stats.len()
            invariant
                self.stats@.len() == self.identities@.len(),
                i <= self.stats@.len(),
                result@ == snapshots(
                    self.stats@.take(i as int),
                    self.identities@.take(i as int),
                    now_unix_secs,
                    prior_reputations@,
                ),
            decreases self.stats@.len() - i,
        {
            proof {
                assert(self.stats@.take(i + 1).drop_last() == self.stats@.take(i as int));
                assert(self.identities@.take(i + 1).drop_last() == self.identities@.take(i as int));
            }
            match self.identities[i] {
                Some(id) => {
                    let prior = find_reputation(prior_reputations, &id);
                    result.push(self.stats[i].to_reputation(id, now_unix_secs, prior));
                },
                None => {},
            }
            i += 1;
        }
        proof {
            assert(self.stats@.take(i as int) == self.stats@);
            assert(self.identities@.take(i as int) == self.identities@);
        }
        result
    }
}

// ── Laws of trackers ────────────────────────────────────────────────

/// The reputation that counts is the first one of the peer; there is none only
/// where no reputation is of the peer.
pub proof fn law_first_reputation_counts(reps: Seq<PeerReputation>, id: PeerId, i: int)
    requires
        0 <= i < reps.len(),
        reps[i].peer_id@ == id@,
        forall|j: int| 0 <= j < i ==> (#[trigger] reps[j]).peer_id@ != id@,
    ensures
        reputation_of(reps, id) == Some(reps[i]),
{
    assert(is_first_reputation(reps, id, i));
    let k = choose|k: int| is_first_reputation(reps, id, k);
    assert(is_first_reputation(reps, id, k));
    if k < i {
        assert(reps[k].peer_id@ != id@);
    } else if i < k {
        assert(reps[i].peer_id@ != id@);
    }
}

/// Where no reputation is of a peer, none counts.
pub proof fn law_unknown_peer_has_no_reputation(reps: Seq<PeerReputation>, id: PeerId)
    requires
        forall|j: int| 0 <= j < reps.len() ==> (#[trigger] reps[j]).peer_id@ != id@,
    ensures
        reputation_of(reps, id) is None,
{
}

/// An identity is bound to one place; a reputation from before restores the
/// stats of that place alone, and without one no stats change.
pub proof fn law_identity_binds_one_peer(v: TrackerView, i: int, j: int, id: PeerId)
    requires
        v.wf(),
        0 <= i,
        0 <= j < v.stats.len(),
    ensures
        i >= v.stats.len() ==> v.identified(i, id) == v,
        i < v.stats.len() ==> v.identified(i, id).identities[i] == Some(id),
        i < v.stats.len() ==> v.identified(i, id).stats[i] == (match reputation_of(
            v.prior_reputations,
            id,
        ) {
            Some(rep) => v.stats[i].restored(rep),
            None => v.stats[i],
        }),
        j != i ==> v.identified(i, id).identities[j] == v.identities[j] && v.identified(
            i,
            id,
        ).stats[j] == v.stats[j],
        v.identified(i, id).prior_reputations == v.prior_reputations,
        v.identified(i, id).session_start == v.session_start,
        v.identified(i, id).wf(),
{
}

/// There is one reference speed: the largest smoothed speed, or 0 without peers.
pub proof fn law_reference_speed_is_largest(v: TrackerView, speed: u64, other: u64, i: int)
    requires
        v.is_reference_speed(speed),
        v.is_reference_speed(other),
    ensures
        speed == other,
        0 <= i < v.stats.len() ==> v.stats[i].ewma_speed <= speed,
        v.stats.len() == 0 ==> speed == 0,
        v.stats.len() > 0 ==> exists|k: int|
            0 <= k < v.stats.len() && (#[trigger] v.stats[k]).ewma_speed == speed,
{
    if v.stats.len() > 0 {
        assert(v.stats[0].ewma_speed <= speed);
        assert(v.stats[0].ewma_speed <= other);
    }
}

/// Snapshots are of the identified peers, in order: one more identified peer adds
/// its snapshot at the end, one more unidentified peer adds nothing.
pub proof fn law_snapshots_are_of_identified_peers(
    stats: Seq<PeerStats>,
    ids: Seq<Option<PeerId>>,
    s: PeerStats,
    id: PeerId,
    now_unix_secs: u64,
    priors: Seq<PeerReputation>,
)
    requires
        stats.len() == ids.len(),
    ensures
        snapshots(Seq::empty(), Seq::empty(), now_unix_secs, priors).len() == 0,
        snapshots(stats.push(s), ids.push(None), now_unix_secs, priors) == snapshots(
            stats,
            ids,
            now_unix_secs,
            priors,
        ),
        snapshots(stats.push(s), ids.push(Some(id)), now_unix_secs, priors) == snapshots(
            stats,
            ids,
            now_unix_secs,
            priors,
        ).push(s.reputation(id, now_unix_secs, reputation_of(priors, id))),
{
    assert(stats.push(s).drop_last() == stats);
    assert(ids.push(None::<PeerId>).drop_last() == ids);
    assert(ids.push(Some(id)).drop_last() == ids);
}

/// A new tracker knows nobody, and every peer starts from nothing.
pub proof fn law_new_tracker_is_fresh(
    v: TrackerView,
    peer_count: usize,
    now: Instant,
    priors: Seq<PeerReputation>,
    i: int,
)
    requires
        v.is_fresh(peer_count, now, priors),
        0 <= i < peer_count,
    ensures
        v.stats.len() == peer_count && v.identities.len() == peer_count,
        v.identities[i] is None,
        v.stats[i].pieces_served == 0 && v.stats[i].pieces_requested == 0,
        v.stats[i].credited_pieces == 0 && v.stats[i].bytes_received == 0,
        v.stats[i].corruption_count == 0 && v.stats[i].timeout_count == 0,
        v.stats[i].rejection_count == 0 && v.stats[i].last_rejection is None,
        v.stats[i].last_success_at is None && v.stats[i].last_failure_at is None,
        v.stats[i].disconnect_count == 0 && v.stats[i].peak_speed == 0,
        v.stats[i].ewma_speed == 0 && v.stats[i].consecutive_transient_rejections == 0,
        v.stats[i].cumulative_fetch_duration.nanos == 0,
        v.stats[i].first_seen == now && v.session_start == now,
        v.prior_reputations == priors,
{
}

/// Looking a peer up by identity finds the first place that is bound to it.
pub proof fn law_identity_is_found(ids: Seq<Option<PeerId>>, id: PeerId, i: int, j: int)
    requires
        is_first_identity(ids, id, i),
    ensures
        0 <= i < ids.len(),
        ids[i] is Some && ids[i]->0@ == id@,
        0 <= j < i ==> ids[j] is None || ids[j]->0@ != id@,
{
}

/// The limits that reputations go by: seconds of recency, disconnections, seconds of
/// grace, pieces to be established and trusted, and seconds to a snub.
pub proof fn law_limits()
    ensures
        RECENCY_WINDOW_SECS == 300,
        MAX_DISCONNECTS == 10,
        NEW_PEER_GRACE_SECS == 10,
        ESTABLISHED_THRESHOLD == 3,
        TRUSTED_THRESHOLD == 10,
        SNUB_TIMEOUT_SECS == 60,
{
}

/// The pieces of a session are those served less those credited, as far as the
/// counter goes, and never fewer than none.
pub proof fn law_session_pieces(s: PeerStats)
    ensures
        0 <= s.pieces_served - s.credited_pieces <= u32::MAX ==> s.session_pieces()
            == s.pieces_served - s.credited_pieces,
        s.pieces_served < s.credited_pieces ==> s.session_pieces() == 0,
        s.pieces_served - s.credited_pieces > u32::MAX ==> s.session_pieces() == u32::MAX,
{
}

/// How many pieces earn which trust: none leaves a peer untested, the first puts
/// it on probation, three establish it, ten make it trusted. A level that is
/// restored comes with the fewest pieces that earn it.
pub proof fn law_trust_is_earned(served: u32, level: TrustLevel)
    ensures
        TrustLevel::after_pieces(served) is Untested <==> served == 0,
        TrustLevel::after_pieces(served) is Probationary <==> 1 <= served < 3,
        TrustLevel::after_pieces(served) is Established <==> 3 <= served < 10,
        TrustLevel::after_pieces(served) is Trusted <==> served >= 10,
        TrustLevel::after_pieces(level.least_pieces()) == level,
        served < level.least_pieces() ==> TrustLevel::after_pieces(served) != level,
        TrustLevel::Untested.height() < TrustLevel::Probationary.height(),
        TrustLevel::Probationary.height() < TrustLevel::Established.height(),
        TrustLevel::Established.height() < TrustLevel::Trusted.height(),
{
}

} // verus!
