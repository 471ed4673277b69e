//! Peers: the sources that pieces are fetched from.
//!
//! [`Peer`] is the interface that every piece source implements. The other
//! types here are what peers say about themselves and how they fail.

use vstd::prelude::*;

use crate::text::decimal;
use crate::text::push_decimal;

verus! {

// ── Rejection reasons ───────────────────────────────────────────────

/// Structured rejection reason from a peer.
///
/// Tells whether and when to retry: `RateLimited` and `SwarmFull` pass,
/// `InsufficientAuth` and `PolicyViolation` last until something changes,
/// `Maintenance` lasts for the session.
#[derive(Debug, Clone, PartialEq, Eq)]
pub enum RejectionReason {
    /// Peer is rate-limiting requests: try again after a delay.
    RateLimited,
    /// Peer's connection slots are full: try again later.
    SwarmFull,
    /// Authentication required or insufficient.
    InsufficientAuth,
    /// Request violates peer's policy. Retrying won't help.
    PolicyViolation,
    /// Peer is going offline for maintenance: do not retry this session.
    Maintenance,
    /// Peer-specific reason not in the above categories.
    Other(String),
}

impl RejectionReason {
    /// The text shown for a reason.
    pub open spec fn text(self) -> Seq<char> {
        match self {
            RejectionReason::RateLimited => "rate limited"@,
            RejectionReason::SwarmFull => "swarm full"@,
            RejectionReason::InsufficientAuth => "insufficient authentication"@,
            RejectionReason::PolicyViolation => "policy violation"@,
            RejectionReason::Maintenance => "peer maintenance"@,
            RejectionReason::Other(detail) => detail@,
        }
    }

    /// Retrying after a delay may help.
    pub open spec fn is_transient(self) -> bool {
        self is RateLimited || self is SwarmFull
    }

    /// Retrying won't help.
    pub open spec fn is_permanent(self) -> bool {
        self is PolicyViolation || self is Maintenance || self is InsufficientAuth
    }

    /// The text shown for this reason.
    pub fn display(&self) -> (r: String)
        ensures
            r@ == self.text(),
    {
        let mut out = String::new();
        match self {
            RejectionReason::RateLimited => out.append("rate limited"),
            RejectionReason::SwarmFull => out.append("swarm full"),
            RejectionReason::InsufficientAuth => out.append("insufficient authentication"),
            RejectionReason::PolicyViolation => out.append("policy violation"),
            RejectionReason::Maintenance => out.append("peer maintenance"),
            RejectionReason::Other(detail) => out.append(detail.as_str()),
        }
        out
    }
}

// ── Storage tier ────────────────────────────────────────────────────

/// Declared storage speed tier for a peer.
#[derive(Debug, Clone, Copy, PartialEq, Eq, Hash, Structural)]
pub enum StorageTier {
    /// Solid-state drive: fast random and sequential I/O.
    Ssd,
    /// Spinning hard disk: fast sequential, slow random I/O.
    Hdd,
    /// USB flash drive, SD card: fast reads, slower writes.
    Flash,
    /// Network-attached storage or remote peer: variable latency.
    Network,
    /// Cold storage: high latency, high capacity.
    Archive,
    /// Tier unknown: no preference adjustment.
    Unknown,
}

impl Default for StorageTier {
    fn default() -> (r: StorageTier)
        ensures
            r is Unknown,
    {
        StorageTier::Unknown
    }
}

impl StorageTier {
    /// The rank of a tier (higher is faster).
    pub open spec fn rank(self) -> int {
        match self {
            StorageTier::Ssd => 5,
            StorageTier::Hdd => 3,
            StorageTier::Flash => 4,
            StorageTier::Network => 2,
            StorageTier::Archive => 1,
            StorageTier::Unknown => 0,
        }
    }

    /// The name of a tier.
    pub open spec fn name(self) -> Seq<char> {
        match self {
            StorageTier::Ssd => "SSD"@,
            StorageTier::Hdd => "HDD"@,
            StorageTier::Flash => "Flash"@,
            StorageTier::Network => "Network"@,
            StorageTier::Archive => "Archive"@,
            StorageTier::Unknown => "Unknown"@,
        }
    }

    /// Returns a numeric priority (higher is faster and preferred).
    pub fn priority(self) -> (r: u8)
        ensures
            r == self.rank(),
    {
        match self {
            StorageTier::Ssd => 5,
            StorageTier::Hdd => 3,
            StorageTier::Flash => 4,
            StorageTier::Network => 2,
            StorageTier::Archive => 1,
            StorageTier::Unknown => 0,
        }
    }

    /// The name shown for this tier.
    pub fn display(self) -> (r: &'static str)
        ensures
            r@ == self.name(),
    {
        match self {
            StorageTier::Ssd => "SSD",
            StorageTier::Hdd => "HDD",
            StorageTier::Flash => "Flash",
            StorageTier::Network => "Network",
            StorageTier::Archive => "Archive",
            StorageTier::Unknown => "Unknown",
        }
    }
}

/// Faster storage is preferred: SSD before flash, disk, network and archive, with
/// an unknown tier last. No two tiers have the same priority.
pub proof fn law_tiers_are_ordered(a: StorageTier, b: StorageTier)
    ensures
        a.rank() == b.rank() ==> a == b,
        StorageTier::Ssd.rank() > StorageTier::Flash.rank(),
        StorageTier::Flash.rank() > StorageTier::Hdd.rank(),
        StorageTier::Hdd.rank() > StorageTier::Network.rank(),
        StorageTier::Network.rank() > StorageTier::Archive.rank(),
        StorageTier::Archive.rank() > StorageTier::Unknown.rank(),
        StorageTier::Unknown.rank() >= 0,
{
}

/// A reason to wait is not one to give up: rate limits and full swarms pass,
/// violated policies, maintenance and missing authentication do not.
pub proof fn law_reasons_pass_or_stay(reason: RejectionReason)
    ensures
        reason.is_transient() <==> reason is RateLimited || reason is SwarmFull,
        reason.is_permanent() <==> reason is PolicyViolation || reason is Maintenance
            || reason is InsufficientAuth,
        !(reason.is_transient() && reason.is_permanent()),
{
}

// ── Capabilities ────────────────────────────────────────────────────

/// Operational capabilities advertised by a peer. A peer that advertises
/// nothing has the defaults: no limits, no special features.
#[derive(Debug, Clone, Copy, PartialEq, Eq)]
pub struct PeerCapabilities {
    /// Maximum upload rate this peer will provide, in bytes per second.
    pub max_upload_rate: Option<u64>,
    /// Maximum number of concurrent piece requests this peer accepts.
    pub max_concurrent_requests: Option<u32>,
    /// Number of pieces this peer has available.
    pub announced_piece_count: Option<u32>,
    /// Whether this peer supports priority piece requests.
    pub supports_priority: bool,
    /// Declared storage tier.
    pub storage_tier: Option<StorageTier>,
}

impl PeerCapabilities {
    /// Nothing is advertised.
    pub open spec fn is_default(self) -> bool {
        &&& self.max_upload_rate is None
        &&& self.max_concurrent_requests is None
        &&& self.announced_piece_count is None
        &&& !self.supports_priority
        &&& self.storage_tier is None
    }
}

impl Default for PeerCapabilities {
    fn default() -> (r: PeerCapabilities)
        ensures
            r.is_default(),
    {
        PeerCapabilities {
            max_upload_rate: None,
            max_concurrent_requests: None,
            announced_piece_count: None,
            supports_priority: false,
            storage_tier: None,
        }
    }
}

/// Identifies the kind of peer for logging, metrics, and strategy selection.
#[derive(Debug, Clone, Copy, PartialEq, Eq, Structural)]
pub enum PeerKind {
    /// HTTP web seed: always has all pieces, never choked.
    WebSeed,
    /// BitTorrent swarm, wrapped as one logical peer.
    BtSwarm,
}

// ── Errors ──────────────────────────────────────────────────────────

/// Errors from individual peer operations.
#[derive(Debug)]
pub enum PeerError {
    /// An HTTP fetch failed.
    Http {
        /// The piece that was asked for.
        piece_index: u32,
        /// Where it was asked for.
        url: String,
        /// What went wrong.
        detail: String,
    },
    /// The swarm failed.
    BtSwarm {
        /// The piece that was asked for.
        piece_index: u32,
        /// What went wrong.
        detail: String,
    },
    /// No answer came in time.
    Timeout {
        /// The piece that was asked for.
        piece_index: u32,
    },
    /// The peer refused.
    Rejected {
        /// The piece that was asked for.
        piece_index: u32,
        /// Why the peer refused.
        reason: RejectionReason,
    },
    /// Input or output failed.
    Io {
        /// What went wrong.
        detail: String,
    },
}

impl PeerError {
    /// The text shown for an error.
    pub open spec fn text(self) -> Seq<char> {
        match self {
            PeerError::Http { piece_index, url, detail } => "HTTP error fetching piece "@ + decimal(
                piece_index as nat,
            ) + " from "@ + url@ + ": "@ + detail@,
            PeerError::BtSwarm { piece_index, detail } => "BT swarm error for piece "@ + decimal(
                piece_index as nat,
            ) + ": "@ + detail@,
            PeerError::Timeout { piece_index } => "peer timeout for piece "@ + decimal(
                piece_index as nat,
            ),
            PeerError::Rejected { piece_index, reason } => "peer rejected request for piece "@
                + decimal(piece_index as nat) + ": "@ + reason.text(),
            PeerError::Io { detail } => "I/O error: "@ + detail@,
        }
    }

    /// The text shown for this error.
    pub fn display(&self) -> (r: String)
        ensures
            r@ == self.text(),
    {
        let mut out = String::new();
        match self {
            PeerError::Http { piece_index, url, detail } => {
                out.append("HTTP error fetching piece ");
                push_decimal(&mut out, *piece_index as u64);
                out.append(" from ");
                out.append(url.as_str());
                out.append(": ");
                out.append(detail.as_str());
            },
            PeerError::BtSwarm { piece_index, detail } => {
                out.append("BT swarm error for piece ");
                push_decimal(&mut out, *piece_index as u64);
                out.append(": ");
                out.append(detail.as_str());
            },
            PeerError::Timeout { piece_index } => {
                out.append("peer timeout for piece ");
                push_decimal(&mut out, *piece_index as u64);
            },
            PeerError::Rejected { piece_index, reason } => {
                out.append("peer rejected request for piece ");
                push_decimal(&mut out, *piece_index as u64);
                out.append(": ");
                out.append(reason.display().as_str());
            },
            PeerError::Io { detail } => {
                out.append("I/O error: ");
                out.append(detail.as_str());
            },
        }
        out
    }
}

// ── Peer trait ──────────────────────────────────────────────────────

/// Unified interface for any piece source.
///
/// `has_piece` must be accurate, `fetch_piece` must return the bytes of the
/// piece at the given file offset, and implementations must be safe to call
/// from multiple threads.
pub trait Peer: Send + Sync {
    /// Returns what kind of peer this is.
    fn kind(&self) -> PeerKind;

    /// Whether this peer has a specific piece available for download.
    fn has_piece(&self, piece_index: u32) -> bool;

    /// Whether this peer is currently choked (cannot accept requests).
    fn is_choked(&self) -> bool;

    /// Fetches piece data from this peer: `length` bytes of piece
    /// `piece_index`, which starts at byte `offset` of the file.
    fn fetch_piece(&self, piece_index: u32, offset: u64, length: u32) -> Result<Vec<u8>, PeerError>;

    /// Estimated download speed from this peer in bytes per second, 0 if
    /// unknown.
    fn speed_estimate(&self) -> u64;

    /// Returns this peer's advertised operational capabilities.
    fn capabilities(&self) -> (r: PeerCapabilities)
        default_ensures
            r.is_default(),
    {
        PeerCapabilities::default()
    }

    /// Returns a stable identifier for this peer across reconnections, if it
    /// has one.
    fn peer_id(&self) -> (r: Option<&str>)
        default_ensures
            r is None,
    {
        None
    }
}

/// The number of each tier, from the slowest up.
pub proof fn law_tier_numbers(tier: StorageTier)
    ensures
        tier.rank() == (match tier {
            StorageTier::Unknown => 0int,
            StorageTier::Archive => 1,
            StorageTier::Network => 2,
            StorageTier::Hdd => 3,
            StorageTier::Flash => 4,
            StorageTier::Ssd => 5,
        }),
{
}

} // verus!
