//! Piece-level peer-to-peer content distribution.
//!
//! The library holds the rules of a download that fetches pieces from many
//! peers: wire messages and their codecs, identities and groups, manifests,
//! piece validation, caches, and the bookkeeping on peers and mirrors. It does
//! no input or output and reads no clock. Callers hand it bytes and points in
//! time and act on what it answers.
//!
//! - Wire formats: [`message`], [`fast_extension`], [`metadata_exchange`],
//!   [`local_discovery`], [`handshake`], [`pex`], [`obfuscation`].
//! - Identities and groups: [`peer_id`], [`network_id`], [`group`],
//!   [`manifest`].
//! - Pieces: [`torrent_info`], [`piece_map`], [`piece_validator`], [`merkle`],
//!   [`piece_data_cache`].
//! - Peers and mirrors: [`peer`], [`peer_pool`], [`peer_stats`],
//!   [`peer_affinity`], [`phi_detector`], [`mirror_health`].
//! - Serving over HTTP: [`gateway`], [`gateway_adapter`].

pub mod codec;
pub mod digest;
pub mod entropy;
pub mod fast_extension;
pub mod gateway;
pub mod gateway_adapter;
pub mod group;
pub mod handshake;
mod list;
pub mod local_discovery;
pub mod manifest;
pub mod merkle;
pub mod message;
pub mod metadata_exchange;
pub mod mirror_health;
pub mod network_id;
pub mod obfuscation;
pub mod peer;
pub mod peer_affinity;
pub mod peer_id;
pub mod peer_pool;
pub mod peer_stats;
pub mod pex;
pub mod phi_detector;
pub mod piece_data_cache;
pub mod piece_map;
pub mod piece_validator;
pub mod rank;
pub mod text;
pub mod time;
pub mod torrent_info;

pub use fast_extension::{AllowedFastSet, FastDecodeError, FastMessage, SuggestCache};
pub use gateway::{ContentSlice, RangeError, RangeRequest, ResponseMeta};
pub use gateway_adapter::{GatewayAdapter, GatewayAdapterError, GatewayResponse};
pub use group::{GroupError, GroupMember, GroupRole, GroupRoster};
pub use handshake::{Capabilities, HandshakeMessage, PROTOCOL_VERSION};
pub use local_discovery::{LpdAnnounce, LpdPeer, LpdService, LPD_MULTICAST_ADDR, LPD_PORT};
pub use manifest::{
    diff_manifests, ContentEntry, GroupManifest, ManifestBuilder, ManifestDiff, ManifestError,
};
pub use merkle::{MerkleTree, ProofNode};
pub use message::{
    decode_message, encode_message, MessageError, PeerMessage, BLOCK_SIZE, MAX_MESSAGE_LENGTH,
};
pub use metadata_exchange::{BlockStatus, MetadataError, MetadataExchange, MetadataMessage};
pub use mirror_health::{HealthTier, MirrorEntry, MirrorRegistry, MirrorRegistryError, TierCounts};
pub use network_id::NetworkId;
pub use obfuscation::{random_port, ObfuscationKey};
pub use peer::{Peer, PeerCapabilities, PeerError, PeerKind, RejectionReason};
pub use peer_affinity::{AffinityScorer, PeerProfile};
pub use peer_id::{PeerId, PeerIdDecodeError, PeerIdKind};
pub use peer_pool::{PeerEntry, PeerPool, PeerPoolConfig, PeerState, PoolFullError};
pub use peer_stats::{PeerReputation, PeerStats, PeerTracker, TrustLevel};
pub use pex::{PexDeltaTracker, PexEntry, PexFlags, PexMessage};
pub use phi_detector::PhiDetector;
pub use piece_data_cache::{CacheStats, PieceDataCache, DEFAULT_CACHE_BYTES};
pub use piece_map::{PieceState, SharedPieceMap};
pub use piece_validator::{
    PieceValidator, QuarantineEntry, RetryDecision, ValidationResult, ValidatorConfig,
};
pub use torrent_info::TorrentInfo;
