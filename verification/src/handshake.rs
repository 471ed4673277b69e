//! Capability negotiation: what peers tell each other when they connect.
//!
//! [`Capabilities`] is a bitmap with one bit per protocol extension; bits that
//! are not known are kept. [`HandshakeMessage`] carries it together with the
//! protocol version, the peer's identity and its network.

use vstd::prelude::*;

use crate::network_id::NetworkId;
use crate::peer_id::PeerId;

verus! {

/// Protocol version for the current handshake format.
pub const PROTOCOL_VERSION: u8 = 1;

/// Protocol extension capability bitmap.
#[derive(Debug, Clone, Copy, PartialEq, Eq, Hash, Structural)]
pub struct Capabilities {
    bits: u32,
}

/// The number of ones in the binary notation of `n`.
pub open spec fn ones(n: u32) -> nat
    decreases n,
{
    if n == 0 {
        0
    } else {
        (n % 2) as nat + ones(n / 2)
    }
}

impl Capabilities {
    /// The raw bitmap.
    pub closed spec fn raw(self) -> u32 {
        self.bits
    }

    /// No capabilities advertised.
    pub fn none() -> (r: Capabilities)
        ensures
            r.raw() == 0,
    {
        Capabilities { bits: 0 }
    }

    /// Peer supports obfuscated or encrypted connections.
    pub fn encryption() -> (r: Capabilities)
        ensures
            r.raw() == 0x01,
    {
        Capabilities { bits: 0x01 }
    }

    /// Peer supports Merkle tree proof exchange for piece verification.
    pub fn merkle_verify() -> (r: Capabilities)
        ensures
            r.raw() == 0x02,
    {
        Capabilities { bits: 0x02 }
    }

    /// Peer supports peer exchange gossip.
    pub fn pex() -> (r: Capabilities)
        ensures
            r.raw() == 0x04,
    {
        Capabilities { bits: 0x04 }
    }

    /// Peer participates in the DHT.
    pub fn dht() -> (r: Capabilities)
        ensures
            r.raw() == 0x08,
    {
        Capabilities { bits: 0x08 }
    }

    /// Peer can serve pieces via HTTP Range requests (web seed).
    pub fn web_seed() -> (r: Capabilities)
        ensures
            r.raw() == 0x10,
    {
        Capabilities { bits: 0x10 }
    }

    /// Peer supports byte-range streaming.
    pub fn streaming() -> (r: Capabilities)
        ensures
            r.raw() == 0x20,
    {
        Capabilities { bits: 0x20 }
    }

    /// Peer enforces bounded upload slots.
    pub fn upload_slots() -> (r: Capabilities)
        ensures
            r.raw() == 0x40,
    {
        Capabilities { bits: 0x40 }
    }

    /// Peer applies per-connection rate limiting.
    pub fn rate_limit() -> (r: Capabilities)
        ensures
            r.raw() == 0x80,
    {
        Capabilities { bits: 0x80 }
    }

    /// All currently defined capabilities.
    pub fn all_known() -> (r: Capabilities)
        ensures
            r.raw() == 0xFF,
    {
        Capabilities { bits: 0xFF }
    }

    /// Creates a capability set from a raw bitmap. Unknown bits are kept.
    pub fn from_u32(bits: u32) -> (r: Capabilities)
        ensures
            r.raw() == bits,
    {
        Capabilities { bits }
    }

    /// Returns the raw bitmap.
    pub fn to_u32(self) -> (r: u32)
        ensures
            r == self.raw(),
    {
        self.bits
    }

    /// Whether this capability set has all bits of `other`.
    pub fn supports(self, other: Capabilities) -> (r: bool)
        ensures
            r == (self.raw() & other.raw() == other.raw()),
    {
        (self.bits & other.bits) == other.bits
    }

    /// Returns the intersection of two capability sets.
    pub fn intersect(self, other: Capabilities) -> (r: Capabilities)
        ensures
            r.raw() == self.raw() & other.raw(),
    {
        Capabilities { bits: self.bits & other.bits }
    }

    /// Returns the number of set capability bits.
    pub fn count(self) -> (r: u32)
        ensures
            r == ones(self.raw()),
    {
        let mut rest: u32 = self.bits;
        let mut count: u32 = 0;
        proof {
            lemma_ones_bound(self.bits);
        }
        while rest > 0
            invariant
                count + ones(rest) == ones(self.bits),
                ones(self.bits) <= self.bits,
            decreases rest,
        {
            if rest % 2 == 1 {
                count += 1;
            }
            rest = rest / 2;
        }
        count
    }

    /// Whether no capabilities are advertised.
    pub fn is_empty(self) -> (r: bool)
        ensures
            r == (self.raw() == 0),
    {
        self.bits == 0
    }
}

/// A number has at most as many ones as it counts.
proof fn lemma_ones_bound(n: u32)
    ensures
        ones(n) <= n,
    decreases n,
{
    if n > 0 {
        lemma_ones_bound(n / 2);
    }
}

impl core::ops::BitOr for Capabilities {
    type Output = Capabilities;

    fn bitor(self, rhs: Capabilities) -> (r: Capabilities) {
        Capabilities { bits: self.bits | rhs.bits }
    }
}

impl vstd::std_specs::ops::BitOrSpecImpl for Capabilities {
    open spec fn obeys_bitor_spec() -> bool {
        true
    }

    open spec fn bitor_req(self, rhs: Capabilities) -> bool {
        true
    }

    closed spec fn bitor_spec(self, rhs: Capabilities) -> Capabilities {
        Capabilities { bits: self.bits | rhs.bits }
    }
}

impl core::ops::BitAnd for Capabilities {
    type Output = Capabilities;

    fn bitand(self, rhs: Capabilities) -> (r: Capabilities) {
        Capabilities { bits: self.bits & rhs.bits }
    }
}

impl vstd::std_specs::ops::BitAndSpecImpl for Capabilities {
    open spec fn obeys_bitand_spec() -> bool {
        true
    }

    open spec fn bitand_req(self, rhs: Capabilities) -> bool {
        true
    }

    closed spec fn bitand_spec(self, rhs: Capabilities) -> Capabilities {
        Capabilities { bits: self.bits & rhs.bits }
    }
}

impl core::ops::BitOrAssign for Capabilities {
    fn bitor_assign(&mut self, rhs: Capabilities)
        ensures
            final(self).raw() == old(self).raw() | rhs.raw(),
    {
        self.bits = self.bits | rhs.bits;
    }
}

// ── Handshake ───────────────────────────────────────────────────────

/// Handshake message exchanged at connection establishment.
#[derive(Debug, Clone, Copy, PartialEq, Eq)]
pub struct HandshakeMessage {
    /// Protocol version (for version negotiation).
    pub protocol_version: u8,
    /// Capability bitmap advertising supported extensions.
    pub capabilities: Capabilities,
    /// The sender's cryptographic peer identity.
    pub peer_id: PeerId,
    /// Network scope (isolates test, production and custom networks).
    pub network_id: NetworkId,
}

impl HandshakeMessage {
    /// Creates a new handshake message with the current protocol version.
    pub fn new(peer_id: PeerId, network_id: NetworkId, capabilities: Capabilities) -> (r:
        HandshakeMessage)
        ensures
            r == (HandshakeMessage {
                protocol_version: PROTOCOL_VERSION,
                capabilities,
                peer_id,
                network_id,
            }),
    {
        HandshakeMessage { protocol_version: PROTOCOL_VERSION, capabilities, peer_id, network_id }
    }

    /// Negotiates common capabilities between local and remote handshakes.
    ///
    /// Returns `None` if the networks differ, otherwise the capabilities that
    /// both peers support.
    pub fn negotiate(&self, remote: &HandshakeMessage) -> (r: Option<Capabilities>)
        ensures
            match r {
                Some(common) => {
                    &&& self.network_id@ == remote.network_id@
                    &&& common.raw() == self.capabilities.raw() & remote.capabilities.raw()
                },
                None => self.network_id@ != remote.network_id@,
            },
    {
        if self.network_id != remote.network_id {
            return None;
        }
        Some(self.capabilities.intersect(remote.capabilities))
    }
}

// ── Laws ────────────────────────────────────────────────────────────

/// What is common to two sets is supported by both, whichever is asked first,
/// and nothing that both support is missing from it.
pub proof fn law_intersection(a: u32, b: u32, c: u32)
    ensures
        a & b == b & a,
        a & (a & b) == a & b,
        b & (a & b) == a & b,
        (a & c == c && b & c == c) <==> (a & b) & c == c,
{
    assert(a & b == b & a) by (bit_vector);
    assert(a & (a & b) == a & b) by (bit_vector);
    assert(b & (a & b) == a & b) by (bit_vector);
    assert((a & c == c && b & c == c) <==> (a & b) & c == c) by (bit_vector);
}

/// A union supports both of its parts.
pub proof fn law_union(a: u32, b: u32)
    ensures
        (a | b) & a == a,
        (a | b) & b == b,
{
    assert((a | b) & a == a) by (bit_vector);
    assert((a | b) & b == b) by (bit_vector);
}

/// Every set supports no capabilities at all.
pub proof fn law_nothing_is_supported(a: u32)
    ensures
        a & 0 == 0,
{
    assert(a & 0 == 0) by (bit_vector);
}

/// The union of two sets has the bits of both, the intersection those that
/// both have.
pub proof fn law_operators(a: Capabilities, b: Capabilities)
    ensures
        vstd::std_specs::ops::BitOrSpec::bitor_spec(a, b).raw() == a.raw() | b.raw(),
        vstd::std_specs::ops::BitAndSpec::bitand_spec(a, b).raw() == a.raw() & b.raw(),
{
}

/// Capabilities are counted bit by bit.
pub proof fn law_bits_are_counted(n: u32)
    requires
        n < 0x8000_0000,
    ensures
        ones(0) == 0,
        ones((2 * n) as u32) == ones(n),
        ones((2 * n + 1) as u32) == ones(n) + 1,
{
    let even: u32 = (2 * n) as u32;
    let odd: u32 = (2 * n + 1) as u32;
    assert(even / 2 == n && even % 2 == 0);
    assert(odd / 2 == n && odd % 2 == 1);
    if even == 0 {
        assert(n == 0);
    }
}

/// The version that is spoken.
pub proof fn law_limits()
    ensures
        PROTOCOL_VERSION == 1,
{
}

} // verus!
