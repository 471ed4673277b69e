//! Peer exchange: peers gossip about other peers they know.
//!
//! [`PexMessage`] names peers that were found and peers that are gone;
//! [`PexFlags`] is the byte that describes a peer in it. [`PexDeltaTracker`]
//! remembers what each recipient was told, so that it is told once.

use vstd::prelude::*;

use crate::network_id::NetworkId;
use crate::peer_id::PeerId;

verus! {

/// Maximum recommended added entries per message.
pub const MAX_PEX_ADDED: usize = 50;

/// Maximum recommended dropped entries per message.
pub const MAX_PEX_DROPPED: usize = 50;

/// Recommended interval between messages in seconds.
pub const PEX_INTERVAL_SECS: u64 = 60;

/// Number of known peers per recipient beyond which tracking has little
/// effect. Nothing is dropped there, since messages are bounded themselves.
pub const MAX_TRACKED_PEERS: usize = 200;

// ── Flags ───────────────────────────────────────────────────────────

/// Capability flags for a peer in a message.
#[derive(Debug, Clone, Copy, PartialEq, Eq, Structural)]
pub struct PexFlags {
    /// Peer supports encrypted connections (0x01).
    pub encryption: bool,
    /// Peer is a seed: has all pieces (0x02).
    pub seed: bool,
    /// Peer supports the datagram transport (0x04).
    pub utp: bool,
    /// Peer prefers the datagram transport for incoming connections (0x08).
    pub utp_holepunch: bool,
    /// Peer is directly connectable without NAT traversal (0x10).
    pub connectable: bool,
}

impl Default for PexFlags {
    fn default() -> (r: PexFlags)
        ensures
            r == (PexFlags {
                encryption: false,
                seed: false,
                utp: false,
                utp_holepunch: false,
                connectable: false,
            }),
    {
        PexFlags {
            encryption: false,
            seed: false,
            utp: false,
            utp_holepunch: false,
            connectable: false,
        }
    }
}

/// `bit` where a flag is set.
pub open spec fn flag_bit(set: bool, bit: u8) -> u8 {
    if set {
        bit
    } else {
        0
    }
}

impl PexFlags {
    /// The byte that stands for the flags.
    pub open spec fn byte(self) -> u8 {
        flag_bit(self.encryption, 0x01) | flag_bit(self.seed, 0x02) | flag_bit(self.utp, 0x04)
            | flag_bit(self.utp_holepunch, 0x08) | flag_bit(self.connectable, 0x10)
    }

    /// The flags that a byte stands for. Bits without a meaning are ignored.
    pub open spec fn of_byte(b: u8) -> PexFlags {
        PexFlags {
            encryption: b & 0x01 != 0,
            seed: b & 0x02 != 0,
            utp: b & 0x04 != 0,
            utp_holepunch: b & 0x08 != 0,
            connectable: b & 0x10 != 0,
        }
    }

    /// Encodes flags into a single byte.
    pub fn to_byte(self) -> (r: u8)
        ensures
            r == self.byte(),
    {
        let encryption: u8 = if self.encryption {
            0x01
        } else {
            0
        };
        let seed: u8 = if self.seed {
            0x02
        } else {
            0
        };
        let utp: u8 = if self.utp {
            0x04
        } else {
            0
        };
        let utp_holepunch: u8 = if self.utp_holepunch {
            0x08
        } else {
            0
        };
        let connectable: u8 = if self.connectable {
            0x10
        } else {
            0
        };
        encryption | seed | utp | utp_holepunch | connectable
    }

    /// Decodes flags from a single byte.
    pub fn from_byte(b: u8) -> (r: PexFlags)
        ensures
            r == PexFlags::of_byte(b),
    {
        PexFlags {
            encryption: b & 0x01 != 0,
            seed: b & 0x02 != 0,
            utp: b & 0x04 != 0,
            utp_holepunch: b & 0x08 != 0,
            connectable: b & 0x10 != 0,
        }
    }
}

/// Flags survive their byte.
pub proof fn law_flags_round_trip(flags: PexFlags)
    ensures
        PexFlags::of_byte(flags.byte()) == flags,
{
    let e = flags.encryption;
    let s = flags.seed;
    let u = flags.utp;
    let h = flags.utp_holepunch;
    let c = flags.connectable;
    let a1 = flag_bit(e, 0x01);
    let a2 = flag_bit(s, 0x02);
    let a3 = flag_bit(u, 0x04);
    let a4 = flag_bit(h, 0x08);
    let a5 = flag_bit(c, 0x10);
    let b = a1 | a2 | a3 | a4 | a5;
    assert((b & 0x01 != 0) == (a1 == 0x01) && (b & 0x02 != 0) == (a2 == 0x02) && (b & 0x04 != 0)
        == (a3 == 0x04) && (b & 0x08 != 0) == (a4 == 0x08) && (b & 0x10 != 0) == (a5 == 0x10))
        by (bit_vector)
        requires
            b == a1 | a2 | a3 | a4 | a5,
            a1 == 0 || a1 == 0x01u8,
            a2 == 0 || a2 == 0x02u8,
            a3 == 0 || a3 == 0x04u8,
            a4 == 0 || a4 == 0x08u8,
            a5 == 0 || a5 == 0x10u8,
    ;
}

/// A byte survives as far as its bits have a meaning.
pub proof fn law_byte_round_trip(b: u8)
    ensures
        PexFlags::of_byte(b).byte() == b & 0x1F,
{
    let a1 = flag_bit(b & 0x01 != 0, 0x01);
    let a2 = flag_bit(b & 0x02 != 0, 0x02);
    let a3 = flag_bit(b & 0x04 != 0, 0x04);
    let a4 = flag_bit(b & 0x08 != 0, 0x08);
    let a5 = flag_bit(b & 0x10 != 0, 0x10);
    assert(a1 | a2 | a3 | a4 | a5 == b & 0x1F) by (bit_vector)
        requires
            a1 == (if b & 0x01 != 0 { 0x01u8 } else { 0u8 }),
            a2 == (if b & 0x02 != 0 { 0x02u8 } else { 0u8 }),
            a3 == (if b & 0x04 != 0 { 0x04u8 } else { 0u8 }),
            a4 == (if b & 0x08 != 0 { 0x08u8 } else { 0u8 }),
            a5 == (if b & 0x10 != 0 { 0x10u8 } else { 0u8 }),
    ;
}

// ── Messages ────────────────────────────────────────────────────────

/// A single peer entry in a message.
#[derive(Debug, PartialEq, Eq)]
pub struct PexEntry {
    /// The peer's cryptographic identity.
    pub peer_id: PeerId,
    /// Network address: "IP:port" for swarm peers, URL for web seeds.
    pub addr: String,
    /// Capability flags.
    pub flags: PexFlags,
}

impl Clone for PexEntry {
    fn clone(&self) -> (r: PexEntry)
        ensures
            r == *self,
    {
        PexEntry { peer_id: self.peer_id, addr: self.addr.clone(), flags: self.flags }
    }
}

/// Peer exchange message: periodic gossip about known peers. Receivers with a
/// different network must discard it.
#[derive(Debug, Clone)]
pub struct PexMessage {
    /// Network this message belongs to.
    pub network_id: NetworkId,
    /// Newly discovered peers to share.
    pub added: Vec<PexEntry>,
    /// Peers that have disconnected or become unreachable.
    pub dropped: Vec<PeerId>,
}

impl PexMessage {
    /// Creates an empty message for the given network.
    pub fn new(network_id: NetworkId) -> (r: PexMessage)
        ensures
            r.network_id == network_id,
            r.added@ == Seq::<PexEntry>::empty(),
            r.dropped@ == Seq::<PeerId>::empty(),
    {
        PexMessage { network_id, added: Vec::new(), dropped: Vec::new() }
    }

    /// Whether this message has no entries (added or dropped).
    pub fn is_empty(&self) -> (r: bool)
        ensures
            r == (self.added@.len() == 0 && self.dropped@.len() == 0),
    {
        self.added.len() == 0 && self.dropped.len() == 0
    }

    /// Whether a list exceeds the recommended limit.
    pub fn is_oversized(&self) -> (r: bool)
        ensures
            r == (self.added@.len() > MAX_PEX_ADDED || self.dropped@.len() > MAX_PEX_DROPPED),
    {
        self.added.len() > MAX_PEX_ADDED || self.dropped.len() > MAX_PEX_DROPPED
    }
}

// ── Delta tracker ───────────────────────────────────────────────────

/// What one recipient knows.
struct Knowledge {
    recipient: PeerId,
    known: Vec<PeerId>,
}

/// The bytes of identities.
pub open spec fn id_bytes(ids: Seq<PeerId>) -> Seq<Seq<u8>> {
    Seq::new(ids.len(), |i: int| ids[i]@)
}

/// The recipients of a list.
spec fn recipients(list: Seq<Knowledge>) -> Seq<Seq<u8>> {
    Seq::new(list.len(), |i: int| list[i].recipient@)
}

/// What the recipients of a list know.
spec fn knowledge_map(list: Seq<Knowledge>) -> Map<Seq<u8>, Set<Seq<u8>>> {
    Map::new(
        |id: Seq<u8>| recipients(list).contains(id),
        |id: Seq<u8>| id_bytes(list[recipients(list).index_of(id)].known@).to_set(),
    )
}

/// Tracks per recipient which peers it already knows, so that messages name
/// new peers only.
pub struct PexDeltaTracker {
    list: Vec<Knowledge>,
}

/// What each recipient knows.
impl View for PexDeltaTracker {
    type V = Map<Seq<u8>, Set<Seq<u8>>>;

    closed spec fn view(&self) -> Map<Seq<u8>, Set<Seq<u8>>> {
        knowledge_map(self.list@)
    }
}

/// What a recipient knows, nothing if it is not tracked.
pub open spec fn known_to(known: Map<Seq<u8>, Set<Seq<u8>>>, recipient: Seq<u8>) -> Set<Seq<u8>> {
    if known.contains_key(recipient) {
        known[recipient]
    } else {
        Set::empty()
    }
}

/// The entries for peers that are not known, in order.
pub open spec fn unknown_entries(candidates: Seq<PexEntry>, known: Set<Seq<u8>>) -> Seq<PexEntry>
    decreases candidates.len(),
{
    if candidates.len() == 0 {
        Seq::empty()
    } else {
        let rest = unknown_entries(candidates.drop_last(), known);
        if known.contains(candidates.last().peer_id@) {
            rest
        } else {
            rest.push(candidates.last())
        }
    }
}

/// An entry of the map.
proof fn lemma_entry(list: Seq<Knowledge>, i: int)
    requires
        recipients(list).no_duplicates(),
        0 <= i < list.len(),
    ensures
        knowledge_map(list).contains_key(list[i].recipient@),
        knowledge_map(list)[list[i].recipient@] == id_bytes(list[i].known@).to_set(),
{
    let all = recipients(list);
    let id = list[i].recipient@;
    assert(all[i] == id);
    assert(all.contains(id));
    let k = all.index_of(id);
    assert(0 <= k < all.len() && all[k] == id);
    assert(k == i);
}

/// Finds an identity in a list.
fn holds(ids: &Vec<PeerId>, id: &PeerId) -> (r: bool)
    ensures
        r == id_bytes(ids@).contains(id@),
{
    let mut i: usize = 0;
    while i < ids.len()
        invariant
            i <= ids@.len(),
            forall|k: int| 0 <= k < i ==> (#[trigger] ids@[k])@ != id@,
        decreases ids@.len() - i,
    {
        if ids[i] == *id {
            assert(id_bytes(ids@)[i as int] == id@);
            return true;
        }
        i += 1;
    }
    assert forall|k: int| 0 <= k < id_bytes(ids@).len() implies id_bytes(ids@)[k] != id@ by {
        assert(ids@[k]@ != id@);
    }
    false
}

impl PexDeltaTracker {
    /// No recipient twice, and no peer twice in what one knows.
    pub closed spec fn wf(self) -> bool {
        &&& recipients(self.list@).no_duplicates()
        &&& forall|i: int|
            0 <= i < self.list@.len() ==> id_bytes(
                (#[trigger] self.list@[i]).known@,
            ).no_duplicates()
    }

    /// Creates an empty delta tracker.
    pub fn new() -> (r: PexDeltaTracker)
        ensures
            r.wf(),
            r@ == Map::<Seq<u8>, Set<Seq<u8>>>::empty(),
    {
        let r = PexDeltaTracker { list: Vec::new() };
        assert(r@ == Map::<Seq<u8>, Set<Seq<u8>>>::empty());
        r
    }

    /// Finds a recipient.
    fn find(&self, recipient: &PeerId) -> (r: Option<usize>)
        requires
            self.wf(),
        ensures
            match r {
                Some(i) => {
                    &&& i < self.list@.len()
                    &&& self.list@[i as int].recipient@ == recipient@
                    &&& self@.contains_key(recipient@)
                    &&& self@[recipient@] == id_bytes(self.list@[i as int].known@).to_set()
                },
                None => !self@.contains_key(recipient@),
            },
    {
        let mut i: usize = 0;
        while i < self.list.len()
            invariant
                self.wf(),
                i <= self.list@.len(),
                forall|k: int| 0 <= k < i ==> (#[trigger] self.list@[k]).recipient@ != recipient@,
            decreases self.list@.len() - i,
        {
            if self.list[i].recipient == *recipient {
                proof {
                    lemma_entry(self.list@, i as int);
                }
                return Some(i);
            }
            i += 1;
        }
        assert forall|k: int| 0 <= k < recipients(self.list@).len() implies recipients(
            self.list@,
        )[k] != recipient@ by {
            assert(self.list@[k].recipient@ != recipient@);
        }
        None
    }

    /// Filters a candidate list down to only peers the recipient has not seen.
    pub fn filter_new(&self, recipient: &PeerId, candidates: &[PexEntry]) -> (r: Vec<PexEntry>)
        requires
            self.wf(),
        ensures
            r@ == unknown_entries(candidates@, known_to(self@, recipient@)),
    {
        let place = self.find(recipient);
        let ghost known = known_to(self@, recipient@);
        let mut fresh: Vec<PexEntry> = Vec::new();
        let mut i: usize = 0;
        assert(candidates@.take(0) == Seq::<PexEntry>::empty());
        while i < candidates.len()
            invariant
                i <= candidates@.len(),
                match place {
                    Some(p) => p < self.list@.len() && known == id_bytes(
                        self.list@[p as int].known@,
                    ).to_set(),
                    None => known == Set::<Seq<u8>>::empty(),
                },
                fresh@ == unknown_entries(candidates@.take(i as int), known),
            decreases candidates@.len() - i,
        {
            let entry = &candidates[i];
            proof {
                assert(candidates@.take(i + 1).drop_last() == candidates@.take(i as int));
            }
            let seen = match place {
                Some(p) => holds(&self.list[p].known, &entry.peer_id),
                None => false,
            };
            if !seen {
                fresh.push(entry.clone());
            }
            i += 1;
        }
        assert(candidates@.take(i as int) == candidates@);
        fresh
    }

    /// Records that the recipient now knows about the given peers.
    pub fn mark_sent(&mut self, recipient: &PeerId, sent_peers: &[PeerId])
        requires
            old(self).wf(),
        ensures
            final(self).wf(),
            final(self)@ == old(self)@.insert(
                recipient@,
                known_to(old(self)@, recipient@).union(id_bytes(sent_peers@).to_set()),
            ),
    {
        let ghost start = self.list@;
        let ghost before = known_to(self@, recipient@);
        let at: usize = match self.find(recipient) {
            Some(i) => i,
            None => {
                let n: usize = self.list.len();
                self.list.push(Knowledge { recipient: *recipient, known: Vec::new() });
                proof {
                    let last = self.list@[n as int];
                    assert(self.list@.drop_last() == start);
                    assert(recipients(self.list@) == recipients(start).push(recipient@));
                    assert forall|k: int| 0 <= k < n implies recipients(start)[k] != recipient@ by {
                        assert(recipients(start).contains(recipients(start)[k]));
                    }
                    assert(id_bytes(last.known@) == Seq::<Seq<u8>>::empty());
                    assert(id_bytes(last.known@).to_set() == Set::<Seq<u8>>::empty());
                }
                n
            },
        };
        let ghost middle = self.list@;
        assert(id_bytes(middle[at as int].known@).to_set() == before);
        let mut i: usize = 0;
        assert(id_bytes(sent_peers@).take(0) == Seq::<Seq<u8>>::empty());
        assert(before.union(Seq::<Seq<u8>>::empty().to_set()) == before);
        while i < sent_peers.len()
            invariant
                i <= sent_peers@.len(),
                at < self.list@.len(),
                self.list@.len() == middle.len(),
                forall|k: int|
                    0 <= k < middle.len() && k != at ==> #[trigger] self.list@[k] == middle[k],
                self.list@[at as int].recipient == middle[at as int].recipient,
                id_bytes(self.list@[at as int].known@).no_duplicates(),
                id_bytes(self.list@[at as int].known@).to_set() == before.union(
                    id_bytes(sent_peers@).take(i as int).to_set(),
                ),
            decreases sent_peers@.len() - i,
        {
            let id = sent_peers[i];
            let ghost had = id_bytes(self.list@[at as int].known@);
            let ghost sent = id_bytes(sent_peers@).take(i as int);
            let ghost more = id_bytes(sent_peers@).take(i + 1);
            proof {
                assert(more == sent.push(id@));
                lemma_push_set(sent, id@);
                lemma_push_set(had, id@);
            }
            if !holds(&self.list[at].known, &id) {
                self.list[at].known.push(id);
                assert(id_bytes(self.list@[at as int].known@) == had.push(id@));
            } else {
                assert(had.to_set().insert(id@) == had.to_set());
            }
            assert(id_bytes(self.list@[at as int].known@).to_set() == before.union(more.to_set()));
            i += 1;
        }
        proof {
            assert(id_bytes(sent_peers@).take(i as int) == id_bytes(sent_peers@));
            assert(recipients(self.list@) == recipients(middle));
            let grown = before.union(id_bytes(sent_peers@).to_set());
            let old_map = knowledge_map(start);
            let new_map = knowledge_map(self.list@);
            lemma_entry(self.list@, at as int);
            assert forall|id: Seq<u8>| #[trigger]
                new_map.contains_key(id) <==> old_map.insert(recipient@, grown).contains_key(id) by {
                lemma_same_recipients(start, middle, recipient@, id);
            }
            assert forall|id: Seq<u8>| #[trigger] new_map.contains_key(id) implies new_map[id]
                == old_map.insert(recipient@, grown)[id] by {
                if id != recipient@ {
                    let k = recipients(self.list@).index_of(id);
                    assert(0 <= k < self.list@.len() && recipients(self.list@)[k] == id);
                    lemma_entry(self.list@, k);
                    assert(self.list@[k] == middle[k]);
                    assert(k < start.len());
                    assert(start[k] == middle[k]);
                    lemma_entry(start, k);
                }
            }
            assert(new_map == old_map.insert(recipient@, grown));
        }
    }

    /// Removes all tracking state for a recipient (for example on disconnect).
    pub fn remove_recipient(&mut self, recipient: &PeerId)
        requires
            old(self).wf(),
        ensures
            final(self).wf(),
            final(self)@ == old(self)@.remove(recipient@),
    {
        let ghost start = self.list@;
        match self.find(recipient) {
            Some(i) => {
                self.list.remove(i);
                proof {
                    let rest = self.list@;
                    assert forall|k: int| 0 <= k < rest.len() implies #[trigger] rest[k]
                        == start[if k < i { k } else { k + 1 }] by {}
                    assert forall|a: int, b: int|
                        0 <= a < recipients(rest).len() && 0 <= b < recipients(rest).len() && a
                            != b implies recipients(rest)[a] != recipients(rest)[b] by {
                        let x = if a < i { a } else { a + 1 };
                        let y = if b < i { b } else { b + 1 };
                        assert(recipients(start)[x] != recipients(start)[y]);
                    }
                    let old_map = knowledge_map(start);
                    let new_map = knowledge_map(rest);
                    assert forall|id: Seq<u8>| #[trigger]
                        new_map.contains_key(id) <==> old_map.remove(recipient@).contains_key(id) by {
                        if new_map.contains_key(id) {
                            let k = recipients(rest).index_of(id);
                            assert(0 <= k < rest.len() && recipients(rest)[k] == id);
                            let x = if k < i { k } else { k + 1 };
                            assert(recipients(start)[x] == id);
                            assert(recipients(start)[i as int] == recipient@);
                        }
                        if old_map.contains_key(id) && id != recipient@ {
                            let x = recipients(start).index_of(id);
                            assert(0 <= x < start.len() && recipients(start)[x] == id);
                            assert(recipients(rest)[if x < i { x } else { x - 1 }] == id);
                        }
                    }
                    assert forall|id: Seq<u8>| #[trigger] new_map.contains_key(id) implies new_map[id]
                        == old_map.remove(recipient@)[id] by {
                        let k = recipients(rest).index_of(id);
                        assert(0 <= k < rest.len() && recipients(rest)[k] == id);
                        let x = if k < i { k } else { k + 1 };
                        assert(rest[k] == start[x]);
                        lemma_entry(rest, k);
                        lemma_entry(start, x);
                    }
                    assert(new_map == old_map.remove(recipient@));
                }
            },
            None => {
                assert(self@ == self@.remove(recipient@));
            },
        }
    }

    /// Returns the number of tracked recipients.
    pub fn recipient_count(&self) -> (r: usize)
        requires
            self.wf(),
        ensures
            r == self@.dom().len(),
    {
        proof {
            let all = recipients(self.list@);
            all.unique_seq_to_set();
            assert(self@.dom() == all.to_set());
        }
        self.list.len()
    }

    /// Returns how many peers the given recipient is known to know.
    pub fn known_count(&self, recipient: &PeerId) -> (r: usize)
        requires
            self.wf(),
        ensures
            r == known_to(self@, recipient@).len(),
    {
        match self.find(recipient) {
            Some(i) => {
                proof {
                    id_bytes(self.list@[i as int].known@).unique_seq_to_set();
                }
                self.list[i].known.len()
            },
            None => 0,
        }
    }
}

/// One more element in a list is one more in its set.
proof fn lemma_push_set(list: Seq<Seq<u8>>, x: Seq<u8>)
    ensures
        list.push(x).to_set() == list.to_set().insert(x),
{
    let more = list.push(x);
    assert forall|y: Seq<u8>| #[trigger] more.to_set().contains(y) <==> list.to_set().insert(
        x,
    ).contains(y) by {
        if more.contains(y) {
            let i = choose|i: int| 0 <= i < more.len() && more[i] == y;
            if i < list.len() {
                assert(list[i] == y);
            }
        }
        if list.contains(y) {
            let i = choose|i: int| 0 <= i < list.len() && list[i] == y;
            assert(more[i] == y);
        }
        assert(more[list.len() as int] == x);
    }
    assert(more.to_set() == list.to_set().insert(x));
}

/// Where a recipient was added or was there, the others are the same.
proof fn lemma_same_recipients(
    start: Seq<Knowledge>,
    middle: Seq<Knowledge>,
    recipient: Seq<u8>,
    id: Seq<u8>,
)
    requires
        middle == start || (middle.len() == start.len() + 1 && middle.drop_last() == start
            && middle.last().recipient@ == recipient),
        recipients(middle).contains(recipient),
    ensures
        recipients(middle).contains(id) <==> recipients(start).contains(id) || id == recipient,
{
    if recipients(middle).contains(id) && id != recipient {
        let k = recipients(middle).index_of(id);
        assert(0 <= k < middle.len() && recipients(middle)[k] == id);
        if middle != start {
            assert(k < start.len());
            assert(middle.drop_last()[k] == middle[k]);
        }
        assert(recipients(start)[k] == id);
    }
    if recipients(start).contains(id) {
        let k = recipients(start).index_of(id);
        assert(0 <= k < start.len() && recipients(start)[k] == id);
        if middle != start {
            assert(middle.drop_last()[k] == middle[k]);
        }
        assert(recipients(middle)[k] == id);
    }
}

impl Default for PexDeltaTracker {
    fn default() -> (r: PexDeltaTracker)
        ensures
            r.wf(),
            r@ == Map::<Seq<u8>, Set<Seq<u8>>>::empty(),
    {
        PexDeltaTracker::new()
    }
}

// ── Laws ────────────────────────────────────────────────────────────

/// What is left of a candidate list is what is not known, no more and no less.
pub proof fn law_filter_keeps_unknown(
    candidates: Seq<PexEntry>,
    known: Set<Seq<u8>>,
    entry: PexEntry,
)
    ensures
        unknown_entries(candidates, known).contains(entry) <==> candidates.contains(entry)
            && !known.contains(entry.peer_id@),
    decreases candidates.len(),
{
    if candidates.len() > 0 {
        let front = candidates.drop_last();
        let last = candidates.last();
        let rest = unknown_entries(front, known);
        let all = unknown_entries(candidates, known);
        law_filter_keeps_unknown(front, known, entry);
        assert(candidates[candidates.len() - 1] == last);
        if front.contains(entry) {
            let i = choose|i: int| 0 <= i < front.len() && front[i] == entry;
            assert(candidates[i] == entry);
        }
        if candidates.contains(entry) && entry != last {
            let i = choose|i: int| 0 <= i < candidates.len() && candidates[i] == entry;
            assert(front[i] == entry);
        }
        if !known.contains(last.peer_id@) {
            assert(all[rest.len() as int] == last);
            if rest.contains(entry) {
                let i = choose|i: int| 0 <= i < rest.len() && rest[i] == entry;
                assert(all[i] == entry);
            }
            if all.contains(entry) && entry != last {
                let i = choose|i: int| 0 <= i < all.len() && all[i] == entry;
                assert(rest[i] == entry);
            }
        }
    }
}

/// What was sent to a recipient is not new to it any more, and what others
/// know stays the same.
pub proof fn law_sent_peers_are_known(
    known: Map<Seq<u8>, Set<Seq<u8>>>,
    recipient: Seq<u8>,
    sent: Set<Seq<u8>>,
    id: Seq<u8>,
    other: Seq<u8>,
)
    ensures
        ({
            let after = known.insert(recipient, known_to(known, recipient).union(sent));
            &&& sent.contains(id) ==> known_to(after, recipient).contains(id)
            &&& known_to(known, recipient).contains(id) ==> known_to(after, recipient).contains(id)
            &&& other != recipient ==> known_to(after, other) == known_to(known, other)
        }),
{
}

/// What each bit means: encryption 1, seed 2, uTP 4, hole punching 8,
/// connectable 16. Further bits are never set and mean nothing.
pub proof fn law_flag_values(flags: PexFlags, b: u8)
    ensures
        flags.byte() == (if flags.encryption {
            1int
        } else {
            0
        }) + (if flags.seed {
            2int
        } else {
            0
        }) + (if flags.utp {
            4int
        } else {
            0
        }) + (if flags.utp_holepunch {
            8int
        } else {
            0
        }) + (if flags.connectable {
            16int
        } else {
            0
        }),
        PexFlags::of_byte(b).encryption <==> b % 2 == 1,
        PexFlags::of_byte(b).seed <==> (b / 2) % 2 == 1,
        PexFlags::of_byte(b).utp <==> (b / 4) % 2 == 1,
        PexFlags::of_byte(b).utp_holepunch <==> (b / 8) % 2 == 1,
        PexFlags::of_byte(b).connectable <==> (b / 16) % 2 == 1,
{
    let e = flag_bit(flags.encryption, 0x01);
    let s = flag_bit(flags.seed, 0x02);
    let u = flag_bit(flags.utp, 0x04);
    let h = flag_bit(flags.utp_holepunch, 0x08);
    let c = flag_bit(flags.connectable, 0x10);
    assert(e | s | u | h | c == e + s + u + h + c) by (bit_vector)
        requires
            e == 0 || e == 1,
            s == 0 || s == 2,
            u == 0 || u == 4,
            h == 0 || h == 8,
            c == 0 || c == 16,
    ;
    assert((b & 0x01 != 0 <==> b % 2 == 1) && (b & 0x02 != 0 <==> (b / 2) % 2 == 1) && (b & 0x04
        != 0 <==> (b / 4) % 2 == 1) && (b & 0x08 != 0 <==> (b / 8) % 2 == 1) && (b & 0x10 != 0 <==> (
    b / 16) % 2 == 1)) by (bit_vector);
}

/// What is left of a candidate list keeps its order.
pub proof fn law_filter_keeps_order(candidates: Seq<PexEntry>, known: Set<Seq<u8>>)
    ensures
        unknown_entries(candidates, known) == candidates.filter(
            |e: PexEntry| !known.contains(e.peer_id@),
        ),
    decreases candidates.len(),
{
    reveal(Seq::filter);
    if candidates.len() > 0 {
        law_filter_keeps_order(candidates.drop_last(), known);
    }
}

/// A recipient knows what is recorded for it, and nothing before anything is.
pub proof fn law_recorded_knowledge(known: Map<Seq<u8>, Set<Seq<u8>>>, recipient: Seq<u8>, id: Seq<u8>)
    ensures
        known.contains_key(recipient) ==> known_to(known, recipient) == known[recipient],
        !known.contains_key(recipient) ==> !known_to(known, recipient).contains(id),
{
}

/// The limits of a message: peers added and dropped, seconds between two, and peers
/// that are tracked.
pub proof fn law_limits()
    ensures
        MAX_PEX_ADDED == 50,
        MAX_PEX_DROPPED == 50,
        PEX_INTERVAL_SECS == 60,
        MAX_TRACKED_PEERS == 200,
{
}

} // verus!
