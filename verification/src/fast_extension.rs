//! Fast extension: peer messages that save round trips.
//!
//! Five messages are added to the peer wire protocol. *Suggest Piece* hints
//! that a piece is cheap to serve, *Have All* and *Have None* replace a
//! bitfield, *Reject Request* turns a request down explicitly, and *Allowed
//! Fast* names a piece that is served even to choked peers.

use vstd::prelude::*;

use crate::codec::be32;
use crate::codec::be32_at;
use crate::codec::lemma_be32_read_back;
use crate::codec::low32;
use crate::codec::push_be32;
use crate::codec::read_be32;
use crate::text::decimal;
use crate::text::hex_char;
use crate::text::hex_digit_char;
use crate::text::push_decimal;

verus! {

/// Message ID for Suggest Piece.
pub const MSG_SUGGEST_PIECE: u8 = 0x0D;

/// Message ID for Have All.
pub const MSG_HAVE_ALL: u8 = 0x0E;

/// Message ID for Have None.
pub const MSG_HAVE_NONE: u8 = 0x0F;

/// Message ID for Reject Request.
pub const MSG_REJECT_REQUEST: u8 = 0x10;

/// Message ID for Allowed Fast.
pub const MSG_ALLOWED_FAST: u8 = 0x11;

/// Default number of allowed-fast pieces per peer.
pub const DEFAULT_ALLOWED_FAST_COUNT: usize = 10;

/// Maximum allowed-fast set size to prevent abuse.
pub const MAX_ALLOWED_FAST_COUNT: usize = 100;

/// Maximum number of suggestions tracked per peer.
pub const MAX_SUGGESTIONS: usize = 50;

// ── Fast messages ───────────────────────────────────────────────────

/// A fast extension message.
#[derive(Debug, Clone, Copy, PartialEq, Eq, Structural)]
pub enum FastMessage {
    /// The sender recommends downloading this piece.
    SuggestPiece {
        /// Piece index being suggested.
        piece_index: u32,
    },
    /// The sender has every piece.
    HaveAll,
    /// The sender has no pieces.
    HaveNone,
    /// Rejects a request that was received.
    RejectRequest {
        /// Piece index of the rejected request.
        index: u32,
        /// Byte offset of the rejected block.
        begin: u32,
        /// Length of the rejected block.
        length: u32,
    },
    /// Declares a piece that will be served regardless of choke state.
    AllowedFast {
        /// Piece index that is allowed-fast.
        piece_index: u32,
    },
}

/// Error decoding a fast extension message.
#[derive(Debug, Clone, Copy, PartialEq, Eq, Structural)]
pub enum FastDecodeError {
    /// Payload is too short for the given message type.
    PayloadTooShort {
        /// The message ID being decoded.
        msg_id: u8,
        /// Minimum bytes needed.
        needed: u32,
        /// Actual bytes available.
        actual: u32,
    },
    /// The message ID is not a fast extension type.
    NotFastMessage {
        /// The unrecognised message ID.
        msg_id: u8,
    },
}

/// A byte as `0x` and two hexadecimal digits.
pub open spec fn hex_byte(b: u8) -> Seq<char> {
    "0x"@ + seq![hex_char((b / 16) as u8), hex_char((b % 16) as u8)]
}

/// Appends a byte as `0x` and two hexadecimal digits.
fn push_hex_byte(out: &mut String, b: u8)
    ensures
        final(out)@ == old(out)@ + hex_byte(b),
{
    out.append("0x");
    out.push(hex_digit_char(b / 16));
    out.push(hex_digit_char(b % 16));
}

impl FastDecodeError {
    /// The text shown for an error.
    pub open spec fn text(self) -> Seq<char> {
        match self {
            FastDecodeError::PayloadTooShort { msg_id, needed, actual } => "fast message "@
                + hex_byte(msg_id) + ": need "@ + decimal(needed as nat) + " bytes, got "@
                + decimal(actual as nat),
            FastDecodeError::NotFastMessage { msg_id } => "message ID "@ + hex_byte(msg_id)
                + " is not a fast extension message"@,
        }
    }

    /// The text shown for this error.
    pub fn display(&self) -> (r: String)
        ensures
            r@ == self.text(),
    {
        let mut out = String::new();
        match self {
            FastDecodeError::PayloadTooShort { msg_id, needed, actual } => {
                out.append("fast message ");
                push_hex_byte(&mut out, *msg_id);
                out.append(": need ");
                push_decimal(&mut out, *needed as u64);
                out.append(" bytes, got ");
                push_decimal(&mut out, *actual as u64);
            },
            FastDecodeError::NotFastMessage { msg_id } => {
                out.append("message ID ");
                push_hex_byte(&mut out, *msg_id);
                out.append(" is not a fast extension message");
            },
        }
        out
    }
}

/// The error for a payload of `len` bytes where `needed` are needed.
pub open spec fn too_short(msg_id: u8, needed: u32, len: nat) -> FastDecodeError {
    FastDecodeError::PayloadTooShort { msg_id, needed, actual: (len % 0x1_0000_0000) as u32 }
}

/// What a message ID and a payload stand for. Bytes behind what is needed are
/// ignored.
pub open spec fn decoded(msg_id: u8, payload: Seq<u8>) -> Result<FastMessage, FastDecodeError> {
    if msg_id == MSG_SUGGEST_PIECE {
        if payload.len() < 4 {
            Err(too_short(msg_id, 4, payload.len()))
        } else {
            Ok(FastMessage::SuggestPiece { piece_index: be32_at(payload, 0) })
        }
    } else if msg_id == MSG_HAVE_ALL {
        Ok(FastMessage::HaveAll)
    } else if msg_id == MSG_HAVE_NONE {
        Ok(FastMessage::HaveNone)
    } else if msg_id == MSG_REJECT_REQUEST {
        if payload.len() < 12 {
            Err(too_short(msg_id, 12, payload.len()))
        } else {
            Ok(
                FastMessage::RejectRequest {
                    index: be32_at(payload, 0),
                    begin: be32_at(payload, 4),
                    length: be32_at(payload, 8),
                },
            )
        }
    } else if msg_id == MSG_ALLOWED_FAST {
        if payload.len() < 4 {
            Err(too_short(msg_id, 4, payload.len()))
        } else {
            Ok(FastMessage::AllowedFast { piece_index: be32_at(payload, 0) })
        }
    } else {
        Err(FastDecodeError::NotFastMessage { msg_id })
    }
}

impl FastMessage {
    /// The message ID.
    pub open spec fn id(self) -> u8 {
        match self {
            FastMessage::SuggestPiece { .. } => MSG_SUGGEST_PIECE,
            FastMessage::HaveAll => MSG_HAVE_ALL,
            FastMessage::HaveNone => MSG_HAVE_NONE,
            FastMessage::RejectRequest { .. } => MSG_REJECT_REQUEST,
            FastMessage::AllowedFast { .. } => MSG_ALLOWED_FAST,
        }
    }

    /// The bytes behind the message ID.
    pub open spec fn payload(self) -> Seq<u8> {
        match self {
            FastMessage::SuggestPiece { piece_index } => be32(piece_index),
            FastMessage::HaveAll => Seq::empty(),
            FastMessage::HaveNone => Seq::empty(),
            FastMessage::RejectRequest { index, begin, length } => be32(index) + be32(begin)
                + be32(length),
            FastMessage::AllowedFast { piece_index } => be32(piece_index),
        }
    }

    /// The wire format: the length of what follows, the ID, the payload.
    pub open spec fn wire(self) -> Seq<u8> {
        be32((1 + self.payload().len()) as u32) + seq![self.id()] + self.payload()
    }

    /// Returns the message ID.
    pub fn message_id(&self) -> (r: u8)
        ensures
            r == self.id(),
    {
        match self {
            FastMessage::SuggestPiece { .. } => MSG_SUGGEST_PIECE,
            FastMessage::HaveAll => MSG_HAVE_ALL,
            FastMessage::HaveNone => MSG_HAVE_NONE,
            FastMessage::RejectRequest { .. } => MSG_REJECT_REQUEST,
            FastMessage::AllowedFast { .. } => MSG_ALLOWED_FAST,
        }
    }

    /// Encodes this message to its wire format (length-prefixed).
    pub fn encode(&self) -> (r: Vec<u8>)
        ensures
            r@ == self.wire(),
    {
        let mut buf: Vec<u8> = Vec::new();
        match self {
            FastMessage::SuggestPiece { piece_index } | FastMessage::AllowedFast { piece_index } => {
                push_be32(&mut buf, 5);
                buf.push(self.message_id());
                push_be32(&mut buf, *piece_index);
            },
            FastMessage::HaveAll | FastMessage::HaveNone => {
                push_be32(&mut buf, 1);
                buf.push(self.message_id());
            },
            FastMessage::RejectRequest { index, begin, length } => {
                push_be32(&mut buf, 13);
                buf.push(self.message_id());
                push_be32(&mut buf, *index);
                push_be32(&mut buf, *begin);
                push_be32(&mut buf, *length);
            },
        }
        buf
    }

    /// Decodes a message from a message ID and payload.
    ///
    /// The caller has already parsed the length prefix and extracted the
    /// message ID.
    pub fn decode(msg_id: u8, payload: &[u8]) -> (r: Result<FastMessage, FastDecodeError>)
        ensures
            r == decoded(msg_id, payload@),
    {
        match msg_id {
            MSG_SUGGEST_PIECE => match read_piece_index(payload, msg_id) {
                Ok(piece_index) => Ok(FastMessage::SuggestPiece { piece_index }),
                Err(e) => Err(e),
            },
            MSG_HAVE_ALL => Ok(FastMessage::HaveAll),
            MSG_HAVE_NONE => Ok(FastMessage::HaveNone),
            MSG_REJECT_REQUEST => {
                if payload.len() < 12 {
                    return Err(
                        FastDecodeError::PayloadTooShort {
                            msg_id,
                            needed: 12,
                            actual: low32(payload.len()),
                        },
                    );
                }
                Ok(
                    FastMessage::RejectRequest {
                        index: read_be32(payload, 0),
                        begin: read_be32(payload, 4),
                        length: read_be32(payload, 8),
                    },
                )
            },
            MSG_ALLOWED_FAST => match read_piece_index(payload, msg_id) {
                Ok(piece_index) => Ok(FastMessage::AllowedFast { piece_index }),
                Err(e) => Err(e),
            },
            _ => Err(FastDecodeError::NotFastMessage { msg_id }),
        }
    }
}

/// Reads the piece index at the start of a payload.
fn read_piece_index(payload: &[u8], msg_id: u8) -> (r: Result<u32, FastDecodeError>)
    ensures
        r == (if payload@.len() < 4 {
            Err(too_short(msg_id, 4, payload@.len()))
        } else {
            Ok(be32_at(payload@, 0))
        }),
{
    if payload.len() < 4 {
        return Err(
            FastDecodeError::PayloadTooShort { msg_id, needed: 4, actual: low32(payload.len()) },
        );
    }
    Ok(read_be32(payload, 0))
}

/// Decoding gives back what was encoded, whatever follows the payload.
pub proof fn law_decode_encode(msg: FastMessage, rest: Seq<u8>)
    ensures
        decoded(msg.id(), msg.payload() + rest) == Ok::<FastMessage, FastDecodeError>(msg),
        msg.wire().skip(5) == msg.payload(),
        msg.wire()[4] == msg.id(),
        be32_at(msg.wire(), 0) == 1 + msg.payload().len(),
{
    let none = Seq::<u8>::empty();
    lemma_be32_read_back(none, (1 + msg.payload().len()) as u32, seq![msg.id()] + msg.payload());
    assert(none + be32((1 + msg.payload().len()) as u32) + (seq![msg.id()] + msg.payload())
        == msg.wire());
    match msg {
        FastMessage::SuggestPiece { piece_index } => {
            lemma_be32_read_back(none, piece_index, rest);
            assert(none + be32(piece_index) + rest == msg.payload() + rest);
        },
        FastMessage::AllowedFast { piece_index } => {
            lemma_be32_read_back(none, piece_index, rest);
            assert(none + be32(piece_index) + rest == msg.payload() + rest);
        },
        FastMessage::RejectRequest { index, begin, length } => {
            let all = msg.payload() + rest;
            lemma_be32_read_back(none, index, be32(begin) + be32(length) + rest);
            assert(none + be32(index) + (be32(begin) + be32(length) + rest) == all);
            lemma_be32_read_back(be32(index), begin, be32(length) + rest);
            assert(be32(index) + be32(begin) + (be32(length) + rest) == all);
            lemma_be32_read_back(be32(index) + be32(begin), length, rest);
        },
        _ => {},
    }
}

// ── Allowed Fast set ────────────────────────────────────────────────

/// Finds a piece in a list.
fn holds(pieces: &Vec<u32>, piece_index: u32) -> (r: bool)
    ensures
        r == pieces@.contains(piece_index),
{
    let mut i: usize = 0;
    while i < pieces.len()
        invariant
            i <= pieces@.len(),
            forall|k: int| 0 <= k < i ==> pieces@[k] != piece_index,
        decreases pieces@.len() - i,
    {
        if pieces[i] == piece_index {
            return true;
        }
        i += 1;
    }
    false
}

/// Manages the set of pieces a peer will serve regardless of choke state.
pub struct AllowedFastSet {
    pieces: Vec<u32>,
}

/// The pieces in the order in which they were added.
impl View for AllowedFastSet {
    type V = Seq<u32>;

    closed spec fn view(&self) -> Seq<u32> {
        self.pieces@
    }
}

impl AllowedFastSet {
    /// No piece twice, and not too many.
    pub open spec fn wf(self) -> bool {
        self@.no_duplicates() && self@.len() <= MAX_ALLOWED_FAST_COUNT
    }

    /// Creates an empty allowed-fast set.
    pub fn new() -> (r: AllowedFastSet)
        ensures
            r.wf(),
            r@ == Seq::<u32>::empty(),
    {
        AllowedFastSet { pieces: Vec::new() }
    }

    /// Creates an empty allowed-fast set with room for `capacity` pieces, at
    /// most as many as a set may hold.
    pub fn with_capacity(capacity: usize) -> (r: AllowedFastSet)
        ensures
            r.wf(),
            r@ == Seq::<u32>::empty(),
    {
        let room: usize = if capacity < MAX_ALLOWED_FAST_COUNT {
            capacity
        } else {
            MAX_ALLOWED_FAST_COUNT
        };
        AllowedFastSet { pieces: Vec::with_capacity(room) }
    }

    /// Adds a piece to the allowed-fast set.
    ///
    /// Returns `true` if the piece was added, `false` if it was already
    /// present or the set is at maximum capacity.
    pub fn add(&mut self, piece_index: u32) -> (r: bool)
        requires
            old(self).wf(),
        ensures
            final(self).wf(),
            r == (old(self)@.len() < MAX_ALLOWED_FAST_COUNT && !old(self)@.contains(piece_index)),
            final(self)@ == (if r {
                old(self)@.push(piece_index)
            } else {
                old(self)@
            }),
    {
        if self.pieces.len() >= MAX_ALLOWED_FAST_COUNT {
            return false;
        }
        if holds(&self.pieces, piece_index) {
            return false;
        }
        self.pieces.push(piece_index);
        true
    }

    /// Returns whether a piece is in the allowed-fast set.
    pub fn contains(&self, piece_index: u32) -> (r: bool)
        ensures
            r == self@.contains(piece_index),
    {
        holds(&self.pieces, piece_index)
    }

    /// Returns the number of allowed-fast pieces.
    pub fn count(&self) -> (r: usize)
        ensures
            r == self@.len(),
    {
        self.pieces.len()
    }

    /// Returns the default number of allowed-fast pieces.
    pub fn default_count() -> (r: usize)
        ensures
            r == DEFAULT_ALLOWED_FAST_COUNT,
    {
        DEFAULT_ALLOWED_FAST_COUNT
    }

    /// Returns the allowed-fast piece indices as a slice.
    pub fn pieces(&self) -> (r: &[u32])
        ensures
            r@ == self@,
    {
        self.pieces.as_slice()
    }

    /// Returns whether the set is empty.
    pub fn is_empty(&self) -> (r: bool)
        ensures
            r == (self@.len() == 0),
    {
        self.pieces.len() == 0
    }

    /// Clears all pieces from the set.
    pub fn clear(&mut self)
        ensures
            final(self).wf(),
            final(self)@ == Seq::<u32>::empty(),
    {
        self.pieces.clear();
    }
}

impl Default for AllowedFastSet {
    fn default() -> (r: AllowedFastSet)
        ensures
            r.wf(),
            r@ == Seq::<u32>::empty(),
    {
        AllowedFastSet::new()
    }
}

// ── Suggest cache ───────────────────────────────────────────────────

/// Tracks piece suggestions received from peers.
pub struct SuggestCache {
    suggestions: Vec<u32>,
}

/// The suggested pieces, most recent last.
impl View for SuggestCache {
    type V = Seq<u32>;

    closed spec fn view(&self) -> Seq<u32> {
        self.suggestions@
    }
}

/// The suggestions without one piece.
pub open spec fn others_than(suggestions: Seq<u32>, piece: u32) -> Seq<u32>
    decreases suggestions.len(),
{
    if suggestions.len() == 0 {
        Seq::empty()
    } else {
        let rest = others_than(suggestions.drop_last(), piece);
        if suggestions.last() == piece {
            rest
        } else {
            rest.push(suggestions.last())
        }
    }
}

/// The suggestions after another one: it stands last, once, and the oldest
/// makes room where the cache is full.
pub open spec fn suggested(suggestions: Seq<u32>, piece: u32) -> Seq<u32> {
    let others = others_than(suggestions, piece);
    if others.len() >= MAX_SUGGESTIONS {
        others.drop_first().push(piece)
    } else {
        others.push(piece)
    }
}

/// What is left without one piece.
proof fn lemma_others(suggestions: Seq<u32>, piece: u32)
    ensures
        others_than(suggestions, piece).len() <= suggestions.len(),
        !others_than(suggestions, piece).contains(piece),
        suggestions.no_duplicates() ==> others_than(suggestions, piece).no_duplicates(),
        forall|k: u32| #[trigger]
            others_than(suggestions, piece).contains(k) <==> suggestions.contains(k) && k
                != piece,
    decreases suggestions.len(),
{
    let others = others_than(suggestions, piece);
    if suggestions.len() > 0 {
        let rest = suggestions.drop_last();
        let kept = others_than(rest, piece);
        lemma_others(rest, piece);
        let last = suggestions.last();
        assert(suggestions[suggestions.len() - 1] == last);
        assert forall|k: u32| #[trigger] others.contains(k) <==> suggestions.contains(k) && k
            != piece by {
            if suggestions.contains(k) && k != piece {
                let i = choose|i: int| 0 <= i < suggestions.len() && suggestions[i] == k;
                if i < rest.len() {
                    assert(rest[i] == k);
                    assert(kept.contains(k));
                    let j = choose|j: int| 0 <= j < kept.len() && kept[j] == k;
                    assert(others[j] == k);
                } else {
                    assert(others[kept.len() as int] == k);
                }
            }
            if others.contains(k) {
                let j = choose|j: int| 0 <= j < others.len() && others[j] == k;
                if j < kept.len() {
                    assert(kept[j] == k);
                    assert(kept.contains(k));
                    let i = choose|i: int| 0 <= i < rest.len() && rest[i] == k;
                    assert(suggestions[i] == k);
                }
            }
        }
        if suggestions.no_duplicates() {
            assert(rest.no_duplicates());
            if last != piece {
                assert(!kept.contains(last)) by {
                    if rest.contains(last) {
                        let i = choose|i: int| 0 <= i < rest.len() && rest[i] == last;
                        assert(suggestions[i] == suggestions[suggestions.len() - 1]);
                    }
                }
                assert(others == kept.push(last));
                assert forall|i: int, j: int|
                    0 <= i < others.len() && 0 <= j < others.len() && i != j implies others[i]
                    != others[j] by {
                    if i < kept.len() && j < kept.len() {
                        assert(kept[i] != kept[j]);
                    }
                }
            }
        }
    }
}

impl SuggestCache {
    /// No piece twice, and not too many.
    pub open spec fn wf(self) -> bool {
        self@.no_duplicates() && self@.len() <= MAX_SUGGESTIONS
    }

    /// Creates an empty suggestion cache.
    pub fn new() -> (r: SuggestCache)
        ensures
            r.wf(),
            r@ == Seq::<u32>::empty(),
    {
        SuggestCache { suggestions: Vec::new() }
    }

    /// Records a suggestion from a peer.
    pub fn add(&mut self, piece_index: u32)
        requires
            old(self).wf(),
        ensures
            final(self).wf(),
            final(self)@ == suggested(old(self)@, piece_index),
    {
        let mut others: Vec<u32> = Vec::new();
        let mut i: usize = 0;
        proof {
            lemma_others(self.suggestions@, piece_index);
        }
        assert(self.suggestions@.take(0) == Seq::<u32>::empty());
        while i < self.suggestions.len()
            invariant
                i <= self.suggestions@.len(),
                others@ == others_than(self.suggestions@.take(i as int), piece_index),
            decreases self.suggestions@.len() - i,
        {
            proof {
                let next = self.suggestions@.take(i + 1);
                assert(next.drop_last() == self.suggestions@.take(i as int));
            }
            if self.suggestions[i] != piece_index {
                others.push(self.suggestions[i]);
            }
            i += 1;
        }
        assert(self.suggestions@.take(i as int) == self.suggestions@);
        if others.len() >= MAX_SUGGESTIONS {
            let ghost full = others@;
            others.remove(0);
            assert(others@ == full.drop_first());
        }
        let ghost kept = others@;
        others.push(piece_index);
        proof {
            assert forall|k: int| 0 <= k < kept.len() implies kept[k] != piece_index by {
                assert(others_than(self.suggestions@, piece_index).contains(kept[k]));
            }
        }
        self.suggestions = others;
    }

    /// Returns whether a piece has been suggested.
    pub fn is_suggested(&self, piece_index: u32) -> (r: bool)
        ensures
            r == self@.contains(piece_index),
    {
        holds(&self.suggestions, piece_index)
    }

    /// Returns all suggested pieces (most recent last).
    pub fn suggestions(&self) -> (r: &[u32])
        ensures
            r@ == self@,
    {
        self.suggestions.as_slice()
    }

    /// Returns the number of suggestions.
    pub fn count(&self) -> (r: usize)
        ensures
            r == self@.len(),
    {
        self.suggestions.len()
    }

    /// Clears all suggestions.
    pub fn clear(&mut self)
        ensures
            final(self).wf(),
            final(self)@ == Seq::<u32>::empty(),
    {
        self.suggestions.clear();
    }
}

impl Default for SuggestCache {
    fn default() -> (r: SuggestCache)
        ensures
            r.wf(),
            r@ == Seq::<u32>::empty(),
    {
        SuggestCache::new()
    }
}

/// A suggestion is known afterwards, stands last, and nothing that was not
/// known comes with it.
pub proof fn law_suggestion_is_remembered(suggestions: Seq<u32>, piece: u32, other: u32)
    ensures
        suggested(suggestions, piece).last() == piece,
        suggested(suggestions, piece).contains(other) ==> other == piece || suggestions.contains(
            other,
        ),
        suggestions.len() < MAX_SUGGESTIONS && suggestions.contains(other) ==> suggested(
            suggestions,
            piece,
        ).contains(other),
{
    let others = others_than(suggestions, piece);
    lemma_others(suggestions, piece);
    let all = suggested(suggestions, piece);
    assert(all[all.len() - 1] == piece);
    if all.contains(other) && other != piece {
        let i = choose|i: int| 0 <= i < all.len() && all[i] == other;
        if others.len() >= MAX_SUGGESTIONS {
            assert(others[i + 1] == other);
        } else {
            assert(others[i] == other);
        }
        assert(others.contains(other));
    }
    if other == piece {
        assert(all.contains(other));
    }
    if suggestions.len() < MAX_SUGGESTIONS && suggestions.contains(other) && other != piece {
        assert(others.contains(other));
        let i = choose|i: int| 0 <= i < others.len() && others[i] == other;
        assert(all[i] == other);
    }
}

/// What goes over the wire: the number of bytes that follow, the message's own
/// number, and its fields with the highest byte first.
pub proof fn law_wire_format(piece: u32, index: u32, begin: u32, length: u32)
    ensures
        (FastMessage::SuggestPiece { piece_index: piece }).wire() == seq![0u8, 0, 0, 5, 13] + be32(
            piece,
        ),
        FastMessage::HaveAll.wire() == seq![0u8, 0, 0, 1, 14],
        FastMessage::HaveNone.wire() == seq![0u8, 0, 0, 1, 15],
        (FastMessage::RejectRequest { index, begin, length }).wire() == seq![0u8, 0, 0, 13, 16]
            + be32(index) + be32(begin) + be32(length),
        (FastMessage::AllowedFast { piece_index: piece }).wire() == seq![0u8, 0, 0, 5, 17] + be32(
            piece,
        ),
{
    assert((FastMessage::RejectRequest { index, begin, length }).wire() =~= seq![0u8, 0, 0, 13, 16]
        + be32(index) + be32(begin) + be32(length));
}

/// What is refused: numbers other than 13 to 17, and payloads shorter than their
/// fields, with what was needed and what there was.
pub proof fn law_refused_messages(msg_id: u8, payload: Seq<u8>)
    ensures
        !(13 <= msg_id <= 17) ==> decoded(msg_id, payload) == Err::<FastMessage, FastDecodeError>(
            (FastDecodeError::NotFastMessage { msg_id }),
        ),
        (msg_id == 13 || msg_id == 17) && payload.len() < 4 ==> decoded(msg_id, payload) == Err::<
            FastMessage,
            FastDecodeError,
        >(
            (FastDecodeError::PayloadTooShort { msg_id, needed: 4, actual: payload.len() as u32 }),
        ),
        msg_id == 16 && payload.len() < 12 ==> decoded(msg_id, payload) == Err::<
            FastMessage,
            FastDecodeError,
        >(
            (FastDecodeError::PayloadTooShort { msg_id, needed: 12, actual: payload.len() as u32 }),
        ),
        msg_id == 14 || msg_id == 15 ==> decoded(msg_id, payload) is Ok,
        (msg_id == 13 || msg_id == 17) && payload.len() >= 4 ==> decoded(msg_id, payload) is Ok,
        msg_id == 16 && payload.len() >= 12 ==> decoded(msg_id, payload) is Ok,
{
}

/// Where a suggestion goes: to the end. One that was there moves there and the
/// others keep their order; a new one in a full cache drops the oldest.
pub proof fn law_suggestion_order(suggestions: Seq<u32>, piece: u32, i: int)
    requires
        suggestions.no_duplicates(),
        suggestions.len() <= 50,
    ensures
        0 <= i < suggestions.len() && suggestions[i] == piece ==> suggested(suggestions, piece)
            == (suggestions.take(i) + suggestions.skip(i + 1)).push(piece),
        !suggestions.contains(piece) && suggestions.len() < 50 ==> suggested(suggestions, piece)
            == suggestions.push(piece),
        !suggestions.contains(piece) && suggestions.len() == 50 ==> suggested(suggestions, piece)
            == suggestions.drop_first().push(piece),
{
    lemma_others_order(suggestions, piece, i);
}

/// What is left without one piece keeps its order.
proof fn lemma_others_order(suggestions: Seq<u32>, piece: u32, i: int)
    requires
        suggestions.no_duplicates(),
    ensures
        0 <= i < suggestions.len() && suggestions[i] == piece ==> others_than(suggestions, piece)
            == suggestions.take(i) + suggestions.skip(i + 1),
        !suggestions.contains(piece) ==> others_than(suggestions, piece) == suggestions,
    decreases suggestions.len(),
{
    if suggestions.len() > 0 {
        let rest = suggestions.drop_last();
        assert(rest.no_duplicates());
        lemma_others_order(rest, piece, i);
        assert(suggestions == rest.push(suggestions.last()));
        if suggestions.contains(piece) || rest.contains(piece) || suggestions.last() == piece {
            if rest.contains(piece) {
                let k = choose|k: int| 0 <= k < rest.len() && rest[k] == piece;
                assert(suggestions[k] == piece);
            }
            if suggestions.last() == piece {
                assert(suggestions[suggestions.len() - 1] == piece);
            }
        }
        if 0 <= i < suggestions.len() && suggestions[i] == piece {
            if i < rest.len() {
                assert(suggestions[i] != suggestions[suggestions.len() - 1]);
                assert(rest[i] == piece);
                assert(suggestions.take(i) + suggestions.skip(i + 1) =~= (rest.take(i) + rest.skip(
                    i + 1,
                )).push(suggestions.last()));
            } else {
                assert(!rest.contains(piece)) by {
                    if rest.contains(piece) {
                        let k = choose|k: int| 0 <= k < rest.len() && rest[k] == piece;
                        assert(suggestions[k] == suggestions[i]);
                    }
                }
                assert(suggestions.take(i) + suggestions.skip(i + 1) =~= rest);
            }
        }
    }
}

/// A set of allowed pieces names none twice and at most 100.
pub proof fn law_allowed_pieces(set: AllowedFastSet, i: int, j: int)
    requires
        set.wf(),
    ensures
        set@.len() <= 100,
        0 <= i < j < set@.len() ==> set@[i] != set@[j],
        DEFAULT_ALLOWED_FAST_COUNT == 10,
{
}

} // verus!
