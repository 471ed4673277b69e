//! BitTorrent peer wire protocol messages and their wire format.
//!
//! Every message is a 4-byte big-endian length, which does not count itself,
//! then a 1-byte message ID and a payload. A keep-alive is the length 0 alone.
//!
//! [`wire_bytes`] says what a message looks like on the wire and
//! [`parse_frame`] what a buffer means; [`encode_message`] and
//! [`decode_message`] compute them, and [`law_decode_encode`] ties the two
//! together.

use vstd::prelude::*;
use vstd::slice::slice_subrange;
use vstd::slice::slice_to_vec;

use crate::codec::be16;
use crate::codec::be16_at;
use crate::codec::be32;
use crate::codec::be32_at;
use crate::codec::lemma_be16_read_back;
use crate::codec::lemma_be32_read_back;
use crate::codec::low32;
use crate::codec::push_be16;
use crate::codec::push_be32;
use crate::codec::push_bytes;
use crate::codec::read_be16;
use crate::codec::read_be32;
use crate::text::push_decimal;
use crate::text::decimal;

verus! {

/// Size of the length prefix in bytes.
pub const LENGTH_PREFIX_SIZE: usize = 4;

/// Message ID of `Choke`.
pub const MSG_CHOKE: u8 = 0;

/// Message ID of `Unchoke`.
pub const MSG_UNCHOKE: u8 = 1;

/// Message ID of `Interested`.
pub const MSG_INTERESTED: u8 = 2;

/// Message ID of `NotInterested`.
pub const MSG_NOT_INTERESTED: u8 = 3;

/// Message ID of `Have`.
pub const MSG_HAVE: u8 = 4;

/// Message ID of `Bitfield`.
pub const MSG_BITFIELD: u8 = 5;

/// Message ID of `Request`.
pub const MSG_REQUEST: u8 = 6;

/// Message ID of `Piece`.
pub const MSG_PIECE: u8 = 7;

/// Message ID of `Cancel`.
pub const MSG_CANCEL: u8 = 8;

/// Message ID of `Port` (DHT port advertisement).
pub const MSG_PORT: u8 = 9;

/// Message ID of `Extended` (extension protocol container).
pub const MSG_EXTENDED: u8 = 20;

/// Standard request and piece block size (16 KiB).
pub const BLOCK_SIZE: u32 = 16_384;

/// Longest message accepted (16 MiB), so that a hostile length prefix cannot
/// exhaust memory.
pub const MAX_MESSAGE_LENGTH: u32 = 16_777_216;

/// A BitTorrent peer wire protocol message.
#[derive(Debug, Clone, PartialEq, Eq)]
pub enum PeerMessage {
    /// Length 0, no ID, no payload. Keeps the connection open.
    KeepAlive,
    /// The sender will not serve requests from the receiver.
    Choke,
    /// The sender is willing to serve requests.
    Unchoke,
    /// The sender wants pieces the receiver has.
    Interested,
    /// The sender wants nothing from the receiver.
    NotInterested,
    /// The sender has completed the given piece.
    Have {
        /// Zero-based piece index.
        piece_index: u32,
    },
    /// All pieces the sender has, one bit each.
    Bitfield {
        /// Raw bitfield bytes.
        data: Vec<u8>,
    },
    /// Asks for a block of a piece.
    Request {
        /// Piece index.
        index: u32,
        /// Byte offset within the piece.
        begin: u32,
        /// Block length in bytes (typically [`BLOCK_SIZE`]).
        length: u32,
    },
    /// A block of data.
    Piece {
        /// Piece index.
        index: u32,
        /// Byte offset within the piece.
        begin: u32,
        /// Block data.
        block: Vec<u8>,
    },
    /// Takes back a request.
    Cancel {
        /// Piece index.
        index: u32,
        /// Byte offset within the piece.
        begin: u32,
        /// Block length.
        length: u32,
    },
    /// The sender's DHT listen port.
    Port {
        /// DHT listen port.
        port: u16,
    },
    /// Extension protocol message container.
    Extended {
        /// Extension message ID (0 is the handshake, others are negotiated).
        ext_id: u8,
        /// Extension payload (typically bencoded).
        payload: Vec<u8>,
    },
}

/// What a message says, with payloads as byte sequences.
pub enum MessageView {
    KeepAlive,
    Choke,
    Unchoke,
    Interested,
    NotInterested,
    Have { piece_index: u32 },
    Bitfield { data: Seq<u8> },
    Request { index: u32, begin: u32, length: u32 },
    Piece { index: u32, begin: u32, block: Seq<u8> },
    Cancel { index: u32, begin: u32, length: u32 },
    Port { port: u16 },
    Extended { ext_id: u8, payload: Seq<u8> },
}

impl View for PeerMessage {
    type V = MessageView;

    open spec fn view(&self) -> MessageView {
        match *self {
            PeerMessage::KeepAlive => MessageView::KeepAlive,
            PeerMessage::Choke => MessageView::Choke,
            PeerMessage::Unchoke => MessageView::Unchoke,
            PeerMessage::Interested => MessageView::Interested,
            PeerMessage::NotInterested => MessageView::NotInterested,
            PeerMessage::Have { piece_index } => MessageView::Have { piece_index },
            PeerMessage::Bitfield { data } => MessageView::Bitfield { data: data@ },
            PeerMessage::Request { index, begin, length } => MessageView::Request {
                index,
                begin,
                length,
            },
            PeerMessage::Piece { index, begin, block } => MessageView::Piece {
                index,
                begin,
                block: block@,
            },
            PeerMessage::Cancel { index, begin, length } => MessageView::Cancel {
                index,
                begin,
                length,
            },
            PeerMessage::Port { port } => MessageView::Port { port },
            PeerMessage::Extended { ext_id, payload } => MessageView::Extended {
                ext_id,
                payload: payload@,
            },
        }
    }
}

impl MessageView {
    /// The message ID, or `None` for keep-alive.
    pub open spec fn id(self) -> Option<u8> {
        match self {
            MessageView::KeepAlive => None,
            MessageView::Choke => Some(MSG_CHOKE),
            MessageView::Unchoke => Some(MSG_UNCHOKE),
            MessageView::Interested => Some(MSG_INTERESTED),
            MessageView::NotInterested => Some(MSG_NOT_INTERESTED),
            MessageView::Have { .. } => Some(MSG_HAVE),
            MessageView::Bitfield { .. } => Some(MSG_BITFIELD),
            MessageView::Request { .. } => Some(MSG_REQUEST),
            MessageView::Piece { .. } => Some(MSG_PIECE),
            MessageView::Cancel { .. } => Some(MSG_CANCEL),
            MessageView::Port { .. } => Some(MSG_PORT),
            MessageView::Extended { .. } => Some(MSG_EXTENDED),
        }
    }

    /// What follows the message ID on the wire.
    pub open spec fn payload_bytes(self) -> Seq<u8> {
        match self {
            MessageView::Have { piece_index } => be32(piece_index),
            MessageView::Bitfield { data } => data,
            MessageView::Request { index, begin, length } => be32(index) + be32(begin) + be32(
                length,
            ),
            MessageView::Piece { index, begin, block } => be32(index) + be32(begin) + block,
            MessageView::Cancel { index, begin, length } => be32(index) + be32(begin) + be32(
                length,
            ),
            MessageView::Port { port } => be16(port),
            MessageView::Extended { ext_id, payload } => seq![ext_id] + payload,
            _ => Seq::<u8>::empty(),
        }
    }

    /// How many payload bytes stand before the part of arbitrary length.
    pub open spec fn fixed_payload_len(self) -> nat {
        match self {
            MessageView::Have { .. } => 4,
            MessageView::Request { .. } => 12,
            MessageView::Piece { .. } => 8,
            MessageView::Cancel { .. } => 12,
            MessageView::Port { .. } => 2,
            MessageView::Extended { .. } => 1,
            _ => 0,
        }
    }

    /// The length field: the ID byte and the payload. The length of a part of
    /// arbitrary length is taken modulo 2^32, and the sum saturates.
    pub open spec fn length_field(self) -> u32 {
        let rest = (self.payload_bytes().len() - self.fixed_payload_len()) % 0x1_0000_0000;
        let total = 1 + self.fixed_payload_len() + rest;
        if total > u32::MAX {
            u32::MAX
        } else {
            total as u32
        }
    }

    /// Whether a receiver accepts a message of this size.
    pub open spec fn fits(self) -> bool {
        self.id() is None || 1 + self.payload_bytes().len() <= MAX_MESSAGE_LENGTH
    }
}

/// The wire format of a message.
pub open spec fn wire_bytes(msg: MessageView) -> Seq<u8> {
    match msg.id() {
        None => be32(0),
        Some(id) => be32(msg.length_field()) + seq![id] + msg.payload_bytes(),
    }
}

/// Error during message decoding.
#[derive(Debug, Clone, PartialEq, Eq)]
pub enum MessageError {
    /// Input buffer too short to contain the expected data.
    TooShort {
        /// Minimum bytes needed.
        needed: u32,
        /// Bytes actually available.
        actual: u32,
    },
    /// Message exceeds the maximum allowed length.
    TooLarge {
        /// Declared message length.
        length: u32,
        /// Maximum allowed length.
        max: u32,
    },
    /// Not a known message.
    UnknownId {
        /// The unrecognised message ID byte.
        msg_id: u8,
    },
    /// Payload is malformed for the given message type.
    InvalidPayload {
        /// The message ID.
        msg_id: u8,
        /// What is wrong.
        reason: String,
    },
}

/// What an error says, with its text as a character sequence.
pub enum MessageErrorView {
    TooShort { needed: u32, actual: u32 },
    TooLarge { length: u32, max: u32 },
    UnknownId { msg_id: u8 },
    InvalidPayload { msg_id: u8, reason: Seq<char> },
}

impl View for MessageError {
    type V = MessageErrorView;

    open spec fn view(&self) -> MessageErrorView {
        match *self {
            MessageError::TooShort { needed, actual } => MessageErrorView::TooShort {
                needed,
                actual,
            },
            MessageError::TooLarge { length, max } => MessageErrorView::TooLarge { length, max },
            MessageError::UnknownId { msg_id } => MessageErrorView::UnknownId { msg_id },
            MessageError::InvalidPayload { msg_id, reason } => MessageErrorView::InvalidPayload {
                msg_id,
                reason: reason@,
            },
        }
    }
}

impl MessageErrorView {
    /// The text shown for an error.
    pub open spec fn text(self) -> Seq<char> {
        match self {
            MessageErrorView::TooShort { needed, actual } => "message too short: need "@ + decimal(
                needed as nat,
            ) + " bytes, got "@ + decimal(actual as nat),
            MessageErrorView::TooLarge { length, max } => "message too large: "@ + decimal(
                length as nat,
            ) + " bytes exceeds max "@ + decimal(max as nat),
            MessageErrorView::UnknownId { msg_id } => "unknown message ID: "@ + decimal(
                msg_id as nat,
            ),
            MessageErrorView::InvalidPayload { msg_id, reason } => "invalid payload for message ID "@
                + decimal(msg_id as nat) + ": "@ + reason,
        }
    }
}

impl MessageError {
    /// The text shown for this error.
    pub fn display(&self) -> (r: String)
        ensures
            r@ == self@.text(),
    {
        let mut out = String::new();
        match self {
            MessageError::TooShort { needed, actual } => {
                out.append("message too short: need ");
                push_decimal(&mut out, *needed as u64);
                out.append(" bytes, got ");
                push_decimal(&mut out, *actual as u64);
            },
            MessageError::TooLarge { length, max } => {
                out.append("message too large: ");
                push_decimal(&mut out, *length as u64);
                out.append(" bytes exceeds max ");
                push_decimal(&mut out, *max as u64);
            },
            MessageError::UnknownId { msg_id } => {
                out.append("unknown message ID: ");
                push_decimal(&mut out, *msg_id as u64);
            },
            MessageError::InvalidPayload { msg_id, reason } => {
                out.append("invalid payload for message ID ");
                push_decimal(&mut out, *msg_id as u64);
                out.append(": ");
                out.append(reason.as_str());
            },
        }
        out
    }
}

/// The fault of a payload that does not fit its message ID.
pub open spec fn bad_payload(msg_id: u8, reason: Seq<char>) -> Result<
    MessageView,
    MessageErrorView,
> {
    Err(MessageErrorView::InvalidPayload { msg_id, reason })
}

/// Why a payload of fewer than twelve bytes is refused for `Request` and
/// `Cancel`.
pub open spec fn three_fields_reason() -> Seq<char> {
    "requires 12-byte payload (index + begin + length)"@
}

/// What the bytes after the message ID mean.
pub open spec fn parse_payload(msg_id: u8, payload: Seq<u8>) -> Result<
    MessageView,
    MessageErrorView,
> {
    if msg_id == MSG_CHOKE {
        Ok(MessageView::Choke)
    } else if msg_id == MSG_UNCHOKE {
        Ok(MessageView::Unchoke)
    } else if msg_id == MSG_INTERESTED {
        Ok(MessageView::Interested)
    } else if msg_id == MSG_NOT_INTERESTED {
        Ok(MessageView::NotInterested)
    } else if msg_id == MSG_HAVE {
        if payload.len() < 4 {
            bad_payload(msg_id, "have message requires 4-byte piece index"@)
        } else {
            Ok(MessageView::Have { piece_index: be32_at(payload, 0) })
        }
    } else if msg_id == MSG_BITFIELD {
        Ok(MessageView::Bitfield { data: payload })
    } else if msg_id == MSG_REQUEST {
        if payload.len() < 12 {
            bad_payload(msg_id, three_fields_reason())
        } else {
            Ok(
                MessageView::Request {
                    index: be32_at(payload, 0),
                    begin: be32_at(payload, 4),
                    length: be32_at(payload, 8),
                },
            )
        }
    } else if msg_id == MSG_PIECE {
        if payload.len() < 8 {
            bad_payload(msg_id, "piece message requires at least 8 bytes (index + begin)"@)
        } else {
            Ok(
                MessageView::Piece {
                    index: be32_at(payload, 0),
                    begin: be32_at(payload, 4),
                    block: payload.skip(8),
                },
            )
        }
    } else if msg_id == MSG_CANCEL {
        if payload.len() < 12 {
            bad_payload(msg_id, three_fields_reason())
        } else {
            Ok(
                MessageView::Cancel {
                    index: be32_at(payload, 0),
                    begin: be32_at(payload, 4),
                    length: be32_at(payload, 8),
                },
            )
        }
    } else if msg_id == MSG_PORT {
        if payload.len() < 2 {
            bad_payload(msg_id, "port message requires 2-byte port"@)
        } else {
            Ok(MessageView::Port { port: be16_at(payload, 0) })
        }
    } else if msg_id == MSG_EXTENDED {
        if payload.len() < 1 {
            bad_payload(msg_id, "extended message requires at least 1-byte extension ID"@)
        } else {
            Ok(MessageView::Extended { ext_id: payload[0], payload: payload.skip(1) })
        }
    } else {
        Err(MessageErrorView::UnknownId { msg_id })
    }
}

/// What a buffer that starts with a frame means. Bytes behind the frame do
/// not matter.
pub open spec fn parse_frame(data: Seq<u8>) -> Result<MessageView, MessageErrorView> {
    let actual = (data.len() % 0x1_0000_0000) as u32;
    if data.len() < LENGTH_PREFIX_SIZE {
        Err(MessageErrorView::TooShort { needed: LENGTH_PREFIX_SIZE as u32, actual })
    } else {
        let length = be32_at(data, 0);
        if length == 0 {
            Ok(MessageView::KeepAlive)
        } else if length > MAX_MESSAGE_LENGTH {
            Err(MessageErrorView::TooLarge { length, max: MAX_MESSAGE_LENGTH })
        } else if data.len() < LENGTH_PREFIX_SIZE + length {
            Err(
                MessageErrorView::TooShort {
                    needed: (LENGTH_PREFIX_SIZE + length) as u32,
                    actual,
                },
            )
        } else {
            parse_payload(data[4], data.subrange(5, LENGTH_PREFIX_SIZE + length))
        }
    }
}

/// The model of a decoding result.
pub open spec fn decoded(r: Result<PeerMessage, MessageError>) -> Result<
    MessageView,
    MessageErrorView,
> {
    match r {
        Ok(msg) => Ok(msg@),
        Err(e) => Err(e@),
    }
}

impl PeerMessage {
    /// Returns the message ID, or `None` for keep-alive.
    pub fn message_id(&self) -> (r: Option<u8>)
        ensures
            r == self@.id(),
    {
        match self {
            PeerMessage::KeepAlive => None,
            PeerMessage::Choke => Some(MSG_CHOKE),
            PeerMessage::Unchoke => Some(MSG_UNCHOKE),
            PeerMessage::Interested => Some(MSG_INTERESTED),
            PeerMessage::NotInterested => Some(MSG_NOT_INTERESTED),
            PeerMessage::Have { .. } => Some(MSG_HAVE),
            PeerMessage::Bitfield { .. } => Some(MSG_BITFIELD),
            PeerMessage::Request { .. } => Some(MSG_REQUEST),
            PeerMessage::Piece { .. } => Some(MSG_PIECE),
            PeerMessage::Cancel { .. } => Some(MSG_CANCEL),
            PeerMessage::Port { .. } => Some(MSG_PORT),
            PeerMessage::Extended { .. } => Some(MSG_EXTENDED),
        }
    }

    /// Returns whether this is a data-carrying message.
    pub fn is_data(&self) -> (r: bool)
        ensures
            r == (self is Piece),
    {
        matches!(self, PeerMessage::Piece { .. })
    }

    /// Returns whether this is a control message (neither data nor
    /// keep-alive).
    pub fn is_control(&self) -> (r: bool)
        ensures
            r == !(self is KeepAlive || self is Piece),
    {
        !matches!(self, PeerMessage::KeepAlive | PeerMessage::Piece { .. })
    }
}

/// Encodes a message into its wire format.
pub fn encode_message(msg: &PeerMessage) -> (r: Vec<u8>)
    ensures
        r@ == wire_bytes(msg@),
{
    match msg {
        PeerMessage::KeepAlive => {
            let mut buf: Vec<u8> = Vec::with_capacity(LENGTH_PREFIX_SIZE);
            push_be32(&mut buf, 0);
            buf
        },
        PeerMessage::Choke => encode_id_only(MSG_CHOKE),
        PeerMessage::Unchoke => encode_id_only(MSG_UNCHOKE),
        PeerMessage::Interested => encode_id_only(MSG_INTERESTED),
        PeerMessage::NotInterested => encode_id_only(MSG_NOT_INTERESTED),
        PeerMessage::Have { piece_index } => {
            let mut buf: Vec<u8> = Vec::with_capacity(LENGTH_PREFIX_SIZE + 5);
            push_be32(&mut buf, 5);
            buf.push(MSG_HAVE);
            push_be32(&mut buf, *piece_index);
            buf
        },
        PeerMessage::Bitfield { data } => {
            let len: u32 = 1u32.saturating_add(low32(data.len()));
            let mut buf: Vec<u8> = Vec::new();
            push_be32(&mut buf, len);
            buf.push(MSG_BITFIELD);
            push_bytes(&mut buf, data);
            buf
        },
        PeerMessage::Request { index, begin, length } => {
            encode_index_begin_length(MSG_REQUEST, *index, *begin, *length)
        },
        PeerMessage::Piece { index, begin, block } => {
            let len: u32 = 9u32.saturating_add(low32(block.len()));
            let mut buf: Vec<u8> = Vec::new();
            push_be32(&mut buf, len);
            buf.push(MSG_PIECE);
            push_be32(&mut buf, *index);
            push_be32(&mut buf, *begin);
            push_bytes(&mut buf, block);
            buf
        },
        PeerMessage::Cancel { index, begin, length } => {
            encode_index_begin_length(MSG_CANCEL, *index, *begin, *length)
        },
        PeerMessage::Port { port } => {
            let mut buf: Vec<u8> = Vec::with_capacity(LENGTH_PREFIX_SIZE + 3);
            push_be32(&mut buf, 3);
            buf.push(MSG_PORT);
            push_be16(&mut buf, *port);
            buf
        },
        PeerMessage::Extended { ext_id, payload } => {
            let len: u32 = 2u32.saturating_add(low32(payload.len()));
            let mut buf: Vec<u8> = Vec::new();
            push_be32(&mut buf, len);
            buf.push(MSG_EXTENDED);
            buf.push(*ext_id);
            push_bytes(&mut buf, payload);
            buf
        },
    }
}

/// Encodes a message that is its ID alone.
fn encode_id_only(id: u8) -> (r: Vec<u8>)
    ensures
        r@ == be32(1) + seq![id],
{
    let mut buf: Vec<u8> = Vec::with_capacity(LENGTH_PREFIX_SIZE + 1);
    push_be32(&mut buf, 1);
    buf.push(id);
    buf
}

/// Encodes a message with an index, a begin and a length (Request, Cancel).
fn encode_index_begin_length(id: u8, index: u32, begin: u32, length: u32) -> (r: Vec<u8>)
    ensures
        r@ == be32(13) + seq![id] + (be32(index) + be32(begin) + be32(length)),
{
    let mut buf: Vec<u8> = Vec::with_capacity(LENGTH_PREFIX_SIZE + 13);
    push_be32(&mut buf, 13);
    buf.push(id);
    push_be32(&mut buf, index);
    push_be32(&mut buf, begin);
    push_be32(&mut buf, length);
    buf
}

/// Decodes a length-prefixed wire message.
///
/// The input holds at least the 4-byte length prefix and the full message
/// that it announces.
pub fn decode_message(data: &[u8]) -> (r: Result<PeerMessage, MessageError>)
    ensures
        decoded(r) == parse_frame(data@),
{
    if data.len() < LENGTH_PREFIX_SIZE {
        return Err(
            MessageError::TooShort {
                needed: LENGTH_PREFIX_SIZE as u32,
                actual: low32(data.len()),
            },
        );
    }
    let length: u32 = read_be32(data, 0);
    if length == 0 {
        return Ok(PeerMessage::KeepAlive);
    }
    if length > MAX_MESSAGE_LENGTH {
        return Err(MessageError::TooLarge { length, max: MAX_MESSAGE_LENGTH });
    }
    let total_len: usize = LENGTH_PREFIX_SIZE + length as usize;
    if data.len() < total_len {
        return Err(
            MessageError::TooShort { needed: total_len as u32, actual: low32(data.len()) },
        );
    }
    decode_payload(data[4], slice_subrange(data, 5, total_len))
}

/// Decodes what follows the message ID.
fn decode_payload(msg_id: u8, payload: &[u8]) -> (r: Result<PeerMessage, MessageError>)
    ensures
        decoded(r) == parse_payload(msg_id, payload@),
{
    match msg_id {
        MSG_CHOKE => Ok(PeerMessage::Choke),
        MSG_UNCHOKE => Ok(PeerMessage::Unchoke),
        MSG_INTERESTED => Ok(PeerMessage::Interested),
        MSG_NOT_INTERESTED => Ok(PeerMessage::NotInterested),
        MSG_HAVE => {
            if payload.len() < 4 {
                return invalid_payload(msg_id, "have message requires 4-byte piece index");
            }
            Ok(PeerMessage::Have { piece_index: read_be32(payload, 0) })
        },
        MSG_BITFIELD => Ok(PeerMessage::Bitfield { data: slice_to_vec(payload) }),
        MSG_REQUEST => match decode_index_begin_length(msg_id, payload) {
            Ok((index, begin, length)) => Ok(PeerMessage::Request { index, begin, length }),
            Err(e) => Err(e),
        },
        MSG_PIECE => {
            if payload.len() < 8 {
                return invalid_payload(
                    msg_id,
                    "piece message requires at least 8 bytes (index + begin)",
                );
            }
            let block: Vec<u8> = slice_to_vec(slice_subrange(payload, 8, payload.len()));
            Ok(
                PeerMessage::Piece {
                    index: read_be32(payload, 0),
                    begin: read_be32(payload, 4),
                    block,
                },
            )
        },
        MSG_CANCEL => match decode_index_begin_length(msg_id, payload) {
            Ok((index, begin, length)) => Ok(PeerMessage::Cancel { index, begin, length }),
            Err(e) => Err(e),
        },
        MSG_PORT => {
            if payload.len() < 2 {
                return invalid_payload(msg_id, "port message requires 2-byte port");
            }
            Ok(PeerMessage::Port { port: read_be16(payload, 0) })
        },
        MSG_EXTENDED => {
            if payload.len() < 1 {
                return invalid_payload(
                    msg_id,
                    "extended message requires at least 1-byte extension ID",
                );
            }
            let rest: Vec<u8> = slice_to_vec(slice_subrange(payload, 1, payload.len()));
            Ok(PeerMessage::Extended { ext_id: payload[0], payload: rest })
        },
        _ => Err(MessageError::UnknownId { msg_id }),
    }
}

/// The error of a payload that does not fit its message ID.
fn invalid_payload(msg_id: u8, reason: &str) -> (r: Result<PeerMessage, MessageError>)
    ensures
        decoded(r) == bad_payload(msg_id, reason@),
{
    Err(MessageError::InvalidPayload { msg_id, reason: reason.to_owned() })
}

/// Decodes index, begin and length from a 12-byte payload.
fn decode_index_begin_length(msg_id: u8, payload: &[u8]) -> (r: Result<
    (u32, u32, u32),
    MessageError,
>)
    ensures
        match r {
            Ok((index, begin, length)) => {
                &&& payload@.len() >= 12
                &&& index == be32_at(payload@, 0)
                &&& begin == be32_at(payload@, 4)
                &&& length == be32_at(payload@, 8)
            },
            Err(e) => {
                &&& payload@.len() < 12
                &&& e@ == (MessageErrorView::InvalidPayload {
                    msg_id,
                    reason: three_fields_reason(),
                })
            },
        },
{
    if payload.len() < 12 {
        let reason = "requires 12-byte payload (index + begin + length)".to_owned();
        return Err(MessageError::InvalidPayload { msg_id, reason });
    }
    Ok((read_be32(payload, 0), read_be32(payload, 4), read_be32(payload, 8)))
}

/// Decoding what was encoded gives the message back, whatever bytes follow
/// it in the buffer, for every message that a receiver accepts by size.
pub proof fn law_decode_encode(msg: MessageView, rest: Seq<u8>)
    requires
        msg.fits(),
    ensures
        parse_frame(wire_bytes(msg) + rest) == Ok::<MessageView, MessageErrorView>(msg),
{
    let none = Seq::<u8>::empty();
    let data = wire_bytes(msg) + rest;
    if msg.id() is None {
        lemma_be32_read_back(none, 0, rest);
        assert(none + be32(0) + rest == data);
    } else {
        let id = msg.id()->0;
        let payload = msg.payload_bytes();
        let length = msg.length_field();
        assert(length == 1 + payload.len());
        lemma_be32_read_back(none, length, seq![id] + payload + rest);
        assert(none + be32(length) + (seq![id] + payload + rest) == data);
        assert(data[4] == id);
        assert(data.subrange(5, LENGTH_PREFIX_SIZE + length) == payload);
        lemma_payload_read_back(msg);
    }
}

/// A payload is read as the message that it was written for.
proof fn lemma_payload_read_back(msg: MessageView)
    requires
        msg.id() is Some,
    ensures
        parse_payload(msg.id()->0, msg.payload_bytes()) == Ok::<MessageView, MessageErrorView>(msg),
{
    let none = Seq::<u8>::empty();
    let payload = msg.payload_bytes();
    match msg {
        MessageView::Have { piece_index } => {
            lemma_be32_read_back(none, piece_index, none);
            assert(none + be32(piece_index) + none == payload);
        },
        MessageView::Request { index, begin, length } => {
            lemma_three_fields_read_back(index, begin, length);
        },
        MessageView::Cancel { index, begin, length } => {
            lemma_three_fields_read_back(index, begin, length);
        },
        MessageView::Piece { index, begin, block } => {
            lemma_be32_read_back(none, index, be32(begin) + block);
            assert(none + be32(index) + (be32(begin) + block) == payload);
            lemma_be32_read_back(be32(index), begin, block);
            assert(payload.skip(8) == block);
        },
        MessageView::Port { port } => {
            lemma_be16_read_back(none, port, none);
            assert(none + be16(port) + none == payload);
        },
        MessageView::Extended { ext_id, payload: rest } => {
            assert(payload.skip(1) == rest);
        },
        _ => {},
    }
}

/// Three consecutive fields are read back.
proof fn lemma_three_fields_read_back(index: u32, begin: u32, length: u32)
    ensures
        ({
            let payload = be32(index) + be32(begin) + be32(length);
            &&& be32_at(payload, 0) == index
            &&& be32_at(payload, 4) == begin
            &&& be32_at(payload, 8) == length
        }),
{
    let none = Seq::<u8>::empty();
    let payload = be32(index) + be32(begin) + be32(length);
    lemma_be32_read_back(none, index, be32(begin) + be32(length));
    assert(none + be32(index) + (be32(begin) + be32(length)) == payload);
    lemma_be32_read_back(be32(index), begin, be32(length));
    lemma_be32_read_back(be32(index) + be32(begin), length, none);
    assert(be32(index) + be32(begin) + be32(length) + none == payload);
}

// ── Laws of the wire format ─────────────────────────────────────────

/// The number of each message.
pub proof fn law_message_ids(msg: MessageView)
    ensures
        msg.id() == (match msg {
            MessageView::KeepAlive => None,
            MessageView::Choke => Some(0u8),
            MessageView::Unchoke => Some(1u8),
            MessageView::Interested => Some(2u8),
            MessageView::NotInterested => Some(3u8),
            MessageView::Have { .. } => Some(4u8),
            MessageView::Bitfield { .. } => Some(5u8),
            MessageView::Request { .. } => Some(6u8),
            MessageView::Piece { .. } => Some(7u8),
            MessageView::Cancel { .. } => Some(8u8),
            MessageView::Port { .. } => Some(9u8),
            MessageView::Extended { .. } => Some(20u8),
        }),
{
}

/// How a message stands on the wire: four bytes, the highest first, say how many
/// follow; then come its number and its fields. Four zeros keep a connection
/// alive.
pub proof fn law_wire_layout(msg: MessageView)
    requires
        1 + msg.payload_bytes().len() <= 0xFFFF_FFFF,
    ensures
        ({
            let wire = wire_bytes(msg);
            &&& msg is KeepAlive ==> wire == seq![0u8, 0, 0, 0]
            &&& !(msg is KeepAlive) ==> {
                &&& wire.len() == 5 + msg.payload_bytes().len()
                &&& wire[0] * 16_777_216 + wire[1] * 65_536 + wire[2] * 256 + wire[3] == 1
                    + msg.payload_bytes().len()
                &&& Some(wire[4]) == msg.id()
                &&& wire.skip(5) == msg.payload_bytes()
            }
        }),
{
    if !(msg is KeepAlive) {
        assert(msg.payload_bytes().len() >= msg.fixed_payload_len());
        assert(msg.length_field() == 1 + msg.payload_bytes().len());
        assert(wire_bytes(msg).skip(5) == msg.payload_bytes());
    }
}

/// The fields of each message, in order.
pub proof fn law_payloads(index: u32, begin: u32, length: u32, port: u16, data: Seq<u8>, ext_id: u8)
    ensures
        (MessageView::Have { piece_index: index }).payload_bytes() == be32(index),
        (MessageView::Bitfield { data }).payload_bytes() == data,
        (MessageView::Request { index, begin, length }).payload_bytes() == be32(index) + be32(begin)
            + be32(length),
        (MessageView::Piece { index, begin, block: data }).payload_bytes() == be32(index) + be32(
            begin,
        ) + data,
        (MessageView::Cancel { index, begin, length }).payload_bytes() == be32(index) + be32(begin)
            + be32(length),
        (MessageView::Port { port }).payload_bytes() == be16(port),
        (MessageView::Extended { ext_id, payload: data }).payload_bytes() == seq![ext_id] + data,
        MessageView::Choke.payload_bytes().len() == 0,
        MessageView::Unchoke.payload_bytes().len() == 0,
        MessageView::Interested.payload_bytes().len() == 0,
        MessageView::NotInterested.payload_bytes().len() == 0,
{
}

/// Which frames are refused for their size: those that end early, with what was
/// needed, and those that announce more than 16 MiB.
pub proof fn law_refused_frames(data: Seq<u8>)
    requires
        data.len() <= 0xFFFF_FFFF,
    ensures
        data.len() < 4 ==> parse_frame(data) == Err::<MessageView, MessageErrorView>(
            (MessageErrorView::TooShort { needed: 4, actual: data.len() as u32 }),
        ),
        data.len() >= 4 ==> {
            let length = data[0] * 16_777_216 + data[1] * 65_536 + data[2] * 256 + data[3];
            &&& length > 16_777_216 ==> parse_frame(data) == Err::<MessageView, MessageErrorView>(
                MessageErrorView::TooLarge { length: length as u32, max: 16_777_216 },
            )
            &&& length == 0 ==> parse_frame(data) == Ok::<MessageView, MessageErrorView>(
                MessageView::KeepAlive,
            )
            &&& 0 < length <= 16_777_216 && data.len() < 4 + length ==> parse_frame(data) == Err::<
                MessageView,
                MessageErrorView,
            >(
                MessageErrorView::TooShort {
                    needed: (4 + length) as u32,
                    actual: data.len() as u32,
                },
            )
            &&& 0 < length <= 16_777_216 && data.len() >= 4 + length ==> parse_frame(data)
                == parse_payload(data[4], data.subrange(5, 4 + length))
        },
{
}

/// Which payloads are refused: those too short for the fields of their message,
/// and those of numbers that no message has. All others are read.
pub proof fn law_refused_payloads(id: u8, payload: Seq<u8>)
    ensures
        ({
            let needed: int = if id == 4 {
                4
            } else if id == 6 || id == 8 {
                12
            } else if id == 7 {
                8
            } else if id == 9 {
                2
            } else if id == 20 {
                1
            } else {
                0
            };
            let known = id <= 9 || id == 20;
            &&& parse_payload(id, payload) is Ok <==> known && payload.len() >= needed
            &&& !known ==> parse_payload(id, payload) == Err::<MessageView, MessageErrorView>(
                MessageErrorView::UnknownId { msg_id: id },
            )
            &&& known && payload.len() < needed ==> (parse_payload(id, payload) matches Err(
                MessageErrorView::InvalidPayload { msg_id, .. },
            ) && msg_id == id)
        }),
{
}

/// Where the fields are read: the numbers one behind the other, the highest byte
/// first, and what is of arbitrary length behind them. Bytes behind a message of
/// fixed length do not matter.
pub proof fn law_fields_are_read(payload: Seq<u8>)
    requires
        payload.len() >= 12,
    ensures
        ({
            let field = |at: int|
                (payload[at] * 16_777_216 + payload[at + 1] * 65_536 + payload[at + 2] * 256
                    + payload[at + 3]) as u32;
            &&& parse_payload(4, payload) == Ok::<MessageView, MessageErrorView>(
                MessageView::Have { piece_index: field(0) },
            )
            &&& parse_payload(5, payload) == Ok::<MessageView, MessageErrorView>(
                MessageView::Bitfield { data: payload },
            )
            &&& parse_payload(6, payload) == Ok::<MessageView, MessageErrorView>(
                MessageView::Request { index: field(0), begin: field(4), length: field(8) },
            )
            &&& parse_payload(7, payload) == Ok::<MessageView, MessageErrorView>(
                MessageView::Piece { index: field(0), begin: field(4), block: payload.skip(8) },
            )
            &&& parse_payload(8, payload) == Ok::<MessageView, MessageErrorView>(
                MessageView::Cancel { index: field(0), begin: field(4), length: field(8) },
            )
            &&& parse_payload(9, payload) == Ok::<MessageView, MessageErrorView>(
                MessageView::Port { port: (payload[0] * 256 + payload[1]) as u16 },
            )
            &&& parse_payload(20, payload) == Ok::<MessageView, MessageErrorView>(
                MessageView::Extended { ext_id: payload[0], payload: payload.skip(1) },
            )
        }),
{
}

/// Blocks are requested in 16 KiB.
pub proof fn law_limits()
    ensures
        BLOCK_SIZE == 16_384,
{
}

} // verus!
