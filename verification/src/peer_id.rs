//! Cryptographic peer identity.
//!
//! A [`PeerId`] is 32 bytes that outlive sessions, reconnections and
//! transports. Two identities are equal when their bytes are, however they
//! were derived; how is remembered as a [`PeerIdKind`] and shows in the
//! encoded form, `ic1`, a kind character and 64 hexadecimal digits.

use vstd::prelude::*;
use vstd::string::StringSliceAdditionalSpecFns;
use vstd::utf8::decode_utf8;
use vstd::utf8::encode_utf8;
use vstd::utf8::is_ascii_chars;
use vstd::utf8::is_char_boundary;

use crate::codec::arrays_equal;
use crate::codec::lex_before;
use crate::codec::lex_less;
use crate::digest::sha256;
use crate::digest::sha256_digest;
use crate::entropy::random_array;
use crate::entropy::EntropyUnavailable;
use crate::text::chars_of;
use crate::text::decimal;
use crate::text::hex_char;
use crate::text::hex_chars;
use crate::text::hex_digit;
use crate::text::hex_value;
use crate::text::lemma_hex_value;
use crate::text::lemma_trimmed_tight;
use crate::text::push_decimal;
use crate::text::push_hex;
use crate::text::str_equal;
use crate::text::trim_str;
use crate::text::trimmed;

verus! {

/// Size of a peer identity in bytes.
pub const PEER_ID_LEN: usize = 32;

/// Length of an encoded identity in bytes.
pub const ENCODED_LEN: usize = 68;

/// How a [`PeerId`] was derived.
#[derive(Debug, Clone, Copy, PartialEq, Eq, Structural)]
pub enum PeerIdKind {
    /// From 32 bytes of operating system randomness.
    Random,
    /// By hashing key material (a URL, a BitTorrent peer ID).
    Hashed,
    /// A raw Ed25519 public key.
    Ed25519,
}

impl PeerIdKind {
    /// The character that stands for the kind in the encoded form.
    pub open spec fn letter(self) -> char {
        match self {
            PeerIdKind::Random => 'r',
            PeerIdKind::Hashed => 'h',
            PeerIdKind::Ed25519 => 'e',
        }
    }
}

/// The kind that a byte of the encoded form stands for.
pub open spec fn kind_of_byte(b: u8) -> Option<PeerIdKind> {
    if b == 'r' as u8 {
        Some(PeerIdKind::Random)
    } else if b == 'h' as u8 {
        Some(PeerIdKind::Hashed)
    } else if b == 'e' as u8 {
        Some(PeerIdKind::Ed25519)
    } else {
        None
    }
}

/// Errors from decoding an encoded identity.
#[derive(Debug, Clone, PartialEq, Eq)]
pub enum PeerIdDecodeError {
    /// Not 68 bytes long.
    InvalidLength {
        /// Length found.
        length: usize,
    },
    /// Does not start with `ic1`.
    InvalidPrefix {
        /// What it starts with.
        found: String,
    },
    /// Unknown kind character.
    InvalidKind {
        /// The byte in its place.
        byte: u8,
    },
    /// Not hexadecimal.
    InvalidHex {
        /// What is wrong.
        detail: String,
    },
}

/// What an error says, with its text as a character sequence.
pub enum DecodeErrorView {
    InvalidLength { length: nat },
    InvalidPrefix { found: Seq<char> },
    InvalidKind { byte: u8 },
    InvalidHex { detail: Seq<char> },
}

impl View for PeerIdDecodeError {
    type V = DecodeErrorView;

    open spec fn view(&self) -> DecodeErrorView {
        match *self {
            PeerIdDecodeError::InvalidLength { length } => DecodeErrorView::InvalidLength {
                length: length as nat,
            },
            PeerIdDecodeError::InvalidPrefix { found } => DecodeErrorView::InvalidPrefix {
                found: found@,
            },
            PeerIdDecodeError::InvalidKind { byte } => DecodeErrorView::InvalidKind { byte },
            PeerIdDecodeError::InvalidHex { detail } => DecodeErrorView::InvalidHex {
                detail: detail@,
            },
        }
    }
}

impl DecodeErrorView {
    /// The text shown for an error.
    pub open spec fn text(self) -> Seq<char> {
        match self {
            DecodeErrorView::InvalidLength { length } => "invalid encoded PeerId length: expected 68, got "@
                + decimal(length),
            DecodeErrorView::InvalidPrefix { found } => "invalid prefix: expected 'ic1', found '"@
                + found + "'"@,
            DecodeErrorView::InvalidKind { byte } => "invalid kind byte: 0x"@ + hex_chars(
                seq![byte],
            ) + " (expected 'r', 'h', or 'e')"@,
            DecodeErrorView::InvalidHex { detail } => "invalid hex encoding: "@ + detail,
        }
    }
}

impl PeerIdDecodeError {
    /// The text shown for this error.
    pub fn display(&self) -> (r: String)
        ensures
            r@ == self@.text(),
    {
        let mut out = String::new();
        match self {
            PeerIdDecodeError::InvalidLength { length } => {
                out.append("invalid encoded PeerId length: expected 68, got ");
                push_decimal(&mut out, *length as u64);
            },
            PeerIdDecodeError::InvalidPrefix { found } => {
                out.append("invalid prefix: expected 'ic1', found '");
                out.append(found.as_str());
                out.append("'");
            },
            PeerIdDecodeError::InvalidKind { byte } => {
                out.append("invalid kind byte: 0x");
                let one: [u8; 1] = [*byte];
                assert(one@ == seq![*byte]);
                push_hex(&mut out, &one);
                out.append(" (expected 'r', 'h', or 'e')");
            },
            PeerIdDecodeError::InvalidHex { detail } => {
                out.append("invalid hex encoding: ");
                out.append(detail.as_str());
            },
        }
        out
    }
}

/// A 32-byte peer identity. Its view is its bytes.
#[derive(Debug, Clone, Copy)]
pub struct PeerId {
    bytes: [u8; 32],
    kind: PeerIdKind,
}

impl View for PeerId {
    type V = Seq<u8>;

    closed spec fn view(&self) -> Seq<u8> {
        self.bytes@
    }
}

impl PartialEq for PeerId {
    fn eq(&self, other: &PeerId) -> (r: bool) {
        arrays_equal(&self.bytes, &other.bytes)
    }
}

impl vstd::std_specs::cmp::PartialEqSpecImpl for PeerId {
    open spec fn obeys_eq_spec() -> bool {
        true
    }

    open spec fn eq_spec(&self, other: &PeerId) -> bool {
        self@ == other@
    }
}

impl Eq for PeerId {

}

/// `<[T; N] as core::hash::Hash>::hash` feeds an array to a hasher. Nothing
/// is claimed of what the hasher does with it.
pub assume_specification<T: core::hash::Hash, const N: usize, H: core::hash::Hasher>[ <[T; N] as core::hash::Hash>::hash ](
    a: &[T; N],
    state: &mut H,
);

impl core::hash::Hash for PeerId {
    fn hash<H: core::hash::Hasher>(&self, state: &mut H) {
        self.bytes.hash(state);
    }
}

impl PartialOrd for PeerId {
    fn partial_cmp(&self, other: &PeerId) -> (r: Option<core::cmp::Ordering>) {
        if lex_less(&self.bytes, &other.bytes) {
            Some(core::cmp::Ordering::Less)
        } else if lex_less(&other.bytes, &self.bytes) {
            Some(core::cmp::Ordering::Greater)
        } else {
            Some(core::cmp::Ordering::Equal)
        }
    }
}

impl vstd::std_specs::cmp::PartialOrdSpecImpl for PeerId {
    open spec fn obeys_partial_cmp_spec() -> bool {
        true
    }

    open spec fn partial_cmp_spec(&self, other: &PeerId) -> Option<core::cmp::Ordering> {
        if lex_before(self@, other@) {
            Some(core::cmp::Ordering::Less)
        } else if lex_before(other@, self@) {
            Some(core::cmp::Ordering::Greater)
        } else {
            Some(core::cmp::Ordering::Equal)
        }
    }
}

/// The title of a callsign.
pub open spec fn title_text(nibble: u8) -> Seq<char> {
    if nibble == 0 {
        "Commander"@
    } else if nibble == 1 {
        "Captain"@
    } else if nibble == 2 {
        "Colonel"@
    } else if nibble == 3 {
        "General"@
    } else if nibble == 4 {
        "Major"@
    } else if nibble == 5 {
        "Sergeant"@
    } else if nibble == 6 {
        "Lieutenant"@
    } else if nibble == 7 {
        "Marshal"@
    } else if nibble == 8 {
        "Admiral"@
    } else if nibble == 9 {
        "Warden"@
    } else if nibble == 10 {
        "Ranger"@
    } else if nibble == 11 {
        "Vanguard"@
    } else if nibble == 12 {
        "Striker"@
    } else if nibble == 13 {
        "Shadow"@
    } else if nibble == 14 {
        "Sentinel"@
    } else {
        "Phantom"@
    }
}

/// The title of a callsign, by the upper four bits of the first byte.
pub fn callsign_title(nibble: u8) -> (r: &'static str)
    ensures
        r@ == title_text(nibble),
{
    match nibble {
        0 => "Commander",
        1 => "Captain",
        2 => "Colonel",
        3 => "General",
        4 => "Major",
        5 => "Sergeant",
        6 => "Lieutenant",
        7 => "Marshal",
        8 => "Admiral",
        9 => "Warden",
        10 => "Ranger",
        11 => "Vanguard",
        12 => "Striker",
        13 => "Shadow",
        14 => "Sentinel",
        _ => "Phantom",
    }
}

/// The character of a base-36 digit: digits, then upper-case letters.
pub open spec fn base36_char(d: u8) -> char {
    if d < 10 {
        ('0' as u8 + d) as char
    } else {
        ('A' as u8 + (d - 10)) as char
    }
}

/// The character of a base-36 digit.
fn base36_digit(d: u8) -> (r: char)
    requires
        d < 36,
    ensures
        r == base36_char(d),
{
    if d < 10 {
        (48u8 + d) as char
    } else {
        (55u8 + d) as char
    }
}

/// The callsign of an identity: a title, an underscore and three base-36
/// characters.
pub open spec fn callsign_text(bytes: Seq<u8>) -> Seq<char> {
    title_text(bytes[0] / 16) + seq![
        '_',
        base36_char(bytes[1] % 36),
        base36_char(bytes[2] % 36),
        base36_char(bytes[3] % 36),
    ]
}

/// The encoded form of an identity.
pub open spec fn encoded_text(bytes: Seq<u8>, kind: PeerIdKind) -> Seq<char> {
    "ic1"@ + seq![kind.letter()] + hex_chars(bytes)
}

/// The text of the first `n` bytes, or nothing where they end inside a
/// character.
pub open spec fn text_before(utf8: Seq<u8>, n: int) -> Seq<char> {
    if is_char_boundary(utf8, n) {
        decode_utf8(utf8.subrange(0, n))
    } else {
        Seq::empty()
    }
}

/// The text behind the first `n` bytes, or nothing where they end inside a
/// character.
pub open spec fn text_after(utf8: Seq<u8>, n: int) -> Seq<char> {
    if is_char_boundary(utf8, n) {
        decode_utf8(utf8.subrange(n, utf8.len() as int))
    } else {
        Seq::empty()
    }
}

/// The fault of text that is not hexadecimal.
pub open spec fn bad_hex(detail: Seq<char>) -> Result<Seq<u8>, DecodeErrorView> {
    Err(DecodeErrorView::InvalidHex { detail })
}

/// The first `count` bytes that pairs of hexadecimal digits stand for. A pair
/// is taken whole before its digits are looked at.
pub open spec fn parse_hex_pairs(chars: Seq<char>, count: nat) -> Result<Seq<u8>, DecodeErrorView>
    decreases count,
{
    if count == 0 {
        Ok(Seq::empty())
    } else if chars.len() < 2 {
        bad_hex("unexpected end of hex"@)
    } else {
        match (hex_value(chars[0]), hex_value(chars[1])) {
            (None, _) => bad_hex("invalid hex character: "@.push(chars[0])),
            (_, None) => bad_hex("invalid hex character: "@.push(chars[1])),
            (Some(hi), Some(lo)) => after_byte(
                (hi * 16 + lo) as u8,
                parse_hex_pairs(chars.skip(2), (count - 1) as nat),
            ),
        }
    }
}

/// A parsed run of bytes with one more in front.
pub open spec fn after_byte(b: u8, rest: Result<Seq<u8>, DecodeErrorView>) -> Result<
    Seq<u8>,
    DecodeErrorView,
> {
    match rest {
        Ok(bytes) => Ok(seq![b] + bytes),
        Err(e) => Err(e),
    }
}

/// A parsed run of bytes with others in front.
pub open spec fn after_bytes(done: Seq<u8>, rest: Result<Seq<u8>, DecodeErrorView>) -> Result<
    Seq<u8>,
    DecodeErrorView,
> {
    match rest {
        Ok(bytes) => Ok(done + bytes),
        Err(e) => Err(e),
    }
}

/// What an encoded identity means: white space at either end is dropped, the
/// rest is `ic1`, a kind character and 64 hexadecimal digits of either case.
pub open spec fn parse_encoded(s: Seq<char>) -> Result<(Seq<u8>, PeerIdKind), DecodeErrorView> {
    let utf8 = encode_utf8(trimmed(s));
    if utf8.len() != ENCODED_LEN {
        Err(DecodeErrorView::InvalidLength { length: utf8.len() })
    } else if text_before(utf8, 3) != "ic1"@ {
        Err(DecodeErrorView::InvalidPrefix { found: text_before(utf8, 3) })
    } else {
        match kind_of_byte(utf8[3]) {
            None => Err(DecodeErrorView::InvalidKind { byte: utf8[3] }),
            Some(kind) => {
                let hex = text_after(utf8, 4);
                if encode_utf8(hex).len() != PEER_ID_LEN * 2 {
                    Err(DecodeErrorView::InvalidLength { length: encode_utf8(hex).len() + 4 })
                } else {
                    match parse_hex_pairs(hex, PEER_ID_LEN as nat) {
                        Ok(bytes) => Ok((bytes, kind)),
                        Err(e) => Err(e),
                    }
                }
            },
        }
    }
}

impl PeerId {
    /// How this identity was derived.
    pub closed spec fn spec_kind(self) -> PeerIdKind {
        self.kind
    }

    /// Creates a fresh random identity, without any setup.
    ///
    /// Fails when the operating system gives no randomness, with the code of
    /// that failure.
    pub fn generate() -> (r: Result<PeerId, EntropyUnavailable>)
        ensures
            match r {
                Ok(id) => id.spec_kind() == PeerIdKind::Random,
                Err(e) => e.code != 0,
            },
    {
        PeerId::from_drawn(random_array::<32>())
    }

    /// Creates a random identity from bytes that were drawn, used as they are.
    ///
    /// Fails exactly when the draw failed, with its error.
    pub fn from_drawn(drawn: Result<[u8; 32], EntropyUnavailable>) -> (r: Result<
        PeerId,
        EntropyUnavailable,
    >)
        ensures
            match drawn {
                Ok(bytes) => r matches Ok(id) && id@ == bytes@ && id.spec_kind()
                    == PeerIdKind::Random,
                Err(e) => r == Err::<PeerId, EntropyUnavailable>(e),
            },
    {
        match drawn {
            Ok(bytes) => Ok(PeerId::from_bytes(bytes)),
            Err(e) => Err(e),
        }
    }

    /// Creates an identity by hashing arbitrary key material.
    pub fn from_key_material(material: &[u8]) -> (r: PeerId)
        ensures
            r@ == sha256_digest(material@),
            r.spec_kind() == PeerIdKind::Hashed,
    {
        PeerId { bytes: sha256(material), kind: PeerIdKind::Hashed }
    }

    /// Creates an identity from a raw Ed25519 public key, stored as it is.
    pub fn from_ed25519_pubkey(pubkey: [u8; 32]) -> (r: PeerId)
        ensures
            r@ == pubkey@,
            r.spec_kind() == PeerIdKind::Ed25519,
    {
        PeerId { bytes: pubkey, kind: PeerIdKind::Ed25519 }
    }

    /// Creates an identity from raw bytes, used as they are.
    pub fn from_bytes(bytes: [u8; 32]) -> (r: PeerId)
        ensures
            r@ == bytes@,
            r.spec_kind() == PeerIdKind::Random,
    {
        PeerId { bytes, kind: PeerIdKind::Random }
    }

    /// Returns the raw identity.
    pub fn as_bytes(&self) -> (r: &[u8; 32])
        ensures
            r@ == self@,
    {
        &self.bytes
    }

    /// Returns how this identity was derived.
    pub fn kind(&self) -> (r: PeerIdKind)
        ensures
            r == self.spec_kind(),
    {
        self.kind
    }

    /// An identity has 32 bytes.
    pub proof fn lemma_len(self)
        ensures
            self@.len() == PEER_ID_LEN,
    {
    }

    /// Derives a human-readable callsign from the identity bytes.
    pub fn callsign(&self) -> (r: String)
        ensures
            r@ == callsign_text(self@),
    {
        let mut out = String::new();
        out.append(callsign_title(self.bytes[0] / 16));
        out.push('_');
        out.push(base36_digit(self.bytes[1] % 36));
        out.push(base36_digit(self.bytes[2] % 36));
        out.push(base36_digit(self.bytes[3] % 36));
        out
    }

    /// The identity as it is shown: its first 8 bytes in hexadecimal and an
    /// ellipsis.
    pub fn display(&self) -> (r: String)
        ensures
            r@ == hex_chars(self@.take(8)).push('\u{2026}'),
    {
        let mut out = String::new();
        push_hex(&mut out, vstd::slice::slice_subrange(&self.bytes, 0, 8));
        out.push('\u{2026}');
        out
    }

    /// The identity in full, for diagnostics.
    pub fn debug_text(&self) -> (r: String)
        ensures
            r@ == "PeerId("@ + hex_chars(self@) + ")"@,
    {
        let mut out = String::new();
        out.append("PeerId(");
        push_hex(&mut out, &self.bytes);
        out.append(")");
        out
    }

    /// Produces a compact, self-describing encoded string.
    pub fn to_encoded(&self) -> (r: String)
        ensures
            r@ == encoded_text(self@, self.spec_kind()),
    {
        let letter = match self.kind {
            PeerIdKind::Random => 'r',
            PeerIdKind::Hashed => 'h',
            PeerIdKind::Ed25519 => 'e',
        };
        let mut out = String::new();
        out.append("ic1");
        out.push(letter);
        push_hex(&mut out, &self.bytes);
        out
    }

    /// Parses an encoded string.
    pub fn from_encoded(s: &str) -> (r: Result<PeerId, PeerIdDecodeError>)
        ensures
            match r {
                Ok(id) => parse_encoded(s@) == Ok::<(Seq<u8>, PeerIdKind), DecodeErrorView>(
                    (id@, id.spec_kind()),
                ),
                Err(e) => parse_encoded(s@) == Err::<(Seq<u8>, PeerIdKind), DecodeErrorView>(e@),
            },
    {
        broadcast use vstd::utf8::encode_utf8_valid_utf8, vstd::utf8::encode_utf8_decode_utf8;

        let text = trim_str(s);
        let utf8 = text.as_bytes();
        if utf8.len() != ENCODED_LEN {
            return Err(PeerIdDecodeError::InvalidLength { length: utf8.len() });
        }
        let prefix = if text.is_char_boundary(3) {
            text.split_at(3).0
        } else {
            ""
        };
        proof {
            reveal_strlit("");
            assert(prefix@ == text_before(utf8@, 3));
        }
        if !str_equal(prefix, "ic1") {
            return Err(PeerIdDecodeError::InvalidPrefix { found: prefix.to_owned() });
        }
        let kind = match utf8[3] {
            114 => PeerIdKind::Random,
            104 => PeerIdKind::Hashed,
            101 => PeerIdKind::Ed25519,
            byte => {
                return Err(PeerIdDecodeError::InvalidKind { byte });
            },
        };
        let hex = if text.is_char_boundary(4) {
            text.split_at(4).1
        } else {
            ""
        };
        proof {
            assert(hex@ == text_after(utf8@, 4));
        }
        match hex_decode_peer_id(hex) {
            Ok(bytes) => Ok(PeerId { bytes, kind }),
            Err(e) => Err(e),
        }
    }
}

/// Decodes 64 hexadecimal digits.
fn hex_decode_peer_id(hex: &str) -> (r: Result<[u8; 32], PeerIdDecodeError>)
    requires
        hex.spec_bytes().len() <= 64,
    ensures
        match r {
            Ok(bytes) => {
                &&& hex.spec_bytes().len() == 64
                &&& parse_hex_pairs(hex@, 32) == Ok::<Seq<u8>, DecodeErrorView>(bytes@)
            },
            Err(e) => if hex.spec_bytes().len() != 64 {
                e@ == (DecodeErrorView::InvalidLength { length: hex.spec_bytes().len() + 4 })
            } else {
                parse_hex_pairs(hex@, 32) == Err::<Seq<u8>, DecodeErrorView>(e@)
            },
        },
{
    let length: usize = hex.as_bytes().len();
    if length != PEER_ID_LEN * 2 {
        return Err(PeerIdDecodeError::InvalidLength { length: length + 4 });
    }
    let chars = chars_of(hex);
    let mut bytes: [u8; 32] = [0; 32];
    let mut i: usize = 0;
    proof {
        assert(bytes@.take(0) == Seq::<u8>::empty());
        assert(hex@.skip(0) == hex@);
        lemma_after_nothing(parse_hex_pairs(hex@, 32));
    }
    while i < 32
        invariant
            i <= 32,
            chars@ == hex@,
            hex.spec_bytes().len() == 64,
            2 * i <= chars@.len(),
            parse_hex_pairs(hex@, 32) == after_bytes(
                bytes@.take(i as int),
                parse_hex_pairs(hex@.skip(2 * i), (32 - i) as nat),
            ),
        decreases 32 - i,
    {
        let ghost rest = hex@.skip(2 * i);
        if chars.len() - 2 * i < 2 {
            return Err(
                PeerIdDecodeError::InvalidHex { detail: "unexpected end of hex".to_owned() },
            );
        }
        let first = chars[2 * i];
        let second = chars[2 * i + 1];
        assert(rest[0] == first && rest[1] == second);
        let hi: u8 = match hex_digit(first) {
            Some(hi) => hi,
            None => {
                return Err(invalid_hex_character(first));
            },
        };
        let lo: u8 = match hex_digit(second) {
            Some(lo) => lo,
            None => {
                return Err(invalid_hex_character(second));
            },
        };
        let b: u8 = hi * 16 + lo;
        proof {
            assert(rest.skip(2) == hex@.skip(2 * (i + 1)));
            lemma_after_push(
                bytes@.take(i as int),
                b,
                parse_hex_pairs(rest.skip(2), (32 - i - 1) as nat),
            );
        }
        let ghost old_bytes = bytes@;
        bytes[i] = b;
        assert(bytes@.take(i + 1) == old_bytes.take(i as int).push(b));
        i += 1;
    }
    assert(bytes@.take(32) == bytes@);
    assert(bytes@ + Seq::<u8>::empty() == bytes@);
    Ok(bytes)
}

/// The error of a character that is no hexadecimal digit.
fn invalid_hex_character(c: char) -> (r: PeerIdDecodeError)
    ensures
        r@ == (DecodeErrorView::InvalidHex { detail: "invalid hex character: "@.push(c) }),
{
    let mut detail = String::new();
    detail.append("invalid hex character: ");
    detail.push(c);
    assert(detail@ == "invalid hex character: "@.push(c));
    PeerIdDecodeError::InvalidHex { detail }
}

/// Nothing in front changes nothing.
proof fn lemma_after_nothing(rest: Result<Seq<u8>, DecodeErrorView>)
    ensures
        after_bytes(Seq::empty(), rest) == rest,
{
    if let Ok(bytes) = rest {
        assert(Seq::<u8>::empty() + bytes == bytes);
    }
}

/// A byte in front of the rest goes behind what is in front of both.
proof fn lemma_after_push(done: Seq<u8>, b: u8, rest: Result<Seq<u8>, DecodeErrorView>)
    ensures
        after_bytes(done, after_byte(b, rest)) == after_bytes(done.push(b), rest),
{
    if let Ok(bytes) = rest {
        assert(done + (seq![b] + bytes) == done.push(b) + bytes);
    }
}

// ── Laws ────────────────────────────────────────────────────────────

/// Parsing an encoded identity gives back its bytes and its kind.
pub proof fn law_encoded_round_trip(id: PeerId)
    ensures
        parse_encoded(encoded_text(id@, id.spec_kind())) == Ok::<
            (Seq<u8>, PeerIdKind),
            DecodeErrorView,
        >((id@, id.spec_kind())),
{
    id.lemma_len();
    lemma_parse_encoded_text(id@, id.spec_kind());
}

/// The encoded form of any 32 bytes is parsed as those bytes.
proof fn lemma_parse_encoded_text(bytes: Seq<u8>, kind: PeerIdKind)
    requires
        bytes.len() == 32,
    ensures
        parse_encoded(encoded_text(bytes, kind)) == Ok::<(Seq<u8>, PeerIdKind), DecodeErrorView>(
            (bytes, kind),
        ),
{
    reveal_strlit("ic1");
    let text = encoded_text(bytes, kind);
    let hex = hex_chars(bytes);
    assert forall|i: int| 0 <= i < hex.len() implies !crate::text::is_white_space(
        #[trigger] hex[i],
    ) && hex[i] < '\u{80}' by {
        if i % 2 == 0 {
            lemma_hex_value(bytes[i / 2] / 16);
        } else {
            lemma_hex_value(bytes[i / 2] % 16);
        }
    }
    assert(text.len() == 68);
    assert forall|i: int| 0 <= i < text.len() implies '\0' <= #[trigger] text[i] <= '\u{7f}' by {
        if i >= 4 {
            assert(text[i] == hex[i - 4]);
        }
    }
    assert(is_ascii_chars(text));
    assert(text.last() == hex[63]);
    lemma_trimmed_tight(text);
    lemma_ascii_split(text, 3);
    lemma_ascii_split(text, 4);
    let utf8 = encode_utf8(text);
    vstd::utf8::is_ascii_chars_encode_utf8(text);
    assert(text.take(3) == "ic1"@);
    assert(text[3] == kind.letter());
    assert(utf8[3] == text[3] as u8);
    assert(text.skip(4) == hex);
    assert(is_ascii_chars(hex)) by {
        assert forall|i: int| 0 <= i < hex.len() implies '\0' <= #[trigger] hex[i] <= '\u{7f}' by {
            assert(hex[i] == text[i + 4]);
        }
    }
    vstd::utf8::is_ascii_chars_encode_utf8(hex);
    lemma_parse_hex(bytes);
}

/// In ASCII text every position is a character boundary.
proof fn lemma_ascii_split(text: Seq<char>, n: int)
    requires
        is_ascii_chars(text),
        0 <= n < text.len(),
    ensures
        text_before(encode_utf8(text), n) == text.take(n),
        text_after(encode_utf8(text), n) == text.skip(n),
{
    let utf8 = encode_utf8(text);
    vstd::utf8::is_ascii_chars_encode_utf8(text);
    vstd::utf8::encode_utf8_valid_utf8(text);
    assert(utf8[n] == text[n] as u8);
    vstd::utf8::is_char_boundary_iff_not_is_continuation_byte(utf8, n);
    let front = text.take(n);
    let back = text.skip(n);
    assert(is_ascii_chars(front));
    assert(is_ascii_chars(back)) by {
        assert forall|i: int| 0 <= i < back.len() implies '\0' <= #[trigger] back[i] <= '\u{7f}' by {
            assert(back[i] == text[i + n]);
        }
    }
    vstd::utf8::is_ascii_chars_encode_utf8(front);
    vstd::utf8::is_ascii_chars_encode_utf8(back);
    vstd::utf8::encode_utf8_decode_utf8(front);
    vstd::utf8::encode_utf8_decode_utf8(back);
    assert(utf8.subrange(0, n) == encode_utf8(front)) by {
        assert forall|i: int| 0 <= i < n implies utf8[i] == encode_utf8(front)[i] by {
            assert(front[i] == text[i]);
        }
    }
    assert(utf8.subrange(n, utf8.len() as int) == encode_utf8(back)) by {
        assert forall|i: int| 0 <= i < back.len() implies utf8[i + n] == encode_utf8(back)[i] by {
            assert(back[i] == text[i + n]);
        }
    }
}

/// Bytes written in hexadecimal are parsed as those bytes.
proof fn lemma_parse_hex(bytes: Seq<u8>)
    ensures
        parse_hex_pairs(hex_chars(bytes), bytes.len()) == Ok::<Seq<u8>, DecodeErrorView>(bytes),
    decreases bytes.len(),
{
    if bytes.len() > 0 {
        let hex = hex_chars(bytes);
        let b = bytes[0];
        assert(hex[0] == hex_char(b / 16));
        assert(hex[1] == hex_char(b % 16));
        lemma_hex_value(b / 16);
        lemma_hex_value(b % 16);
        assert(hex.skip(2) == hex_chars(bytes.drop_first()));
        lemma_parse_hex(bytes.drop_first());
        assert(seq![b] + bytes.drop_first() == bytes);
    } else {
        assert(bytes == Seq::<u8>::empty());
    }
}

/// The same identity always has the same callsign, of the form title,
/// underscore and three characters out of digits and upper-case letters.
pub proof fn law_callsign_form(id: PeerId)
    ensures
        ({
            let text = callsign_text(id@);
            let suffix = text.skip(text.len() - 3);
            &&& text.len() > 4
            &&& text[text.len() - 4] == '_'
            &&& forall|i: int|
                0 <= i < 3 ==> ('0' <= #[trigger] suffix[i] <= '9' || 'A' <= suffix[i] <= 'Z')
        }),
{
    reveal_strlit("Commander");
    reveal_strlit("Captain");
    reveal_strlit("Colonel");
    reveal_strlit("General");
    reveal_strlit("Major");
    reveal_strlit("Sergeant");
    reveal_strlit("Lieutenant");
    reveal_strlit("Marshal");
    reveal_strlit("Admiral");
    reveal_strlit("Warden");
    reveal_strlit("Ranger");
    reveal_strlit("Vanguard");
    reveal_strlit("Striker");
    reveal_strlit("Shadow");
    reveal_strlit("Sentinel");
    reveal_strlit("Phantom");
}

/// The letter of each kind, both ways.
pub proof fn law_kind_letters(b: u8)
    ensures
        PeerIdKind::Random.letter() == 'r',
        PeerIdKind::Hashed.letter() == 'h',
        PeerIdKind::Ed25519.letter() == 'e',
        kind_of_byte(b) == Some(PeerIdKind::Random) <==> b == 0x72,
        kind_of_byte(b) == Some(PeerIdKind::Hashed) <==> b == 0x68,
        kind_of_byte(b) == Some(PeerIdKind::Ed25519) <==> b == 0x65,
{
}

/// What a callsign is made of: the title of the upper four bits of the first byte,
/// an underscore, and the next three bytes modulo 36, with ten digits before 26
/// letters.
pub proof fn law_callsign_parts(bytes: Seq<u8>, d: u8)
    requires
        bytes.len() == 32,
        d < 36,
    ensures
        callsign_text(bytes) == title_text(bytes[0] / 16) + seq![
            '_',
            base36_char(bytes[1] % 36),
            base36_char(bytes[2] % 36),
            base36_char(bytes[3] % 36),
        ],
        d < 10 ==> base36_char(d) as int == 48 + d,
        d >= 10 ==> base36_char(d) as int == 55 + d,
        title_text(0) == "Commander"@ && title_text(1) == "Captain"@ && title_text(2) == "Colonel"@
            && title_text(3) == "General"@ && title_text(4) == "Major"@ && title_text(5)
            == "Sergeant"@ && title_text(6) == "Lieutenant"@ && title_text(7) == "Marshal"@,
        title_text(8) == "Admiral"@ && title_text(9) == "Warden"@ && title_text(10) == "Ranger"@
            && title_text(11) == "Vanguard"@ && title_text(12) == "Striker"@ && title_text(13)
            == "Shadow"@ && title_text(14) == "Sentinel"@ && title_text(15) == "Phantom"@,
{
}

/// How an identity is written: `ic1`, the letter of its kind, and two hexadecimal
/// digits for each byte, the higher first.
pub proof fn law_encoded_layout(bytes: Seq<u8>, kind: PeerIdKind, i: int)
    requires
        bytes.len() == 32,
        0 <= i < 32,
    ensures
        encoded_text(bytes, kind).len() == 68,
        encoded_text(bytes, kind).take(3) == "ic1"@,
        encoded_text(bytes, kind)[3] == kind.letter(),
        encoded_text(bytes, kind)[4 + 2 * i] == hex_char(bytes[i] / 16),
        encoded_text(bytes, kind)[5 + 2 * i] == hex_char(bytes[i] % 16),
{
    reveal_strlit("ic1");
    assert(encoded_text(bytes, kind).take(3) == "ic1"@);
    crate::text::law_hexadecimal(bytes, i, 0, '0');
    assert(encoded_text(bytes, kind)[4 + 2 * i] == hex_chars(bytes)[2 * i]);
    assert(encoded_text(bytes, kind)[5 + 2 * i] == hex_chars(bytes)[2 * i + 1]);
}

/// Pairs of hexadecimal digits, of either case, are read as bytes; one character
/// that is no such digit spoils them all.
pub proof fn law_hex_pairs(chars: Seq<char>, count: nat, i: int)
    requires
        chars.len() == 2 * count,
    ensures
        match parse_hex_pairs(chars, count) {
            Ok(bytes) => {
                &&& bytes.len() == count
                &&& 0 <= i < count ==> hex_value(chars[2 * i]) is Some && hex_value(chars[2 * i + 1])
                    is Some && bytes[i] == hex_value(chars[2 * i])->0 * 16 + hex_value(
                    chars[2 * i + 1],
                )->0
            },
            Err(e) => e is InvalidHex && !(forall|k: int|
                0 <= k < chars.len() ==> hex_value(#[trigger] chars[k]) is Some),
        },
    decreases count,
{
    if count > 0 {
        law_hex_pairs(chars.skip(2), (count - 1) as nat, i - 1);
        crate::text::law_hexadecimal(seq![0u8], 0, 0, chars[0]);
        crate::text::law_hexadecimal(seq![0u8], 0, 0, chars[1]);
        if parse_hex_pairs(chars.skip(2), (count - 1) as nat) is Err && hex_value(chars[0]) is Some
            && hex_value(chars[1]) is Some {
            let k = choose|k: int|
                0 <= k < chars.skip(2).len() && hex_value(#[trigger] chars.skip(2)[k]) is None;
            assert(hex_value(chars[k + 2]) is None);
        }
        if i > 0 && i < count {
            assert(chars.skip(2)[2 * (i - 1)] == chars[2 * i]);
            assert(chars.skip(2)[2 * (i - 1) + 1] == chars[2 * i + 1]);
        }
    }
}

/// Which texts are identities: of ASCII characters, those of length 68 that begin
/// with `ic1` and a letter for a kind, and go on with hexadecimal digits. Others
/// are refused with what is wrong first. White space around does not matter.
pub proof fn law_what_is_an_identity(s: Seq<char>, text: Seq<char>, i: int)
    requires
        is_ascii_chars(text),
        trimmed(text) == text,
    ensures
        parse_encoded(s) == parse_encoded(trimmed(s)),
        text.len() != 68 ==> parse_encoded(text) == Err::<(Seq<u8>, PeerIdKind), DecodeErrorView>(
            (DecodeErrorView::InvalidLength { length: text.len() }),
        ),
        text.len() == 68 && text.take(3) != "ic1"@ ==> parse_encoded(text) == Err::<
            (Seq<u8>, PeerIdKind),
            DecodeErrorView,
        >((DecodeErrorView::InvalidPrefix { found: text.take(3) })),
        text.len() == 68 && text.take(3) == "ic1"@ && text[3] != 'r' && text[3] != 'h' && text[3]
            != 'e' ==> parse_encoded(text) == Err::<(Seq<u8>, PeerIdKind), DecodeErrorView>(
            (DecodeErrorView::InvalidKind { byte: text[3] as u8 }),
        ),
        4 <= i < 68 && text.len() == 68 && hex_value(text[i]) is None ==> parse_encoded(text)
            is Err,
        parse_encoded(text) matches Ok((bytes, kind)) ==> {
            &&& text.len() == 68 && text.take(3) == "ic1"@ && text[3] == kind.letter()
            &&& bytes.len() == 32
            &&& 0 <= i < 32 ==> bytes[i] == hex_value(text[4 + 2 * i])->0 * 16 + hex_value(
                text[5 + 2 * i],
            )->0
        },
        text.len() == 68 && text.take(3) == "ic1"@ && (text[3] == 'r' || text[3] == 'h' || text[3]
            == 'e') && (forall|k: int| 4 <= k < 68 ==> hex_value(#[trigger] text[k]) is Some)
            ==> parse_encoded(text) is Ok,
{
    crate::text::law_trimming(s);
    if trimmed(s).len() > 0 {
        lemma_trimmed_tight(trimmed(s));
    }
    vstd::utf8::is_ascii_chars_encode_utf8(text);
    if text.len() == 68 {
        lemma_ascii_split(text, 3);
        lemma_ascii_split(text, 4);
        let hex = text.skip(4);
        assert(is_ascii_chars(hex)) by {
            assert forall|k: int| 0 <= k < hex.len() implies '\0' <= #[trigger] hex[k] <= '\u{7f}' by {
                assert(hex[k] == text[k + 4]);
            }
        }
        vstd::utf8::is_ascii_chars_encode_utf8(hex);
        assert(encode_utf8(text)[3] == text[3] as u8);
        law_hex_pairs(hex, 32, i);
        law_hex_pairs(hex, 32, (i - 4) / 2);
        if 4 <= i < 68 {
            assert(hex[i - 4] == text[i]);
            assert(i - 4 == 2 * ((i - 4) / 2) || i - 4 == 2 * ((i - 4) / 2) + 1);
        }
        if forall|k: int| 4 <= k < 68 ==> hex_value(#[trigger] text[k]) is Some {
            assert forall|k: int| 0 <= k < hex.len() implies hex_value(#[trigger] hex[k]) is Some by {
                assert(hex[k] == text[k + 4]);
            }
        }
    }
}

} // verus!
