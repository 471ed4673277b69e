//! Local peer discovery: finding peers on the same network segment.
//!
//! Peers announce themselves by UDP multicast with a short message that looks
//! like an HTTP header. [`LpdAnnounce`] is such a message, [`LpdService`]
//! keeps track of what to announce and of the peers that were heard.

use vstd::prelude::*;
use vstd::string::StringSliceAdditionalSpecFns;
use vstd::utf8::decode_utf8;
use vstd::utf8::encode_utf8;
use vstd::utf8::encode_utf8_decode_utf8;
use vstd::utf8::encode_utf8_valid_utf8;
use vstd::utf8::valid_utf8;

use crate::codec::arrays_equal;
use crate::list::retain;
use crate::text::chars_of;
use crate::text::decimal;
use crate::text::find_char;
use crate::text::first_at;
use crate::text::first_index;
use crate::text::hex_char;
use crate::text::hex_chars;
use crate::text::hex_digit;
use crate::text::hex_value;
use crate::text::is_digit;
use crate::text::is_white_space;
use crate::text::law_parse_decimal;
use crate::text::lemma_decimal_digits;
use crate::text::lemma_first_index;
use crate::text::lemma_hex_value;
use crate::text::parse_decimal;
use crate::text::push_decimal;
use crate::text::push_hex;
use crate::text::read_decimal;
use crate::text::starts_with;
use crate::text::str_equal;
use crate::text::trim;
use crate::text::trim_end;
use crate::text::trim_start;
use crate::text::trimmed;
use crate::time::elapsed;
use crate::time::Instant;

verus! {

/// Multicast group address (IPv4).
pub const LPD_MULTICAST_ADDR: &'static str = "239.192.152.143";

/// Multicast port.
pub const LPD_PORT: u16 = 6771;

/// Time between announces: 5 minutes, in nanoseconds.
pub const ANNOUNCE_INTERVAL_NANOS: u128 = 300_000_000_000;

/// Maximum peers tracked per info hash.
pub const MAX_LPD_PEERS: usize = 50;

/// Header line identifying an announce message.
pub const ANNOUNCE_HEADER: &'static str = "BT-SEARCH * HTTP/1.1";

/// Maximum age before a peer is considered stale: 10 minutes, in nanoseconds.
pub const PEER_STALE_NANOS: u128 = 600_000_000_000;

// ── Announce message ────────────────────────────────────────────────

/// What an announcement says.
#[verifier::ext_equal]
pub struct AnnounceView {
    /// Info hash being announced.
    pub info_hash: Seq<u8>,
    /// Listen port of the announcing peer.
    pub port: u16,
}

/// The text of an announcement.
pub open spec fn announce_text(a: AnnounceView) -> Seq<char> {
    ANNOUNCE_HEADER@ + "\r\nHost: "@ + LPD_MULTICAST_ADDR@ + ":"@ + decimal(LPD_PORT as nat)
        + "\r\nPort: "@ + decimal(a.port as nat) + "\r\nInfohash: "@ + hex_chars(a.info_hash)
        + "\r\n\r\n"@
}

/// The bytes that pairs of hexadecimal digits stand for, if that is what the
/// text consists of.
pub open spec fn hash_from_hex(s: Seq<char>) -> Option<Seq<u8>> {
    if s.len() == 40 && forall|i: int| 0 <= i < 40 ==> hex_value(#[trigger] s[i]) is Some {
        Some(
            Seq::new(
                20,
                |i: int| (hex_value(s[2 * i])->0 * 16 + hex_value(s[2 * i + 1])->0) as u8,
            ),
        )
    } else {
        None
    }
}

/// The fields found so far.
#[verifier::ext_equal]
pub struct FieldsView {
    pub info_hash: Option<Seq<u8>>,
    pub port: Option<nat>,
}

/// The fields after one more line. A later line with the same name counts,
/// even where it makes no sense.
pub open spec fn after_line(fields: FieldsView, line: Seq<char>) -> FieldsView {
    let line = trimmed(line);
    if "Port:"@.is_prefix_of(line) {
        FieldsView { port: parse_decimal(trimmed(line.skip(5)), u16::MAX as nat), ..fields }
    } else if "Infohash:"@.is_prefix_of(line) {
        FieldsView { info_hash: hash_from_hex(trimmed(line.skip(9))), ..fields }
    } else {
        fields
    }
}

/// The fields after all lines.
pub open spec fn after_lines(fields: FieldsView, text: Seq<char>) -> FieldsView
    decreases text.len(),
{
    match first_index(text, '\n') {
        Some(i) => if 0 <= i < text.len() {
            after_lines(after_line(fields, text.take(i)), text.skip(i + 1))
        } else {
            fields
        },
        None => after_line(fields, text),
    }
}

/// What a message text announces, if it is an announcement: it starts with the
/// header and has both fields.
pub open spec fn parse_announce(text: Seq<char>) -> Option<AnnounceView> {
    if !ANNOUNCE_HEADER@.is_prefix_of(text) {
        None
    } else {
        let fields = after_lines(FieldsView { info_hash: None, port: None }, text);
        match (fields.info_hash, fields.port) {
            (Some(info_hash), Some(port)) => Some(AnnounceView { info_hash, port: port as u16 }),
            _ => None,
        }
    }
}

/// Reads bytes as text.
///
/// Calls `std::str::from_utf8` and claims that it gives text exactly for valid
/// UTF-8, and then the text with these bytes.
#[verifier::external_body]
fn utf8_text(data: &[u8]) -> (r: Option<&str>)
    ensures
        match r {
            Some(s) => valid_utf8(data@) && s.spec_bytes() == data@,
            None => !valid_utf8(data@),
        },
{
    std::str::from_utf8(data).ok()
}

/// Parses a hexadecimal info hash of 40 digits.
pub fn parse_hex_hash(hex: &str) -> (r: Option<[u8; 20]>)
    ensures
        match r {
            Some(hash) => hash_from_hex(hex@) == Some(hash@),
            None => hash_from_hex(hex@) is None,
        },
{
    let chars = chars_of(hex);
    read_hex_hash(chars.as_slice())
}

/// Reads a hexadecimal info hash.
fn read_hex_hash(s: &[char]) -> (r: Option<[u8; 20]>)
    ensures
        match r {
            Some(hash) => hash_from_hex(s@) == Some(hash@),
            None => hash_from_hex(s@) is None,
        },
{
    if s.len() != 40 {
        return None;
    }
    let mut result: [u8; 20] = [0; 20];
    let mut i: usize = 0;
    while i < 20
        invariant
            i <= 20,
            s@.len() == 40,
            forall|k: int| 0 <= k < 2 * i ==> hex_value(#[trigger] s@[k]) is Some,
            forall|k: int|
                0 <= k < i ==> #[trigger] result@[k] == (hex_value(s@[2 * k])->0 * 16 + hex_value(
                    s@[2 * k + 1],
                )->0) as u8,
        decreases 20 - i,
    {
        let hi: u8 = match hex_digit(s[2 * i]) {
            Some(d) => d,
            None => return None,
        };
        let lo: u8 = match hex_digit(s[2 * i + 1]) {
            Some(d) => d,
            None => return None,
        };
        result[i] = hi * 16 + lo;
        i += 1;
    }
    assert(result@ == hash_from_hex(s@)->0);
    Some(result)
}

/// A local peer discovery announcement.
#[derive(Debug, Clone, Copy, PartialEq, Eq)]
pub struct LpdAnnounce {
    info_hash: [u8; 20],
    port: u16,
}

impl View for LpdAnnounce {
    type V = AnnounceView;

    closed spec fn view(&self) -> AnnounceView {
        AnnounceView { info_hash: self.info_hash@, port: self.port }
    }
}

impl LpdAnnounce {
    /// Creates a new announcement.
    pub fn new(info_hash: [u8; 20], port: u16) -> (r: LpdAnnounce)
        ensures
            r@ == (AnnounceView { info_hash: info_hash@, port }),
    {
        LpdAnnounce { info_hash, port }
    }

    /// Serialises the announcement into the wire format.
    pub fn to_bytes(&self) -> (r: Vec<u8>)
        ensures
            r@ == encode_utf8(announce_text(self@)),
    {
        let mut text = String::new();
        text.append(ANNOUNCE_HEADER);
        text.append("\r\nHost: ");
        text.append(LPD_MULTICAST_ADDR);
        text.append(":");
        push_decimal(&mut text, LPD_PORT as u64);
        text.append("\r\nPort: ");
        push_decimal(&mut text, self.port as u64);
        text.append("\r\nInfohash: ");
        push_hex(&mut text, &self.info_hash);
        text.append("\r\n\r\n");
        vstd::slice::slice_to_vec(text.as_str().as_bytes())
    }

    /// Parses an announcement from raw bytes.
    ///
    /// Returns `None` if the message is malformed or missing required fields.
    pub fn from_bytes(data: &[u8]) -> (r: Option<LpdAnnounce>)
        ensures
            match r {
                Some(a) => valid_utf8(data@) && parse_announce(decode_utf8(data@)) == Some(a@),
                None => valid_utf8(data@) ==> parse_announce(decode_utf8(data@)) is None,
            },
    {
        let text = match utf8_text(data) {
            Some(s) => s,
            None => return None,
        };
        proof {
            encode_utf8_decode_utf8(text@);
        }
        let chars = chars_of(text);
        if !starts_with(&chars, ANNOUNCE_HEADER) {
            return None;
        }
        let mut port: Option<u64> = None;
        let mut info_hash: Option<[u8; 20]> = None;
        let mut rest: &[char] = chars.as_slice();
        let mut more: bool = true;
        let ghost goal = after_lines(FieldsView { info_hash: None, port: None }, chars@);
        while more
            invariant
                more ==> after_lines(fields_of(info_hash, port), rest@) == goal,
                !more ==> fields_of(info_hash, port) == goal,
                port matches Some(p) ==> p <= u16::MAX,
            decreases rest@.len() + (if more { 1int } else { 0int }),
        {
            let ghost here = rest@;
            let ghost before = fields_of(info_hash, port);
            let n: usize = rest.len();
            let line: &[char];
            match find_char(rest, '\n') {
                Some(i) => {
                    line = vstd::slice::slice_subrange(rest, 0, i);
                    rest = vstd::slice::slice_subrange(rest, i + 1, n);
                    assert(line@ == here.take(i as int));
                    assert(rest@ == here.skip(i + 1));
                },
                None => {
                    line = rest;
                    more = false;
                },
            }
            let ghost whole = line@;
            let line = trim(line);
            if starts_with(line, "Port:") {
                proof {
                    reveal_strlit("Port:");
                }
                let value = vstd::slice::slice_subrange(line, 5, line.len());
                assert(value@ == line@.skip(5));
                port = read_decimal(trim(value), 65535);
            } else if starts_with(line, "Infohash:") {
                proof {
                    reveal_strlit("Infohash:");
                }
                let value = vstd::slice::slice_subrange(line, 9, line.len());
                assert(value@ == line@.skip(9));
                info_hash = read_hex_hash(trim(value));
            }
            assert(fields_of(info_hash, port) == after_line(before, whole));
        }
        match info_hash {
            Some(info_hash) => match port {
                Some(port) => Some(LpdAnnounce { info_hash, port: port as u16 }),
                None => None,
            },
            None => None,
        }
    }

    /// Returns the info hash.
    pub fn info_hash(&self) -> (r: &[u8; 20])
        ensures
            r@ == self@.info_hash,
    {
        &self.info_hash
    }

    /// Returns the listen port.
    pub fn port(&self) -> (r: u16)
        ensures
            r == self@.port,
    {
        self.port
    }
}

/// The model of the fields found so far.
spec fn fields_of(info_hash: Option<[u8; 20]>, port: Option<u64>) -> FieldsView {
    FieldsView {
        info_hash: match info_hash {
            Some(h) => Some(h@),
            None => None,
        },
        port: match port {
            Some(p) => Some(p as nat),
            None => None,
        },
    }
}

// ── Round trip ──────────────────────────────────────────────────────

/// A line is read up to its end.
proof fn lemma_one_line(fields: FieldsView, line: Seq<char>, rest: Seq<char>)
    requires
        !line.contains('\n'),
    ensures
        after_lines(fields, line + seq!['\n'] + rest) == after_lines(
            after_line(fields, line),
            rest,
        ),
{
    let text = line + seq!['\n'] + rest;
    let i = line.len() as int;
    assert(text[i] == '\n');
    assert forall|k: int| 0 <= k < i implies text[k] != '\n' by {
        assert(text[k] == line[k]);
    }
    assert(first_at(text, '\n', i));
    lemma_first_index(text, '\n', i);
    assert(text.take(i) == line);
    assert(text.skip(i + 1) == rest);
}

/// A carriage return at the end of a line and a space before a value do not
/// count.
proof fn lemma_trim_around(core: Seq<char>)
    requires
        core.len() > 0,
        !is_white_space(core[0]),
        !is_white_space(core.last()),
    ensures
        trimmed(core.push('\r')) == core,
        trimmed(seq![' '] + core) == core,
{
    let ended = core.push('\r');
    assert(trim_start(ended) == ended);
    assert(ended.drop_last() == core);
    assert(trim_end(core) == core);
    let indented = seq![' '] + core;
    assert(indented.drop_first() == core);
    assert(trim_start(core) == core);
}

/// A text starts with what stands in front of it.
proof fn lemma_starts(head: Seq<char>, tail: Seq<char>)
    ensures
        head.is_prefix_of(head + tail),
        (head + tail).skip(head.len() as int) == tail,
{
    assert((head + tail).subrange(0, head.len() as int) == head);
    assert((head + tail).skip(head.len() as int) == tail);
}

/// A line that starts with another letter is no field.
proof fn lemma_other_line(fields: FieldsView, line: Seq<char>)
    requires
        line.len() > 0,
        !is_white_space(line[0]),
        !is_white_space(line.last()),
        line[0] != 'P',
        line[0] != 'I',
    ensures
        after_line(fields, line.push('\r')) == fields,
{
    reveal_strlit("Port:");
    reveal_strlit("Infohash:");
    lemma_trim_around(line);
    assert("Port:"@[0] == 'P');
    assert("Infohash:"@[0] == 'I');
    if "Port:"@.is_prefix_of(line) {
        assert(line.subrange(0, 5)[0] == line[0]);
    }
    if "Infohash:"@.is_prefix_of(line) {
        assert(line.subrange(0, 9)[0] == line[0]);
    }
}

/// The port line gives the port.
proof fn lemma_port_line(fields: FieldsView, port: u16)
    ensures
        after_line(fields, ("Port: "@ + decimal(port as nat)).push('\r')) == (FieldsView {
            port: Some(port as nat),
            ..fields
        }),
        !("Port: "@ + decimal(port as nat)).push('\r').contains('\n'),
{
    let value = decimal(port as nat);
    lemma_decimal_digits(port as nat);
    law_parse_decimal(port as nat, u16::MAX as nat);
    reveal_strlit("Port:");
    reveal_strlit("Port: ");
    let line = "Port: "@ + value;
    assert(line.last() == value.last());
    assert(is_digit(value.last()));
    assert(is_digit(value[0]));
    lemma_trim_around(line);
    lemma_trim_around(value);
    assert("Port: "@ == "Port:"@ + seq![' ']);
    assert(line == "Port:"@ + (seq![' '] + value));
    lemma_starts("Port:"@, seq![' '] + value);
    let whole = line.push('\r');
    assert forall|i: int| 0 <= i < whole.len() implies whole[i] != '\n' by {
        if 6 <= i < whole.len() - 1 {
            assert(whole[i] == value[i - 6]);
            assert(is_digit(value[i - 6]));
        }
    }
}

/// Hexadecimal digits of a byte string.
proof fn lemma_hex_text(hash: Seq<u8>)
    requires
        hash.len() == 20,
    ensures
        hex_chars(hash).len() == 40,
        hash_from_hex(hex_chars(hash)) == Some(hash),
        forall|i: int|
            0 <= i < 40 ==> !is_white_space(#[trigger] hex_chars(hash)[i]) && hex_chars(hash)[i]
                != '\n',
{
    let s = hex_chars(hash);
    assert forall|i: int| 0 <= i < 40 implies hex_value(#[trigger] s[i]) is Some
        && !is_white_space(s[i]) by {
        let b = hash[i / 2];
        lemma_hex_value(b / 16);
        lemma_hex_value(b % 16);
        if i % 2 == 0 {
            assert(s[2 * (i / 2)] == hex_char(b / 16));
        } else {
            assert(s[2 * (i / 2) + 1] == hex_char(b % 16));
        }
    }
    let back = hash_from_hex(s)->0;
    assert forall|i: int| 0 <= i < 20 implies back[i] == hash[i] by {
        lemma_hex_value(hash[i] / 16);
        lemma_hex_value(hash[i] % 16);
    }
    assert(back == hash);
}

/// The info hash line gives the info hash.
proof fn lemma_hash_line(fields: FieldsView, hash: Seq<u8>)
    requires
        hash.len() == 20,
    ensures
        after_line(fields, ("Infohash: "@ + hex_chars(hash)).push('\r')) == (FieldsView {
            info_hash: Some(hash),
            ..fields
        }),
        !("Infohash: "@ + hex_chars(hash)).push('\r').contains('\n'),
{
    let value = hex_chars(hash);
    lemma_hex_text(hash);
    reveal_strlit("Port:");
    reveal_strlit("Infohash:");
    reveal_strlit("Infohash: ");
    let line = "Infohash: "@ + value;
    assert(line.last() == value.last());
    lemma_trim_around(line);
    lemma_trim_around(value);
    assert("Infohash: "@ == "Infohash:"@ + seq![' ']);
    assert(line == "Infohash:"@ + (seq![' '] + value));
    lemma_starts("Infohash:"@, seq![' '] + value);
    if "Port:"@.is_prefix_of(line) {
        assert(line.subrange(0, 5)[0] == line[0]);
    }
    let whole = line.push('\r');
    assert forall|i: int| 0 <= i < whole.len() implies whole[i] != '\n' by {
        if 10 <= i < whole.len() - 1 {
            assert(whole[i] == value[i - 10]);
        }
    }
}

/// The host line, without its end.
spec fn host_line() -> Seq<char> {
    "Host: "@ + LPD_MULTICAST_ADDR@ + ":"@ + decimal(LPD_PORT as nat)
}

/// An announcement is made of these lines.
proof fn lemma_announce_lines(a: AnnounceView)
    ensures
        announce_text(a) == ANNOUNCE_HEADER@.push('\r') + seq!['\n'] + (host_line().push('\r')
            + seq!['\n'] + (("Port: "@ + decimal(a.port as nat)).push('\r') + seq!['\n'] + ((
        "Infohash: "@ + hex_chars(a.info_hash)).push('\r') + seq!['\n'] + (seq!['\r'] + seq![
            '\n',
        ] + Seq::empty())))),
{
    reveal_strlit("\r\nHost: ");
    reveal_strlit("Host: ");
    reveal_strlit("\r\nPort: ");
    reveal_strlit("Port: ");
    reveal_strlit("\r\nInfohash: ");
    reveal_strlit("Infohash: ");
    reveal_strlit("\r\n\r\n");
    let cr = seq!['\r'];
    let lf = seq!['\n'];
    assert("\r\nHost: "@ == cr + lf + "Host: "@);
    assert("\r\nPort: "@ == cr + lf + "Port: "@);
    assert("\r\nInfohash: "@ == cr + lf + "Infohash: "@);
    assert("\r\n\r\n"@ == cr + lf + (cr + lf + Seq::empty()));
    lemma_lay_out(
        ANNOUNCE_HEADER@,
        "Host: "@,
        LPD_MULTICAST_ADDR@,
        ":"@,
        decimal(LPD_PORT as nat),
        "Port: "@,
        decimal(a.port as nat),
        "Infohash: "@,
        hex_chars(a.info_hash),
    );
}

/// Text laid out part by part is the same text laid out line by line.
proof fn lemma_lay_out(
    header: Seq<char>,
    host: Seq<char>,
    addr: Seq<char>,
    colon: Seq<char>,
    host_port: Seq<char>,
    port: Seq<char>,
    port_value: Seq<char>,
    hash: Seq<char>,
    hash_value: Seq<char>,
)
    ensures
        header + (seq!['\r'] + seq!['\n'] + host) + addr + colon + host_port + (seq!['\r'] + seq![
            '\n',
        ] + port) + port_value + (seq!['\r'] + seq!['\n'] + hash) + hash_value + (seq!['\r']
            + seq!['\n'] + (seq!['\r'] + seq!['\n'] + Seq::empty())) == header.push('\r') + seq![
            '\n',
        ] + ((host + addr + colon + host_port).push('\r') + seq!['\n'] + ((port
            + port_value).push('\r') + seq!['\n'] + ((hash + hash_value).push('\r') + seq!['\n'] + (
        seq!['\r'] + seq!['\n'] + Seq::empty())))),
{
}

/// An announcement that was serialised parses back to itself.
pub proof fn law_announce_round_trip(a: AnnounceView)
    requires
        a.info_hash.len() == 20,
    ensures
        valid_utf8(encode_utf8(announce_text(a))),
        parse_announce(decode_utf8(encode_utf8(announce_text(a)))) == Some(a),
{
    let text = announce_text(a);
    encode_utf8_valid_utf8(text);
    encode_utf8_decode_utf8(text);
    lemma_announce_lines(a);
    let header = ANNOUNCE_HEADER@;
    let none = FieldsView { info_hash: None, port: None };
    let host = host_line();
    let port = ("Port: "@ + decimal(a.port as nat)).push('\r');
    let hash = ("Infohash: "@ + hex_chars(a.info_hash)).push('\r');
    let end = seq!['\r'];
    let rest4 = end + seq!['\n'] + Seq::empty();
    let rest3 = hash + seq!['\n'] + rest4;
    let rest2 = port + seq!['\n'] + rest3;
    let rest1 = host.push('\r') + seq!['\n'] + rest2;
    assert(text == header.push('\r') + seq!['\n'] + rest1);
    assert(header.is_prefix_of(text)) by {
        assert(text.subrange(0, header.len() as int) == header);
    }
    reveal_strlit("BT-SEARCH * HTTP/1.1");
    assert(!header.push('\r').contains('\n'));
    lemma_one_line(none, header.push('\r'), rest1);
    lemma_other_line(none, header);
    lemma_decimal_digits(LPD_PORT as nat);
    reveal_strlit("Host: ");
    reveal_strlit("239.192.152.143");
    reveal_strlit(":");
    let digits = decimal(LPD_PORT as nat);
    assert(host.last() == digits.last());
    assert(is_digit(digits.last()));
    assert(host[0] == 'H');
    let host_end = host.push('\r');
    assert forall|i: int| 0 <= i < host_end.len() implies host_end[i] != '\n' by {
        if 22 <= i < host_end.len() - 1 {
            assert(host_end[i] == digits[i - 22]);
            assert(is_digit(digits[i - 22]));
        }
    }
    assert(!host_end.contains('\n'));
    lemma_one_line(none, host_end, rest2);
    lemma_other_line(none, host);
    lemma_port_line(none, a.port);
    lemma_one_line(none, port, rest3);
    let with_port = FieldsView { port: Some(a.port as nat), ..none };
    lemma_hash_line(with_port, a.info_hash);
    lemma_one_line(with_port, hash, rest4);
    let with_both = FieldsView { info_hash: Some(a.info_hash), ..with_port };
    assert(!end.contains('\n'));
    lemma_one_line(with_both, end, Seq::empty());
    lemma_blank_line(with_both);
}

/// Blank lines are no fields.
proof fn lemma_blank_line(fields: FieldsView)
    ensures
        after_line(fields, seq!['\r']) == fields,
        after_lines(fields, Seq::empty()) == fields,
{
    reveal_strlit("Port:");
    reveal_strlit("Infohash:");
    let none = Seq::<char>::empty();
    assert(seq!['\r'].drop_first() == none);
    assert(trim_start(none) == none);
    assert(trim_start(seq!['\r']) == none);
    assert(trim_end(none) == none);
    assert(first_index(none, '\n') is None);
}

// ── Discovered peers ────────────────────────────────────────────────

/// What is known of a discovered peer.
#[verifier::ext_equal]
pub struct LpdPeerView {
    /// Source IP address.
    pub ip: Seq<char>,
    /// Listen port.
    pub port: u16,
    /// When the peer was first discovered.
    pub discovered_at: Instant,
    /// When the last announce came from the peer.
    pub last_seen: Instant,
}

impl LpdPeerView {
    /// Nothing was heard from the peer for longer than the limit.
    pub open spec fn stale(self, now: Instant) -> bool {
        elapsed(now, self.last_seen) > PEER_STALE_NANOS
    }

    /// The peer at this address.
    pub open spec fn is(self, ip: Seq<char>, port: u16) -> bool {
        self.ip == ip && self.port == port
    }
}

/// A peer discovered via local peer discovery.
#[derive(Debug, Clone)]
pub struct LpdPeer {
    ip: String,
    port: u16,
    discovered_at: Instant,
    last_seen: Instant,
}

impl View for LpdPeer {
    type V = LpdPeerView;

    closed spec fn view(&self) -> LpdPeerView {
        LpdPeerView {
            ip: self.ip@,
            port: self.port,
            discovered_at: self.discovered_at,
            last_seen: self.last_seen,
        }
    }
}

impl LpdPeer {
    /// Creates a new peer record.
    pub fn new(ip: String, port: u16, now: Instant) -> (r: LpdPeer)
        ensures
            r@ == (LpdPeerView { ip: ip@, port, discovered_at: now, last_seen: now }),
    {
        LpdPeer { ip, port, discovered_at: now, last_seen: now }
    }

    /// Returns the peer's IP address.
    pub fn ip(&self) -> (r: &str)
        ensures
            r@ == self@.ip,
    {
        self.ip.as_str()
    }

    /// Returns the peer's listen port.
    pub fn port(&self) -> (r: u16)
        ensures
            r == self@.port,
    {
        self.port
    }

    /// Returns when this peer was first discovered.
    pub fn discovered_at(&self) -> (r: Instant)
        ensures
            r == self@.discovered_at,
    {
        self.discovered_at
    }

    /// Returns when this peer was last heard.
    pub fn last_seen(&self) -> (r: Instant)
        ensures
            r == self@.last_seen,
    {
        self.last_seen
    }

    /// Returns whether this peer is stale.
    pub fn is_stale(&self, now: Instant) -> (r: bool)
        ensures
            r == self@.stale(now),
    {
        now.duration_since(self.last_seen).nanos > PEER_STALE_NANOS
    }

    /// Updates the last-seen timestamp.
    pub fn refresh(&mut self, now: Instant)
        ensures
            final(self)@ == (LpdPeerView { last_seen: now, ..old(self)@ }),
    {
        self.last_seen = now;
    }
}

// ── Service ─────────────────────────────────────────────────────────

/// What is known of one info hash.
#[verifier::ext_equal]
pub struct SubscriptionView {
    /// The info hash being tracked.
    pub info_hash: Seq<u8>,
    /// The port that is announced for it.
    pub port: u16,
    /// When it was last announced.
    pub last_announce: Option<Instant>,
    /// Peers that were heard.
    pub peers: Seq<LpdPeerView>,
}

/// The model of a list of peers.
pub open spec fn peer_views(peers: Seq<LpdPeer>) -> Seq<LpdPeerView> {
    Seq::new(peers.len(), |i: int| peers[i]@)
}

/// The peer at `i` has this address.
pub open spec fn peer_at(peers: Seq<LpdPeerView>, ip: Seq<char>, port: u16, i: int) -> bool {
    0 <= i < peers.len() && peers[i].is(ip, port)
}

/// The peers after an announce was heard: a known peer is refreshed, a new one
/// is added if there is room.
pub open spec fn heard(
    peers: Seq<LpdPeerView>,
    ip: Seq<char>,
    port: u16,
    now: Instant,
) -> Seq<LpdPeerView> {
    if exists|i: int| peer_at(peers, ip, port, i) {
        let i = choose|i: int| peer_at(peers, ip, port, i);
        peers.update(i, LpdPeerView { last_seen: now, ..peers[i] })
    } else if peers.len() >= MAX_LPD_PEERS {
        peers
    } else {
        peers.push(LpdPeerView { ip, port, discovered_at: now, last_seen: now })
    }
}

/// No address twice, and not too many.
pub open spec fn peers_wf(peers: Seq<LpdPeerView>) -> bool {
    &&& peers.len() <= MAX_LPD_PEERS
    &&& forall|i: int, j: int|
        0 <= i < j < peers.len() ==> !(#[trigger] peers[i]).is(
            (#[trigger] peers[j]).ip,
            peers[j].port,
        )
}

/// The peers that are not stale.
pub open spec fn fresh_peers(peers: Seq<LpdPeerView>, now: Instant) -> Seq<LpdPeerView>
    decreases peers.len(),
{
    if peers.len() == 0 {
        Seq::empty()
    } else {
        let rest = fresh_peers(peers.drop_last(), now);
        if peers.last().stale(now) {
            rest
        } else {
            rest.push(peers.last())
        }
    }
}

impl SubscriptionView {
    /// Never announced, or long enough ago.
    pub open spec fn is_due(self, now: Instant) -> bool {
        match self.last_announce {
            Some(last) => elapsed(now, last) >= ANNOUNCE_INTERVAL_NANOS,
            None => true,
        }
    }
}

/// A single info hash subscription with its peer list and timing.
#[derive(Debug)]
struct LpdSubscription {
    info_hash: [u8; 20],
    port: u16,
    last_announce: Option<Instant>,
    peers: Vec<LpdPeer>,
}

impl View for LpdSubscription {
    type V = SubscriptionView;

    closed spec fn view(&self) -> SubscriptionView {
        SubscriptionView {
            info_hash: self.info_hash@,
            port: self.port,
            last_announce: self.last_announce,
            peers: peer_views(self.peers@),
        }
    }
}

/// The subscription at `i` is for this info hash.
pub open spec fn sub_at(subs: Seq<SubscriptionView>, info_hash: Seq<u8>, i: int) -> bool {
    0 <= i < subs.len() && subs[i].info_hash == info_hash
}

/// Where the subscription for an info hash stands.
pub open spec fn sub_place(subs: Seq<SubscriptionView>, info_hash: Seq<u8>) -> Option<int> {
    if exists|i: int| sub_at(subs, info_hash, i) {
        Some(choose|i: int| sub_at(subs, info_hash, i))
    } else {
        None
    }
}

/// No info hash twice, and peers in order.
pub open spec fn subs_wf(subs: Seq<SubscriptionView>) -> bool {
    &&& forall|i: int, j: int|
        0 <= i < j < subs.len() ==> (#[trigger] subs[i]).info_hash != (
        #[trigger] subs[j]).info_hash
    &&& forall|i: int| 0 <= i < subs.len() ==> peers_wf((#[trigger] subs[i]).peers)
}

/// The announcements that are due, in order.
pub open spec fn due_announces(subs: Seq<SubscriptionView>, now: Instant) -> Seq<AnnounceView>
    decreases subs.len(),
{
    if subs.len() == 0 {
        Seq::empty()
    } else {
        let rest = due_announces(subs.drop_last(), now);
        if subs.last().is_due(now) {
            rest.push(AnnounceView { info_hash: subs.last().info_hash, port: subs.last().port })
        } else {
            rest
        }
    }
}

/// How many peers there are in all.
pub open spec fn peer_total(subs: Seq<SubscriptionView>) -> nat
    decreases subs.len(),
{
    if subs.len() == 0 {
        0
    } else {
        peer_total(subs.drop_last()) + subs.last().peers.len()
    }
}

/// The subscriptions without stale peers.
pub open spec fn pruned(subs: Seq<SubscriptionView>, now: Instant) -> Seq<SubscriptionView> {
    Seq::new(
        subs.len(),
        |i: int| SubscriptionView { peers: fresh_peers(subs[i].peers, now), ..subs[i] },
    )
}

/// The model of a list of announcements.
pub open spec fn announce_views(announces: Seq<LpdAnnounce>) -> Seq<AnnounceView> {
    Seq::new(announces.len(), |i: int| announces[i]@)
}

/// Peers behind references.
pub open spec fn referred_peers(peers: Seq<&LpdPeer>) -> Seq<LpdPeerView> {
    Seq::new(peers.len(), |i: int| peers[i]@)
}

/// A subscription stands in one place at most.
proof fn lemma_sub_place(subs: Seq<SubscriptionView>, info_hash: Seq<u8>, i: int)
    requires
        subs_wf(subs),
        sub_at(subs, info_hash, i),
    ensures
        sub_place(subs, info_hash) == Some(i),
{
    let j = choose|j: int| sub_at(subs, info_hash, j);
    assert(sub_at(subs, info_hash, j));
    if i < j {
        assert(subs[i].info_hash != subs[j].info_hash);
    } else if j < i {
        assert(subs[j].info_hash != subs[i].info_hash);
    }
}

/// A peer stands in one place at most.
proof fn lemma_heard_known(
    peers: Seq<LpdPeerView>,
    ip: Seq<char>,
    port: u16,
    now: Instant,
    i: int,
)
    requires
        peers_wf(peers),
        peer_at(peers, ip, port, i),
    ensures
        heard(peers, ip, port, now) == peers.update(
            i,
            LpdPeerView { last_seen: now, ..peers[i] },
        ),
{
    let j = choose|j: int| peer_at(peers, ip, port, j);
    assert(peer_at(peers, ip, port, j));
    if i < j {
        assert(!peers[i].is(peers[j].ip, peers[j].port));
    } else if j < i {
        assert(!peers[j].is(peers[i].ip, peers[i].port));
    }
}

/// What was heard keeps the peer list in order.
proof fn lemma_heard_wf(peers: Seq<LpdPeerView>, ip: Seq<char>, port: u16, now: Instant)
    requires
        peers_wf(peers),
    ensures
        peers_wf(heard(peers, ip, port, now)),
{
    let after = heard(peers, ip, port, now);
    if exists|i: int| peer_at(peers, ip, port, i) {
        let i = choose|i: int| peer_at(peers, ip, port, i);
        assert forall|a: int, b: int| 0 <= a < b < after.len() implies !(#[trigger] after[a]).is(
            (#[trigger] after[b]).ip,
            after[b].port,
        ) by {
            assert(!peers[a].is(peers[b].ip, peers[b].port));
        }
    } else if peers.len() < MAX_LPD_PEERS {
        assert forall|a: int, b: int| 0 <= a < b < after.len() implies !(#[trigger] after[a]).is(
            (#[trigger] after[b]).ip,
            after[b].port,
        ) by {
            assert(!peer_at(peers, ip, port, a));
            if b < peers.len() {
                assert(!peers[a].is(peers[b].ip, peers[b].port));
            }
        }
    }
}

/// Pruning keeps what is left in order.
proof fn lemma_fresh_peers(peers: Seq<LpdPeerView>, now: Instant)
    requires
        peers_wf(peers),
    ensures
        peers_wf(fresh_peers(peers, now)),
        fresh_peers(peers, now).len() <= peers.len(),
        forall|i: int|
            0 <= i < fresh_peers(peers, now).len() ==> peers.contains(
                #[trigger] fresh_peers(peers, now)[i],
            ) && !fresh_peers(peers, now)[i].stale(now),
    decreases peers.len(),
{
    if peers.len() > 0 {
        let front = peers.drop_last();
        let last = peers.last();
        let rest = fresh_peers(front, now);
        lemma_fresh_peers(front, now);
        assert forall|i: int| 0 <= i < rest.len() implies peers.contains(#[trigger] rest[i]) by {
            let k = choose|k: int| 0 <= k < front.len() && front[k] == rest[i];
            assert(peers[k] == rest[i]);
        }
        assert(peers[peers.len() - 1] == last);
        assert(peers.contains(last));
        if !last.stale(now) {
            let all = rest.push(last);
            assert forall|a: int, b: int| 0 <= a < b < all.len() implies !(#[trigger] all[a]).is(
                (#[trigger] all[b]).ip,
                all[b].port,
            ) by {
                if b < rest.len() {
                    assert(!rest[a].is(rest[b].ip, rest[b].port));
                } else {
                    let k = choose|k: int| 0 <= k < front.len() && front[k] == rest[a];
                    assert(front.contains(rest[a]));
                    assert(!peers[k].is(peers[peers.len() - 1].ip, peers[peers.len() - 1].port));
                }
            }
        }
    }
}

/// Filtering records filters what is known of them.
proof fn lemma_filter_peers(peers: Seq<LpdPeer>, now: Instant)
    ensures
        peer_views(peers.filter(|p: LpdPeer| !p@.stale(now))) == fresh_peers(
            peer_views(peers),
            now,
        ),
    decreases peers.len(),
{
    reveal(Seq::filter);
    let keep = |p: LpdPeer| !p@.stale(now);
    if peers.len() > 0 {
        lemma_filter_peers(peers.drop_last(), now);
        assert(peer_views(peers).drop_last() == peer_views(peers.drop_last()));
        let rest = peers.drop_last().filter(keep);
        if keep(peers.last()) {
            assert(peer_views(rest.push(peers.last())) == peer_views(rest).push(peers.last()@));
        }
    }
}

/// Manages announcements and discovered peers for a set of info hashes.
pub struct LpdService {
    subscriptions: Vec<LpdSubscription>,
}

/// The subscriptions in the order in which they were made.
impl View for LpdService {
    type V = Seq<SubscriptionView>;

    closed spec fn view(&self) -> Seq<SubscriptionView> {
        Seq::new(self.subscriptions@.len(), |i: int| self.subscriptions@[i]@)
    }
}

impl LpdService {
    /// No info hash twice, no peer twice, not too many peers.
    pub open spec fn wf(self) -> bool {
        subs_wf(self@)
    }

    /// Creates a new service with no subscriptions.
    pub fn new() -> (r: LpdService)
        ensures
            r.wf(),
            r@ == Seq::<SubscriptionView>::empty(),
    {
        LpdService { subscriptions: Vec::new() }
    }

    /// Finds a subscription.
    fn find(&self, info_hash: &[u8; 20]) -> (r: Option<usize>)
        requires
            self.wf(),
        ensures
            match r {
                Some(i) => i < self@.len() && sub_place(self@, info_hash@) == Some(i as int),
                None => sub_place(self@, info_hash@) is None,
            },
    {
        let mut i: usize = 0;
        while i < self.subscriptions.len()
            invariant
                self.wf(),
                self@.len() == self.subscriptions@.len(),
                i <= self.subscriptions@.len(),
                forall|k: int| 0 <= k < i ==> !#[trigger] sub_at(self@, info_hash@, k),
            decreases self.subscriptions@.len() - i,
        {
            assert(self@[i as int] == self.subscriptions@[i as int]@);
            if arrays_equal(&self.subscriptions[i].info_hash, info_hash) {
                proof {
                    assert(sub_at(self@, info_hash@, i as int));
                    lemma_sub_place(self@, info_hash@, i as int);
                }
                return Some(i);
            }
            i += 1;
        }
        None
    }

    /// Subscribes to announcements for an info hash. A subscription that is
    /// already there stays as it is.
    pub fn subscribe(&mut self, info_hash: [u8; 20], port: u16)
        requires
            old(self).wf(),
        ensures
            final(self).wf(),
            final(self)@ == (if sub_place(old(self)@, info_hash@) is Some {
                old(self)@
            } else {
                old(self)@.push(
                    SubscriptionView {
                        info_hash: info_hash@,
                        port,
                        last_announce: None,
                        peers: Seq::empty(),
                    },
                )
            }),
    {
        let ghost start = self@;
        if self.find(&info_hash).is_some() {
            return;
        }
        proof {
            assert forall|i: int| 0 <= i < start.len() implies (#[trigger] start[i]).info_hash
                != info_hash@ by {
                assert(!sub_at(start, info_hash@, i));
            }
        }
        let sub = LpdSubscription { info_hash, port, last_announce: None, peers: Vec::new() };
        assert(sub@.peers == Seq::<LpdPeerView>::empty());
        let ghost view = sub@;
        self.subscriptions.push(sub);
        assert(self@ == start.push(view));
    }

    /// Unsubscribes from an info hash.
    pub fn unsubscribe(&mut self, info_hash: &[u8; 20])
        requires
            old(self).wf(),
        ensures
            final(self).wf(),
            final(self)@ == (match sub_place(old(self)@, info_hash@) {
                Some(i) => old(self)@.remove(i),
                None => old(self)@,
            }),
    {
        let ghost start = self@;
        match self.find(info_hash) {
            Some(i) => {
                self.subscriptions.remove(i);
                assert(self@ == start.remove(i as int));
            },
            None => {},
        }
    }

    /// Returns announce messages that are due to be sent.
    pub fn pending_announces(&self, now: Instant) -> (r: Vec<LpdAnnounce>)
        ensures
            announce_views(r@) == due_announces(self@, now),
    {
        let mut result: Vec<LpdAnnounce> = Vec::new();
        let mut i: usize = 0;
        assert(self@.take(0) == Seq::<SubscriptionView>::empty());
        while i < self.subscriptions.len()
            invariant
                self@.len() == self.subscriptions@.len(),
                i <= self.subscriptions@.len(),
                announce_views(result@) == due_announces(self@.take(i as int), now),
            decreases self.subscriptions@.len() - i,
        {
            let sub = &self.subscriptions[i];
            proof {
                assert(self@[i as int] == sub@);
                assert(self@.take(i + 1).drop_last() == self@.take(i as int));
            }
            let due = match sub.last_announce {
                Some(last) => now.duration_since(last).nanos >= ANNOUNCE_INTERVAL_NANOS,
                None => true,
            };
            if due {
                let announce = LpdAnnounce::new(sub.info_hash, sub.port);
                let ghost before = result@;
                result.push(announce);
                assert(announce_views(result@) == announce_views(before).push(announce@));
            }
            i += 1;
        }
        assert(self@.take(i as int) == self@);
        result
    }

    /// Records that an announce was sent.
    pub fn mark_announced(&mut self, info_hash: &[u8; 20], now: Instant)
        requires
            old(self).wf(),
        ensures
            final(self).wf(),
            final(self)@ == (match sub_place(old(self)@, info_hash@) {
                Some(i) => old(self)@.update(
                    i,
                    SubscriptionView { last_announce: Some(now), ..old(self)@[i] },
                ),
                None => old(self)@,
            }),
    {
        let ghost start = self@;
        match self.find(info_hash) {
            Some(i) => {
                self.subscriptions[i].last_announce = Some(now);
                assert(self@ == start.update(
                    i as int,
                    SubscriptionView { last_announce: Some(now), ..start[i as int] },
                ));
            },
            None => {},
        }
    }

    /// Processes a received announcement.
    ///
    /// A peer that announces a subscribed info hash is added, or refreshed if
    /// it is known.
    pub fn handle_announce(&mut self, announce: &LpdAnnounce, source_ip: &str, now: Instant)
        requires
            old(self).wf(),
        ensures
            final(self).wf(),
            final(self)@ == (match sub_place(old(self)@, announce@.info_hash) {
                Some(i) => old(self)@.update(
                    i,
                    SubscriptionView {
                        peers: heard(old(self)@[i].peers, source_ip@, announce@.port, now),
                        ..old(self)@[i]
                    },
                ),
                None => old(self)@,
            }),
    {
        let ghost start = self@;
        match self.find(announce.info_hash()) {
            Some(i) => {
                let ghost peers = start[i as int].peers;
                assert(self.subscriptions@[i as int]@ == start[i as int]);
                proof {
                    lemma_heard_wf(peers, source_ip@, announce@.port, now);
                }
                hear(&mut self.subscriptions[i].peers, source_ip, announce.port(), now);
                assert(self@ == start.update(
                    i as int,
                    SubscriptionView {
                        peers: heard(peers, source_ip@, announce@.port, now),
                        ..start[i as int]
                    },
                ));
            },
            None => {},
        }
    }

    /// Returns discovered peers for an info hash.
    pub fn peers_for(&self, info_hash: &[u8; 20]) -> (r: Vec<&LpdPeer>)
        requires
            self.wf(),
        ensures
            referred_peers(r@) == (match sub_place(self@, info_hash@) {
                Some(i) => self@[i].peers,
                None => Seq::empty(),
            }),
    {
        let mut result: Vec<&LpdPeer> = Vec::new();
        match self.find(info_hash) {
            Some(at) => {
                let peers = &self.subscriptions[at].peers;
                assert(self@[at as int].peers == peer_views(peers@));
                let mut i: usize = 0;
                while i < peers.len()
                    invariant
                        i <= peers@.len(),
                        referred_peers(result@) == peer_views(peers@).take(i as int),
                    decreases peers@.len() - i,
                {
                    let ghost before = result@;
                    result.push(&peers[i]);
                    assert(referred_peers(result@) == referred_peers(before).push(
                        peers@[i as int]@,
                    ));
                    i += 1;
                }
                assert(peer_views(peers@).take(i as int) == peer_views(peers@));
            },
            None => {},
        }
        result
    }

    /// Prunes stale peers from all subscriptions. Returns how many there were,
    /// or the largest number that can be returned.
    pub fn prune_stale(&mut self, now: Instant) -> (r: usize)
        requires
            old(self).wf(),
        ensures
            final(self).wf(),
            final(self)@ == pruned(old(self)@, now),
            ({
                let gone = peer_total(old(self)@) - peer_total(pruned(old(self)@, now));
                r == if gone <= usize::MAX {
                    gone
                } else {
                    usize::MAX as int
                }
            }),
    {
        let ghost start = self@;
        let mut total: usize = 0;
        let mut i: usize = 0;
        assert(start.take(0) == Seq::<SubscriptionView>::empty());
        assert(pruned(start, now).take(0) == Seq::<SubscriptionView>::empty());
        while i < self.subscriptions.len()
            invariant
                subs_wf(start),
                self@.len() == self.subscriptions@.len(),
                self@.len() == start.len(),
                i <= self.subscriptions@.len(),
                forall|k: int| 0 <= k < i ==> #[trigger] self@[k] == pruned(start, now)[k],
                forall|k: int| i <= k < start.len() ==> #[trigger] self@[k] == start[k],
                ({
                    let gone = peer_total(start.take(i as int)) - peer_total(
                        pruned(start, now).take(i as int),
                    );
                    total == if gone <= usize::MAX {
                        gone
                    } else {
                        usize::MAX as int
                    }
                }),
            decreases self.subscriptions@.len() - i,
        {
            let ghost here = self@;
            let ghost at = i as int;
            proof {
                assert(self.subscriptions@[at]@ == start[at]) by {
                    assert(self@[at] == start[at]);
                }
                lemma_fresh_peers(start[at].peers, now);
                lemma_filter_peers(self.subscriptions@[at].peers@, now);
                assert(start.take(at + 1).drop_last() == start.take(at));
                assert(pruned(start, now).take(at + 1).drop_last() == pruned(start, now).take(at));
            }
            let before: usize = self.subscriptions[i].peers.len();
            let keep = |p: &LpdPeer| -> (kept: bool)
                ensures
                    kept == !p@.stale(now),
            {
                !p.is_stale(now)
            };
            retain(
                &mut self.subscriptions[i].peers,
                keep,
                Ghost(|p: LpdPeer| !p@.stale(now)),
            );
            let after: usize = self.subscriptions[i].peers.len();
            total = total.saturating_add(before - after);
            proof {
                assert(self.subscriptions@[at]@ == pruned(start, now)[at]);
                assert forall|k: int| 0 <= k < start.len() && k != at implies #[trigger] self@[k]
                    == here[k] by {}
            }
            i += 1;
        }
        proof {
            assert(start.take(i as int) == start);
            assert(pruned(start, now).take(i as int) == pruned(start, now));
            assert(self@ == pruned(start, now));
            assert forall|k: int| 0 <= k < start.len() implies peers_wf(
                (#[trigger] pruned(start, now)[k]).peers,
            ) by {
                lemma_fresh_peers(start[k].peers, now);
            }
        }
        total
    }

    /// Returns the number of active subscriptions.
    pub fn subscription_count(&self) -> (r: usize)
        ensures
            r == self@.len(),
    {
        self.subscriptions.len()
    }

    /// Returns total discovered peers across all subscriptions.
    pub fn total_peer_count(&self) -> (r: usize)
        requires
            peer_total(self@) <= usize::MAX,
        ensures
            r == peer_total(self@),
    {
        let mut total: usize = 0;
        let mut i: usize = 0;
        assert(self@.take(0) == Seq::<SubscriptionView>::empty());
        while i < self.subscriptions.len()
            invariant
                self@.len() == self.subscriptions@.len(),
                i <= self.subscriptions@.len(),
                total == peer_total(self@.take(i as int)),
                peer_total(self@) <= usize::MAX,
            decreases self.subscriptions@.len() - i,
        {
            proof {
                assert(self@[i as int] == self.subscriptions@[i as int]@);
                assert(self@.take(i + 1).drop_last() == self@.take(i as int));
                lemma_peer_total_grows(self@, i + 1);
            }
            total = total + self.subscriptions[i].peers.len();
            i += 1;
        }
        assert(self@.take(i as int) == self@);
        total
    }
}

/// The first subscriptions have no more peers than all of them.
proof fn lemma_peer_total_grows(subs: Seq<SubscriptionView>, n: int)
    requires
        0 <= n <= subs.len(),
    ensures
        peer_total(subs.take(n)) <= peer_total(subs),
    decreases subs.len() - n,
{
    if n < subs.len() {
        lemma_peer_total_grows(subs, n + 1);
        assert(subs.take(n + 1).drop_last() == subs.take(n));
    } else {
        assert(subs.take(n) == subs);
    }
}

/// Records an announce in a peer list.
fn hear(peers: &mut Vec<LpdPeer>, source_ip: &str, port: u16, now: Instant)
    requires
        peers_wf(peer_views(old(peers)@)),
    ensures
        peer_views(final(peers)@) == heard(peer_views(old(peers)@), source_ip@, port, now),
{
    let ghost start = peer_views(peers@);
    let mut i: usize = 0;
    while i < peers.len()
        invariant
            peers_wf(start),
            start == peer_views(peers@),
            start == peer_views(old(peers)@),
            i <= peers@.len(),
            forall|k: int| 0 <= k < i ==> !#[trigger] peer_at(start, source_ip@, port, k),
        decreases peers@.len() - i,
    {
        assert(start[i as int] == peers@[i as int]@);
        if str_equal(peers[i].ip.as_str(), source_ip) && peers[i].port == port {
            proof {
                assert(peer_at(start, source_ip@, port, i as int));
                lemma_heard_known(start, source_ip@, port, now, i as int);
            }
            peers[i].last_seen = now;
            assert(peer_views(peers@) == start.update(
                i as int,
                LpdPeerView { last_seen: now, ..start[i as int] },
            ));
            return;
        }
        i += 1;
    }
    if peers.len() >= MAX_LPD_PEERS {
        return;
    }
    let peer = LpdPeer::new(source_ip.to_owned(), port, now);
    let ghost before = peers@;
    peers.push(peer);
    assert(peer_views(peers@) == peer_views(before).push(peer@));
}

impl Default for LpdService {
    fn default() -> (r: LpdService)
        ensures
            r.wf(),
            r@ == Seq::<SubscriptionView>::empty(),
    {
        LpdService::new()
    }
}

// ── Laws ────────────────────────────────────────────────────────────

/// Nothing is due again right after it was announced, and everything is due
/// once the interval has passed.
pub proof fn law_announce_interval(sub: SubscriptionView, sent: Instant, now: Instant)
    ensures
        (SubscriptionView { last_announce: Some(sent), ..sub }).is_due(now) <==> elapsed(now, sent)
            >= ANNOUNCE_INTERVAL_NANOS,
        (SubscriptionView { last_announce: None, ..sub }).is_due(now),
{
}

/// Hearing a peer again adds no second record, and the peer is fresh.
pub proof fn law_heard_twice(
    peers: Seq<LpdPeerView>,
    ip: Seq<char>,
    port: u16,
    first: Instant,
    second: Instant,
)
    requires
        peers_wf(peers),
        peers.len() < MAX_LPD_PEERS,
    ensures
        heard(heard(peers, ip, port, first), ip, port, second).len() == heard(
            peers,
            ip,
            port,
            first,
        ).len(),
        exists|i: int| #[trigger]
            peer_at(heard(peers, ip, port, first), ip, port, i) && !heard(
                peers,
                ip,
                port,
                first,
            )[i].stale(first),
{
    let once = heard(peers, ip, port, first);
    if exists|i: int| peer_at(peers, ip, port, i) {
        let i = choose|i: int| peer_at(peers, ip, port, i);
        assert(peer_at(once, ip, port, i));
    } else {
        assert(peer_at(once, ip, port, peers.len() as int));
    }
}

/// Pruning leaves no stale peer and drops no fresh one.
pub proof fn law_prune_keeps_fresh_peers(peers: Seq<LpdPeerView>, now: Instant, peer: LpdPeerView)
    ensures
        fresh_peers(peers, now).contains(peer) <==> peers.contains(peer) && !peer.stale(now),
    decreases peers.len(),
{
    if peers.len() > 0 {
        let front = peers.drop_last();
        let last = peers.last();
        let rest = fresh_peers(front, now);
        let all = fresh_peers(peers, now);
        law_prune_keeps_fresh_peers(front, now, peer);
        assert(peers[peers.len() - 1] == last);
        if front.contains(peer) {
            let i = choose|i: int| 0 <= i < front.len() && front[i] == peer;
            assert(peers[i] == peer);
        }
        if peers.contains(peer) && peer != last {
            let i = choose|i: int| 0 <= i < peers.len() && peers[i] == peer;
            assert(front[i] == peer);
        }
        if !last.stale(now) {
            assert(all[rest.len() as int] == last);
            if rest.contains(peer) {
                let i = choose|i: int| 0 <= i < rest.len() && rest[i] == peer;
                assert(all[i] == peer);
            }
            if all.contains(peer) && peer != last {
                let i = choose|i: int| 0 <= i < all.len() && all[i] == peer;
                assert(rest[i] == peer);
            }
        }
    }
}

/// What an announcement looks like: the header, the address of the group, the
/// port and the info hash, a line each, and an empty line.
pub proof fn law_announce_layout(a: AnnounceView)
    ensures
        announce_text(a) == "BT-SEARCH * HTTP/1.1\r\nHost: 239.192.152.143:6771\r\nPort: "@ + decimal(
            a.port as nat,
        ) + "\r\nInfohash: "@ + hex_chars(a.info_hash) + "\r\n\r\n"@,
{
    reveal_strlit("BT-SEARCH * HTTP/1.1");
    reveal_strlit("\r\nHost: ");
    reveal_strlit("239.192.152.143");
    reveal_strlit(":");
    reveal_strlit("\r\nPort: ");
    reveal_strlit("BT-SEARCH * HTTP/1.1\r\nHost: 239.192.152.143:6771\r\nPort: ");
    reveal_with_fuel(decimal, 4);
    assert(decimal(6771) == seq!['6', '7', '7', '1']);
    let head = ANNOUNCE_HEADER@ + "\r\nHost: "@ + LPD_MULTICAST_ADDR@ + ":"@ + decimal(
        LPD_PORT as nat,
    ) + "\r\nPort: "@;
    assert(head == "BT-SEARCH * HTTP/1.1\r\nHost: 239.192.152.143:6771\r\nPort: "@);
}

/// What a text must have to announce something: the header at its start, a port
/// and an info hash. The last line with either name counts, each line for itself.
pub proof fn law_what_announces(text: Seq<char>, line: Seq<char>, rest: Seq<char>, f: FieldsView)
    ensures
        !"BT-SEARCH * HTTP/1.1"@.is_prefix_of(text) ==> parse_announce(text) is None,
        parse_announce(text) matches Some(a) ==> {
            let fields = after_lines((FieldsView { info_hash: None, port: None }), text);
            fields.info_hash == Some(a.info_hash) && fields.port == Some(a.port as nat)
        },
        "BT-SEARCH * HTTP/1.1"@.is_prefix_of(text) && parse_announce(text) is None ==> {
            let fields = after_lines((FieldsView { info_hash: None, port: None }), text);
            fields.info_hash is None || fields.port is None
        },
        !line.contains('\n') ==> after_lines(f, line + seq!['\n'] + rest) == after_lines(
            after_line(f, line),
            rest,
        ),
        !line.contains('\n') ==> after_lines(f, line) == after_line(f, line),
{
    if !line.contains('\n') {
        lemma_one_line(f, line, rest);
        crate::text::law_first_place(line, '\n', 0);
    }
    lemma_port_bound(FieldsView { info_hash: None, port: None }, text);
}

/// A port that was read fits 16 bits.
proof fn lemma_port_bound(f: FieldsView, text: Seq<char>)
    requires
        f.port matches Some(p) ==> p <= u16::MAX,
    ensures
        after_lines(f, text).port matches Some(p) ==> p <= u16::MAX,
    decreases text.len(),
{
    match first_index(text, '\n') {
        Some(i) => {
            if 0 <= i < text.len() {
                lemma_port_bound(after_line(f, text.take(i)), text.skip(i + 1));
            }
        },
        None => {},
    }
}

/// What a line says: behind `Port:` a number, behind `Infohash:` 40 hexadecimal
/// digits, with white space around either; other lines say nothing.
pub proof fn law_what_a_line_says(f: FieldsView, line: Seq<char>)
    ensures
        "Port:"@.is_prefix_of(trimmed(line)) ==> after_line(f, line).port == parse_decimal(
            trimmed(trimmed(line).skip(5)),
            65_535,
        ) && after_line(f, line).info_hash == f.info_hash,
        "Infohash:"@.is_prefix_of(trimmed(line)) ==> after_line(f, line).info_hash == hash_from_hex(
            trimmed(trimmed(line).skip(9)),
        ) && after_line(f, line).port == f.port,
        !"Port:"@.is_prefix_of(trimmed(line)) && !"Infohash:"@.is_prefix_of(trimmed(line))
            ==> after_line(f, line) == f,
{
    reveal_strlit("Port:");
    reveal_strlit("Infohash:");
    if "Port:"@.is_prefix_of(trimmed(line)) && "Infohash:"@.is_prefix_of(trimmed(line)) {
        assert(trimmed(line).subrange(0, 5)[0] == 'P');
        assert(trimmed(line).subrange(0, 9)[0] == 'I');
    }
}

/// An info hash is read from 40 hexadecimal digits, two for each byte, the higher
/// first. Anything else is none.
pub proof fn law_info_hash_text(s: Seq<char>, hash: Seq<u8>, i: int)
    ensures
        hash.len() == 20 ==> hash_from_hex(hex_chars(hash)) == Some(hash),
        s.len() != 40 ==> hash_from_hex(s) is None,
        0 <= i < s.len() && hex_value(s[i]) is None ==> hash_from_hex(s) is None,
        hash_from_hex(s) matches Some(h) ==> h.len() == 20 && (0 <= i < 20 ==> hex_value(s[2 * i])
            is Some && hex_value(s[2 * i + 1]) is Some && h[i] == hex_value(s[2 * i])->0 * 16
            + hex_value(s[2 * i + 1])->0),
        s.len() == 40 && (forall|k: int| 0 <= k < 40 ==> hex_value(#[trigger] s[k]) is Some)
            ==> hash_from_hex(s) is Some,
{
    if hash.len() == 20 {
        lemma_hex_text(hash);
    }
    if hash_from_hex(s) is Some && 0 <= i < 20 {
        crate::text::law_hexadecimal(seq![0u8], 0, 0, s[2 * i]);
        crate::text::law_hexadecimal(seq![0u8], 0, 0, s[2 * i + 1]);
    }
}

/// When peers go stale and announcements are due: a peer that was not heard for
/// more than 10 minutes, a subscription that was never announced or 5 minutes
/// ago.
pub proof fn law_stale_and_due(peer: LpdPeerView, sub: SubscriptionView, now: Instant)
    ensures
        peer.stale(now) <==> now.nanos - peer.last_seen.nanos > 600_000_000_000,
        sub.is_due(now) <==> (sub.last_announce matches Some(last) ==> now.nanos - last.nanos
            >= 300_000_000_000),
{
}

/// A peer that is heard again keeps its record, seen now; a new one is put behind
/// the others, up to 50. Other peers stay as they are.
pub proof fn law_hearing(
    peers: Seq<LpdPeerView>,
    ip: Seq<char>,
    port: u16,
    now: Instant,
    i: int,
    k: int,
)
    requires
        peers_wf(peers),
        0 <= k < peers.len(),
    ensures
        ({
            let after = heard(peers, ip, port, now);
            &&& 0 <= i < peers.len() && peers[i].ip == ip && peers[i].port == port ==> {
                &&& after.len() == peers.len()
                &&& after[i].ip == ip && after[i].port == port
                &&& after[i].last_seen == now && after[i].discovered_at == peers[i].discovered_at
            }
            &&& peers[k].ip != ip || peers[k].port != port ==> after[k] == peers[k]
        }),
{
    if 0 <= i < peers.len() && peers[i].ip == ip && peers[i].port == port {
        assert(peer_at(peers, ip, port, i));
        lemma_heard_known(peers, ip, port, now, i);
    } else if exists|j: int| peer_at(peers, ip, port, j) {
        let j = choose|j: int| peer_at(peers, ip, port, j);
        lemma_heard_known(peers, ip, port, now, j);
    }
}

/// A peer that was not known is put behind the others, as long as there are fewer
/// than 50.
pub proof fn law_hearing_a_new_peer(
    peers: Seq<LpdPeerView>,
    ip: Seq<char>,
    port: u16,
    now: Instant,
)
    requires
        forall|k: int|
            0 <= k < peers.len() ==> (#[trigger] peers[k]).ip != ip || peers[k].port != port,
    ensures
        peers.len() >= 50 ==> heard(peers, ip, port, now) == peers,
        peers.len() < 50 ==> heard(peers, ip, port, now) == peers.push(
            (LpdPeerView { ip, port, discovered_at: now, last_seen: now }),
        ),
{
    assert forall|k: int| !peer_at(peers, ip, port, k) by {}
}

/// Pruning keeps, in order, the peers that were heard within 10 minutes, and
/// changes nothing else of a subscription.
pub proof fn law_pruning_is_in_order(
    peers: Seq<LpdPeerView>,
    subs: Seq<SubscriptionView>,
    now: Instant,
    i: int,
)
    ensures
        fresh_peers(peers, now) == peers.filter(
            |p: LpdPeerView| now.nanos - p.last_seen.nanos <= 600_000_000_000,
        ),
        pruned(subs, now).len() == subs.len(),
        0 <= i < subs.len() ==> {
            let after = pruned(subs, now)[i];
            &&& after.peers == fresh_peers(subs[i].peers, now)
            &&& after.info_hash == subs[i].info_hash && after.port == subs[i].port
            &&& after.last_announce == subs[i].last_announce
        },
    decreases peers.len(),
{
    reveal(Seq::filter);
    if peers.len() > 0 {
        law_pruning_is_in_order(peers.drop_last(), subs, now, i);
    }
}

/// What is due is announced in the order of the subscriptions, with the info hash
/// and port of each; peers are counted over all of them.
pub proof fn law_announced_and_counted(
    subs: Seq<SubscriptionView>,
    last: SubscriptionView,
    now: Instant,
)
    ensures
        due_announces(Seq::empty(), now).len() == 0,
        peer_total(Seq::empty()) == 0,
        peer_total(subs.push(last)) == peer_total(subs) + last.peers.len(),
        last.is_due(now) ==> due_announces(subs.push(last), now) == due_announces(subs, now).push(
            (AnnounceView { info_hash: last.info_hash, port: last.port }),
        ),
        !last.is_due(now) ==> due_announces(subs.push(last), now) == due_announces(subs, now),
{
    assert(subs.push(last).drop_last() == subs);
}

/// A subscription is found by its info hash.
pub proof fn law_subscription_is_found(subs: Seq<SubscriptionView>, info_hash: Seq<u8>, i: int)
    requires
        subs_wf(subs),
        0 <= i < subs.len(),
    ensures
        subs[i].info_hash == info_hash <==> sub_place(subs, info_hash) == Some(i),
        sub_place(subs, info_hash) is None ==> subs[i].info_hash != info_hash,
{
    if subs[i].info_hash == info_hash {
        assert(sub_at(subs, info_hash, i));
        lemma_sub_place(subs, info_hash, i);
    }
    if sub_place(subs, info_hash) is Some {
        assert(sub_at(subs, info_hash, sub_place(subs, info_hash)->0));
    }
}

} // verus!
