//! Protocol obfuscation: random listen ports and masking of the stream.
//!
//! [`random_port`] takes a port from the dynamic range. [`ObfuscationKey`] is
//! the info hash that both peers know; [`obfuscate_in_place`] and
//! [`deobfuscate_in_place`] mask a buffer with it as a repeating pad. The mask
//! hides the shape of the protocol. It is no encryption.

use vstd::prelude::*;

use crate::entropy::random_array;

verus! {

/// Start of the dynamic port range.
pub const EPHEMERAL_PORT_MIN: u16 = 49152;

/// End of the dynamic port range (inclusive).
pub const EPHEMERAL_PORT_MAX: u16 = 65535;

/// Key length in bytes: that of an info hash.
pub const KEY_LEN: usize = 20;

// ── Random port ─────────────────────────────────────────────────────

/// The port for two random bytes, the middle of the range without them.
pub open spec fn port_for(raw: Option<Seq<u8>>) -> int {
    match raw {
        Some(bytes) => EPHEMERAL_PORT_MIN + (bytes[0] + 256 * bytes[1]) % (EPHEMERAL_PORT_MAX
            - EPHEMERAL_PORT_MIN + 1),
        None => EPHEMERAL_PORT_MIN + (EPHEMERAL_PORT_MAX - EPHEMERAL_PORT_MIN) / 2,
    }
}

/// The bytes of an array that may be missing.
pub open spec fn raw_bytes(raw: Option<[u8; 2]>) -> Option<Seq<u8>> {
    match raw {
        Some(bytes) => Some(bytes@),
        None => None,
    }
}

/// Maps two random bytes to a port of the dynamic range. Without randomness
/// the middle of the range is taken.
pub fn ephemeral_port(raw: Option<[u8; 2]>) -> (r: u16)
    ensures
        r == port_for(raw_bytes(raw)),
        EPHEMERAL_PORT_MIN <= r <= EPHEMERAL_PORT_MAX,
{
    match raw {
        Some(bytes) => {
            let number: u32 = bytes[0] as u32 + 256 * bytes[1] as u32;
            let range: u32 = (EPHEMERAL_PORT_MAX - EPHEMERAL_PORT_MIN) as u32 + 1;
            EPHEMERAL_PORT_MIN + (number % range) as u16
        },
        None => EPHEMERAL_PORT_MIN + (EPHEMERAL_PORT_MAX - EPHEMERAL_PORT_MIN) / 2,
    }
}

/// Selects a random port in the dynamic range (49152 to 65535).
pub fn random_port() -> (r: u16)
    ensures
        EPHEMERAL_PORT_MIN <= r <= EPHEMERAL_PORT_MAX,
        exists|raw: Option<[u8; 2]>| r == port_for(#[trigger] raw_bytes(raw)),
{
    let raw: Option<[u8; 2]> = match random_array::<2>() {
        Ok(bytes) => Some(bytes),
        Err(_) => None,
    };
    ephemeral_port(raw)
}

// ── Obfuscation key ─────────────────────────────────────────────────

/// Shared key derived from the info hash.
#[derive(Debug, Clone, PartialEq, Eq)]
pub struct ObfuscationKey {
    bytes: [u8; KEY_LEN],
}

impl View for ObfuscationKey {
    type V = Seq<u8>;

    closed spec fn view(&self) -> Seq<u8> {
        self.bytes@
    }
}

impl ObfuscationKey {
    /// Creates a key from a 20-byte info hash.
    pub fn from_info_hash(info_hash: &[u8; KEY_LEN]) -> (r: ObfuscationKey)
        ensures
            r@ == info_hash@,
    {
        ObfuscationKey { bytes: *info_hash }
    }

    /// Returns the raw key bytes.
    pub fn as_bytes(&self) -> (r: &[u8; KEY_LEN])
        ensures
            r@ == self@,
    {
        &self.bytes
    }
}

// ── Masking ─────────────────────────────────────────────────────────

/// A stream position `n` bytes further on. Positions end at the largest
/// offset there is.
pub open spec fn advanced(offset: u64, n: int) -> u64 {
    if offset + n > u64::MAX {
        u64::MAX
    } else {
        (offset + n) as u64
    }
}

/// Bytes under the mask, where the first stands at `offset` in the stream.
pub open spec fn masked(data: Seq<u8>, key: Seq<u8>, offset: u64) -> Seq<u8> {
    Seq::new(
        data.len(),
        |i: int| data[i] ^ key[(advanced(offset, i) % (KEY_LEN as u64)) as int],
    )
}

/// Masks a buffer in place with the key as a repeating pad.
///
/// `stream_offset` is the position in the stream at which the buffer starts,
/// so that a stream can be masked in parts.
pub fn obfuscate_in_place(buf: &mut [u8], key: &ObfuscationKey, stream_offset: u64)
    ensures
        final(buf)@ == masked(old(buf)@, key@, stream_offset),
{
    xor_with_key(buf, &key.bytes, stream_offset);
}

/// Removes the mask. Masking undoes itself, so this is the same operation.
pub fn deobfuscate_in_place(buf: &mut [u8], key: &ObfuscationKey, stream_offset: u64)
    ensures
        final(buf)@ == masked(old(buf)@, key@, stream_offset),
{
    xor_with_key(buf, &key.bytes, stream_offset);
}

/// Masks with the bytes of a key.
fn xor_with_key(buf: &mut [u8], key: &[u8; KEY_LEN], stream_offset: u64)
    ensures
        final(buf)@ == masked(old(buf)@, key@, stream_offset),
{
    let ghost start = buf@;
    let len: usize = buf.len();
    let mut i: usize = 0;
    while i < len
        invariant
            i <= len,
            len == buf@.len(),
            len == start.len(),
            forall|k: int| 0 <= k < i ==> buf@[k] == masked(start, key@, stream_offset)[k],
            forall|k: int| i <= k < len ==> buf@[k] == start[k],
        decreases len - i,
    {
        let position: u64 = stream_offset.saturating_add(i as u64);
        let place: usize = (position % (KEY_LEN as u64)) as usize;
        assert(position == advanced(stream_offset, i as int));
        buf[i] = buf[i] ^ key[place];
        i += 1;
    }
    assert(buf@ == masked(start, key@, stream_offset));
}

// ── Laws ────────────────────────────────────────────────────────────

/// Masking twice with the same key and offset gives the data back.
pub proof fn law_masking_undoes_itself(data: Seq<u8>, key: Seq<u8>, offset: u64)
    ensures
        masked(masked(data, key, offset), key, offset) == data,
{
    let once = masked(data, key, offset);
    assert forall|i: int| 0 <= i < data.len() implies masked(once, key, offset)[i] == data[i] by {
        let a = data[i];
        let k = key[(advanced(offset, i) % (KEY_LEN as u64)) as int];
        assert((a ^ k) ^ k == a) by (bit_vector);
    }
}

/// A stream masked in parts, each at its own offset, is the stream masked as a
/// whole.
pub proof fn law_masking_in_parts(first: Seq<u8>, second: Seq<u8>, key: Seq<u8>, offset: u64)
    ensures
        masked(first + second, key, offset) == masked(first, key, offset) + masked(
            second,
            key,
            advanced(offset, first.len() as int),
        ),
{
    let whole = masked(first + second, key, offset);
    let parts = masked(first, key, offset) + masked(
        second,
        key,
        advanced(offset, first.len() as int),
    );
    assert forall|i: int| 0 <= i < whole.len() implies whole[i] == parts[i] by {
        if i >= first.len() {
            let j = i - first.len();
            assert(advanced(advanced(offset, first.len() as int), j) == advanced(offset, i));
        }
    }
    assert(whole == parts);
}

/// A key of zeros leaves the data as it is.
pub proof fn law_zero_key_masks_nothing(data: Seq<u8>, offset: u64)
    ensures
        masked(data, Seq::new(KEY_LEN as nat, |i: int| 0u8), offset) == data,
{
    let key = Seq::new(KEY_LEN as nat, |i: int| 0u8);
    assert forall|i: int| 0 <= i < data.len() implies masked(data, key, offset)[i] == data[i] by {
        let a = data[i];
        assert(key[(advanced(offset, i) % (KEY_LEN as u64)) as int] == 0);
        assert(a ^ 0u8 == a) by (bit_vector);
    }
    assert(masked(data, key, offset) == data);
}

/// Different keys mask data that is at least as long as a key differently,
/// as long as its offsets do not reach the largest one.
pub proof fn law_keys_mask_differently(data: Seq<u8>, one: Seq<u8>, other: Seq<u8>, offset: u64)
    requires
        one.len() == KEY_LEN,
        other.len() == KEY_LEN,
        one != other,
        data.len() >= KEY_LEN,
        offset + KEY_LEN <= u64::MAX,
    ensures
        masked(data, one, offset) != masked(data, other, offset),
{
    let p = choose|p: int| 0 <= p < one.len() && one[p] != other[p];
    assert(one =~= other || (0 <= p < one.len() && one[p] != other[p]));
    let shift = offset as int % 20;
    let i = (p - shift + 20) % 20;
    assert(advanced(offset, i) as int % 20 == p);
    let a = data[i];
    let x = one[p];
    let y = other[p];
    assert(a ^ x == a ^ y ==> x == y) by (bit_vector);
    assert(masked(data, one, offset)[i] == a ^ x);
    assert(masked(data, other, offset)[i] == a ^ y);
}

/// Which byte of the key masks which byte of the stream: they go together in
/// turns of 20.
pub proof fn law_key_repeats(data: Seq<u8>, key: Seq<u8>, offset: u64, i: int)
    requires
        0 <= i < data.len(),
        offset + i <= u64::MAX,
    ensures
        masked(data, key, offset).len() == data.len(),
        masked(data, key, offset)[i] == data[i] ^ key[(offset + i) % 20],
{
}

/// Random bytes, the lower first, give a port from 49152 on, in turns of 16384:
/// each port of the range comes of as many pairs of bytes. Without randomness it
/// is the port in the middle.
pub proof fn law_ports(bytes: Seq<u8>)
    requires
        bytes.len() == 2,
    ensures
        port_for(Some(bytes)) == 49_152 + (bytes[0] + 256 * bytes[1]) % 16_384,
        port_for(None) == 57_343,
        49_152 <= port_for(Some(bytes)) <= 65_535,
{
}

} // verus!
