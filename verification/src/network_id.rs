//! Network isolation tag.
//!
//! Peers whose tags differ ignore each other, so that test, production and
//! private swarms stay apart. [`NetworkId::production`] and
//! [`NetworkId::test`] are the two standard networks; other networks get
//! their tag from a name.

use vstd::prelude::*;
use vstd::string::StringSliceAdditionalSpecFns;

use crate::codec::arrays_equal;
use crate::codec::push_bytes;
use crate::digest::sha256;
use crate::digest::sha256_digest;
use crate::text::hex_chars;
use crate::text::push_hex;

verus! {

/// Size of a network identifier in bytes.
pub const NETWORK_ID_LEN: usize = 32;

/// "ic-production-network-v1" in ASCII, padded with zero bytes.
pub const PRODUCTION_BYTES: [u8; 32] = [
    0x69, 0x63, 0x2d, 0x70, 0x72, 0x6f, 0x64, 0x75, 0x63, 0x74, 0x69, 0x6f, 0x6e, 0x2d, 0x6e, 0x65,
    0x74, 0x77, 0x6f, 0x72, 0x6b, 0x2d, 0x76, 0x31, 0, 0, 0, 0, 0, 0, 0, 0,
];

/// "ic-test-network-v1" in ASCII, padded with zero bytes.
pub const TEST_BYTES: [u8; 32] = [
    0x69, 0x63, 0x2d, 0x74, 0x65, 0x73, 0x74, 0x2d, 0x6e, 0x65, 0x74, 0x77, 0x6f, 0x72, 0x6b, 0x2d,
    0x76, 0x31, 0, 0, 0, 0, 0, 0, 0, 0, 0, 0, 0, 0, 0, 0,
];

/// A 32-byte network isolation tag. Its view is its bytes.
#[derive(Debug, Clone, Copy, Eq, Hash)]
pub struct NetworkId([u8; 32]);

impl View for NetworkId {
    type V = Seq<u8>;

    closed spec fn view(&self) -> Seq<u8> {
        self.0@
    }
}

impl PartialEq for NetworkId {
    fn eq(&self, other: &NetworkId) -> (r: bool) {
        arrays_equal(&self.0, &other.0)
    }
}

impl vstd::std_specs::cmp::PartialEqSpecImpl for NetworkId {
    open spec fn obeys_eq_spec() -> bool {
        true
    }

    open spec fn eq_spec(&self, other: &NetworkId) -> bool {
        self@ == other@
    }
}

impl NetworkId {
    /// The production network. All release builds use it unless told
    /// otherwise.
    pub fn production() -> (r: NetworkId)
        ensures
            r@ == PRODUCTION_BYTES@,
    {
        NetworkId(PRODUCTION_BYTES)
    }

    /// The test and development network.
    pub fn test() -> (r: NetworkId)
        ensures
            r@ == TEST_BYTES@,
    {
        NetworkId(TEST_BYTES)
    }

    /// The bytes that the tag of a named network is the SHA-256 digest of: a
    /// domain separator, then the name in UTF-8.
    pub open spec fn name_material(name: &str) -> Seq<u8> {
        "ic-network-id:".spec_bytes() + name.spec_bytes()
    }

    /// Creates a custom network ID from an arbitrary name.
    ///
    /// The same name always gives the same tag.
    pub fn from_name(name: &str) -> (r: NetworkId)
        ensures
            r@ == sha256_digest(NetworkId::name_material(name)),
    {
        let mut material: Vec<u8> = Vec::new();
        push_bytes(&mut material, "ic-network-id:".as_bytes());
        push_bytes(&mut material, name.as_bytes());
        NetworkId::from_raw(sha256(&material))
    }

    /// Returns the raw network identifier.
    pub fn as_bytes(&self) -> (r: &[u8; 32])
        ensures
            r@ == self@,
    {
        &self.0
    }

    /// Creates a network ID from raw bytes, used as they are.
    pub fn from_raw(bytes: [u8; 32]) -> (r: NetworkId)
        ensures
            r@ == bytes@,
    {
        NetworkId(bytes)
    }

    /// The tag as it is shown: its first 8 bytes in hexadecimal and an
    /// ellipsis.
    pub fn display(&self) -> (r: String)
        ensures
            r@ == hex_chars(self@.take(8)).push('\u{2026}'),
    {
        let mut out = String::new();
        push_hex(&mut out, vstd::slice::slice_subrange(&self.0, 0, 8));
        out.push('\u{2026}');
        out
    }

    /// A tag has 32 bytes.
    pub proof fn lemma_len(self)
        ensures
            self@.len() == NETWORK_ID_LEN,
    {
    }
}

/// The two standard networks are never confused.
pub proof fn law_standard_networks_differ(production: NetworkId, test: NetworkId)
    requires
        production@ == PRODUCTION_BYTES@,
        test@ == TEST_BYTES@,
    ensures
        production != test,
        production@ != test@,
{
    assert(PRODUCTION_BYTES@[3] == 0x70);
    assert(TEST_BYTES@[3] == 0x74);
}

/// The tag of a named network is the digest of `ic-network-id:` and the name.
/// Different names are different material.
pub proof fn law_name_material(name: &str, other: &str)
    ensures
        NetworkId::name_material(name).len() == "ic-network-id:".spec_bytes().len()
            + name.spec_bytes().len(),
        NetworkId::name_material(name).take("ic-network-id:".spec_bytes().len() as int)
            == "ic-network-id:".spec_bytes(),
        NetworkId::name_material(name).skip("ic-network-id:".spec_bytes().len() as int)
            == name.spec_bytes(),
        NetworkId::name_material(name) == NetworkId::name_material(other) ==> name.spec_bytes()
            == other.spec_bytes(),
{
    let n = "ic-network-id:".spec_bytes().len() as int;
    assert(NetworkId::name_material(name).skip(n) == name.spec_bytes());
    assert(NetworkId::name_material(other).skip(n) == other.spec_bytes());
}

/// The tags of the standard networks are their names in ASCII and zeros behind.
pub proof fn law_standard_tags(i: int)
    requires
        0 <= i < 32,
    ensures
        i < 24 ==> PRODUCTION_BYTES@[i] == "ic-production-network-v1"@[i] as u8,
        i >= 24 ==> PRODUCTION_BYTES@[i] == 0,
        i < 18 ==> TEST_BYTES@[i] == "ic-test-network-v1"@[i] as u8,
        i >= 18 ==> TEST_BYTES@[i] == 0,
{
    reveal_strlit("ic-production-network-v1");
    reveal_strlit("ic-test-network-v1");
}

} // verus!
