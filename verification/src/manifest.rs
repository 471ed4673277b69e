//! Group manifests: versioned, optionally signed catalogs of content.
//!
//! The group master creates and signs a [`GroupManifest`]; mirrors verify the
//! signature over [`GroupManifest::canonical_bytes`] and use
//! [`diff_manifests`] to learn what changed. Signing itself is left to the
//! caller.
//!
//! Entries are sorted by path, no two share a path, and paths are relative,
//! use forward slashes and cannot climb out of the content directory.

use vstd::prelude::*;
use vstd::string::StringSliceAdditionalSpecFns;
use vstd::utf8::encode_utf8;
use vstd::utf8::encode_utf8_decode_utf8;

use crate::codec::arrays_equal;
use crate::codec::le32;
use crate::codec::le64;
use crate::codec::lemma_le32_injective;
use crate::codec::lemma_le32_len;
use crate::codec::lemma_le64_injective;
use crate::codec::lemma_le64_len;
use crate::codec::lemma_lex_total;
use crate::codec::lemma_lex_transitive;
use crate::codec::lex_before;
use crate::codec::lex_less;
use crate::codec::low32;
use crate::codec::push_bytes;
use crate::codec::push_le32;
use crate::codec::push_le64;
use crate::network_id::NetworkId;
use crate::rank::goes_before;
use crate::rank::is_stable_order;
use crate::rank::lemma_stable_order_covers;
use crate::rank::stable_order;
use crate::rank::Ranked;
use crate::text::chars_of;
use crate::text::find_char;

verus! {

broadcast use {lemma_le32_len, lemma_le64_len};

/// Errors from manifest construction or validation.
#[derive(Debug)]
pub enum ManifestError {
    /// Content entry path is empty.
    EmptyPath,
    /// Content entry path contains invalid characters or components.
    InvalidPath {
        /// The offending path.
        path: String,
        /// Why the path is invalid.
        reason: &'static str,
    },
    /// Two entries share the same path.
    DuplicatePath {
        /// The duplicated path.
        path: String,
    },
    /// Manifest version must be greater than zero.
    ZeroVersion,
}

/// What an error says, with its text as a character sequence.
pub enum ManifestErrorView {
    EmptyPath,
    InvalidPath { path: Seq<char>, reason: Seq<char> },
    DuplicatePath { path: Seq<char> },
    ZeroVersion,
}

impl View for ManifestError {
    type V = ManifestErrorView;

    open spec fn view(&self) -> ManifestErrorView {
        match *self {
            ManifestError::EmptyPath => ManifestErrorView::EmptyPath,
            ManifestError::InvalidPath { path, reason } => ManifestErrorView::InvalidPath {
                path: path@,
                reason: reason@,
            },
            ManifestError::DuplicatePath { path } => ManifestErrorView::DuplicatePath {
                path: path@,
            },
            ManifestError::ZeroVersion => ManifestErrorView::ZeroVersion,
        }
    }
}

impl ManifestErrorView {
    /// The text shown for an error.
    pub open spec fn text(self) -> Seq<char> {
        match self {
            ManifestErrorView::EmptyPath => "content entry path must not be empty"@,
            ManifestErrorView::InvalidPath { path, reason } => "invalid path `"@ + path + "`: "@
                + reason,
            ManifestErrorView::DuplicatePath { path } => "duplicate path `"@ + path
                + "` in manifest"@,
            ManifestErrorView::ZeroVersion => "manifest version must be > 0 (version 0 is reserved)"@,
        }
    }
}

impl ManifestError {
    /// The text shown for this error.
    pub fn display(&self) -> (r: String)
        ensures
            r@ == self@.text(),
    {
        let mut out = String::new();
        match self {
            ManifestError::EmptyPath => {
                out.append("content entry path must not be empty");
            },
            ManifestError::InvalidPath { path, reason } => {
                out.append("invalid path `");
                out.append(path.as_str());
                out.append("`: ");
                out.append(reason);
            },
            ManifestError::DuplicatePath { path } => {
                out.append("duplicate path `");
                out.append(path.as_str());
                out.append("` in manifest");
            },
            ManifestError::ZeroVersion => {
                out.append("manifest version must be > 0 (version 0 is reserved)");
            },
        }
        out
    }
}

// ── Path validation ─────────────────────────────────────────────────

/// The component of a path that starts at `i` is `..`, the parent directory.
pub open spec fn parent_at(path: Seq<char>, i: int) -> bool {
    &&& 0 <= i < path.len() - 1
    &&& path[i] == '.' && path[i + 1] == '.'
    &&& i == 0 || path[i - 1] == '/'
    &&& i + 2 == path.len() || path[i + 2] == '/'
}

/// Whether some component of a path is `..`. Two dots inside a longer name do
/// not count.
pub open spec fn has_parent_component(path: Seq<char>) -> bool {
    exists|i: int| #[trigger] parent_at(path, i)
}

/// What is wrong with a content entry path, if anything.
pub open spec fn path_fault(path: Seq<char>) -> Option<ManifestErrorView> {
    if path.len() == 0 {
        Some(ManifestErrorView::EmptyPath)
    } else if path.contains('\\') {
        Some(
            ManifestErrorView::InvalidPath {
                path,
                reason: "backslashes are not allowed (use forward slashes)"@,
            },
        )
    } else if path[0] == '/' {
        Some(
            ManifestErrorView::InvalidPath {
                path,
                reason: "absolute paths are not allowed (no leading slash)"@,
            },
        )
    } else if has_parent_component(path) {
        Some(
            ManifestErrorView::InvalidPath {
                path,
                reason: "parent traversal (`..`) is not allowed"@,
            },
        )
    } else if path.contains('\0') {
        Some(ManifestErrorView::InvalidPath { path, reason: "null bytes are not allowed"@ })
    } else {
        None
    }
}

/// Checks a content entry path.
fn validate_path(path: &str) -> (r: Result<(), ManifestError>)
    ensures
        match r {
            Ok(()) => path_fault(path@) is None,
            Err(e) => path_fault(path@) == Some(e@),
        },
{
    let chars = chars_of(path);
    if chars.len() == 0 {
        return Err(ManifestError::EmptyPath);
    }
    if find_char(&chars, '\\').is_some() {
        return Err(
            ManifestError::InvalidPath {
                path: path.to_owned(),
                reason: "backslashes are not allowed (use forward slashes)",
            },
        );
    }
    if chars[0] == '/' {
        return Err(
            ManifestError::InvalidPath {
                path: path.to_owned(),
                reason: "absolute paths are not allowed (no leading slash)",
            },
        );
    }
    let mut i: usize = 0;
    while i < chars.len() - 1
        invariant
            0 < chars@.len(),
            i <= chars@.len() - 1,
            chars@ == path@,
            !path@.contains('\\'),
            path@[0] != '/',
            forall|k: int| 0 <= k < i ==> !parent_at(path@, k),
        decreases chars@.len() - i,
    {
        if chars[i] == '.' && chars[i + 1] == '.' && (i == 0 || chars[i - 1] == '/') && (i + 2
            == chars.len() || chars[i + 2] == '/') {
            assert(parent_at(path@, i as int));
            return Err(
                ManifestError::InvalidPath {
                    path: path.to_owned(),
                    reason: "parent traversal (`..`) is not allowed",
                },
            );
        }
        i += 1;
    }
    if find_char(&chars, '\0').is_some() {
        return Err(
            ManifestError::InvalidPath {
                path: path.to_owned(),
                reason: "null bytes are not allowed",
            },
        );
    }
    Ok(())
}

// ── Content entries ─────────────────────────────────────────────────

/// A single file entry in a group manifest.
#[derive(Debug, PartialEq, Eq)]
pub struct ContentEntry {
    path: String,
    content_hash: [u8; 32],
    file_size: u64,
    info_hash: Option<[u8; 20]>,
}

/// What an entry says.
#[verifier::ext_equal]
pub struct EntryView {
    /// Relative path within the content directory.
    pub path: Seq<char>,
    /// SHA-256 hash of the complete file contents.
    pub content_hash: Seq<u8>,
    /// File size in bytes.
    pub file_size: u64,
    /// SHA-1 info hash of the torrent metadata for the file.
    pub info_hash: Option<Seq<u8>>,
}

impl View for ContentEntry {
    type V = EntryView;

    closed spec fn view(&self) -> EntryView {
        EntryView {
            path: self.path@,
            content_hash: self.content_hash@,
            file_size: self.file_size,
            info_hash: match self.info_hash {
                Some(h) => Some(h@),
                None => None,
            },
        }
    }
}

impl Clone for ContentEntry {
    fn clone(&self) -> (r: ContentEntry)
        ensures
            r == *self,
    {
        ContentEntry {
            path: self.path.clone(),
            content_hash: self.content_hash,
            file_size: self.file_size,
            info_hash: self.info_hash,
        }
    }
}

impl EntryView {
    /// Whether the path may stand in a manifest.
    pub open spec fn path_is_safe(self) -> bool {
        path_fault(self.path) is None
    }
}

impl ContentEntry {
    /// Whether the path has been checked.
    pub open spec fn wf(self) -> bool {
        self@.path_is_safe()
    }

    /// Creates a new content entry with path validation.
    pub fn new(path: &str, content_hash: [u8; 32], file_size: u64) -> (r: Result<
        ContentEntry,
        ManifestError,
    >)
        ensures
            match r {
                Ok(entry) => {
                    &&& path_fault(path@) is None
                    &&& entry.wf()
                    &&& entry@ == (EntryView {
                        path: path@,
                        content_hash: content_hash@,
                        file_size,
                        info_hash: None,
                    })
                },
                Err(e) => path_fault(path@) == Some(e@),
            },
    {
        match validate_path(path) {
            Ok(()) => Ok(
                ContentEntry { path: path.to_owned(), content_hash, file_size, info_hash: None },
            ),
            Err(e) => Err(e),
        }
    }

    /// Attaches a torrent info hash to this entry.
    pub fn with_info_hash(self, info_hash: [u8; 20]) -> (r: ContentEntry)
        requires
            self.wf(),
        ensures
            r.wf(),
            r@ == (EntryView { info_hash: Some(info_hash@), ..self@ }),
    {
        ContentEntry {
            path: self.path,
            content_hash: self.content_hash,
            file_size: self.file_size,
            info_hash: Some(info_hash),
        }
    }

    /// Returns the relative path of this entry.
    pub fn path(&self) -> (r: &str)
        ensures
            r@ == self@.path,
    {
        self.path.as_str()
    }

    /// Returns the SHA-256 content hash.
    pub fn content_hash(&self) -> (r: &[u8; 32])
        ensures
            r@ == self@.content_hash,
    {
        &self.content_hash
    }

    /// Returns the file size in bytes.
    pub fn file_size(&self) -> (r: u64)
        ensures
            r == self@.file_size,
    {
        self.file_size
    }

    /// Returns the torrent info hash, if there is one.
    pub fn info_hash(&self) -> (r: Option<&[u8; 20]>)
        ensures
            match r {
                Some(h) => self@.info_hash == Some(h@),
                None => self@.info_hash is None,
            },
    {
        match &self.info_hash {
            Some(h) => Some(h),
            None => None,
        }
    }
}

/// Paths in the order of their UTF-8 bytes.
pub open spec fn path_before(a: Seq<char>, b: Seq<char>) -> bool {
    lex_before(encode_utf8(a), encode_utf8(b))
}

/// Path order is a strict total order.
pub proof fn lemma_path_order(a: Seq<char>, b: Seq<char>)
    ensures
        !path_before(a, a),
        !(path_before(a, b) && path_before(b, a)),
        path_before(a, b) || a == b || path_before(b, a),
{
    lemma_lex_total(encode_utf8(a), encode_utf8(b));
    lemma_lex_total(encode_utf8(a), encode_utf8(a));
    encode_utf8_decode_utf8(a);
    encode_utf8_decode_utf8(b);
}

/// Path order is transitive.
pub proof fn lemma_path_transitive(a: Seq<char>, b: Seq<char>, c: Seq<char>)
    requires
        path_before(a, b),
        path_before(b, c),
    ensures
        path_before(a, c),
{
    lemma_lex_transitive(encode_utf8(a), encode_utf8(b), encode_utf8(c));
}

impl Ranked for ContentEntry {
    open spec fn ranks_before(&self, other: &ContentEntry) -> bool {
        path_before(self@.path, other@.path)
    }

    proof fn lemma_asymmetric(a: &ContentEntry, b: &ContentEntry) {
        lemma_path_order(a@.path, b@.path);
    }

    proof fn lemma_transitive(a: &ContentEntry, b: &ContentEntry, c: &ContentEntry) {
        if path_before(c@.path, a@.path) {
            lemma_path_order(a@.path, b@.path);
            lemma_path_order(b@.path, c@.path);
            if a@.path != b@.path {
                lemma_path_transitive(c@.path, a@.path, b@.path);
            }
        }
    }

    fn before(&self, other: &ContentEntry) -> (r: bool) {
        lex_less(self.path.as_str().as_bytes(), other.path.as_str().as_bytes())
    }
}

/// The model of a list of entries.
pub open spec fn entry_views(entries: Seq<ContentEntry>) -> Seq<EntryView> {
    Seq::new(entries.len(), |i: int| entries[i]@)
}

/// Entries stand in path order, no two with the same path.
pub open spec fn strictly_sorted(entries: Seq<EntryView>) -> bool {
    forall|i: int, j: int|
        0 <= i < j < entries.len() ==> path_before(
            #[trigger] entries[i].path,
            #[trigger] entries[j].path,
        )
}

/// All paths are safe.
pub open spec fn paths_are_safe(entries: Seq<EntryView>) -> bool {
    forall|i: int| 0 <= i < entries.len() ==> (#[trigger] entries[i]).path_is_safe()
}

// ── Manifests ───────────────────────────────────────────────────────

/// A versioned, optionally signed content catalog.
#[derive(Debug)]
pub struct GroupManifest {
    version: u64,
    network_id: NetworkId,
    created_at: u64,
    entries: Vec<ContentEntry>,
    signature: Vec<u8>,
    signer_id: Vec<u8>,
}

impl Clone for GroupManifest {
    fn clone(&self) -> (r: GroupManifest)
        ensures
            r@ == self@,
            r.spec_signature() == self.spec_signature(),
            r.spec_signer_id() == self.spec_signer_id(),
    {
        let entries = self.entries.clone();
        assert(entries@ == self.entries@);
        GroupManifest {
            version: self.version,
            network_id: self.network_id,
            created_at: self.created_at,
            entries,
            signature: self.signature.clone(),
            signer_id: self.signer_id.clone(),
        }
    }
}

/// What a manifest says, apart from its signature.
#[verifier::ext_equal]
pub struct ManifestView {
    /// Version number.
    pub version: u64,
    /// Network that the manifest belongs to.
    pub network_id: Seq<u8>,
    /// Unix timestamp of its creation.
    pub created_at: u64,
    /// Content entries.
    pub entries: Seq<EntryView>,
}

impl View for GroupManifest {
    type V = ManifestView;

    closed spec fn view(&self) -> ManifestView {
        ManifestView {
            version: self.version,
            network_id: self.network_id@,
            created_at: self.created_at,
            entries: entry_views(self.entries@),
        }
    }
}

/// The bytes of one entry: the length of the path and the path in UTF-8, the
/// content hash, the file size, and a flag before the info hash if there is
/// one.
pub open spec fn entry_bytes(e: EntryView) -> Seq<u8> {
    let path = encode_utf8(e.path);
    le32((path.len() % 0x1_0000_0000) as u32) + path + e.content_hash + le64(e.file_size) + (
    match e.info_hash {
        Some(h) => seq![1u8] + h,
        None => seq![0u8],
    })
}

/// The bytes of entries in order.
pub open spec fn entries_bytes(entries: Seq<EntryView>) -> Seq<u8>
    decreases entries.len(),
{
    if entries.len() == 0 {
        Seq::empty()
    } else {
        entry_bytes(entries[0]) + entries_bytes(entries.drop_first())
    }
}

/// The bytes in front of the entries.
pub open spec fn header_bytes(m: ManifestView) -> Seq<u8> {
    le64(m.version) + m.network_id + le64(m.created_at) + le32(
        (m.entries.len() % 0x1_0000_0000) as u32,
    )
}

/// The bytes that a signature is made over.
pub open spec fn canonical(m: ManifestView) -> Seq<u8> {
    header_bytes(m) + entries_bytes(m.entries)
}

/// The sum of the file sizes.
pub open spec fn size_sum(entries: Seq<EntryView>) -> nat
    decreases entries.len(),
{
    if entries.len() == 0 {
        0
    } else {
        size_sum(entries.drop_last()) + entries.last().file_size as nat
    }
}

impl GroupManifest {
    /// Version, order, uniqueness and safety of the entries.
    pub open spec fn wf(self) -> bool {
        &&& self@.version > 0
        &&& strictly_sorted(self@.entries)
        &&& paths_are_safe(self@.entries)
    }

    /// The signature bytes.
    pub closed spec fn spec_signature(self) -> Seq<u8> {
        self.signature@
    }

    /// The signer identifier.
    pub closed spec fn spec_signer_id(self) -> Seq<u8> {
        self.signer_id@
    }

    /// Creates a new [`ManifestBuilder`] for the given group.
    pub fn builder(network_id: NetworkId) -> (r: ManifestBuilder)
        ensures
            r.wf(),
            r@ == (ManifestView {
                version: 0,
                network_id: network_id@,
                created_at: 0,
                entries: Seq::empty(),
            }),
    {
        ManifestBuilder { network_id, version: 0, created_at: 0, entries: Vec::new() }
    }

    /// Returns the manifest version number (always > 0).
    pub fn version(&self) -> (r: u64)
        requires
            self.wf(),
        ensures
            r == self@.version,
            r > 0,
    {
        self.version
    }

    /// Returns the group's network identity.
    pub fn network_id(&self) -> (r: &NetworkId)
        ensures
            r@ == self@.network_id,
    {
        &self.network_id
    }

    /// Returns the creation timestamp (unix seconds).
    pub fn created_at(&self) -> (r: u64)
        ensures
            r == self@.created_at,
    {
        self.created_at
    }

    /// Returns the content entries, sorted by path.
    pub fn entries(&self) -> (r: &[ContentEntry])
        ensures
            entry_views(r@) == self@.entries,
    {
        self.entries.as_slice()
    }

    /// Returns the number of content entries.
    pub fn entry_count(&self) -> (r: usize)
        ensures
            r == self@.entries.len(),
    {
        self.entries.len()
    }

    /// Looks up an entry by path using binary search.
    pub fn get_entry(&self, path: &str) -> (r: Option<&ContentEntry>)
        requires
            self.wf(),
        ensures
            match r {
                Some(entry) => entry@.path == path@ && self@.entries.contains(entry@),
                None => forall|i: int|
                    0 <= i < self@.entries.len() ==> (#[trigger] self@.entries[i]).path != path@,
            },
    {
        let key = path.as_bytes();
        let mut lo: usize = 0;
        let mut hi: usize = self.entries.len();
        let ghost views = self@.entries;
        assert(views.len() == self.entries@.len());
        while lo < hi
            invariant
                views == self@.entries,
                views == entry_views(self.entries@),
                strictly_sorted(views),
                key@ == encode_utf8(path@),
                lo <= hi <= views.len(),
                forall|i: int| 0 <= i < lo ==> (#[trigger] views[i]).path != path@,
                forall|i: int| hi <= i < views.len() ==> (#[trigger] views[i]).path != path@,
            decreases hi - lo,
        {
            let mid: usize = lo + (hi - lo) / 2;
            let entry = &self.entries[mid];
            let ghost here = views[mid as int].path;
            assert(here == entry@.path);
            let entry_key = entry.path.as_str().as_bytes();
            proof {
                lemma_path_order(here, path@);
            }
            if lex_less(entry_key, key) {
                assert forall|i: int| 0 <= i < mid + 1 implies (#[trigger] views[i]).path
                    != path@ by {
                    if i < mid {
                        lemma_path_order(views[i].path, here);
                    }
                }
                lo = mid + 1;
            } else if lex_less(key, entry_key) {
                assert forall|i: int| mid <= i < views.len() implies (#[trigger] views[i]).path
                    != path@ by {
                    if i > mid {
                        lemma_path_order(views[i].path, here);
                    }
                }
                hi = mid;
            } else {
                assert(views[mid as int] == entry@);
                return Some(entry);
            }
        }
        None
    }

    /// Returns `true` if this manifest has been signed.
    pub fn is_signed(&self) -> (r: bool)
        ensures
            r == (self.spec_signature().len() > 0),
    {
        self.signature.len() > 0
    }

    /// Returns the opaque signature bytes (empty if unsigned).
    pub fn signature(&self) -> (r: &[u8])
        ensures
            r@ == self.spec_signature(),
    {
        self.signature.as_slice()
    }

    /// Returns the opaque signer identifier (empty if unsigned).
    pub fn signer_id(&self) -> (r: &[u8])
        ensures
            r@ == self.spec_signer_id(),
    {
        self.signer_id.as_slice()
    }

    /// Attaches a cryptographic signature and signer identity. What the
    /// manifest says, and so its canonical bytes, stays the same.
    pub fn set_signature(&mut self, signature: Vec<u8>, signer_id: Vec<u8>)
        ensures
            final(self)@ == old(self)@,
            final(self).spec_signature() == signature@,
            final(self).spec_signer_id() == signer_id@,
    {
        self.signature = signature;
        self.signer_id = signer_id;
    }

    /// Returns the deterministic byte representation for signing and
    /// verification.
    pub fn canonical_bytes(&self) -> (r: Vec<u8>)
        ensures
            r@ == canonical(self@),
    {
        let mut buf: Vec<u8> = Vec::new();
        push_le64(&mut buf, self.version);
        push_bytes(&mut buf, self.network_id.as_bytes());
        push_le64(&mut buf, self.created_at);
        push_le32(&mut buf, low32(self.entries.len()));
        let ghost header = header_bytes(self@);
        let ghost views = self@.entries;
        assert(buf@ == header);
        let mut i: usize = 0;
        assert(views.take(0) == Seq::<EntryView>::empty());
        while i < self.entries.len()
            invariant
                i <= self.entries@.len(),
                views == entry_views(self.entries@),
                buf@ == header + entries_bytes(views.take(i as int)),
            decreases self.entries@.len() - i,
        {
            let entry = &self.entries[i];
            let ghost before = buf@;
            let path = entry.path.as_str().as_bytes();
            push_le32(&mut buf, low32(path.len()));
            push_bytes(&mut buf, path);
            push_bytes(&mut buf, &entry.content_hash);
            push_le64(&mut buf, entry.file_size);
            match &entry.info_hash {
                Some(h) => {
                    buf.push(1);
                    push_bytes(&mut buf, h);
                },
                None => {
                    buf.push(0);
                },
            }
            proof {
                assert(buf@ == before + entry_bytes(entry@));
                assert(views.take(i + 1) == views.take(i as int).push(entry@));
                lemma_entries_bytes_push(views.take(i as int), entry@);
                assert(buf@ == header + entries_bytes(views.take(i + 1)));
            }
            i += 1;
        }
        assert(views.take(i as int) == views);
        buf
    }

    /// Returns the total size in bytes across all entries, at most `u64::MAX`.
    pub fn total_size(&self) -> (r: u64)
        ensures
            size_sum(self@.entries) <= u64::MAX ==> r == size_sum(self@.entries),
            size_sum(self@.entries) > u64::MAX ==> r == u64::MAX,
    {
        let ghost views = self@.entries;
        let mut total: u64 = 0;
        let mut i: usize = 0;
        assert(views.take(0) == Seq::<EntryView>::empty());
        while i < self.entries.len()
            invariant
                i <= self.entries@.len(),
                views == entry_views(self.entries@),
                size_sum(views.take(i as int)) <= u64::MAX ==> total == size_sum(
                    views.take(i as int),
                ),
                size_sum(views.take(i as int)) > u64::MAX ==> total == u64::MAX,
            decreases self.entries@.len() - i,
        {
            assert(views.take(i + 1).drop_last() == views.take(i as int));
            total = total.saturating_add(self.entries[i].file_size);
            i += 1;
        }
        assert(views.take(i as int) == views);
        total
    }
}

/// Concatenation may be regrouped.
proof fn lemma_regroup(a: Seq<u8>, b: Seq<u8>, c: Seq<u8>)
    ensures
        (a + b) + c == a + (b + c),
{
    assert((a + b) + c == a + (b + c));
}

/// The bytes of one more entry go behind the bytes of the others.
proof fn lemma_entries_bytes_push(entries: Seq<EntryView>, e: EntryView)
    ensures
        entries_bytes(entries.push(e)) == entries_bytes(entries) + entry_bytes(e),
    decreases entries.len(),
{
    let all = entries.push(e);
    let last = entry_bytes(e);
    if entries.len() == 0 {
        assert(all.drop_first() == Seq::<EntryView>::empty());
        assert(entries_bytes(all.drop_first()) == Seq::<u8>::empty());
        assert(all[0] == e);
        assert(last + Seq::<u8>::empty() == last);
        assert(Seq::<u8>::empty() + last == last);
    } else {
        lemma_entries_bytes_push(entries.drop_first(), e);
        assert(all.drop_first() == entries.drop_first().push(e));
        let first = entry_bytes(entries[0]);
        let middle = entries_bytes(entries.drop_first());
        lemma_regroup(first, middle, last);
        assert(all[0] == entries[0]);
        assert(entries_bytes(all) == first + (middle + last));
        assert(entries_bytes(entries) == first + middle);
    }
}

/// Behind heads of equal length equal text has equal heads and equal tails.
proof fn lemma_cut(head_a: Seq<u8>, tail_a: Seq<u8>, head_b: Seq<u8>, tail_b: Seq<u8>)
    requires
        head_a.len() == head_b.len(),
        head_a + tail_a == head_b + tail_b,
    ensures
        head_a == head_b,
        tail_a == tail_b,
{
    assert((head_a + tail_a).take(head_a.len() as int) == head_a);
    assert((head_b + tail_b).take(head_b.len() as int) == head_b);
    assert((head_a + tail_a).skip(head_a.len() as int) == tail_a);
    assert((head_b + tail_b).skip(head_b.len() as int) == tail_b);
}

/// Equal text in four parts of known length has equal parts.
proof fn lemma_cut_in_four(
    a1: Seq<u8>,
    a2: Seq<u8>,
    a3: Seq<u8>,
    a4: Seq<u8>,
    b1: Seq<u8>,
    b2: Seq<u8>,
    b3: Seq<u8>,
    b4: Seq<u8>,
)
    requires
        a1.len() == b1.len(),
        a2.len() == b2.len(),
        a3.len() == b3.len(),
        a4.len() == b4.len(),
        a1 + a2 + a3 + a4 == b1 + b2 + b3 + b4,
    ensures
        a1 == b1,
        a2 == b2,
        a3 == b3,
        a4 == b4,
{
    lemma_cut(a1 + a2 + a3, a4, b1 + b2 + b3, b4);
    lemma_cut(a1 + a2, a3, b1 + b2, b3);
    lemma_cut(a1, a2, b1, b2);
}

/// Equal text starts with the same bytes.
proof fn lemma_same_start(head_a: Seq<u8>, tail_a: Seq<u8>, head_b: Seq<u8>, tail_b: Seq<u8>, n: int)
    requires
        n <= head_a.len(),
        n <= head_b.len(),
        head_a + tail_a == head_b + tail_b,
    ensures
        forall|i: int| 0 <= i < n ==> #[trigger] head_a[i] == head_b[i],
{
    assert forall|i: int| 0 <= i < n implies #[trigger] head_a[i] == head_b[i] by {
        assert((head_a + tail_a)[i] == head_a[i]);
        assert((head_b + tail_b)[i] == head_b[i]);
    }
}

/// The bytes of an entry in front of its info hash.
spec fn entry_front(e: EntryView) -> Seq<u8> {
    le32((encode_utf8(e.path).len() % 0x1_0000_0000) as u32) + encode_utf8(e.path) + e.content_hash
        + le64(e.file_size)
}

/// The flag and the info hash.
spec fn entry_back(e: EntryView) -> Seq<u8> {
    match e.info_hash {
        Some(h) => seq![1u8] + h,
        None => seq![0u8],
    }
}

/// Fronts of equal text come from equal paths, hashes and sizes.
proof fn lemma_front_injective(a: EntryView, b: EntryView)
    requires
        entry_is_writable(a),
        entry_is_writable(b),
        encode_utf8(a.path).len() == encode_utf8(b.path).len(),
        entry_front(a) == entry_front(b),
    ensures
        a.path == b.path,
        a.content_hash == b.content_hash,
        a.file_size == b.file_size,
{
    let la = le32((encode_utf8(a.path).len() % 0x1_0000_0000) as u32);
    let lb = le32((encode_utf8(b.path).len() % 0x1_0000_0000) as u32);
    let pa = encode_utf8(a.path);
    let pb = encode_utf8(b.path);
    lemma_cut_in_four(
        la,
        pa,
        a.content_hash,
        le64(a.file_size),
        lb,
        pb,
        b.content_hash,
        le64(b.file_size),
    );
    lemma_le64_injective(a.file_size, b.file_size);
    encode_utf8_decode_utf8(a.path);
    encode_utf8_decode_utf8(b.path);
}

/// The length of the path stands at the start of the front.
proof fn lemma_front_start(a: EntryView, b: EntryView)
    requires
        entry_is_writable(a),
        entry_is_writable(b),
        forall|i: int| 0 <= i < 4 ==> #[trigger] entry_front(a)[i] == entry_front(b)[i],
    ensures
        encode_utf8(a.path).len() == encode_utf8(b.path).len(),
{
    let la = le32(encode_utf8(a.path).len() as u32);
    let lb = le32(encode_utf8(b.path).len() as u32);
    assert forall|i: int| 0 <= i < 4 implies la[i] == lb[i] by {
        assert(entry_front(a)[i] == la[i]);
        assert(entry_front(b)[i] == lb[i]);
    }
    assert(la == lb);
    lemma_le32_injective(encode_utf8(a.path).len() as u32, encode_utf8(b.path).len() as u32);
}

/// What is written in front of the same kind of text tells its entry apart:
/// equal bytes come from equal entries and equal rests.
proof fn lemma_entry_bytes_prefix(a: EntryView, b: EntryView, rest_a: Seq<u8>, rest_b: Seq<u8>)
    requires
        entry_is_writable(a),
        entry_is_writable(b),
        entry_bytes(a) + rest_a == entry_bytes(b) + rest_b,
    ensures
        a == b,
        rest_a == rest_b,
{
    let fa = entry_front(a);
    let fb = entry_front(b);
    let ba = entry_back(a);
    let bb = entry_back(b);
    assert(entry_bytes(a) == fa + ba);
    assert(entry_bytes(b) == fb + bb);
    lemma_regroup(fa, ba, rest_a);
    lemma_regroup(fb, bb, rest_b);
    assert(fa.len() >= 4 && fb.len() >= 4);
    lemma_same_start(fa, ba + rest_a, fb, bb + rest_b, 4);
    lemma_front_start(a, b);
    assert(fa.len() == fb.len());
    lemma_cut(fa, ba + rest_a, fb, bb + rest_b);
    lemma_front_injective(a, b);
    lemma_same_start(ba, rest_a, bb, rest_b, 1);
    assert(ba[0] == bb[0]);
    assert(ba.len() == bb.len());
    lemma_cut(ba, rest_a, bb, rest_b);
    if a.info_hash is Some {
        lemma_cut(seq![1u8], a.info_hash->0, seq![1u8], b.info_hash->0);
    }
}

/// Equal bytes come from equal lists of the same length.
proof fn lemma_entries_bytes_injective(a: Seq<EntryView>, b: Seq<EntryView>)
    requires
        a.len() == b.len(),
        forall|i: int| 0 <= i < a.len() ==> entry_is_writable(#[trigger] a[i]),
        forall|i: int| 0 <= i < b.len() ==> entry_is_writable(#[trigger] b[i]),
        entries_bytes(a) == entries_bytes(b),
    ensures
        a == b,
    decreases a.len(),
{
    if a.len() > 0 {
        lemma_entry_bytes_prefix(
            a[0],
            b[0],
            entries_bytes(a.drop_first()),
            entries_bytes(b.drop_first()),
        );
        lemma_entries_bytes_injective(a.drop_first(), b.drop_first());
        assert(a == seq![a[0]] + a.drop_first());
        assert(b == seq![b[0]] + b.drop_first());
    } else {
        assert(a == b);
    }
}

/// An entry with hashes of the right length and a path whose length fits the
/// field that it is written to.
pub open spec fn entry_is_writable(e: EntryView) -> bool {
    &&& encode_utf8(e.path).len() < 0x1_0000_0000
    &&& e.content_hash.len() == 32
    &&& e.info_hash is Some ==> e.info_hash->0.len() == 20
}

/// A manifest whose entry count fits the field that it is written to, with
/// such entries.
pub open spec fn is_writable(m: ManifestView) -> bool {
    &&& m.network_id.len() == 32
    &&& m.entries.len() < 0x1_0000_0000
    &&& forall|i: int| 0 <= i < m.entries.len() ==> entry_is_writable(#[trigger] m.entries[i])
}

/// Equal headers come from equal versions, networks, times and entry counts.
proof fn lemma_header_injective(a: ManifestView, b: ManifestView)
    requires
        is_writable(a),
        is_writable(b),
        header_bytes(a) == header_bytes(b),
    ensures
        a.version == b.version,
        a.network_id == b.network_id,
        a.created_at == b.created_at,
        a.entries.len() == b.entries.len(),
{
    let va = le64(a.version);
    let vb = le64(b.version);
    let ta = le64(a.created_at);
    let tb = le64(b.created_at);
    let na = a.entries.len() as u32;
    let nb = b.entries.len() as u32;
    let ca = le32(na);
    let cb = le32(nb);
    assert(header_bytes(a) == va + a.network_id + ta + ca);
    assert(header_bytes(b) == vb + b.network_id + tb + cb);
    lemma_cut_in_four(va, a.network_id, ta, ca, vb, b.network_id, tb, cb);
    lemma_le64_injective(a.version, b.version);
    lemma_le64_injective(a.created_at, b.created_at);
    lemma_le32_injective(na, nb);
}

/// A manifest can be written unambiguously if it has fewer than 2^32 entries
/// and no path of 2^32 bytes or more: its hashes have the right lengths.
pub proof fn lemma_manifest_is_writable(m: GroupManifest)
    requires
        m@.entries.len() < 0x1_0000_0000,
        forall|i: int|
            0 <= i < m@.entries.len() ==> encode_utf8((#[trigger] m@.entries[i]).path).len()
                < 0x1_0000_0000,
    ensures
        is_writable(m@),
{
    m.network_id.lemma_len();
    assert forall|i: int| 0 <= i < m@.entries.len() implies entry_is_writable(
        #[trigger] m@.entries[i],
    ) by {
        assert(m@.entries[i] == m.entries@[i]@);
    }
}

/// Canonical bytes determine the manifest: manifests that say different things
/// have different bytes, so a signature over the bytes is one over all that
/// the manifest says.
pub proof fn law_canonical_bytes_determine_manifest(a: ManifestView, b: ManifestView)
    requires
        is_writable(a),
        is_writable(b),
        canonical(a) == canonical(b),
    ensures
        a == b,
{
    assert(header_bytes(a).len() == header_bytes(b).len());
    lemma_cut(
        header_bytes(a),
        entries_bytes(a.entries),
        header_bytes(b),
        entries_bytes(b.entries),
    );
    lemma_header_injective(a, b);
    lemma_entries_bytes_injective(a.entries, b.entries);
}

// ── Building ────────────────────────────────────────────────────────

/// Builder for constructing a [`GroupManifest`] with validated entries.
pub struct ManifestBuilder {
    network_id: NetworkId,
    version: u64,
    created_at: u64,
    entries: Vec<ContentEntry>,
}

impl View for ManifestBuilder {
    type V = ManifestView;

    closed spec fn view(&self) -> ManifestView {
        ManifestView {
            version: self.version,
            network_id: self.network_id@,
            created_at: self.created_at,
            entries: entry_views(self.entries@),
        }
    }
}

/// A path that two entries share.
pub open spec fn is_shared_path(entries: Seq<EntryView>, path: Seq<char>) -> bool {
    exists|i: int, j: int|
        0 <= i < j < entries.len() && #[trigger] entries[i].path == path && #[trigger] entries[j].path
            == path
}

/// `path` is the first, in path order, of the paths that two entries share.
pub open spec fn is_first_shared_path(entries: Seq<EntryView>, path: Seq<char>) -> bool {
    &&& is_shared_path(entries, path)
    &&& forall|other: Seq<char>|
        #[trigger] is_shared_path(entries, other) ==> !path_before(other, path)
}

/// `sorted` holds what `entries` holds.
pub open spec fn same_entries(sorted: Seq<EntryView>, entries: Seq<EntryView>) -> bool {
    &&& sorted.len() == entries.len()
    &&& forall|e: EntryView| #[trigger] sorted.contains(e) <==> entries.contains(e)
}

impl ManifestBuilder {
    /// All paths have been checked.
    pub open spec fn wf(self) -> bool {
        paths_are_safe(self@.entries)
    }

    /// Sets the manifest version (must be > 0).
    pub fn version(self, v: u64) -> (r: ManifestBuilder)
        requires
            self.wf(),
        ensures
            r.wf(),
            r@ == (ManifestView { version: v, ..self@ }),
    {
        ManifestBuilder {
            network_id: self.network_id,
            version: v,
            created_at: self.created_at,
            entries: self.entries,
        }
    }

    /// Sets the creation timestamp (unix seconds since epoch).
    pub fn created_at(self, ts: u64) -> (r: ManifestBuilder)
        requires
            self.wf(),
        ensures
            r.wf(),
            r@ == (ManifestView { created_at: ts, ..self@ }),
    {
        ManifestBuilder {
            network_id: self.network_id,
            version: self.version,
            created_at: ts,
            entries: self.entries,
        }
    }

    /// Adds a content entry to the manifest.
    pub fn add_entry(self, entry: ContentEntry) -> (r: ManifestBuilder)
        requires
            self.wf(),
            entry.wf(),
        ensures
            r.wf(),
            r@ == (ManifestView { entries: self@.entries.push(entry@), ..self@ }),
    {
        let ghost before = self@.entries;
        let mut entries = self.entries;
        entries.push(entry);
        assert(entry_views(entries@) == before.push(entry@));
        ManifestBuilder {
            network_id: self.network_id,
            version: self.version,
            created_at: self.created_at,
            entries,
        }
    }

    /// Builds the manifest: the entries in path order, unsigned.
    pub fn build(self) -> (r: Result<GroupManifest, ManifestError>)
        requires
            self.wf(),
        ensures
            match r {
                Ok(m) => {
                    &&& m.wf()
                    &&& self@.version > 0
                    &&& forall|path: Seq<char>| !#[trigger] is_shared_path(self@.entries, path)
                    &&& same_entries(m@.entries, self@.entries)
                    &&& m@.version == self@.version
                    &&& m@.network_id == self@.network_id
                    &&& m@.created_at == self@.created_at
                    &&& m.spec_signature().len() == 0
                    &&& m.spec_signer_id().len() == 0
                },
                Err(ManifestError::ZeroVersion) => self@.version == 0,
                Err(ManifestError::DuplicatePath { path }) => {
                    &&& self@.version > 0
                    &&& is_first_shared_path(self@.entries, path@)
                },
                Err(_) => false,
            },
    {
        if self.version == 0 {
            return Err(ManifestError::ZeroVersion);
        }
        let order = stable_order(&self.entries);
        let ghost views = self@.entries;
        let mut sorted: Vec<ContentEntry> = Vec::with_capacity(self.entries.len());
        let mut i: usize = 0;
        while i < order.len()
            invariant
                is_stable_order(self.entries@, order@),
                i <= order@.len(),
                sorted@.len() == i,
                forall|p: int| 0 <= p < i ==> sorted@[p] == self.entries@[#[trigger] order@[p] as int],
            decreases order@.len() - i,
        {
            sorted.push(self.entries[order[i]].clone());
            i += 1;
        }
        let ghost out = entry_views(sorted@);
        proof {
            assert forall|p: int| 0 <= p < out.len() implies out[p] == views[#[trigger] order@[p] as int] by {
                assert(sorted@[p] == self.entries@[order@[p] as int]);
            }
        }
        let mut k: usize = 1;
        while k < sorted.len()
            invariant
                is_stable_order(self.entries@, order@),
                self@.entries == views,
                self@.version > 0,
                views == entry_views(self.entries@),
                out == entry_views(sorted@),
                out.len() == views.len(),
                order@.len() == views.len(),
                1 <= k,
                sorted@.len() > 0 ==> k <= sorted@.len(),
                forall|p: int| 0 <= p < out.len() ==> out[p] == views[#[trigger] order@[p] as int],
                forall|p: int| 0 < p < k && p < out.len() ==> (#[trigger] out[p]).path != out[p - 1].path,
            decreases sorted@.len() - k,
        {
            let a = &sorted[k - 1];
            let b = &sorted[k];
            if !a.before(b) && !b.before(a) {
                proof {
                    assert(out[k - 1] == a@ && out[k as int] == b@);
                    lemma_path_order(a@.path, b@.path);
                    lemma_first_shared(self.entries@, order@, out, k as int);
                }
                return Err(ManifestError::DuplicatePath { path: a.path.clone() });
            }
            proof {
                lemma_path_order(a@.path, b@.path);
            }
            k += 1;
        }
        proof {
            lemma_sorted_entries(self.entries@, order@, out);
        }
        Ok(
            GroupManifest {
                version: self.version,
                network_id: self.network_id,
                created_at: self.created_at,
                entries: sorted,
                signature: Vec::new(),
                signer_id: Vec::new(),
            },
        )
    }
}

/// Entries laid out in stable order stand in path order, equal paths side by
/// side.
proof fn lemma_laid_out(entries: Seq<ContentEntry>, order: Seq<usize>, out: Seq<EntryView>, p: int, q: int)
    requires
        is_stable_order(entries, order),
        out.len() == entries.len(),
        forall|p: int| 0 <= p < out.len() ==> out[p] == entries[#[trigger] order[p] as int]@,
        0 <= p < q < out.len(),
    ensures
        path_before(out[p].path, out[q].path) || out[p].path == out[q].path,
{
    assert(goes_before(entries, order[p] as int, order[q] as int));
    lemma_path_order(out[p].path, out[q].path);
}

/// Where the first pair of equal paths stands side by side, the path is the
/// first that two entries share.
proof fn lemma_first_shared(
    entries: Seq<ContentEntry>,
    order: Seq<usize>,
    out: Seq<EntryView>,
    k: int,
)
    requires
        is_stable_order(entries, order),
        out.len() == entries.len(),
        forall|p: int| 0 <= p < out.len() ==> out[p] == entries[#[trigger] order[p] as int]@,
        0 < k < out.len(),
        out[k - 1].path == out[k].path,
        forall|p: int| 0 < p < k ==> (#[trigger] out[p]).path != out[p - 1].path,
    ensures
        is_first_shared_path(entry_views(entries), out[k].path),
{
    let views = entry_views(entries);
    let path = out[k].path;
    let a = order[k - 1] as int;
    let b = order[k] as int;
    assert(goes_before(entries, order[k - 1] as int, order[k] as int));
    lemma_path_order(path, path);
    assert(a != b);
    assert(views[a].path == path && views[b].path == path);
    assert(is_shared_path(views, path)) by {
        if a < b {
            assert(views[a].path == path && views[b].path == path);
        } else {
            assert(views[b].path == path && views[a].path == path);
        }
    }
    assert forall|other: Seq<char>| #[trigger] is_shared_path(views, other) implies !path_before(
        other,
        path,
    ) by {
        if path_before(other, path) {
            let (i, j) = choose|i: int, j: int|
                0 <= i < j < views.len() && #[trigger] views[i].path == other
                    && #[trigger] views[j].path == other;
            lemma_stable_order_covers(entries, order, i);
            lemma_stable_order_covers(entries, order, j);
            let p = choose|p: int| 0 <= p < order.len() && #[trigger] order[p] == i;
            let q = choose|q: int| 0 <= q < order.len() && #[trigger] order[q] == j;
            assert(out[p].path == other && out[q].path == other);
            let first = if p < q { p } else { q };
            let second = if p < q { q } else { p };
            lemma_path_order(other, path);
            if second >= k {
                if second > k {
                    lemma_laid_out(entries, order, out, k, second);
                    lemma_path_order(path, other);
                }
            }
            assert(second < k);
            lemma_laid_out(entries, order, out, first, first + 1);
            if first + 1 < second {
                lemma_laid_out(entries, order, out, first + 1, second);
            }
            lemma_path_order(out[first].path, out[first + 1].path);
            lemma_path_order(out[first + 1].path, out[second].path);
            assert(out[first + 1].path == out[first].path);
            assert(false);
        }
    }
}

/// Where no two equal paths stand side by side, the entries are strictly
/// sorted and no path is shared.
proof fn lemma_sorted_entries(entries: Seq<ContentEntry>, order: Seq<usize>, out: Seq<EntryView>)
    requires
        is_stable_order(entries, order),
        out.len() == entries.len(),
        forall|p: int| 0 <= p < out.len() ==> out[p] == entries[#[trigger] order[p] as int]@,
        forall|p: int| 0 < p < out.len() ==> (#[trigger] out[p]).path != out[p - 1].path,
    ensures
        strictly_sorted(out),
        same_entries(out, entry_views(entries)),
        forall|path: Seq<char>| !#[trigger] is_shared_path(entry_views(entries), path),
        paths_are_safe(entry_views(entries)) ==> paths_are_safe(out),
{
    let views = entry_views(entries);
    assert forall|p: int, q: int| 0 <= p < q < out.len() implies path_before(
        #[trigger] out[p].path,
        #[trigger] out[q].path,
    ) by {
        lemma_laid_out(entries, order, out, p, q);
        if out[p].path == out[q].path {
            if p + 1 < q {
                lemma_laid_out(entries, order, out, p, p + 1);
                lemma_laid_out(entries, order, out, p + 1, q);
            }
            lemma_path_order(out[p].path, out[p + 1].path);
            assert(out[p + 1].path == out[p].path);
        }
    }
    assert forall|e: EntryView| #[trigger] out.contains(e) <==> views.contains(e) by {
        if out.contains(e) {
            let p = choose|p: int| 0 <= p < out.len() && out[p] == e;
            assert(views[order[p] as int] == e);
        }
        if views.contains(e) {
            let i = choose|i: int| 0 <= i < views.len() && views[i] == e;
            lemma_stable_order_covers(entries, order, i);
            let p = choose|p: int| 0 <= p < order.len() && #[trigger] order[p] == i;
            assert(out[p] == e);
        }
    }
    assert forall|path: Seq<char>| !#[trigger] is_shared_path(views, path) by {
        if is_shared_path(views, path) {
            let (i, j) = choose|i: int, j: int|
                0 <= i < j < views.len() && #[trigger] views[i].path == path
                    && #[trigger] views[j].path == path;
            lemma_stable_order_covers(entries, order, i);
            lemma_stable_order_covers(entries, order, j);
            let p = choose|p: int| 0 <= p < order.len() && #[trigger] order[p] == i;
            let q = choose|q: int| 0 <= q < order.len() && #[trigger] order[q] == j;
            assert(out[p].path == path && out[q].path == path);
            lemma_path_order(path, path);
            if p < q {
                assert(path_before(out[p].path, out[q].path));
            } else {
                assert(path_before(out[q].path, out[p].path));
            }
        }
    }
    if paths_are_safe(views) {
        assert forall|p: int| 0 <= p < out.len() implies (#[trigger] out[p]).path_is_safe() by {
            assert(views[order[p] as int].path_is_safe());
        }
    }
}

// ── Diffing ─────────────────────────────────────────────────────────

/// A difference between two manifests.
#[derive(Debug, PartialEq, Eq)]
pub enum ManifestDiff {
    /// A file was added in the new manifest.
    Added {
        /// The new entry.
        entry: ContentEntry,
    },
    /// A file was removed from the new manifest.
    Removed {
        /// Path of the removed file.
        path: String,
    },
    /// A file's content changed between manifests.
    Modified {
        /// Path of the modified file.
        path: String,
        /// SHA-256 hash from the old manifest.
        old_hash: [u8; 32],
        /// The updated entry from the new manifest.
        new_entry: ContentEntry,
    },
}

impl Clone for ManifestDiff {
    fn clone(&self) -> (r: ManifestDiff)
        ensures
            r == *self,
    {
        match self {
            ManifestDiff::Added { entry } => ManifestDiff::Added { entry: entry.clone() },
            ManifestDiff::Removed { path } => ManifestDiff::Removed { path: path.clone() },
            ManifestDiff::Modified { path, old_hash, new_entry } => ManifestDiff::Modified {
                path: path.clone(),
                old_hash: *old_hash,
                new_entry: new_entry.clone(),
            },
        }
    }
}

/// What a difference says.
pub enum DiffView {
    Added { entry: EntryView },
    Removed { path: Seq<char> },
    Modified { path: Seq<char>, old_hash: Seq<u8>, new_entry: EntryView },
}

impl View for ManifestDiff {
    type V = DiffView;

    open spec fn view(&self) -> DiffView {
        match *self {
            ManifestDiff::Added { entry } => DiffView::Added { entry: entry@ },
            ManifestDiff::Removed { path } => DiffView::Removed { path: path@ },
            ManifestDiff::Modified { path, old_hash, new_entry } => DiffView::Modified {
                path: path@,
                old_hash: old_hash@,
                new_entry: new_entry@,
            },
        }
    }
}

/// The model of a list of differences.
pub open spec fn diff_views(diffs: Seq<ManifestDiff>) -> Seq<DiffView> {
    Seq::new(diffs.len(), |i: int| diffs[i]@)
}

/// Whether the content of a file changed. The info hash does not count.
pub open spec fn content_changed(old: EntryView, new: EntryView) -> bool {
    old.content_hash != new.content_hash || old.file_size != new.file_size
}

/// The differences that a walk through both lists finds, smaller path first.
pub open spec fn merge_diff(old: Seq<EntryView>, new: Seq<EntryView>) -> Seq<DiffView>
    decreases old.len() + new.len(),
{
    if old.len() == 0 && new.len() == 0 {
        Seq::empty()
    } else if new.len() == 0 || (old.len() > 0 && path_before(old[0].path, new[0].path)) {
        seq![DiffView::Removed { path: old[0].path }] + merge_diff(old.drop_first(), new)
    } else if old.len() == 0 || path_before(new[0].path, old[0].path) {
        seq![DiffView::Added { entry: new[0] }] + merge_diff(old, new.drop_first())
    } else if content_changed(old[0], new[0]) {
        seq![
            DiffView::Modified {
                path: old[0].path,
                old_hash: old[0].content_hash,
                new_entry: new[0],
            },
        ] + merge_diff(old.drop_first(), new.drop_first())
    } else {
        merge_diff(old.drop_first(), new.drop_first())
    }
}

/// Computes the differences between two entry lists, both sorted by path.
///
/// Walks both lists at once, comparing paths.
pub fn diff_manifests(old: &[ContentEntry], new: &[ContentEntry]) -> (r: Vec<ManifestDiff>)
    ensures
        diff_views(r@) == merge_diff(entry_views(old@), entry_views(new@)),
{
    let mut result: Vec<ManifestDiff> = Vec::new();
    let mut i: usize = 0;
    let mut j: usize = 0;
    let ghost olds = entry_views(old@);
    let ghost news = entry_views(new@);
    assert(olds.skip(0) == olds && news.skip(0) == news);
    while i < old.len() || j < new.len()
        invariant
            i <= old@.len(),
            j <= new@.len(),
            olds == entry_views(old@),
            news == entry_views(new@),
            merge_diff(olds, news) == diff_views(result@) + merge_diff(
                olds.skip(i as int),
                news.skip(j as int),
            ),
        decreases old@.len() - i + new@.len() - j,
    {
        let ghost before = diff_views(result@);
        let ghost rest_old = olds.skip(i as int);
        let ghost rest_new = news.skip(j as int);
        proof {
            if i < old@.len() {
                assert(rest_old[0] == old@[i as int]@);
                assert(rest_old.drop_first() == olds.skip(i + 1));
            }
            if j < new@.len() {
                assert(rest_new[0] == new@[j as int]@);
                assert(rest_new.drop_first() == news.skip(j + 1));
            }
        }
        if j >= new.len() || (i < old.len() && old[i].before(&new[j])) {
            let diff = ManifestDiff::Removed { path: old[i].path.clone() };
            proof {
                lemma_diff_push(
                    result@,
                    diff,
                    merge_diff(rest_old.drop_first(), rest_new),
                );
            }
            result.push(diff);
            i += 1;
        } else if i >= old.len() || new[j].before(&old[i]) {
            let diff = ManifestDiff::Added { entry: new[j].clone() };
            proof {
                lemma_diff_push(
                    result@,
                    diff,
                    merge_diff(rest_old, rest_new.drop_first()),
                );
            }
            result.push(diff);
            j += 1;
        } else {
            let was = &old[i];
            let is = &new[j];
            if !arrays_equal(&was.content_hash, &is.content_hash) || was.file_size != is.file_size {
                let diff = ManifestDiff::Modified {
                    path: was.path.clone(),
                    old_hash: was.content_hash,
                    new_entry: is.clone(),
                };
                proof {
                    lemma_diff_push(
                        result@,
                        diff,
                        merge_diff(rest_old.drop_first(), rest_new.drop_first()),
                    );
                }
                result.push(diff);
            }
            i += 1;
            j += 1;
        }
    }
    proof {
        assert(olds.skip(i as int).len() == 0 && news.skip(j as int).len() == 0);
        assert(diff_views(result@) + Seq::<DiffView>::empty() == diff_views(result@));
    }
    result
}

/// One more difference goes behind the others and before the rest.
proof fn lemma_diff_push(done: Seq<ManifestDiff>, diff: ManifestDiff, rest: Seq<DiffView>)
    ensures
        diff_views(done) + (seq![diff@] + rest) == diff_views(done.push(diff)) + rest,
{
    assert(diff_views(done.push(diff)) == diff_views(done).push(diff@));
    assert(diff_views(done) + (seq![diff@] + rest) == diff_views(done.push(diff)) + rest);
}

/// A list of entries differs from itself in nothing.
pub proof fn law_diff_of_same_is_empty(entries: Seq<EntryView>)
    ensures
        merge_diff(entries, entries) == Seq::<DiffView>::empty(),
    decreases entries.len(),
{
    if entries.len() > 0 {
        lemma_path_order(entries[0].path, entries[0].path);
        law_diff_of_same_is_empty(entries.drop_first());
    }
}

/// Some entry has this path.
pub open spec fn has_path(entries: Seq<EntryView>, path: Seq<char>) -> bool {
    exists|i: int| 0 <= i < entries.len() && (#[trigger] entries[i]).path == path
}

/// The entry that had this path had this hash and other content.
pub open spec fn was_changed(
    old: Seq<EntryView>,
    path: Seq<char>,
    old_hash: Seq<u8>,
    new_entry: EntryView,
) -> bool {
    exists|i: int|
        0 <= i < old.len() && (#[trigger] old[i]).path == path && old[i].content_hash == old_hash
            && content_changed(old[i], new_entry)
}

/// What belongs in the difference of two lists: entries of the new one whose
/// path is not in the old one, paths of the old one that are not in the new
/// one, and paths in both whose content changed.
pub open spec fn is_difference(old: Seq<EntryView>, new: Seq<EntryView>, d: DiffView) -> bool {
    match d {
        DiffView::Added { entry } => new.contains(entry) && !has_path(old, entry.path),
        DiffView::Removed { path } => has_path(old, path) && !has_path(new, path),
        DiffView::Modified { path, old_hash, new_entry } => {
            &&& new.contains(new_entry)
            &&& new_entry.path == path
            &&& was_changed(old, path, old_hash, new_entry)
        },
    }
}

/// The first entry of a sorted list comes before all others.
proof fn lemma_first_is_least(entries: Seq<EntryView>, path: Seq<char>)
    requires
        strictly_sorted(entries),
        entries.len() > 0,
        path == entries[0].path || path_before(path, entries[0].path),
    ensures
        !has_path(entries.drop_first(), path),
        path != entries[0].path ==> !has_path(entries, path),
        strictly_sorted(entries.drop_first()),
{
    let rest = entries.drop_first();
    assert forall|i: int| 0 <= i < rest.len() implies (#[trigger] rest[i]).path != path by {
        assert(rest[i] == entries[i + 1]);
        assert(path_before(entries[0].path, entries[i + 1].path));
        lemma_path_order(entries[0].path, rest[i].path);
        lemma_path_order(path, rest[i].path);
        if path != entries[0].path {
            lemma_path_transitive(path, entries[0].path, rest[i].path);
        }
    }
    assert forall|i: int, j: int| 0 <= i < j < rest.len() implies path_before(
        #[trigger] rest[i].path,
        #[trigger] rest[j].path,
    ) by {
        assert(rest[i] == entries[i + 1] && rest[j] == entries[j + 1]);
    }
    if path != entries[0].path && has_path(entries, path) {
        let i = choose|i: int| 0 <= i < entries.len() && (#[trigger] entries[i]).path == path;
        assert(rest[i - 1] == entries[i]);
    }
}

/// A path is in a list if it is that of the first entry or in the rest, and
/// so is an entry.
proof fn lemma_split_first(entries: Seq<EntryView>, path: Seq<char>, e: EntryView)
    requires
        entries.len() > 0,
    ensures
        has_path(entries, path) <==> path == entries[0].path || has_path(
            entries.drop_first(),
            path,
        ),
        entries.contains(e) <==> e == entries[0] || entries.drop_first().contains(e),
        entries.contains(e) ==> has_path(entries, e.path),
{
    let rest = entries.drop_first();
    if has_path(rest, path) {
        let i = choose|i: int| 0 <= i < rest.len() && (#[trigger] rest[i]).path == path;
        assert(entries[i + 1] == rest[i]);
    }
    if has_path(entries, path) && path != entries[0].path {
        let i = choose|i: int| 0 <= i < entries.len() && (#[trigger] entries[i]).path == path;
        assert(entries[i] == rest[i - 1]);
    }
    if rest.contains(e) {
        let i = choose|i: int| 0 <= i < rest.len() && rest[i] == e;
        assert(entries[i + 1] == e);
    }
    if entries.contains(e) {
        let i = choose|i: int| 0 <= i < entries.len() && entries[i] == e;
        assert(entries[i].path == e.path);
        if e != entries[0] {
            assert(rest[i - 1] == e);
        }
    }
    assert(entries[0] == entries[0]);
}

/// A changed entry is the first one or one of the rest.
proof fn lemma_split_changed(
    entries: Seq<EntryView>,
    path: Seq<char>,
    old_hash: Seq<u8>,
    new_entry: EntryView,
)
    requires
        entries.len() > 0,
    ensures
        was_changed(entries, path, old_hash, new_entry) <==> {
            ||| was_changed(entries.drop_first(), path, old_hash, new_entry)
            ||| entries[0].path == path && entries[0].content_hash == old_hash && content_changed(
                entries[0],
                new_entry,
            )
        },
        was_changed(entries, path, old_hash, new_entry) ==> has_path(entries, path),
{
    let rest = entries.drop_first();
    if was_changed(rest, path, old_hash, new_entry) {
        let i = choose|i: int|
            0 <= i < rest.len() && (#[trigger] rest[i]).path == path && rest[i].content_hash
                == old_hash && content_changed(rest[i], new_entry);
        assert(entries[i + 1] == rest[i]);
    }
    if was_changed(entries, path, old_hash, new_entry) {
        let i = choose|i: int|
            0 <= i < entries.len() && (#[trigger] entries[i]).path == path
                && entries[i].content_hash == old_hash && content_changed(entries[i], new_entry);
        if i > 0 {
            assert(rest[i - 1] == entries[i]);
        }
    }
}

/// An element of a list is the first one or one of the others.
proof fn lemma_contains_first(first: DiffView, rest: Seq<DiffView>, d: DiffView)
    ensures
        (seq![first] + rest).contains(d) <==> d == first || rest.contains(d),
{
    let all = seq![first] + rest;
    assert(all[0] == first);
    if rest.contains(d) {
        let i = choose|i: int| 0 <= i < rest.len() && rest[i] == d;
        assert(all[i + 1] == d);
    }
    if all.contains(d) && d != first {
        let i = choose|i: int| 0 <= i < all.len() && all[i] == d;
        assert(rest[i - 1] == d);
    }
}

/// The path that a difference is about.
pub open spec fn diff_path(d: DiffView) -> Seq<char> {
    match d {
        DiffView::Added { entry } => entry.path,
        DiffView::Removed { path } => path,
        DiffView::Modified { path, .. } => path,
    }
}

/// The differences of two sorted lists are those that belong there, no more
/// and no fewer.
pub proof fn law_diff_is_complete(old: Seq<EntryView>, new: Seq<EntryView>, d: DiffView)
    requires
        strictly_sorted(old),
        strictly_sorted(new),
    ensures
        merge_diff(old, new).contains(d) <==> is_difference(old, new, d),
    decreases old.len() + new.len(),
{
    let path = diff_path(d);
    let entry = match d {
        DiffView::Added { entry } => entry,
        DiffView::Removed { .. } => arbitrary(),
        DiffView::Modified { new_entry, .. } => new_entry,
    };
    if old.len() > 0 {
        lemma_first_is_least(old, old[0].path);
        lemma_split_first(old, path, entry);
        if d is Modified {
            lemma_split_changed(old, path, d->old_hash, entry);
        }
    }
    if new.len() > 0 {
        lemma_first_is_least(new, new[0].path);
        lemma_split_first(new, path, entry);
    }
    if old.len() == 0 && new.len() == 0 {
    } else if new.len() == 0 || (old.len() > 0 && path_before(old[0].path, new[0].path)) {
        law_diff_is_complete(old.drop_first(), new, d);
        lemma_contains_first(
            DiffView::Removed { path: old[0].path },
            merge_diff(old.drop_first(), new),
            d,
        );
        if new.len() > 0 {
            lemma_path_order(old[0].path, new[0].path);
            lemma_first_is_least(new, old[0].path);
        }
    } else if old.len() == 0 || path_before(new[0].path, old[0].path) {
        law_diff_is_complete(old, new.drop_first(), d);
        lemma_contains_first(
            DiffView::Added { entry: new[0] },
            merge_diff(old, new.drop_first()),
            d,
        );
        if old.len() > 0 {
            lemma_path_order(new[0].path, old[0].path);
            lemma_first_is_least(old, new[0].path);
        }
    } else {
        let first = DiffView::Modified {
            path: old[0].path,
            old_hash: old[0].content_hash,
            new_entry: new[0],
        };
        lemma_path_order(old[0].path, new[0].path);
        law_diff_is_complete(old.drop_first(), new.drop_first(), d);
        lemma_contains_first(first, merge_diff(old.drop_first(), new.drop_first()), d);
        if new.drop_first().len() > 0 {
            lemma_split_first(new.drop_first(), path, entry);
        }
        if old.drop_first().len() > 0 && d is Modified {
            lemma_split_changed(old.drop_first(), path, d->old_hash, entry);
        }
    }
}

/// Every difference is about a path of one of the lists.
proof fn lemma_diff_path(old: Seq<EntryView>, new: Seq<EntryView>, d: DiffView)
    requires
        strictly_sorted(old),
        strictly_sorted(new),
        merge_diff(old, new).contains(d),
    ensures
        has_path(old, diff_path(d)) || has_path(new, diff_path(d)),
{
    law_diff_is_complete(old, new, d);
    match d {
        DiffView::Added { entry } => {
            let i = choose|i: int| 0 <= i < new.len() && new[i] == entry;
            assert(new[i].path == entry.path);
        },
        DiffView::Removed { .. } => {},
        DiffView::Modified { new_entry, .. } => {
            let i = choose|i: int| 0 <= i < new.len() && new[i] == new_entry;
            assert(new[i].path == new_entry.path);
        },
    }
}

/// A path that is not after the first of a sorted list is before all that come
/// later.
proof fn lemma_before_rest(entries: Seq<EntryView>, first: Seq<char>, path: Seq<char>)
    requires
        strictly_sorted(entries),
        entries.len() > 0 ==> !path_before(entries[0].path, first),
        has_path(entries, path),
        path != first,
    ensures
        path_before(first, path),
{
    let i = choose|i: int| 0 <= i < entries.len() && (#[trigger] entries[i]).path == path;
    lemma_path_order(entries[0].path, first);
    if i > 0 {
        assert(path_before(entries[0].path, entries[i].path));
        if entries[0].path != first {
            lemma_path_transitive(first, entries[0].path, path);
        }
    }
}

/// A path of what is left of a list is one of the list.
proof fn lemma_rest_has_path(entries: Seq<EntryView>, rest: Seq<EntryView>, path: Seq<char>)
    requires
        rest == entries || (entries.len() > 0 && rest == entries.drop_first()),
        has_path(rest, path),
    ensures
        has_path(entries, path),
{
    if entries.len() > 0 {
        lemma_split_first(entries, path, entries[0]);
    }
}

/// The differences of two sorted lists ascend strictly by path: no path comes
/// twice, and none before a smaller one.
pub proof fn law_diff_is_sorted(old: Seq<EntryView>, new: Seq<EntryView>, i: int, j: int)
    requires
        strictly_sorted(old),
        strictly_sorted(new),
        0 <= i < j < merge_diff(old, new).len(),
    ensures
        path_before(diff_path(merge_diff(old, new)[i]), diff_path(merge_diff(old, new)[j])),
    decreases old.len() + new.len(),
{
    let all = merge_diff(old, new);
    if old.len() > 0 {
        lemma_first_is_least(old, old[0].path);
    }
    if new.len() > 0 {
        lemma_first_is_least(new, new[0].path);
    }
    if old.len() > 0 && new.len() > 0 {
        lemma_path_order(old[0].path, new[0].path);
    }
    let removes = new.len() == 0 || (old.len() > 0 && path_before(old[0].path, new[0].path));
    let adds = !removes && (old.len() == 0 || path_before(new[0].path, old[0].path));
    let rest_old = if adds {
        old
    } else {
        old.drop_first()
    };
    let rest_new = if removes {
        new
    } else {
        new.drop_first()
    };
    let first = if adds {
        new[0].path
    } else {
        old[0].path
    };
    let rest = merge_diff(rest_old, rest_new);
    if !removes && !adds && !content_changed(old[0], new[0]) {
        law_diff_is_sorted(rest_old, rest_new, i, j);
    } else {
        assert(all.drop_first() == rest);
        assert(all[j] == rest[j - 1]);
        if i > 0 {
            assert(all[i] == rest[i - 1]);
            law_diff_is_sorted(rest_old, rest_new, i - 1, j - 1);
        } else {
            let path = diff_path(all[j]);
            assert(rest.contains(rest[j - 1]));
            lemma_diff_path(rest_old, rest_new, rest[j - 1]);
            if removes {
                if new.len() > 0 {
                    lemma_first_is_least(new, first);
                }
            } else if adds {
                if old.len() > 0 {
                    lemma_first_is_least(old, first);
                }
            }
            if has_path(rest_old, path) {
                lemma_rest_has_path(old, rest_old, path);
                lemma_before_rest(old, first, path);
            } else {
                lemma_rest_has_path(new, rest_new, path);
                lemma_before_rest(new, first, path);
            }
        }
    }
}

// ── Laws of paths, bytes and sums ───────────────────────────────────

/// Which paths are refused: the empty one, those with a backslash or a zero
/// character, those that begin with a slash, and those with `..` as a whole
/// component. All others are fine, dots inside a name too.
pub proof fn law_refused_paths(path: Seq<char>, a: Seq<char>, b: Seq<char>)
    ensures
        path_fault(Seq::empty()) == Some(ManifestErrorView::EmptyPath),
        path.len() > 0 && (path.contains('\\') || path[0] == '/' || path.contains('\0'))
            ==> path_fault(path) is Some,
        path_fault(seq!['.', '.']) is Some,
        path_fault(seq!['.', '.', '/'] + b) is Some,
        path_fault(a + seq!['/', '.', '.']) is Some,
        path_fault(a + seq!['/', '.', '.', '/'] + b) is Some,
        path.len() > 0 && !path.contains('\\') && path[0] != '/' && !path.contains('\0') && (forall|
            i: int,
        |
            0 <= i < path.len() - 1 && #[trigger] path[i] == '.' && path[i + 1] == '.' ==> i > 0
                && path[i - 1] != '/' || i + 2 < path.len() && path[i + 2] != '/')
            ==> path_fault(path) is None,
        path_fault(path) is None ==> path.len() > 0 && !path.contains('\\') && path[0] != '/'
            && !path.contains('\0'),
{
    let alone = seq!['.', '.'];
    assert(parent_at(alone, 0));
    let first = seq!['.', '.', '/'] + b;
    assert(parent_at(first, 0));
    let last = a + seq!['/', '.', '.'];
    assert(parent_at(last, a.len() as int + 1));
    let inner = a + seq!['/', '.', '.', '/'] + b;
    assert(parent_at(inner, a.len() as int + 1));
    if has_parent_component(path) {
        let i = choose|i: int| #[trigger] parent_at(path, i);
        assert(path[i] == '.');
    }
}

/// What a manifest is signed over: version, network, time and the number of
/// entries, then each entry with the length of its path, its path, its content
/// hash, its size, and its info hash behind a 1 or a 0 in its place.
pub proof fn law_signed_bytes(m: ManifestView, e: EntryView, rest: Seq<EntryView>, h: Seq<u8>)
    requires
        m.entries.len() <= 0xFFFF_FFFF,
        encode_utf8(e.path).len() <= 0xFFFF_FFFF,
    ensures
        canonical(m) == le64(m.version) + m.network_id + le64(m.created_at) + le32(
            m.entries.len() as u32,
        ) + entries_bytes(m.entries),
        entries_bytes(Seq::empty()).len() == 0,
        entries_bytes(seq![e] + rest) == entry_bytes(e) + entries_bytes(rest),
        e.info_hash == Some(h) ==> entry_bytes(e) == le32(encode_utf8(e.path).len() as u32)
            + encode_utf8(e.path) + e.content_hash + le64(e.file_size) + seq![1u8] + h,
        e.info_hash is None ==> entry_bytes(e) == le32(encode_utf8(e.path).len() as u32)
            + encode_utf8(e.path) + e.content_hash + le64(e.file_size) + seq![0u8],
{
    assert((seq![e] + rest).drop_first() == rest);
}

/// Sizes add up entry by entry.
pub proof fn law_sizes_add_up(entries: Seq<EntryView>, last: EntryView)
    ensures
        size_sum(Seq::empty()) == 0,
        size_sum(entries.push(last)) == size_sum(entries) + last.file_size,
{
    assert(entries.push(last).drop_last() == entries);
}

/// A file in both lists is reported as changed exactly if its content hash or its
/// size differs, with the hash that it had; one that only one list has is
/// reported as added or removed.
pub proof fn law_changed_files(old: Seq<EntryView>, new: Seq<EntryView>, i: int, j: int)
    requires
        strictly_sorted(old),
        strictly_sorted(new),
    ensures
        0 <= i < old.len() && 0 <= j < new.len() && old[i].path == new[j].path ==> {
            let changed = DiffView::Modified {
                path: old[i].path,
                old_hash: old[i].content_hash,
                new_entry: new[j],
            };
            merge_diff(old, new).contains(changed) <==> old[i].content_hash != new[j].content_hash
                || old[i].file_size != new[j].file_size
        },
        0 <= j < new.len() && (forall|k: int|
            0 <= k < old.len() ==> (#[trigger] old[k]).path != new[j].path) ==> merge_diff(
            old,
            new,
        ).contains((DiffView::Added { entry: new[j] })),
        0 <= i < old.len() && (forall|k: int|
            0 <= k < new.len() ==> (#[trigger] new[k]).path != old[i].path) ==> merge_diff(
            old,
            new,
        ).contains((DiffView::Removed { path: old[i].path })),
{
    if 0 <= i < old.len() && 0 <= j < new.len() && old[i].path == new[j].path {
        let changed = DiffView::Modified {
            path: old[i].path,
            old_hash: old[i].content_hash,
            new_entry: new[j],
        };
        law_diff_is_complete(old, new, changed);
        assert(new.contains(new[j]));
        if was_changed(old, old[i].path, old[i].content_hash, new[j]) {
            let k = choose|k: int|
                0 <= k < old.len() && (#[trigger] old[k]).path == old[i].path
                    && old[k].content_hash == old[i].content_hash && content_changed(
                    old[k],
                    new[j],
                );
            lemma_one_place(old, i, k);
        }
    }
    if 0 <= j < new.len() {
        law_diff_is_complete(old, new, DiffView::Added { entry: new[j] });
        assert(new.contains(new[j]));
    }
    if 0 <= i < old.len() {
        law_diff_is_complete(old, new, DiffView::Removed { path: old[i].path });
    }
}

/// In a sorted list a path stands in one place.
proof fn lemma_one_place(entries: Seq<EntryView>, i: int, k: int)
    requires
        strictly_sorted(entries),
        0 <= i < entries.len(),
        0 <= k < entries.len(),
        entries[i].path == entries[k].path,
    ensures
        i == k,
{
    lemma_path_order(entries[i].path, entries[i].path);
    if i < k {
        assert(path_before(entries[i].path, entries[k].path));
    } else if k < i {
        assert(path_before(entries[k].path, entries[i].path));
    }
}

/// Paths ascend in the order of their bytes, and none comes twice.
pub proof fn law_paths_ascend(entries: Seq<EntryView>, i: int, j: int, a: Seq<char>, b: Seq<char>)
    ensures
        strictly_sorted(entries) && 0 <= i < j < entries.len() ==> entries[i].path
            != entries[j].path && lex_before(
            encode_utf8(entries[i].path),
            encode_utf8(entries[j].path),
        ),
        path_before(a, b) <==> lex_before(encode_utf8(a), encode_utf8(b)),
{
    if strictly_sorted(entries) && 0 <= i < j < entries.len() {
        assert(path_before(entries[i].path, entries[j].path));
        lemma_path_order(entries[i].path, entries[i].path);
    }
}

/// The path that is reported as a duplicate is that of two entries, and no two
/// entries share a smaller one.
pub proof fn law_reported_duplicate(entries: Seq<EntryView>, path: Seq<char>, i: int, j: int)
    requires
        is_first_shared_path(entries, path),
        0 <= i < j < entries.len(),
        entries[i].path == entries[j].path,
    ensures
        entries[i].path == path || path_before(path, entries[i].path),
        exists|a: int, b: int|
            0 <= a < b < entries.len() && (#[trigger] entries[a]).path == path && (
            #[trigger] entries[b]).path == path,
{
    assert(is_shared_path(entries, entries[i].path));
    lemma_path_order(path, entries[i].path);
}

} // verus!
