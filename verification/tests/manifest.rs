//! Manifests, their paths, canonical bytes and differences.

use p2p_distribute::manifest::{
    diff_manifests, ContentEntry, GroupManifest, ManifestDiff, ManifestError,
};
use p2p_distribute::network_id::NetworkId;

/// Helper: creates a content entry with a fill-byte hash.
fn entry(path: &str, hash_byte: u8, size: u64) -> ContentEntry {
    ContentEntry::new(path, [hash_byte; 32], size).unwrap()
}

/// Empty paths are rejected.
#[test]
fn path_rejects_empty() {
    let err = ContentEntry::new("", [0; 32], 0).unwrap_err();
    assert!(err.display().contains("empty"));
}

/// Backslashes are rejected — paths must use forward slashes.
#[test]
fn path_rejects_backslash() {
    let err = ContentEntry::new("dir\\file.txt", [0; 32], 0).unwrap_err();
    assert!(err.display().contains("backslash"));
}

/// Leading slashes are rejected — paths must be relative.
#[test]
fn path_rejects_leading_slash() {
    let err = ContentEntry::new("/etc/passwd", [0; 32], 0).unwrap_err();
    assert!(err.display().contains("absolute"));
}

/// Parent traversal (`..`) is rejected.
#[test]
fn path_rejects_parent_traversal() {
    let err = ContentEntry::new("../secret.txt", [0; 32], 0).unwrap_err();
    assert!(err.display().contains("traversal"));
}

/// Null bytes are rejected.
#[test]
fn path_rejects_null_bytes() {
    let err = ContentEntry::new("file\0.txt", [0; 32], 0).unwrap_err();
    assert!(err.display().contains("null"));
}

/// Valid nested paths are accepted.
#[test]
fn path_accepts_nested_forward_slashes() {
    let e = ContentEntry::new("maps/subfolder/map1.mix", [0xAA; 32], 1024).unwrap();
    assert_eq!(e.path(), "maps/subfolder/map1.mix");
}

/// Fields round-trip through construction and getters.
#[test]
fn content_entry_roundtrip() {
    let hash = [0x42; 32];
    let e = ContentEntry::new("data/file.bin", hash, 99_999).unwrap();
    assert_eq!(e.path(), "data/file.bin");
    assert_eq!(e.content_hash(), &hash);
    assert_eq!(e.file_size(), 99_999);
    assert_eq!(e.info_hash(), None);
}

/// `with_info_hash` attaches a torrent info hash.
#[test]
fn content_entry_with_info_hash() {
    let ih = [0xBE; 20];
    let e = ContentEntry::new("file.zip", [0; 32], 500)
        .unwrap()
        .with_info_hash(ih);
    assert_eq!(e.info_hash(), Some(&ih));
}

/// Builder rejects version 0.
#[test]
fn builder_rejects_zero_version() {
    let result = GroupManifest::builder(NetworkId::test()).version(0).build();
    assert!(result.is_err());
    assert!(result.unwrap_err().display().contains("version"));
}

/// Builder sorts entries by path.
#[test]
fn builder_sorts_entries() {
    let m = GroupManifest::builder(NetworkId::test())
        .version(1)
        .add_entry(entry("z.txt", 0, 1))
        .add_entry(entry("a.txt", 0, 2))
        .add_entry(entry("m.txt", 0, 3))
        .build()
        .unwrap();
    let paths: Vec<&str> = m.entries().iter().map(|e| e.path()).collect();
    assert_eq!(paths, vec!["a.txt", "m.txt", "z.txt"]);
}

/// Builder rejects duplicate paths.
#[test]
fn builder_rejects_duplicates() {
    let result = GroupManifest::builder(NetworkId::test())
        .version(1)
        .add_entry(entry("same.txt", 0xAA, 1))
        .add_entry(entry("same.txt", 0xBB, 2))
        .build();
    assert!(result.is_err());
    assert!(result.unwrap_err().display().contains("same.txt"));
}

/// Empty manifest (no entries) is valid.
#[test]
fn builder_allows_empty_entries() {
    let m = GroupManifest::builder(NetworkId::test())
        .version(1)
        .build()
        .unwrap();
    assert_eq!(m.entry_count(), 0);
}

/// `get_entry` finds entries by path via binary search.
#[test]
fn get_entry_finds_by_path() {
    let m = GroupManifest::builder(NetworkId::test())
        .version(1)
        .add_entry(entry("alpha.bin", 0xAA, 100))
        .add_entry(entry("beta.bin", 0xBB, 200))
        .build()
        .unwrap();

    let found = m.get_entry("beta.bin").unwrap();
    assert_eq!(found.file_size(), 200);
    assert!(m.get_entry("gamma.bin").is_none());
}

/// `total_size` sums all entry sizes.
#[test]
fn total_size_sums_entries() {
    let m = GroupManifest::builder(NetworkId::test())
        .version(1)
        .add_entry(entry("a", 0, 100))
        .add_entry(entry("b", 0, 200))
        .add_entry(entry("c", 0, 300))
        .build()
        .unwrap();
    assert_eq!(m.total_size(), 600);
}

/// Unsigned manifest reports `is_signed() == false`.
#[test]
fn unsigned_manifest() {
    let m = GroupManifest::builder(NetworkId::test())
        .version(1)
        .build()
        .unwrap();
    assert!(!m.is_signed());
    assert!(m.signature().is_empty());
    assert!(m.signer_id().is_empty());
}

/// `set_signature` attaches signature and signer_id.
#[test]
fn set_signature_marks_as_signed() {
    let mut m = GroupManifest::builder(NetworkId::test())
        .version(1)
        .build()
        .unwrap();
    m.set_signature(vec![0xDE, 0xAD], vec![0xBE, 0xEF]);
    assert!(m.is_signed());
    assert_eq!(m.signature(), &[0xDE, 0xAD]);
    assert_eq!(m.signer_id(), &[0xBE, 0xEF]);
}

/// Same manifest always produces the same canonical bytes.
#[test]
fn canonical_bytes_deterministic() {
    let m = GroupManifest::builder(NetworkId::test())
        .version(1)
        .created_at(1_700_000_000)
        .add_entry(entry("file.bin", 0xAA, 1024))
        .build()
        .unwrap();
    let b1 = m.canonical_bytes();
    let b2 = m.canonical_bytes();
    assert_eq!(b1, b2);
}

/// Changing the version changes canonical bytes.
#[test]
fn canonical_bytes_differ_on_version_change() {
    let m1 = GroupManifest::builder(NetworkId::test())
        .version(1)
        .add_entry(entry("f.bin", 0, 10))
        .build()
        .unwrap();
    let m2 = GroupManifest::builder(NetworkId::test())
        .version(2)
        .add_entry(entry("f.bin", 0, 10))
        .build()
        .unwrap();
    assert_ne!(m1.canonical_bytes(), m2.canonical_bytes());
}

/// Canonical bytes include the info_hash when present.
#[test]
fn canonical_bytes_differ_with_info_hash() {
    let e_no_ih = ContentEntry::new("f.bin", [0; 32], 10).unwrap();
    let e_with_ih = ContentEntry::new("f.bin", [0; 32], 10)
        .unwrap()
        .with_info_hash([0xFF; 20]);

    let m1 = GroupManifest::builder(NetworkId::test())
        .version(1)
        .add_entry(e_no_ih)
        .build()
        .unwrap();
    let m2 = GroupManifest::builder(NetworkId::test())
        .version(1)
        .add_entry(e_with_ih)
        .build()
        .unwrap();
    assert_ne!(m1.canonical_bytes(), m2.canonical_bytes());
}

/// Identical manifests produce an empty diff.
#[test]
fn diff_no_changes() {
    let entries = &[entry("a.txt", 0xAA, 100), entry("b.txt", 0xBB, 200)];
    let diffs = diff_manifests(entries, entries);
    assert!(diffs.is_empty());
}

/// Files only in the new manifest appear as Added.
#[test]
fn diff_added_files() {
    let old: &[ContentEntry] = &[];
    let new = &[entry("new_file.bin", 0xCC, 500)];
    let diffs = diff_manifests(old, new);
    assert_eq!(diffs.len(), 1);
    assert!(
        matches!(&diffs[0], ManifestDiff::Added { entry } if entry.path() == "new_file.bin")
    );
}

/// Files only in the old manifest appear as Removed.
#[test]
fn diff_removed_files() {
    let old = &[entry("gone.bin", 0xDD, 300)];
    let new: &[ContentEntry] = &[];
    let diffs = diff_manifests(old, new);
    assert_eq!(diffs.len(), 1);
    assert!(matches!(&diffs[0], ManifestDiff::Removed { path } if path == "gone.bin"));
}

/// Files with the same path but different hash appear as Modified.
#[test]
fn diff_modified_files() {
    let old = &[entry("data.bin", 0xAA, 100)];
    let new = &[entry("data.bin", 0xBB, 200)];
    let diffs = diff_manifests(old, new);
    assert_eq!(diffs.len(), 1);
    match &diffs[0] {
        ManifestDiff::Modified {
            path,
            old_hash,
            new_entry,
        } => {
            assert_eq!(path, "data.bin");
            assert_eq!(old_hash, &[0xAA; 32]);
            assert_eq!(new_entry.file_size(), 200);
        }
        other => panic!("expected Modified, got {other:?}"),
    }
}

/// Mixed adds, removes, and modifications in a single diff.
#[test]
fn diff_mixed_changes() {
    let old = &[
        entry("a.txt", 0xAA, 100), // unchanged
        entry("b.txt", 0xBB, 200), // will be modified
        entry("c.txt", 0xCC, 300), // will be removed
    ];
    let new = &[
        entry("a.txt", 0xAA, 100), // unchanged
        entry("b.txt", 0xFF, 999), // modified (different hash + size)
        entry("d.txt", 0xDD, 400), // added
    ];
    let diffs = diff_manifests(old, new);
    assert_eq!(diffs.len(), 3);
    assert!(matches!(&diffs[0], ManifestDiff::Modified { path, .. } if path == "b.txt"));
    assert!(matches!(&diffs[1], ManifestDiff::Removed { path } if path == "c.txt"));
    assert!(matches!(&diffs[2], ManifestDiff::Added { entry } if entry.path() == "d.txt"));
}

/// Both slices empty produces an empty diff.
#[test]
fn diff_both_empty() {
    let diffs = diff_manifests(&[], &[]);
    assert!(diffs.is_empty());
}

/// ManifestError::InvalidPath display includes the path and reason.
#[test]
fn error_display_includes_context() {
    let err = ManifestError::InvalidPath {
        path: "bad\\path".to_owned(),
        reason: "backslashes are not allowed (use forward slashes)",
    };
    let msg = err.display();
    assert!(msg.contains("bad\\path"));
    assert!(msg.contains("backslash"));
}

/// The exact canonical bytes of a small manifest.
#[test]
fn canonical_bytes_layout() {
    let m = GroupManifest::builder(NetworkId::from_raw([9; 32]))
        .version(2)
        .created_at(3)
        .add_entry(entry("ab", 0x11, 4))
        .add_entry(
            ContentEntry::new("b", [0x22; 32], 5)
                .unwrap()
                .with_info_hash([0x33; 20]),
        )
        .build()
        .unwrap();
    let mut expected: Vec<u8> = Vec::new();
    expected.extend_from_slice(&2u64.to_le_bytes());
    expected.extend_from_slice(&[9; 32]);
    expected.extend_from_slice(&3u64.to_le_bytes());
    expected.extend_from_slice(&2u32.to_le_bytes());
    expected.extend_from_slice(&2u32.to_le_bytes());
    expected.extend_from_slice(b"ab");
    expected.extend_from_slice(&[0x11; 32]);
    expected.extend_from_slice(&4u64.to_le_bytes());
    expected.push(0);
    expected.extend_from_slice(&1u32.to_le_bytes());
    expected.extend_from_slice(b"b");
    expected.extend_from_slice(&[0x22; 32]);
    expected.extend_from_slice(&5u64.to_le_bytes());
    expected.push(1);
    expected.extend_from_slice(&[0x33; 20]);
    assert_eq!(m.canonical_bytes(), expected);
}

/// A signature is not part of the canonical bytes.
#[test]
fn signature_is_not_signed() {
    let mut m = GroupManifest::builder(NetworkId::test())
        .version(1)
        .add_entry(entry("a", 1, 1))
        .build()
        .unwrap();
    let before = m.canonical_bytes();
    m.set_signature(vec![1], vec![2]);
    assert_eq!(m.canonical_bytes(), before);
}

/// Each error has its own text.
#[test]
fn manifest_error_texts() {
    let err = ContentEntry::new("", [0; 32], 0).unwrap_err();
    assert!(matches!(err, ManifestError::EmptyPath));
    assert_eq!(err.display(), "content entry path must not be empty");
    let err = ContentEntry::new("a/../b", [0; 32], 0).unwrap_err();
    assert!(matches!(err, ManifestError::InvalidPath { .. }));
    assert!(err.display().starts_with("invalid path `a/../b`: "));
    let err = GroupManifest::builder(NetworkId::test()).build().unwrap_err();
    assert!(matches!(err, ManifestError::ZeroVersion));
    let err = GroupManifest::builder(NetworkId::test())
        .version(1)
        .add_entry(entry("x", 1, 1))
        .add_entry(entry("x", 2, 2))
        .build()
        .unwrap_err();
    assert_eq!(err.display(), "duplicate path `x` in manifest");
}

/// A component `..` is refused wherever it stands, dots inside a name are not.
#[test]
fn dots_in_paths() {
    for path in ["..", "../a", "a/..", "a/../b", "a/b/.."] {
        let err = ContentEntry::new(path, [0; 32], 0).unwrap_err();
        assert!(matches!(err, ManifestError::InvalidPath { .. }));
    }
    for path in ["a..b", "a../b", "a/..b", "...", "a/.../b", "..a", "./a.b/.c"] {
        assert_eq!(ContentEntry::new(path, [0; 32], 0).unwrap().path(), path);
    }
    let e = ContentEntry::new("maps/a..b.mix", [0; 32], 1).unwrap();
    assert_eq!(e.path(), "maps/a..b.mix");
    assert_eq!(e.content_hash(), &[0; 32]);
    assert_eq!(e.file_size(), 1);
    assert_eq!(e.info_hash(), None);
}

/// Sizes that do not fit saturate.
#[test]
fn total_size_saturates() {
    let m = GroupManifest::builder(NetworkId::test())
        .version(1)
        .add_entry(entry("a", 0, u64::MAX))
        .add_entry(entry("b", 0, 2))
        .build()
        .unwrap();
    assert_eq!(m.total_size(), u64::MAX);
}

/// Every path of a larger manifest is found.
#[test]
fn get_entry_finds_every_path() {
    let mut builder = GroupManifest::builder(NetworkId::test()).version(1);
    for i in (0..50u64).rev() {
        builder = builder.add_entry(entry(&format!("f{i}"), i as u8, i));
    }
    let m = builder.build().unwrap();
    for i in 0..50u64 {
        assert_eq!(m.get_entry(&format!("f{i}")).unwrap().file_size(), i);
    }
    assert!(m.get_entry("f").is_none());
    assert!(m.get_entry("f50").is_none());
}

/// Differences come in path order, whatever they are.
#[test]
fn diff_is_sorted() {
    let old = [entry("a", 1, 1), entry("c", 1, 1), entry("d", 1, 1), entry("f", 1, 1)];
    let new = [entry("b", 1, 1), entry("c", 2, 1), entry("d", 1, 1), entry("e", 1, 1)];
    let paths: Vec<String> = diff_manifests(&old, &new)
        .iter()
        .map(|d| match d {
            ManifestDiff::Added { entry } => entry.path().to_string(),
            ManifestDiff::Removed { path } => path.clone(),
            ManifestDiff::Modified { path, .. } => path.clone(),
        })
        .collect();
    assert_eq!(paths, vec!["a", "b", "c", "e", "f"]);
}
