use sha2::Digest;
use xai_grok_plugin_marketplace::skill_lock::{
    digest_hex, hash_files, hash_message, now_timestamp, SkillLock, SkillLockEntry, SkillLockError, SkillOrigin,
    LOCK_FILE_NAME, LOCK_VERSION,
};

fn entry(source: &str, hash: &str) -> SkillLockEntry {
    SkillLockEntry {
        source: source.to_string(),
        source_id: source.to_string(),
        origin: SkillOrigin::Registry,
        registry_id: Some(source.to_string()),
        git_ref: None,
        commit: None,
        content_hash: hash.to_string(),
        registry_hash: None,
        installed_at: "2020-01-01T00:00:00Z".to_string(),
        updated_at: "2020-01-01T00:00:00Z".to_string(),
    }
}

#[test]
fn upsert_preserves_the_original_install_timestamp() {
    let mut lock = SkillLock::default();
    lock.upsert("deploy", entry("owner/repo/deploy", "hash-a"));

    let mut updated = entry("owner/repo/deploy", "hash-b");
    updated.installed_at = "2030-06-06T00:00:00Z".to_string();
    updated.updated_at = "2030-06-06T00:00:00Z".to_string();
    lock.upsert("deploy", updated);

    let stored = lock.get("deploy").unwrap();
    assert_eq!(stored.installed_at, "2020-01-01T00:00:00Z");
    assert_eq!(stored.updated_at, "2030-06-06T00:00:00Z");
    assert_eq!(stored.content_hash, "hash-b");
}

#[test]
fn remove_reports_whether_an_entry_existed() {
    let mut lock = SkillLock::default();
    lock.upsert("deploy", entry("owner/repo/deploy", "hash-a"));
    assert!(lock.contains("deploy"));
    assert!(lock.remove("deploy"));
    assert!(!lock.remove("deploy"));
    assert!(!lock.contains("deploy"));
}

#[test]
fn file_hash_is_order_independent_but_content_sensitive() {
    let a = hash_files(&[("SKILL.md", b"one".as_slice()), ("b.md", b"two".as_slice())]);
    let b = hash_files(&[("b.md", b"two".as_slice()), ("SKILL.md", b"one".as_slice())]);
    assert_eq!(a, b);

    let changed = hash_files(&[
        ("SKILL.md", b"one!".as_slice()),
        ("b.md", b"two".as_slice()),
    ]);
    assert_ne!(a, changed);
}

#[test]
fn file_hash_distinguishes_content_moved_between_files() {
    let a = hash_files(&[("a.md", b"xy".as_slice()), ("b.md", b"z".as_slice())]);
    let b = hash_files(&[("a.md", b"x".as_slice()), ("b.md", b"yz".as_slice())]);
    assert_ne!(a, b);
}

#[test]
fn file_hash_distinguishes_renamed_files() {
    let a = hash_files(&[("a.md", b"same".as_slice())]);
    let b = hash_files(&[("b.md", b"same".as_slice())]);
    assert_ne!(a, b);
}

#[test]
fn timestamps_are_rfc3339() {
    let now = now_timestamp();
    assert!(chrono::DateTime::parse_from_rfc3339(&now).is_ok());
}

#[test]
fn origin_labels_are_stable() {
    assert_eq!(SkillOrigin::Registry.as_str(), "registry");
    assert_eq!(SkillOrigin::Git.as_str(), "git");
    assert_eq!(SkillOrigin::Local.as_str(), "local");
}

#[test]
fn file_hash_of_nothing_is_the_digest_of_the_empty_message() {
    assert_eq!(
        hash_files(&[]),
        "e3b0c44298fc1c149afbf4c8996fb92427ae41e4649b934ca495991b7852b855"
    );
}

#[test]
fn file_hash_is_lowercase_hex_of_the_framed_entries() {
    // One entry: path length, path, contents length, contents.
    let mut framed: Vec<u8> = Vec::new();
    framed.extend_from_slice(&1u64.to_le_bytes());
    framed.extend_from_slice(b"a");
    framed.extend_from_slice(&2u64.to_le_bytes());
    framed.extend_from_slice(b"xy");
    let expected: String = sha2::Sha256::digest(&framed)
        .iter()
        .map(|b| format!("{b:02x}"))
        .collect();
    let got = hash_files(&[("a", b"xy".as_slice())]);
    assert_eq!(got, expected);
    assert_eq!(got.len(), 64);
}

#[test]
fn file_hash_reads_backslashes_as_slashes() {
    let a = hash_files(&[("rules\\a.md", b"x".as_slice())]);
    let b = hash_files(&[("rules/a.md", b"x".as_slice())]);
    assert_eq!(a, b);
}

#[test]
fn new_lock_is_empty_at_the_current_version() {
    let lock = SkillLock::new();
    assert_eq!(lock.version, LOCK_VERSION);
    assert!(lock.skills.is_empty());
    assert_eq!(SkillLock::path_for("/home/u/.grok"), format!("/home/u/.grok/{LOCK_FILE_NAME}"));
}

#[test]
fn loaded_locks_of_another_version_are_discarded() {
    let mut old = SkillLock::new();
    old.version = 0;
    old.upsert("x", entry("o/r/x", "h"));
    assert!(SkillLock::from_loaded(Some(old)).skills.is_empty());
    assert!(SkillLock::from_loaded(None).skills.is_empty());

    let mut current = SkillLock::new();
    current.upsert("x", entry("o/r/x", "h"));
    let kept = SkillLock::from_loaded(Some(current));
    assert_eq!(kept.get("x").unwrap().content_hash, "h");
}

#[test]
fn records_are_kept_in_name_order() {
    let mut lock = SkillLock::new();
    lock.upsert("zebra", entry("o/r/zebra", "h"));
    lock.upsert("alpha", entry("o/r/alpha", "h"));
    lock.upsert("mid", entry("o/r/mid", "h"));
    assert_eq!(lock.skills.keys(), vec!["alpha", "mid", "zebra"]);
    assert_eq!(lock.skills.len(), 3);
}

#[test]
fn lock_error_messages() {
    let read = SkillLockError::Read { path: "/p".into(), message: "denied".into() };
    assert_eq!(read.message(), "failed to read skill lockfile at /p: denied");
    let write = SkillLockError::Write { path: "/p".into(), message: "full".into() };
    assert_eq!(write.message(), "failed to write skill lockfile at /p: full");
    assert_eq!(
        SkillLockError::Serialize("x".into()).message(),
        "failed to serialize skill lockfile: x"
    );
}

#[test]
fn hash_message_frames_files_sorted_by_path() {
    let msg = hash_message(&[("b", b"2".as_slice()), ("a\\x", b"".as_slice())]);
    let mut expected: Vec<u8> = Vec::new();
    expected.extend_from_slice(&[3, 0, 0, 0, 0, 0, 0, 0]);
    expected.extend_from_slice(b"a/x");
    expected.extend_from_slice(&[0, 0, 0, 0, 0, 0, 0, 0]);
    expected.extend_from_slice(&[1, 0, 0, 0, 0, 0, 0, 0]);
    expected.extend_from_slice(b"b");
    expected.extend_from_slice(&[1, 0, 0, 0, 0, 0, 0, 0]);
    expected.extend_from_slice(b"2");
    assert_eq!(msg, expected);
    assert!(hash_message(&[]).is_empty());
}

#[test]
fn hash_message_keeps_equal_paths_in_input_order() {
    let a = hash_message(&[("p", b"1".as_slice()), ("p", b"2".as_slice())]);
    let b = hash_message(&[("p", b"2".as_slice()), ("p", b"1".as_slice())]);
    assert_ne!(a, b);
}

#[test]
fn digest_hex_writes_two_lowercase_digits_per_byte() {
    assert_eq!(digest_hex(&[0x00, 0xab, 0x10, 0xff]), "00ab10ff");
    assert_eq!(digest_hex(&[]), "");
}
