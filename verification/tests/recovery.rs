use ie_core::recovery::{
    candidates_from, is_prunable, key_for, sanitize_id, RecoveryCandidate, RecoveryEntry, RECOVERY_DIR,
};
use ie_core::vault::path::VaultPath;

fn entry(path: &str, content: &str, saved_ms: i64) -> RecoveryEntry {
    RecoveryEntry {
        path: VaultPath::parse(path).unwrap(),
        content: content.to_string(),
        saved_ms,
        base_modified_ms: 0,
    }
}

fn one(e: RecoveryEntry, on_disk: Option<(&str, i64)>) -> RecoveryCandidate {
    let mut all = candidates_from(vec![(e, on_disk.map(|(c, m)| (c.to_string(), m)))]);
    assert_eq!(all.len(), 1);
    all.remove(0)
}

#[test]
fn an_entry_is_offered_back_when_the_file_lacks_its_text() {
    let c = one(entry("A.md", "unsaved text", 1000), Some(("old text", 500)));
    assert_eq!(c.content, "unsaved text");
    assert!(!c.already_saved);
    assert!(!c.file_is_newer);
}

#[test]
fn an_entry_whose_text_is_already_on_disk_is_marked_as_such() {
    let c = one(entry("A.md", "same text", 1000), Some(("same text", 500)));
    assert!(c.already_saved, "nothing to recover here");
}

#[test]
fn a_file_changed_after_the_entry_is_flagged_rather_than_overwritten() {
    let c = one(entry("A.md", "older unsaved text", 1000), Some(("newer text from elsewhere", 5000)));
    assert!(c.file_is_newer, "restoring would discard work done after the crash");
}

#[test]
fn an_entry_for_a_deleted_file_is_still_offered() {
    let c = one(entry("Gone.md", "the only copy", 1000), None);
    assert!(!c.already_saved);
    assert!(!c.file_is_newer);
    assert_eq!(c.path.as_str(), "Gone.md");
}

#[test]
fn candidates_are_newest_first() {
    let paths: Vec<String> = candidates_from(vec![
        (entry("A.md", "a", 1000), None),
        (entry("B.md", "b", 3000), None),
        (entry("C.md", "c", 2000), None),
        (entry("D.md", "d", 3000), None),
    ])
    .into_iter()
    .map(|c| c.path.as_str().to_string())
    .collect();
    assert_eq!(paths, vec!["B.md", "D.md", "C.md", "A.md"]);
}

#[test]
fn pruning_clears_saved_and_expired_entries_only() {
    let cs = candidates_from(vec![
        (entry("Saved.md", "on disk", 9000), Some(("on disk".to_string(), 9000))),
        (entry("Old.md", "ancient", 1000), None),
        (entry("Fresh.md", "recent", 9500), None),
    ]);
    let kept: Vec<&str> = cs
        .iter()
        .filter(|c| !is_prunable(c, 10_000, 5_000))
        .map(|c| c.path.as_str())
        .collect();
    assert_eq!(kept, vec!["Fresh.md"]);
}

#[test]
fn a_vault_id_cannot_escape_the_journal_directory() {
    assert_eq!(sanitize_id("../../etc"), "______etc");
    assert_eq!(sanitize_id(""), "unnamed");
    assert_eq!(sanitize_id("vault-1"), "vault-1");
    assert_eq!(sanitize_id(&"x".repeat(100)).len(), 64);
    assert_eq!(sanitize_id("café"), "caf_");
}

#[test]
fn an_entry_key_is_a_short_hash_of_its_path() {
    assert_eq!(key_for(&VaultPath::parse("A.md").unwrap()), "2d63174e212b2fdb12116ac3");
    assert_eq!(key_for(&VaultPath::parse("Notes/café.md").unwrap()), "19d4de55abc552d5c753793c");
    assert_eq!(RECOVERY_DIR, "recovery");
}
