use ie_core::vault::path::VaultPath;
use ie_core::vault::trash::{
    check_trashable, no_such_entry, restore_destination, stored_name, TrashEntry, TrashManifest, MANIFEST_FILE, TRASH_DIR,
};
use ie_core::CoreError;

fn entry(id: &str, path: &str, trashed_ms: i64) -> TrashEntry {
    let original_path = VaultPath::parse(path).unwrap();
    TrashEntry {
        id: id.to_string(),
        stored_as: stored_name(id, &original_path),
        original_path,
        trashed_ms,
        is_dir: false,
        size: 1,
    }
}

#[test]
fn the_listing_is_newest_first() {
    let manifest = TrashManifest {
        entries: vec![entry("A.md", "A.md", 1000), entry("B.md", "B.md", 3000), entry("C.md", "C.md", 2000)],
    };
    let ids: Vec<_> = manifest.newest_first().into_iter().map(|e| e.id).collect();
    assert_eq!(ids, vec!["B.md", "C.md", "A.md"]);
}

#[test]
fn retention_only_removes_entries_past_their_age() {
    let manifest = TrashManifest {
        entries: vec![entry("old", "Old.md", 1_000), entry("fresh", "Fresh.md", 9_000)],
    };
    assert_eq!(manifest.expired(10_000, 5_000), vec!["old".to_string()]);
    assert!(manifest.expired(10_000, 50_000).is_empty());
}

#[test]
fn two_files_with_the_same_name_can_be_in_the_trash_at_once() {
    let a = entry("id1", "A/Untitled.md", 1000);
    let b = entry("id2", "B/Untitled.md", 2000);
    assert_eq!(a.stored_as, "id1-Untitled.md");
    assert_ne!(a.stored_as, b.stored_as);
    let manifest = TrashManifest { entries: vec![a, b] };
    assert_eq!(manifest.find("id2"), Some(1));
    assert_eq!(manifest.find("id3"), None);
}

#[test]
fn app_internal_files_cannot_be_deleted_through_the_trash() {
    let path = VaultPath::parse(".inner-empire/index.db").unwrap();
    assert_eq!(check_trashable(&path).unwrap_err().code(), "refused");
}

#[test]
fn the_vault_root_cannot_be_deleted() {
    assert_eq!(check_trashable(&VaultPath::root()).unwrap_err().code(), "refused");
    assert!(check_trashable(&VaultPath::parse("Notes/a.md").unwrap()).is_ok());
}

#[test]
fn an_empty_manifest_holds_nothing() {
    assert!(TrashManifest::default().entries.is_empty());
    assert_eq!((TRASH_DIR, MANIFEST_FILE), ("trash", "trash.json"));
}

#[test]
fn a_restore_into_an_occupied_path_takes_a_numbered_sibling() {
    let want = VaultPath::parse("Notes/Plan.md").unwrap();
    let free = restore_destination(&want, |p: &VaultPath| p.as_str() != "Notes/Plan (2).md").unwrap();
    assert_eq!(free.as_str(), "Notes/Plan (2).md");
    assert_eq!(restore_destination(&want, |_p: &VaultPath| false).unwrap().as_str(), "Notes/Plan.md");
    match restore_destination(&want, |_p: &VaultPath| true) {
        Err(CoreError::Refused { operation, reason }) => {
            assert_eq!(operation, "restore");
            assert_eq!(reason, "could not find a free name to restore into");
        }
        other => panic!("{other:?}"),
    }
}

#[test]
fn restoring_an_unknown_id_is_refused() {
    match no_such_entry("abc") {
        CoreError::Refused { operation, reason } => {
            assert_eq!(operation, "restore");
            assert_eq!(reason, "nothing in the trash has the id abc");
        }
        other => panic!("{other:?}"),
    }
}
