use ie_core::index::indexer::{deletions_to_apply, paths_to_index, reresolve_keys, sort_changes, stale_paths, FsChange};
use ie_core::vault::path::VaultPath;

fn p(s: &str) -> Option<VaultPath> {
    Some(VaultPath::parse(s).unwrap())
}

fn strs(ps: &[VaultPath]) -> Vec<&str> {
    ps.iter().map(|p| p.as_str()).collect()
}

#[test]
fn a_batch_is_sorted_by_what_happened() {
    let events = vec![
        FsChange::Created(p("a.md")),
        FsChange::Modified(p("b.md")),
        FsChange::Deleted(p("c.md")),
        FsChange::Renamed { from: p("d.md"), to: p("e.md") },
        FsChange::Created(None),
    ];
    let set = sort_changes(&events).unwrap();
    assert_eq!(strs(&set.created), vec!["a.md", "e.md"]);
    assert_eq!(strs(&set.modified), vec!["b.md"]);
    assert_eq!(strs(&set.deleted), vec!["c.md", "d.md"]);
}

#[test]
fn a_lost_event_asks_for_a_full_rescan() {
    let events = vec![FsChange::Created(p("a.md")), FsChange::Rescan];
    assert!(sort_changes(&events).is_none());
}

#[test]
fn a_delete_then_create_in_one_batch_is_a_save() {
    let events = vec![
        FsChange::Deleted(p("a.md")),
        FsChange::Created(p("a.md")),
        FsChange::Deleted(p("gone.md")),
        FsChange::Modified(p("b.md")),
        FsChange::Modified(p("a.md")),
    ];
    let set = sort_changes(&events).unwrap();
    assert_eq!(strs(&deletions_to_apply(&set)), vec!["gone.md"]);
    assert_eq!(strs(&paths_to_index(&set)), vec!["a.md", "b.md"]);
}

#[test]
fn each_changed_name_is_reresolved_once() {
    let touched = vec![VaultPath::parse("A/Plan.md").unwrap(), VaultPath::parse("B/plan.md").unwrap()];
    let removed = vec![VaultPath::parse("Old.md").unwrap()];
    let keys = reresolve_keys(&touched, &removed);
    assert_eq!(
        keys,
        vec!["plan".to_string(), "plan.md".to_string(), "old".to_string(), "old.md".to_string()]
    );
}

#[test]
fn stale_rows_are_those_no_longer_on_disk() {
    let on_disk = vec![VaultPath::parse("a.md").unwrap(), VaultPath::parse("c.md").unwrap()];
    let stale = stale_paths(vec!["a.md".into(), "b.md".into(), "c.md".into(), "d.md".into()], &on_disk);
    assert_eq!(strs(&stale), vec!["b.md", "d.md"]);
}
