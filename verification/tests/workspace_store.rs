use ie_core::model::workspace::{Workspace, WORKSPACE_VERSION};
use ie_core::workspace::{saved_file_name, saved_names, usable_workspace, SAVED_DIR, WORKSPACE_FILE};

#[test]
fn the_store_files_have_fixed_names() {
    assert_eq!(WORKSPACE_FILE, "workspace.json");
    assert_eq!(SAVED_DIR, "workspaces");
}

#[test]
fn a_saved_layout_is_named_safely() {
    assert_eq!(saved_file_name("Writing"), "Writing.json");
    assert_eq!(saved_file_name("a/b:c"), "a-b-c.json");
}

#[test]
fn saved_layouts_are_listed_by_name_without_json() {
    let entries = vec![
        ("zeta.json".to_string(), false),
        ("notes.txt".to_string(), false),
        ("Alpha.json".to_string(), false),
        ("folder.json".to_string(), true),
        ("beta.json.json".to_string(), false),
    ];
    assert_eq!(saved_names(&entries), vec!["Alpha".to_string(), "beta".to_string(), "zeta".to_string()]);
}

#[test]
fn a_workspace_of_another_version_is_replaced_by_the_default() {
    let mut old = Workspace::default();
    old.version = WORKSPACE_VERSION + 1;
    old.active_file = None;
    let fresh = usable_workspace(Some(old));
    assert_eq!(fresh.version, WORKSPACE_VERSION);
    assert_eq!(fresh.layout.active_pane_id, "pane-root");
    let mut mine = Workspace::default();
    mine.left_sidebar.active_panel = "search".to_string();
    assert_eq!(usable_workspace(Some(mine)).left_sidebar.active_panel, "search");
    assert_eq!(usable_workspace(None).right_sidebar.active_panel, "backlinks");
}
