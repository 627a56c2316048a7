use ie_core::model::workspace::{
    PaneLayout, PaneNode, SplitDirection, TabMode, TabState, Workspace, WorkspaceSidebar, WORKSPACE_VERSION,
};
use ie_core::vault::path::VaultPath;

fn leaf(id: &str, paths: &[&str]) -> PaneNode {
    PaneNode::Leaf {
        id: id.into(),
        tabs: paths
            .iter()
            .enumerate()
            .map(|(i, p)| TabState {
                id: format!("{id}-tab-{i}"),
                path: VaultPath::parse(p).unwrap(),
                pinned: false,
                mode: TabMode::Edit,
                scroll_line: 0,
                cursor_offset: 0,
            })
            .collect(),
        active_tab_id: Some(format!("{id}-tab-0")),
    }
}

fn split(id: &str, first: PaneNode, second: PaneNode) -> PaneNode {
    PaneNode::Split {
        id: id.into(),
        direction: SplitDirection::Vertical,
        ratio_bits: 0.5f32.to_bits(),
        first: Box::new(first),
        second: Box::new(second),
    }
}

#[test]
fn a_split_tree_reports_its_leaves_left_to_right() {
    let tree = PaneNode::Split {
        id: "s".into(),
        direction: SplitDirection::Vertical,
        ratio_bits: 0.5f32.to_bits(),
        first: Box::new(leaf("a", &["a.md"])),
        second: Box::new(PaneNode::Split {
            id: "s2".into(),
            direction: SplitDirection::Horizontal,
            ratio_bits: 0.5f32.to_bits(),
            first: Box::new(leaf("b", &["b.md"])),
            second: Box::new(leaf("c", &["c.md"])),
        }),
    };
    let ids: Vec<_> = tree.leaves().iter().map(|l| l.id().to_string()).collect();
    assert_eq!(ids, vec!["a", "b", "c"]);
    assert_eq!(tree.open_paths().len(), 3);
}

#[test]
fn open_paths_follow_tab_order_across_panes() {
    let tree = split("s", leaf("a", &["x.md", "y.md"]), leaf("b", &["z.md"]));
    let paths: Vec<String> = tree.open_paths().iter().map(|p| p.as_str().to_string()).collect();
    assert_eq!(paths, vec!["x.md", "y.md", "z.md"]);
}

#[test]
fn restoring_a_workspace_drops_tabs_whose_files_are_gone() {
    let mut workspace = Workspace {
        layout: PaneLayout {
            root: leaf("a", &["kept.md", "deleted.md"]),
            active_pane_id: "a".into(),
        },
        ..Workspace::default()
    };

    let removed = workspace.reconcile(|p: &VaultPath| p.as_str() == "kept.md");
    assert_eq!(removed.len(), 1);
    assert_eq!(removed[0].as_str(), "deleted.md");
    assert_eq!(workspace.layout.root.open_paths().len(), 1);
}

#[test]
fn an_emptied_split_collapses_into_its_surviving_side() {
    let mut workspace = Workspace {
        layout: PaneLayout {
            root: split("s", leaf("a", &["gone.md"]), leaf("b", &["kept.md"])),
            active_pane_id: "a".into(),
        },
        ..Workspace::default()
    };

    workspace.reconcile(|p: &VaultPath| p.as_str() == "kept.md");
    assert!(matches!(workspace.layout.root, PaneNode::Leaf { .. }));
    assert_eq!(workspace.layout.root.id(), "b");
    assert_eq!(
        workspace.layout.active_pane_id, "b",
        "the active pane must follow when its own pane is collapsed"
    );
}

#[test]
fn the_active_tab_moves_on_when_its_file_disappears() {
    let mut pane = leaf("a", &["gone.md", "kept.md"]);
    pane.prune(|p: &VaultPath| p.as_str() == "kept.md");
    match pane {
        PaneNode::Leaf { active_tab_id, tabs, .. } => {
            assert_eq!(tabs.len(), 1);
            assert_eq!(active_tab_id, Some(tabs[0].id.clone()));
        }
        _ => panic!("expected a leaf"),
    }
}

#[test]
fn a_workspace_whose_every_tab_is_gone_falls_back_to_one_empty_pane() {
    let mut workspace = Workspace {
        layout: PaneLayout {
            root: split("s", leaf("a", &["gone.md"]), leaf("b", &["also-gone.md"])),
            active_pane_id: "b".into(),
        },
        active_file: Some(VaultPath::parse("gone.md").unwrap()),
        ..Workspace::default()
    };
    let removed = workspace.reconcile(|_: &VaultPath| false);
    assert_eq!(removed.len(), 2);
    assert_eq!(workspace.layout.root.id(), "pane-root");
    assert_eq!(workspace.layout.active_pane_id, "pane-root");
    assert!(workspace.active_file.is_none());
}

#[test]
fn an_active_file_that_still_exists_is_kept() {
    let mut workspace = Workspace {
        layout: PaneLayout { root: leaf("a", &["here.md"]), active_pane_id: "a".into() },
        active_file: Some(VaultPath::parse("here.md").unwrap()),
        ..Workspace::default()
    };
    let removed = workspace.reconcile(|_: &VaultPath| true);
    assert!(removed.is_empty());
    assert_eq!(workspace.active_file.unwrap().as_str(), "here.md");
    assert_eq!(workspace.layout.active_pane_id, "a");
}

#[test]
fn collapsing_keeps_a_split_whose_sides_both_hold_tabs() {
    let tree = split("s", leaf("a", &["x.md"]), split("t", leaf("b", &[]), leaf("c", &["y.md"])));
    let collapsed = tree.collapse_empty().unwrap();
    let ids: Vec<_> = collapsed.leaves().iter().map(|l| l.id().to_string()).collect();
    assert_eq!(ids, vec!["a", "c"]);
    assert!(leaf("e", &[]).collapse_empty().is_none());
}

#[test]
fn the_default_workspace_is_one_empty_pane_with_both_sidebars() {
    let w = Workspace::default();
    assert_eq!(w.version, WORKSPACE_VERSION);
    assert_eq!(w.layout.root.id(), "pane-root");
    assert_eq!(w.layout.active_pane_id, "pane-root");
    assert_eq!(f32::from_bits(w.left_sidebar.width_bits), 260.0);
    assert_eq!(f32::from_bits(w.right_sidebar.width_bits), 300.0);
    assert_eq!(w.right_sidebar.active_panel, "backlinks");
    assert_eq!(WorkspaceSidebar::default().active_panel, "files");
    assert_eq!(TabMode::default(), TabMode::Edit);
}
