use ie_core::index::resolve::{normalize_target, rank, resolve_among, target_key, target_tail, Candidate, Resolution};
use ie_core::vault::path::VaultPath;

fn candidates(paths: &[&str]) -> Vec<Candidate> {
    paths
        .iter()
        .enumerate()
        .map(|(i, p)| Candidate {
            file_id: i as i64 + 1,
            path: VaultPath::parse(p).unwrap(),
        })
        .collect()
}

fn resolved_path(target: &str, paths: &[&str]) -> Option<String> {
    match rank(&normalize_target(target), candidates(paths)) {
        Resolution::Resolved { path, .. } => Some(path.as_str().to_string()),
        Resolution::Unresolved => None,
    }
}

#[test]
fn a_bare_title_finds_the_note_anywhere_in_the_vault() {
    assert_eq!(
        resolved_path("Project Plan", &["Projects/2026/Project Plan.md"]).as_deref(),
        Some("Projects/2026/Project Plan.md")
    );
}

#[test]
fn a_full_path_wins_over_a_bare_name_match() {
    assert_eq!(
        resolved_path("Archive/Plan", &["Plan.md", "Archive/Plan.md", "Projects/Plan.md"]).as_deref(),
        Some("Archive/Plan.md")
    );
}

#[test]
fn a_shallower_file_wins_when_several_share_a_name() {
    assert_eq!(
        resolved_path("Plan", &["Deep/Nested/Plan.md", "Plan.md"]).as_deref(),
        Some("Plan.md")
    );
}

#[test]
fn an_explicit_extension_matches_the_file_exactly() {
    assert_eq!(
        resolved_path("diagram.png", &["Attachments/diagram.png"]).as_deref(),
        Some("Attachments/diagram.png")
    );
}

#[test]
fn a_canvas_file_resolves_from_a_bare_name() {
    assert_eq!(
        resolved_path("Roadmap", &["Boards/Roadmap.canvas"]).as_deref(),
        Some("Boards/Roadmap.canvas")
    );
}

#[test]
fn matching_only_happens_on_whole_path_segments() {
    // `Alpha/Plan` must not match `BetaAlpha/Plan`.
    assert_eq!(resolved_path("Alpha/Plan", &["BetaAlpha/Plan.md"]), None);
}

#[test]
fn exact_case_beats_a_case_insensitive_match() {
    assert_eq!(
        resolved_path("MyNote", &["mynote.md", "MyNote.md"]).as_deref(),
        Some("MyNote.md")
    );
}

#[test]
fn a_link_still_resolves_when_only_the_case_differs() {
    assert_eq!(resolved_path("mynote", &["MyNote.md"]).as_deref(), Some("MyNote.md"));
}

#[test]
fn two_equally_good_candidates_resolve_deterministically_and_are_flagged() {
    let first = rank("Plan", candidates(&["Beta/Plan.md", "Alpha/Plan.md"]));
    let second = rank("Plan", candidates(&["Alpha/Plan.md", "Beta/Plan.md"]));
    assert!(first.is_ambiguous());
    assert!(second.is_ambiguous());
    let chosen = |r: &Resolution| match r {
        Resolution::Resolved { path, .. } => path.as_str().to_string(),
        Resolution::Unresolved => panic!("expected a resolution"),
    };
    assert_eq!(chosen(&first), "Alpha/Plan.md");
    assert_eq!(chosen(&first), chosen(&second));
}

#[test]
fn an_unambiguous_match_is_not_flagged() {
    assert!(!rank("Plan", candidates(&["Plan.md"])).is_ambiguous());
}

#[test]
fn nothing_matching_resolves_to_nothing() {
    assert_eq!(rank("Ghost", candidates(&["Plan.md"])), Resolution::Unresolved);
    assert_eq!(rank("Ghost", Vec::new()), Resolution::Unresolved);
}

#[test]
fn target_normalization_accepts_windows_separators_and_relative_prefixes() {
    assert_eq!(normalize_target("  ./Notes\\A.md "), "Notes/A.md");
    assert_eq!(normalize_target("/Notes/A.md"), "Notes/A.md");
}

#[test]
fn the_tail_key_strips_folders_and_extensions() {
    assert_eq!(target_tail("Projects/2026/Project Plan"), "project plan");
    assert_eq!(target_tail("Projects/2026/Project Plan.md"), "project plan");
    assert_eq!(target_tail("diagram.PNG"), "diagram");
    assert_eq!(target_tail(".hidden"), ".hidden");
}

#[test]
fn resolution_reports_the_winning_file_id() {
    let r = rank("Projects/Plan", candidates(&["Plan.md", "Projects/Plan.md"]));
    assert_eq!(r.file_id(), Some(2));
    assert_eq!(Resolution::Unresolved.file_id(), None);
    assert!(!Resolution::Unresolved.is_ambiguous());
}

#[test]
fn an_empty_target_resolves_to_nothing() {
    assert_eq!(resolve_among("   ", candidates(&["Plan.md"])), Resolution::Unresolved);
    assert_eq!(resolve_among("./", candidates(&["Plan.md"])), Resolution::Unresolved);
    assert_eq!(resolve_among(" Plan ", candidates(&["Plan.md"])).file_id(), Some(1));
}

#[test]
fn a_case_insensitive_suffix_is_the_last_resort() {
    assert_eq!(
        resolved_path("projects/plan", &["Work/Projects/Plan.md"]).as_deref(),
        Some("Work/Projects/Plan.md")
    );
    let r = rank("projects/plan", candidates(&["Work/Projects/Plan.md", "Home/projects/plan.md"]));
    // exact-case suffix (tier 3) beats case-insensitive suffix (tier 4)
    assert_eq!(r.file_id(), Some(2));
    assert!(!r.is_ambiguous());
}

#[test]
fn a_dotted_stem_is_looked_up_whole() {
    assert_eq!(target_key("Notes/v1.2 notes"), "v1.2 notes");
    assert_eq!(target_key("Projects/Plan.MD"), "plan.md");
    assert_eq!(target_tail("v1.2 notes"), "v1");
}

#[test]
fn every_exact_case_candidate_carries_the_lookup_key() {
    let key = target_key("Notes/v1.2 notes");
    for path in ["Notes/v1.2 notes", "Notes/v1.2 notes.md", "Archive/Notes/v1.2 notes.canvas"] {
        let p = ie_core::vault::path::VaultPath::from_indexed(path.to_string());
        let name = p.file_name().to_lowercase();
        let stem = p.stem().to_lowercase();
        assert!(name == key || stem == key, "{path}");
    }
}
