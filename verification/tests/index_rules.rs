use ie_core::index::indexer::group_by_fold;
use ie_core::index::{EventOutcome, GraphOptions, IgnoreRules, OpenOutcome, ScanReport};
use ie_core::vault::path::VaultPath;

#[test]
fn only_a_reused_index_skips_the_full_scan() {
    assert!(!OpenOutcome::Reused.needs_full_scan());
    assert!(OpenOutcome::Created.needs_full_scan());
    assert!(OpenOutcome::RebuiltForSchemaChange.needs_full_scan());
    assert!(OpenOutcome::RebuiltAfterCorruption.needs_full_scan());
}

#[test]
fn default_ignore_rules_skip_tooling_hidden_and_temporary_entries() {
    let rules = IgnoreRules::default();
    assert!(rules.ignores(".inner-empire"));
    assert!(rules.ignores("node_modules"));
    assert!(rules.ignores(".anything"));
    assert!(rules.ignores(".ie-tmp-123"));
    assert!(!rules.ignores("Notes"));
    assert_eq!(rules.max_parse_bytes, 8 * 1024 * 1024);
    let visible = IgnoreRules { folder_names: vec![], skip_hidden: false, max_parse_bytes: 1 };
    assert!(!visible.ignores(".hidden"));
    assert!(visible.ignores(".ie-tmp-x"));
}

#[test]
fn an_event_outcome_is_empty_only_without_work() {
    let mut outcome = EventOutcome { indexed: vec![], removed: vec![], needs_full_scan: false, diagnostics: vec![] };
    assert!(outcome.is_empty());
    outcome.needs_full_scan = true;
    assert!(!outcome.is_empty());
    outcome.needs_full_scan = false;
    outcome.removed.push(VaultPath::parse("a.md").unwrap());
    assert!(!outcome.is_empty());
}

#[test]
fn paths_are_grouped_only_when_their_folds_collide() {
    let paths: Vec<VaultPath> = ["Notes/A.md", "b.md", "notes/a.md", "NOTES/A.MD", "B2.md"]
        .iter()
        .map(|p| VaultPath::parse(p).unwrap())
        .collect();
    let groups = group_by_fold(&paths);
    assert_eq!(groups.len(), 1);
    assert_eq!(groups[0].0, "notes/a.md");
    let members: Vec<&str> = groups[0].1.iter().map(|p| p.as_str()).collect();
    assert_eq!(members, vec!["Notes/A.md", "notes/a.md", "NOTES/A.MD"]);
    assert!(group_by_fold(&[]).is_empty());
}

#[test]
fn defaults_of_reports_and_graph_options() {
    let report = ScanReport::default();
    assert_eq!(report.files_seen, 0);
    assert!(report.diagnostics.is_empty());
    let options = GraphOptions::default();
    assert!(options.include_unresolved);
    assert!(!options.include_tags);
    assert_eq!(options.max_nodes, 5_000);
}

#[test]
fn nested_tag_counts_roll_up_to_their_parents() {
    let exact = vec![
        ("AI".to_string(), 3),
        ("ai/LLM".to_string(), 2),
        ("AI/RAG".to_string(), 1),
        ("AIR".to_string(), 5),
        ("ai/llm/small".to_string(), 4),
    ];
    let rolled = ie_core::index::queries::roll_up_tags(&exact);
    let got: Vec<(String, usize, usize)> =
        rolled.into_iter().map(|t| (t.name, t.count, t.total_count)).collect();
    assert_eq!(
        got,
        vec![
            ("AI".to_string(), 3, 10),
            ("ai/LLM".to_string(), 2, 6),
            ("AI/RAG".to_string(), 1, 1),
            ("AIR".to_string(), 5, 5),
            ("ai/llm/small".to_string(), 4, 4),
        ]
    );
}
