use ie_core::model::FileKind;
use ie_core::search::engine::{quick_switch_among, SearchOptions};

fn row(path: &str, title: Option<&str>, kind: &str, modified_ms: i64) -> (String, Option<String>, String, i64) {
    (path.to_string(), title.map(|t| t.to_string()), kind.to_string(), modified_ms)
}

fn rows() -> Vec<(String, Option<String>, String, i64)> {
    vec![
        row("Inbox.md", None, "note", 500),
        row("Research/Neural Networks.md", Some("Neural Networks"), "note", 300),
        row("Research/Networking.md", None, "note", 200),
        row("diagram.png", None, "image", 100),
    ]
}

#[test]
fn the_quick_switcher_matches_filenames_fuzzily() {
    let matches = quick_switch_among("neunet", rows(), 10);
    assert_eq!(matches.first().map(|m| m.path.as_str()), Some("Research/Neural Networks.md"));
    assert_eq!(matches[0].title, "Neural Networks");
    assert_eq!(matches[0].kind, FileKind::Note);
    assert!(matches.iter().all(|m| m.path.as_str() != "Inbox.md"));
}

#[test]
fn an_empty_quick_switcher_query_offers_recent_files() {
    let matches = quick_switch_among("", rows(), 3);
    assert_eq!(matches.len(), 3);
    let paths: Vec<&str> = matches.iter().map(|m| m.path.as_str()).collect();
    assert_eq!(paths, vec!["Inbox.md", "Research/Neural Networks.md", "Research/Networking.md"]);
}

#[test]
fn equally_good_matches_offer_the_most_recent_first() {
    let same = vec![row("a/Plan.md", None, "note", 1), row("b/Plan.md", None, "note", 9)];
    let matches = quick_switch_among("plan", same, 10);
    let paths: Vec<&str> = matches.iter().map(|m| m.path.as_str()).collect();
    assert_eq!(paths, vec!["b/Plan.md", "a/Plan.md"]);
    assert_eq!(matches[0].title, "Plan");
}

#[test]
fn search_options_default_to_a_first_page_with_marks() {
    let o = SearchOptions::default();
    assert_eq!((o.limit, o.offset, o.snippet_tokens), (100, 0, 12));
    assert_eq!((o.highlight_open.as_str(), o.highlight_close.as_str()), ("<mark>", "</mark>"));
}
