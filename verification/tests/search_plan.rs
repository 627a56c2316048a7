use ie_core::search::engine::SearchOptions;
use ie_core::search::plan::{
    tag_lookup,
    heading_completion_pattern, hit_title, page_truncated, plan_search, tag_completion_pattern,
};
use ie_core::search::query::{parse, SqlParam};
use ie_core::vault::path::VaultPath;

#[test]
fn an_empty_query_runs_nothing() {
    assert!(plan_search(&parse("").unwrap(), &SearchOptions::default()).is_none());
}

#[test]
fn words_and_filters_rank_with_the_filters_first() {
    let plan = plan_search(&parse("tag:AI neural").unwrap(), &SearchOptions::default()).unwrap();
    assert!(plan.ranked);
    assert!(plan.count.sql.starts_with("SELECT count(*) FROM files f WHERE f.id IN (SELECT rowid FROM notes_fts WHERE notes_fts MATCH ?) AND EXISTS"));
    assert_eq!(plan.count.params[0], SqlParam::Text("\"neural\"".to_string()));
    assert_eq!(plan.count.params.len(), 3);
    assert!(plan.page.sql.contains("AND notes_fts MATCH ? ORDER BY rank LIMIT ? OFFSET ?"), "{}", plan.page.sql);
    assert_eq!(
        plan.page.params,
        vec![
            SqlParam::Text("<mark>".to_string()),
            SqlParam::Text("</mark>".to_string()),
            SqlParam::Integer(12),
            SqlParam::Text("ai".to_string()),
            SqlParam::Text("ai/%".to_string()),
            SqlParam::Text("\"neural\"".to_string()),
            SqlParam::Integer(100),
            SqlParam::Integer(0),
        ]
    );
}

#[test]
fn filters_alone_list_the_most_recent_first() {
    let options = SearchOptions { limit: 20, offset: 40, ..SearchOptions::default() };
    let plan = plan_search(&parse("ext:png").unwrap(), &options).unwrap();
    assert!(!plan.ranked);
    assert!(plan.page.sql.ends_with(" ORDER BY f.mtime_ms DESC LIMIT ? OFFSET ?"));
    assert_eq!(plan.page.params.len(), 3);
    assert_eq!(plan.page.params[1], SqlParam::Integer(20));
    assert_eq!(plan.page.params[2], SqlParam::Integer(40));
    assert_eq!(plan.count.params.len(), 1);
}

#[test]
fn the_page_is_truncated_when_matches_remain() {
    assert!(page_truncated(250, 100, 100));
    assert!(!page_truncated(200, 100, 100));
    assert!(!page_truncated(5, 0, 5));
}

#[test]
fn a_hit_without_a_title_shows_its_stem() {
    let path = VaultPath::parse("Notes/Plan.md").unwrap();
    assert_eq!(hit_title(&path, None), "Plan");
    assert_eq!(hit_title(&path, Some("The plan".to_string())), "The plan");
}

#[test]
fn completion_patterns_escape_like_wildcards() {
    assert_eq!(tag_completion_pattern("##Work_1"), "%work\\_1%");
    assert_eq!(heading_completion_pattern("100% Done"), "%100\\% done%");
}

#[test]
fn a_tag_lookup_drops_the_hash_and_matches_nested_tags() {
    assert_eq!(tag_lookup("#Project_X"), ("project_x".to_string(), "project\\_x/%".to_string()));
    assert_eq!(tag_lookup("ai"), ("ai".to_string(), "ai/%".to_string()));
}
