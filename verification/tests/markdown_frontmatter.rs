use ie_core::markdown::frontmatter::{
    body_of, body_offset, locate, property_index, push_tag, push_tags_from_text, same_key, with_frontmatter,
};

const SAMPLE: &str = "---\ntitle: Example\ntags:\n  - AI\n  - Research\nstatus: active\nrating: 8\ncreated: 2026-09-17\ndone: false\n---\n# Body\n\nText.\n";

#[test]
fn locates_a_block_at_the_start_of_the_file() {
    let span = locate(SAMPLE).unwrap();
    assert_eq!(span.start, 0);
    assert_eq!(&SAMPLE[span.end..], "# Body\n\nText.\n");
    assert!(SAMPLE[span.yaml_start..span.yaml_end].starts_with("title: Example"));
}

#[test]
fn a_horizontal_rule_mid_document_is_not_frontmatter() {
    assert!(locate("# Title\n\n---\n\nmore\n").is_none());
}

#[test]
fn an_unterminated_block_is_treated_as_body() {
    assert!(locate("---\ntitle: oops\n\nnever closed\n").is_none());
}

#[test]
fn windows_line_endings_still_delimit_the_block() {
    let source = "---\r\ntitle: Example\r\n---\r\nBody\r\n";
    let span = locate(source).unwrap();
    assert_eq!(&source[span.end..], "Body\r\n");
    assert_eq!(&source[span.yaml_start..span.yaml_end], "title: Example\r\n");
}

#[test]
fn the_body_starts_after_the_block_or_at_zero() {
    assert_eq!(body_offset(SAMPLE), SAMPLE.len() - "# Body\n\nText.\n".len());
    assert_eq!(body_offset("no frontmatter\n"), 0);
}

#[test]
fn tags_lose_their_hash_and_empty_ones_are_dropped() {
    let mut tags = Vec::new();
    push_tag(&mut tags, "#project");
    push_tag(&mut tags, "  ");
    push_tag(&mut tags, "area/work");
    assert_eq!(tags, vec!["project".to_string(), "area/work".to_string()]);
}

#[test]
fn the_body_is_everything_after_the_block() {
    assert_eq!(body_of(SAMPLE), "# Body\n\nText.\n");
    assert_eq!(body_of("no block\n"), "no block\n");
}

#[test]
fn replacing_the_block_keeps_the_body_byte_for_byte() {
    let out = with_frontmatter(SAMPLE, "---\ntitle: New\n---\n");
    assert_eq!(out, "---\ntitle: New\n---\n# Body\n\nText.\n");
    assert_eq!(with_frontmatter(SAMPLE, ""), "# Body\n\nText.\n");
    assert_eq!(with_frontmatter("plain\r\n", "---\na: 1\n---\n"), "---\na: 1\n---\nplain\r\n");
}

#[test]
fn property_keys_match_without_regard_to_case() {
    let keys = vec!["Title".to_string(), "status".to_string(), "STATUS".to_string()];
    assert_eq!(property_index(&keys, "title"), Some(0));
    assert_eq!(property_index(&keys, "Status"), Some(1));
    assert_eq!(property_index(&keys, "rating"), None);
    assert!(same_key("Tags", "tAGS"));
    assert!(!same_key("tag", "tags"));
}

#[test]
fn a_tag_list_in_text_is_split_at_commas_spaces_and_semicolons() {
    let mut out = vec!["work".to_string()];
    push_tags_from_text(&mut out, "#work, urgent;later  /area/x/ ;");
    assert_eq!(out, vec!["work".to_string(), "urgent".to_string(), "later".to_string(), "area/x".to_string()]);
}
