use ie_core::links::reference::{heading_matches, slugify, LinkTarget};

#[test]
fn plain_target() {
    let t = LinkTarget::parse("Note");
    assert_eq!(t.path, "Note");
    assert_eq!(t.alias, None);
    assert_eq!(t.default_display(), "Note");
}

#[test]
fn target_with_alias() {
    let t = LinkTarget::parse("Note|Display text");
    assert_eq!(t.path, "Note");
    assert_eq!(t.alias.as_deref(), Some("Display text"));
    assert_eq!(t.default_display(), "Display text");
}

#[test]
fn target_with_heading() {
    let t = LinkTarget::parse("Note#Heading");
    assert_eq!(t.path, "Note");
    assert_eq!(t.heading.as_deref(), Some("Heading"));
    assert_eq!(t.block_id, None);
}

#[test]
fn target_with_heading_and_alias() {
    let t = LinkTarget::parse("Note#Heading|Display");
    assert_eq!(t.path, "Note");
    assert_eq!(t.heading.as_deref(), Some("Heading"));
    assert_eq!(t.alias.as_deref(), Some("Display"));
}

#[test]
fn target_with_block_reference() {
    let t = LinkTarget::parse("Note#^important-point");
    assert_eq!(t.path, "Note");
    assert_eq!(t.block_id.as_deref(), Some("important-point"));
    assert_eq!(t.heading, None);
}

#[test]
fn a_nested_heading_path_keeps_its_inner_hashes() {
    let t = LinkTarget::parse("Note#Chapter#Section");
    assert_eq!(t.path, "Note");
    assert_eq!(t.heading.as_deref(), Some("Chapter#Section"));
}

#[test]
fn an_alias_may_itself_contain_a_pipe() {
    let t = LinkTarget::parse("Note|a|b");
    assert_eq!(t.path, "Note");
    assert_eq!(t.alias.as_deref(), Some("a|b"));
}

#[test]
fn same_note_references_have_an_empty_path() {
    let heading = LinkTarget::parse("#Heading");
    assert!(heading.is_same_note());
    assert_eq!(heading.heading.as_deref(), Some("Heading"));
    assert_eq!(heading.default_display(), "Heading");

    let block = LinkTarget::parse("#^abc");
    assert!(block.is_same_note());
    assert_eq!(block.block_id.as_deref(), Some("abc"));
}

#[test]
fn surrounding_whitespace_is_ignored() {
    let t = LinkTarget::parse("  Note  #  Heading  |  Display  ");
    assert_eq!(t.path, "Note");
    assert_eq!(t.heading.as_deref(), Some("Heading"));
    assert_eq!(t.alias.as_deref(), Some("Display"));
}

#[test]
fn every_form_round_trips_through_rendering() {
    for inner in [
        "Note",
        "Note|Display",
        "Note#Heading",
        "Note#Heading|Display",
        "Note#^block-id",
        "Note#^block-id|Display",
        "#Heading",
        "Folder/Sub/Note#Heading|Display",
    ] {
        let parsed = LinkTarget::parse(inner);
        assert_eq!(parsed.to_inner(), inner, "round trip failed for {inner}");
        assert_eq!(parsed.to_wikilink(false), format!("[[{inner}]]"));
        assert_eq!(parsed.to_wikilink(true), format!("![[{inner}]]"));
    }
}

#[test]
fn slugs_are_lowercase_and_hyphenated() {
    assert_eq!(slugify("Getting Started"), "getting-started");
    assert_eq!(slugify("What's *this*?"), "what-s-this");
    assert_eq!(slugify("  Trailing  "), "trailing");
    assert_eq!(slugify("Section 2.1"), "section-2-1");
}

#[test]
fn heading_matching_tolerates_case_and_punctuation() {
    assert!(heading_matches("Getting Started", "getting started"));
    assert!(heading_matches("What's this?", "What-s-this"));
    assert!(!heading_matches("Getting Started", "Getting Finished"));
}

#[test]
fn a_block_reference_displays_its_path() {
    let t = LinkTarget::parse("Note#^abc");
    assert_eq!(t.default_display(), "Note");
    assert!(!t.is_same_note());
    let c = t.clone_target();
    assert_eq!(c.path, "Note");
    assert_eq!(c.block_id.as_deref(), Some("abc"));
}

#[test]
fn slugify_keeps_unicode_letters_and_lowercases_them() {
    assert_eq!(slugify("Ünïcode Title"), "ünïcode-title");
    assert_eq!(slugify("***"), "");
}
