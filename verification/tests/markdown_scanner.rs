use ie_core::markdown::scanner::{scan_blocks, scan_tags, scan_wikilinks};
use ie_core::markdown::text::{ExclusionZones, LineIndex};
use ie_core::model::{Link, LinkKind};

fn scan_links_in(source: &str) -> Vec<Link> {
    let lines = LineIndex::new(source);
    scan_wikilinks(source, &ExclusionZones::default(), &lines)
}

fn scan_tags_in(source: &str) -> Vec<String> {
    let lines = LineIndex::new(source);
    scan_tags(source, &ExclusionZones::default(), &lines)
        .into_iter()
        .map(|t| t.name)
        .collect()
}

#[test]
fn finds_every_wiki_link_form() {
    let source = "[[Note]] and [[Note|Alias]] and [[Note#Heading]] and [[Note#Heading|Alias]] and [[Note#^block]]";
    let links = scan_links_in(source);
    assert_eq!(links.len(), 5);
    assert_eq!(links[0].target, "Note");
    assert_eq!(links[1].alias.as_deref(), Some("Alias"));
    assert_eq!(links[2].heading.as_deref(), Some("Heading"));
    assert_eq!(links[3].alias.as_deref(), Some("Alias"));
    assert_eq!(links[4].block_id.as_deref(), Some("block"));
    assert!(links.iter().all(|l| l.kind == LinkKind::WikiLink));
}

#[test]
fn an_embed_includes_its_exclamation_mark_in_the_raw_text() {
    let links = scan_links_in("![[Note]]");
    assert_eq!(links.len(), 1);
    assert_eq!(links[0].kind, LinkKind::Embed);
    assert_eq!(links[0].raw, "![[Note]]");
    assert_eq!(links[0].byte_start, 0);
    assert_eq!(links[0].byte_end, 9);
}

#[test]
fn byte_ranges_address_exactly_the_link_text() {
    let source = "before [[Target|Shown]] after";
    let links = scan_links_in(source);
    assert_eq!(&source[links[0].byte_start..links[0].byte_end], "[[Target|Shown]]");
}

#[test]
fn line_numbers_are_recorded_for_each_link() {
    let links = scan_links_in("first\n[[A]]\n\n[[B]]\n");
    assert_eq!(links[0].line, 1);
    assert_eq!(links[1].line, 3);
}

#[test]
fn links_inside_code_are_ignored() {
    let source = "real [[Yes]] and code [[No]]";
    let lines = LineIndex::new(source);
    // The second link sits inside what the caller marked as a code span.
    let zones = ExclusionZones::new(vec![22..28]);
    let links = scan_wikilinks(source, &zones, &lines);
    assert_eq!(links.len(), 1);
    assert_eq!(links[0].target, "Yes");
}

#[test]
fn an_unterminated_link_is_not_a_link() {
    assert!(scan_links_in("[[never closed").is_empty());
}

#[test]
fn a_link_may_not_span_lines() {
    assert!(scan_links_in("[[Note\nstill]]").is_empty());
}

#[test]
fn empty_brackets_are_not_a_link() {
    assert!(scan_links_in("[[]] and [[|alias]]").is_empty());
}

#[test]
fn finds_flat_and_nested_tags() {
    assert_eq!(
        scan_tags_in("#AI and #GameDesign/Mechanics and #AI/LLM"),
        vec!["AI", "GameDesign/Mechanics", "AI/LLM"]
    );
}

#[test]
fn a_hash_inside_a_word_is_not_a_tag() {
    assert!(scan_tags_in("C# and issue#42 and a#b").is_empty());
}

#[test]
fn headings_are_not_tags() {
    assert!(scan_tags_in("# Heading\n## Subheading\n").is_empty());
}

#[test]
fn a_purely_numeric_hash_reference_is_not_a_tag() {
    assert!(scan_tags_in("see #42 and #2026").is_empty());
}

#[test]
fn tags_may_follow_punctuation() {
    assert_eq!(scan_tags_in("(#AI) [#Research]"), vec!["AI", "Research"]);
}

#[test]
fn trailing_punctuation_is_not_swallowed_into_the_tag() {
    assert_eq!(scan_tags_in("tagged #AI, and #Research."), vec!["AI", "Research"]);
    assert_eq!(scan_tags_in("#AI/"), vec!["AI"]);
}

#[test]
fn tags_inside_excluded_regions_are_ignored() {
    let source = "#Real and #Fake";
    let lines = LineIndex::new(source);
    let zones = ExclusionZones::new(vec![10..15]);
    let names: Vec<_> = scan_tags(source, &zones, &lines)
        .into_iter()
        .map(|t| t.name)
        .collect();
    assert_eq!(names, vec!["Real"]);
}

#[test]
fn tag_positions_point_at_the_hash() {
    let source = "text #AI more";
    let lines = LineIndex::new(source);
    let tags = scan_tags(source, &ExclusionZones::default(), &lines);
    assert_eq!(&source[tags[0].byte_start..tags[0].byte_end], "#AI");
}

#[test]
fn a_trailing_marker_identifies_its_own_paragraph() {
    let source = "Intro line.\n\nThe important point. ^important-point\n\nAfter.\n";
    let lines = LineIndex::new(source);
    let blocks = scan_blocks(source, &ExclusionZones::default(), &lines);
    assert_eq!(blocks.len(), 1);
    assert_eq!(blocks[0].id, "important-point");
    assert_eq!(&source[blocks[0].byte_start..blocks[0].byte_end], "The important point.");
}

#[test]
fn a_standalone_marker_identifies_the_paragraph_above() {
    let source = "A paragraph\nspanning two lines.\n^spanning\n";
    let lines = LineIndex::new(source);
    let blocks = scan_blocks(source, &ExclusionZones::default(), &lines);
    assert_eq!(blocks.len(), 1);
    assert_eq!(
        &source[blocks[0].byte_start..blocks[0].byte_end],
        "A paragraph\nspanning two lines."
    );
}

#[test]
fn a_multi_line_paragraph_with_a_trailing_marker_is_captured_whole() {
    let source = "Line one\nline two ^id\n";
    let lines = LineIndex::new(source);
    let blocks = scan_blocks(source, &ExclusionZones::default(), &lines);
    assert_eq!(&source[blocks[0].byte_start..blocks[0].byte_end], "Line one\nline two");
}

#[test]
fn a_caret_inside_a_word_is_not_a_block_marker() {
    let source = "the expression a^b is maths\n";
    let lines = LineIndex::new(source);
    assert!(scan_blocks(source, &ExclusionZones::default(), &lines).is_empty());
}

#[test]
fn block_ids_reject_characters_that_would_break_a_link() {
    let source = "text ^has spaces\ntext ^has/slash\n";
    let lines = LineIndex::new(source);
    assert!(scan_blocks(source, &ExclusionZones::default(), &lines).is_empty());
}

#[test]
fn markers_inside_code_blocks_are_ignored() {
    let source = "```\nlet x = y ^2\n```\n";
    let lines = LineIndex::new(source);
    let zones = ExclusionZones::new(vec![0..source.len()]);
    assert!(scan_blocks(source, &zones, &lines).is_empty());
}

#[test]
fn tags_carry_their_line_and_multibyte_offsets() {
    let source = "é #Tag\n#Next";
    let lines = LineIndex::new(source);
    let tags = scan_tags(source, &ExclusionZones::default(), &lines);
    assert_eq!(tags.len(), 2);
    assert_eq!(tags[0].line, 0);
    assert_eq!(tags[0].byte_start, 3);
    assert_eq!(tags[0].byte_end, 7);
    assert_eq!(tags[1].line, 1);
}

#[test]
fn a_standalone_marker_skips_blank_lines_above() {
    let source = "Para\n\n^pid\n";
    let lines = LineIndex::new(source);
    let blocks = scan_blocks(source, &ExclusionZones::default(), &lines);
    assert_eq!(blocks.len(), 1);
    assert_eq!(blocks[0].line, 2);
    assert_eq!(&source[blocks[0].byte_start..blocks[0].byte_end], "Para");
}

#[test]
fn a_marker_on_the_first_line_alone_identifies_nothing() {
    let source = "^lonely\n";
    let lines = LineIndex::new(source);
    assert!(scan_blocks(source, &ExclusionZones::default(), &lines).is_empty());
}
