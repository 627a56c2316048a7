use ie_core::markdown::parser::{is_external_url, percent_decode, MarkdownParser, ParsedDocument, ParserOptions};
use ie_core::model::LinkKind;

fn parse(source: &str) -> ParsedDocument {
    MarkdownParser::new().parse(source)
}

#[test]
fn collects_headings_with_levels_slugs_and_lines() {
    let doc = parse("# Top\n\nText\n\n## Getting Started\n\n### Deep\n");
    let headings = &doc.metadata.headings;
    assert_eq!(headings.len(), 3);
    assert_eq!((headings[0].level, headings[0].text.as_str()), (1, "Top"));
    assert_eq!(headings[1].slug, "getting-started");
    assert_eq!(headings[1].line, 4);
    assert_eq!(headings[2].level, 3);
}

#[test]
fn heading_text_includes_inline_formatting_content() {
    let doc = parse("## A *bold* `code` heading\n");
    assert_eq!(doc.metadata.headings[0].text, "A bold code heading");
}

#[test]
fn title_comes_from_frontmatter_first() {
    let doc = MarkdownParser::new().parse("---\ntitle: From Properties\n---\n# From Heading\n");
    assert_eq!(doc.metadata.title.as_deref(), Some("From Properties"));
}

#[test]
fn a_blank_title_property_falls_back_to_the_heading() {
    let doc = MarkdownParser::new().parse("---\ntitle: \"   \"\n---\n# From Heading\n");
    assert_eq!(doc.metadata.title.as_deref(), Some("From Heading"));
}

#[test]
fn title_falls_back_to_the_first_level_one_heading() {
    let doc = parse("## Not this\n\n# This one\n\n# Nor this\n");
    assert_eq!(doc.metadata.title.as_deref(), Some("This one"));
}

#[test]
fn a_note_without_a_title_reports_none_so_the_caller_can_use_the_filename() {
    assert_eq!(parse("Just text.\n").metadata.title, None);
}

#[test]
fn wiki_links_inside_fenced_code_blocks_are_not_links() {
    let doc = parse("Real [[Yes]]\n\n```md\n[[No]]\n#nottag\n```\n");
    let targets: Vec<_> = doc.metadata.links.iter().map(|l| l.target.as_str()).collect();
    assert_eq!(targets, vec!["Yes"]);
    assert!(doc.metadata.tags.is_empty());
}

#[test]
fn wiki_links_inside_inline_code_are_not_links() {
    let doc = parse("Use `[[Literal]]` to write a link to [[Real]].\n");
    let targets: Vec<_> = doc.metadata.links.iter().map(|l| l.target.as_str()).collect();
    assert_eq!(targets, vec!["Real"]);
}

#[test]
fn a_shebang_in_a_code_block_is_not_a_tag() {
    let doc = parse("```sh\n#!/bin/sh\necho hi\n```\n\n#RealTag\n");
    let names: Vec<_> = doc.metadata.tags.iter().map(|t| t.name.as_str()).collect();
    assert_eq!(names, vec!["RealTag"]);
}

#[test]
fn an_indented_code_block_is_excluded_too() {
    let doc = parse("Text\n\n    [[Indented]]\n    #indentedtag\n\n[[Real]]\n");
    let targets: Vec<_> = doc.metadata.links.iter().map(|l| l.target.as_str()).collect();
    assert_eq!(targets, vec!["Real"]);
    assert!(doc.metadata.tags.is_empty());
}

#[test]
fn a_url_fragment_is_not_a_tag() {
    let doc = parse("See [docs](https://example.org/guide#installation).\n");
    assert!(doc.metadata.tags.is_empty());
}

#[test]
fn a_heading_reference_inside_a_wiki_link_is_not_a_tag() {
    let doc = parse("[[Note#Heading]] and [[Other#^block]]\n");
    assert!(doc.metadata.tags.is_empty());
    assert_eq!(doc.metadata.links.len(), 2);
}

#[test]
fn frontmatter_is_never_scanned_for_tags_or_links() {
    let doc = parse("---\n# a yaml comment\nnote: \"see [[Ghost]]\"\n---\n\n[[Real]]\n");
    let targets: Vec<_> = doc.metadata.links.iter().map(|l| l.target.as_str()).collect();
    assert_eq!(targets, vec!["Real"]);
    assert!(doc.metadata.tags.is_empty());
    assert_eq!(doc.metadata.headings.len(), 0);
}

#[test]
fn markdown_links_are_classified_as_internal_or_external() {
    let doc = parse("[a](Notes/Other.md) [b](https://example.org) ![c](img/pic.png)\n");
    let kinds: Vec<_> = doc.metadata.links.iter().map(|l| l.kind).collect();
    assert_eq!(kinds, vec![LinkKind::Markdown, LinkKind::External, LinkKind::MarkdownImage]);
    assert_eq!(doc.metadata.links[0].target, "Notes/Other.md");
    assert_eq!(doc.metadata.links[2].target, "img/pic.png");
}

#[test]
fn a_markdown_link_destination_is_percent_decoded() {
    let doc = parse("[a](Notes/My%20Note.md)\n");
    assert_eq!(doc.metadata.links[0].target, "Notes/My Note.md");
}

#[test]
fn a_markdown_link_fragment_becomes_a_heading_or_block_reference() {
    let doc = parse("[a](Other.md#Section) [b](Other.md#^blk)\n");
    assert_eq!(doc.metadata.links[0].heading.as_deref(), Some("Section"));
    assert_eq!(doc.metadata.links[1].block_id.as_deref(), Some("blk"));
}

#[test]
fn links_are_returned_in_source_order() {
    let doc = parse("[md](a.md) then [[wiki]] then ![[embed]]\n");
    let starts: Vec<_> = doc.metadata.links.iter().map(|l| l.byte_start).collect();
    let mut sorted = starts.clone();
    sorted.sort_unstable();
    assert_eq!(starts, sorted);
    assert_eq!(doc.metadata.links.len(), 3);
}

#[test]
fn block_identifiers_are_collected() {
    let doc = parse("A point worth referencing. ^important\n");
    assert_eq!(doc.metadata.blocks.len(), 1);
    assert_eq!(doc.metadata.blocks[0].id, "important");
}

#[test]
fn word_count_excludes_frontmatter() {
    let doc = parse("---\ntitle: A Very Long Title Indeed\n---\none two three\n");
    assert_eq!(doc.metadata.word_count, 3);
}

#[test]
fn frontmatter_byte_length_is_reported_for_body_addressing() {
    let source = "---\na: 1\n---\nbody\n";
    let doc = parse(source);
    assert_eq!(&source[doc.body_offset..], "body\n");
    assert_eq!(doc.metadata.frontmatter_bytes, doc.body_offset);
}

#[test]
fn a_malformed_frontmatter_block_still_yields_links_and_tags() {
    let doc = MarkdownParser::new().parse("---\nbad: [unclosed\n---\n\n[[Note]] #tag\n");
    assert!(doc.frontmatter_error.is_some());
    assert_eq!(doc.metadata.links.len(), 1);
    assert_eq!(doc.metadata.tags.len(), 1);
}

#[test]
fn tables_and_task_lists_parse_without_disturbing_extensions() {
    let source = "| a | b |\n| - | - |\n| [[X]] | #tag |\n\n- [ ] todo\n- [x] done\n";
    let doc = parse(source);
    assert_eq!(doc.metadata.links.len(), 1);
    assert_eq!(doc.metadata.tags.len(), 1);
}

#[test]
fn external_url_detection_handles_schemes_and_lookalikes() {
    assert!(is_external_url("https://example.org"));
    assert!(is_external_url("mailto:a@b.c"));
    assert!(is_external_url("//cdn.example.org/x.png"));
    assert!(!is_external_url("Notes/Other.md"));
    assert!(!is_external_url("Note: A Subtitle.md"));
    assert!(!is_external_url("./relative.md"));
}

#[test]
fn percent_decoding_leaves_invalid_escapes_alone() {
    assert_eq!(percent_decode("a%20b"), "a b");
    assert_eq!(percent_decode("100%done"), "100%done");
    assert_eq!(percent_decode("plain"), "plain");
}

#[test]
fn percent_decoding_reads_utf8_sequences_and_refuses_broken_ones() {
    assert_eq!(percent_decode("caf%C3%A9"), "café");
    assert_eq!(percent_decode("bad%C3"), "bad%C3");
    assert_eq!(percent_decode("%2"), "%2");
    assert_eq!(percent_decode("%+41"), "\u{4}1");
    assert_eq!(percent_decode("%aé"), "%aé");
}

#[test]
fn parsing_is_stable_for_windows_line_endings() {
    let unix = parse("# Title\r\n\r\n[[Link]] #tag\r\n");
    assert_eq!(unix.metadata.headings.len(), 1);
    assert_eq!(unix.metadata.links.len(), 1);
    assert_eq!(unix.metadata.tags.len(), 1);
}

#[test]
fn external_links_can_be_left_untracked() {
    let options = ParserOptions { track_external_links: false, ..ParserOptions::default() };
    let doc = MarkdownParser::with_options(options).parse("[b](https://example.org) [a](x.md)\n");
    assert_eq!(doc.metadata.links.len(), 1);
    assert_eq!(doc.metadata.links[0].kind, LinkKind::Markdown);
}

#[test]
fn a_broken_escape_is_kept_as_written() {
    assert_eq!(percent_decode("%aé"), "%aé");
    assert_eq!(percent_decode("%E2%82%AC"), "€");
    assert_eq!(percent_decode("%ff"), "%ff");
}
