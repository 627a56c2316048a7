use ie_core::markdown::transform::{markdown_link_label, Edit, MarkdownTransformer};

fn retarget(source: &str, from: &str, to: &str) -> String {
    let transformer = MarkdownTransformer::new();
    let edits = transformer.retarget_links(source, |link| link.target == from, to);
    MarkdownTransformer::apply(source, edits).unwrap()
}

#[test]
fn a_plain_wiki_link_is_retargeted() {
    assert_eq!(
        retarget("See [[My Project]] today.", "My Project", "My Game Project"),
        "See [[My Game Project]] today."
    );
}

#[test]
fn an_alias_survives_the_rename() {
    assert_eq!(
        retarget("[[My Project|the plan]]", "My Project", "My Game Project"),
        "[[My Game Project|the plan]]"
    );
}

#[test]
fn heading_and_block_references_survive_the_rename() {
    assert_eq!(retarget("[[Project#Scope]]", "Project", "Game Project"), "[[Game Project#Scope]]");
    assert_eq!(
        retarget("[[Project#^key-point]]", "Project", "Game Project"),
        "[[Game Project#^key-point]]"
    );
    assert_eq!(
        retarget("[[Project#Scope|see scope]]", "Project", "Game Project"),
        "[[Game Project#Scope|see scope]]"
    );
}

#[test]
fn an_embed_stays_an_embed() {
    assert_eq!(retarget("![[Project]]", "Project", "Game Project"), "![[Game Project]]");
}

#[test]
fn markdown_links_are_retargeted_with_their_label_intact() {
    assert_eq!(
        retarget("[the plan](Project.md)", "Project.md", "Game Project.md"),
        "[the plan](Game%20Project.md)"
    );
    assert_eq!(retarget("![a diagram](old.png)", "old.png", "new.png"), "![a diagram](new.png)");
}

#[test]
fn external_links_are_never_touched() {
    let source = "[site](https://example.org/Project)";
    assert_eq!(retarget(source, "https://example.org/Project", "x"), source);
}

#[test]
fn links_inside_code_are_not_retargeted() {
    let source = "Real [[Project]] and `[[Project]]` and\n\n```\n[[Project]]\n```\n";
    let result = retarget(source, "Project", "Renamed");
    assert!(result.contains("Real [[Renamed]]"));
    assert!(result.contains("`[[Project]]`"), "{result}");
    assert!(result.contains("```\n[[Project]]\n```"), "{result}");
}

#[test]
fn everything_outside_the_links_is_byte_identical() {
    let source = "Line one.\n\nSee [[Old]] here.   \n\n\tindented\n";
    let result = retarget(source, "Old", "New");
    assert_eq!(result, "Line one.\n\nSee [[New]] here.   \n\n\tindented\n");
}

#[test]
fn several_links_on_one_line_are_all_retargeted() {
    assert_eq!(retarget("[[A]] [[A]] [[A]]", "A", "B"), "[[B]] [[B]] [[B]]");
}

#[test]
fn a_no_op_rename_produces_no_edits() {
    let transformer = MarkdownTransformer::new();
    let edits = transformer.retarget_links("[[Same]]", |l| l.target == "Same", "Same");
    assert!(edits.is_empty());
}

#[test]
fn overlapping_edits_are_refused_rather_than_corrupting_the_file() {
    let result = MarkdownTransformer::apply(
        "abcdef",
        vec![
            Edit { range: 0..3, replacement: "X".into() },
            Edit { range: 2..5, replacement: "Y".into() },
        ],
    );
    assert!(result.is_err());
}

#[test]
fn independent_edits_apply_in_any_order() {
    let result = MarkdownTransformer::apply(
        "one two three",
        vec![
            Edit { range: 8..13, replacement: "THREE".into() },
            Edit { range: 0..3, replacement: "ONE".into() },
        ],
    )
    .unwrap();
    assert_eq!(result, "ONE two THREE");
}

#[test]
fn a_block_id_is_appended_to_the_line_the_cursor_is_on() {
    let transformer = MarkdownTransformer::new();
    let source = "First line.\nSecond line.\n";
    let (updated, id, edit) = transformer.ensure_block_id(source, 14, || "generated".to_string());
    assert_eq!(id, "generated");
    assert!(edit.is_some());
    assert_eq!(updated, "First line.\nSecond line. ^generated\n");
}

#[test]
fn an_existing_block_id_is_reused_rather_than_duplicated() {
    let transformer = MarkdownTransformer::new();
    let source = "A line. ^already-there\n";
    let (updated, id, edit) = transformer.ensure_block_id(source, 2, || "new".to_string());
    assert_eq!(id, "already-there");
    assert_eq!(updated, source);
    assert!(edit.is_none());
}

#[test]
fn a_link_label_containing_brackets_is_extracted_correctly() {
    assert_eq!(markdown_link_label("[see [the plan]](old.md)").as_deref(), Some("see [the plan]"));
}

#[test]
fn apply_reports_each_refusal() {
    let err = MarkdownTransformer::apply(
        "abcdef",
        vec![Edit { range: 0..3, replacement: "X".into() }, Edit { range: 2..5, replacement: "Y".into() }],
    )
    .unwrap_err();
    assert_eq!(err, "overlapping edits at 0..3 and 2..5");
    let err = MarkdownTransformer::apply("abc", vec![Edit { range: 2..4, replacement: "X".into() }]).unwrap_err();
    assert_eq!(err, "an edit extends past the end of the document");
    let err = MarkdownTransformer::apply("é", vec![Edit { range: 1..1, replacement: "X".into() }]).unwrap_err();
    assert_eq!(err, "an edit does not fall on a character boundary");
    assert_eq!(MarkdownTransformer::apply("abc", vec![]).unwrap(), "abc");
    assert_eq!(
        MarkdownTransformer::apply("ab", vec![Edit { range: 1..1, replacement: "-".into() }]).unwrap(),
        "a-b"
    );
}

#[test]
fn markdown_fragments_and_images_are_kept_when_retargeting() {
    assert_eq!(
        retarget("[x](Old.md#Part) [y](Old.md#^b1)", "Old.md", "New (v2).md"),
        "[x](New%20%28v2%29.md#Part) [y](New%20%28v2%29.md#^b1)"
    );
    assert_eq!(markdown_link_label("no label"), None);
    assert_eq!(markdown_link_label("[never closed"), None);
}

#[test]
fn a_block_id_goes_before_trailing_whitespace() {
    let transformer = MarkdownTransformer::new();
    let (updated, _, edit) = transformer.ensure_block_id("Text here.   \nNext\n", 0, || "b".to_string());
    assert_eq!(updated, "Text here. ^b   \nNext\n");
    assert_eq!(edit.unwrap().range, 10..10);
}

#[test]
fn an_overlap_is_reported_before_a_reversed_range() {
    let err = MarkdownTransformer::apply(
        "abcdefgh",
        vec![Edit { range: 4..6, replacement: "X".into() }, Edit { range: 5..3, replacement: "Y".into() }],
    )
    .unwrap_err();
    assert_eq!(err, "overlapping edits at 4..6 and 5..3");
}
