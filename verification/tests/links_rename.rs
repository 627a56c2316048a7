use ie_core::links::rename::{preferred_target_text, rewrite_source, RenameEdit, RenamePlan};
use ie_core::model::LinkKind;
use ie_core::vault::path::VaultPath;
use ie_core::vault::settings::LinkStyle;

fn path(text: &str) -> VaultPath {
    VaultPath::parse(text).unwrap()
}

#[test]
fn rewriting_updates_only_the_links_that_pointed_at_the_renamed_note() {
    let source = "See [[Plan]] and [[Other Plan]] and [[Plan|the plan]].\n";
    let result = rewrite_source(source, &["Plan".into()], "New Plan", "New Plan.md").unwrap();
    assert_eq!(
        result,
        "See [[New Plan]] and [[Other Plan]] and [[New Plan|the plan]].\n"
    );
}

#[test]
fn rewriting_handles_wiki_and_markdown_links_in_the_same_file() {
    let source = "[[Plan]] and [label](Plan.md) and ![[Plan]]\n";
    let result = rewrite_source(
        source,
        &["Plan".into(), "Plan.md".into()],
        "New Plan",
        "New Plan.md",
    )
    .unwrap();
    assert_eq!(
        result,
        "[[New Plan]] and [label](New%20Plan.md) and ![[New Plan]]\n"
    );
}

#[test]
fn rewriting_preserves_headings_blocks_and_aliases() {
    let source = "[[Plan#Scope]] [[Plan#^key]] [[Plan#Scope|see]]\n";
    let result = rewrite_source(source, &["Plan".into()], "New", "New.md").unwrap();
    assert_eq!(result, "[[New#Scope]] [[New#^key]] [[New#Scope|see]]\n");
}

#[test]
fn rewriting_leaves_links_inside_code_untouched() {
    let source = "Real [[Plan]] and `[[Plan]]`\n";
    let result = rewrite_source(source, &["Plan".into()], "New", "New.md").unwrap();
    assert_eq!(result, "Real [[New]] and `[[Plan]]`\n");
}

#[test]
fn rewriting_matches_link_text_case_insensitively() {
    let source = "[[plan]] and [[PLAN]]\n";
    let result = rewrite_source(source, &["Plan".into()], "New", "New.md").unwrap();
    assert_eq!(result, "[[New]] and [[New]]\n");
}

#[test]
fn rewriting_with_no_matching_target_leaves_the_source_alone() {
    let source = "[[Other]] and [x](Other.md)\n";
    let result = rewrite_source(source, &["Plan".into()], "New", "New.md").unwrap();
    assert_eq!(result, source);
}

#[test]
fn the_shortest_style_uses_the_bare_title_when_it_is_unambiguous() {
    let text = preferred_target_text(
        &path("Projects/Plan.md"),
        LinkStyle::ShortestWikiLink,
        LinkKind::WikiLink,
        1,
    );
    assert_eq!(text, "Plan");
}

#[test]
fn the_shortest_style_falls_back_to_the_full_path_when_the_title_is_taken() {
    let text = preferred_target_text(
        &path("Projects/Plan.md"),
        LinkStyle::ShortestWikiLink,
        LinkKind::WikiLink,
        2,
    );
    assert_eq!(text, "Projects/Plan", "shortening must never introduce ambiguity");
}

#[test]
fn the_absolute_style_always_writes_the_full_path_without_the_extension() {
    let text = preferred_target_text(
        &path("Projects/Plan.md"),
        LinkStyle::AbsoluteWikiLink,
        LinkKind::WikiLink,
        1,
    );
    assert_eq!(text, "Projects/Plan");
}

#[test]
fn a_markdown_link_keeps_the_extension_because_it_addresses_a_file() {
    let text = preferred_target_text(
        &path("Projects/Plan.md"),
        LinkStyle::ShortestWikiLink,
        LinkKind::Markdown,
        1,
    );
    assert_eq!(text, "Projects/Plan.md");
}

#[test]
fn an_attachment_keeps_its_extension_in_a_wiki_link() {
    let text = preferred_target_text(
        &path("Attachments/diagram.png"),
        LinkStyle::ShortestWikiLink,
        LinkKind::WikiLink,
        1,
    );
    assert_eq!(text, "diagram.png");
}

#[test]
fn a_plan_totals_the_links_of_every_file() {
    let edits = vec![
        RenameEdit { path: path("A.md"), link_count: 2 },
        RenameEdit { path: path("B.md"), link_count: 1 },
    ];
    let plan = RenamePlan::from_edits(&path("Plan.md"), &path("Projects/Plan.md"), edits);
    assert!(!plan.is_noop());
    assert_eq!(plan.total_links, 3);
    assert_eq!(plan.edits.len(), 2);
    assert_eq!(plan.from.as_str(), "Plan.md");
    assert_eq!(plan.to.as_str(), "Projects/Plan.md");
}

#[test]
fn renaming_a_note_nothing_links_to_is_a_no_op_plan() {
    let plan = RenamePlan::from_edits(&path("Lonely.md"), &path("Still Lonely.md"), Vec::new());
    assert!(plan.is_noop());
    assert_eq!(plan.total_links, 0);
}
