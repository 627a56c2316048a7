use ie_core::links::resolver::{LinkResolver, ResolutionOutcome};
use ie_core::model::LinkKind;
use ie_core::vault::path::VaultPath;

fn p(s: &str) -> VaultPath {
    VaultPath::parse(s).unwrap()
}

#[test]
fn a_raw_target_becomes_a_wiki_link() {
    let link = LinkResolver::link_for("Note#Heading|Shown");
    assert_eq!(link.kind, LinkKind::WikiLink);
    assert_eq!(link.raw, "[[Note#Heading|Shown]]");
    assert_eq!(link.target, "Note");
    assert_eq!(link.heading.as_deref(), Some("Heading"));
    assert_eq!(link.alias.as_deref(), Some("Shown"));
}

#[test]
fn a_found_heading_gives_its_line_and_a_missing_one_is_flagged() {
    let headings = vec![("Intro".to_string(), 1), ("Getting Started".to_string(), 7)];
    let blocks = vec![("key".to_string(), 12)];
    let link = LinkResolver::link_for("Note#getting started");
    assert_eq!(LinkResolver::locate_anchor(&link, &headings, &blocks), (Some(7), false));
    let missing = LinkResolver::link_for("Note#Nowhere");
    assert_eq!(LinkResolver::locate_anchor(&missing, &headings, &blocks), (None, true));
    let block = LinkResolver::link_for("Note#^key");
    assert_eq!(LinkResolver::locate_anchor(&block, &headings, &blocks), (Some(12), false));
    let plain = LinkResolver::link_for("Note");
    assert_eq!(LinkResolver::locate_anchor(&plain, &headings, &blocks), (None, false));
}

#[test]
fn an_unresolved_target_suggests_a_usable_name() {
    let link = LinkResolver::link_for("Q1: Plan?");
    let r = LinkResolver::resolution(&p("From.md"), &link, None, (None, false));
    assert_eq!(r.target, "Q1: Plan?");
    match r.outcome {
        ResolutionOutcome::Unresolved { suggested_name } => assert_eq!(suggested_name, "Q1- Plan-"),
        other => panic!("{other:?}"),
    }
}

#[test]
fn a_link_to_a_heading_in_the_same_note_resolves_to_that_note() {
    let link = LinkResolver::link_for("#Section");
    let r = LinkResolver::resolution(&p("Here.md"), &link, None, (Some(3), false));
    match r.outcome {
        ResolutionOutcome::Resolved { path, line, anchor_missing, ambiguous } => {
            assert_eq!(path.as_str(), "Here.md");
            assert_eq!(line, Some(3));
            assert!(!anchor_missing && !ambiguous);
        }
        other => panic!("{other:?}"),
    }
}

#[test]
fn a_found_target_carries_its_ambiguity() {
    let link = LinkResolver::link_for("Plan");
    let r = LinkResolver::resolution(&p("A.md"), &link, Some((p("X/Plan.md"), true)), (None, false));
    match r.outcome {
        ResolutionOutcome::Resolved { path, ambiguous, .. } => {
            assert_eq!(path.as_str(), "X/Plan.md");
            assert!(ambiguous);
        }
        other => panic!("{other:?}"),
    }
}
