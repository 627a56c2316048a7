use ie_core::index::db::{first_open_outcome, index_files, judge_index, OpenOutcome, SCHEMA_VERSION};
use ie_core::markdown::parser::MarkdownParser;
use ie_core::model::Note;
use ie_core::session::{
    links_updated, skips_referrer, starter_folders, vault_name, welcome_note, RenameOutcome, WELCOME_NOTE,
};
use ie_core::vault::path::VaultPath;
use ie_core::CoreError;

fn p(s: &str) -> VaultPath {
    VaultPath::parse(s).unwrap()
}

#[test]
fn a_usable_index_is_reused_and_a_missing_one_created() {
    assert_eq!(first_open_outcome(true), OpenOutcome::Reused);
    assert_eq!(first_open_outcome(false), OpenOutcome::Created);
    assert!(judge_index("ok", Some(SCHEMA_VERSION)).is_ok());
    assert!(judge_index("ok", None).is_ok());
}

#[test]
fn a_failed_check_means_corruption() {
    let f = judge_index("*** in database main ***", Some(SCHEMA_VERSION)).unwrap_err();
    assert_eq!(f.outcome, OpenOutcome::RebuiltAfterCorruption);
    assert_eq!(f.message, "*** in database main ***");
}

#[test]
fn another_schema_version_means_a_rebuild() {
    let f = judge_index("ok", Some(7)).unwrap_err();
    assert_eq!(f.outcome, OpenOutcome::RebuiltForSchemaChange);
    assert_eq!(f.message, "index schema is version 7, this build expects 1");
    let g = judge_index("ok", Some(-12)).unwrap_err();
    assert_eq!(g.message, "index schema is version -12, this build expects 1");
    let h = judge_index("ok", Some(i64::MIN)).unwrap_err();
    assert_eq!(h.message, format!("index schema is version {}, this build expects 1", i64::MIN));
}

#[test]
fn a_rename_counts_updated_notes_and_reports_failures() {
    let mut outcome = RenameOutcome::new(&p("Old.md"), &p("New.md"));
    outcome.record(&p("a.md"), Ok(3));
    outcome.record(&p("b.md"), Ok(0));
    outcome.record(&p("c.md"), Err(CoreError::NotFound(p("c.md"))));
    outcome.record(&p("d.md"), Ok(1));
    assert_eq!((outcome.files_updated, outcome.links_updated), (2, 4));
    assert_eq!(outcome.failures.len(), 1);
    assert!(outcome.failures[0].starts_with("c.md: "), "{}", outcome.failures[0]);
    assert_eq!(outcome.to.as_str(), "New.md");
}

#[test]
fn the_renamed_file_and_notes_without_targets_are_left_alone() {
    let from = p("Old.md");
    assert!(skips_referrer(&from, &from, &vec!["Old".to_string()]));
    assert!(skips_referrer(&p("a.md"), &from, &Vec::new()));
    assert!(!skips_referrer(&p("a.md"), &from, &vec!["Old".to_string()]));
}

#[test]
fn updated_links_are_those_now_aiming_at_the_new_name() {
    let doc = MarkdownParser::new().parse(
        "[[New]] and [[New|alias]] and [x](New.md) and [[Other]]\n"
    );
    assert_eq!(links_updated(&doc.metadata.links, "New", "New.md"), 3);
}

#[test]
fn a_new_vault_gets_its_folders_and_a_welcome_note() {
    assert_eq!(starter_folders(), vec!["Notes", "Projects", "Attachments", "Templates", "Daily"]);
    assert_eq!(WELCOME_NOTE, "Notes/Welcome.md");
    let text = welcome_note("Garden");
    assert!(text.starts_with("---\ntitle: Welcome\ntags:\n  - getting-started\n---\n\n# Welcome to Garden\n\n"));
    assert!(text.ends_with("it rebuilds itself from these files. ^index-is-a-cache\n"));
    assert!(text.contains("- Link to another note with double brackets, like [[Notes/Welcome]].\n"));
}

#[test]
fn a_vault_is_named_after_its_folder() {
    assert_eq!(vault_name(Some("Garden")), "Garden");
    assert_eq!(vault_name(None), "Vault");
}

#[test]
fn a_rebuild_removes_the_database_and_its_journal() {
    assert_eq!(index_files("/v/.inner-empire/index.db"), vec![
        "/v/.inner-empire/index.db".to_string(),
        "/v/.inner-empire/index.db-wal".to_string(),
        "/v/.inner-empire/index.db-shm".to_string(),
    ]);
}

#[test]
fn a_note_without_a_title_is_called_by_its_stem() {
    let parser = MarkdownParser::new();
    let plain = parser.parse("no heading here\n");
    let note = Note::from_parts(p("Notes/Plan.md"), "no heading here\n".to_string(), plain.metadata, 5);
    assert_eq!(note.title, "Plan");
    let titled = parser.parse("# Big Idea\n");
    assert_eq!(Note::from_parts(p("x.md"), String::new(), titled.metadata, 0).title, "Big Idea");
}
