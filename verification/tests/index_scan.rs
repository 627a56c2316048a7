use ie_core::index::indexer::{IgnoreRules, ScanReport};
use ie_core::index::scan::{
    sort_found, Visited,
    after_read, batch_progress, classify_entry, note_outcome, plan_index, tally, EntryAction, IndexPlan, Indexed,
    ReadPlan, StoredFile, BATCH_SIZE,
};
use ie_core::index::writer::hash_content;
use ie_core::model::FileKind;
use ie_core::vault::path::VaultPath;
use ie_core::Diagnostic;

fn p(s: &str) -> VaultPath {
    VaultPath::parse(s).unwrap()
}

fn stored(size: i64, mtime_ms: i64, hash: Option<&str>) -> Option<StoredFile> {
    Some(StoredFile { size, mtime_ms, content_hash: hash.map(|h| h.to_string()) })
}

#[test]
fn the_content_hash_is_the_first_half_of_the_sha256() {
    assert_eq!(hash_content(b""), "e3b0c44298fc1c149afbf4c8996fb924");
    assert_eq!(hash_content(b"abc"), "ba7816bf8f01cfea414140de5dae2223");
}

#[test]
fn an_unchanged_size_and_time_skip_the_file() {
    let plan = plan_index(&p("a.md"), &Ok((12, Some(500))), &stored(12, 500, None), 1024, 9);
    assert!(matches!(plan, IndexPlan::Unchanged));
}

#[test]
fn a_changed_note_is_read_and_an_attachment_recorded_unread() {
    match plan_index(&p("Notes/a.MD"), &Ok((12, None)), &stored(12, 500, None), 1024, 9) {
        IndexPlan::ReadNote(r) => {
            assert_eq!(r.path.as_str(), "Notes/a.MD");
            assert_eq!(r.kind, FileKind::Note);
            assert_eq!((r.size, r.mtime_ms, r.indexed_at), (12, 0, 9));
            assert!(r.content_hash.is_none());
        }
        other => panic!("{other:?}"),
    }
    match plan_index(&p("img/x.png"), &Ok((12, Some(1))), &None, 1024, 9) {
        IndexPlan::RecordAttachment(r) => assert_eq!(r.kind, FileKind::Image),
        other => panic!("{other:?}"),
    }
    assert!(matches!(plan_index(&p("big.md"), &Ok((2048, Some(1))), &None, 1024, 9), IndexPlan::RecordAttachment(_)));
}

#[test]
fn a_file_that_cannot_be_looked_at_is_reported() {
    match plan_index(&p("a.md"), &Err("denied".to_string()), &None, 1024, 9) {
        IndexPlan::Report(Diagnostic::UnreadableFile { path, message }) => {
            assert_eq!(path.as_str(), "a.md");
            assert_eq!(message, "denied");
        }
        other => panic!("{other:?}"),
    }
}

fn record() -> ie_core::index::writer::FileRecord {
    match plan_index(&p("a.md"), &Ok((3, Some(7))), &None, 1024, 9) {
        IndexPlan::ReadNote(r) => r,
        other => panic!("{other:?}"),
    }
}

#[test]
fn the_same_bytes_only_refresh_the_timestamps() {
    let plan = after_read(record(), Ok(b"abc".to_vec()), &stored(1, 1, Some("ba7816bf8f01cfea414140de5dae2223")));
    assert!(matches!(plan, ReadPlan::RefreshTimestamps(_)));
}

#[test]
fn new_bytes_are_parsed_with_their_hash() {
    match after_read(record(), Ok(b"abc".to_vec()), &stored(1, 1, Some("00"))) {
        ReadPlan::IndexNote(r, source) => {
            assert_eq!(source, "abc");
            assert_eq!(r.content_hash.as_deref(), Some("ba7816bf8f01cfea414140de5dae2223"));
            assert_eq!((r.size, r.mtime_ms), (3, 7));
        }
        other => panic!("{other:?}"),
    }
}

#[test]
fn a_note_that_is_not_utf8_is_kept_as_an_attachment() {
    match after_read(record(), Ok(vec![0xff, 0xfe, 0x41]), &None) {
        ReadPlan::RecordAttachment(r, Diagnostic::UnreadableFile { path, message }) => {
            assert_eq!(r.path.as_str(), "a.md");
            assert_eq!(path.as_str(), "a.md");
            assert_eq!(message, "file is not valid UTF-8 and was indexed as an attachment");
        }
        other => panic!("{other:?}"),
    }
    assert!(matches!(after_read(record(), Err("gone".to_string()), &None), ReadPlan::Report(_)));
}

#[test]
fn malformed_frontmatter_is_reported_after_indexing() {
    assert!(matches!(note_outcome(&p("a.md"), None), Indexed::Written));
    match note_outcome(&p("a.md"), Some("bad yaml".to_string())) {
        Indexed::Failed(Diagnostic::MalformedFrontmatter { message, .. }) => assert_eq!(message, "bad yaml"),
        other => panic!("{other:?}"),
    }
}

#[test]
fn a_scan_counts_each_outcome() {
    let mut report = ScanReport::default();
    let mut diagnostics = Vec::new();
    tally(&mut report, &mut diagnostics, Indexed::Written);
    tally(&mut report, &mut diagnostics, Indexed::Unchanged);
    tally(&mut report, &mut diagnostics, Indexed::Written);
    tally(&mut report, &mut diagnostics, Indexed::Failed(Diagnostic::InterruptedWrite { path: p("x.md") }));
    assert_eq!((report.files_indexed, report.files_unchanged, diagnostics.len()), (2, 1, 1));
}

#[test]
fn progress_counts_whole_batches_up_to_the_total() {
    assert_eq!(BATCH_SIZE, 256);
    let first = batch_progress(0, 600, 10, Some(p("a.md")));
    assert_eq!((first.scanned, first.indexed, first.total), (256, 10, Some(600)));
    assert_eq!(batch_progress(2, 600, 10, None).scanned, 600);
    assert_eq!(batch_progress(1, 512, 10, None).scanned, 512);
}

#[test]
fn the_walk_skips_reports_descends_and_records() {
    let rules = IgnoreRules::default();
    assert_eq!(classify_entry(&rules, ".git", false, false, true), EntryAction::Skip);
    assert_eq!(classify_entry(&rules, ".ie-tmp-123", false, false, false), EntryAction::ReportInterruptedWrite);
    assert_eq!(classify_entry(&rules, "link", true, true, true), EntryAction::ReportEscapingSymlink);
    assert_eq!(classify_entry(&rules, "inside", true, false, true), EntryAction::Descend);
    assert_eq!(classify_entry(&rules, "Notes", false, false, true), EntryAction::Descend);
    assert_eq!(classify_entry(&rules, "a.md", false, false, false), EntryAction::Record);
}

#[test]
fn a_folder_is_entered_only_the_first_time_it_is_met() {
    let mut visited = Visited::new();
    assert!(visited.first_visit("/vault/A"));
    assert!(visited.first_visit("/vault/B"));
    assert!(!visited.first_visit("/vault/A"));
    assert!(!visited.first_visit("/vault/B"));
}

#[test]
fn found_files_come_out_sorted_by_path() {
    let found: Vec<VaultPath> = ["b.md", "A/z.md", "a.md", "B.md", "A/b.md"]
        .iter()
        .map(|p| VaultPath::parse(p).unwrap())
        .collect();
    let sorted: Vec<String> = sort_found(found).iter().map(|p| p.as_str().to_string()).collect();
    assert_eq!(sorted, vec!["A/b.md", "A/z.md", "B.md", "a.md", "b.md"]);
}
