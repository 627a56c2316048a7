use ie_core::templates::datefmt::{at, DateParts};
use ie_core::templates::{
    daily_note_contents, daily_note_context, daily_note_path, expand, templates_in, TemplateContext,
};
use ie_core::vault::path::VaultPath;
use ie_core::vault::settings::DailyNoteSettings;

/// 2026-09-17T14:05:09Z
const NOW: i64 = 1_789_653_909_000;

fn context() -> TemplateContext {
    TemplateContext {
        title: "My Note".into(),
        path: VaultPath::parse("Projects/My Note.md").unwrap(),
        now_ms: NOW,
        offset_seconds: 0,
    }
}

/// 2026-09-17T14:05:09Z, a Thursday in ISO week 38.
fn sample() -> DateParts {
    at(NOW, 0)
}

#[test]
fn the_sample_instant_is_what_the_other_tests_assume() {
    let t = sample();
    assert_eq!((t.year, t.month, t.day), (2026, 9, 17));
    assert_eq!((t.hour, t.minute, t.second), (14, 5, 9));
    assert_eq!((t.weekday, t.iso_week), (3, 38));
}

#[test]
fn the_default_daily_note_format_produces_an_iso_date() {
    assert_eq!(ie_core::templates::datefmt::format("YYYY-MM-DD", &sample()), "2026-09-17");
}

#[test]
fn every_token_expands() {
    let t = sample();
    assert_eq!(ie_core::templates::datefmt::format("YYYY", &t), "2026");
    assert_eq!(ie_core::templates::datefmt::format("YY", &t), "26");
    assert_eq!(ie_core::templates::datefmt::format("MMMM", &t), "September");
    assert_eq!(ie_core::templates::datefmt::format("MMM", &t), "Sep");
    assert_eq!(ie_core::templates::datefmt::format("MM", &t), "09");
    assert_eq!(ie_core::templates::datefmt::format("M", &t), "9");
    assert_eq!(ie_core::templates::datefmt::format("DD", &t), "17");
    assert_eq!(ie_core::templates::datefmt::format("D", &t), "17");
    assert_eq!(ie_core::templates::datefmt::format("dddd", &t), "Thursday");
    assert_eq!(ie_core::templates::datefmt::format("ddd", &t), "Thu");
    assert_eq!(ie_core::templates::datefmt::format("HH:mm:ss", &t), "14:05:09");
    assert_eq!(ie_core::templates::datefmt::format("ww", &t), "38");
}

#[test]
fn separators_and_unknown_characters_pass_through() {
    assert_eq!(ie_core::templates::datefmt::format("YYYY/MM/DD", &sample()), "2026/09/17");
    assert_eq!(ie_core::templates::datefmt::format("[YYYY]", &sample()), "[2026]");
}

#[test]
fn quoted_text_is_literal() {
    assert_eq!(ie_core::templates::datefmt::format("'Week' ww', 'YYYY", &sample()), "Week 38, 2026");
    assert_eq!(ie_core::templates::datefmt::format("'Daily note for 'dddd", &sample()), "Daily note for Thursday");
}

#[test]
fn a_local_offset_shifts_the_rendered_date() {
    let local = at(NOW, 11 * 3600);
    assert_eq!(ie_core::templates::datefmt::format("YYYY-MM-DD HH:mm", &local), "2026-09-18 01:05");
}

#[test]
fn a_nonsensical_timestamp_does_not_panic() {
    let t = at(i64::MAX, 0);
    assert!(!ie_core::templates::datefmt::format("YYYY-MM-DD", &t).is_empty());
}

#[test]
fn runs_of_unrecognised_length_are_copied() {
    let t = sample();
    assert_eq!(ie_core::templates::datefmt::format("YYY", &t), "YYY");
    assert_eq!(ie_core::templates::datefmt::format("DDD", &t), "DDD");
    assert_eq!(ie_core::templates::datefmt::format("x''y", &t), "xy");
    assert_eq!(ie_core::templates::datefmt::format("'unclosed", &t), "unclosed");
}

#[test]
fn small_and_negative_years_are_padded_as_rust_pads_them() {
    let early = DateParts { year: 7, month: 1, day: 2, weekday: 0, hour: 3, minute: 4, second: 5, iso_week: 1 };
    assert_eq!(ie_core::templates::datefmt::format("YYYY-MM-DD H:m:s", &early), "0007-01-02 3:4:5");
    let bce = DateParts { year: -5, ..early };
    assert_eq!(ie_core::templates::datefmt::format("YYYY", &bce), "-005");
    let bce2 = DateParts { year: -2026, ..early };
    assert_eq!(ie_core::templates::datefmt::format("YY", &bce2), "-26");
}

#[test]
fn the_documented_variables_expand() {
    let c = context();
    assert_eq!(expand("{{title}}", &c), "My Note");
    assert_eq!(expand("{{path}}", &c), "Projects/My Note.md");
    assert_eq!(expand("{{folder}}", &c), "Projects");
    assert_eq!(expand("{{date}}", &c), "2026-09-17");
    assert_eq!(expand("{{time}}", &c), "14:05");
    assert_eq!(expand("{{datetime}}", &c), "2026-09-17 14:05");
}

#[test]
fn a_variable_can_carry_its_own_format() {
    let c = context();
    assert_eq!(expand("{{date:dddd}}", &c), "Thursday");
    assert_eq!(expand("{{date:YYYY/MM}}", &c), "2026/09");
    assert_eq!(expand("{{time:HH.mm.ss}}", &c), "14.05.09");
}

#[test]
fn adjacent_days_are_available_for_daily_note_navigation() {
    let c = context();
    assert_eq!(expand("{{yesterday}}", &c), "2026-09-16");
    assert_eq!(expand("{{tomorrow}}", &c), "2026-09-18");
}

#[test]
fn variable_names_are_matched_case_insensitively_and_trimmed() {
    let c = context();
    assert_eq!(expand("{{ TITLE }}", &c), "My Note");
    assert_eq!(expand("{{Title}}", &c), "My Note");
}

#[test]
fn an_unknown_variable_is_left_exactly_as_written() {
    let c = context();
    assert_eq!(expand("{{mustache}}", &c), "{{mustache}}");
    assert_eq!(expand("{{a.b.c}}", &c), "{{a.b.c}}");
}

#[test]
fn an_unclosed_variable_is_left_alone() {
    let c = context();
    assert_eq!(expand("{{title", &c), "{{title");
}

#[test]
fn surrounding_markdown_is_untouched() {
    let c = context();
    let template = "---\ntitle: {{title}}\ncreated: {{date}}\n---\n\n# {{title}}\n\n- [ ] task\n";
    assert_eq!(
        expand(template, &c),
        "---\ntitle: My Note\ncreated: 2026-09-17\n---\n\n# My Note\n\n- [ ] task\n"
    );
}

#[test]
fn multi_byte_text_survives_expansion() {
    let c = context();
    assert_eq!(expand("café {{title}} — 日本語", &c), "café My Note — 日本語");
}

#[test]
fn the_daily_note_path_follows_the_configured_folder_and_format() {
    let settings = DailyNoteSettings {
        folder: VaultPath::parse("Journal/2026").unwrap(),
        format: "YYYY-MM-DD dddd".into(),
        ..DailyNoteSettings::default()
    };
    let path = daily_note_path(&settings, NOW, 0, 0).unwrap();
    assert_eq!(path.as_str(), "Journal/2026/2026-09-17 Thursday.md");
}

#[test]
fn a_format_producing_illegal_characters_still_yields_a_usable_path() {
    let settings = DailyNoteSettings {
        format: "YYYY/MM/DD".into(),
        ..DailyNoteSettings::default()
    };
    let path = daily_note_path(&settings, NOW, 0, 0).unwrap();
    assert_eq!(path.as_str(), "Daily/2026-09-17.md");
}

#[test]
fn yesterdays_note_can_be_opened_with_a_day_offset() {
    let path = daily_note_path(&DailyNoteSettings::default(), NOW, 0, -1).unwrap();
    assert_eq!(path.as_str(), "Daily/2026-09-16.md");
}

#[test]
fn a_daily_note_uses_its_template_when_one_is_configured() {
    let path = daily_note_path(&DailyNoteSettings::default(), NOW, 0, 0).unwrap();
    let context = daily_note_context(&path, NOW, 0, 0);
    let contents = daily_note_contents(
        Some("---\ndate: {{date}}\n---\n\n# {{title}}\n\n## Yesterday\n[[{{yesterday}}]]\n"),
        &context,
    );
    assert!(contents.contains("date: 2026-09-17"), "{contents}");
    assert!(contents.contains("# 2026-09-17"), "{contents}");
    assert!(contents.contains("[[2026-09-16]]"), "{contents}");
}

#[test]
fn a_configured_template_that_is_missing_falls_back_to_a_plain_note() {
    let path = daily_note_path(&DailyNoteSettings::default(), NOW, 0, 0).unwrap();
    let context = daily_note_context(&path, NOW, 0, 0);
    assert_eq!(daily_note_contents(None, &context), "# 2026-09-17\n\n");
}

#[test]
fn a_day_offset_moves_the_context_clock() {
    let path = daily_note_path(&DailyNoteSettings::default(), NOW, 0, -1).unwrap();
    let context = daily_note_context(&path, NOW, 0, -1);
    assert_eq!(context.title, "2026-09-16");
    assert_eq!(context.now_ms, NOW - 86_400_000);
    assert_eq!(expand("{{date}}", &context), "2026-09-16");
}

#[test]
fn a_context_records_what_it_was_given() {
    let c = TemplateContext::new("T", VaultPath::parse("A/T.md").unwrap(), 5, 60);
    assert_eq!(c.title, "T");
    assert_eq!(c.path.as_str(), "A/T.md");
    assert_eq!((c.now_ms, c.offset_seconds), (5, 60));
}

#[test]
fn templates_are_listed_alphabetically_and_only_markdown_counts() {
    let folder = VaultPath::parse("Templates").unwrap();
    let entries: Vec<(VaultPath, bool)> = ["Project.md", "Daily Note.md", "notes.txt", "Meeting.md"]
        .iter()
        .map(|name| (folder.join(name).unwrap(), false))
        .chain(std::iter::once((folder.join("Archive.md").unwrap(), true)))
        .collect();
    let names: Vec<String> = templates_in(&entries).into_iter().map(|t| t.name).collect();
    assert_eq!(names, vec!["Daily Note", "Meeting", "Project"]);
}

#[test]
fn template_order_ignores_case_and_keeps_ties_in_listing_order() {
    let entries = vec![
        (VaultPath::parse("T/beta.markdown").unwrap(), false),
        (VaultPath::parse("T/Alpha.md").unwrap(), false),
        (VaultPath::parse("T/BETA.md").unwrap(), false),
    ];
    let listed = templates_in(&entries);
    let paths: Vec<&str> = listed.iter().map(|t| t.path.as_str()).collect();
    assert_eq!(paths, vec!["T/Alpha.md", "T/beta.markdown", "T/BETA.md"]);
}
