use ie_core::export::{
    export_resolutions, html_export_path, html_render_options, import_target, names_exported_file, note_unresolved, targets_to_check,
    ExportFormat, ExportOptions, ExportSelection,
};
use ie_core::markdown::parser::MarkdownParser;
use ie_core::markdown::render::MarkdownRenderer;
use ie_core::vault::path::VaultPath;

fn p(s: &str) -> VaultPath {
    VaultPath::parse(s).unwrap()
}

#[test]
fn every_exported_file_answers_to_its_path_stem_and_name() {
    let names: Vec<(String, String)> = export_resolutions(&vec![p("Notes/Plan.md")], &vec![p("img/a.png")])
        .into_iter()
        .map(|(k, v)| (k, v.as_str().to_string()))
        .collect();
    assert_eq!(
        names,
        vec![
            ("Notes/Plan.md".to_string(), "Notes/Plan.md".to_string()),
            ("Plan".to_string(), "Notes/Plan.md".to_string()),
            ("Plan.md".to_string(), "Notes/Plan.md".to_string()),
            ("img/a.png".to_string(), "img/a.png".to_string()),
            ("a".to_string(), "img/a.png".to_string()),
            ("a.png".to_string(), "img/a.png".to_string()),
        ]
    );
}

#[test]
fn an_html_export_writes_each_note_beside_itself_as_html() {
    assert_eq!(html_export_path(&p("Notes/Plan.md")), "Notes/Plan.html");
    assert_eq!(html_export_path(&p("README")), "README.html");
}

#[test]
fn an_exported_page_links_to_the_other_exported_pages() {
    let resolutions = export_resolutions(&vec![p("A.md"), p("Sub/B.md")], &Vec::new());
    let html = MarkdownRenderer::new(html_render_options(true, "A"))
        .with_resolutions(resolutions)
        .render("See [[B]].\n", &Vec::new());
    assert!(html.starts_with("<!DOCTYPE html>"));
    assert!(html.contains("<title>A</title>"));
    assert!(html.contains("href=\"Sub/B.html\""), "{html}");
}

#[test]
fn export_defaults_to_html_with_attachments() {
    let o = ExportOptions::default();
    assert_eq!(o.format, ExportFormat::Html);
    assert!(!o.include_linked_notes && o.include_attachments && o.include_properties);
    assert_eq!(o.depth, 1);
}

fn links_of(path: &str) -> Vec<Option<VaultPath>> {
    match path {
        "A.md" => vec![Some(p("B.md")), Some(p("img/x.png")), None, Some(p("B.md"))],
        "B.md" => vec![Some(p("C.MD")), Some(p("A.md")), Some(p("img/x.png")), Some(p("doc.pdf"))],
        "C.MD" => vec![Some(p("D.markdown"))],
        _ => Vec::new(),
    }
}

fn walk(roots: &[&str], options: &ExportOptions) -> (Vec<String>, Vec<String>) {
    let roots: Vec<VaultPath> = roots.iter().map(|r| p(r)).collect();
    let mut w = ExportSelection::new(&roots, options);
    while let Some(path) = w.next_note() {
        let targets = links_of(path.as_str());
        w.record_links(&targets);
    }
    (
        w.selected().iter().map(|x| x.as_str().to_string()).collect(),
        w.attachments().iter().map(|x| x.as_str().to_string()).collect(),
    )
}

fn options(linked: bool, depth: usize, attachments: bool) -> ExportOptions {
    ExportOptions {
        format: ExportFormat::Markdown,
        include_linked_notes: linked,
        include_attachments: attachments,
        include_properties: false,
        depth,
    }
}

#[test]
fn without_linked_notes_only_the_roots_are_exported() {
    let (notes, files) = walk(&["A.md"], &options(false, 3, true));
    assert_eq!(notes, vec!["A.md"]);
    assert_eq!(files, vec!["img/x.png"]);
}

#[test]
fn linked_notes_are_followed_as_many_hops_as_asked() {
    assert_eq!(walk(&["A.md"], &options(true, 1, true)).0, vec!["A.md", "B.md"]);
    assert_eq!(walk(&["A.md"], &options(true, 2, true)).0, vec!["A.md", "B.md", "C.MD"]);
    assert_eq!(walk(&["A.md"], &options(true, 9, true)).0, vec!["A.md", "B.md", "C.MD", "D.markdown"]);
}

#[test]
fn each_attachment_is_listed_once_in_the_order_first_linked() {
    let (_, files) = walk(&["A.md"], &options(true, 1, true));
    assert_eq!(files, vec!["img/x.png", "doc.pdf"]);
    let (_, none) = walk(&["A.md"], &options(true, 1, false));
    assert!(none.is_empty());
}

#[test]
fn a_root_given_twice_is_exported_once() {
    let (notes, _) = walk(&["B.md", "A.md", "B.md"], &options(false, 0, false));
    assert_eq!(notes, vec!["B.md", "A.md"]);
}

#[test]
fn an_export_checks_internal_links_only() {
    let doc = MarkdownParser::new().parse(
        "See [[Plan]], [site](https://example.com) and [[Other#Part]].\n"
    );
    let targets = targets_to_check(&doc.metadata.links);
    assert_eq!(targets, vec!["Plan".to_string(), "Other".to_string()]);
}

#[test]
fn an_unresolved_target_is_reported_once() {
    let mut out: Vec<String> = Vec::new();
    note_unresolved(&mut out, &"Ghost".to_string());
    note_unresolved(&mut out, &"Other".to_string());
    note_unresolved(&mut out, &"Ghost".to_string());
    assert_eq!(out, vec!["Ghost".to_string(), "Other".to_string()]);
}

#[test]
fn an_exported_file_is_known_by_its_stem() {
    let resolutions = export_resolutions(&vec![p("Notes/Plan.md")], &Vec::new());
    assert!(names_exported_file(&resolutions, &"Plan".to_string()));
    assert!(names_exported_file(&resolutions, &"Notes/Plan.md".to_string()));
    assert!(!names_exported_file(&resolutions, &"plan".to_string()));
}

#[test]
fn an_imported_name_is_made_safe_and_the_original_kept() {
    let folder = p("Inbox");
    let (target, original) = import_target(&folder, &"a:b.md".to_string()).unwrap();
    assert_eq!(target.as_str(), "Inbox/a-b.md");
    assert_eq!(original.as_deref(), Some("a:b.md"));
    let (same, none) = import_target(&folder, &"plain.md".to_string()).unwrap();
    assert_eq!(same.as_str(), "Inbox/plain.md");
    assert!(none.is_none());
}
