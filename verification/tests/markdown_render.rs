use ie_core::markdown::render::{escape_html, MarkdownRenderer, RenderOptions};
use ie_core::vault::path::VaultPath;

fn render(source: &str) -> String {
    MarkdownRenderer::new(RenderOptions::default()).render(source, &Vec::new())
}

fn render_with(source: &str, resolutions: &[(&str, &str)]) -> String {
    let pairs = resolutions
        .iter()
        .map(|(k, v)| ((*k).to_string(), VaultPath::parse(v).unwrap()))
        .collect();
    MarkdownRenderer::new(RenderOptions {
        internal_link_extension: Some("html".into()),
        ..RenderOptions::default()
    })
    .with_resolutions(pairs)
    .render(source, &Vec::new())
}

#[test]
fn renders_standard_markdown() {
    let html = render("# Title\n\n**bold** and *italic* and `code`\n\n- one\n- two\n");
    assert!(html.contains("<h1>Title</h1>"));
    assert!(html.contains("<strong>bold</strong>"));
    assert!(html.contains("<em>italic</em>"));
    assert!(html.contains("<code>code</code>"));
    assert!(html.contains("<li>one</li>"));
}

#[test]
fn renders_gfm_extensions() {
    let html = render("~~gone~~\n\n| a | b |\n| - | - |\n| 1 | 2 |\n\n- [x] done\n");
    assert!(html.contains("<del>gone</del>"));
    assert!(html.contains("<table>"));
    assert!(html.contains("checked"));
}

#[test]
fn a_resolved_wiki_link_becomes_an_anchor_to_the_exported_file() {
    let html = render_with("See [[Other Note]].", &[("Other Note", "Notes/Other Note.md")]);
    assert!(html.contains("ie-internal-link"), "{html}");
    assert!(html.contains("Notes/Other%20Note.html"), "{html}");
    assert!(html.contains(">Other Note</a>"), "{html}");
}

#[test]
fn an_alias_is_what_the_reader_sees() {
    let html = render_with("[[Target|Shown]]", &[("Target", "Target.md")]);
    assert!(html.contains(">Shown</a>"), "{html}");
    assert!(!html.contains(">Target<"), "{html}");
}

#[test]
fn a_heading_reference_becomes_a_fragment() {
    let html = render_with("[[Note#Getting Started]]", &[("Note", "Note.md")]);
    assert!(html.contains("Note.html#getting-started"), "{html}");
}

#[test]
fn a_block_reference_becomes_an_encoded_fragment() {
    let html = render_with("[[Note#^key]]", &[("Note", "Note.md")]);
    assert!(html.contains("Note.html#%5Ekey"), "{html}");
}

#[test]
fn an_unresolved_link_still_renders_and_is_marked() {
    let html = render("[[Future Project]]");
    assert!(html.contains("ie-unresolved-link"), "{html}");
    assert!(html.contains("Future Project"), "{html}");
    assert!(html.contains("href=\"#Future%20Project\""), "{html}");
}

#[test]
fn an_image_embed_becomes_an_img_tag() {
    let html = render_with("![[diagram.png]]", &[("diagram.png", "Attachments/diagram.png")]);
    assert!(html.contains("<img"), "{html}");
    assert!(html.contains("Attachments/diagram.png"), "{html}");
}

#[test]
fn a_note_embed_becomes_a_marker_the_export_pass_can_expand() {
    let html = render("![[Other Note]]");
    assert!(html.contains("ie-embed"), "{html}");
    assert!(html.contains("data-target=\"Other Note\""), "{html}");
}

#[test]
fn frontmatter_is_rendered_as_properties_not_as_a_horizontal_rule() {
    let properties = vec![
        ("title".to_string(), "Example".to_string()),
        ("status".to_string(), "active".to_string()),
    ];
    let html = MarkdownRenderer::new(RenderOptions::default())
        .render("---\ntitle: Example\nstatus: active\n---\n\nBody text.\n", &properties);
    assert!(html.contains("ie-properties"), "{html}");
    assert!(html.contains("<dt>status</dt>"), "{html}");
    assert!(html.contains("<p>Body text.</p>"), "{html}");
    assert!(!html.contains("<hr"), "frontmatter leaked as a rule:\n{html}");
}

#[test]
fn properties_can_be_omitted() {
    let renderer = MarkdownRenderer::new(RenderOptions { include_properties: false, ..RenderOptions::default() });
    let html = renderer.render("---\ntitle: Example\n---\nBody\n", &vec![("title".to_string(), "Example".to_string())]);
    assert!(!html.contains("ie-properties"));
    assert!(html.contains("Body"));
}

#[test]
fn wiki_links_inside_code_are_left_alone() {
    let html = render("Write `[[Link]]` like this.\n");
    assert!(html.contains("<code>[[Link]]</code>"), "{html}");
}

#[test]
fn html_in_note_text_is_escaped_in_link_labels() {
    let html = render("[[<script>alert(1)</script>]]");
    assert!(!html.contains("<script>"), "{html}");
    assert!(html.contains("&lt;script&gt;"), "{html}");
}

#[test]
fn a_standalone_document_is_self_contained() {
    let renderer = MarkdownRenderer::new(RenderOptions {
        standalone: true,
        document_title: "My Note".into(),
        ..RenderOptions::default()
    });
    let html = renderer.render("# Hi\n", &Vec::new());
    assert!(html.starts_with("<!DOCTYPE html>"));
    assert!(html.contains("<title>My Note</title>"));
    assert!(html.contains("--background-primary"));
    assert!(!html.contains("http://"), "an export must not need the network");
}

#[test]
fn multiple_links_on_one_line_all_rewrite_correctly() {
    let html = render_with("[[A]] then [[B]] then [[C]]", &[("A", "A.md"), ("B", "B.md"), ("C", "C.md")]);
    for name in ["A.html", "B.html", "C.html"] {
        assert!(html.contains(name), "missing {name} in {html}");
    }
}

#[test]
fn escaping_covers_the_five_markup_characters() {
    assert_eq!(escape_html("a & b < c > \"d\" 'e'"), "a &amp; b &lt; c &gt; &quot;d&quot; &#39;e&#39;");
    assert_eq!(escape_html("plain"), "plain");
}
