use ie_core::links::rename::rewrite_source;
use ie_core::markdown::render::escape_html;
use ie_core::markdown::transform::{Edit, MarkdownTransformer};
use ie_core::model::workspace::{PaneNode, SplitDirection, TabMode, TabState};
use ie_core::recovery::sanitize_id;
use ie_core::templates::datefmt::{at, format as date_format};
use ie_core::templates::{expand, TemplateContext};
use ie_core::vault::attachments::target_path;
use ie_core::vault::path::VaultPath;
use ie_core::vault::settings::AttachmentLocation;

fn leaf(id: &str, paths: &[&str]) -> PaneNode {
    PaneNode::Leaf {
        id: id.into(),
        tabs: paths
            .iter()
            .enumerate()
            .map(|(i, p)| TabState {
                id: format!("{id}-{i}"),
                path: VaultPath::parse(p).unwrap(),
                pinned: false,
                mode: TabMode::Edit,
                scroll_line: 0,
                cursor_offset: 0,
            })
            .collect(),
        active_tab_id: None,
    }
}

#[test]
fn text_without_variables_comes_back_unchanged() {
    let c = TemplateContext::new("T", VaultPath::parse("T.md").unwrap(), 0, 0);
    let text = "# Heading\n\n{ single braces } and }} stay.\n";
    assert_eq!(expand(text, &c), text);
}

#[test]
fn separators_pass_through_a_date_format() {
    assert_eq!(date_format("[/-:. ]", &at(0, 0)), "[/-:. ]");
}

#[test]
fn no_edits_leave_the_source_alone() {
    let source = "any text, même accentuée\n";
    assert_eq!(MarkdownTransformer::apply(source, Vec::new()).unwrap(), source);
}

#[test]
fn a_note_naming_no_target_is_unchanged_by_a_rename() {
    let source = "[[Other]] and [x](Else.md) and ![[Picture.png]]\n";
    assert_eq!(rewrite_source(source, &["Plan".into()], "New", "New.md").unwrap(), source);
}

#[test]
fn pruning_accounts_for_every_tab() {
    let mut tree = PaneNode::Split {
        id: "s".into(),
        direction: SplitDirection::Horizontal,
        ratio_bits: 0.5f32.to_bits(),
        first: Box::new(leaf("a", &["1.md", "2.md"])),
        second: Box::new(leaf("b", &["3.md"])),
    };
    let before = tree.open_paths().len();
    let removed = tree.prune(|p: &VaultPath| p.as_str() != "2.md");
    assert_eq!(tree.open_paths().len() + removed.len(), before);
    let collapsed = tree.collapse_empty().unwrap();
    assert_eq!(collapsed.open_paths().len(), 2);
}

#[test]
fn escaped_text_holds_no_markup() {
    let escaped = escape_html("<b onclick='x'>\"hi\"</b>");
    assert!(!escaped.contains(['<', '>', '"', '\'']));
}

#[test]
fn a_sanitised_id_is_a_safe_name() {
    for id in ["", "../x", "ünïcödé", "a b/c\\d"] {
        let safe = sanitize_id(id);
        assert!(!safe.is_empty() && safe.len() <= 64);
        assert!(safe.chars().all(|c| c.is_ascii_alphanumeric() || c == '-' || c == '_'), "{safe}");
    }
}

#[test]
fn an_attachment_stays_in_its_folder() {
    let location = AttachmentLocation::VaultFolder { folder: VaultPath::parse("Files").unwrap() };
    for name in ["a.png", "../../x", "C:\\evil.exe", "  "] {
        let p = target_path(&location, None, name).unwrap();
        assert_eq!(p.parent().as_str(), "Files", "{name}");
    }
}

fn read_back(escaped: &str) -> String {
    escaped
        .replace("&lt;", "<")
        .replace("&gt;", ">")
        .replace("&quot;", "\"")
        .replace("&#39;", "'")
        .replace("&amp;", "&")
}

#[test]
fn escaped_html_reads_back_to_its_text() {
    for text in ["<a href='x'>&\"</a>", "&amp; is already escaped", "plain", ""] {
        assert_eq!(read_back(&escape_html(text)), text);
    }
}

#[test]
fn the_line_of_an_offset_counts_the_line_breaks_before_it() {
    let source = "one\ntwo\r\n\nfour";
    let lines = ie_core::markdown::text::LineIndex::new(source);
    for offset in 0..=source.len() {
        let breaks = source.as_bytes()[..offset].iter().filter(|b| **b == b'\n').count();
        assert_eq!(lines.line_of(offset), breaks);
    }
    for line in 0..lines.line_count() {
        let range = lines.line_range(line);
        for offset in range.start..=range.end {
            assert_eq!(lines.line_of(offset), line);
        }
    }
}

#[test]
fn wiki_links_lie_in_the_source_in_order() {
    let source = "![[a]] and [[b|c]] then [[d#e]]![[f]]";
    let lines = ie_core::markdown::text::LineIndex::new(source);
    let links = ie_core::markdown::scanner::scan_wikilinks(
        source,
        &ie_core::markdown::text::ExclusionZones::default(),
        &lines,
    );
    assert_eq!(links.len(), 4);
    for pair in links.windows(2) {
        assert!(pair[0].byte_end <= pair[1].byte_start);
    }
    for link in &links {
        assert_eq!(&source[link.byte_start..link.byte_end], link.raw);
    }
}

#[test]
fn every_wiki_link_has_the_shape_of_one() {
    let source = "x\n![[a]] and [[b|c]]\n`[[skip]]` [[d#e]]";
    let lines = ie_core::markdown::text::LineIndex::new(source);
    let links = ie_core::markdown::scanner::scan_wikilinks(
        source,
        &ie_core::markdown::text::ExclusionZones::default(),
        &lines,
    );
    assert_eq!(links.len(), 4);
    for link in &links {
        let embed = link.kind == ie_core::model::LinkKind::Embed;
        assert_eq!(link.raw.starts_with('!'), embed);
        assert!(link.raw.starts_with(if embed { "![[" } else { "[[" }));
        assert!(link.raw.ends_with("]]"));
        assert!(!link.raw.contains('\n'));
        assert_eq!(link.line, lines.line_of(link.byte_start));
    }
    assert_eq!(links[0].line, 1);
    assert_eq!(links[3].line, 2);
}

#[test]
fn edits_are_applied_exactly_when_they_are_disjoint_and_in_range() {
    let touching = MarkdownTransformer::apply(
        "abcdef",
        vec![
            Edit { range: 3..6, replacement: "Z".into() },
            Edit { range: 0..3, replacement: "X".into() },
        ],
    );
    assert_eq!(touching.unwrap(), "XZ");
    let past_end = MarkdownTransformer::apply("abc", vec![Edit { range: 1..4, replacement: "Y".into() }]);
    assert!(past_end.is_err());
    let inside_char = MarkdownTransformer::apply("é", vec![Edit { range: 1..2, replacement: "e".into() }]);
    assert!(inside_char.is_err());
}

#[test]
fn parsed_links_and_tags_lie_in_the_body() {
    let source = "---\ntitle: T [[not]] #no\n---\n[[A]] #tag [md](B.md) ![[P.png]]\n";
    let doc = ie_core::markdown::parser::MarkdownParser::new().parse(source);
    assert_eq!(doc.metadata.links.len(), 3);
    assert_eq!(doc.metadata.tags.len(), 1);
    for link in &doc.metadata.links {
        assert!(link.byte_start >= doc.body_offset);
        assert_eq!(source.get(link.byte_start..link.byte_end), Some(link.raw.as_str()));
    }
    for tag in &doc.metadata.tags {
        assert!(tag.byte_start >= doc.body_offset);
    }
}

#[test]
fn retargeting_replaces_exactly_the_bytes_of_chosen_links() {
    let source = "See [[Old#Part|shown]], [[Other]] and [x](Old.md) and <https://old.example>.\n";
    let transformer = MarkdownTransformer::new();
    let edits = transformer.retarget_links(source, |l| l.target == "Old" || l.target == "Old.md", "New");
    assert_eq!(edits.len(), 2);
    assert_eq!(&source[edits[0].range.clone()], "[[Old#Part|shown]]");
    assert_eq!(edits[0].replacement, "[[New#Part|shown]]");
    assert_eq!(&source[edits[1].range.clone()], "[x](Old.md)");
    assert!(edits[1].replacement.starts_with("[x]("));
    assert_ne!(edits[1].replacement, "[x](Old.md)");
}
