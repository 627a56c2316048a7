use ie_core::model::{FileKind, Link, LinkKind};
use ie_core::vault::path::VaultPath;

#[test]
fn file_kind_is_decided_by_extension_case_insensitively() {
    assert_eq!(FileKind::from_extension(Some("md")), FileKind::Note);
    assert_eq!(FileKind::from_extension(Some("png")), FileKind::Image);
    assert_eq!(FileKind::from_extension(Some("pdf")), FileKind::Pdf);
    assert_eq!(FileKind::from_extension(Some("canvas")), FileKind::Canvas);
    assert_eq!(FileKind::from_extension(Some("zip")), FileKind::Other);
    assert_eq!(FileKind::from_extension(None), FileKind::Other);
}

#[test]
fn file_kind_round_trips_through_its_index_representation() {
    for kind in [
        FileKind::Note,
        FileKind::Canvas,
        FileKind::Image,
        FileKind::Pdf,
        FileKind::Audio,
        FileKind::Video,
        FileKind::Other,
    ] {
        assert_eq!(FileKind::parse(kind.as_str()), kind);
    }
}

#[test]
fn link_kind_round_trips_and_classifies() {
    for kind in [
        LinkKind::WikiLink,
        LinkKind::Embed,
        LinkKind::Markdown,
        LinkKind::MarkdownImage,
        LinkKind::External,
    ] {
        assert_eq!(LinkKind::parse(kind.as_str()), kind);
    }
    assert!(LinkKind::Embed.is_embed());
    assert!(!LinkKind::External.is_internal());
}

#[test]
fn a_link_displays_its_alias_when_it_has_one() {
    let mut link = Link {
        kind: LinkKind::WikiLink,
        raw: "[[Note]]".into(),
        target: "Note".into(),
        heading: None,
        block_id: None,
        alias: None,
        line: 0,
        byte_start: 0,
        byte_end: 8,
    };
    assert_eq!(link.display_text(), "Note");
    link.alias = Some("Display".into());
    assert_eq!(link.display_text(), "Display");
}

#[test]
fn extensions_decide_the_kind_in_any_case_and_embeddability_follows_it() {
    let path = VaultPath::parse("Pics/Photo.JPeG").unwrap();
    let ext = path.extension();
    assert_eq!(FileKind::from_extension(ext.as_deref()), FileKind::Image);
    assert_eq!(FileKind::from_extension(Some("MD")), FileKind::Note);
    assert_eq!(FileKind::from_extension(Some("PNG")), FileKind::Image);
    assert_eq!(FileKind::from_extension(Some("Canvas")), FileKind::Canvas);
    assert_eq!(FileKind::parse("nonsense"), FileKind::Other);
    assert_eq!(LinkKind::parse("nonsense"), LinkKind::WikiLink);
    assert!(FileKind::Image.is_embeddable());
    assert!(!FileKind::Other.is_embeddable());
}
