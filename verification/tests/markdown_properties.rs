use ie_core::markdown::frontmatter::{body_offset, locate};
use ie_core::markdown::properties::{get, parse_frontmatter, render, replace, tags};
use ie_core::markdown::transform::MarkdownTransformer;
use ie_core::model::property::{Property, PropertyKind, PropertyValue};

const SAMPLE: &str = "---\ntitle: Example\ntags:\n  - AI\n  - Research\nstatus: active\nrating: 8\ncreated: 2026-09-17\ndone: false\n---\n# Body\n\nText.\n";

fn text(p: Option<&PropertyValue>) -> String {
    p.unwrap().as_text()
}

#[test]
fn handles_windows_line_endings() {
    let source = "---\r\ntitle: Example\r\n---\r\nBody\r\n";
    let span = locate(source).unwrap();
    assert_eq!(&source[span.end..], "Body\r\n");
    let (properties, error) = parse_frontmatter(source);
    assert!(error.is_none());
    assert_eq!(get(&properties, "title").unwrap().as_text(), "Example");
}

#[test]
fn parses_every_supported_value_type() {
    let (properties, error) = parse_frontmatter(SAMPLE);
    assert!(error.is_none(), "{error:?}");
    assert!(matches!(get(&properties, "title"), Some(PropertyValue::Text(t)) if t == "Example"));
    assert!(matches!(get(&properties, "status"), Some(PropertyValue::Text(t)) if t == "active"));
    assert!(matches!(get(&properties, "rating"), Some(PropertyValue::Number(n)) if n == "8"));
    assert!(matches!(get(&properties, "created"), Some(PropertyValue::Date(d)) if d == "2026-09-17"));
    assert!(matches!(get(&properties, "done"), Some(PropertyValue::Checkbox(false))));
    match get(&properties, "tags") {
        Some(PropertyValue::List(items)) => assert_eq!(items.len(), 2),
        other => panic!("expected a list, got {other:?}"),
    }
}

#[test]
fn key_order_from_the_file_is_preserved() {
    let (properties, _) = parse_frontmatter(SAMPLE);
    let keys: Vec<_> = properties.iter().map(|p| p.key.as_str()).collect();
    assert_eq!(keys, vec!["title", "tags", "status", "rating", "created", "done"]);
}

#[test]
fn yaml_typing_is_respected_so_a_quoted_number_stays_text() {
    let (properties, _) = parse_frontmatter("---\na: 8\nb: \"8\"\n---\n");
    assert!(matches!(get(&properties, "a"), Some(PropertyValue::Number(n)) if n == "8"));
    assert!(matches!(get(&properties, "b"), Some(PropertyValue::Text(t)) if t == "8"));
}

#[test]
fn malformed_yaml_is_reported_but_does_not_lose_the_file() {
    let source = "---\ntitle: [unclosed\n---\nBody\n";
    let (properties, error) = parse_frontmatter(source);
    assert!(properties.is_empty());
    assert!(error.is_some());
    assert_eq!(&source[body_offset(source)..], "Body\n");
}

#[test]
fn a_block_that_is_not_a_mapping_is_reported() {
    let (properties, error) = parse_frontmatter("---\n- a\n- b\n---\nBody\n");
    assert!(properties.is_empty());
    assert_eq!(error.as_deref(), Some("frontmatter must be a mapping of keys to values"));
    let (none, no_error) = parse_frontmatter("---\n   \n---\nBody\n");
    assert!(none.is_empty() && no_error.is_none());
}

#[test]
fn replacing_properties_leaves_the_body_byte_identical() {
    let body = "# Body\n\nText with  trailing spaces.   \n\n\n";
    let source = format!("---\ntitle: Old\n---\n{body}");
    let updated = replace(&source, &vec![Property { key: "title".into(), value: PropertyValue::Text("New".into()) }]);
    assert!(updated.ends_with(body), "body changed:\n{updated:?}");
    let (properties, _) = parse_frontmatter(&updated);
    assert_eq!(text(get(&properties, "title")), "New");
}

#[test]
fn properties_can_be_added_to_a_note_that_had_none() {
    let updated =
        replace("# Just a body\n", &vec![Property { key: "status".into(), value: PropertyValue::Text("active".into()) }]);
    assert!(updated.starts_with("---\n"));
    assert!(updated.ends_with("# Just a body\n"));
}

#[test]
fn clearing_every_property_removes_the_block() {
    assert_eq!(replace("---\ntitle: X\n---\nBody\n", &Vec::new()), "Body\n");
}

#[test]
fn round_trip_through_render_and_parse_is_stable() {
    let (original, _) = parse_frontmatter(SAMPLE);
    let rendered = render(&original);
    let (reparsed, error) = parse_frontmatter(&rendered);
    assert!(error.is_none());
    assert_eq!(format!("{original:?}"), format!("{reparsed:?}"));
}

#[test]
fn frontmatter_tags_accept_lists_strings_and_hash_prefixes() {
    let (list, _) = parse_frontmatter("---\ntags:\n  - AI\n  - \"#Research\"\n---\n");
    assert_eq!(tags(&list), vec!["AI".to_string(), "Research".to_string()]);
    let (inline, _) = parse_frontmatter("---\ntags: AI, Research\n---\n");
    assert_eq!(tags(&inline), vec!["AI".to_string(), "Research".to_string()]);
    let (singular, _) = parse_frontmatter("---\ntag: Solo\n---\n");
    assert_eq!(tags(&singular), vec!["Solo".to_string()]);
}

#[test]
fn nested_objects_survive_a_round_trip() {
    let source = "---\nmeta:\n  version: 2\n  author: Ada\n---\n";
    let (properties, error) = parse_frontmatter(source);
    assert!(error.is_none());
    match get(&properties, "meta") {
        Some(PropertyValue::Object(entries)) => {
            assert_eq!(entries.len(), 2);
            assert_eq!(entries[0].0, "author");
            assert!(matches!(&entries[0].1, PropertyValue::Text(t) if t == "Ada"));
            assert_eq!(entries[1].0, "version");
            assert!(matches!(&entries[1].1, PropertyValue::Number(n) if n == "2"));
        }
        other => panic!("expected an object, got {other:?}"),
    }
    let (reparsed, _) = parse_frontmatter(&render(&properties));
    assert_eq!(format!("{properties:?}"), format!("{reparsed:?}"));
}

#[test]
fn setting_a_property_preserves_the_others_and_the_body() {
    let transformer = MarkdownTransformer::new();
    let source = "---\ntitle: A\nstatus: draft\n---\n# Body\n\ntext\n";
    let updated = transformer.set_property(source, "status", PropertyValue::Text("active".into()));
    assert!(updated.ends_with("# Body\n\ntext\n"));
    let (properties, _) = parse_frontmatter(&updated);
    assert_eq!(text(get(&properties, "title")), "A");
    assert_eq!(text(get(&properties, "status")), "active");
}

#[test]
fn setting_a_new_property_appends_it() {
    let transformer = MarkdownTransformer::new();
    let updated = transformer.set_property("Body\n", "rating", PropertyValue::Number("8".into()));
    let (properties, _) = parse_frontmatter(&updated);
    assert_eq!(properties.len(), 1);
    assert_eq!(updated, "---\nrating: 8\n---\nBody\n");
}

#[test]
fn removing_the_last_property_removes_the_block() {
    let transformer = MarkdownTransformer::new();
    assert_eq!(transformer.remove_property("---\nonly: 1\n---\nBody\n", "only"), "Body\n");
}

#[test]
fn a_key_is_found_whatever_its_ascii_case_and_values_have_kinds() {
    let (properties, _) = parse_frontmatter("---\nStatus: done\nwhen: 2026-09-17T10:00:00Z\nx: ~\n---\n");
    assert_eq!(text(get(&properties, "status")), "done");
    assert_eq!(get(&properties, "when").unwrap().kind(), PropertyKind::DateTime);
    assert_eq!(get(&properties, "x").unwrap().kind(), PropertyKind::Null);
    assert!(get(&properties, "missing").is_none());
}

#[test]
fn a_list_reads_as_its_items_joined() {
    let (properties, _) = parse_frontmatter("---\nl: [a, 2, true]\n---\n");
    assert_eq!(text(get(&properties, "l")), "a, 2, true");
}

fn shown(v: &PropertyValue) -> String {
    format!("{v:?}")
}

#[test]
fn scalars_are_classified_by_shape() {
    assert_eq!(shown(&PropertyValue::infer_from_scalar("2026-09-17")), shown(&PropertyValue::Date("2026-09-17".into())));
    assert_eq!(
        shown(&PropertyValue::infer_from_scalar("2026-09-17T10:30:00Z")),
        shown(&PropertyValue::DateTime("2026-09-17T10:30:00Z".into()))
    );
    assert_eq!(shown(&PropertyValue::infer_from_scalar("8")), shown(&PropertyValue::Number("8".into())));
    assert_eq!(shown(&PropertyValue::infer_from_scalar("8.5")), shown(&PropertyValue::Number("8.5".into())));
    assert_eq!(shown(&PropertyValue::infer_from_scalar("true")), shown(&PropertyValue::Checkbox(true)));
    assert_eq!(shown(&PropertyValue::infer_from_scalar("active")), shown(&PropertyValue::Text("active".into())));
    assert_eq!(shown(&PropertyValue::infer_from_scalar("")), shown(&PropertyValue::Null));
}

#[test]
fn version_like_text_is_not_mistaken_for_a_number() {
    assert_eq!(shown(&PropertyValue::infer_from_scalar("1.2.3")), shown(&PropertyValue::Text("1.2.3".into())));
    assert_eq!(shown(&PropertyValue::infer_from_scalar("v2")), shown(&PropertyValue::Text("v2".into())));
}

#[test]
fn a_list_flattens_to_one_indexed_row_per_item() {
    let list = PropertyValue::List(vec![PropertyValue::Text("AI".into()), PropertyValue::Text("Research".into())]);
    let rows = list.flatten_scalars();
    assert_eq!(rows.len(), 2);
    assert_eq!(format!("{:?}", rows[0]), format!("{:?}", (Some(0usize), PropertyValue::Text("AI".into()))));
    assert_eq!(format!("{:?}", rows[1]), format!("{:?}", (Some(1usize), PropertyValue::Text("Research".into()))));
}

#[test]
fn a_scalar_flattens_to_a_single_unindexed_row() {
    let rows = PropertyValue::Text("active".into()).flatten_scalars();
    assert_eq!(format!("{rows:?}"), format!("{:?}", vec![(None::<usize>, PropertyValue::Text("active".into()))]));
}

#[test]
fn setting_all_properties_replaces_the_block_and_keeps_the_body() {
    let t = MarkdownTransformer::new();
    let source = "---\ntitle: Old\nstatus: draft\n---\n# Body\n\ntext\n";
    let updated = t.set_properties(source, &[Property { key: "title".into(), value: PropertyValue::Text("New".into()) }]);
    assert_eq!(updated, "---\ntitle: New\n---\n# Body\n\ntext\n");
    assert_eq!(t.set_properties(source, &[]), "# Body\n\ntext\n");
}
