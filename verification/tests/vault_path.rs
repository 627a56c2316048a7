use ie_core::strings::to_chars;
use ie_core::vault::path::{sanitize_segment, validate_segment, FsPart, VaultPath, MAX_SEGMENT_BYTES};

#[test]
fn parse_normalizes_separators_and_redundant_segments() {
    assert_eq!(VaultPath::parse("Notes/a.md").unwrap().as_str(), "Notes/a.md");
    assert_eq!(VaultPath::parse("Notes\\a.md").unwrap().as_str(), "Notes/a.md");
    assert_eq!(VaultPath::parse("/Notes//./a.md").unwrap().as_str(), "Notes/a.md");
    assert_eq!(VaultPath::parse("Notes/").unwrap().as_str(), "Notes");
}

#[test]
fn parse_refuses_to_climb_above_the_vault() {
    let err = VaultPath::parse("../secrets.md").unwrap_err();
    assert_eq!(err.code(), "invalid_name");
    assert!(VaultPath::parse("Notes/../../etc/passwd").is_err());
}

#[test]
fn name_stem_extension_and_parent() {
    let p = VaultPath::parse("Projects/2026/Plan.MD").unwrap();
    assert_eq!(p.file_name(), "Plan.MD");
    assert_eq!(p.stem(), "Plan");
    assert_eq!(p.extension().as_deref(), Some("md"));
    assert_eq!(p.parent().as_str(), "Projects/2026");
    assert_eq!(p.parent().parent().as_str(), "Projects");
    assert!(p.parent().parent().parent().is_root());
    assert_eq!(p.depth(), 3);
}

#[test]
fn dotfiles_have_no_extension() {
    let p = VaultPath::parse(".gitignore").unwrap();
    assert_eq!(p.stem(), ".gitignore");
    assert_eq!(p.extension(), None);
}

#[test]
fn fold_is_used_for_case_collision_detection() {
    let a = VaultPath::parse("Notes/MyNote.md").unwrap();
    let b = VaultPath::parse("Notes/mynote.md").unwrap();
    assert_ne!(a, b, "the two paths are distinct on a case-sensitive mount");
    assert_eq!(a.fold(), b.fold(), "but they collapse onto one another on NTFS");
}

#[test]
fn containment_checks_respect_folder_boundaries() {
    let note = VaultPath::parse("Projects/Alpha/plan.md").unwrap();
    assert!(note.is_within(&VaultPath::parse("Projects").unwrap()));
    assert!(note.is_within(&VaultPath::root()));
    assert!(!note.is_within(&VaultPath::parse("Proj").unwrap()));
    assert!(!note.is_within(&VaultPath::parse("Projects/Beta").unwrap()));
}

#[test]
fn app_directory_is_recognised() {
    assert!(VaultPath::parse(".inner-empire/index.db").unwrap().is_app_internal());
    assert!(VaultPath::parse(".inner-empire").unwrap().is_app_internal());
    assert!(!VaultPath::parse(".inner-empire-notes/a.md")
        .unwrap()
        .is_app_internal());
}

#[test]
fn windows_forbidden_characters_are_rejected_on_every_platform() {
    for bad in ["a<b.md", "a>b.md", "a:b.md", "a\"b.md", "a|b.md", "a?b.md", "a*b.md"] {
        assert!(
            VaultPath::parse(bad).is_err(),
            "{bad} should be refused so the vault stays portable"
        );
    }
}

#[test]
fn windows_reserved_device_names_are_rejected() {
    for bad in ["CON.md", "con", "nul.txt", "COM1.md", "lpt9"] {
        assert!(VaultPath::parse(bad).is_err(), "{bad} should be refused");
    }
    assert!(VaultPath::parse("console.md").is_ok());
    assert!(VaultPath::parse("Concept.md").is_ok());
}

#[test]
fn trailing_space_or_dot_is_rejected_because_windows_strips_it() {
    assert!(VaultPath::parse("note .md").is_ok());
    assert!(VaultPath::parse("note. ").is_err());
    assert!(VaultPath::parse("note ").is_err());
    assert!(VaultPath::parse("note.").is_err());
}

#[test]
fn unicode_is_normalized_so_the_same_name_compares_equal() {
    let composed = VaultPath::parse("Caf\u{e9}.md").unwrap();
    let decomposed = VaultPath::parse("Cafe\u{301}.md").unwrap();
    assert_eq!(composed, decomposed);
}

#[test]
fn sanitize_always_produces_a_usable_name() {
    assert_eq!(sanitize_segment("My: Project?"), "My- Project-");
    assert_eq!(sanitize_segment("  trailing dots... "), "trailing dots");
    assert_eq!(sanitize_segment(""), "Untitled");
    assert_eq!(sanitize_segment("   "), "Untitled");
    assert_eq!(sanitize_segment("CON"), "_CON");
    assert!(validate_segment(&sanitize_segment("a/b\\c:d")).is_ok());
}

#[test]
fn sanitize_truncates_on_a_character_boundary() {
    let long = "é".repeat(300);
    let result = sanitize_segment(&long);
    assert!(result.len() <= MAX_SEGMENT_BYTES);
    assert!(validate_segment(&result).is_ok());
}

#[test]
fn validation_reasons_name_the_problem() {
    let reason = |s: &str| match validate_segment(s).unwrap_err() {
        ie_core::CoreError::InvalidName { reason, .. } => reason,
        _ => panic!("expected an invalid name"),
    };
    assert_eq!(reason(""), "a name may not be empty");
    assert_eq!(reason("a:b"), "the character ':' is not allowed");
    assert_eq!(reason("a\\b"), "the character '\\\\' is not allowed");
    assert_eq!(reason("a\u{1}b"), "control characters are not allowed");
    assert_eq!(reason("end."), "a name may not end with a space or a dot");
    assert_eq!(reason("Lpt3.txt"), "lpt3 is a reserved device name on Windows");
    assert_eq!(reason(&"x".repeat(256)), "a name may be at most 255 bytes long");
    assert!(validate_segment(&"x".repeat(255)).is_ok());
}

#[test]
fn joining_then_taking_the_parent_gives_the_folder_back() {
    let folder = VaultPath::parse("Projects/2026").unwrap();
    let joined = folder.join("Plan.md").unwrap();
    assert_eq!(joined.as_str(), "Projects/2026/Plan.md");
    assert_eq!(joined.parent(), folder);
    assert_eq!(joined.file_name(), "Plan.md");
    assert_eq!(VaultPath::root().join("a.md").unwrap().as_str(), "a.md");
    assert!(folder.join("bad:name").is_err());
}

#[test]
fn extensions_and_file_names_can_be_replaced() {
    let p = VaultPath::parse("Notes/Plan.md").unwrap();
    assert_eq!(p.with_extension(Some("html")).unwrap().as_str(), "Notes/Plan.html");
    assert_eq!(p.with_extension(None).unwrap().as_str(), "Notes/Plan");
    assert_eq!(p.with_file_name("Other.md").unwrap().as_str(), "Notes/Other.md");
    assert_eq!(p.segments(), vec!["Notes".to_string(), "Plan.md".to_string()]);
    assert_eq!(p.to_string(), "Notes/Plan.md");
    assert_eq!(VaultPath::root().to_string(), "/");
    assert_eq!(VaultPath::default(), VaultPath::root());
}

#[test]
fn fs_parts_are_joined_and_checked() {
    let parts = vec![FsPart::Normal("Notes".into()), FsPart::CurDir, FsPart::Normal("a.md".into())];
    assert_eq!(VaultPath::from_fs_parts(&parts, "/v/Notes/a.md").unwrap().as_str(), "Notes/a.md");
    let outside = vec![FsPart::Outside, FsPart::Normal("etc".into())];
    let err = VaultPath::from_fs_parts(&outside, "/etc").unwrap_err();
    assert_eq!(err.code(), "outside_vault");
    assert_eq!(err.to_string(), "/etc is not inside the vault");
}

#[test]
fn characters_are_read_whole() {
    assert_eq!(to_chars("añ日"), vec!['a', 'ñ', '日']);
}

#[test]
fn a_name_cut_to_the_byte_limit_loses_its_trailing_space() {
    let name = format!("{} y", "x".repeat(254));
    let safe = sanitize_segment(&name);
    assert_eq!(safe, "x".repeat(254));
    assert!(validate_segment(&safe).is_ok());
}

#[test]
fn every_sanitised_ascii_name_passes_validation() {
    let long = format!("{}. .", "ab".repeat(200));
    let names = ["con", "CON.txt", "lpt1", "a:b*c", "  ..", ".hidden", "name.", "", "\t\u{7f}", "nul.", "x y ", long.as_str()];
    for name in names {
        let safe = sanitize_segment(name);
        assert!(validate_segment(&safe).is_ok(), "{name:?} gave {safe:?}");
    }
}

/// The components of `path` below `root`, as the host hands them over.
fn fs_parts_under(root: &std::path::Path, path: &std::path::Path) -> Option<Vec<FsPart>> {
    let relative = path.strip_prefix(root).ok()?;
    Some(
        relative
            .components()
            .map(|c| match c {
                std::path::Component::Normal(part) => FsPart::Normal(part.to_string_lossy().to_string()),
                std::path::Component::CurDir => FsPart::CurDir,
                _ => FsPart::Outside,
            })
            .collect(),
    )
}

#[test]
fn from_fs_path_produces_the_same_value_on_both_platforms() {
    let root = std::path::Path::new("/home/me/Vault");
    let path = std::path::Path::new("/home/me/Vault/Notes/a.md");
    let posix = VaultPath::from_fs_parts(&fs_parts_under(root, path).unwrap(), "/home/me/Vault/Notes/a.md");
    assert_eq!(posix.unwrap().as_str(), "Notes/a.md");

    let root = std::path::Path::new("/v");
    let nested_path = root.join("Projects").join("2026").join("plan.md");
    let nested = VaultPath::from_fs_parts(&fs_parts_under(root, &nested_path).unwrap(), "/v/Projects/2026/plan.md");
    assert_eq!(nested.unwrap().as_str(), "Projects/2026/plan.md");
}

#[test]
fn round_trip_through_the_filesystem_preserves_the_path() {
    let root = std::path::Path::new("/home/me/Vault");
    let original = VaultPath::parse("Projects/Deep/Note.md").unwrap();
    let mut fs_path = root.to_path_buf();
    for segment in original.segments() {
        fs_path.push(segment);
    }
    let back = VaultPath::from_fs_parts(&fs_parts_under(root, &fs_path).unwrap(), "").unwrap();
    assert_eq!(original, back);
}
