use ie_core::vault::fileops::{
    case_twin_among, check_destination, check_move, check_removal, free_name, note_path_for_title, numbered_name, sort_listing,
    staging_name, Collision,
};
use ie_core::CoreError;
use ie_core::vault::path::VaultPath;

fn p(text: &str) -> VaultPath {
    VaultPath::parse(text).unwrap()
}

#[test]
fn listing_puts_folders_first_then_files_alphabetically() {
    let entries = vec![
        (p("zebra.md"), false),
        (p("Apple.md"), false),
        (p("Zulu"), true),
        (p("alpha"), true),
    ];
    let names: Vec<String> = sort_listing(entries)
        .into_iter()
        .map(|(path, _)| path.file_name().to_string())
        .collect();
    assert_eq!(names, vec!["alpha", "Zulu", "Apple.md", "zebra.md"]);
}

#[test]
fn a_title_with_illegal_characters_becomes_a_usable_filename() {
    let path = note_path_for_title(&p("Notes"), "Q1: Plan? <draft>").unwrap();
    assert_eq!(path.as_str(), "Notes/Q1- Plan- -draft-.md");
}

#[test]
fn a_title_that_already_ends_in_md_is_not_given_a_second_extension() {
    let path = note_path_for_title(&p(""), "Readme.md").unwrap();
    assert_eq!(path.as_str(), "Readme.md");
    let shouted = note_path_for_title(&p(""), "  README.MD ").unwrap();
    assert_eq!(shouted.as_str(), "README.MD");
}

#[test]
fn the_rename_policy_numbers_the_stem_and_keeps_the_extension() {
    assert_eq!(numbered_name(&p("A.md"), 1, false).unwrap().as_str(), "A 1.md");
    assert_eq!(numbered_name(&p("A.md"), 2, false).unwrap().as_str(), "A 2.md");
    assert_eq!(numbered_name(&p("Folder/Note.md"), 12, false).unwrap().as_str(), "Folder/Note 12.md");
    assert_eq!(numbered_name(&p("Notes/README"), 3, false).unwrap().as_str(), "Notes/README 3");
}

#[test]
fn a_restore_numbers_in_parentheses() {
    assert_eq!(numbered_name(&p("Trash/Note.md"), 1, true).unwrap().as_str(), "Trash/Note (1).md");
    assert_eq!(numbered_name(&p("Photo.PNG"), 2, true).unwrap().as_str(), "Photo (2).png");
}

#[test]
fn collision_policies_are_distinct() {
    assert_ne!(Collision::Fail, Collision::Rename);
    assert_ne!(Collision::Rename, Collision::Overwrite);
}

#[test]
fn a_move_onto_itself_is_already_done() {
    let a = VaultPath::parse("Notes/a.md").unwrap();
    assert_eq!(check_move(&a, &a).unwrap(), true);
    assert_eq!(check_move(&a, &VaultPath::parse("b.md").unwrap()).unwrap(), false);
}

#[test]
fn the_root_and_a_folder_into_itself_are_refused() {
    let root = VaultPath::root();
    match check_move(&root, &VaultPath::parse("x").unwrap()) {
        Err(CoreError::Refused { operation, reason }) => {
            assert_eq!(operation, "move");
            assert_eq!(reason, "the vault root cannot be moved");
        }
        other => panic!("{other:?}"),
    }
    let folder = VaultPath::parse("Projects").unwrap();
    match check_move(&folder, &VaultPath::parse("Projects/Sub/Projects").unwrap()) {
        Err(CoreError::Refused { reason, .. }) => assert_eq!(reason, "a folder cannot be moved inside itself"),
        other => panic!("{other:?}"),
    }
    assert!(check_removal(&root).is_err());
    assert!(check_removal(&folder).is_ok());
}

#[test]
fn a_change_of_capitalisation_is_a_rename_not_a_collision() {
    let from = VaultPath::parse("Notes/plan.md").unwrap();
    assert_eq!(check_destination(&from, &VaultPath::parse("Notes/Plan.md").unwrap()).unwrap(), true);
    assert_eq!(check_destination(&from, &VaultPath::parse("Notes/Other.md").unwrap()).unwrap(), false);
    match check_destination(&from, &VaultPath::from_indexed("Notes/bad:name.md".to_string())) {
        Err(CoreError::InvalidName { name, .. }) => assert_eq!(name, "bad:name.md"),
        other => panic!("{other:?}"),
    }
}

#[test]
fn a_case_only_rename_stages_beside_the_target() {
    let target = VaultPath::parse("Notes/Plan.md").unwrap();
    assert_eq!(staging_name(&target, 4242).unwrap().as_str(), "Notes/.ie-case-4242-Plan.md");
}

#[test]
fn a_sibling_differing_only_by_case_is_found() {
    let path = VaultPath::parse("Notes/Plan.md").unwrap();
    let siblings = vec!["other.md".to_string(), "Plan.md".to_string(), "plan.MD".to_string()];
    assert_eq!(case_twin_among(&path, &siblings), Some(2));
    assert_eq!(case_twin_among(&path, &vec!["Plan.md".to_string()]), None);
}

#[test]
fn a_taken_name_gets_the_first_free_number() {
    let want = VaultPath::parse("Untitled.md").unwrap();
    let taken = ["Untitled.md", "Untitled 1.md", "Untitled 2.md"];
    let got = free_name(&want, |p: &VaultPath| taken.contains(&p.as_str())).unwrap();
    assert_eq!(got.as_str(), "Untitled 3.md");
    match free_name(&want, |_p: &VaultPath| true) {
        Err(CoreError::Refused { operation, reason }) => {
            assert_eq!(operation, "create");
            assert_eq!(reason, "could not find a free name");
        }
        other => panic!("{other:?}"),
    }
}
