use ie_core::vault::attachments::{target_folder, target_path};
use ie_core::vault::path::VaultPath;
use ie_core::vault::settings::AttachmentLocation;

fn path(text: &str) -> VaultPath {
    VaultPath::parse(text).unwrap()
}

fn vault_folder() -> AttachmentLocation {
    AttachmentLocation::VaultFolder {
        folder: path("Attachments"),
    }
}

#[test]
fn a_vault_folder_ignores_which_note_is_open() {
    let note = path("Projects/Deep/Note.md");
    assert_eq!(
        target_path(&vault_folder(), Some(&note), "diagram.png").unwrap().as_str(),
        "Attachments/diagram.png"
    );
    assert_eq!(
        target_path(&vault_folder(), None, "diagram.png").unwrap().as_str(),
        "Attachments/diagram.png"
    );
}

#[test]
fn next_to_the_note_means_the_notes_own_folder() {
    let note = path("Projects/Deep/Note.md");
    assert_eq!(
        target_path(&AttachmentLocation::NextToNote, Some(&note), "diagram.png")
            .unwrap()
            .as_str(),
        "Projects/Deep/diagram.png"
    );
}

#[test]
fn a_subfolder_hangs_off_the_notes_folder() {
    let note = path("Projects/Deep/Note.md");
    let location = AttachmentLocation::SubfolderOfNote {
        name: "assets".into(),
    };
    assert_eq!(
        target_path(&location, Some(&note), "diagram.png").unwrap().as_str(),
        "Projects/Deep/assets/diagram.png"
    );
}

#[test]
fn with_no_note_the_note_relative_modes_fall_back_to_the_root() {
    assert_eq!(
        target_path(&AttachmentLocation::NextToNote, None, "shared.png")
            .unwrap()
            .as_str(),
        "shared.png"
    );
    let location = AttachmentLocation::SubfolderOfNote {
        name: "assets".into(),
    };
    assert_eq!(
        target_path(&location, None, "shared.png").unwrap().as_str(),
        "assets/shared.png"
    );
}

#[test]
fn a_name_that_windows_would_reject_is_made_safe() {
    let target = target_path(&vault_folder(), None, "Shot 2026-09-17 at 10:30.png").unwrap();
    assert!(!target.as_str().contains(':'), "{target:?}");
    assert!(target.as_str().starts_with("Attachments/"));
}

#[test]
fn a_name_that_would_escape_the_vault_cannot() {
    let target = target_path(&vault_folder(), None, "../../etc/passwd").unwrap();
    assert_eq!(target.parent().as_str(), "Attachments");
    assert_eq!(target.segments().len(), 2, "{target:?} is not one file in one folder");
    assert!(!target.file_name().contains('/'), "{target:?}");
}

#[test]
fn a_windows_style_traversal_cannot_escape_either() {
    let target = target_path(&vault_folder(), None, r"..\..\Windows\System32\x.dll").unwrap();
    assert_eq!(target.parent().as_str(), "Attachments");
    assert_eq!(target.segments().len(), 2, "{target:?}");
}

#[test]
fn a_note_at_the_root_puts_its_attachments_at_the_root() {
    let note = path("Note.md");
    assert_eq!(
        target_path(&AttachmentLocation::NextToNote, Some(&note), "a.png")
            .unwrap()
            .as_str(),
        "a.png"
    );
}

#[test]
fn the_folder_alone_is_available_before_a_name_is_known() {
    let note = path("Projects/Note.md");
    let location = AttachmentLocation::SubfolderOfNote {
        name: "assets".into(),
    };
    assert_eq!(target_folder(&location, Some(&note)).unwrap().as_str(), "Projects/assets");
    assert!(target_folder(&AttachmentLocation::NextToNote, None).unwrap().is_root());
}

#[test]
fn a_subfolder_name_that_is_not_a_valid_segment_is_refused() {
    let location = AttachmentLocation::SubfolderOfNote { name: "..".into() };
    let err = target_folder(&location, None).unwrap_err();
    assert_eq!(err.code(), "invalid_name");
}
