//! Per-vault settings. They live inside the vault, at
//! `.inner-empire/vault.json`, because they describe this vault and must
//! travel with it.
use vstd::prelude::*;
use crate::strings::str_to_string;
use crate::vault::path::VaultPath;

verus! {

pub const VAULT_SETTINGS_FILE: &'static str = "vault.json";

pub const VAULT_SETTINGS_VERSION: u32 = 1;

/// Where a new attachment goes when it is pasted or dropped into a note.
#[derive(Debug)]
pub enum AttachmentLocation {
    /// One folder for the whole vault.
    VaultFolder { folder: VaultPath },
    /// Beside the note that references it.
    NextToNote,
    /// In a subfolder of the note's own folder.
    SubfolderOfNote { name: String },
}

impl Default for AttachmentLocation {
    fn default() -> (r: AttachmentLocation)
        ensures
            r matches AttachmentLocation::VaultFolder { folder } && folder@ == "Attachments"@,
    {
        AttachmentLocation::VaultFolder { folder: VaultPath::from_indexed(str_to_string("Attachments")) }
    }
}

/// How a link is written when the app inserts one.
#[derive(Debug, Clone, Copy, PartialEq, Eq, Structural)]
pub enum LinkStyle {
    /// `[[Note]]` — shortest form that resolves unambiguously.
    ShortestWikiLink,
    /// `[[Folder/Note]]` — always the full path.
    AbsoluteWikiLink,
    /// `[Note](Folder/Note.md)` — portable to editors that do not know about
    /// wiki links.
    MarkdownLink,
}

impl Default for LinkStyle {
    fn default() -> (r: LinkStyle)
        ensures
            r == LinkStyle::ShortestWikiLink,
    {
        LinkStyle::ShortestWikiLink
    }
}

#[derive(Debug)]
pub struct DailyNoteSettings {
    pub folder: VaultPath,
    /// A date pattern in the subset `templates::datefmt` understands.
    pub format: String,
    pub template: Option<VaultPath>,
    /// Open today's note when the vault opens.
    pub open_on_startup: bool,
}

impl Default for DailyNoteSettings {
    fn default() -> (r: DailyNoteSettings)
        ensures
            r.folder@ == "Daily"@,
            r.format@ == "YYYY-MM-DD"@,
            r.template is None,
            !r.open_on_startup,
    {
        DailyNoteSettings {
            folder: VaultPath::from_indexed(str_to_string("Daily")),
            format: str_to_string("YYYY-MM-DD"),
            template: None,
            open_on_startup: false,
        }
    }
}

#[derive(Debug)]
pub struct VaultSettings {
    pub version: u32,
    /// Stable identifier, used to key recovery journals and recent-vault
    /// entries so they survive the folder being moved or renamed.
    pub id: String,
    pub name: String,
    pub created_ms: i64,
    pub attachments: AttachmentLocation,
    pub templates_folder: VaultPath,
    pub daily_notes: DailyNoteSettings,
    pub link_style: LinkStyle,
    /// Update links in other notes when a file is renamed or moved.
    pub update_links_on_rename: bool,
    /// Folder names the indexer skips, beyond the built-in list.
    pub extra_ignored_folders: Vec<String>,
    /// New notes are created here when no folder is selected.
    pub new_note_folder: Option<VaultPath>,
}

impl VaultSettings {
    /// Fresh settings for a new vault.
    pub fn new(name: &str, id: &str, created_ms: i64) -> (r: VaultSettings)
        ensures
            r.version == VAULT_SETTINGS_VERSION,
            r.id@ == id@,
            r.name@ == name@,
            r.created_ms == created_ms,
            r.attachments matches AttachmentLocation::VaultFolder { folder } && folder@ == "Attachments"@,
            r.templates_folder@ == "Templates"@,
            r.daily_notes.folder@ == "Daily"@,
            r.daily_notes.format@ == "YYYY-MM-DD"@,
            r.daily_notes.template is None,
            !r.daily_notes.open_on_startup,
            r.link_style == LinkStyle::ShortestWikiLink,
            r.update_links_on_rename,
            r.extra_ignored_folders@.len() == 0,
            r.new_note_folder is None,
    {
        VaultSettings {
            version: VAULT_SETTINGS_VERSION,
            id: str_to_string(id),
            name: str_to_string(name),
            created_ms,
            attachments: AttachmentLocation::default(),
            templates_folder: VaultPath::from_indexed(str_to_string("Templates")),
            daily_notes: DailyNoteSettings::default(),
            link_style: LinkStyle::default(),
            update_links_on_rename: true,
            extra_ignored_folders: Vec::new(),
            new_note_folder: None,
        }
    }
}

} // verus!
