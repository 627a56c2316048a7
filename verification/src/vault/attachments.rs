//! Where a new attachment goes. Vault semantics: every host must answer it
//! the same way.
use vstd::prelude::*;
use crate::error::Result;
use crate::vault::path::{join_spec, parent_of, path_result_is, sanitize_segment, sanitize_spec, VaultPath};
use crate::vault::settings::AttachmentLocation;

verus! {

/// The folder an attachment goes in, as a path or the error joining makes.
pub open spec fn folder_for(
    location: AttachmentLocation,
    note: Option<Seq<char>>,
) -> core::result::Result<Seq<char>, (Seq<char>, Seq<char>)> {
    let base = match note {
        Some(n) => parent_of(n),
        None => Seq::<char>::empty(),
    };
    match location {
        AttachmentLocation::VaultFolder { folder } => Ok(folder@),
        AttachmentLocation::NextToNote => Ok(base),
        AttachmentLocation::SubfolderOfNote { name } => join_spec(base, name@),
    }
}

/// The folder an attachment for `note` belongs in. With no note in context
/// the note-relative modes fall back to the vault root.
pub fn target_folder(location: &AttachmentLocation, note: Option<&VaultPath>) -> (r: Result<VaultPath>)
    ensures
        path_result_is(r, folder_for(*location, match note {
            Some(n) => Some(n@),
            None => None,
        })),
{
    let parent = match note {
        Some(n) => n.parent(),
        None => VaultPath::root(),
    };
    match location {
        AttachmentLocation::VaultFolder { folder } => Ok(folder.clone()),
        AttachmentLocation::NextToNote => Ok(parent),
        AttachmentLocation::SubfolderOfNote { name } => parent.join(name.as_str()),
    }
}

/// The full path a file called `file_name` should be written to: the name
/// sanitised, so it can neither escape the folder nor be illegal on another
/// platform. Collisions are not resolved here.
pub fn target_path(location: &AttachmentLocation, note: Option<&VaultPath>, file_name: &str) -> (r: Result<VaultPath>)
    ensures
        match folder_for(*location, match note {
            Some(n) => Some(n@),
            None => None,
        }) {
            Ok(f) => path_result_is(r, join_spec(f, sanitize_spec(file_name@))),
            Err(e) => path_result_is(r, Err(e)),
        },
{
    let folder = target_folder(location, note)?;
    folder.join(sanitize_segment(file_name).as_str())
}

/// An attachment lands in the folder its location names, whatever its name:
/// sanitising makes the name one component, so it cannot climb out.
pub proof fn law_an_attachment_stays_in_its_folder(
    location: AttachmentLocation,
    note: Option<Seq<char>>,
    file_name: Seq<char>,
)
    requires
        folder_for(location, note) is Ok,
        join_spec(folder_for(location, note)->Ok_0, sanitize_spec(file_name)) is Ok,
    ensures
        parent_of(join_spec(folder_for(location, note)->Ok_0, sanitize_spec(file_name))->Ok_0) == folder_for(
            location,
            note,
        )->Ok_0,
{
    crate::vault::path::law_join_then_parent(folder_for(location, note)->Ok_0, sanitize_spec(file_name));
}

} // verus!
