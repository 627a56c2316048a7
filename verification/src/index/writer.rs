//! What the index records about a file.
use vstd::prelude::*;
use crate::digest::{hex_of, hex_prefix, sha256, sha256_digest};
use crate::index::resolve::{lookup_key, normalize_target, normalized_target, target_key, Resolution};
use crate::links::reference::opt_view;
use crate::model::{clone_opt, file_kind_name, link_kind_name, FileKind, Link, LinkKind};
use crate::strings::{clone_string, lowercase, str_to_string, to_chars, to_lowercase};
use crate::vault::path::{extension_of, file_name_of, stem_of};
use crate::vault::path::VaultPath;

verus! {

/// What the indexer knows about a file before parsing it.
#[derive(Debug)]
pub struct FileRecord {
    pub path: VaultPath,
    pub kind: FileKind,
    pub size: u64,
    pub mtime_ms: i64,
    /// Present for notes; attachments are identified by size and mtime
    /// alone.
    pub content_hash: Option<String>,
    pub indexed_at: i64,
}

/// One row of the index's file table.
#[derive(Debug)]
pub struct FileRow {
    pub path: String,
    /// Lowercased: two rows sharing it are a collision on NTFS.
    pub path_fold: String,
    pub name: String,
    pub name_fold: String,
    /// The stem lowercased: the key wiki links match on.
    pub stem_fold: String,
    pub ext: Option<String>,
    pub kind: &'static str,
    pub size: i64,
    pub mtime_ms: i64,
    pub content_hash: Option<String>,
    pub title: Option<String>,
    pub word_count: i64,
    pub indexed_at: i64,
}

/// The row recording a file.
pub fn file_row(record: &FileRecord, title: Option<&str>, word_count: usize) -> (r: FileRow)
    ensures
        r.path@ == record.path@,
        r.path_fold@ == lowercase(record.path@),
        r.name@ == file_name_of(record.path@),
        r.name_fold@ == lowercase(file_name_of(record.path@)),
        r.stem_fold@ == lowercase(stem_of(file_name_of(record.path@))),
        opt_view(r.ext) == extension_of(file_name_of(record.path@)),
        r.kind@ == file_kind_name(record.kind),
        r.size == record.size as i64,
        r.mtime_ms == record.mtime_ms,
        opt_view(r.content_hash) == opt_view(record.content_hash),
        opt_view(r.title) == match title {
            Some(t) => Some(t@),
            None => None::<Seq<char>>,
        },
        r.word_count == word_count as i64,
        r.indexed_at == record.indexed_at,
{
    FileRow {
        path: str_to_string(record.path.as_str()),
        path_fold: record.path.fold(),
        name: str_to_string(record.path.file_name()),
        name_fold: to_lowercase(record.path.file_name()),
        stem_fold: to_lowercase(record.path.stem()),
        ext: record.path.extension(),
        kind: record.kind.as_str(),
        size: record.size as i64,
        mtime_ms: record.mtime_ms,
        content_hash: clone_opt(&record.content_hash),
        title: match title {
            Some(t) => Some(str_to_string(t)),
            None => None,
        },
        word_count: word_count as i64,
        indexed_at: record.indexed_at,
    }
}

/// A note's title in the index: the one its text gives, or its stem.
pub fn indexed_title(record: &FileRecord, title: &Option<String>) -> (r: String)
    ensures
        r@ == match title {
            Some(t) => t@,
            None => stem_of(file_name_of(record.path@)),
        },
{
    match title {
        Some(t) => clone_string(t),
        None => str_to_string(record.path.stem()),
    }
}

/// Is a link resolved as it is written? An internal link with a target
/// is; an external one or an empty one is left unresolved.
pub fn resolves_on_write(link: &Link) -> (r: bool)
    ensures
        r == (link.kind != LinkKind::External && link.target@.len() > 0),
{
    link.kind.is_internal() && to_chars(link.target.as_str()).len() > 0
}

/// One row of the index's link table.
#[derive(Debug)]
pub struct LinkRow {
    pub kind: &'static str,
    pub raw: String,
    pub target_text: String,
    /// The normalised target, lowercased, for case-insensitive lookups.
    pub target_fold: String,
    /// The target's last segment lowercased (`lookup_key`), the key pending
    /// links are re-resolved by.
    pub target_tail: String,
    pub target_file_id: Option<i64>,
    pub heading: Option<String>,
    pub block_id: Option<String>,
    pub alias: Option<String>,
    pub line: i64,
    pub byte_start: i64,
    pub byte_end: i64,
    pub ambiguous: bool,
}

/// The row recording `link`, resolved as `resolution`.
pub fn link_row(link: &Link, resolution: &Resolution) -> (r: LinkRow)
    ensures
        r.kind@ == link_kind_name(link.kind),
        r.raw@ == link.raw@,
        r.target_text@ == link.target@,
        r.target_fold@ == lowercase(normalized_target(link.target@)),
        r.target_tail@ == lookup_key(link.target@),
        r.target_file_id == (match resolution {
            Resolution::Resolved { file_id, .. } => Some(*file_id),
            Resolution::Unresolved => None::<i64>,
        }),
        opt_view(r.heading) == opt_view(link.heading),
        opt_view(r.block_id) == opt_view(link.block_id),
        opt_view(r.alias) == opt_view(link.alias),
        r.line == link.line as i64,
        r.byte_start == link.byte_start as i64,
        r.byte_end == link.byte_end as i64,
        r.ambiguous == (*resolution matches Resolution::Resolved { ambiguous, .. } && ambiguous),
{
    LinkRow {
        kind: link.kind.as_str(),
        raw: clone_string(&link.raw),
        target_text: clone_string(&link.target),
        target_fold: to_lowercase(normalize_target(link.target.as_str()).as_str()),
        target_tail: target_key(link.target.as_str()),
        target_file_id: resolution.file_id(),
        heading: clone_opt(&link.heading),
        block_id: clone_opt(&link.block_id),
        alias: clone_opt(&link.alias),
        line: link.line as i64,
        byte_start: link.byte_start as i64,
        byte_end: link.byte_end as i64,
        ambiguous: resolution.is_ambiguous(),
    }
}

/// The content hash that detects real changes and recognises a moved
/// file: the first sixteen bytes of the SHA-256 of the content, in
/// hexadecimal. 128 bits tell notes apart with room to spare, at half the
/// space per row.
pub fn hash_content(bytes: &[u8]) -> (r: String)
    ensures
        r@ == hex_of(sha256_digest(bytes@).take(16)),
{
    let digest = sha256(bytes);
    hex_prefix(&digest, 16)
}

} // verus!
