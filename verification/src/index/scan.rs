//! The decisions of indexing one file, step by step: the host looks at the
//! file, reads it and writes the index between the steps.
use vstd::prelude::*;
use vstd::utf8::{decode_utf8, valid_utf8};
use crate::digest::{hex_of, sha256_digest};
use crate::error::Diagnostic;
use crate::index::indexer::{ignored_name, starts_with, temp_prefix, IgnoreRules, IndexProgress, ScanReport};
use crate::index::writer::{hash_content, FileRecord};
use crate::markdown::parser::utf8_string;
use crate::model::{kind_for_extension, FileKind};
use crate::index::resolve::{less, seq_less};
use crate::strings::{clone_string, str_to_string};
use crate::workspace::{law_sorted_names_in_order, lemma_insert_name_at, names_in_order, sorted_names};
use vstd::hash_map::StringHashMap;
use crate::vault::path::{extension_of, file_name_of, VaultPath};

verus! {

/// How many files go into one transaction during a full scan.
pub const BATCH_SIZE: usize = 256;

/// What the index already holds for a file.
#[derive(Debug)]
pub struct StoredFile {
    pub size: i64,
    pub mtime_ms: i64,
    /// Present for notes.
    pub content_hash: Option<String>,
}

/// How indexing one file ended.
#[derive(Debug)]
pub enum Indexed {
    Written,
    Unchanged,
    Failed(Diagnostic),
}

/// What to do after the first look at a file.
#[derive(Debug)]
pub enum IndexPlan {
    /// It could not be looked at.
    Report(Diagnostic),
    /// It is as the index has it: nothing to do.
    Unchanged,
    /// Record it by size and time alone, unread.
    RecordAttachment(FileRecord),
    /// Read it: it is a note small enough to parse.
    ReadNote(FileRecord),
}

/// What to do once a note's bytes are in.
#[derive(Debug)]
pub enum ReadPlan {
    /// They could not be read.
    Report(Diagnostic),
    /// Touched but not changed: refresh the size and times, skip the parse.
    RefreshTimestamps(FileRecord),
    /// Not UTF-8: record it as an attachment, leave it as it is, and report.
    RecordAttachment(FileRecord, Diagnostic),
    /// Parse and write the note.
    IndexNote(FileRecord, String),
}

/// What a scan does with one directory entry.
#[derive(Debug, Clone, Copy, PartialEq, Eq, Structural)]
pub enum EntryAction {
    /// Ignore it.
    Skip,
    /// Ignore it, and report the interrupted write it is the leftover of.
    ReportInterruptedWrite,
    /// A symbolic link out of the vault: report it and do not follow it.
    ReportEscapingSymlink,
    /// A folder: walk into it.
    Descend,
    /// A file: index it.
    Record,
}

/// The walk's rule for an entry named `name`. Ignored names are skipped,
/// a temporary file's with a report; a symbolic link whose target lies
/// outside the vault (or cannot be found) is reported, so the index never
/// addresses files the user did not put there; folders are walked and files
/// recorded. `escapes_vault` matters only for a symbolic link.
pub fn classify_entry(rules: &IgnoreRules, name: &str, is_symlink: bool, escapes_vault: bool, is_dir: bool) -> (r:
    EntryAction)
    ensures
        r == (if ignored_name(*rules, name@) {
            if starts_with(name@, temp_prefix()) {
                EntryAction::ReportInterruptedWrite
            } else {
                EntryAction::Skip
            }
        } else if is_symlink && escapes_vault {
            EntryAction::ReportEscapingSymlink
        } else if is_dir {
            EntryAction::Descend
        } else {
            EntryAction::Record
        }),
{
    if rules.ignores(name) {
        let v = crate::strings::to_chars(name);
        let prefix = crate::strings::to_chars(".ie-tmp-");
        let temp = prefix.len() <= v.len() && crate::strings::starts_with_at(&v, 0, &prefix);
        proof {
            if prefix@.len() <= v@.len() {
                assert(v@.take(prefix@.len() as int) =~= v@.subrange(0, prefix@.len() as int));
            }
        }
        if temp {
            EntryAction::ReportInterruptedWrite
        } else {
            EntryAction::Skip
        }
    } else if is_symlink && escapes_vault {
        EntryAction::ReportEscapingSymlink
    } else if is_dir {
        EntryAction::Descend
    } else {
        EntryAction::Record
    }
}

/// The message for a note that is not UTF-8.
pub open spec fn not_utf8_message() -> Seq<char> {
    "file is not valid UTF-8 and was indexed as an attachment"@
}

/// The kind a path's extension gives it.
pub open spec fn kind_of_path(p: Seq<char>) -> FileKind {
    kind_for_extension(extension_of(file_name_of(p)))
}

/// Is the file as the index has it? Size and modification time both match.
pub open spec fn same_as_stored(stored: Option<StoredFile>, len: u64, mtime_ms: i64) -> bool {
    stored matches Some(s) && s.size as u64 == len && s.mtime_ms == mtime_ms
}

pub open spec fn record_is(r: FileRecord, path: Seq<char>, len: u64, mtime_ms: i64, now_ms: i64) -> bool {
    &&& r.path@ == path
    &&& r.kind == kind_of_path(path)
    &&& r.size == len
    &&& r.mtime_ms == mtime_ms
    &&& r.content_hash is None
    &&& r.indexed_at == now_ms
}

/// The first step of indexing a file. `metadata` is its size and
/// modification time, or why they could not be had; a file without a time
/// counts as time 0. An unchanged size and time end it at once, the cheap
/// check; anything but a note, or a note over `max_parse_bytes`, is recorded
/// unread; a note is read next.
pub fn plan_index(
    path: &VaultPath,
    metadata: &Result<(u64, Option<i64>), String>,
    stored: &Option<StoredFile>,
    max_parse_bytes: u64,
    now_ms: i64,
) -> (r: IndexPlan)
    ensures
        match metadata {
            Err(m) => r matches IndexPlan::Report(Diagnostic::UnreadableFile { path: p, message }) && p@ == path@
                && message@ == m@,
            Ok((len, modified)) => {
                let mtime = match modified {
                    Some(t) => *t,
                    None => 0,
                };
                if same_as_stored(*stored, *len, mtime) {
                    r is Unchanged
                } else if kind_of_path(path@) != FileKind::Note || *len > max_parse_bytes {
                    r matches IndexPlan::RecordAttachment(rec) && record_is(rec, path@, *len, mtime, now_ms)
                } else {
                    r matches IndexPlan::ReadNote(rec) && record_is(rec, path@, *len, mtime, now_ms)
                }
            },
        },
{
    match metadata {
        Err(m) => IndexPlan::Report(Diagnostic::UnreadableFile { path: path.clone(), message: clone_string(m) }),
        Ok((len, modified)) => {
            let mtime: i64 = match modified {
                Some(t) => *t,
                None => 0,
            };
            let unchanged = match stored {
                Some(s) => s.size as u64 == *len && s.mtime_ms == mtime,
                None => false,
            };
            if unchanged {
                return IndexPlan::Unchanged;
            }
            let ext = path.extension();
            let kind = match &ext {
                Some(e) => FileKind::from_extension(Some(e.as_str())),
                None => FileKind::from_extension(None),
            };
            let record = FileRecord {
                path: path.clone(),
                kind,
                size: *len,
                mtime_ms: mtime,
                content_hash: None,
                indexed_at: now_ms,
            };
            if kind != FileKind::Note || *len > max_parse_bytes {
                IndexPlan::RecordAttachment(record)
            } else {
                IndexPlan::ReadNote(record)
            }
        },
    }
}

pub open spec fn with_hash(r: FileRecord, hash: Seq<char>) -> bool {
    r.content_hash matches Some(h) && h@ == hash
}

/// The second step, for a note: its bytes, or why they could not be read.
/// The same content hash as the index holds means touched but not changed;
/// other bytes that are not UTF-8 are recorded as an attachment and left as
/// they are; UTF-8 bytes are parsed and written, with their hash.
pub fn after_read(record: FileRecord, read: Result<Vec<u8>, String>, stored: &Option<StoredFile>) -> (r: ReadPlan)
    ensures
        match read {
            Err(m) => r matches ReadPlan::Report(Diagnostic::UnreadableFile { path: p, message }) && p@ == record.path@
                && message@ == m@,
            Ok(bytes) => {
                let hash = hex_of(sha256_digest(bytes@).take(16));
                if stored matches Some(s) && s.content_hash matches Some(h) && h@ == hash {
                    r matches ReadPlan::RefreshTimestamps(rec) && rec == record
                } else if !valid_utf8(bytes@) {
                    r matches ReadPlan::RecordAttachment(rec, Diagnostic::UnreadableFile { path: p, message })
                        && rec == record && p@ == record.path@ && message@ == not_utf8_message()
                } else {
                    r matches ReadPlan::IndexNote(rec, source) && rec.path == record.path && rec.kind == record.kind
                        && rec.size == record.size && rec.mtime_ms == record.mtime_ms && rec.indexed_at
                        == record.indexed_at && with_hash(rec, hash) && source@ == decode_utf8(bytes@)
                }
            },
        },
{
    match read {
        Err(m) => ReadPlan::Report(Diagnostic::UnreadableFile { path: record.path, message: m }),
        Ok(bytes) => {
            let hash = hash_content(bytes.as_slice());
            let same = match stored {
                Some(s) => match &s.content_hash {
                    Some(h) => crate::strings::chars_eq(
                        &crate::strings::to_chars(h.as_str()),
                        &crate::strings::to_chars(hash.as_str()),
                    ),
                    None => false,
                },
                None => false,
            };
            if same {
                return ReadPlan::RefreshTimestamps(record);
            }
            match utf8_string(bytes) {
                None => {
                    let path = record.path.clone();
                    ReadPlan::RecordAttachment(
                        record,
                        Diagnostic::UnreadableFile {
                            path,
                            message: str_to_string("file is not valid UTF-8 and was indexed as an attachment"),
                        },
                    )
                },
                Some(source) => ReadPlan::IndexNote(
                    FileRecord {
                        path: record.path,
                        kind: record.kind,
                        size: record.size,
                        mtime_ms: record.mtime_ms,
                        content_hash: Some(hash),
                        indexed_at: record.indexed_at,
                    },
                    source,
                ),
            }
        },
    }
}

/// The last step, once the note is written: malformed frontmatter is
/// reported, though the note was indexed.
pub fn note_outcome(path: &VaultPath, frontmatter_error: Option<String>) -> (r: Indexed)
    ensures
        match frontmatter_error {
            Some(m) => r matches Indexed::Failed(Diagnostic::MalformedFrontmatter { path: p, message }) && p@ == path@
                && message@ == m@,
            None => r is Written,
        },
{
    match frontmatter_error {
        Some(message) => Indexed::Failed(Diagnostic::MalformedFrontmatter { path: path.clone(), message }),
        None => Indexed::Written,
    }
}

/// Count one file's outcome into a scan's report: written and unchanged
/// files are counted, failures kept as diagnostics.
pub fn tally(report: &mut ScanReport, diagnostics: &mut Vec<Diagnostic>, outcome: Indexed)
    requires
        old(report).files_indexed < usize::MAX,
        old(report).files_unchanged < usize::MAX,
    ensures
        final(report).files_seen == old(report).files_seen,
        final(report).files_removed == old(report).files_removed,
        final(report).duration_ms == old(report).duration_ms,
        final(report).diagnostics@ == old(report).diagnostics@,
        match outcome {
            Indexed::Written => final(report).files_indexed == old(report).files_indexed + 1
                && final(report).files_unchanged == old(report).files_unchanged && final(diagnostics)@
                == old(diagnostics)@,
            Indexed::Unchanged => final(report).files_indexed == old(report).files_indexed
                && final(report).files_unchanged == old(report).files_unchanged + 1 && final(diagnostics)@
                == old(diagnostics)@,
            Indexed::Failed(d) => final(report).files_indexed == old(report).files_indexed
                && final(report).files_unchanged == old(report).files_unchanged && final(diagnostics)@
                == old(diagnostics)@.push(d),
        },
{
    match outcome {
        Indexed::Written => report.files_indexed = report.files_indexed + 1,
        Indexed::Unchanged => report.files_unchanged = report.files_unchanged + 1,
        Indexed::Failed(d) => diagnostics.push(d),
    }
}

/// Progress after batch `batch_number` (from 0) of a full scan over
/// `total` files: the files scanned so far, never more than the total.
pub fn batch_progress(batch_number: usize, total: usize, indexed: usize, current: Option<VaultPath>) -> (r:
    IndexProgress)
    ensures
        r.scanned == (if (batch_number + 1) * BATCH_SIZE < total {
            (batch_number + 1) * BATCH_SIZE
        } else {
            total as int
        }),
        r.indexed == indexed,
        r.total == Some(total),
        r.current == current,
{
    let scanned: usize = if batch_number < total / BATCH_SIZE {
        assert((batch_number + 1) * BATCH_SIZE <= total) by (nonlinear_arith)
            requires
                batch_number < total / 256,
        ;
        (batch_number + 1) * BATCH_SIZE
    } else {
        assert((batch_number + 1) * BATCH_SIZE >= total) by (nonlinear_arith)
            requires
                batch_number >= total / 256,
        ;
        total
    };
    IndexProgress { scanned, indexed, total: Some(total), current }
}

/// The folders a walk has already entered, each by the key of its path.
pub struct Visited {
    keys: StringHashMap<()>,
}

impl View for Visited {
    type V = Set<Seq<char>>;

    closed spec fn view(&self) -> Set<Seq<char>> {
        self.keys@.dom()
    }
}

impl Visited {
    /// No folder entered yet.
    pub fn new() -> (r: Visited)
        ensures
            r@ == Set::<Seq<char>>::empty(),
    {
        let r = Visited { keys: StringHashMap::new() };
        assert(r@ =~= Set::<Seq<char>>::empty());
        r
    }

    /// Whether the walk descends into the folder with this key: only the
    /// first time the key comes up, so that a link cycle cannot keep it
    /// going round. The key is recorded either way.
    pub fn first_visit(&mut self, key: &str) -> (r: bool)
        ensures
            r == !old(self)@.contains(key@),
            final(self)@ == old(self)@.insert(key@),
    {
        let seen = self.keys.contains_key(key);
        self.keys.insert(str_to_string(key), ());
        assert(self@ =~= old(self)@.insert(key@));
        !seen
    }
}

pub open spec fn paths_view(ps: Seq<VaultPath>) -> Seq<Seq<char>> {
    ps.map_values(|p: VaultPath| p@)
}

/// The files a walk found, in the order it hands them on: by path, as
/// `str` orders them.
pub fn sort_found(found: Vec<VaultPath>) -> (r: Vec<VaultPath>)
    ensures
        paths_view(r@) == sorted_names(paths_view(found@)),
        names_in_order(paths_view(r@)),
{
    let ghost fv = paths_view(found@);
    let mut rest = found;
    let mut out: Vec<VaultPath> = Vec::new();
    let ghost mut done: int = 0;
    assert(fv.take(0) =~= Seq::<Seq<char>>::empty());
    assert(paths_view(out@) =~= Seq::<Seq<char>>::empty());
    while rest.len() > 0
        invariant
            0 <= done <= fv.len(),
            paths_view(rest@) == fv.skip(done),
            paths_view(out@) == sorted_names(fv.take(done)),
        decreases rest@.len(),
    {
        let ghost before_rest = rest@;
        let p = rest.remove(0);
        assert(paths_view(before_rest)[0] == p@);
        assert(fv.skip(done).len() == before_rest.len());
        assert(fv.skip(done)[0] == fv[done]);
        assert(paths_view(rest@) =~= fv.skip(done + 1)) by {
            assert(paths_view(rest@) =~= paths_view(before_rest).drop_first());
        }
        assert(fv.take(done + 1).drop_last() =~= fv.take(done));
        assert(fv.take(done + 1).last() == p@);
        let ghost sv = paths_view(out@);
        let mut k = out.len();
        while k > 0 && less(p.as_str(), out[k - 1].as_str())
            invariant
                k <= out@.len(),
                sv == paths_view(out@),
                forall|j: int| k <= j < out@.len() ==> seq_less(p@, #[trigger] sv[j]),
            decreases k,
        {
            assert(sv[k - 1] == out@[k - 1]@);
            k = k - 1;
        }
        proof {
            if k > 0 {
                assert(sv[k - 1] == out@[k - 1]@);
            }
            lemma_insert_name_at(sv, p@, k as int);
        }
        let ghost pv = p@;
        out.insert(k, p);
        assert(paths_view(out@) =~= sv.take(k as int).push(pv) + sv.skip(k as int));
        proof {
            done = done + 1;
        }
    }
    assert(fv.take(done) =~= fv);
    proof {
        law_sorted_names_in_order(fv);
    }
    out
}

} // verus!
