//! The domain vocabulary: the shapes that cross into the user interface.
pub mod property;
pub mod workspace;

use vstd::prelude::*;
use crate::strings::{ascii_lower_seq, chars_eq, clone_string, str_to_string, to_ascii_lowercase, to_chars};
use crate::vault::path::{file_name_of, stem_of, VaultPath};
use crate::links::reference::opt_view;

verus! {

/// The kind a stored name stands for; an unknown name is `Other`.
pub open spec fn file_kind_from(s: Seq<char>) -> FileKind {
    if s == "note"@ {
        FileKind::Note
    } else if s == "canvas"@ {
        FileKind::Canvas
    } else if s == "image"@ {
        FileKind::Image
    } else if s == "pdf"@ {
        FileKind::Pdf
    } else if s == "audio"@ {
        FileKind::Audio
    } else if s == "video"@ {
        FileKind::Video
    } else {
        FileKind::Other
    }
}

/// What kind of thing a vault entry is, decided by extension.
#[derive(Debug, Clone, Copy, PartialEq, Eq, Hash, Structural)]
pub enum FileKind {
    Note,
    Canvas,
    Image,
    Pdf,
    Audio,
    Video,
    Other,
}

pub open spec fn is_one_of(s: Seq<char>, options: Seq<Seq<char>>) -> bool {
    exists|i: int| 0 <= i < options.len() && options[i] == s
}

/// The kind a file has by its extension, whatever the extension's ASCII
/// case.
pub open spec fn kind_for_extension(e: Option<Seq<char>>) -> FileKind {
    match e {
        Some(x) => kind_for_lower_extension(ascii_lower_seq(x)),
        None => FileKind::Other,
    }
}

/// The kind a lower-case extension names.
pub open spec fn kind_for_lower_extension(x: Seq<char>) -> FileKind {
    if is_one_of(x, seq!["md"@, "markdown"@, "mdx"@]) {
            FileKind::Note
        } else if x == "canvas"@ {
            FileKind::Canvas
        } else if is_one_of(
            x,
            seq!["png"@, "jpg"@, "jpeg"@, "gif"@, "webp"@, "svg"@, "bmp"@, "avif"@, "ico"@],
        ) {
            FileKind::Image
        } else if x == "pdf"@ {
            FileKind::Pdf
        } else if is_one_of(x, seq!["mp3"@, "wav"@, "ogg"@, "m4a"@, "flac"@, "aac"@, "opus"@]) {
            FileKind::Audio
        } else if is_one_of(x, seq!["mp4"@, "webm"@, "mkv"@, "mov"@, "avi"@, "m4v"@]) {
            FileKind::Video
    } else {
        FileKind::Other
    }
}

pub open spec fn file_kind_name(k: FileKind) -> Seq<char> {
    match k {
        FileKind::Note => "note"@,
        FileKind::Canvas => "canvas"@,
        FileKind::Image => "image"@,
        FileKind::Pdf => "pdf"@,
        FileKind::Audio => "audio"@,
        FileKind::Video => "video"@,
        FileKind::Other => "other"@,
    }
}

/// Whether `s` is one of the literals in `options`.
fn str_in(s: &[char], options: &[&str]) -> (r: bool)
    ensures
        r == exists|i: int| 0 <= i < options@.len() && (#[trigger] options@[i])@ == s@,
{
    let mut i: usize = 0;
    while i < options.len()
        invariant
            0 <= i <= options@.len(),
            forall|k: int| 0 <= k < i ==> (#[trigger] options@[k])@ != s@,
        decreases options@.len() - i,
    {
        let o = to_chars(options[i]);
        if chars_eq(&o, s) {
            return true;
        }
        i = i + 1;
    }
    false
}

impl FileKind {
    pub fn from_extension(extension: Option<&str>) -> (k: FileKind)
        ensures
            k == kind_for_extension(
                match extension {
                    Some(e) => Some(e@),
                    None => None,
                },
            ),
    {
        match extension {
            None => FileKind::Other,
            Some(e) => {
                let v = to_ascii_lowercase(&to_chars(e));
                let notes = ["md", "markdown", "mdx"];
                let images = ["png", "jpg", "jpeg", "gif", "webp", "svg", "bmp", "avif", "ico"];
                let audio = ["mp3", "wav", "ogg", "m4a", "flac", "aac", "opus"];
                let video = ["mp4", "webm", "mkv", "mov", "avi", "m4v"];
                if str_in(&v, &notes) {
                    proof { lemma_one_of_array(v@, notes@, seq!["md"@, "markdown"@, "mdx"@]); }
                    FileKind::Note
                } else if chars_eq(&v, &to_chars("canvas")) {
                    proof { lemma_one_of_array(v@, notes@, seq!["md"@, "markdown"@, "mdx"@]); }
                    FileKind::Canvas
                } else if str_in(&v, &images) {
                    proof {
                        lemma_one_of_array(v@, notes@, seq!["md"@, "markdown"@, "mdx"@]);
                        lemma_one_of_array(v@, images@, seq!["png"@, "jpg"@, "jpeg"@, "gif"@, "webp"@, "svg"@, "bmp"@, "avif"@, "ico"@]);
                    }
                    FileKind::Image
                } else if chars_eq(&v, &to_chars("pdf")) {
                    proof {
                        lemma_one_of_array(v@, notes@, seq!["md"@, "markdown"@, "mdx"@]);
                        lemma_one_of_array(v@, images@, seq!["png"@, "jpg"@, "jpeg"@, "gif"@, "webp"@, "svg"@, "bmp"@, "avif"@, "ico"@]);
                    }
                    FileKind::Pdf
                } else if str_in(&v, &audio) {
                    proof {
                        lemma_one_of_array(v@, notes@, seq!["md"@, "markdown"@, "mdx"@]);
                        lemma_one_of_array(v@, images@, seq!["png"@, "jpg"@, "jpeg"@, "gif"@, "webp"@, "svg"@, "bmp"@, "avif"@, "ico"@]);
                        lemma_one_of_array(v@, audio@, seq!["mp3"@, "wav"@, "ogg"@, "m4a"@, "flac"@, "aac"@, "opus"@]);
                    }
                    FileKind::Audio
                } else if str_in(&v, &video) {
                    proof {
                        lemma_one_of_array(v@, notes@, seq!["md"@, "markdown"@, "mdx"@]);
                        lemma_one_of_array(v@, images@, seq!["png"@, "jpg"@, "jpeg"@, "gif"@, "webp"@, "svg"@, "bmp"@, "avif"@, "ico"@]);
                        lemma_one_of_array(v@, audio@, seq!["mp3"@, "wav"@, "ogg"@, "m4a"@, "flac"@, "aac"@, "opus"@]);
                        lemma_one_of_array(v@, video@, seq!["mp4"@, "webm"@, "mkv"@, "mov"@, "avi"@, "m4v"@]);
                    }
                    FileKind::Video
                } else {
                    proof {
                        lemma_one_of_array(v@, notes@, seq!["md"@, "markdown"@, "mdx"@]);
                        lemma_one_of_array(v@, images@, seq!["png"@, "jpg"@, "jpeg"@, "gif"@, "webp"@, "svg"@, "bmp"@, "avif"@, "ico"@]);
                        lemma_one_of_array(v@, audio@, seq!["mp3"@, "wav"@, "ogg"@, "m4a"@, "flac"@, "aac"@, "opus"@]);
                        lemma_one_of_array(v@, video@, seq!["mp4"@, "webm"@, "mkv"@, "mov"@, "avi"@, "m4v"@]);
                    }
                    FileKind::Other
                }
            },
        }
    }

    pub fn as_str(self) -> (r: &'static str)
        ensures
            r@ == file_kind_name(self),
    {
        match self {
            FileKind::Note => "note",
            FileKind::Canvas => "canvas",
            FileKind::Image => "image",
            FileKind::Pdf => "pdf",
            FileKind::Audio => "audio",
            FileKind::Video => "video",
            FileKind::Other => "other",
        }
    }

    pub fn parse(value: &str) -> (k: FileKind)
        ensures
            k == file_kind_from(value@),
    {
        let v = to_chars(value);
        if chars_eq(&v, &to_chars("note")) {
            FileKind::Note
        } else if chars_eq(&v, &to_chars("canvas")) {
            FileKind::Canvas
        } else if chars_eq(&v, &to_chars("image")) {
            FileKind::Image
        } else if chars_eq(&v, &to_chars("pdf")) {
            FileKind::Pdf
        } else if chars_eq(&v, &to_chars("audio")) {
            FileKind::Audio
        } else if chars_eq(&v, &to_chars("video")) {
            FileKind::Video
        } else {
            FileKind::Other
        }
    }

    /// Can this be embedded inline in a note?
    pub fn is_embeddable(self) -> (r: bool)
        ensures
            r == (self is Note || self is Image || self is Pdf || self is Audio || self is Video),
    {
        match self {
            FileKind::Note | FileKind::Image | FileKind::Pdf | FileKind::Audio | FileKind::Video => true,
            _ => false,
        }
    }
}

proof fn lemma_one_of_array(s: Seq<char>, arr: Seq<&str>, lits: Seq<Seq<char>>)
    requires
        arr.len() == lits.len(),
        forall|i: int| 0 <= i < arr.len() ==> (#[trigger] arr[i])@ == lits[i],
    ensures
        is_one_of(s, lits) == exists|i: int| 0 <= i < arr.len() && (#[trigger] arr[i])@ == s,
{
    if is_one_of(s, lits) {
        let i = choose|i: int| 0 <= i < lits.len() && lits[i] == s;
        assert(arr[i]@ == s);
    }
    if exists|i: int| 0 <= i < arr.len() && (#[trigger] arr[i])@ == s {
        let i = choose|i: int| 0 <= i < arr.len() && (#[trigger] arr[i])@ == s;
        assert(lits[i] == s);
    }
}

/// Parsing the stored name of a kind gives the kind back.
pub proof fn law_file_kind_round_trip(k: FileKind)
    ensures
        (if file_kind_name(k) == "note"@ {
            FileKind::Note
        } else if file_kind_name(k) == "canvas"@ {
            FileKind::Canvas
        } else if file_kind_name(k) == "image"@ {
            FileKind::Image
        } else if file_kind_name(k) == "pdf"@ {
            FileKind::Pdf
        } else if file_kind_name(k) == "audio"@ {
            FileKind::Audio
        } else if file_kind_name(k) == "video"@ {
            FileKind::Video
        } else {
            FileKind::Other
        }) == k,
{
    reveal_strlit("note");
    assert("note"@.len() == 4 && "note"@[0] == 'n');
    reveal_strlit("canvas");
    assert("canvas"@.len() == 6 && "canvas"@[0] == 'c');
    reveal_strlit("image");
    assert("image"@.len() == 5 && "image"@[0] == 'i');
    reveal_strlit("pdf");
    assert("pdf"@.len() == 3 && "pdf"@[0] == 'p');
    reveal_strlit("audio");
    assert("audio"@.len() == 5 && "audio"@[0] == 'a');
    reveal_strlit("video");
    assert("video"@.len() == 5 && "video"@[0] == 'v');
    reveal_strlit("other");
    assert("other"@.len() == 5 && "other"@[0] == 'o');
}

/// How a link was written in the source.
#[derive(Debug, Clone, Copy, PartialEq, Eq, Hash, Structural)]
pub enum LinkKind {
    WikiLink,
    Embed,
    Markdown,
    MarkdownImage,
    External,
}

pub open spec fn link_kind_name(k: LinkKind) -> Seq<char> {
    match k {
        LinkKind::WikiLink => "wikiLink"@,
        LinkKind::Embed => "embed"@,
        LinkKind::Markdown => "markdown"@,
        LinkKind::MarkdownImage => "markdownImage"@,
        LinkKind::External => "external"@,
    }
}

pub open spec fn link_kind_from(s: Seq<char>) -> LinkKind {
    if s == "embed"@ {
        LinkKind::Embed
    } else if s == "markdown"@ {
        LinkKind::Markdown
    } else if s == "markdownImage"@ {
        LinkKind::MarkdownImage
    } else if s == "external"@ {
        LinkKind::External
    } else {
        LinkKind::WikiLink
    }
}

impl LinkKind {
    pub fn as_str(self) -> (r: &'static str)
        ensures
            r@ == link_kind_name(self),
    {
        match self {
            LinkKind::WikiLink => "wikiLink",
            LinkKind::Embed => "embed",
            LinkKind::Markdown => "markdown",
            LinkKind::MarkdownImage => "markdownImage",
            LinkKind::External => "external",
        }
    }

    pub fn parse(value: &str) -> (k: LinkKind)
        ensures
            k == link_kind_from(value@),
    {
        let v = to_chars(value);
        if chars_eq(&v, &to_chars("embed")) {
            LinkKind::Embed
        } else if chars_eq(&v, &to_chars("markdown")) {
            LinkKind::Markdown
        } else if chars_eq(&v, &to_chars("markdownImage")) {
            LinkKind::MarkdownImage
        } else if chars_eq(&v, &to_chars("external")) {
            LinkKind::External
        } else {
            LinkKind::WikiLink
        }
    }

    pub fn is_internal(self) -> (r: bool)
        ensures
            r == !(self is External),
    {
        !matches!(self, LinkKind::External)
    }

    pub fn is_embed(self) -> (r: bool)
        ensures
            r == (self is Embed || self is MarkdownImage),
    {
        matches!(self, LinkKind::Embed | LinkKind::MarkdownImage)
    }
}

/// Parsing the stored name of a link kind gives the kind back.
pub proof fn law_link_kind_round_trip(k: LinkKind)
    ensures
        link_kind_from(link_kind_name(k)) == k,
{
    reveal_strlit("wikiLink");
    assert("wikiLink"@.len() == 8 && "wikiLink"@[0] == 'w');
    reveal_strlit("embed");
    assert("embed"@.len() == 5 && "embed"@[0] == 'e');
    reveal_strlit("markdown");
    assert("markdown"@.len() == 8 && "markdown"@[0] == 'm');
    reveal_strlit("markdownImage");
    assert("markdownImage"@.len() == 13 && "markdownImage"@[0] == 'm');
    reveal_strlit("external");
    assert("external"@.len() == 8 && "external"@[0] == 'e');
}

/// A link found in a note, with the byte range of its source text.
#[derive(Debug)]
pub struct Link {
    pub kind: LinkKind,
    /// The exact source text, e.g. `[[Note#Heading|Alias]]`.
    pub raw: String,
    /// The target portion before any `#`, `^` or `|`.
    pub target: String,
    pub heading: Option<String>,
    pub block_id: Option<String>,
    pub alias: Option<String>,
    /// Zero-based line in the source.
    pub line: usize,
    pub byte_start: usize,
    pub byte_end: usize,
}

impl Link {
    /// What the reader sees: the alias if given, otherwise the target.
    pub fn display_text(&self) -> (r: &str)
        ensures
            r@ == (match self.alias {
                Some(a) => a@,
                None => self.target@,
            }),
    {
        match &self.alias {
            Some(a) => a.as_str(),
            None => self.target.as_str(),
        }
    }

    pub fn clone_link(&self) -> (r: Link)
        ensures
            r.kind == self.kind,
            r.raw@ == self.raw@,
            r.target@ == self.target@,
            opt_view(r.heading) == opt_view(self.heading),
            opt_view(r.block_id) == opt_view(self.block_id),
            opt_view(r.alias) == opt_view(self.alias),
            r.line == self.line,
            r.byte_start == self.byte_start,
            r.byte_end == self.byte_end,
    {
        Link {
            kind: self.kind,
            raw: clone_string(&self.raw),
            target: clone_string(&self.target),
            heading: clone_opt(&self.heading),
            block_id: clone_opt(&self.block_id),
            alias: clone_opt(&self.alias),
            line: self.line,
            byte_start: self.byte_start,
            byte_end: self.byte_end,
        }
    }
}

pub fn clone_opt(o: &Option<String>) -> (r: Option<String>)
    ensures
        opt_view(r) == opt_view(*o),
{
    match o {
        Some(s) => Some(clone_string(s)),
        None => None,
    }
}

/// A link that resolved to a file, as stored in the index.
#[derive(Debug)]
pub struct ResolvedLink {
    pub link: Link,
    pub target_path: Option<VaultPath>,
}

/// An incoming reference, with the surrounding text for the backlinks panel.
#[derive(Debug)]
pub struct Backlink {
    pub source_path: VaultPath,
    pub source_title: String,
    pub kind: LinkKind,
    pub line: usize,
    pub context: String,
    pub alias: Option<String>,
}

/// A mention of a note's title that is not a link.
#[derive(Debug)]
pub struct UnlinkedMention {
    pub source_path: VaultPath,
    pub source_title: String,
    pub line: usize,
    pub context: String,
    pub byte_start: usize,
    pub byte_end: usize,
}

/// A tag occurrence, without its leading `#`.
#[derive(Debug)]
pub struct Tag {
    pub name: String,
    pub line: usize,
    pub byte_start: usize,
    pub byte_end: usize,
}

/// A tag with its vault-wide usage count.
#[derive(Debug)]
pub struct TagSummary {
    pub name: String,
    pub count: usize,
    pub total_count: usize,
}

/// A heading, used by the outline and by `[[Note#Heading]]` resolution.
#[derive(Debug)]
pub struct Heading {
    pub level: u8,
    pub text: String,
    pub slug: String,
    pub line: usize,
    pub byte_start: usize,
}

/// A block identified by a trailing `^id`.
#[derive(Debug)]
pub struct Block {
    pub id: String,
    pub line: usize,
    pub byte_start: usize,
    pub byte_end: usize,
}

/// A file as the index knows it.
#[derive(Debug)]
pub struct FileEntry {
    pub path: VaultPath,
    pub name: String,
    pub kind: FileKind,
    pub size: u64,
    pub modified_ms: i64,
    pub title: String,
}

/// A folder in the explorer tree.
#[derive(Debug)]
pub struct FolderEntry {
    pub path: VaultPath,
    pub name: String,
    pub child_file_count: usize,
    pub child_folder_count: usize,
}

/// One level of the explorer.
#[derive(Debug)]
pub struct DirectoryListing {
    pub path: VaultPath,
    pub folders: Vec<FolderEntry>,
    pub files: Vec<FileEntry>,
}

/// Everything derived from one note, produced in a single parse.
#[derive(Debug)]
pub struct NoteMetadata {
    pub title: Option<String>,
    pub properties: Vec<crate::model::property::Property>,
    pub links: Vec<Link>,
    pub tags: Vec<Tag>,
    pub headings: Vec<Heading>,
    pub blocks: Vec<Block>,
    /// Byte length of the frontmatter block including its delimiters.
    pub frontmatter_bytes: usize,
    pub word_count: usize,
}

/// A note as the editor opens it.
#[derive(Debug)]
pub struct Note {
    pub path: VaultPath,
    pub title: String,
    pub content: String,
    pub metadata: NoteMetadata,
    pub modified_ms: i64,
}

impl Note {
    /// A note read from disk: its title is the one its text gives, or else
    /// its file's stem.
    pub fn from_parts(path: VaultPath, content: String, metadata: NoteMetadata, modified_ms: i64) -> (r: Note)
        ensures
            r.path == path,
            r.content == content,
            r.metadata == metadata,
            r.modified_ms == modified_ms,
            r.title@ == match metadata.title {
                Some(t) => t@,
                None => stem_of(file_name_of(path@)),
            },
    {
        let title = match &metadata.title {
            Some(t) => clone_string(t),
            None => str_to_string(path.stem()),
        };
        Note { path, title, content, metadata, modified_ms }
    }
}

/// A node in the graph view.
#[derive(Debug)]
pub struct GraphNode {
    pub id: String,
    pub path: Option<VaultPath>,
    pub label: String,
    pub kind: GraphNodeKind,
    pub degree: usize,
    pub tags: Vec<String>,
    pub folder: String,
}

#[derive(Debug, Clone, Copy, PartialEq, Eq, Structural)]
pub enum GraphNodeKind {
    Note,
    Attachment,
    Unresolved,
    Tag,
}

#[derive(Debug)]
pub struct GraphEdge {
    pub source: String,
    pub target: String,
    pub kind: LinkKind,
}

#[derive(Debug)]
pub struct GraphData {
    pub nodes: Vec<GraphNode>,
    pub edges: Vec<GraphEdge>,
    pub truncated: bool,
}

} // verus!
