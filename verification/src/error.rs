//! Every failure the core can produce, shaped by what the caller can do about
//! it, and the non-fatal diagnostics a vault scan collects.
use vstd::prelude::*;
use crate::strings::push_str;
use crate::vault::path::VaultPath;

verus! {

/// A failure of a core operation.
///
/// Failures that carry a value of another library (a database error, a
/// platform error, a JSON error) are added by the host around this type.
#[derive(Debug)]
pub enum CoreError {
    NoVaultOpen,
    OutsideVault { path: String },
    NotFound(VaultPath),
    AlreadyExists(VaultPath),
    NotANote { path: VaultPath },
    /// A name that differs only by capitalisation from an existing entry.
    CaseCollision { requested: String, existing: VaultPath },
    InvalidName { name: String, reason: String },
    AmbiguousLink { target: String, candidates: String },
    InvalidFrontmatter { path: VaultPath, message: String },
    InvalidQuery { message: String },
    IndexCorrupt { message: String },
    Refused { operation: String, reason: String },
}

pub type Result<T> = core::result::Result<T, CoreError>;

/// The stable identifier of each kind of failure.
pub open spec fn code_of(e: &CoreError) -> Seq<char> {
    match e {
        CoreError::NoVaultOpen => "no_vault_open"@,
        CoreError::OutsideVault { .. } => "outside_vault"@,
        CoreError::NotFound(_) => "not_found"@,
        CoreError::AlreadyExists(_) => "already_exists"@,
        CoreError::NotANote { .. } => "not_a_note"@,
        CoreError::CaseCollision { .. } => "case_collision"@,
        CoreError::InvalidName { .. } => "invalid_name"@,
        CoreError::AmbiguousLink { .. } => "ambiguous_link"@,
        CoreError::InvalidFrontmatter { .. } => "invalid_frontmatter"@,
        CoreError::InvalidQuery { .. } => "invalid_query"@,
        CoreError::IndexCorrupt { .. } => "index_corrupt"@,
        CoreError::Refused { .. } => "refused"@,
    }
}

/// How a path is written in a message: `/` for the root.
pub open spec fn shown(p: Seq<char>) -> Seq<char> {
    if p.len() == 0 {
        "/"@
    } else {
        p
    }
}

/// The sentence the user reads for each failure.
pub open spec fn message_of(e: &CoreError) -> Seq<char> {
    match e {
        CoreError::NoVaultOpen => "no vault is open"@,
        CoreError::OutsideVault { path } => path@ + " is not inside the vault"@,
        CoreError::NotFound(p) => shown(p@) + " does not exist in this vault"@,
        CoreError::AlreadyExists(p) => shown(p@) + " already exists"@,
        CoreError::NotANote { path } => shown(path@) + " is a folder, not a note"@,
        CoreError::CaseCollision { requested, existing } => requested@
            + " collides with the existing "@ + shown(existing@)
            + " on case-insensitive filesystems"@,
        CoreError::InvalidName { name, reason } => name@ + " is not a usable file name: "@
            + reason@,
        CoreError::AmbiguousLink { target, candidates } => "the link target "@ + target@
            + " matches several notes: "@ + candidates@,
        CoreError::InvalidFrontmatter { path, message } => "frontmatter in "@ + shown(path@)
            + " is not valid YAML: "@ + message@,
        CoreError::InvalidQuery { message } => "the search query could not be parsed: "@
            + message@,
        CoreError::IndexCorrupt { message } => "the index is unusable and must be rebuilt: "@
            + message@,
        CoreError::Refused { operation, reason } => operation@ + " is not allowed: "@ + reason@,
    }
}

fn push_shown(out: &mut String, p: &VaultPath)
    ensures
        final(out)@ == old(out)@ + shown(p@),
{
    if p.is_root() {
        push_str(out, "/");
    } else {
        push_str(out, p.as_str());
    }
}

impl CoreError {
    /// A stable identifier the UI can switch on.
    pub fn code(&self) -> (r: &'static str)
        ensures
            r@ == code_of(self),
    {
        match self {
            CoreError::NoVaultOpen => "no_vault_open",
            CoreError::OutsideVault { .. } => "outside_vault",
            CoreError::NotFound(_) => "not_found",
            CoreError::AlreadyExists(_) => "already_exists",
            CoreError::NotANote { .. } => "not_a_note",
            CoreError::CaseCollision { .. } => "case_collision",
            CoreError::InvalidName { .. } => "invalid_name",
            CoreError::AmbiguousLink { .. } => "ambiguous_link",
            CoreError::InvalidFrontmatter { .. } => "invalid_frontmatter",
            CoreError::InvalidQuery { .. } => "invalid_query",
            CoreError::IndexCorrupt { .. } => "index_corrupt",
            CoreError::Refused { .. } => "refused",
        }
    }

    /// Whether the right response is to discard the index and rescan.
    pub fn warrants_index_rebuild(&self) -> (r: bool)
        ensures
            r == (self is IndexCorrupt),
    {
        match self {
            CoreError::IndexCorrupt { .. } => true,
            _ => false,
        }
    }

    /// The message shown to the user.
    pub fn to_string(&self) -> (r: String)
        ensures
            r@ == message_of(self),
    {
        let mut out = String::new();
        match self {
            CoreError::NoVaultOpen => push_str(&mut out, "no vault is open"),
            CoreError::OutsideVault { path } => {
                push_str(&mut out, path.as_str());
                push_str(&mut out, " is not inside the vault");
            },
            CoreError::NotFound(p) => {
                push_shown(&mut out, p);
                push_str(&mut out, " does not exist in this vault");
            },
            CoreError::AlreadyExists(p) => {
                push_shown(&mut out, p);
                push_str(&mut out, " already exists");
            },
            CoreError::NotANote { path } => {
                push_shown(&mut out, path);
                push_str(&mut out, " is a folder, not a note");
            },
            CoreError::CaseCollision { requested, existing } => {
                push_str(&mut out, requested.as_str());
                push_str(&mut out, " collides with the existing ");
                push_shown(&mut out, existing);
                push_str(&mut out, " on case-insensitive filesystems");
            },
            CoreError::InvalidName { name, reason } => {
                push_str(&mut out, name.as_str());
                push_str(&mut out, " is not a usable file name: ");
                push_str(&mut out, reason.as_str());
            },
            CoreError::AmbiguousLink { target, candidates } => {
                push_str(&mut out, "the link target ");
                push_str(&mut out, target.as_str());
                push_str(&mut out, " matches several notes: ");
                push_str(&mut out, candidates.as_str());
            },
            CoreError::InvalidFrontmatter { path, message } => {
                push_str(&mut out, "frontmatter in ");
                push_shown(&mut out, path);
                push_str(&mut out, " is not valid YAML: ");
                push_str(&mut out, message.as_str());
            },
            CoreError::InvalidQuery { message } => {
                push_str(&mut out, "the search query could not be parsed: ");
                push_str(&mut out, message.as_str());
            },
            CoreError::IndexCorrupt { message } => {
                push_str(&mut out, "the index is unusable and must be rebuilt: ");
                push_str(&mut out, message.as_str());
            },
            CoreError::Refused { operation, reason } => {
                push_str(&mut out, operation.as_str());
                push_str(&mut out, " is not allowed: ");
                push_str(&mut out, reason.as_str());
            },
        }
        assert(out@ =~= message_of(self));
        out
    }
}

/// A non-fatal problem found while scanning a vault.
#[derive(Debug)]
pub enum Diagnostic {
    CaseConflict { paths: Vec<VaultPath> },
    UnportableName { path: VaultPath, reason: String },
    InterruptedWrite { path: VaultPath },
    UnreadableFile { path: VaultPath, message: String },
    MalformedFrontmatter { path: VaultPath, message: String },
    EscapingSymlink { path: VaultPath },
}

#[derive(Debug, Clone, Copy, PartialEq, Eq, Structural)]
pub enum Severity {
    Info,
    Warning,
    Error,
}

impl Diagnostic {
    /// Case conflicts and interrupted writes warn, unreadable files are
    /// errors, everything else is informational.
    pub fn severity(&self) -> (s: Severity)
        ensures
            s == (match self {
                Diagnostic::CaseConflict { .. } | Diagnostic::InterruptedWrite { .. } => Severity::Warning,
                Diagnostic::UnreadableFile { .. } => Severity::Error,
                _ => Severity::Info,
            }),
    {
        match self {
            Diagnostic::CaseConflict { .. } | Diagnostic::InterruptedWrite { .. } => {
                Severity::Warning
            },
            Diagnostic::UnreadableFile { .. } => Severity::Error,
            _ => Severity::Info,
        }
    }
}

} // verus!
