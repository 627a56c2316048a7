//! What the session reports about opening a vault and renaming a note.
use vstd::prelude::*;
use crate::error::CoreError;
use crate::index::db::OpenOutcome;
use crate::model::Link;
use crate::strings::{chars_eq, push_str, str_to_string, to_chars};
use crate::vault::path::VaultPath;

verus! {

/// How a vault was opened, so the UI can explain a long first scan.
#[derive(Debug)]
pub struct OpenReport {
    pub root: String,
    pub name: String,
    pub index: OpenOutcome,
    /// True when the vault folder had no `.inner-empire` directory.
    pub created: bool,
    pub case_sensitive: bool,
}

/// What a rename actually did.
#[derive(Debug)]
pub struct RenameOutcome {
    pub from: VaultPath,
    pub to: VaultPath,
    pub files_updated: usize,
    pub links_updated: usize,
    /// Files whose links could not be rewritten. The rename still happened;
    /// these are reported rather than swallowed.
    pub failures: Vec<String>,
}

impl RenameOutcome {
    /// A rename that has moved the file and not yet rewritten any link.
    pub fn new(from: &VaultPath, to: &VaultPath) -> (r: RenameOutcome)
        ensures
            r.from@ == from@,
            r.to@ == to@,
            r.files_updated == 0,
            r.links_updated == 0,
            r.failures@.len() == 0,
    {
        RenameOutcome { from: from.clone(), to: to.clone(), files_updated: 0, links_updated: 0, failures: Vec::new() }
    }

    /// Count how rewriting one referring note went: a note whose links
    /// changed counts, with its links; an unchanged one does not; a failure
    /// is reported as the note's path and the error.
    pub fn record(&mut self, referrer: &VaultPath, result: Result<usize, CoreError>)
        requires
            old(self).files_updated < usize::MAX,
            result matches Ok(n) ==> old(self).links_updated + n <= usize::MAX,
        ensures
            final(self).from == old(self).from,
            final(self).to == old(self).to,
            match result {
                Ok(n) => if n > 0 {
                    final(self).files_updated == old(self).files_updated + 1 && final(self).links_updated
                        == old(self).links_updated + n && final(self).failures@ == old(self).failures@
                } else {
                    final(self).files_updated == old(self).files_updated && final(self).links_updated
                        == old(self).links_updated && final(self).failures@ == old(self).failures@
                },
                Err(e) => final(self).files_updated == old(self).files_updated && final(self).links_updated
                    == old(self).links_updated && final(self).failures@.len() == old(self).failures@.len() + 1
                    && final(self).failures@.take(old(self).failures@.len() as int) == old(self).failures@
                    && final(self).failures@.last()@ == referrer@ + ": "@ + crate::error::message_of(&e),
            },
    {
        match result {
            Ok(n) => {
                if n > 0 {
                    self.files_updated = self.files_updated + 1;
                    self.links_updated = self.links_updated + n;
                }
            },
            Err(e) => {
                let mut line = str_to_string(referrer.as_str());
                push_str(&mut line, ": ");
                push_str(&mut line, e.to_string().as_str());
                let ghost before = self.failures@;
                self.failures.push(line);
                assert(self.failures@.take(before.len() as int) =~= before);
            },
        }
    }
}

/// The folders a new vault starts with.
pub open spec fn starter_folders_spec() -> Seq<Seq<char>> {
    seq!["Notes"@, "Projects"@, "Attachments"@, "Templates"@, "Daily"@]
}

pub fn starter_folders() -> (r: Vec<String>)
    ensures
        r@.len() == 5,
        forall|i: int| 0 <= i < 5 ==> (#[trigger] r@[i])@ == starter_folders_spec()[i],
{
    let r = vec![
        str_to_string("Notes"),
        str_to_string("Projects"),
        str_to_string("Attachments"),
        str_to_string("Templates"),
        str_to_string("Daily"),
    ];
    assert(r@[0]@ == starter_folders_spec()[0]);
    r
}

/// Where a new vault's welcome note goes.
pub const WELCOME_NOTE: &'static str = "Notes/Welcome.md";

pub open spec fn welcome_head() -> Seq<char> {
    "---\ntitle: Welcome\ntags:\n  - getting-started\n---\n\n# Welcome to "@
}

pub open spec fn welcome_body() -> Seq<char> {
    "\n\nThis vault is a plain folder of Markdown files. Everything you write stays on your machine, in a format any editor can open.\n\n## Try these\n\n- Link to another note with double brackets, like [[Notes/Welcome]].\n- Tag a note by writing #getting-started anywhere in it.\n- Press Ctrl+P for the command palette, Ctrl+O to jump to a note.\n- Drop an image into a note to file it under Attachments.\n\n## Where things live\n\nYour notes are yours. The `.inner-empire` folder holds a search index that can be deleted at any time; it rebuilds itself from these files. ^index-is-a-cache\n"@
}

/// The welcome note of a new vault named `name`.
pub fn welcome_note(name: &str) -> (r: String)
    ensures
        r@ == welcome_head() + name@ + welcome_body(),
{
    let mut out = str_to_string("---\ntitle: Welcome\ntags:\n  - getting-started\n---\n\n# Welcome to ");
    push_str(&mut out, name);
    push_str(&mut out, "\n\nThis vault is a plain folder of Markdown files. Everything you write stays on your machine, in a format any editor can open.\n\n## Try these\n\n- Link to another note with double brackets, like [[Notes/Welcome]].\n- Tag a note by writing #getting-started anywhere in it.\n- Press Ctrl+P for the command palette, Ctrl+O to jump to a note.\n- Drop an image into a note to file it under Attachments.\n\n## Where things live\n\nYour notes are yours. The `.inner-empire` folder holds a search index that can be deleted at any time; it rebuilds itself from these files. ^index-is-a-cache\n");
    out
}

/// A vault's name when its settings are created: its folder's name, or
/// `Vault` for a folder without one.
pub fn vault_name(folder_name: Option<&str>) -> (r: String)
    ensures
        r@ == match folder_name {
            Some(n) => n@,
            None => "Vault"@,
        },
{
    match folder_name {
        Some(n) => str_to_string(n),
        None => str_to_string("Vault"),
    }
}

/// Is a referring note left alone? One that names the old path by no
/// text, or the renamed file itself.
pub fn skips_referrer(referrer: &VaultPath, from: &VaultPath, targets: &Vec<String>) -> (r: bool)
    ensures
        r == (targets@.len() == 0 || referrer@ == from@),
{
    targets.len() == 0 || *referrer == *from
}

/// How many links of a rewritten note now point at the new name, in either
/// form.
pub open spec fn retargeted_count(ls: Seq<Link>, wiki: Seq<char>, markdown: Seq<char>) -> nat
    decreases ls.len(),
{
    if ls.len() == 0 {
        0
    } else {
        retargeted_count(ls.drop_last(), wiki, markdown) + (if ls.last().target@ == wiki || ls.last().target@
            == markdown {
            1nat
        } else {
            0nat
        })
    }
}

/// The links a rename updated in one note, for the notification: those of
/// the rewritten text that now target the new name.
pub fn links_updated(links: &Vec<Link>, wiki_target: &str, markdown_target: &str) -> (r: usize)
    ensures
        r == retargeted_count(links@, wiki_target@, markdown_target@),
{
    let w = to_chars(wiki_target);
    let m = to_chars(markdown_target);
    let mut count: usize = 0;
    let mut i: usize = 0;
    while i < links.len()
        invariant
            i <= links@.len(),
            w@ == wiki_target@,
            m@ == markdown_target@,
            count == retargeted_count(links@.take(i as int), wiki_target@, markdown_target@),
            count <= i,
        decreases links@.len() - i,
    {
        assert(links@.take(i + 1).drop_last() =~= links@.take(i as int));
        assert(links@.take(i + 1).last() == links@[i as int]);
        let t = to_chars(links[i].target.as_str());
        if chars_eq(&t, &w) || chars_eq(&t, &m) {
            count = count + 1;
        }
        i = i + 1;
    }
    assert(links@.take(i as int) =~= links@);
    count
}

} // verus!
