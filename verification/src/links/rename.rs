//! Keeping links correct when a note is renamed or moved.
//!
//! A rename produces a plan — every file that must change — which the
//! caller can show before anything is written. Only links that actually
//! pointed at the renamed file are rewritten: the set of link targets that
//! resolved to it comes from the index.
use vstd::prelude::*;
use crate::error::{CoreError, Result};
use crate::markdown::parser::{parsed_links, ParserOptions};
use crate::markdown::scanner::LinkView;
use crate::markdown::transform::{applied, chosen_edits, edits_view, lemma_chosen_edit_present, lemma_chosen_edits_internal, retarget_edit, lemma_forward_edits_apply, EditView, MarkdownTransformer};
use crate::model::{Link, LinkKind};
use crate::strings::{eq_ic, eq_ignore_ascii_case, str_to_string, to_chars};
use crate::vault::path::{extension_of, file_name_of, stem_of, VaultPath};
use crate::vault::settings::LinkStyle;

verus! {

/// One file's worth of changes.
#[derive(Debug)]
pub struct RenameEdit {
    pub path: VaultPath,
    /// How many links in this file change.
    pub link_count: usize,
}

/// Everything a rename implies.
#[derive(Debug)]
pub struct RenamePlan {
    pub from: VaultPath,
    pub to: VaultPath,
    /// Files whose links will be rewritten.
    pub edits: Vec<RenameEdit>,
    /// Total links affected across all files.
    pub total_links: usize,
}

pub open spec fn link_total(es: Seq<RenameEdit>) -> int
    decreases es.len(),
{
    if es.len() == 0 {
        0
    } else {
        link_total(es.drop_last()) + es.last().link_count
    }
}

impl RenamePlan {
    pub fn is_noop(&self) -> (r: bool)
        ensures
            r == (self.edits@.len() == 0),
    {
        self.edits.len() == 0
    }

    /// The plan for the files the index found linking to `from`, with the
    /// links counted.
    pub fn from_edits(from: &VaultPath, to: &VaultPath, edits: Vec<RenameEdit>) -> (r: RenamePlan)
        requires
            link_total(edits@) <= usize::MAX,
        ensures
            r.from@ == from@,
            r.to@ == to@,
            r.edits@ == edits@,
            r.total_links == link_total(edits@),
    {
        let mut total: usize = 0;
        let mut i: usize = 0;
        while i < edits.len()
            invariant
                i <= edits@.len(),
                link_total(edits@) <= usize::MAX,
                total == link_total(edits@.take(i as int)),
            decreases edits@.len() - i,
        {
            assert(edits@.take(i + 1).drop_last() =~= edits@.take(i as int));
            proof {
                lemma_link_total_prefix(edits@, i + 1);
            }
            total = total + edits[i].link_count;
            i = i + 1;
        }
        assert(edits@.take(edits@.len() as int) =~= edits@);
        RenamePlan { from: from.clone(), to: to.clone(), edits, total_links: total }
    }
}

proof fn lemma_link_total_prefix(es: Seq<RenameEdit>, n: int)
    requires
        0 <= n <= es.len(),
    ensures
        link_total(es.take(n)) <= link_total(es),
    decreases es.len() - n,
{
    if n < es.len() {
        lemma_link_total_prefix(es, n + 1);
        assert(es.take(n + 1).drop_last() =~= es.take(n));
    } else {
        assert(es.take(n) =~= es);
    }
}

impl Default for RenamePlan {
    fn default() -> (r: RenamePlan)
        ensures
            r.from@.len() == 0,
            r.to@.len() == 0,
            r.edits@.len() == 0,
            r.total_links == 0,
    {
        RenamePlan { from: VaultPath::root(), to: VaultPath::root(), edits: Vec::new(), total_links: 0 }
    }
}

/// A path without `suffix` at its end, when it has it.
pub open spec fn without_suffix(s: Seq<char>, suffix: Seq<char>) -> Seq<char> {
    if suffix.len() <= s.len() && s.skip(s.len() - suffix.len()) == suffix {
        s.take(s.len() - suffix.len())
    } else {
        s
    }
}

pub open spec fn is_note_extension(e: Option<Seq<char>>) -> bool {
    e == Some("md"@) || e == Some("markdown"@)
}

/// The text a link to `to` should use. A Markdown link addresses a file and
/// keeps the path; a wiki link to a note drops `.md`; the shortest style uses
/// the bare title (the file name for an attachment) only when at most one
/// file answers to it, so shortening never makes a link ambiguous.
pub open spec fn preferred_text(to: Seq<char>, style: LinkStyle, kind: LinkKind, competitors: int) -> Seq<char> {
    if kind == LinkKind::Markdown || kind == LinkKind::MarkdownImage {
        to
    } else {
        let ext = extension_of(file_name_of(to));
        let is_note = is_note_extension(ext);
        let full = if is_note {
            without_suffix(to, seq!['.'] + ext.unwrap())
        } else {
            to
        };
        match style {
            LinkStyle::ShortestWikiLink => if competitors <= 1 {
                if is_note {
                    stem_of(file_name_of(to))
                } else {
                    file_name_of(to)
                }
            } else {
                full
            },
            _ => full,
        }
    }
}

/// What text a link to `to` should use, given the vault's link style and
/// how many indexed files share `to`'s stem.
pub fn preferred_target_text(to: &VaultPath, style: LinkStyle, original_kind: LinkKind, competitors: i64) -> (r: String)
    ensures
        r@ == preferred_text(to@, style, original_kind, competitors as int),
{
    if matches!(original_kind, LinkKind::Markdown | LinkKind::MarkdownImage) {
        return str_to_string(to.as_str());
    }
    let ext = to.extension();
    let is_note = match &ext {
        Some(e) => {
            let v = to_chars(e.as_str());
            crate::strings::chars_eq(&v, &to_chars("md")) || crate::strings::chars_eq(&v, &to_chars("markdown"))
        },
        None => false,
    };
    let full = if is_note {
        let path = to_chars(to.as_str());
        let mut suffix: Vec<char> = Vec::new();
        suffix.push('.');
        let e = match &ext {
            Some(e) => to_chars(e.as_str()),
            None => Vec::new(),
        };
        let mut j: usize = 0;
        while j < e.len()
            invariant
                j <= e@.len(),
                suffix@ == seq!['.'] + e@.take(j as int),
            decreases e@.len() - j,
        {
            suffix.push(e[j]);
            j = j + 1;
            assert(suffix@ =~= seq!['.'] + e@.take(j as int));
        }
        assert(e@.take(e@.len() as int) =~= e@);
        let n = path.len();
        let m = suffix.len();
        if m <= n && crate::strings::starts_with_at(&path, n - m, &suffix) {
            assert(path@.skip(n - m) =~= path@.subrange(n - m, n as int));
            crate::strings::string_of(&path, 0, n - m)
        } else {
            proof {
                if m <= n {
                    assert(path@.skip(n - m) =~= path@.subrange(n - m, n as int));
                }
            }
            str_to_string(to.as_str())
        }
    } else {
        str_to_string(to.as_str())
    };
    match style {
        LinkStyle::AbsoluteWikiLink | LinkStyle::MarkdownLink => full,
        LinkStyle::ShortestWikiLink => {
            if competitors <= 1 {
                if is_note {
                    str_to_string(to.stem())
                } else {
                    str_to_string(to.file_name())
                }
            } else {
                full
            }
        },
    }
}

/// Is `t` one of `targets`, ignoring ASCII case?
pub open spec fn names_target(targets: Seq<String>, t: Seq<char>) -> bool {
    exists|i: int| 0 <= i < targets.len() && eq_ic((#[trigger] targets[i])@, t)
}

fn matches_any(targets: &[String], t: &String) -> (r: bool)
    ensures
        r == names_target(targets@, t@),
{
    let tv = to_chars(t.as_str());
    let mut i: usize = 0;
    while i < targets.len()
        invariant
            i <= targets@.len(),
            tv@ == t@,
            forall|k: int| 0 <= k < i ==> !eq_ic((#[trigger] targets@[k])@, t@),
        decreases targets@.len() - i,
    {
        if eq_ignore_ascii_case(&to_chars(targets[i].as_str()), &tv) {
            return true;
        }
        i = i + 1;
    }
    false
}

pub open spec fn wiki_kind(k: LinkKind) -> bool {
    k == LinkKind::WikiLink || k == LinkKind::Embed
}

pub open spec fn markdown_kind(k: LinkKind) -> bool {
    k == LinkKind::Markdown || k == LinkKind::MarkdownImage
}

/// Which links of a note are rewritten: those of the given family whose
/// target is one of `targets`.
pub open spec fn picked(ls: Seq<LinkView>, targets: Seq<String>, wiki: bool) -> Seq<bool> {
    Seq::new(
        ls.len(),
        |i: int| (if wiki { wiki_kind(ls[i].kind) } else { markdown_kind(ls[i].kind) }) && names_target(targets, ls[i].target),
    )
}

/// The edits a rename makes to one note: wiki links and embeds get the new
/// wiki target, Markdown links and images the new Markdown target.
pub open spec fn rename_edits(s: Seq<char>, targets: Seq<String>, wiki_target: Seq<char>, md_target: Seq<char>) -> Seq<EditView> {
    let ls = parsed_links(s, ParserOptions::default_spec());
    chosen_edits(ls, picked(ls, targets, true), wiki_target) + chosen_edits(ls, picked(ls, targets, false), md_target)
}

/// Rewrite the links in one file's source. `targets` is the set of
/// link-target strings that resolved to the renamed file, taken from the
/// index, so a same-named but differently-resolved link stays untouched.
pub fn rewrite_source(source: &str, targets: &[String], new_wiki_target: &str, new_markdown_target: &str) -> (r: Result<String>)
    ensures
        match applied(source@, rename_edits(source@, targets@, new_wiki_target@, new_markdown_target@)) {
            Ok(t) => r matches Ok(x) && x@ == t,
            Err(m) => r matches Err(CoreError::Refused { operation, reason }) && operation@ == "update links"@ && reason@ == m,
        },
{
    let transformer = MarkdownTransformer::new();
    let ghost ls = parsed_links(source@, ParserOptions::default_spec());
    let wiki_pick = |link: &Link| -> (b: bool)
        ensures
            b == (wiki_kind(link.kind) && names_target(targets@, link.target@)),
        { matches!(link.kind, LinkKind::WikiLink | LinkKind::Embed) && matches_any(targets, &link.target) };
    let md_pick = |link: &Link| -> (b: bool)
        ensures
            b == (markdown_kind(link.kind) && names_target(targets@, link.target@)),
        { matches!(link.kind, LinkKind::Markdown | LinkKind::MarkdownImage) && matches_any(targets, &link.target) };
    let mut edits = transformer.retarget_links(source, wiki_pick, new_wiki_target);
    let ghost first = edits@;
    proof {
        let (l1, c1) = choose|l1: Seq<Link>, c1: Seq<bool>|
            crate::markdown::scanner::links_view(l1) == parsed_links(source@, transformer.opts()) && c1.len() == l1.len()
                && (forall|i: int| 0 <= i < l1.len() && l1[i].kind != LinkKind::External
                    ==> #[trigger] wiki_pick.ensures((&l1[i],), c1[i]))
                && edits_view(first) == chosen_edits(crate::markdown::scanner::links_view(l1), c1, new_wiki_target@);
        assert forall|k: int| 0 <= k < ls.len() && ls[k].kind != LinkKind::External implies c1[k] == picked(ls, targets@, true)[k] by {
            assert(ls[k] == l1[k]@);
            assert(wiki_pick.ensures((&l1[k],), c1[k]));
        }
        lemma_chosen_edits_internal(ls, c1, picked(ls, targets@, true), new_wiki_target@);
    }
    let mut more = transformer.retarget_links(source, md_pick, new_markdown_target);
    let ghost second = more@;
    proof {
        let (l2, c2) = choose|l2: Seq<Link>, c2: Seq<bool>|
            crate::markdown::scanner::links_view(l2) == parsed_links(source@, transformer.opts()) && c2.len() == l2.len()
                && (forall|i: int| 0 <= i < l2.len() && l2[i].kind != LinkKind::External
                    ==> #[trigger] md_pick.ensures((&l2[i],), c2[i]))
                && edits_view(second) == chosen_edits(crate::markdown::scanner::links_view(l2), c2, new_markdown_target@);
        assert forall|k: int| 0 <= k < ls.len() && ls[k].kind != LinkKind::External implies c2[k] == picked(ls, targets@, false)[k] by {
            assert(ls[k] == l2[k]@);
            assert(md_pick.ensures((&l2[k],), c2[k]));
        }
        lemma_chosen_edits_internal(ls, c2, picked(ls, targets@, false), new_markdown_target@);
    }
    edits.append(&mut more);
    assert(edits_view(edits@) =~= edits_view(first) + edits_view(second));
    assert forall|k: int| 0 <= k < edits@.len() implies (#[trigger] edits@[k]).range.start <= edits@[k].range.end by {
        if k >= first.len() {
            assert(edits@[k] == second[k - first.len()]);
        } else {
            assert(edits@[k] == first[k]);
        }
    }
    proof {
        lemma_forward_edits_apply(source@, edits@);
    }
    match MarkdownTransformer::apply(source, edits) {
        Ok(t) => Ok(t),
        Err(message) => Err(CoreError::Refused { operation: str_to_string("update links"), reason: message }),
    }
}

/// A note that names none of the targets is left exactly as it is: only
/// links that pointed at the renamed note are ever rewritten.
pub proof fn law_a_note_naming_no_target_is_unchanged(
    s: Seq<char>,
    targets: Seq<String>,
    wiki_target: Seq<char>,
    md_target: Seq<char>,
)
    requires
        forall|i: int|
            0 <= i < parsed_links(s, ParserOptions::default_spec()).len() ==> !names_target(
                targets,
                (#[trigger] parsed_links(s, ParserOptions::default_spec())[i]).target,
            ),
    ensures
        applied(s, rename_edits(s, targets, wiki_target, md_target)) == Ok::<Seq<char>, Seq<char>>(s),
{
    let ls = parsed_links(s, ParserOptions::default_spec());
    crate::markdown::transform::lemma_nothing_chosen(ls, picked(ls, targets, true), wiki_target);
    crate::markdown::transform::lemma_nothing_chosen(ls, picked(ls, targets, false), md_target);
    assert(rename_edits(s, targets, wiki_target, md_target) =~= Seq::<EditView>::empty());
    crate::markdown::transform::law_no_edits_leave_the_text_as_it_is(s);
}

/// Renaming rewrites every link of a note that names the renamed file,
/// whatever its kind: a wiki link or an embed gets the new wiki target, a
/// Markdown link or a Markdown image the new Markdown target, each edit
/// replacing exactly the link's bytes. (A link whose text would not change
/// needs no edit; an external URL is never touched.)
pub proof fn law_every_link_naming_the_file_is_rewritten(
    s: Seq<char>,
    targets: Seq<String>,
    wiki_target: Seq<char>,
    md_target: Seq<char>,
    i: int,
    j: int,
)
    requires
        0 <= i < parsed_links(s, ParserOptions::default_spec()).len(),
        0 <= j < targets.len(),
        targets[j]@ == parsed_links(s, ParserOptions::default_spec())[i].target,
    ensures
        ({
            let l = parsed_links(s, ParserOptions::default_spec())[i];
            let edits = rename_edits(s, targets, wiki_target, md_target);
            &&& (l.kind == LinkKind::WikiLink || l.kind == LinkKind::Embed) ==> match retarget_edit(l, wiki_target) {
                Some(e) => edits.contains(e) && e.start == l.byte_start && e.end == l.byte_end,
                None => true,
            }
            &&& (l.kind == LinkKind::Markdown || l.kind == LinkKind::MarkdownImage) ==> match retarget_edit(l, md_target) {
                Some(e) => edits.contains(e) && e.start == l.byte_start && e.end == l.byte_end,
                None => true,
            }
        }),
{
    let ls = parsed_links(s, ParserOptions::default_spec());
    let l = ls[i];
    assert(names_target(targets, l.target)) by {
        assert(eq_ic(targets[j]@, l.target));
    }
    let wiki = chosen_edits(ls, picked(ls, targets, true), wiki_target);
    let md = chosen_edits(ls, picked(ls, targets, false), md_target);
    let edits = rename_edits(s, targets, wiki_target, md_target);
    assert(edits == wiki + md);
    if l.kind == LinkKind::WikiLink || l.kind == LinkKind::Embed {
        if retarget_edit(l, wiki_target) is Some {
            lemma_chosen_edit_present(ls, picked(ls, targets, true), wiki_target, i);
            let e = retarget_edit(l, wiki_target)->Some_0;
            let k = choose|k: int| 0 <= k < wiki.len() && wiki[k] == e;
            assert(edits[k] == wiki[k]);
        }
    }
    if l.kind == LinkKind::Markdown || l.kind == LinkKind::MarkdownImage {
        if retarget_edit(l, md_target) is Some {
            lemma_chosen_edit_present(ls, picked(ls, targets, false), md_target, i);
            let e = retarget_edit(l, md_target)->Some_0;
            let k = choose|k: int| 0 <= k < md.len() && md[k] == e;
            assert(edits[wiki.len() + k] == md[k]);
        }
    }
}

} // verus!
