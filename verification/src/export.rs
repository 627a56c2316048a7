//! Export and import: turning notes into something a person without the app
//! can read, and bringing files authored elsewhere into the vault.
use vstd::prelude::*;
use crate::markdown::parser::ParserOptions;
use crate::markdown::render::RenderOptions;
use crate::strings::{chars_eq, clone_string, push_str, str_to_string, to_chars};
use crate::index::indexer::{contains_path, holds_path, keys_view, views};
use crate::model::{Link, LinkKind};
use crate::vault::path::{
    extension_of, file_name_of, join_spec, parent_of, sanitize_segment, sanitize_spec, stem_of, VaultPath,
};

verus! {

#[derive(Debug, Clone, Copy, PartialEq, Eq, Structural)]
pub enum ExportFormat {
    Markdown,
    Html,
}

#[derive(Debug, Clone)]
pub struct ExportOptions {
    pub format: ExportFormat,
    /// Follow links and export what they point at too.
    pub include_linked_notes: bool,
    /// Copy referenced images and other attachments alongside the output.
    pub include_attachments: bool,
    pub include_properties: bool,
    /// How many hops of linked notes to follow.
    pub depth: usize,
}

impl Default for ExportOptions {
    fn default() -> (r: ExportOptions)
        ensures
            r.format == ExportFormat::Html,
            !r.include_linked_notes,
            r.include_attachments,
            r.include_properties,
            r.depth == 1,
    {
        ExportOptions {
            format: ExportFormat::Html,
            include_linked_notes: false,
            include_attachments: true,
            include_properties: true,
            depth: 1,
        }
    }
}

/// One file the export produced.
#[derive(Debug)]
pub struct ExportedFile {
    /// Path relative to the export root.
    pub relative_path: String,
    pub source: Option<VaultPath>,
}

#[derive(Debug)]
pub struct ExportResult {
    pub files: Vec<ExportedFile>,
    /// Links that pointed at nothing, so the caller can report them instead of
    /// producing a page full of dead anchors without saying so.
    pub unresolved_links: Vec<String>,
}

/// A file offered for import.
#[derive(Debug)]
pub struct ImportItem {
    /// Where it will land in the vault.
    pub target: VaultPath,
    /// The name it had, when sanitising changed it.
    pub original_name: Option<String>,
}

#[derive(Debug)]
pub struct ImportResult {
    pub imported: Vec<ImportItem>,
    pub skipped: Vec<String>,
}

/// Where an imported file named `name` lands in `folder`: under its name
/// made safe for every filesystem, with the name it had kept when that
/// changed it. `None` when no valid path results; the file is skipped.
pub fn import_target(folder: &VaultPath, name: &String) -> (r: Option<(VaultPath, Option<String>)>)
    ensures
        match join_spec(folder@, sanitize_spec(name@)) {
            Ok(t) => r matches Some((p, original)) && p@ == t && match original {
                Some(o) => o@ == name@ && sanitize_spec(name@) != name@,
                None => sanitize_spec(name@) == name@,
            },
            Err(_) => r is None,
        },
{
    let safe = sanitize_segment(name.as_str());
    let original = if chars_eq(&to_chars(safe.as_str()), &to_chars(name.as_str())) {
        None
    } else {
        Some(clone_string(name))
    };
    match folder.join(safe.as_str()) {
        Ok(p) => Some((p, original)),
        Err(_) => None,
    }
}

/// A path that names a note: its extension, in any case, is `md` or
/// `markdown`.
pub open spec fn is_note_path(p: Seq<char>) -> bool {
    extension_of(file_name_of(p)) == Some("md"@) || extension_of(file_name_of(p)) == Some("markdown"@)
}

/// The export's walk as values.
pub struct SelectionView {
    /// Notes to export, in the order they were reached.
    pub selected: Seq<Seq<char>>,
    /// Non-note files linked from them, in the order first seen.
    pub attachments: Seq<Seq<char>>,
    /// The notes of the current hop, and how many of them were taken.
    pub frontier: Seq<Seq<char>>,
    pub pos: int,
    /// Notes found for the following hop.
    pub next: Seq<Seq<char>>,
    pub hop: int,
    pub hops: int,
    pub include_attachments: bool,
}

/// What one outgoing link adds: a note joins the next hop while hops remain
/// and it is not exported yet; any other file joins the attachments, once,
/// when they are wanted. A link to nothing adds nothing.
pub open spec fn take_target(
    selected: Seq<Seq<char>>,
    follow: bool,
    include_attachments: bool,
    acc: (Seq<Seq<char>>, Seq<Seq<char>>),
    t: Option<Seq<char>>,
) -> (Seq<Seq<char>>, Seq<Seq<char>>) {
    match t {
        None => acc,
        Some(p) => if is_note_path(p) {
            if follow && !contains_path(selected, p) {
                (acc.0.push(p), acc.1)
            } else {
                acc
            }
        } else if include_attachments && !contains_path(acc.1, p) {
            (acc.0, acc.1.push(p))
        } else {
            acc
        },
    }
}

/// `take_target` over a note's outgoing links, in order.
pub open spec fn take_targets(
    selected: Seq<Seq<char>>,
    follow: bool,
    include_attachments: bool,
    acc: (Seq<Seq<char>>, Seq<Seq<char>>),
    ts: Seq<Option<Seq<char>>>,
) -> (Seq<Seq<char>>, Seq<Seq<char>>)
    decreases ts.len(),
{
    if ts.len() == 0 {
        acc
    } else {
        take_target(
            selected,
            follow,
            include_attachments,
            take_targets(selected, follow, include_attachments, acc, ts.drop_last()),
            ts.last(),
        )
    }
}

/// The next note of the walk: the current hop's notes in order, skipping
/// those already exported; when they are spent, the next hop's, while there
/// are any and hops remain. `None` when the walk is over.
pub open spec fn advance(v: SelectionView) -> (SelectionView, Option<Seq<char>>)
    decreases (if v.hop <= v.hops { v.hops - v.hop } else { 0 }), (if v.pos <= v.frontier.len() {
        v.frontier.len() - v.pos
    } else {
        0
    }),
{
    if 0 <= v.pos < v.frontier.len() {
        let p = v.frontier[v.pos];
        if contains_path(v.selected, p) {
            advance(SelectionView { pos: v.pos + 1, ..v })
        } else {
            (SelectionView { pos: v.pos + 1, selected: v.selected.push(p), ..v }, Some(p))
        }
    } else if v.next.len() == 0 || v.hop >= v.hops || v.hop < 0 {
        (v, None)
    } else {
        advance(
            SelectionView { frontier: v.next, pos: 0, next: Seq::<Seq<char>>::empty(), hop: v.hop + 1, ..v },
        )
    }
}

/// Which notes and attachments an export takes: the roots, then, hop by hop
/// up to the depth asked for, the notes they link to, each once; and the
/// non-note files linked from any of them. The walk asks for one note's
/// links at a time, so the host looks them up between steps.
pub struct ExportSelection {
    selected: Vec<VaultPath>,
    attachments: Vec<VaultPath>,
    frontier: Vec<VaultPath>,
    pos: usize,
    next: Vec<VaultPath>,
    hop: usize,
    hops: usize,
    include_attachments: bool,
}

impl View for ExportSelection {
    type V = SelectionView;

    closed spec fn view(&self) -> SelectionView {
        SelectionView {
            selected: views(self.selected@),
            attachments: views(self.attachments@),
            frontier: views(self.frontier@),
            pos: self.pos as int,
            next: views(self.next@),
            hop: self.hop as int,
            hops: self.hops as int,
            include_attachments: self.include_attachments,
        }
    }
}

/// The walk's invariant: no note is exported twice and no attachment listed
/// twice, attachments are never notes, and only notes wait for a later hop,
/// which is never past the last.
pub open spec fn selection_wf(v: SelectionView) -> bool {
    &&& 0 <= v.pos <= v.frontier.len()
    &&& 0 <= v.hop <= v.hops
    &&& v.next.len() > 0 ==> v.hop < v.hops
    &&& v.selected.no_duplicates()
    &&& v.attachments.no_duplicates()
    &&& forall|i: int| 0 <= i < v.attachments.len() ==> !is_note_path(#[trigger] v.attachments[i])
    &&& forall|i: int| 0 <= i < v.next.len() ==> is_note_path(#[trigger] v.next[i])
}

/// Without hops left to follow, a note's links add no note to the walk.
pub proof fn law_links_are_not_followed_past_the_depth(
    selected: Seq<Seq<char>>,
    include_attachments: bool,
    acc: (Seq<Seq<char>>, Seq<Seq<char>>),
    ts: Seq<Option<Seq<char>>>,
)
    ensures
        take_targets(selected, false, include_attachments, acc, ts).0 == acc.0,
    decreases ts.len(),
{
    if ts.len() > 0 {
        law_links_are_not_followed_past_the_depth(selected, include_attachments, acc, ts.drop_last());
    }
}

/// When attachments are not wanted, links add none.
pub proof fn law_attachments_only_when_asked(
    selected: Seq<Seq<char>>,
    follow: bool,
    acc: (Seq<Seq<char>>, Seq<Seq<char>>),
    ts: Seq<Option<Seq<char>>>,
)
    ensures
        take_targets(selected, follow, false, acc, ts).1 == acc.1,
    decreases ts.len(),
{
    if ts.len() > 0 {
        law_attachments_only_when_asked(selected, follow, acc, ts.drop_last());
    }
}

pub open spec fn target_views(ts: Seq<Option<VaultPath>>) -> Seq<Option<Seq<char>>> {
    ts.map_values(|t: Option<VaultPath>| match t {
        Some(p) => Some(p@),
        None => None,
    })
}

fn copy_paths(ps: &Vec<VaultPath>) -> (r: Vec<VaultPath>)
    ensures
        views(r@) == views(ps@),
{
    let mut out: Vec<VaultPath> = Vec::new();
    let mut i: usize = 0;
    while i < ps.len()
        invariant
            i <= ps@.len(),
            out@.len() == i,
            forall|k: int| 0 <= k < i ==> (#[trigger] out@[k])@ == ps@[k]@,
        decreases ps@.len() - i,
    {
        out.push(ps[i].clone());
        i = i + 1;
    }
    assert(views(out@) =~= views(ps@));
    out
}

/// Is `p` a note, by its extension?
fn names_note(p: &VaultPath) -> (r: bool)
    ensures
        r == is_note_path(p@),
{
    match p.extension() {
        Some(e) => {
            let v = to_chars(e.as_str());
            chars_eq(&v, &to_chars("md")) || chars_eq(&v, &to_chars("markdown"))
        },
        None => false,
    }
}

impl ExportSelection {
    /// The walk before its first step: the roots make up the first hop.
    /// Linked notes are followed `depth` hops only when asked for.
    pub fn new(roots: &Vec<VaultPath>, options: &ExportOptions) -> (r: ExportSelection)
        ensures
            r@ == (SelectionView {
                selected: Seq::<Seq<char>>::empty(),
                attachments: Seq::<Seq<char>>::empty(),
                frontier: views(roots@),
                pos: 0,
                next: Seq::<Seq<char>>::empty(),
                hop: 0,
                hops: if options.include_linked_notes { options.depth as int } else { 0 },
                include_attachments: options.include_attachments,
            }),
            selection_wf(r@),
    {
        let r = ExportSelection {
            selected: Vec::new(),
            attachments: Vec::new(),
            frontier: copy_paths(roots),
            pos: 0,
            next: Vec::new(),
            hop: 0,
            hops: if options.include_linked_notes { options.depth } else { 0 },
            include_attachments: options.include_attachments,
        };
        assert(views(r.selected@) =~= Seq::<Seq<char>>::empty());
        assert(views(r.next@) =~= Seq::<Seq<char>>::empty());
        r
    }

    /// The next note to export (see `advance`). The host answers with its
    /// outgoing links through `record_links` before asking again.
    pub fn next_note(&mut self) -> (r: Option<VaultPath>)
        requires
            selection_wf(old(self)@),
        ensures
            final(self)@ == advance(old(self)@).0,
            advance(old(self)@).1 == (match r {
                Some(p) => Some(p@),
                None => None::<Seq<char>>,
            }),
            selection_wf(final(self)@),
    {
        loop
            invariant
                selection_wf(self@),
                advance(self@) == advance(old(self)@),
            decreases self.hops - self.hop, self.frontier@.len() - self.pos,
        {
            let ghost v = self@;
            if self.pos < self.frontier.len() {
                let p = self.frontier[self.pos].clone();
                assert(p@ == v.frontier[v.pos]);
                if holds_path(&self.selected, &p) {
                    self.pos = self.pos + 1;
                    assert(self@ == SelectionView { pos: v.pos + 1, ..v });
                } else {
                    self.pos = self.pos + 1;
                    self.selected.push(p.clone());
                    assert(views(self.selected@) =~= v.selected.push(p@));
                    assert(self@ == SelectionView { pos: v.pos + 1, selected: v.selected.push(p@), ..v });
                    return Some(p);
                }
            } else if self.next.len() == 0 || self.hop >= self.hops {
                return None;
            } else {
                let mut fresh: Vec<VaultPath> = Vec::new();
                std::mem::swap(&mut self.next, &mut fresh);
                self.frontier = fresh;
                self.pos = 0;
                self.hop = self.hop + 1;
                assert(views(self.next@) =~= Seq::<Seq<char>>::empty());
                assert(self@ == SelectionView {
                    frontier: v.next,
                    pos: 0,
                    next: Seq::<Seq<char>>::empty(),
                    hop: v.hop + 1,
                    ..v
                });
            }
        }
    }

    /// Take in the outgoing links of the note `next_note` just gave, in
    /// order; a link that resolved to nothing is `None`.
    pub fn record_links(&mut self, targets: &Vec<Option<VaultPath>>)
        requires
            selection_wf(old(self)@),
        ensures
            ({
                let o = old(self)@;
                let t = take_targets(
                    o.selected,
                    o.hop < o.hops,
                    o.include_attachments,
                    (o.next, o.attachments),
                    target_views(targets@),
                );
                final(self)@ == SelectionView { next: t.0, attachments: t.1, ..o }
            }),
            selection_wf(final(self)@),
    {
        let ghost o = self@;
        let ghost tv = target_views(targets@);
        let follow = self.hop < self.hops;
        let mut i: usize = 0;
        while i < targets.len()
            invariant
                i <= targets@.len(),
                tv == target_views(targets@),
                follow == (o.hop < o.hops),
                selection_wf(self@),
                self@ == (SelectionView { next: self@.next, attachments: self@.attachments, ..o }),
                (self@.next, self@.attachments) == take_targets(
                    o.selected,
                    follow,
                    o.include_attachments,
                    (o.next, o.attachments),
                    tv.take(i as int),
                ),
            decreases targets@.len() - i,
        {
            assert(tv.take(i + 1).drop_last() =~= tv.take(i as int));
            assert(tv.take(i + 1).last() == tv[i as int]);
            let ghost before = self@;
            match &targets[i] {
                None => {},
                Some(p) => {
                    if names_note(p) {
                        if follow && !holds_path(&self.selected, p) {
                            self.next.push(p.clone());
                            assert(views(self.next@) =~= before.next.push(p@));
                        }
                    } else if self.include_attachments && !holds_path(&self.attachments, p) {
                        self.attachments.push(p.clone());
                        assert(views(self.attachments@) =~= before.attachments.push(p@));
                    }
                },
            }
            i = i + 1;
        }
        assert(tv.take(i as int) =~= tv);
    }

    /// The notes to export, in the order they were reached.
    pub fn selected(&self) -> (r: &Vec<VaultPath>)
        ensures
            views(r@) == self@.selected,
    {
        &self.selected
    }

    /// The attachments to copy, in the order first linked.
    pub fn attachments(&self) -> (r: &Vec<VaultPath>)
        ensures
            views(r@) == self@.attachments,
    {
        &self.attachments
    }
}

/// The link targets an export checks for a destination: every link's but
/// an external link's or an empty one, in order.
pub open spec fn checked_targets(ls: Seq<Link>) -> Seq<Seq<char>>
    decreases ls.len(),
{
    if ls.len() == 0 {
        Seq::<Seq<char>>::empty()
    } else {
        let l = ls.last();
        if l.kind == LinkKind::External || l.target@.len() == 0 {
            checked_targets(ls.drop_last())
        } else {
            checked_targets(ls.drop_last()).push(l.target@)
        }
    }
}

/// The targets of a note's links that an export checks (see
/// `checked_targets`).
pub fn targets_to_check(links: &Vec<Link>) -> (r: Vec<String>)
    ensures
        keys_view(r@) == checked_targets(links@),
{
    let mut out: Vec<String> = Vec::new();
    let mut i: usize = 0;
    assert(keys_view(out@) =~= checked_targets(links@.take(0)));
    while i < links.len()
        invariant
            i <= links@.len(),
            keys_view(out@) == checked_targets(links@.take(i as int)),
        decreases links@.len() - i,
    {
        assert(links@.take(i + 1).drop_last() =~= links@.take(i as int));
        assert(links@.take(i + 1).last() == links@[i as int]);
        let l = &links[i];
        if !(l.kind == LinkKind::External || to_chars(l.target.as_str()).len() == 0) {
            let ghost before = keys_view(out@);
            out.push(clone_string(&l.target));
            assert(keys_view(out@) =~= before.push(l.target@));
        }
        i = i + 1;
    }
    assert(links@.take(i as int) =~= links@);
    out
}

/// Does a link target name one of the exported files?
pub fn names_exported_file(resolutions: &Vec<(String, VaultPath)>, target: &String) -> (r: bool)
    ensures
        r == exists|k: int| 0 <= k < resolutions@.len() && (#[trigger] resolutions@[k]).0@ == target@,
{
    let t = to_chars(target.as_str());
    let mut i: usize = 0;
    while i < resolutions.len()
        invariant
            i <= resolutions@.len(),
            t@ == target@,
            forall|k: int| 0 <= k < i ==> (#[trigger] resolutions@[k]).0@ != target@,
        decreases resolutions@.len() - i,
    {
        if chars_eq(&to_chars(resolutions[i].0.as_str()), &t) {
            return true;
        }
        i = i + 1;
    }
    false
}

/// Report a link target that leads nowhere, once.
pub fn note_unresolved(unresolved: &mut Vec<String>, target: &String)
    ensures
        keys_view(final(unresolved)@) == (if contains_path(keys_view(old(unresolved)@), target@) {
            keys_view(old(unresolved)@)
        } else {
            keys_view(old(unresolved)@).push(target@)
        }),
{
    let t = to_chars(target.as_str());
    let mut i: usize = 0;
    while i < unresolved.len()
        invariant
            i <= unresolved@.len(),
            t@ == target@,
            forall|k: int| 0 <= k < i ==> (#[trigger] unresolved@[k])@ != target@,
        decreases unresolved@.len() - i,
    {
        if chars_eq(&to_chars(unresolved[i].as_str()), &t) {
            assert(keys_view(unresolved@)[i as int] == target@);
            return;
        }
        i = i + 1;
    }
    assert forall|k: int| 0 <= k < keys_view(unresolved@).len() implies keys_view(unresolved@)[k] != target@ by {
        assert(keys_view(unresolved@)[k] == unresolved@[k]@);
    }
    let ghost before = keys_view(unresolved@);
    unresolved.push(clone_string(target));
    assert(keys_view(unresolved@) =~= before.push(target@));
}

/// The names each exported file answers to in links between exported notes:
/// its path, its stem and its file name, in that order for each file.
pub open spec fn export_names(paths: Seq<VaultPath>) -> Seq<(Seq<char>, Seq<char>)>
    decreases paths.len(),
{
    if paths.len() == 0 {
        Seq::<(Seq<char>, Seq<char>)>::empty()
    } else {
        let p = paths.last()@;
        export_names(paths.drop_last()) + seq![(p, p), (stem_of(file_name_of(p)), p), (file_name_of(p), p)]
    }
}

/// What each link target resolves to inside an export: every exported note
/// and attachment, by path, stem and file name, so links between them point
/// at the files actually being written. A later name wins.
pub fn export_resolutions(selected: &Vec<VaultPath>, attachments: &Vec<VaultPath>) -> (r: Vec<(String, VaultPath)>)
    ensures
        pairs_of(r@) == export_names(selected@ + attachments@),
{
    let mut out: Vec<(String, VaultPath)> = Vec::new();
    let mut i: usize = 0;
    assert(selected@.take(0) =~= Seq::<VaultPath>::empty());
    assert(pairs_of(out@) =~= export_names(selected@.take(0)));
    while i < selected.len()
        invariant
            i <= selected@.len(),
            pairs_of(out@) == export_names(selected@.take(i as int)),
        decreases selected@.len() - i,
    {
        assert(selected@.take(i + 1).drop_last() =~= selected@.take(i as int));
        push_names(&mut out, &selected[i]);
        i = i + 1;
    }
    assert(selected@.take(i as int) =~= selected@);
    let mut j: usize = 0;
    assert(selected@ + attachments@.take(0) =~= selected@);
    while j < attachments.len()
        invariant
            j <= attachments@.len(),
            pairs_of(out@) == export_names(selected@ + attachments@.take(j as int)),
        decreases attachments@.len() - j,
    {
        assert((selected@ + attachments@.take(j + 1)).drop_last() =~= selected@ + attachments@.take(j as int));
        assert((selected@ + attachments@.take(j + 1)).last() == attachments@[j as int]);
        push_names(&mut out, &attachments[j]);
        j = j + 1;
    }
    assert(attachments@.take(j as int) =~= attachments@);
    out
}

pub open spec fn pairs_of(ps: Seq<(String, VaultPath)>) -> Seq<(Seq<char>, Seq<char>)> {
    ps.map_values(|x: (String, VaultPath)| (x.0@, x.1@))
}

fn push_names(out: &mut Vec<(String, VaultPath)>, path: &VaultPath)
    ensures
        pairs_of(final(out)@) == pairs_of(old(out)@) + seq![
            (path@, path@),
            (stem_of(file_name_of(path@)), path@),
            (file_name_of(path@), path@),
        ],
{
    let ghost before = pairs_of(out@);
    out.push((str_to_string(path.as_str()), path.clone()));
    out.push((str_to_string(path.stem()), path.clone()));
    out.push((str_to_string(path.file_name()), path.clone()));
    assert(pairs_of(out@) =~= before + seq![
        (path@, path@),
        (stem_of(file_name_of(path@)), path@),
        (file_name_of(path@), path@),
    ]);
}

/// How an HTML export renders a note: a standalone page titled with the
/// note's title, links re-extensioned to `.html`, properties as asked.
pub fn html_render_options(include_properties: bool, title: &str) -> (r: RenderOptions)
    ensures
        r.parser == ParserOptions::default_spec(),
        r.include_properties == include_properties,
        r.standalone,
        r.document_title@ == title@,
        r.internal_link_extension matches Some(e) && e@ == "html"@,
{
    RenderOptions {
        parser: ParserOptions::default(),
        include_properties,
        standalone: true,
        document_title: str_to_string(title),
        internal_link_extension: Some(str_to_string("html")),
    }
}

/// Where an HTML export writes a note: its path with `.html` for its
/// extension, or `.html` appended where that is not a valid path.
pub open spec fn html_path_of(p: Seq<char>) -> Seq<char> {
    match join_spec(parent_of(p), stem_of(file_name_of(p)) + seq!['.'] + "html"@) {
        Ok(q) => q,
        Err(_) => p + ".html"@,
    }
}

pub fn html_export_path(path: &VaultPath) -> (r: String)
    ensures
        r@ == html_path_of(path@),
{
    match path.with_extension(Some("html")) {
        Ok(p) => str_to_string(p.as_str()),
        Err(_) => {
            let mut out = str_to_string(path.as_str());
            push_str(&mut out, ".html");
            out
        },
    }
}

} // verus!
