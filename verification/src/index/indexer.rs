//! The indexer's rules: what a scan skips, what it reports, and how it finds
//! names that collide on a case-insensitive filesystem.
use vstd::prelude::*;
use crate::error::Diagnostic;
use vstd::hash_map::StringHashMap;
use crate::strings::{chars_eq, lowercase, str_to_string, to_chars, to_lowercase};
use crate::vault::path::{file_name_of, stem_of, VaultPath, APP_DIR};

verus! {

/// What a scan skips.
#[derive(Debug)]
pub struct IgnoreRules {
    /// Folder names skipped at any depth.
    pub folder_names: Vec<String>,
    /// Skip entries whose name begins with a dot.
    pub skip_hidden: bool,
    /// Files larger than this are recorded but never read.
    pub max_parse_bytes: u64,
}

/// The prefix of a temporary file left by an interrupted atomic write.
pub open spec fn temp_prefix() -> Seq<char> {
    ".ie-tmp-"@
}

pub open spec fn starts_with(s: Seq<char>, p: Seq<char>) -> bool {
    p.len() <= s.len() && s.take(p.len() as int) == p
}

/// Is an entry with this name skipped (see `IgnoreRules::ignores`)?
pub open spec fn ignored_name(rules: IgnoreRules, name: Seq<char>) -> bool {
    (exists|i: int| 0 <= i < rules.folder_names@.len() && (#[trigger] rules.folder_names@[i])@ == name)
        || (rules.skip_hidden && name.len() > 0 && name[0] == '.')
        || starts_with(name, temp_prefix())
}

impl IgnoreRules {
    /// Is an entry with this name skipped: a listed folder name, a hidden
    /// name when hidden entries are skipped, or the leftover of an
    /// interrupted write?
    pub fn ignores(&self, name: &str) -> (r: bool)
        ensures
            r == ignored_name(*self, name@),
    {
        let v = to_chars(name);
        let mut i: usize = 0;
        while i < self.folder_names.len()
            invariant
                v@ == name@,
                i <= self.folder_names@.len(),
                forall|k: int| 0 <= k < i ==> (#[trigger] self.folder_names@[k])@ != name@,
            decreases self.folder_names@.len() - i,
        {
            if chars_eq(&to_chars(self.folder_names[i].as_str()), &v) {
                return true;
            }
            i = i + 1;
        }
        if self.skip_hidden && v.len() > 0 && v[0] == '.' {
            return true;
        }
        let prefix = to_chars(".ie-tmp-");
        let r = prefix.len() <= v.len() && crate::strings::starts_with_at(&v, 0, &prefix);
        proof {
            if prefix@.len() <= v@.len() {
                assert(v@.take(prefix@.len() as int) =~= v@.subrange(0, prefix@.len() as int));
            }
        }
        r
    }
}

impl Default for IgnoreRules {
    fn default() -> (r: IgnoreRules)
        ensures
            r.folder_names@.len() == 5,
            r.folder_names@[0]@ == APP_DIR@,
            r.folder_names@[1]@ == ".git"@,
            r.folder_names@[2]@ == ".obsidian"@,
            r.folder_names@[3]@ == "node_modules"@,
            r.folder_names@[4]@ == ".trash"@,
            r.skip_hidden,
            r.max_parse_bytes == 8 * 1024 * 1024,
    {
        IgnoreRules {
            folder_names: vec![
                str_to_string(APP_DIR),
                str_to_string(".git"),
                str_to_string(".obsidian"),
                str_to_string("node_modules"),
                str_to_string(".trash"),
            ],
            skip_hidden: true,
            max_parse_bytes: 8 * 1024 * 1024,
        }
    }
}

/// Progress during a long scan, so the UI can show something honest.
#[derive(Debug)]
pub struct IndexProgress {
    pub scanned: usize,
    pub indexed: usize,
    /// `None` until the walk has finished counting.
    pub total: Option<usize>,
    pub current: Option<VaultPath>,
}

/// The outcome of a scan.
#[derive(Debug)]
pub struct ScanReport {
    pub files_seen: usize,
    pub files_indexed: usize,
    /// Unchanged since the last scan, so not re-parsed.
    pub files_unchanged: usize,
    pub files_removed: usize,
    pub duration_ms: u64,
    pub diagnostics: Vec<Diagnostic>,
}

impl Default for ScanReport {
    fn default() -> (r: ScanReport)
        ensures
            r.files_seen == 0 && r.files_indexed == 0 && r.files_unchanged == 0 && r.files_removed == 0,
            r.duration_ms == 0,
            r.diagnostics@.len() == 0,
    {
        ScanReport {
            files_seen: 0,
            files_indexed: 0,
            files_unchanged: 0,
            files_removed: 0,
            duration_ms: 0,
            diagnostics: Vec::new(),
        }
    }
}

/// What changed as a result of a watcher batch, so the UI can refresh
/// exactly the panels that need it.
#[derive(Debug)]
pub struct EventOutcome {
    pub indexed: Vec<VaultPath>,
    pub removed: Vec<VaultPath>,
    /// The backend lost events; only a full rescan can be trusted now.
    pub needs_full_scan: bool,
    pub diagnostics: Vec<Diagnostic>,
}

impl EventOutcome {
    pub fn is_empty(&self) -> (r: bool)
        ensures
            r == (self.indexed@.len() == 0 && self.removed@.len() == 0 && !self.needs_full_scan),
    {
        self.indexed.len() == 0 && self.removed.len() == 0 && !self.needs_full_scan
    }
}

/// The paths whose case-folded form is `key`, in order.
pub open spec fn with_fold(paths: Seq<Seq<char>>, key: Seq<char>) -> Seq<Seq<char>> {
    paths.filter(|p: Seq<char>| lowercase(p) == key)
}

pub open spec fn views(ps: Seq<VaultPath>) -> Seq<Seq<char>> {
    ps.map_values(|p: VaultPath| p@)
}

/// Group a set of paths by their case-folded form, to find collisions before
/// they are written rather than after: one group per fold shared by two or
/// more paths, each group holding those paths in order, groups in the order
/// their folds first occur.
pub fn group_by_fold(paths: &[VaultPath]) -> (r: Vec<(String, Vec<VaultPath>)>)
    ensures
        forall|g: int| #![trigger r@[g]] 0 <= g < r@.len() ==> {
            &&& views(r@[g].1@) == with_fold(views(paths@), r@[g].0@)
            &&& r@[g].1@.len() > 1
        },
        forall|g: int, h: int| 0 <= g < h < r@.len() ==> r@[g].0@ != r@[h].0@,
        forall|i: int| #![trigger paths@[i]] 0 <= i < paths@.len() ==> (
            with_fold(views(paths@), lowercase(paths@[i]@)).len() > 1
                <==> exists|g: int| 0 <= g < r@.len() && (#[trigger] r@[g]).0@ == lowercase(paths@[i]@)),
{
    let ghost pv = views(paths@);
    let n = paths.len();
    let mut folds: Vec<String> = Vec::new();
    let mut i: usize = 0;
    while i < n
        invariant
            n == paths@.len(),
            i <= n,
            folds@.len() == i,
            forall|k: int| #![trigger folds@[k]] 0 <= k < i ==> folds@[k]@ == lowercase(paths@[k]@),
        decreases n - i,
    {
        folds.push(paths[i].fold());
        i = i + 1;
    }
    let mut out: Vec<(String, Vec<VaultPath>)> = Vec::new();
    let mut i: usize = 0;
    while i < n
        invariant
            n == paths@.len(),
            pv == views(paths@),
            folds@.len() == n,
            i <= n,
            forall|k: int| #![trigger folds@[k]] 0 <= k < n ==> folds@[k]@ == lowercase(paths@[k]@),
            forall|g: int| #![trigger out@[g]] 0 <= g < out@.len() ==> {
                &&& views(out@[g].1@) == with_fold(pv, out@[g].0@)
                &&& out@[g].1@.len() > 1
                &&& exists|k: int| 0 <= k < i && (#[trigger] folds@[k])@ == out@[g].0@
            },
            forall|g: int, h: int| 0 <= g < h < out@.len() ==> out@[g].0@ != out@[h].0@,
            forall|k: int| #![trigger folds@[k]] 0 <= k < i ==> (
                with_fold(pv, folds@[k]@).len() > 1
                    <==> exists|g: int| 0 <= g < out@.len() && (#[trigger] out@[g]).0@ == folds@[k]@),
        decreases n - i,
    {
        let key = to_chars(folds[i].as_str());
        let ghost out0 = out@;
        // skip a fold already seen
        let mut seen = false;
        let mut k: usize = 0;
        while k < i
            invariant
                i < n,
                folds@.len() == n,
                k <= i,
                key@ == folds@[i as int]@,
                seen == exists|x: int| 0 <= x < k && (#[trigger] folds@[x])@ == key@,
            decreases i - k,
        {
            if chars_eq(&to_chars(folds[k].as_str()), &key) {
                seen = true;
            }
            k = k + 1;
        }
        if !seen {
            let mut group: Vec<VaultPath> = Vec::new();
            let mut j: usize = 0;
            while j < n
                invariant
                    n == paths@.len(),
                    pv == views(paths@),
                    folds@.len() == n,
                    j <= n,
                    forall|x: int| #![trigger folds@[x]] 0 <= x < n ==> folds@[x]@ == lowercase(paths@[x]@),
                    views(group@) == with_fold(pv.take(j as int), key@),
                decreases n - j,
            {
                proof {
                    assert(pv.take(j + 1).drop_last() =~= pv.take(j as int));
                    reveal(Seq::filter);
                }
                if chars_eq(&to_chars(folds[j].as_str()), &key) {
                    let ghost before = group@;
                    group.push(paths[j].clone());
                    assert(views(group@) =~= views(before).push(pv[j as int]));
                } else {
                }
                j = j + 1;
            }
            assert(pv.take(n as int) =~= pv);
            if group.len() > 1 {
                let ghost before = out@;
                out.push((crate::strings::string_of_all(&key), group));
                proof {
                    assert forall|g: int, h: int| 0 <= g < h < out@.len() implies out@[g].0@ != out@[h].0@ by {
                        if h == out@.len() - 1 {
                            let x = choose|x: int| 0 <= x < i && (#[trigger] folds@[x])@ == out@[g].0@;
                            assert(folds@[x]@ == before[g].0@);
                        }
                    }
                }
            }
        }
        proof {
            if seen {
                let x = choose|x: int| 0 <= x < i && (#[trigger] folds@[x])@ == key@;
                assert(folds@[x]@ == key@);
            } else {
                assert forall|g: int| 0 <= g < out0.len() implies (#[trigger] out0[g]).0@ != key@ by {
                    let x = choose|x: int| 0 <= x < i && (#[trigger] folds@[x])@ == out0[g].0@;
                    assert(folds@[x]@ == out0[g].0@);
                }
                assert forall|k: int| #![trigger folds@[k]] 0 <= k < i implies (
                    with_fold(pv, folds@[k]@).len() > 1
                        <==> exists|g: int| 0 <= g < out@.len() && (#[trigger] out@[g]).0@ == folds@[k]@) by {
                    if with_fold(pv, folds@[k]@).len() > 1 {
                        let g = choose|g: int| 0 <= g < out0.len() && (#[trigger] out0[g]).0@ == folds@[k]@;
                        assert(out@[g] == out0[g]);
                    }
                    if exists|g: int| 0 <= g < out@.len() && (#[trigger] out@[g]).0@ == folds@[k]@ {
                        let g = choose|g: int| 0 <= g < out@.len() && (#[trigger] out@[g]).0@ == folds@[k]@;
                        if g < out0.len() {
                            assert(out@[g] == out0[g]);
                        } else {
                            assert(folds@[k]@ != key@);
                        }
                    }
                }
                if out@.len() > out0.len() {
                    assert(out@[out0.len() as int].0@ == key@);
                }
            }
        }
        i = i + 1;
    }
    proof {
        assert forall|i: int| #![trigger paths@[i]] 0 <= i < paths@.len() implies (
            with_fold(views(paths@), lowercase(paths@[i]@)).len() > 1
                <==> exists|g: int| 0 <= g < out@.len() && (#[trigger] out@[g]).0@ == lowercase(paths@[i]@)) by {
            assert(folds@[i]@ == lowercase(paths@[i]@));
        }
    }
    out
}

// ---------------------------------------------------------------------------
// A watcher batch.

/// One change the file watcher reported, already mapped into the vault:
/// `None` where the path fell outside it, inside the application's folder,
/// or in an ignored folder.
#[derive(Debug)]
pub enum FsChange {
    Created(Option<VaultPath>),
    Modified(Option<VaultPath>),
    Deleted(Option<VaultPath>),
    Renamed { from: Option<VaultPath>, to: Option<VaultPath> },
    /// The backend lost events; only a full rescan can be trusted now.
    Rescan,
}

/// A batch sorted by what happened to each path, in the order reported.
#[derive(Debug)]
pub struct ChangeSet {
    pub created: Vec<VaultPath>,
    pub modified: Vec<VaultPath>,
    pub deleted: Vec<VaultPath>,
}

pub open spec fn some_view(p: Option<VaultPath>) -> Seq<Seq<char>> {
    match p {
        Some(v) => seq![v@],
        None => Seq::<Seq<char>>::empty(),
    }
}

/// The paths a batch created (a rename creates its new name).
pub open spec fn created_in(es: Seq<FsChange>) -> Seq<Seq<char>>
    decreases es.len(),
{
    if es.len() == 0 {
        Seq::<Seq<char>>::empty()
    } else {
        created_in(es.drop_last()) + match es.last() {
            FsChange::Created(p) => some_view(p),
            FsChange::Renamed { to, .. } => some_view(to),
            _ => Seq::<Seq<char>>::empty(),
        }
    }
}

pub open spec fn modified_in(es: Seq<FsChange>) -> Seq<Seq<char>>
    decreases es.len(),
{
    if es.len() == 0 {
        Seq::<Seq<char>>::empty()
    } else {
        modified_in(es.drop_last()) + match es.last() {
            FsChange::Modified(p) => some_view(p),
            _ => Seq::<Seq<char>>::empty(),
        }
    }
}

/// The paths a batch deleted (a rename deletes its old name).
pub open spec fn deleted_in(es: Seq<FsChange>) -> Seq<Seq<char>>
    decreases es.len(),
{
    if es.len() == 0 {
        Seq::<Seq<char>>::empty()
    } else {
        deleted_in(es.drop_last()) + match es.last() {
            FsChange::Deleted(p) => some_view(p),
            FsChange::Renamed { from, .. } => some_view(from),
            _ => Seq::<Seq<char>>::empty(),
        }
    }
}

pub open spec fn has_rescan(es: Seq<FsChange>) -> bool {
    exists|i: int| 0 <= i < es.len() && (#[trigger] es[i]) is Rescan
}

fn push_some(out: &mut Vec<VaultPath>, p: &Option<VaultPath>)
    ensures
        views(final(out)@) == views(old(out)@) + some_view(*p),
{
    let ghost before = views(out@);
    match p {
        Some(v) => {
            out.push(v.clone());
            assert(views(out@) =~= before + seq![v@]);
        },
        None => {
            assert(views(out@) =~= before + Seq::<Seq<char>>::empty());
        },
    }
}

/// Sort a watcher batch into the paths created, modified and deleted; no
/// set at all when the batch asks for a rescan.
pub fn sort_changes(events: &Vec<FsChange>) -> (r: Option<ChangeSet>)
    ensures
        match r {
            None => has_rescan(events@),
            Some(c) => !has_rescan(events@) && views(c.created@) == created_in(events@) && views(c.modified@)
                == modified_in(events@) && views(c.deleted@) == deleted_in(events@),
        },
{
    let mut created: Vec<VaultPath> = Vec::new();
    let mut modified: Vec<VaultPath> = Vec::new();
    let mut deleted: Vec<VaultPath> = Vec::new();
    let mut i: usize = 0;
    assert(events@.take(0) =~= Seq::<FsChange>::empty());
    assert(views(created@) =~= Seq::<Seq<char>>::empty());
    assert(views(modified@) =~= Seq::<Seq<char>>::empty());
    assert(views(deleted@) =~= Seq::<Seq<char>>::empty());
    while i < events.len()
        invariant
            i <= events@.len(),
            !has_rescan(events@.take(i as int)),
            views(created@) == created_in(events@.take(i as int)),
            views(modified@) == modified_in(events@.take(i as int)),
            views(deleted@) == deleted_in(events@.take(i as int)),
        decreases events@.len() - i,
    {
        let ghost pre = events@.take(i as int);
        assert(events@.take(i + 1).drop_last() =~= pre);
        assert(events@.take(i + 1).last() == events@[i as int]);
        match &events[i] {
            FsChange::Rescan => {
                assert(has_rescan(events@)) by {
                    assert(events@[i as int] is Rescan);
                }
                return None;
            },
            FsChange::Created(p) => {
                push_some(&mut created, p);
                assert(views(modified@) =~= modified_in(events@.take(i + 1)));
                assert(views(deleted@) =~= deleted_in(events@.take(i + 1)));
            },
            FsChange::Modified(p) => {
                push_some(&mut modified, p);
                assert(views(created@) =~= created_in(events@.take(i + 1)));
                assert(views(deleted@) =~= deleted_in(events@.take(i + 1)));
            },
            FsChange::Deleted(p) => {
                push_some(&mut deleted, p);
                assert(views(created@) =~= created_in(events@.take(i + 1)));
                assert(views(modified@) =~= modified_in(events@.take(i + 1)));
            },
            FsChange::Renamed { from, to } => {
                push_some(&mut deleted, from);
                push_some(&mut created, to);
                assert(views(modified@) =~= modified_in(events@.take(i + 1)));
            },
        }
        assert(!has_rescan(events@.take(i + 1))) by {
            if has_rescan(events@.take(i + 1)) {
                let k = choose|k: int| 0 <= k < i + 1 && (#[trigger] events@.take(i + 1)[k]) is Rescan;
                if k < i {
                    assert(pre[k] == events@.take(i + 1)[k]);
                }
            }
        }
        i = i + 1;
    }
    assert(events@.take(i as int) =~= events@);
    Some(ChangeSet { created, modified, deleted })
}

pub open spec fn contains_path(ps: Seq<Seq<char>>, p: Seq<char>) -> bool {
    exists|k: int| 0 <= k < ps.len() && ps[k] == p
}

/// The deletions a batch really makes: a delete followed by a create or a
/// write of the same path in one batch is a save, not a deletion.
pub open spec fn real_deletions(deleted: Seq<Seq<char>>, created: Seq<Seq<char>>, modified: Seq<Seq<char>>) -> Seq<
    Seq<char>,
>
    decreases deleted.len(),
{
    if deleted.len() == 0 {
        deleted
    } else {
        let rest = real_deletions(deleted.drop_last(), created, modified);
        let p = deleted.last();
        if contains_path(created, p) || contains_path(modified, p) {
            rest
        } else {
            rest.push(p)
        }
    }
}

/// The paths to re-index: every created path, then every modified one not
/// already listed.
pub open spec fn touched_paths(created: Seq<Seq<char>>, modified: Seq<Seq<char>>) -> Seq<Seq<char>>
    decreases modified.len(),
{
    if modified.len() == 0 {
        created
    } else {
        let rest = touched_paths(created, modified.drop_last());
        if contains_path(rest, modified.last()) {
            rest
        } else {
            rest.push(modified.last())
        }
    }
}

pub(crate) fn holds_path(ps: &Vec<VaultPath>, p: &VaultPath) -> (r: bool)
    ensures
        r == contains_path(views(ps@), p@),
{
    let target = to_chars(p.as_str());
    let mut i: usize = 0;
    while i < ps.len()
        invariant
            i <= ps@.len(),
            target@ == p@,
            forall|k: int| 0 <= k < i ==> (#[trigger] ps@[k])@ != p@,
        decreases ps@.len() - i,
    {
        if chars_eq(&to_chars(ps[i].as_str()), &target) {
            assert(views(ps@)[i as int] == p@);
            return true;
        }
        i = i + 1;
    }
    assert forall|k: int| 0 <= k < views(ps@).len() implies views(ps@)[k] != p@ by {
        assert(views(ps@)[k] == ps@[k]@);
    }
    false
}

/// The deletions to apply from a batch (see `real_deletions`).
pub fn deletions_to_apply(changes: &ChangeSet) -> (r: Vec<VaultPath>)
    ensures
        views(r@) == real_deletions(views(changes.deleted@), views(changes.created@), views(changes.modified@)),
{
    let ghost dv = views(changes.deleted@);
    let mut out: Vec<VaultPath> = Vec::new();
    let mut i: usize = 0;
    assert(dv.take(0) =~= Seq::<Seq<char>>::empty());
    assert(views(out@) =~= Seq::<Seq<char>>::empty());
    while i < changes.deleted.len()
        invariant
            dv == views(changes.deleted@),
            i <= dv.len(),
            views(out@) == real_deletions(dv.take(i as int), views(changes.created@), views(changes.modified@)),
        decreases dv.len() - i,
    {
        assert(dv.take(i + 1).drop_last() =~= dv.take(i as int));
        assert(dv.take(i + 1).last() == changes.deleted@[i as int]@);
        let p = &changes.deleted[i];
        if !holds_path(&changes.created, p) && !holds_path(&changes.modified, p) {
            let ghost before = views(out@);
            out.push(p.clone());
            assert(views(out@) =~= before.push(p@));
        }
        i = i + 1;
    }
    assert(dv.take(i as int) =~= dv);
    out
}

/// The paths to re-index from a batch (see `touched_paths`).
pub fn paths_to_index(changes: &ChangeSet) -> (r: Vec<VaultPath>)
    ensures
        views(r@) == touched_paths(views(changes.created@), views(changes.modified@)),
{
    let ghost mv = views(changes.modified@);
    let ghost cv = views(changes.created@);
    let mut out: Vec<VaultPath> = Vec::new();
    let mut k: usize = 0;
    while k < changes.created.len()
        invariant
            k <= changes.created@.len(),
            cv == views(changes.created@),
            views(out@) == cv.take(k as int),
        decreases changes.created@.len() - k,
    {
        let ghost before = views(out@);
        let c = changes.created[k].clone();
        assert(c@ == cv[k as int]);
        out.push(c);
        assert(views(out@) =~= before.push(cv[k as int]));
        assert(cv.take(k + 1) =~= cv.take(k as int).push(cv[k as int]));
        k = k + 1;
    }
    assert(cv.take(k as int) =~= cv);
    let mut i: usize = 0;
    assert(mv.take(0) =~= Seq::<Seq<char>>::empty());
    while i < changes.modified.len()
        invariant
            mv == views(changes.modified@),
            cv == views(changes.created@),
            i <= mv.len(),
            views(out@) == touched_paths(cv, mv.take(i as int)),
        decreases mv.len() - i,
    {
        assert(mv.take(i + 1).drop_last() =~= mv.take(i as int));
        assert(mv.take(i + 1).last() == changes.modified@[i as int]@);
        let p = &changes.modified[i];
        if !holds_path(&out, p) {
            let ghost before = views(out@);
            out.push(p.clone());
            assert(views(out@) =~= before.push(p@));
        }
        i = i + 1;
    }
    assert(mv.take(i as int) =~= mv);
    out
}

pub open spec fn keys_view(ks: Seq<String>) -> Seq<Seq<char>> {
    ks.map_values(|k: String| k@)
}

/// The keys pending links are re-resolved by when `p` appears or goes: its
/// stem and its file name, lowercased. A link's key is its target's last
/// segment lowercased, which names a file either way.
pub open spec fn path_key(p: Seq<char>, k: Seq<char>) -> bool {
    k == lowercase(stem_of(file_name_of(p))) || k == lowercase(file_name_of(p))
}

pub open spec fn no_repeats(ks: Seq<Seq<char>>) -> bool {
    forall|i: int, j: int| 0 <= i < j < ks.len() ==> ks[i] != ks[j]
}

/// The names whose pending links a batch should re-resolve: every name that
/// appeared or disappeared can change how existing links resolve, in both
/// directions. Each key once, in first-seen order.
pub fn reresolve_keys(touched: &Vec<VaultPath>, removed: &Vec<VaultPath>) -> (r: Vec<String>)
    ensures
        no_repeats(keys_view(r@)),
        forall|k: Seq<char>|
            #[trigger] contains_path(keys_view(r@), k) <==> (exists|i: int|
                0 <= i < touched@.len() && path_key((#[trigger] touched@[i])@, k)) || (exists|i: int|
                0 <= i < removed@.len() && path_key((#[trigger] removed@[i])@, k)),
{
    let mut seen: StringHashMap<bool> = StringHashMap::new();
    let mut out: Vec<String> = Vec::new();
    let mut i: usize = 0;
    while i < touched.len()
        invariant
            i <= touched@.len(),
            no_repeats(keys_view(out@)),
            forall|k: Seq<char>| #[trigger] seen@.contains_key(k) <==> contains_path(keys_view(out@), k),
            forall|k: Seq<char>|
                #[trigger] contains_path(keys_view(out@), k) <==> exists|j: int|
                    0 <= j < i && path_key((#[trigger] touched@[j])@, k),
        decreases touched@.len() - i,
    {
        let ghost ov = keys_view(out@);
        add_path_keys(&mut seen, &mut out, &touched[i]);
        assert forall|k: Seq<char>| #[trigger] contains_path(keys_view(out@), k) <==> exists|j: int|
            0 <= j < i + 1 && path_key((#[trigger] touched@[j])@, k) by {
            if path_key(touched@[i as int]@, k) {
                assert(path_key(touched@[i as int]@, k));
            }
        }
        i = i + 1;
    }
    let mut j: usize = 0;
    while j < removed.len()
        invariant
            j <= removed@.len(),
            no_repeats(keys_view(out@)),
            forall|k: Seq<char>| #[trigger] seen@.contains_key(k) <==> contains_path(keys_view(out@), k),
            forall|k: Seq<char>|
                #[trigger] contains_path(keys_view(out@), k) <==> (exists|i: int|
                    0 <= i < touched@.len() && path_key((#[trigger] touched@[i])@, k)) || (exists|m: int|
                    0 <= m < j && path_key((#[trigger] removed@[m])@, k)),
        decreases removed@.len() - j,
    {
        add_path_keys(&mut seen, &mut out, &removed[j]);
        assert forall|k: Seq<char>| #[trigger] contains_path(keys_view(out@), k) <==> (exists|i: int|
            0 <= i < touched@.len() && path_key((#[trigger] touched@[i])@, k)) || (exists|m: int|
            0 <= m < j + 1 && path_key((#[trigger] removed@[m])@, k)) by {
            if path_key(removed@[j as int]@, k) {
                assert(path_key(removed@[j as int]@, k));
            }
        }
        j = j + 1;
    }
    out
}

fn add_path_keys(seen: &mut StringHashMap<bool>, out: &mut Vec<String>, p: &VaultPath)
    requires
        no_repeats(keys_view(old(out)@)),
        forall|k: Seq<char>| #[trigger] old(seen)@.contains_key(k) <==> contains_path(keys_view(old(out)@), k),
    ensures
        no_repeats(keys_view(final(out)@)),
        forall|k: Seq<char>| #[trigger] final(seen)@.contains_key(k) <==> contains_path(keys_view(final(out)@), k),
        forall|k: Seq<char>|
            #[trigger] contains_path(keys_view(final(out)@), k) <==> (contains_path(keys_view(old(out)@), k)
                || path_key(p@, k)),
{
    add_key(seen, out, to_lowercase(p.stem()));
    add_key(seen, out, to_lowercase(p.file_name()));
}

fn add_key(seen: &mut StringHashMap<bool>, out: &mut Vec<String>, key: String)
    requires
        no_repeats(keys_view(old(out)@)),
        forall|k: Seq<char>| #[trigger] old(seen)@.contains_key(k) <==> contains_path(keys_view(old(out)@), k),
    ensures
        no_repeats(keys_view(final(out)@)),
        forall|k: Seq<char>| #[trigger] final(seen)@.contains_key(k) <==> contains_path(keys_view(final(out)@), k),
        forall|k: Seq<char>|
            #[trigger] contains_path(keys_view(final(out)@), k) <==> (contains_path(keys_view(old(out)@), k) || k
                == key@),
{
    let ghost ov = keys_view(out@);
    let ghost kv = key@;
    if !seen.contains_key(key.as_str()) {
        seen.insert(crate::strings::clone_string(&key), true);
        out.push(key);
        let ghost nv = keys_view(out@);
        assert(nv =~= ov.push(kv));
        assert forall|k: Seq<char>| #[trigger] contains_path(nv, k) <==> (contains_path(ov, k) || k == kv) by {
            if contains_path(ov, k) {
                let m = choose|m: int| 0 <= m < ov.len() && #[trigger] ov[m] == k;
                assert(nv[m] == k);
            }
            if k == kv {
                assert(nv[ov.len() as int] == k);
            }
            if contains_path(nv, k) && k != kv {
                let m = choose|m: int| 0 <= m < nv.len() && #[trigger] nv[m] == k;
                assert(ov[m] == k);
            }
        }
        assert forall|k: Seq<char>| #[trigger] seen@.contains_key(k) <==> contains_path(nv, k) by {}
    } else {
        assert(contains_path(ov, kv));
    }
}

pub open spec fn absent_from(ps: Seq<Seq<char>>) -> spec_fn(Seq<char>) -> bool {
    |s: Seq<char>| !contains_path(ps, s)
}

/// The indexed paths no longer on disk, in the order the index listed them:
/// what makes a scan converge when files were deleted while the app was
/// closed.
pub fn stale_paths(indexed: Vec<String>, on_disk: &Vec<VaultPath>) -> (r: Vec<VaultPath>)
    ensures
        views(r@) == keys_view(indexed@).filter(absent_from(views(on_disk@))),
{
    let mut disk: StringHashMap<bool> = StringHashMap::new();
    let mut k: usize = 0;
    while k < on_disk.len()
        invariant
            k <= on_disk@.len(),
            forall|s: Seq<char>| #[trigger] disk@.contains_key(s) <==> contains_path(views(on_disk@).take(k as int), s),
        decreases on_disk@.len() - k,
    {
        let ghost t0 = views(on_disk@).take(k as int);
        let ghost t1 = views(on_disk@).take(k + 1);
        assert(t1 =~= t0.push(on_disk@[k as int]@));
        disk.insert(str_to_string(on_disk[k].as_str()), true);
        assert forall|s: Seq<char>| #[trigger] disk@.contains_key(s) <==> contains_path(t1, s) by {
            if contains_path(t0, s) {
                let m = choose|m: int| 0 <= m < t0.len() && #[trigger] t0[m] == s;
                assert(t1[m] == s);
            }
            if s == on_disk@[k as int]@ {
                assert(t1[k as int] == s);
            }
            if contains_path(t1, s) && s != on_disk@[k as int]@ {
                let m = choose|m: int| 0 <= m < t1.len() && #[trigger] t1[m] == s;
                assert(t0[m] == s);
            }
        }
        k = k + 1;
    }
    assert(views(on_disk@).take(k as int) =~= views(on_disk@));
    let ghost iv = keys_view(indexed@);
    let ghost keep = absent_from(views(on_disk@));
    let mut rest = indexed;
    let mut out: Vec<VaultPath> = Vec::new();
    let ghost mut done: int = 0;
    assert(iv.take(0) =~= Seq::<Seq<char>>::empty());
    assert(iv.take(0).filter(keep) =~= Seq::<Seq<char>>::empty()) by {
        reveal(Seq::filter);
    }
    while rest.len() > 0
        invariant
            0 <= done <= iv.len(),
            keys_view(rest@) == iv.skip(done),
            forall|s: Seq<char>| #[trigger] disk@.contains_key(s) <==> contains_path(views(on_disk@), s),
            keep == absent_from(views(on_disk@)),
            views(out@) == iv.take(done).filter(keep),
        decreases rest@.len(),
    {
        let ghost before_rest = rest@;
        let path = rest.remove(0);
        assert(iv.skip(done).len() == before_rest.len());
        assert(before_rest.map_values(|s: String| s@)[0] == path@);
        assert(iv[done] == path@);
        assert(keys_view(rest@) =~= iv.skip(done + 1)) by {
            assert(keys_view(rest@) =~= before_rest.map_values(|s: String| s@).drop_first());
        }
        assert(iv.take(done + 1) =~= iv.take(done).push(path@));
        proof {
            iv.take(done).lemma_filter_push(path@, keep);
        }
        if !disk.contains_key(path.as_str()) {
            let ghost before = views(out@);
            out.push(VaultPath::from_indexed(path));
            assert(views(out@) =~= before.push(iv[done]));
        }
        proof {
            done = done + 1;
        }
    }
    assert(iv.take(done) =~= iv);
    out
}

} // verus!
