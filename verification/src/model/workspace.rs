//! The workspace: which notes are open, in which panes.
//!
//! It contains only `VaultPath` values, so a workspace file survives being
//! copied between a Windows and a Linux machine, which a layout referencing
//! absolute paths would not. Pixel sizes and ratios are carried as the bits
//! of their `f32` values: nothing here computes with them.
use vstd::prelude::*;
use crate::links::reference::opt_view;

use crate::strings::{chars_eq, clone_string, str_to_string, to_chars};
use crate::vault::path::VaultPath;

verus! {

#[verifier::external_type_specification]
#[verifier::external_body]
pub struct ExJsonValue(serde_json::Value);

/// Which view a tab shows.
#[derive(Debug, Clone, Copy, PartialEq, Eq, Structural)]
pub enum TabMode {
    Edit,
    Read,
    Canvas,
    Graph,
    Pdf,
    Image,
}

impl Default for TabMode {
    fn default() -> (r: TabMode)
        ensures
            r == TabMode::Edit,
    {
        TabMode::Edit
    }
}

#[derive(Debug, Clone, Copy, PartialEq, Eq, Structural)]
pub enum SplitDirection {
    Horizontal,
    Vertical,
}

/// One open document in a pane.
#[derive(Debug)]
pub struct TabState {
    pub id: String,
    pub path: VaultPath,
    /// Pinned tabs survive "close others" and sort ahead of unpinned ones.
    pub pinned: bool,
    pub mode: TabMode,
    /// Scroll offset in lines, restored on reopen.
    pub scroll_line: usize,
    /// Cursor offset in the document, restored on reopen.
    pub cursor_offset: usize,
}

pub struct TabView {
    pub id: Seq<char>,
    pub path: Seq<char>,
    pub pinned: bool,
    pub mode: TabMode,
    pub scroll_line: usize,
    pub cursor_offset: usize,
}

impl View for TabState {
    type V = TabView;

    open spec fn view(&self) -> TabView {
        TabView {
            id: self.id@,
            path: self.path@,
            pinned: self.pinned,
            mode: self.mode,
            scroll_line: self.scroll_line,
            cursor_offset: self.cursor_offset,
        }
    }
}

impl Clone for TabState {
    fn clone(&self) -> (r: Self)
        ensures
            r@ == self@,
    {
        TabState {
            id: clone_string(&self.id),
            path: self.path.clone(),
            pinned: self.pinned,
            mode: self.mode,
            scroll_line: self.scroll_line,
            cursor_offset: self.cursor_offset,
        }
    }
}

/// The pane tree.
///
/// A binary split tree rather than a flat list, because that is what makes
/// arbitrary nesting (split a pane that is itself a split) representable
/// without special cases, and what lets a resize affect exactly two children.
#[derive(Debug)]
pub enum PaneNode {
    /// A leaf holding tabs.
    Leaf { id: String, tabs: Vec<TabState>, active_tab_id: Option<String> },
    /// Two children side by side or stacked. `ratio_bits` holds the `f32`
    /// fraction of the space given to the first child, 0.1–0.9.
    Split {
        id: String,
        direction: SplitDirection,
        ratio_bits: u32,
        first: Box<PaneNode>,
        second: Box<PaneNode>,
    },
}

/// The pane tree as values.
pub enum PaneView {
    Leaf { id: Seq<char>, tabs: Seq<TabView>, active_tab_id: Option<Seq<char>> },
    Split {
        id: Seq<char>,
        direction: SplitDirection,
        ratio_bits: u32,
        first: Box<PaneView>,
        second: Box<PaneView>,
    },
}

pub open spec fn tabs_view(tabs: Seq<TabState>) -> Seq<TabView> {
    tabs.map_values(|t: TabState| t@)
}

pub open spec fn pane_view(n: PaneNode) -> PaneView
    decreases n,
{
    match n {
        PaneNode::Leaf { id, tabs, active_tab_id } => PaneView::Leaf {
            id: id@,
            tabs: tabs_view(tabs@),
            active_tab_id: opt_view(active_tab_id),
        },
        PaneNode::Split { id, direction, ratio_bits, first, second } => PaneView::Split {
            id: id@,
            direction,
            ratio_bits,
            first: Box::new(pane_view(*first)),
            second: Box::new(pane_view(*second)),
        },
    }
}

impl View for PaneNode {
    type V = PaneView;

    open spec fn view(&self) -> PaneView {
        pane_view(*self)
    }
}

pub open spec fn pane_id(v: PaneView) -> Seq<char> {
    match v {
        PaneView::Leaf { id, .. } => id,
        PaneView::Split { id, .. } => id,
    }
}

/// Every leaf, left to right, depth first.
pub open spec fn leaves_of(v: PaneView) -> Seq<PaneView>
    decreases v,
{
    match v {
        PaneView::Leaf { .. } => seq![v],
        PaneView::Split { first, second, .. } => leaves_of(*first) + leaves_of(*second),
    }
}

/// Every path open anywhere in the tree, in tab order.
pub open spec fn paths_of(v: PaneView) -> Seq<Seq<char>>
    decreases v,
{
    match v {
        PaneView::Leaf { tabs, .. } => tabs.map_values(|t: TabView| t.path),
        PaneView::Split { first, second, .. } => paths_of(*first) + paths_of(*second),
    }
}

/// Every tab in the tree, in order.
pub open spec fn all_tabs(n: PaneNode) -> Seq<TabState>
    decreases n,
{
    match n {
        PaneNode::Leaf { tabs, .. } => tabs@,
        PaneNode::Split { first, second, .. } => all_tabs(*first) + all_tabs(*second),
    }
}

/// `ans` holds, for each tab in order, an answer `file_exists` gave for its path.
pub open spec fn answered<F: Fn(&VaultPath) -> bool>(file_exists: F, tabs: Seq<TabState>, ans: Seq<bool>) -> bool {
    &&& ans.len() == tabs.len()
    &&& forall|i: int| 0 <= i < tabs.len() ==> call_ensures(file_exists, (&tabs[i].path,), #[trigger] ans[i])
}

/// The tabs whose answer is `keep`.
pub open spec fn tabs_where(tabs: Seq<TabView>, ans: Seq<bool>, keep: bool) -> Seq<TabView>
    decreases tabs.len(),
{
    if tabs.len() == 0 || ans.len() == 0 {
        Seq::<TabView>::empty()
    } else {
        let rest = tabs_where(tabs.drop_last(), ans.take(tabs.len() - 1), keep);
        if ans[tabs.len() - 1] == keep {
            rest.push(tabs.last())
        } else {
            rest
        }
    }
}

pub open spec fn has_tab_id(tabs: Seq<TabView>, id: Seq<char>) -> bool {
    exists|k: int| 0 <= k < tabs.len() && (#[trigger] tabs[k]).id == id
}

/// The active tab after pruning: unchanged while its tab is still open,
/// else the first remaining tab, if any.
pub open spec fn active_after(active: Option<Seq<char>>, kept: Seq<TabView>) -> Option<Seq<char>> {
    match active {
        Some(a) => if has_tab_id(kept, a) {
            Some(a)
        } else if kept.len() > 0 {
            Some(kept[0].id)
        } else {
            None
        },
        None => if kept.len() > 0 {
            Some(kept[0].id)
        } else {
            None
        },
    }
}

pub open spec fn tab_count(v: PaneView) -> nat {
    paths_of(v).len()
}

/// The tree with the tabs answered `false` dropped, `ans` read in tab order.
pub open spec fn pruned(v: PaneView, ans: Seq<bool>) -> PaneView
    decreases v,
{
    match v {
        PaneView::Leaf { id, tabs, active_tab_id } => {
            let kept = tabs_where(tabs, ans, true);
            PaneView::Leaf { id, tabs: kept, active_tab_id: active_after(active_tab_id, kept) }
        },
        PaneView::Split { id, direction, ratio_bits, first, second } => {
            let n = tab_count(*first) as int;
            PaneView::Split {
                id,
                direction,
                ratio_bits,
                first: Box::new(pruned(*first, ans.take(n))),
                second: Box::new(pruned(*second, ans.skip(n))),
            }
        },
    }
}

/// The paths of the tabs answered `false`, in tab order.
pub open spec fn removed_paths(v: PaneView, ans: Seq<bool>) -> Seq<Seq<char>>
    decreases v,
{
    match v {
        PaneView::Leaf { tabs, .. } => tabs_where(tabs, ans, false).map_values(|t: TabView| t.path),
        PaneView::Split { first, second, .. } => {
            let n = tab_count(*first) as int;
            removed_paths(*first, ans.take(n)) + removed_paths(*second, ans.skip(n))
        },
    }
}

/// The tree without its empty leaves; a split that loses one side becomes
/// the other, and one that loses both disappears.
pub open spec fn collapsed(v: PaneView) -> Option<PaneView>
    decreases v,
{
    match v {
        PaneView::Leaf { tabs, .. } => if tabs.len() == 0 {
            None
        } else {
            Some(v)
        },
        PaneView::Split { id, direction, ratio_bits, first, second } => {
            match (collapsed(*first), collapsed(*second)) {
                (Some(a), Some(b)) => Some(
                    PaneView::Split { id, direction, ratio_bits, first: Box::new(a), second: Box::new(b) },
                ),
                (Some(only), None) => Some(only),
                (None, Some(only)) => Some(only),
                (None, None) => None,
            }
        },
    }
}

pub open spec fn paths_view(ps: Seq<VaultPath>) -> Seq<Seq<char>> {
    ps.map_values(|p: VaultPath| p@)
}

pub open spec fn nodes_view(ns: Seq<&PaneNode>) -> Seq<PaneView> {
    ns.map_values(|n: &PaneNode| n@)
}

proof fn lemma_tab_count(n: PaneNode)
    ensures
        all_tabs(n).len() == tab_count(n@),
    decreases n,
{
    match n {
        PaneNode::Leaf { tabs, .. } => {},
        PaneNode::Split { first, second, .. } => {
            lemma_tab_count(*first);
            lemma_tab_count(*second);
        },
    }
}

fn same_text(a: &String, b: &String) -> (r: bool)
    ensures
        r == (a@ == b@),
{
    chars_eq(&to_chars(a.as_str()), &to_chars(b.as_str()))
}

/// Keep the tabs `file_exists` answers `true` for; return the others' paths.
fn prune_tabs<F: Fn(&VaultPath) -> bool + Copy>(tabs: Vec<TabState>, file_exists: F) -> (r: (
    Vec<TabState>,
    Vec<VaultPath>,
    Ghost<Seq<bool>>,
))
    requires
        forall|p: &VaultPath| call_requires(file_exists, (p,)),
    ensures
        answered(file_exists, tabs@, r.2@),
        tabs_view(r.0@) == tabs_where(tabs_view(tabs@), r.2@, true),
        paths_view(r.1@) == tabs_where(tabs_view(tabs@), r.2@, false).map_values(|t: TabView| t.path),
{
    let ghost all = tabs@;
    let mut rest = tabs;
    let mut kept: Vec<TabState> = Vec::new();
    let mut removed: Vec<VaultPath> = Vec::new();
    let ghost mut ans: Seq<bool> = Seq::empty();
    let ghost mut done: int = 0;
    while rest.len() > 0
        invariant
            0 <= done <= all.len(),
            rest@ == all.skip(done),
            ans.len() == done,
            forall|p: &VaultPath| call_requires(file_exists, (p,)),
            forall|i: int| 0 <= i < done ==> call_ensures(file_exists, (&all[i].path,), #[trigger] ans[i]),
            tabs_view(kept@) == tabs_where(tabs_view(all.take(done)), ans, true),
            paths_view(removed@) == tabs_where(tabs_view(all.take(done)), ans, false).map_values(
                |t: TabView| t.path,
            ),
        decreases rest@.len(),
    {
        let tab = rest.remove(0);
        assert(tab == all[done]);
        let keep = file_exists(&tab.path);
        let ghost before_kept = tabs_view(kept@);
        let ghost before_removed = paths_view(removed@);
        let ghost tv = tabs_view(all.take(done + 1));
        assert(tv.drop_last() =~= tabs_view(all.take(done)));
        assert(tv.last() == tab@);
        let ghost old_ans = ans;
        proof {
            ans = ans.push(keep);
            assert(ans.take(done) =~= old_ans);
            assert(tv.len() == done + 1);
            assert(tabs_where(tv, ans, true) == (if keep {
                tabs_where(tabs_view(all.take(done)), old_ans, true).push(tab@)
            } else {
                tabs_where(tabs_view(all.take(done)), old_ans, true)
            }));
            assert(tabs_where(tv, ans, false) == (if !keep {
                tabs_where(tabs_view(all.take(done)), old_ans, false).push(tab@)
            } else {
                tabs_where(tabs_view(all.take(done)), old_ans, false)
            }));
        }
        if keep {
            kept.push(tab);
            assert(tabs_view(kept@) =~= before_kept.push(tab@));
        } else {
            let p = tab.path;
            removed.push(p);
            assert(paths_view(removed@) =~= before_removed.push(tab@.path));
            assert(tabs_where(tv, ans, false).map_values(|t: TabView| t.path) =~= tabs_where(
                tabs_view(all.take(done)),
                old_ans,
                false,
            ).map_values(|t: TabView| t.path).push(tab@.path));
        }
        assert(rest@ =~= all.skip(done + 1));
        proof {
            done = done + 1;
        }
    }
    assert(all.take(done) =~= all);
    (kept, removed, Ghost(ans))
}

/// Whether a tab with the id `id` is among `tabs`.
fn contains_tab_id(tabs: &Vec<TabState>, id: &String) -> (r: bool)
    ensures
        r == has_tab_id(tabs_view(tabs@), id@),
{
    let mut i: usize = 0;
    while i < tabs.len()
        invariant
            i <= tabs@.len(),
            forall|k: int| 0 <= k < i ==> (#[trigger] tabs@[k]).id@ != id@,
        decreases tabs@.len() - i,
    {
        if same_text(&tabs[i].id, id) {
            assert(tabs_view(tabs@)[i as int].id == id@);
            return true;
        }
        i = i + 1;
    }
    assert forall|k: int| 0 <= k < tabs_view(tabs@).len() implies (#[trigger] tabs_view(tabs@)[k]).id != id@ by {
        assert(tabs_view(tabs@)[k] == tabs@[k]@);
    }
    false
}

fn prune_owned<F: Fn(&VaultPath) -> bool + Copy>(node: PaneNode, file_exists: F) -> (r: (
    PaneNode,
    Vec<VaultPath>,
    Ghost<Seq<bool>>,
))
    requires
        forall|p: &VaultPath| call_requires(file_exists, (p,)),
    ensures
        answered(file_exists, all_tabs(node), r.2@),
        r.0@ == pruned(node@, r.2@),
        paths_view(r.1@) == removed_paths(node@, r.2@),
    decreases node,
{
    match node {
        PaneNode::Leaf { id, tabs, active_tab_id } => {
            let (kept, removed, ans) = prune_tabs(tabs, file_exists);
            let still_open = match &active_tab_id {
                Some(a) => contains_tab_id(&kept, a),
                None => false,
            };
            let active = if still_open {
                active_tab_id
            } else if kept.len() > 0 {
                assert(tabs_view(kept@)[0] == kept@[0]@);
                Some(clone_string(&kept[0].id))
            } else {
                None
            };
            (PaneNode::Leaf { id, tabs: kept, active_tab_id: active }, removed, ans)
        },
        PaneNode::Split { id, direction, ratio_bits, first, second } => {
            let ghost f = *first;
            let ghost s = *second;
            let (a, removed_a, ans_a) = prune_owned(*first, file_exists);
            let (b, removed_b, ans_b) = prune_owned(*second, file_exists);
            let ghost ans = ans_a@ + ans_b@;
            proof {
                lemma_tab_count(f);
                assert(ans.take(tab_count(f@) as int) =~= ans_a@);
                assert(ans.skip(tab_count(f@) as int) =~= ans_b@);
                assert forall|i: int| 0 <= i < all_tabs(node).len() implies call_ensures(
                    file_exists,
                    (&all_tabs(node)[i].path,),
                    #[trigger] ans[i],
                ) by {
                    if i < all_tabs(f).len() {
                        assert(all_tabs(node)[i] == all_tabs(f)[i]);
                    } else {
                        assert(all_tabs(node)[i] == all_tabs(s)[i - all_tabs(f).len()]);
                    }
                }
            }
            let mut removed = removed_a;
            let mut rest = removed_b;
            let ghost ra = paths_view(removed@);
            let ghost rb = paths_view(rest@);
            removed.append(&mut rest);
            assert(paths_view(removed@) =~= ra + rb);
            (
                PaneNode::Split { id, direction, ratio_bits, first: Box::new(a), second: Box::new(b) },
                removed,
                Ghost(ans),
            )
        },
    }
}

impl PaneNode {
    pub fn id(&self) -> (r: &str)
        ensures
            r@ == pane_id(self@),
    {
        match self {
            PaneNode::Leaf { id, .. } => id.as_str(),
            PaneNode::Split { id, .. } => id.as_str(),
        }
    }

    /// Every leaf, left to right, depth first.
    pub fn leaves(&self) -> (r: Vec<&PaneNode>)
        ensures
            nodes_view(r@) == leaves_of(self@),
        decreases self,
    {
        match self {
            PaneNode::Leaf { .. } => {
                let mut out: Vec<&PaneNode> = Vec::new();
                out.push(self);
                assert(nodes_view(out@) =~= seq![self@]);
                out
            },
            PaneNode::Split { first, second, .. } => {
                let mut out = first.leaves();
                let mut rest = second.leaves();
                let ghost a = nodes_view(out@);
                let ghost b = nodes_view(rest@);
                out.append(&mut rest);
                assert(nodes_view(out@) =~= a + b);
                out
            },
        }
    }

    /// Every path open anywhere in the tree, in tab order.
    pub fn open_paths(&self) -> (r: Vec<VaultPath>)
        ensures
            paths_view(r@) == paths_of(self@),
        decreases self,
    {
        match self {
            PaneNode::Leaf { tabs, .. } => {
                let mut out: Vec<VaultPath> = Vec::new();
                let mut i: usize = 0;
                while i < tabs.len()
                    invariant
                        i <= tabs@.len(),
                        paths_view(out@) == tabs_view(tabs@).take(i as int).map_values(|t: TabView| t.path),
                    decreases tabs@.len() - i,
                {
                    let ghost before = paths_view(out@);
                    out.push(tabs[i].path.clone());
                    assert(tabs_view(tabs@).take(i + 1) =~= tabs_view(tabs@).take(i as int).push(tabs@[i as int]@));
                    assert(paths_view(out@) =~= before.push(tabs@[i as int].path@));
                    i = i + 1;
                }
                assert(tabs_view(tabs@).take(i as int) =~= tabs_view(tabs@));
                out
            },
            PaneNode::Split { first, second, .. } => {
                let mut out = first.open_paths();
                let mut rest = second.open_paths();
                let ghost a = paths_view(out@);
                let ghost b = paths_view(rest@);
                out.append(&mut rest);
                assert(paths_view(out@) =~= a + b);
                out
            },
        }
    }

    /// Drop tabs whose file no longer file_exists.
    ///
    /// Called when a workspace is restored: a note deleted outside the app
    /// should not resurrect as a broken tab. `file_exists` is asked once per tab,
    /// in tab order; a pane whose active tab went moves to its first
    /// remaining tab. Returns the paths removed so the UI can mention them.
    pub fn prune<F: Fn(&VaultPath) -> bool + Copy>(&mut self, file_exists: F) -> (r: Vec<VaultPath>)
        requires
            forall|p: &VaultPath| call_requires(file_exists, (p,)),
        ensures
            exists|ans: Seq<bool>|
                {
                    &&& answered(file_exists, all_tabs(*old(self)), ans)
                    &&& final(self)@ == pruned(old(self)@, ans)
                    &&& paths_view(r@) == removed_paths(old(self)@, ans)
                },
    {
        let mut node = PaneNode::Leaf { id: String::new(), tabs: Vec::new(), active_tab_id: None };
        std::mem::swap(&mut node, self);
        let (pruned_node, removed, ans) = prune_owned(node, file_exists);
        *self = pruned_node;
        assert(answered(file_exists, all_tabs(*old(self)), ans@));
        removed
    }

    /// Collapse splits whose leaves are all empty, so closing the last tab in
    /// a split does not leave a dead region on screen.
    pub fn collapse_empty(self) -> (r: Option<PaneNode>)
        ensures
            match (r, collapsed(self@)) {
                (Some(n), Some(v)) => n@ == v,
                (None, None) => true,
                _ => false,
            },
        decreases self,
    {
        match self {
            PaneNode::Leaf { id, tabs, active_tab_id } => {
                if tabs.len() == 0 {
                    None
                } else {
                    Some(PaneNode::Leaf { id, tabs, active_tab_id })
                }
            },
            PaneNode::Split { id, direction, ratio_bits, first, second } => {
                match (first.collapse_empty(), second.collapse_empty()) {
                    (Some(a), Some(b)) => Some(
                        PaneNode::Split { id, direction, ratio_bits, first: Box::new(a), second: Box::new(b) },
                    ),
                    (Some(only), None) => Some(only),
                    (None, Some(only)) => Some(only),
                    (None, None) => None,
                }
            },
        }
    }
}

pub proof fn lemma_leaves_nonempty(v: PaneView)
    ensures
        leaves_of(v).len() >= 1,
    decreases v,
{
    match v {
        PaneView::Leaf { .. } => {},
        PaneView::Split { first, second, .. } => {
            lemma_leaves_nonempty(*first);
            lemma_leaves_nonempty(*second);
        },
    }
}

/// One sidebar's state.
#[derive(Debug, Clone)]
pub struct WorkspaceSidebar {
    pub visible: bool,
    /// Pixels, as the bits of an `f32`. Stored rather than derived so the
    /// layout is stable across window sizes.
    pub width_bits: u32,
    /// Which panel is showing, e.g. `files`, `search`, `tags`, `backlinks`.
    pub active_panel: String,
}

impl Default for WorkspaceSidebar {
    fn default() -> (r: WorkspaceSidebar)
        ensures
            r.visible,
            r.width_bits == 0x4382_0000u32,
            r.active_panel@ == "files"@,
    {
        WorkspaceSidebar { visible: true, width_bits: 0x4382_0000u32, active_panel: str_to_string("files") }
    }
}

#[derive(Debug)]
pub struct PaneLayout {
    pub root: PaneNode,
    pub active_pane_id: String,
}

/// The persisted workspace.
#[derive(Debug)]
pub struct Workspace {
    /// Bumped when the shape changes so an old file can be migrated rather
    /// than misread.
    pub version: u32,
    pub layout: PaneLayout,
    pub left_sidebar: WorkspaceSidebar,
    pub right_sidebar: WorkspaceSidebar,
    pub active_file: Option<VaultPath>,
    /// Opaque graph view state (zoom, pan, filters), owned by the frontend.
    pub graph_state: Option<serde_json::Value>,
}

pub const WORKSPACE_VERSION: u32 = 1;

/// The single empty pane a layout falls back to.
pub open spec fn root_pane() -> PaneView {
    PaneView::Leaf { id: "pane-root"@, tabs: Seq::<TabView>::empty(), active_tab_id: None }
}

fn new_root_pane() -> (r: PaneNode)
    ensures
        r@ == root_pane(),
{
    let r = PaneNode::Leaf { id: str_to_string("pane-root"), tabs: Vec::new(), active_tab_id: None };
    assert(tabs_view(Seq::<TabState>::empty()) =~= Seq::<TabView>::empty());
    r
}

/// The workspace of a vault opened for the first time: one empty pane, the
/// file list on the left at 260 pixels, backlinks on the right at 300.
pub open spec fn is_default_workspace(r: Workspace) -> bool {
    &&& r.version == WORKSPACE_VERSION
    &&& r.layout.root@ == root_pane()
    &&& r.layout.active_pane_id@ == "pane-root"@
    &&& r.left_sidebar.visible
    &&& r.left_sidebar.width_bits == 0x4382_0000u32
    &&& r.left_sidebar.active_panel@ == "files"@
    &&& r.right_sidebar.visible
    &&& r.right_sidebar.width_bits == 0x4396_0000u32
    &&& r.right_sidebar.active_panel@ == "backlinks"@
    &&& r.active_file is None
    &&& r.graph_state is None
}

impl Default for Workspace {
    fn default() -> (r: Workspace)
        ensures
            is_default_workspace(r),
    {
        Workspace {
            version: WORKSPACE_VERSION,
            layout: PaneLayout { root: new_root_pane(), active_pane_id: str_to_string("pane-root") },
            left_sidebar: WorkspaceSidebar::default(),
            right_sidebar: WorkspaceSidebar {
                visible: true,
                width_bits: 0x4396_0000u32,
                active_panel: str_to_string("backlinks"),
            },
            active_file: None,
            graph_state: None,
        }
    }
}

/// The tree after pruning and collapsing; the fallback pane when nothing
/// is left.
pub open spec fn reconciled_root(v: PaneView, ans: Seq<bool>) -> PaneView {
    match collapsed(pruned(v, ans)) {
        Some(c) => c,
        None => root_pane(),
    }
}

pub open spec fn is_leaf_id(root: PaneView, id: Seq<char>) -> bool {
    exists|k: int| 0 <= k < leaves_of(root).len() && pane_id(#[trigger] leaves_of(root)[k]) == id
}

/// The active pane follows to the first leaf when its own pane is gone.
pub open spec fn active_pane_after(active: Seq<char>, root: PaneView) -> Seq<char> {
    if is_leaf_id(root, active) {
        active
    } else {
        pane_id(leaves_of(root)[0])
    }
}

fn has_leaf_id(leaves: &Vec<&PaneNode>, id: &str) -> (r: bool)
    ensures
        r == exists|k: int| 0 <= k < leaves@.len() && pane_id((#[trigger] leaves@[k])@) == id@,
{
    let mut i: usize = 0;
    while i < leaves.len()
        invariant
            i <= leaves@.len(),
            forall|k: int| 0 <= k < i ==> pane_id((#[trigger] leaves@[k])@) != id@,
        decreases leaves@.len() - i,
    {
        if chars_eq(&to_chars(leaves[i].id()), &to_chars(id)) {
            return true;
        }
        i = i + 1;
    }
    false
}

/// The active file after the check: kept when `file_exists` answered
/// `keep_file` true for it, forgotten otherwise.
pub open spec fn file_kept<F: Fn(&VaultPath) -> bool>(
    file_exists: F,
    before: Option<VaultPath>,
    after: Option<VaultPath>,
    keep_file: bool,
) -> bool {
    match before {
        Some(p) => call_ensures(file_exists, (&p,), keep_file) && if keep_file {
            after matches Some(q) && q@ == p@
        } else {
            after is None
        },
        None => after is None,
    }
}

impl Workspace {
    /// Remove tabs for files that no longer exist and collapse the resulting
    /// empty panes; the active pane follows when its own pane is collapsed,
    /// and an active file that is gone is forgotten. `file_exists` is asked
    /// once per tab, in tab order, and once for the active file. Returns the
    /// paths that were dropped.
    pub fn reconcile<F: Fn(&VaultPath) -> bool + Copy>(&mut self, file_exists: F) -> (r: Vec<VaultPath>)
        requires
            forall|p: &VaultPath| call_requires(file_exists, (p,)),
        ensures
            exists|ans: Seq<bool>, keep_file: bool|
                #![trigger answered(file_exists, all_tabs(old(self).layout.root), ans), file_kept(file_exists, old(self).active_file, final(self).active_file, keep_file)]
                {
                    &&& answered(file_exists, all_tabs(old(self).layout.root), ans)
                    &&& paths_view(r@) == removed_paths(old(self).layout.root@, ans)
                    &&& final(self).layout.root@ == reconciled_root(old(self).layout.root@, ans)
                    &&& final(self).layout.active_pane_id@ == active_pane_after(
                        old(self).layout.active_pane_id@,
                        reconciled_root(old(self).layout.root@, ans),
                    )
                    &&& file_kept(file_exists, old(self).active_file, final(self).active_file, keep_file)
                },
            final(self).version == old(self).version,
            final(self).left_sidebar == old(self).left_sidebar,
            final(self).right_sidebar == old(self).right_sidebar,
            final(self).graph_state == old(self).graph_state,
    {
        let mut root = new_root_pane();
        std::mem::swap(&mut root, &mut self.layout.root);
        let ghost old_root = root;
        let (pruned_root, removed, ans) = prune_owned(root, file_exists);
        match pruned_root.collapse_empty() {
            Some(c) => {
                self.layout.root = c;
            },
            None => {},
        }
        assert(self.layout.root@ == reconciled_root(old_root@, ans@));
        let new_active = {
            let leaves = self.layout.root.leaves();
            proof {
                lemma_leaves_nonempty(self.layout.root@);
            }
            let found = has_leaf_id(&leaves, self.layout.active_pane_id.as_str());
            assert(found == is_leaf_id(self.layout.root@, self.layout.active_pane_id@)) by {
                if found {
                    let k = choose|k: int| 0 <= k < leaves@.len() && pane_id((#[trigger] leaves@[k])@) == self.layout.active_pane_id@;
                    assert(leaves_of(self.layout.root@)[k] == leaves@[k]@);
                }
                if is_leaf_id(self.layout.root@, self.layout.active_pane_id@) {
                    let k = choose|k: int| 0 <= k < leaves_of(self.layout.root@).len() && pane_id(#[trigger] leaves_of(self.layout.root@)[k]) == self.layout.active_pane_id@;
                    assert(leaves_of(self.layout.root@)[k] == leaves@[k]@);
                }
            }
            if found {
                None
            } else {
                assert(leaves_of(self.layout.root@)[0] == leaves@[0]@);
                Some(str_to_string(leaves[0].id()))
            }
        };
        match new_active {
            Some(a) => {
                self.layout.active_pane_id = a;
            },
            None => {},
        }
        let ghost mut keep_file = true;
        let keep = match &self.active_file {
            Some(p) => {
                let k = file_exists(p);
                proof {
                    keep_file = k;
                }
                k
            },
            None => true,
        };
        if !keep {
            self.active_file = None;
        }
        assert(answered(file_exists, all_tabs(old(self).layout.root), ans@));
        assert(file_kept(file_exists, old(self).active_file, self.active_file, keep_file));
        removed
    }
}

// ---------------------------------------------------------------------------
// Laws.

pub open spec fn holds_tabs(v: PaneView) -> bool {
    match v {
        PaneView::Leaf { tabs, .. } => tabs.len() > 0,
        PaneView::Split { .. } => true,
    }
}

/// Collapsing leaves no empty pane behind: every leaf of what remains holds
/// at least one tab.
pub proof fn law_collapse_leaves_no_empty_pane(v: PaneView)
    ensures
        collapsed(v) matches Some(c) ==> forall|k: int| 0 <= k < leaves_of(c).len() ==> holds_tabs(#[trigger] leaves_of(c)[k]),
    decreases v,
{
    match v {
        PaneView::Leaf { .. } => {},
        PaneView::Split { first, second, .. } => {
            law_collapse_leaves_no_empty_pane(*first);
            law_collapse_leaves_no_empty_pane(*second);
            match (collapsed(*first), collapsed(*second)) {
                (Some(a), Some(b)) => {
                    let c = collapsed(v)->Some_0;
                    assert(leaves_of(c) == leaves_of(a) + leaves_of(b));
                    assert forall|k: int| 0 <= k < leaves_of(c).len() implies holds_tabs(#[trigger] leaves_of(c)[k]) by {
                        if k < leaves_of(a).len() {
                            assert(leaves_of(c)[k] == leaves_of(a)[k]);
                        } else {
                            assert(leaves_of(c)[k] == leaves_of(b)[k - leaves_of(a).len()]);
                        }
                    }
                },
                _ => {},
            }
        },
    }
}

/// Collapsing loses no tab: what remains holds every open path, in order,
/// and a tree that collapses away held none.
pub proof fn law_collapse_keeps_every_tab(v: PaneView)
    ensures
        match collapsed(v) {
            Some(c) => paths_of(c) == paths_of(v),
            None => paths_of(v).len() == 0,
        },
    decreases v,
{
    match v {
        PaneView::Leaf { tabs, .. } => {},
        PaneView::Split { first, second, .. } => {
            law_collapse_keeps_every_tab(*first);
            law_collapse_keeps_every_tab(*second);
            match (collapsed(*first), collapsed(*second)) {
                (Some(a), None) => {
                    assert(paths_of(*first) + paths_of(*second) =~= paths_of(*first));
                },
                (None, Some(b)) => {
                    assert(paths_of(*first) + paths_of(*second) =~= paths_of(*second));
                },
                _ => {},
            }
        },
    }
}

proof fn lemma_tabs_where_split(tabs: Seq<TabView>, ans: Seq<bool>)
    requires
        ans.len() == tabs.len(),
    ensures
        tabs_where(tabs, ans, true).len() + tabs_where(tabs, ans, false).len() == tabs.len(),
    decreases tabs.len(),
{
    if tabs.len() > 0 {
        lemma_tabs_where_split(tabs.drop_last(), ans.take(tabs.len() - 1));
    }
}

/// Pruning splits the open tabs in two: those kept and those reported
/// removed, with none lost and none counted twice.
pub proof fn law_prune_accounts_for_every_tab(v: PaneView, ans: Seq<bool>)
    requires
        ans.len() == tab_count(v),
    ensures
        tab_count(pruned(v, ans)) + removed_paths(v, ans).len() == tab_count(v),
    decreases v,
{
    match v {
        PaneView::Leaf { tabs, .. } => {
            lemma_tabs_where_split(tabs, ans);
        },
        PaneView::Split { first, second, .. } => {
            let n = tab_count(*first) as int;
            law_prune_accounts_for_every_tab(*first, ans.take(n));
            law_prune_accounts_for_every_tab(*second, ans.skip(n));
        },
    }
}

} // verus!
