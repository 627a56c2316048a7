//! The shapes of the answers the index gives.
use vstd::prelude::*;
use crate::model::TagSummary;
use crate::strings::{chars_eq, clone_string, lowercase, starts_with_at, to_chars, to_lowercase, has_prefix_at};
use crate::vault::path::VaultPath;

verus! {

/// A link target nobody has created yet, and how often it is written.
#[derive(Debug)]
pub struct UnresolvedTarget {
    pub target: String,
    pub count: usize,
    /// Notes that reference it, capped for display.
    pub sources: Vec<VaultPath>,
}

/// What the graph view should draw.
#[derive(Debug)]
pub struct GraphOptions {
    /// Include attachments as nodes.
    pub include_attachments: bool,
    /// Include link targets that do not exist.
    pub include_unresolved: bool,
    /// Render tags as nodes joined to the notes that carry them.
    pub include_tags: bool,
    /// Only notes inside this folder, when set.
    pub folder: Option<VaultPath>,
    /// Refuse to return more than this many nodes, so a huge vault degrades
    /// into a truncated graph rather than a frozen window.
    pub max_nodes: usize,
}

impl Default for GraphOptions {
    fn default() -> (o: GraphOptions)
        ensures
            !o.include_attachments,
            o.include_unresolved,
            !o.include_tags,
            o.folder is None,
            o.max_nodes == 5_000,
    {
        GraphOptions {
            include_attachments: false,
            include_unresolved: true,
            include_tags: false,
            folder: None,
            max_nodes: 5_000,
        }
    }
}

/// Is `other` the tag `name` or nested beneath it, without regard to case?
pub open spec fn nested_in(other: Seq<char>, name: Seq<char>) -> bool {
    lowercase(other) == lowercase(name) || has_prefix_at(lowercase(other), 0, lowercase(name) + seq!['/'])
}

/// The uses of `name` and of every tag nested beneath it.
pub open spec fn rolled_total(exact: Seq<(Seq<char>, usize)>, name: Seq<char>) -> nat
    decreases exact.len(),
{
    if exact.len() == 0 {
        0
    } else {
        rolled_total(exact.drop_last(), name) + (if nested_in(exact.last().0, name) {
            exact.last().1 as nat
        } else {
            0nat
        })
    }
}

/// Every use counted once.
pub open spec fn all_uses(exact: Seq<(Seq<char>, usize)>) -> nat
    decreases exact.len(),
{
    if exact.len() == 0 {
        0
    } else {
        all_uses(exact.drop_last()) + exact.last().1 as nat
    }
}

pub open spec fn exact_view(exact: Seq<(String, usize)>) -> Seq<(Seq<char>, usize)> {
    exact.map_values(|e: (String, usize)| (e.0@, e.1))
}

proof fn lemma_rolled_within_all(exact: Seq<(Seq<char>, usize)>, name: Seq<char>)
    ensures
        rolled_total(exact, name) <= all_uses(exact),
    decreases exact.len(),
{
    if exact.len() > 0 {
        lemma_rolled_within_all(exact.drop_last(), name);
    }
}

/// Every tag with its own count and the count including the tags nested
/// beneath it, from each tag's own count: `#AI` reports its uses plus those
/// of `#AI/LLM` and `#AI/RAG`, which is what makes the tag tree's numbers add
/// up.
pub fn roll_up_tags(exact: &Vec<(String, usize)>) -> (r: Vec<TagSummary>)
    requires
        all_uses(exact_view(exact@)) <= usize::MAX,
    ensures
        r@.len() == exact@.len(),
        forall|i: int|
            0 <= i < r@.len() ==> (#[trigger] r@[i]).name@ == exact@[i].0@ && r@[i].count == exact@[i].1
                && r@[i].total_count == rolled_total(exact_view(exact@), exact@[i].0@),
{
    let ghost ev = exact_view(exact@);
    let mut folds: Vec<Vec<char>> = Vec::new();
    let mut j: usize = 0;
    while j < exact.len()
        invariant
            j <= exact@.len(),
            folds@.len() == j,
            forall|k: int| 0 <= k < j ==> (#[trigger] folds@[k])@ == lowercase(exact@[k].0@),
        decreases exact@.len() - j,
    {
        folds.push(to_chars(to_lowercase(exact[j].0.as_str()).as_str()));
        j = j + 1;
    }
    let mut out: Vec<TagSummary> = Vec::new();
    let mut i: usize = 0;
    while i < exact.len()
        invariant
            i <= exact@.len(),
            ev == exact_view(exact@),
            all_uses(ev) <= usize::MAX,
            folds@.len() == exact@.len(),
            forall|k: int| 0 <= k < folds@.len() ==> (#[trigger] folds@[k])@ == lowercase(exact@[k].0@),
            out@.len() == i,
            forall|k: int|
                0 <= k < i ==> (#[trigger] out@[k]).name@ == exact@[k].0@ && out@[k].count == exact@[k].1
                    && out@[k].total_count == rolled_total(ev, exact@[k].0@),
        decreases exact@.len() - i,
    {
        let mut prefix = folds[i].clone();
        prefix.push('/');
        assert(prefix@ =~= lowercase(exact@[i as int].0@) + seq!['/']);
        let ghost name = exact@[i as int].0@;
        let mut total: usize = 0;
        let mut k: usize = 0;
        assert(ev.take(0) =~= Seq::<(Seq<char>, usize)>::empty());
        while k < exact.len()
            invariant
                k <= exact@.len(),
                ev == exact_view(exact@),
                all_uses(ev) <= usize::MAX,
                i < folds@.len() == exact@.len(),
                forall|q: int| 0 <= q < folds@.len() ==> (#[trigger] folds@[q])@ == lowercase(exact@[q].0@),
                prefix@ == lowercase(name) + seq!['/'],
                name == exact@[i as int].0@,
                total == rolled_total(ev.take(k as int), name),
            decreases exact@.len() - k,
        {
            assert(ev.take(k + 1).drop_last() =~= ev.take(k as int));
            assert(ev.take(k + 1).last() == (exact@[k as int].0@, exact@[k as int].1));
            proof {
                lemma_rolled_within_all(ev.take(k + 1), name);
                lemma_all_uses_prefix(ev, k + 1);
            }
            if chars_eq(&folds[k], &folds[i]) || starts_with_at(&folds[k], 0, &prefix) {
                total = total + exact[k].1;
            }
            k = k + 1;
        }
        assert(ev.take(k as int) =~= ev);
        out.push(TagSummary { name: clone_string(&exact[i].0), count: exact[i].1, total_count: total });
        i = i + 1;
    }
    out
}

proof fn lemma_all_uses_prefix(es: Seq<(Seq<char>, usize)>, n: int)
    requires
        0 <= n <= es.len(),
    ensures
        all_uses(es.take(n)) <= all_uses(es),
    decreases es.len(),
{
    if n < es.len() {
        assert(es.drop_last().take(n) =~= es.take(n));
        lemma_all_uses_prefix(es.drop_last(), n);
    } else {
        assert(es.take(n) =~= es);
    }
}

/// A tag's total counts every one of its own uses.
pub proof fn law_a_tag_total_includes_its_own_uses(exact: Seq<(Seq<char>, usize)>, i: int)
    requires
        0 <= i < exact.len(),
    ensures
        rolled_total(exact, exact[i].0) >= exact[i].1,
    decreases exact.len(),
{
    if i < exact.len() - 1 {
        law_a_tag_total_includes_its_own_uses(exact.drop_last(), i);
    }
}

/// Nesting is transitive: what is nested beneath a child is nested beneath
/// its parent.
proof fn lemma_nested_transitive(x: Seq<char>, child: Seq<char>, parent: Seq<char>)
    requires
        nested_in(x, child),
        nested_in(child, parent),
    ensures
        nested_in(x, parent),
{
    let lp = lowercase(parent) + seq!['/'];
    let lc = lowercase(child) + seq!['/'];
    if lowercase(x) != lowercase(child) && lowercase(child) != lowercase(parent) {
        assert(lowercase(x).subrange(0, lp.len() as int) =~= lowercase(child).subrange(0, lp.len() as int)) by {
            assert forall|k: int| 0 <= k < lp.len() implies lowercase(x)[k] == lowercase(child)[k] by {
                assert(lowercase(x)[k] == lc[k]);
            }
        }
    }
}

/// A parent tag's total is at least each nested tag's total: the counts of
/// the tag tree add up towards its root.
pub proof fn law_a_parent_total_covers_its_children(exact: Seq<(Seq<char>, usize)>, child: Seq<char>, parent: Seq<char>)
    requires
        nested_in(child, parent),
    ensures
        rolled_total(exact, child) <= rolled_total(exact, parent),
    decreases exact.len(),
{
    if exact.len() > 0 {
        law_a_parent_total_covers_its_children(exact.drop_last(), child, parent);
        if nested_in(exact.last().0, child) {
            lemma_nested_transitive(exact.last().0, child, parent);
        }
    }
}

} // verus!
