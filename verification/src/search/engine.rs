//! What a search returns, and the quick switcher's ranking. The host runs
//! the index queries.
use vstd::prelude::*;
use crate::index::resolve::{less, seq_less};
use crate::model::{file_kind_from, FileKind};
use crate::search::fuzzy::{fuzzy_path, positions_view, score_fits, score_path};
use crate::strings::{clone_string, str_to_string, to_chars, trim, trim_range};
use crate::vault::path::{file_name_of, stem_of, VaultPath};

verus! {

/// Paging and highlighting for a full-text search.
#[derive(Debug, Clone)]
pub struct SearchOptions {
    pub limit: usize,
    pub offset: usize,
    /// Characters of context around a match.
    pub snippet_tokens: usize,
    pub highlight_open: String,
    pub highlight_close: String,
}

impl Default for SearchOptions {
    fn default() -> (r: SearchOptions)
        ensures
            r.limit == 100,
            r.offset == 0,
            r.snippet_tokens == 12,
            r.highlight_open@ == "<mark>"@,
            r.highlight_close@ == "</mark>"@,
    {
        SearchOptions {
            limit: 100,
            offset: 0,
            snippet_tokens: 12,
            highlight_open: str_to_string("<mark>"),
            highlight_close: str_to_string("</mark>"),
        }
    }
}

/// A quick-switcher hit.
#[derive(Debug)]
pub struct FileMatch {
    pub path: VaultPath,
    pub title: String,
    pub kind: FileKind,
    pub score: i32,
    /// Character offsets within `path` that matched, for highlighting.
    pub positions: Vec<usize>,
    pub modified_ms: i64,
}

pub struct MatchView {
    pub path: Seq<char>,
    pub title: Seq<char>,
    pub kind: FileKind,
    pub score: int,
    pub positions: Seq<int>,
    pub modified_ms: i64,
}

impl View for FileMatch {
    type V = MatchView;

    open spec fn view(&self) -> MatchView {
        MatchView {
            path: self.path@,
            title: self.title@,
            kind: self.kind,
            score: self.score as int,
            positions: positions_view(self.positions@),
            modified_ms: self.modified_ms,
        }
    }
}

pub open spec fn matches_view(ms: Seq<FileMatch>) -> Seq<MatchView> {
    ms.map_values(|m: FileMatch| m@)
}

/// A file row (path, title, kind name, modification time) as a hit, when
/// the needle matches its name.
pub open spec fn row_match(needle: Seq<char>, row: (String, Option<String>, String, i64)) -> Option<MatchView> {
    match fuzzy_path(needle, row.0@) {
        Some((score, positions)) => Some(
            MatchView {
                path: row.0@,
                title: match row.1 {
                    Some(t) => t@,
                    None => stem_of(file_name_of(row.0@)),
                },
                kind: file_kind_from(row.2@),
                score,
                positions,
                modified_ms: row.3,
            },
        ),
        None => None,
    }
}

/// The hits among the rows, in row order.
pub open spec fn hits_of(needle: Seq<char>, rows: Seq<(String, Option<String>, String, i64)>) -> Seq<MatchView>
    decreases rows.len(),
{
    if rows.len() == 0 {
        Seq::<MatchView>::empty()
    } else {
        match row_match(needle, rows.last()) {
            Some(m) => hits_of(needle, rows.drop_last()).push(m),
            None => hits_of(needle, rows.drop_last()),
        }
    }
}

/// `a` ranks ahead of `b`: a better score, then more recently modified,
/// then by path.
pub open spec fn ranks_ahead(a: MatchView, b: MatchView) -> bool {
    a.score > b.score || (a.score == b.score && (a.modified_ms > b.modified_ms || (a.modified_ms == b.modified_ms
        && seq_less(a.path, b.path))))
}

pub open spec fn insert_ranked(sorted: Seq<MatchView>, m: MatchView) -> Seq<MatchView>
    decreases sorted.len(),
{
    if sorted.len() == 0 {
        seq![m]
    } else if !ranks_ahead(m, sorted.last()) {
        sorted.push(m)
    } else {
        insert_ranked(sorted.drop_last(), m).push(sorted.last())
    }
}

/// A stable sort into rank order.
pub open spec fn ranked(ms: Seq<MatchView>) -> Seq<MatchView>
    decreases ms.len(),
{
    if ms.len() == 0 {
        ms
    } else {
        insert_ranked(ranked(ms.drop_last()), ms.last())
    }
}

pub open spec fn at_most(ms: Seq<MatchView>, limit: int) -> Seq<MatchView> {
    if ms.len() <= limit {
        ms
    } else {
        ms.take(limit)
    }
}

/// What the quick switcher offers.
pub open spec fn quick_switch_result(
    needle: Seq<char>,
    rows: Seq<(String, Option<String>, String, i64)>,
    limit: int,
) -> Seq<MatchView> {
    let hits = hits_of(needle, rows);
    if trim(needle).len() == 0 {
        at_most(hits, limit)
    } else {
        at_most(ranked(hits), limit)
    }
}

proof fn lemma_insert_ranked_at(sorted: Seq<MatchView>, m: MatchView, p: int)
    requires
        0 <= p <= sorted.len(),
        forall|j: int| p <= j < sorted.len() ==> ranks_ahead(m, #[trigger] sorted[j]),
        p > 0 ==> !ranks_ahead(m, sorted[p - 1]),
    ensures
        insert_ranked(sorted, m) == sorted.take(p).push(m) + sorted.skip(p),
    decreases sorted.len(),
{
    if sorted.len() == 0 {
        assert(sorted.take(p).push(m) + sorted.skip(p) =~= seq![m]);
    } else if p == sorted.len() {
        assert(sorted.take(p) =~= sorted);
        assert(sorted.take(p).push(m) + sorted.skip(p) =~= sorted.push(m));
    } else {
        lemma_insert_ranked_at(sorted.drop_last(), m, p);
        assert(sorted.drop_last().take(p) =~= sorted.take(p));
        assert(sorted.drop_last().skip(p).push(sorted.last()) =~= sorted.skip(p));
        assert((sorted.take(p).push(m) + sorted.drop_last().skip(p)).push(sorted.last())
            =~= sorted.take(p).push(m) + sorted.skip(p));
    }
}

fn goes_ahead(a: &FileMatch, b: &FileMatch) -> (r: bool)
    ensures
        r == ranks_ahead(a@, b@),
{
    a.score > b.score || (a.score == b.score && (a.modified_ms > b.modified_ms || (a.modified_ms == b.modified_ms
        && less(a.path.as_str(), b.path.as_str()))))
}

fn keep_at_most(ms: &mut Vec<FileMatch>, limit: usize)
    ensures
        matches_view(final(ms)@) == at_most(matches_view(old(ms)@), limit as int),
{
    let ghost before = matches_view(ms@);
    if ms.len() > limit {
        ms.truncate(limit);
        assert(matches_view(ms@) =~= before.take(limit as int));
    }
}

/// Rank the files for the quick switcher's `needle`: each row (path, title,
/// kind name, modification time) whose name the needle matches becomes a
/// hit; a blank needle keeps the rows' order (the host lists the most
/// recently modified first), any other sorts by score, then recency, then
/// path; at most `limit` are kept.
pub fn quick_switch_among(needle: &str, rows: Vec<(String, Option<String>, String, i64)>, limit: usize) -> (r: Vec<
    FileMatch,
>)
    requires
        forall|i: int| 0 <= i < rows@.len() ==> score_fits(needle@.len() as int, (#[trigger] rows@[i]).0@.len() as int),
    ensures
        matches_view(r@) == quick_switch_result(needle@, rows@, limit as int),
{
    let ghost rv = rows@;
    let mut hits: Vec<FileMatch> = Vec::new();
    let mut i: usize = 0;
    assert(rv.take(0) =~= Seq::<(String, Option<String>, String, i64)>::empty());
    assert(matches_view(hits@) =~= Seq::<MatchView>::empty());
    while i < rows.len()
        invariant
            rv == rows@,
            i <= rv.len(),
            forall|k: int| 0 <= k < rv.len() ==> score_fits(needle@.len() as int, (#[trigger] rv[k]).0@.len() as int),
            matches_view(hits@) == hits_of(needle@, rv.take(i as int)),
        decreases rv.len() - i,
    {
        assert(rv.take(i + 1).drop_last() =~= rv.take(i as int));
        assert(rv.take(i + 1).last() == rv[i as int]);
        let row = &rows[i];
        assert(score_fits(needle@.len() as int, row.0@.len() as int));
        match score_path(needle, row.0.as_str()) {
            Some(hit) => {
                let path = VaultPath::from_indexed(clone_string(&row.0));
                let title = match &row.1 {
                    Some(t) => clone_string(t),
                    None => str_to_string(path.stem()),
                };
                let m = FileMatch {
                    title,
                    kind: FileKind::parse(row.2.as_str()),
                    score: hit.score,
                    positions: hit.positions,
                    modified_ms: row.3,
                    path,
                };
                let ghost before = matches_view(hits@);
                let ghost mv = m@;
                hits.push(m);
                assert(matches_view(hits@) =~= before.push(mv));
            },
            None => {},
        }
        i = i + 1;
    }
    assert(rv.take(i as int) =~= rv);
    let n = to_chars(needle);
    let (a, b) = trim_range(&n, 0, n.len());
    proof {
        assert(n@.subrange(0, n@.len() as int) =~= needle@);
    }
    if a == b {
        keep_at_most(&mut hits, limit);
        return hits;
    }
    let ghost hv = matches_view(hits@);
    let mut rest = hits;
    let mut out: Vec<FileMatch> = Vec::new();
    let ghost mut done: int = 0;
    assert(hv.take(0) =~= Seq::<MatchView>::empty());
    assert(matches_view(out@) =~= Seq::<MatchView>::empty());
    while rest.len() > 0
        invariant
            0 <= done <= hv.len(),
            matches_view(rest@) == hv.skip(done),
            matches_view(out@) == ranked(hv.take(done)),
        decreases rest@.len(),
    {
        let ghost before_rest = rest@;
        let m = rest.remove(0);
        assert(hv.skip(done).len() == before_rest.len());
        assert(matches_view(before_rest)[0] == m@);
        assert(hv[done] == m@);
        assert(matches_view(rest@) =~= hv.skip(done + 1)) by {
            assert(matches_view(rest@) =~= matches_view(before_rest).drop_first());
        }
        assert(hv.take(done + 1).drop_last() =~= hv.take(done));
        assert(hv.take(done + 1).last() == m@);
        let ghost sv = matches_view(out@);
        let mut p = out.len();
        while p > 0 && goes_ahead(&m, &out[p - 1])
            invariant
                p <= out@.len(),
                sv == matches_view(out@),
                forall|j: int| p <= j < out@.len() ==> ranks_ahead(m@, #[trigger] sv[j]),
            decreases p,
        {
            assert(sv[p - 1] == out@[p - 1]@);
            p = p - 1;
        }
        proof {
            if p > 0 {
                assert(sv[p - 1] == out@[p - 1]@);
            }
            lemma_insert_ranked_at(sv, m@, p as int);
        }
        let ghost mv = m@;
        out.insert(p, m);
        assert(matches_view(out@) =~= sv.take(p as int).push(mv) + sv.skip(p as int));
        proof {
            done = done + 1;
        }
    }
    assert(hv.take(done) =~= hv);
    keep_at_most(&mut out, limit);
    out
}

} // verus!
