//! Turning what the writer wrote into the file they meant.
//!
//! `[[Project Plan]]` has to find `Projects/2026/Project Plan.md` without the
//! writer having typed a path, and it has to keep finding it after the file
//! moves. A link never silently picks a different file between two runs, and
//! when two files answer equally well the link is flagged rather than
//! guessed at.
use vstd::prelude::*;
use crate::strings::{
    chars_eq, lowercase, rfind_char, rfind_char_in, string_of, strip_leading,
    strip_leading_char, to_chars, to_lowercase, trim, trim_range,
};
use crate::vault::path::{file_name_of, segments_of, stem_of, VaultPath};

verus! {

/// What a link target points at.
#[derive(Debug, PartialEq, Eq)]
pub enum Resolution {
    /// A single best file.
    Resolved {
        file_id: i64,
        path: VaultPath,
        /// Other files answered equally well. The link still resolves, to
        /// the deterministic best candidate, but the UI should offer to make
        /// it explicit.
        ambiguous: bool,
    },
    /// Nothing in the vault answers to this target.
    Unresolved,
}

impl Resolution {
    pub fn file_id(&self) -> (r: Option<i64>)
        ensures
            r == match self {
                Resolution::Resolved { file_id, .. } => Some(*file_id),
                Resolution::Unresolved => None::<i64>,
            },
    {
        match self {
            Resolution::Resolved { file_id, .. } => Some(*file_id),
            Resolution::Unresolved => None,
        }
    }

    pub fn is_ambiguous(&self) -> (r: bool)
        ensures
            r == (*self matches Resolution::Resolved { ambiguous, .. } && ambiguous),
    {
        match self {
            Resolution::Resolved { ambiguous, .. } => *ambiguous,
            Resolution::Unresolved => false,
        }
    }
}

/// `target` with `\` read as `/`.
pub open spec fn unify_separators(s: Seq<char>) -> Seq<char> {
    Seq::new(s.len(), |i: int| if s[i] == '\\' { '/' } else { s[i] })
}

/// A link target as matching sees it: trimmed, forward slashes, no leading
/// `./` and no leading `/`.
pub open spec fn normalized_target(target: Seq<char>) -> Seq<char> {
    let unified = unify_separators(trim(target));
    let stripped = if unified.len() >= 2 && unified[0] == '.' && unified[1] == '/' {
        unified.skip(2)
    } else {
        unified
    };
    strip_leading(stripped, '/')
}

/// The part after the last `/`.
pub open spec fn last_segment(s: Seq<char>) -> Seq<char> {
    match rfind_char(s, '/') {
        Some(i) => s.skip(i + 1),
        None => s,
    }
}

/// The target's final segment, lowercased and stripped of any extension (a
/// leading dot does not start one).
pub open spec fn tail_key(target: Seq<char>) -> Seq<char> {
    let last = last_segment(normalized_target(target));
    match rfind_char(last, '.') {
        Some(i) => if i == 0 {
            lowercase(last)
        } else {
            lowercase(last.take(i))
        },
        None => lowercase(last),
    }
}

/// The key stored on every link row, and the one the candidate lookup
/// matches against a file's lowercased stem and file name: the target's
/// final segment, lowercased, whole. A dotted name such as `v1.2 notes`
/// finds `v1.2 notes.md` by its stem, and `Plan.md` finds the file by its
/// name; `law_exact_case_candidates_share_the_key` shows that every file
/// ranked by the target's exact case carries it.
pub open spec fn lookup_key(target: Seq<char>) -> Seq<char> {
    lowercase(last_segment(normalized_target(target)))
}

/// Normalise a link target for matching: forward slashes, no leading `./`,
/// trimmed.
pub fn normalize_target(target: &str) -> (r: String)
    ensures
        r@ == normalized_target(target@),
{
    let raw = to_chars(target);
    let (a, b) = trim_range(&raw, 0, raw.len());
    let mut unified: Vec<char> = Vec::new();
    let mut i = a;
    while i < b
        invariant
            a <= i <= b <= raw@.len(),
            unified@ == unify_separators(raw@.subrange(a as int, i as int)),
        decreases b - i,
    {
        unified.push(if raw[i] == '\\' { '/' } else { raw[i] });
        i = i + 1;
        assert(unified@ =~= unify_separators(raw@.subrange(a as int, i as int)));
    }
    proof {
        assert(raw@.subrange(0, raw@.len() as int) =~= target@);
    }
    let n = unified.len();
    let start: usize = if n >= 2 && unified[0] == '.' && unified[1] == '/' { 2 } else { 0 };
    let s = strip_leading_char(&unified, start, n, '/');
    proof {
        assert(unified@.subrange(start as int, n as int) =~= (if start == 2 { unified@.skip(2) } else { unified@ }));
    }
    string_of(&unified, s, n)
}

/// The final path segment, lowercased and stripped of any extension.
pub fn target_tail(target: &str) -> (r: String)
    ensures
        r@ == tail_key(target@),
{
    let normalized = normalize_target(target);
    let v = to_chars(normalized.as_str());
    let n = v.len();
    let start: usize = match rfind_char_in(&v, 0, n, '/') {
        Some(i) => i + 1,
        None => 0,
    };
    proof {
        assert(v@.subrange(0, n as int) =~= v@);
        assert(last_segment(v@) =~= v@.subrange(start as int, n as int));
    }
    let ghost last = v@.subrange(start as int, n as int);
    let end: usize = match rfind_char_in(&v, start, n, '.') {
        Some(i) => if i == start { n } else { i },
        None => n,
    };
    proof {
        if end < n {
            assert(last.take(end - start) =~= v@.subrange(start as int, end as int));
        } else {
            assert(v@.subrange(start as int, end as int) =~= last);
        }
    }
    to_lowercase(string_of(&v, start, end).as_str())
}

/// The key a target is looked up and stored by (see `lookup_key`). Given a
/// new file `Project Plan.md`, one indexed lookup by its stem and by its
/// name finds every unresolved link that could now point at it.
pub fn target_key(target: &str) -> (r: String)
    ensures
        r@ == lookup_key(target@),
{
    let normalized = normalize_target(target);
    let v = to_chars(normalized.as_str());
    let n = v.len();
    let start: usize = match rfind_char_in(&v, 0, n, '/') {
        Some(i) => i + 1,
        None => 0,
    };
    proof {
        assert(v@.subrange(0, n as int) =~= v@);
        assert(last_segment(v@) =~= v@.subrange(start as int, n as int));
    }
    to_lowercase(string_of(&v, start, n).as_str())
}

/// A file that could answer a link, as the index holds it.
#[derive(Debug)]
pub struct Candidate {
    pub file_id: i64,
    pub path: VaultPath,
}

/// The implicit extensions a bare target may be assumed to have.
pub open spec fn with_implicit(target: Seq<char>, k: int) -> Seq<char> {
    if k == 0 {
        target + ".md"@
    } else {
        target + ".canvas"@
    }
}

/// Does `path` end with `suffix` (or `suffix` with an implicit extension),
/// aligned on a path separator?
pub open spec fn path_suffix(path: Seq<char>, suffix: Seq<char>) -> bool {
    exists|c: Seq<char>| #![trigger aligned_suffix(path, c)]
        (c == suffix || c == with_implicit(suffix, 0) || c == with_implicit(suffix, 1)) && aligned_suffix(path, c)
}

pub open spec fn aligned_suffix(path: Seq<char>, c: Seq<char>) -> bool {
    path.len() > c.len() && path.skip(path.len() - c.len()) == c && path[path.len() - c.len() - 1] == '/'
}

/// How well a path answers a target, lower being better:
/// 0 the exact path; 1 the exact path with an implicit extension;
/// 2 either of those ignoring case; 3 a whole-segment suffix of the path,
/// exact case; 4 the same ignoring case.
pub open spec fn tier_of(target: Seq<char>, path: Seq<char>) -> Option<int> {
    let pf = lowercase(path);
    let tf = lowercase(target);
    if path == target {
        Some(0)
    } else if path == with_implicit(target, 0) || path == with_implicit(target, 1) {
        Some(1)
    } else if pf == tf || pf == with_implicit(tf, 0) || pf == with_implicit(tf, 1) {
        Some(2)
    } else if path_suffix(path, target) {
        Some(3)
    } else if path_suffix(pf, tf) {
        Some(4)
    } else {
        None
    }
}

proof fn lemma_file_name_is_last_segment(s: Seq<char>)
    ensures
        file_name_of(s) == last_segment(s),
{
    match rfind_char(s, '/') {
        Some(i) => {
            assert(s.subrange(i + 1, s.len() as int) =~= s.skip(i + 1));
        },
        None => {},
    }
}

/// Text without a `/` added at the end only lengthens the file name.
proof fn lemma_file_name_extended(a: Seq<char>, b: Seq<char>)
    requires
        forall|k: int| 0 <= k < b.len() ==> b[k] != '/',
    ensures
        file_name_of(a + b) == file_name_of(a) + b,
{
    crate::strings::lemma_rfind_char(a, '/');
    let s = a + b;
    match rfind_char(a, '/') {
        Some(i) => {
            assert forall|j: int| i < j < s.len() implies s[j] != '/' by {
                if j >= a.len() {
                    assert(s[j] == b[j - a.len()]);
                }
            }
            crate::strings::lemma_rfind_char_at(s, '/', i);
            assert(s.subrange(i + 1, s.len() as int) =~= a.subrange(i + 1, a.len() as int) + b);
        },
        None => {
            assert forall|j: int| -1 < j < s.len() implies s[j] != '/' by {
                if j >= a.len() {
                    assert(s[j] == b[j - a.len()]);
                }
            }
            crate::strings::lemma_rfind_char_at(s, '/', -1);
        },
    }
}

/// The file name of a path that ends in `/` and then `c` is that of `c`.
proof fn lemma_file_name_aligned(path: Seq<char>, c: Seq<char>)
    requires
        aligned_suffix(path, c),
    ensures
        file_name_of(path) == file_name_of(c),
{
    let p = path.len() - c.len();
    assert forall|k: int| 0 <= k < c.len() implies path[p + k] == c[k] by {
        assert(path.skip(p)[k] == path[p + k]);
    }
    crate::strings::lemma_rfind_char(c, '/');
    match rfind_char(c, '/') {
        Some(j) => {
            assert forall|k: int| p + j < k < path.len() implies path[k] != '/' by {
                assert(path[k] == c[k - p]);
            }
            crate::strings::lemma_rfind_char_at(path, '/', p + j);
            assert(path.subrange(p + j + 1, path.len() as int) =~= c.subrange(j + 1, c.len() as int));
        },
        None => {
            assert forall|k: int| p - 1 < k < path.len() implies path[k] != '/' by {
                assert(path[k] == c[k - p]);
            }
            crate::strings::lemma_rfind_char_at(path, '/', p - 1);
            assert(path.subrange(p, path.len() as int) =~= c);
        },
    }
}

/// A file name made of a non-empty name and an implicit extension has that
/// name as its stem and the extension's last segment adds nothing.
proof fn lemma_implicit_name(n: Seq<char>, k: int)
    requires
        last_segment(n).len() > 0,
        k == 0 || k == 1,
    ensures
        stem_of(file_name_of(with_implicit(n, k))) == last_segment(n),
{
    reveal_strlit(".md");
    reveal_strlit(".canvas");
    let ext = if k == 0 { ".md"@ } else { ".canvas"@ };
    assert(with_implicit(n, k) == n + ext);
    assert forall|j: int| 0 <= j < ext.len() implies ext[j] != '/' by {}
    lemma_file_name_extended(n, ext);
    lemma_file_name_is_last_segment(n);
    let name = last_segment(n) + ext;
    let i = last_segment(n).len() as int;
    assert forall|j: int| i < j < name.len() implies name[j] != '.' by {
        assert(name[j] == ext[j - i]);
    }
    assert(name[i] == ext[0]);
    crate::strings::lemma_rfind_char_at(name, '.', i);
    assert(name.take(i) =~= last_segment(n));
}

/// Every file that the ranking scores by the exact case of a target (the
/// exact path, the path with an implicit extension, or a whole-segment
/// suffix of the path) has the target's lookup key as its lowercased file
/// name or its lowercased stem: the one candidate query keyed by
/// `lookup_key` gathers it.
pub proof fn law_exact_case_candidates_share_the_key(target: Seq<char>, path: Seq<char>)
    requires
        last_segment(normalized_target(target)).len() > 0,
        tier_of(normalized_target(target), path) == Some(0int) || tier_of(normalized_target(target), path) == Some(
            1int,
        ) || tier_of(normalized_target(target), path) == Some(3int),
    ensures
        lowercase(file_name_of(path)) == lookup_key(target) || lowercase(stem_of(file_name_of(path))) == lookup_key(
            target,
        ),
{
    let n = normalized_target(target);
    lemma_file_name_is_last_segment(n);
    if path == n {
    } else if path == with_implicit(n, 0) {
        lemma_implicit_name(n, 0);
    } else if path == with_implicit(n, 1) {
        lemma_implicit_name(n, 1);
    } else {
        assert(path_suffix(path, n));
        let c = choose|c: Seq<char>|
            (c == n || c == with_implicit(n, 0) || c == with_implicit(n, 1)) && aligned_suffix(path, c);
        lemma_file_name_aligned(path, c);
        if c == with_implicit(n, 0) {
            lemma_implicit_name(n, 0);
        } else if c == with_implicit(n, 1) {
            lemma_implicit_name(n, 1);
        }
    }
}

/// Lexicographic order of strings (`str::cmp`; UTF-8 orders as code
/// points do).
pub open spec fn seq_less(a: Seq<char>, b: Seq<char>) -> bool
    decreases a.len(),
{
    if b.len() == 0 {
        false
    } else if a.len() == 0 {
        true
    } else if a[0] != b[0] {
        a[0] < b[0]
    } else {
        seq_less(a.drop_first(), b.drop_first())
    }
}

/// Path `p` answers `target` better than path `q`: a better tier, then a
/// shallower path, then the path that sorts first.
pub open spec fn path_beats(target: Seq<char>, p: Seq<char>, q: Seq<char>) -> bool {
    let tp = tier_of(target, p).unwrap();
    let tq = tier_of(target, q).unwrap();
    let dp = segments_of(p).len();
    let dq = segments_of(q).len();
    tp < tq || (tp == tq && (dp < dq || (dp == dq && seq_less(p, q))))
}

/// Candidate `i` beats candidate `j`.
pub open spec fn beats(target: Seq<char>, cs: Seq<Candidate>, i: int, j: int) -> bool {
    path_beats(target, cs[i].path@, cs[j].path@)
}

/// `w` is the candidate a stable sort by (tier, depth, path) puts first.
pub open spec fn is_winner(target: Seq<char>, cs: Seq<Candidate>, w: int) -> bool {
    &&& 0 <= w < cs.len()
    &&& tier_of(target, cs[w].path@) is Some
    &&& forall|j: int| #![trigger cs[j]]
        0 <= j < cs.len() && j != w && tier_of(target, cs[j].path@) is Some ==> if j < w {
            beats(target, cs, w, j)
        } else {
            !beats(target, cs, j, w)
        }
}

/// Another candidate answers exactly as well as `w`: same tier, same depth.
pub open spec fn has_equal(target: Seq<char>, cs: Seq<Candidate>, w: int) -> bool {
    exists|j: int| #![trigger cs[j]]
        0 <= j < cs.len() && j != w && tier_of(target, cs[j].path@) == tier_of(target, cs[w].path@)
            && segments_of(cs[j].path@).len() == segments_of(cs[w].path@).len()
}

/// What ranking `cs` against `target` must answer.
pub open spec fn ranks_to(target: Seq<char>, cs: Seq<Candidate>, r: Resolution) -> bool {
    match r {
        Resolution::Unresolved => forall|j: int| #![trigger cs[j]] 0 <= j < cs.len() ==> tier_of(target, cs[j].path@) is None,
        Resolution::Resolved { file_id, path, ambiguous } => exists|w: int|
            #[trigger] is_winner(target, cs, w) && file_id == cs[w].file_id && path@ == cs[w].path@
                && ambiguous == has_equal(target, cs, w),
    }
}

fn implicit_path(target: &Vec<char>, k: usize) -> (r: Vec<char>)
    ensures
        r@ == with_implicit(target@, k as int),
{
    let ext = if k == 0 { to_chars(".md") } else { to_chars(".canvas") };
    let mut r: Vec<char> = Vec::new();
    let mut i: usize = 0;
    while i < target.len()
        invariant
            i <= target@.len(),
            r@ == target@.take(i as int),
        decreases target@.len() - i,
    {
        r.push(target[i]);
        i = i + 1;
        assert(r@ =~= target@.take(i as int));
    }
    let mut j: usize = 0;
    while j < ext.len()
        invariant
            j <= ext@.len(),
            r@ == target@ + ext@.take(j as int),
        decreases ext@.len() - j,
    {
        r.push(ext[j]);
        j = j + 1;
        assert(r@ =~= target@ + ext@.take(j as int));
    }
    assert(target@.take(target@.len() as int) =~= target@);
    assert(ext@.take(ext@.len() as int) =~= ext@);
    r
}

fn aligned(path: &Vec<char>, c: &Vec<char>) -> (r: bool)
    ensures
        r == aligned_suffix(path@, c@),
{
    if path.len() <= c.len() {
        return false;
    }
    let start = path.len() - c.len();
    let hit = crate::strings::starts_with_at(path, start, c);
    proof {
        assert(path@.skip(start as int) =~= path@.subrange(start as int, start + c@.len()));
    }
    hit && path[start - 1] == '/'
}

fn is_path_suffix(path: &Vec<char>, suffix: &Vec<char>) -> (r: bool)
    ensures
        r == path_suffix(path@, suffix@),
{
    let a = aligned(path, suffix);
    let md = implicit_path(suffix, 0);
    let b = aligned(path, &md);
    let canvas = implicit_path(suffix, 1);
    let c = aligned(path, &canvas);
    proof {
        if a {
            assert(aligned_suffix(path@, suffix@));
        } else if b {
            assert(aligned_suffix(path@, md@));
        } else if c {
            assert(aligned_suffix(path@, canvas@));
        }
    }
    a || b || c
}

fn tier(target: &Vec<char>, path: &Vec<char>) -> (r: Option<u8>)
    ensures
        match tier_of(target@, path@) {
            Some(t) => r matches Some(x) && x == t,
            None => r is None,
        },
{
    if chars_eq(path, target) {
        return Some(0);
    }
    if chars_eq(path, &implicit_path(target, 0)) || chars_eq(path, &implicit_path(target, 1)) {
        return Some(1);
    }
    let pf = to_chars(to_lowercase(string_of(path, 0, path.len()).as_str()).as_str());
    let tf = to_chars(to_lowercase(string_of(target, 0, target.len()).as_str()).as_str());
    proof {
        assert(path@.subrange(0, path@.len() as int) =~= path@);
        assert(target@.subrange(0, target@.len() as int) =~= target@);
    }
    if chars_eq(&pf, &tf) || chars_eq(&pf, &implicit_path(&tf, 0)) || chars_eq(&pf, &implicit_path(&tf, 1)) {
        return Some(2);
    }
    if is_path_suffix(path, target) {
        return Some(3);
    }
    if is_path_suffix(&pf, &tf) {
        return Some(4);
    }
    None
}

proof fn lemma_seq_less_skip(a: Seq<char>, b: Seq<char>, i: int)
    requires
        0 <= i <= a.len(),
        i <= b.len(),
        a.take(i) == b.take(i),
    ensures
        seq_less(a, b) == seq_less(a.skip(i), b.skip(i)),
    decreases i,
{
    if i > 0 {
        assert(a[0] == a.take(i)[0]);
        assert(b[0] == b.take(i)[0]);
        assert(a.drop_first().take(i - 1) =~= a.take(i).drop_first());
        assert(b.drop_first().take(i - 1) =~= b.take(i).drop_first());
        lemma_seq_less_skip(a.drop_first(), b.drop_first(), i - 1);
        assert(a.drop_first().skip(i - 1) =~= a.skip(i));
        assert(b.drop_first().skip(i - 1) =~= b.skip(i));
    } else {
        assert(a.skip(0) =~= a);
        assert(b.skip(0) =~= b);
    }
}

/// `a < b` for strings, as `str`'s ordering answers it.
pub(crate) fn less(a: &str, b: &str) -> (r: bool)
    ensures
        r == seq_less(a@, b@),
{
    let x = to_chars(a);
    let y = to_chars(b);
    let mut i: usize = 0;
    while i < x.len() && i < y.len() && x[i] == y[i]
        invariant
            i <= x@.len(),
            i <= y@.len(),
            x@.take(i as int) == y@.take(i as int),
        decreases x@.len() - i,
    {
        assert(x@.take(i + 1) =~= x@.take(i as int).push(x@[i as int]));
        assert(y@.take(i + 1) =~= y@.take(i as int).push(y@[i as int]));
        i = i + 1;
    }
    proof {
        lemma_seq_less_skip(x@, y@, i as int);
    }
    if i == y.len() {
        false
    } else if i == x.len() {
        true
    } else {
        proof {
            assert(x@.skip(i as int)[0] == x@[i as int]);
            assert(y@.skip(i as int)[0] == y@[i as int]);
        }
        x[i] < y[i]
    }
}

/// The rank of one candidate, lower being better: tier then depth.
struct Score {
    tier: u8,
    depth: usize,
}

fn score(target: &Vec<char>, candidate: &Candidate) -> (r: Option<Score>)
    ensures
        match tier_of(target@, candidate.path@) {
            Some(t) => r matches Some(x) && x.tier == t && x.depth == segments_of(candidate.path@).len(),
            None => r is None,
        },
{
    let path = to_chars(candidate.path.as_str());
    match tier(target, &path) {
        Some(t) => Some(Score { tier: t, depth: candidate.path.depth() }),
        None => None,
    }
}

/// `w` beats every scored candidate before `n` as `is_winner` asks.
pub open spec fn winner_upto(target: Seq<char>, cs: Seq<Candidate>, w: int, n: int) -> bool {
    &&& 0 <= w < n
    &&& tier_of(target, cs[w].path@) is Some
    &&& forall|j: int| #![trigger cs[j]]
        0 <= j < n && j != w && tier_of(target, cs[j].path@) is Some ==> if j < w {
            beats(target, cs, w, j)
        } else {
            !beats(target, cs, j, w)
        }
}

/// Pick the best candidate for an already normalised target.
///
/// Best first by (tier, depth); ties broken by path so the choice is stable
/// across runs; flagged when another candidate scores the same.
pub fn rank(normalized_target: &str, candidates: Vec<Candidate>) -> (r: Resolution)
    requires
        candidates@.len() < usize::MAX,
    ensures
        ranks_to(normalized_target@, candidates@, r),
{
    let target = to_chars(normalized_target);
    let ghost t = normalized_target@;
    let ghost cs = candidates@;
    let n = candidates.len();
    let mut best: Option<(usize, u8, usize)> = None;
    let mut j: usize = 0;
    while j < n
        invariant
            target@ == t,
            cs == candidates@,
            n == cs.len(),
            j <= n,
            match best {
                None => forall|k: int| #![trigger cs[k]] 0 <= k < j ==> tier_of(t, cs[k].path@) is None,
                Some((w, bt, bd)) => winner_upto(t, cs, w as int, j as int)
                    && tier_of(t, cs[w as int].path@) == Some(bt as int)
                    && bd == segments_of(cs[w as int].path@).len(),
            },
        decreases n - j,
    {
        match score(&target, &candidates[j]) {
            None => {},
            Some(sc) => {
                match best {
                    None => {
                        best = Some((j, sc.tier, sc.depth));
                    },
                    Some((w, bt, bd)) => {
                        let better = sc.tier < bt || (sc.tier == bt && (sc.depth < bd
                            || (sc.depth == bd && less(candidates[j].path.as_str(), candidates[w].path.as_str()))));
                        assert(better == beats(t, cs, j as int, w as int));
                        if better {
                            proof {
                                assert forall|k: int| #![trigger cs[k]]
                                    0 <= k < j + 1 && k != j && tier_of(t, cs[k].path@) is Some implies beats(t, cs, j as int, k) by {
                                    if k != w {
                                        if k < w {
                                            lemma_seq_less_asym(cs[w as int].path@, cs[k].path@);
                                        }
                                        lemma_beats_transitive(t, cs, j as int, w as int, k);
                                    }
                                }
                            }
                            best = Some((j, sc.tier, sc.depth));
                        }
                    },
                }
            },
        }
        j = j + 1;
    }
    match best {
        None => Resolution::Unresolved,
        Some((w, bt, bd)) => {
            let mut equal = false;
            let mut k: usize = 0;
            while k < n
                invariant
                    target@ == t,
                    cs == candidates@,
                    n == cs.len(),
                    w < n,
                    k <= n,
                    tier_of(t, cs[w as int].path@) == Some(bt as int),
                    bd == segments_of(cs[w as int].path@).len(),
                    equal == exists|x: int| #![trigger cs[x]]
                        0 <= x < k && x != w && tier_of(t, cs[x].path@) == tier_of(t, cs[w as int].path@)
                            && segments_of(cs[x].path@).len() == segments_of(cs[w as int].path@).len(),
                decreases n - k,
            {
                if k != w {
                    match score(&target, &candidates[k]) {
                        Some(sc) => {
                            if sc.tier == bt && sc.depth == bd {
                                equal = true;
                            }
                        },
                        None => {},
                    }
                }
                k = k + 1;
            }
            let mut candidates = candidates;
            let winner = candidates.remove(w);
            proof {
                assert(is_winner(t, cs, w as int));
            }
            Resolution::Resolved { file_id: winner.file_id, path: winner.path, ambiguous: equal }
        },
    }
}

pub(crate) proof fn lemma_seq_less_transitive(a: Seq<char>, b: Seq<char>, c: Seq<char>)
    requires
        seq_less(a, b),
        seq_less(b, c),
    ensures
        seq_less(a, c),
    decreases a.len(),
{
    if a.len() > 0 && b.len() > 0 && c.len() > 0 && a[0] == b[0] && b[0] == c[0] {
        lemma_seq_less_transitive(a.drop_first(), b.drop_first(), c.drop_first());
    }
}

pub(crate) proof fn lemma_seq_less_asym(a: Seq<char>, b: Seq<char>)
    ensures
        !(seq_less(a, b) && seq_less(b, a)),
    decreases a.len(),
{
    if a.len() > 0 && b.len() > 0 && a[0] == b[0] {
        lemma_seq_less_asym(a.drop_first(), b.drop_first());
    }
}

pub(crate) proof fn lemma_seq_less_total(a: Seq<char>, b: Seq<char>)
    ensures
        seq_less(a, b) || seq_less(b, a) || a == b,
    decreases a.len(),
{
    if a.len() > 0 && b.len() > 0 && a[0] == b[0] {
        lemma_seq_less_total(a.drop_first(), b.drop_first());
        if a.drop_first() == b.drop_first() {
            assert(a =~= seq![a[0]] + a.drop_first());
            assert(b =~= seq![b[0]] + b.drop_first());
        }
    } else if a.len() == 0 && b.len() == 0 {
        assert(a =~= b);
    }
}

/// A candidate that beats `b` beats every candidate `b` is at least as good
/// as.
proof fn lemma_beats_transitive(t: Seq<char>, cs: Seq<Candidate>, a: int, b: int, c: int)
    requires
        0 <= a < cs.len(),
        0 <= b < cs.len(),
        0 <= c < cs.len(),
        tier_of(t, cs[a].path@) is Some,
        tier_of(t, cs[b].path@) is Some,
        tier_of(t, cs[c].path@) is Some,
        beats(t, cs, a, b),
        !beats(t, cs, c, b),
    ensures
        beats(t, cs, a, c),
{
    let pa = cs[a].path@;
    let pb = cs[b].path@;
    let pc = cs[c].path@;
    lemma_seq_less_asym(pa, pb);
    lemma_seq_less_asym(pb, pc);
    lemma_seq_less_asym(pa, pc);
    lemma_seq_less_total(pb, pc);
    lemma_seq_less_total(pa, pc);
    if seq_less(pa, pb) && seq_less(pb, pc) {
        lemma_seq_less_transitive(pa, pb, pc);
    }
}

/// Resolve `target` against the candidate files the index returned for its
/// tail key: nothing for an empty target.
pub fn resolve_among(target: &str, candidates: Vec<Candidate>) -> (r: Resolution)
    requires
        candidates@.len() < usize::MAX,
    ensures
        if normalized_target(target@).len() == 0 || tail_key(normalized_target(target@)).len() == 0 {
            r is Unresolved
        } else {
            ranks_to(normalized_target(target@), candidates@, r)
        },
{
    let normalized = normalize_target(target);
    if to_chars(normalized.as_str()).len() == 0 {
        return Resolution::Unresolved;
    }
    let tail = target_tail(normalized.as_str());
    if to_chars(tail.as_str()).len() == 0 {
        return Resolution::Unresolved;
    }
    rank(normalized.as_str(), candidates)
}

/// The same candidates, each with the same id, in any order.
pub open spec fn same_candidates(a: Seq<Candidate>, b: Seq<Candidate>) -> bool {
    &&& forall|i: int| #![trigger a[i]] 0 <= i < a.len() ==> exists|j: int| #![trigger b[j]]
        0 <= j < b.len() && b[j].path@ == a[i].path@ && b[j].file_id == a[i].file_id
    &&& forall|j: int| #![trigger b[j]] 0 <= j < b.len() ==> exists|i: int| #![trigger a[i]]
        0 <= i < a.len() && a[i].path@ == b[j].path@ && a[i].file_id == b[j].file_id
}

pub open spec fn distinct_paths(a: Seq<Candidate>) -> bool {
    forall|i: int, j: int| 0 <= i < a.len() && 0 <= j < a.len() && i != j ==> a[i].path@ != a[j].path@
}

/// The path, id and flag of a resolution, as plain values.
pub open spec fn resolution_view(r: Resolution) -> Option<(i64, Seq<char>, bool)> {
    match r {
        Resolution::Resolved { file_id, path, ambiguous } => Some((file_id, path@, ambiguous)),
        Resolution::Unresolved => None,
    }
}

proof fn lemma_path_beats_order(t: Seq<char>, p: Seq<char>, q: Seq<char>)
    requires
        tier_of(t, p) is Some,
        tier_of(t, q) is Some,
        p != q,
    ensures
        path_beats(t, p, q) != path_beats(t, q, p),
{
    lemma_seq_less_asym(p, q);
    lemma_seq_less_total(p, q);
}

proof fn lemma_winner_maps(t: Seq<char>, a: Seq<Candidate>, b: Seq<Candidate>, w1: int, w2: int)
    requires
        same_candidates(a, b),
        distinct_paths(a),
        distinct_paths(b),
        is_winner(t, a, w1),
        is_winner(t, b, w2),
    ensures
        a[w1].path@ == b[w2].path@,
{
    let i2 = choose|i: int| #![trigger a[i]] 0 <= i < a.len() && a[i].path@ == b[w2].path@ && a[i].file_id == b[w2].file_id;
    assert(b[w2] == b[w2]);
    let j1 = choose|j: int| #![trigger b[j]] 0 <= j < b.len() && b[j].path@ == a[w1].path@ && b[j].file_id == a[w1].file_id;
    assert(a[w1] == a[w1]);
    if a[w1].path@ != b[w2].path@ {
        assert(a[i2] == a[i2]);
        assert(b[j1] == b[j1]);
        lemma_path_beats_order(t, a[w1].path@, b[w2].path@);
        // in `a`, w1 is at least as good as i2; in `b`, w2 at least as good as j1
        if i2 < w1 {
            assert(beats(t, a, w1, i2));
        } else {
            assert(!beats(t, a, i2, w1));
        }
        if j1 < w2 {
            assert(beats(t, b, w2, j1));
        } else {
            assert(!beats(t, b, j1, w2));
        }
    }
}

/// A link never picks a different file because the index returned its
/// candidates in another order: the same candidates, with distinct paths,
/// resolve to the same file with the same ambiguity flag.
pub proof fn law_resolution_ignores_candidate_order(
    t: Seq<char>,
    a: Seq<Candidate>,
    b: Seq<Candidate>,
    ra: Resolution,
    rb: Resolution,
)
    requires
        same_candidates(a, b),
        distinct_paths(a),
        distinct_paths(b),
        ranks_to(t, a, ra),
        ranks_to(t, b, rb),
    ensures
        resolution_view(ra) == resolution_view(rb),
{
    match (ra, rb) {
        (Resolution::Unresolved, Resolution::Unresolved) => {},
        (Resolution::Resolved { .. }, Resolution::Unresolved) => {
            let w1 = choose|w: int| #[trigger] is_winner(t, a, w) && ra->file_id == a[w].file_id && ra->path@ == a[w].path@
                && ra->ambiguous == has_equal(t, a, w);
            assert(a[w1] == a[w1]);
            let j = choose|j: int| #![trigger b[j]] 0 <= j < b.len() && b[j].path@ == a[w1].path@ && b[j].file_id == a[w1].file_id;
            assert(tier_of(t, b[j].path@) is None);
        },
        (Resolution::Unresolved, Resolution::Resolved { .. }) => {
            let w2 = choose|w: int| #[trigger] is_winner(t, b, w) && rb->file_id == b[w].file_id && rb->path@ == b[w].path@
                && rb->ambiguous == has_equal(t, b, w);
            assert(b[w2] == b[w2]);
            let i = choose|i: int| #![trigger a[i]] 0 <= i < a.len() && a[i].path@ == b[w2].path@ && a[i].file_id == b[w2].file_id;
            assert(tier_of(t, a[i].path@) is None);
        },
        (Resolution::Resolved { .. }, Resolution::Resolved { .. }) => {
            let w1 = choose|w: int| #[trigger] is_winner(t, a, w) && ra->file_id == a[w].file_id && ra->path@ == a[w].path@
                && ra->ambiguous == has_equal(t, a, w);
            let w2 = choose|w: int| #[trigger] is_winner(t, b, w) && rb->file_id == b[w].file_id && rb->path@ == b[w].path@
                && rb->ambiguous == has_equal(t, b, w);
            lemma_winner_maps(t, a, b, w1, w2);
            assert(a[w1] == a[w1]);
            let j1 = choose|j: int| #![trigger b[j]] 0 <= j < b.len() && b[j].path@ == a[w1].path@ && b[j].file_id == a[w1].file_id;
            assert(j1 == w2);
            if has_equal(t, a, w1) {
                let x = choose|x: int| #![trigger a[x]]
                    0 <= x < a.len() && x != w1 && tier_of(t, a[x].path@) == tier_of(t, a[w1].path@)
                        && segments_of(a[x].path@).len() == segments_of(a[w1].path@).len();
                let y = choose|j: int| #![trigger b[j]] 0 <= j < b.len() && b[j].path@ == a[x].path@ && b[j].file_id == a[x].file_id;
                assert(y != w2);
                assert(has_equal(t, b, w2));
            }
            if has_equal(t, b, w2) {
                let y = choose|x: int| #![trigger b[x]]
                    0 <= x < b.len() && x != w2 && tier_of(t, b[x].path@) == tier_of(t, b[w2].path@)
                        && segments_of(b[x].path@).len() == segments_of(b[w2].path@).len();
                let x = choose|i: int| #![trigger a[i]] 0 <= i < a.len() && a[i].path@ == b[y].path@ && a[i].file_id == b[y].file_id;
                assert(x != w1);
                assert(has_equal(t, a, w1));
            }
        },
    }
}

} // verus!
