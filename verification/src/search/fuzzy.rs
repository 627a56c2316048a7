//! Fuzzy filename matching for the quick switcher.
//!
//! Typing `prjpl` should find `Projects/Project Plan.md`. This is a
//! subsequence match with a score that rewards the things that make a match
//! feel right: consecutive characters, matches at the start of a word, and a
//! short candidate.
use vstd::prelude::*;
use crate::strings::{
    is_alnum, is_alphanumeric, is_lower, is_lowercase, is_upper, is_uppercase, lower_chars,
    rfind_char, rfind_char_in, to_chars, to_lowercase_char,
};

verus! {

/// A scored match, with the positions that matched so the UI can highlight
/// them.
#[derive(Debug, Clone, PartialEq, Eq)]
pub struct FuzzyMatch {
    pub score: i32,
    /// Character indices in the candidate that matched, in order.
    pub positions: Vec<usize>,
}

pub const BONUS_CONSECUTIVE: i32 = 12;
pub const BONUS_WORD_START: i32 = 10;
pub const BONUS_EXACT_CASE: i32 = 2;
pub const PENALTY_GAP: i32 = -1;
pub const PENALTY_LEADING: i32 = -2;
pub const MAX_LEADING_PENALTY: i32 = -12;

/// The needle and candidate lengths whose score stays within `i32`: a
/// needle character earns at most 25 points and costs at most 12, a
/// file-name match earns 20 more, and the candidate's length costs an eighth
/// of it.
pub open spec fn score_fits(needle_len: int, candidate_len: int) -> bool {
    25 * needle_len + 20 <= i32::MAX && 12 * needle_len + candidate_len / 8 <= i32::MAX
}

/// Whether `needle` can be scored against `candidate` within `i32`.
pub fn scorable(needle: &str, candidate: &str) -> (r: bool)
    ensures
        r == score_fits(needle@.len() as int, candidate@.len() as int),
{
    let n = to_chars(needle).len() as u128;
    let c = to_chars(candidate).len() as u128;
    25 * n + 20 <= 2_147_483_647u128 && 12 * n + c / 8 <= 2_147_483_647u128
}

/// The first character `char::to_lowercase` yields.
pub open spec fn lower_of(c: char) -> char {
    lower_chars(c)[0]
}

/// Does position `i` start a word: the first character, one after a
/// non-alphanumeric, or an upper-case letter after a lower-case one?
pub open spec fn word_start(cs: Seq<char>, i: int) -> bool {
    i == 0 || !is_alnum(cs[i - 1]) || (is_lower(cs[i - 1]) && is_upper(cs[i]))
}

/// The first position at or after `from` matching `c` ignoring case.
pub open spec fn next_match(cs: Seq<char>, from: int, c: char) -> Option<int>
    decreases cs.len() - from,
{
    if from < 0 || from >= cs.len() {
        None
    } else if lower_of(cs[from]) == lower_of(c) {
        Some(from)
    } else {
        next_match(cs, from + 1, c)
    }
}

pub open spec fn min_int(a: int, b: int) -> int {
    if a <= b { a } else { b }
}

pub open spec fn max_int(a: int, b: int) -> int {
    if a >= b { a } else { b }
}

/// What matching needle character `nc` at `found` is worth, after a match at
/// `previous`.
pub open spec fn match_points(cs: Seq<char>, nc: char, found: int, previous: Option<int>) -> int {
    let ws = word_start(cs, found);
    1 + (if cs[found] == nc { BONUS_EXACT_CASE as int } else { 0 }) + (if ws { BONUS_WORD_START as int } else { 0 })
        + match previous {
        Some(p) => if p + 1 == found {
            BONUS_CONSECUTIVE as int
        } else if ws {
            // Skipping ahead to the start of the next word is the whole point
            // of an initialism, so it is not charged for the distance.
            0
        } else {
            PENALTY_GAP * min_int(found - p - 1, 10)
        },
        None => if ws {
            0
        } else {
            max_int(PENALTY_LEADING * min_int(found, 10), MAX_LEADING_PENALTY as int)
        },
    }
}

/// The state of a greedy left-to-right match.
pub struct Walk {
    pub next: int,
    pub previous: Option<int>,
    pub total: int,
    pub positions: Seq<int>,
}

/// The greedy match of the first `j` needle characters, each at the first
/// place after the previous one.
pub open spec fn walk(cs: Seq<char>, ns: Seq<char>, j: int) -> Option<Walk>
    decreases j,
{
    if j <= 0 {
        Some(Walk { next: 0, previous: None, total: 0, positions: seq![] })
    } else {
        match walk(cs, ns, j - 1) {
            None => None,
            Some(w) => match next_match(cs, w.next, ns[j - 1]) {
                None => None,
                Some(f) => Some(
                    Walk {
                        next: f + 1,
                        previous: Some(f),
                        total: w.total + match_points(cs, ns[j - 1], f, w.previous),
                        positions: w.positions.push(f),
                    },
                ),
            },
        }
    }
}

/// The score and positions of `needle` in `candidate`, or `None` when it is
/// not a subsequence. A shorter candidate containing the same match is the
/// better answer.
pub open spec fn fuzzy(needle: Seq<char>, candidate: Seq<char>) -> Option<(int, Seq<int>)> {
    if needle.len() == 0 {
        Some((0, seq![]))
    } else if needle.len() > candidate.len() {
        None
    } else {
        match walk(candidate, needle, needle.len() as int) {
            None => None,
            Some(w) => Some((w.total - candidate.len() / 8, w.positions)),
        }
    }
}

pub open spec fn positions_view(p: Seq<usize>) -> Seq<int> {
    p.map_values(|x: usize| x as int)
}

fn lower(c: char) -> (r: char)
    ensures
        r == lower_of(c),
{
    let v = to_lowercase_char(c);
    v[0]
}

fn is_word_start(chars: &Vec<char>, index: usize) -> (r: bool)
    requires
        index < chars@.len(),
    ensures
        r == word_start(chars@, index as int),
{
    if index == 0 {
        return true;
    }
    let previous = chars[index - 1];
    let current = chars[index];
    !is_alphanumeric(previous) || (is_lowercase(previous) && is_uppercase(current))
}

proof fn lemma_next_match(cs: Seq<char>, from: int, c: char)
    requires
        0 <= from,
    ensures
        match next_match(cs, from, c) {
            Some(f) => from <= f < cs.len() && lower_of(cs[f]) == lower_of(c)
                && forall|k: int| from <= k < f ==> lower_of(#[trigger] cs[k]) != lower_of(c),
            None => forall|k: int| from <= k < cs.len() ==> lower_of(#[trigger] cs[k]) != lower_of(c),
        },
    decreases cs.len() - from,
{
    if from < cs.len() && lower_of(cs[from]) != lower_of(c) {
        lemma_next_match(cs, from + 1, c);
    }
}

proof fn lemma_next_match_at(cs: Seq<char>, from: int, c: char, k: int)
    requires
        0 <= from <= k <= cs.len(),
        forall|i: int| from <= i < k ==> lower_of(#[trigger] cs[i]) != lower_of(c),
        k < cs.len() ==> lower_of(cs[k]) == lower_of(c),
    ensures
        next_match(cs, from, c) == (if k < cs.len() { Some(k) } else { None::<int> }),
    decreases k - from,
{
    if from < k {
        lemma_next_match_at(cs, from + 1, c, k);
    }
}

proof fn lemma_points_bounds(cs: Seq<char>, nc: char, found: int, previous: Option<int>)
    requires
        0 <= found < cs.len(),
        previous matches Some(p) ==> p < found,
    ensures
        -12 <= match_points(cs, nc, found, previous) <= 25,
{
}

/// Score `needle` against `candidate`, or `None` if it is not a
/// subsequence. Matching is case-insensitive; matching the exact case is
/// only a tiebreak.
pub fn score(needle: &str, candidate: &str) -> (r: Option<FuzzyMatch>)
    requires
        score_fits(needle@.len() as int, candidate@.len() as int),
    ensures
        match fuzzy(needle@, candidate@) {
            None => r is None,
            Some((s, p)) => r matches Some(m) && m.score == s && positions_view(m.positions@) == p,
        },
        r matches Some(m) ==> -13 * candidate@.len() <= m.score <= 25 * candidate@.len(),
        r matches Some(m) ==> m.score <= 25 * needle@.len(),
{
    let needle_chars = to_chars(needle);
    if needle_chars.len() == 0 {
        let positions: Vec<usize> = Vec::new();
        assert(positions_view(positions@) =~= seq![]);
        return Some(FuzzyMatch { score: 0, positions });
    }
    let candidate_chars = to_chars(candidate);
    let ghost cs = candidate_chars@;
    let ghost ns = needle_chars@;
    let n = candidate_chars.len();
    if needle_chars.len() > n {
        return None;
    }
    let mut positions: Vec<usize> = Vec::new();
    let mut total: i32 = 0;
    let mut candidate_index: usize = 0;
    let mut previous: Option<usize> = None;
    let mut j: usize = 0;
    assert(positions_view(positions@) =~= seq![]);
    while j < needle_chars.len()
        invariant
            cs == candidate_chars@,
            ns == needle_chars@,
            cs == candidate@,
            ns == needle@,
            ns.len() > 0,
            n == cs.len(),
            score_fits(ns.len() as int, n as int),
            ns.len() <= n,
            j <= ns.len(),
            candidate_index <= n,
            previous matches Some(p) ==> p < candidate_index,
            -12 * j <= total <= 25 * j,
            walk(cs, ns, j as int) == Some(Walk {
                next: candidate_index as int,
                previous: match previous {
                    Some(p) => Some(p as int),
                    None => None::<int>,
                },
                total: total as int,
                positions: positions_view(positions@),
            }),
        decreases ns.len() - j,
    {
        let needle_char = needle_chars[j];
        let lowered = lower(needle_char);
        let mut k = candidate_index;
        while k < n && lower(candidate_chars[k]) != lowered
            invariant
                cs == candidate_chars@,
                n == cs.len(),
                candidate_index <= k <= n,
                lowered == lower_of(needle_char),
                forall|i: int| candidate_index <= i < k ==> lower_of(#[trigger] cs[i]) != lower_of(needle_char),
            decreases n - k,
        {
            k = k + 1;
        }
        proof {
            lemma_next_match_at(cs, candidate_index as int, needle_char, k as int);
        }
        if k == n {
            proof {
                assert(ns[j as int] == needle_char);
                assert(walk(cs, ns, j + 1) is None);
                lemma_walk_none_sticks(cs, ns, j + 1);
            }
            return None;
        }
        let found = k;
        let mut points: i32 = 1;
        if candidate_chars[found] == needle_char {
            points = points + BONUS_EXACT_CASE;
        }
        let ws = is_word_start(&candidate_chars, found);
        if ws {
            points = points + BONUS_WORD_START;
        }
        match previous {
            Some(p) => {
                if p + 1 == found {
                    points = points + BONUS_CONSECUTIVE;
                } else if ws {
                } else {
                    let gap = found - p - 1;
                    let capped: i32 = if gap < 10 { gap as i32 } else { 10 };
                    points = points + PENALTY_GAP * capped;
                }
            },
            None => {
                if !ws {
                    let capped: i32 = if found < 10 { found as i32 } else { 10 };
                    let leading = PENALTY_LEADING * capped;
                    points = points + if leading > MAX_LEADING_PENALTY { leading } else { MAX_LEADING_PENALTY };
                }
            },
        }
        proof {
            lemma_points_bounds(cs, needle_char, found as int, match previous {
                Some(p) => Some(p as int),
                None => None::<int>,
            });
            assert(points == match_points(cs, needle_char, found as int, match previous {
                Some(p) => Some(p as int),
                None => None::<int>,
            }));
            assert(ns[j as int] == needle_char);
        }
        total = total + points;
        let ghost before = positions@;
        positions.push(found);
        assert(positions_view(positions@) =~= positions_view(before).push(found as int));
        previous = Some(found);
        candidate_index = found + 1;
        j = j + 1;
    }
    total = total - (n / 8) as i32;
    Some(FuzzyMatch { score: total, positions })
}

proof fn lemma_walk_none_sticks(cs: Seq<char>, ns: Seq<char>, j: int)
    requires
        0 <= j <= ns.len(),
        walk(cs, ns, j) is None,
    ensures
        walk(cs, ns, ns.len() as int) is None,
    decreases ns.len() - j,
{
    if j < ns.len() {
        lemma_walk_none_sticks(cs, ns, j + 1);
    }
}

/// The part of a path after its last `/`.
pub open spec fn path_file_name(path: Seq<char>) -> Seq<char> {
    match rfind_char(path, '/') {
        Some(i) => path.skip(i + 1),
        None => path,
    }
}

/// Score against a path: a match in the filename earns 20 more and its
/// positions index the whole path; otherwise the whole path is scored.
pub open spec fn fuzzy_path(needle: Seq<char>, path: Seq<char>) -> Option<(int, Seq<int>)> {
    let name = path_file_name(path);
    let offset = path.len() - name.len();
    match fuzzy(needle, name) {
        Some((s, p)) => Some((s + 20, p.map_values(|x: int| x + offset))),
        None => fuzzy(needle, path),
    }
}

/// Score against a path, weighting the filename above the folders it sits
/// in. Typing `plan` should rank `Plan.md` above `Plans/notes.md`, and both
/// above a note that merely lives in a folder called `Planning`.
pub fn score_path(needle: &str, path: &str) -> (r: Option<FuzzyMatch>)
    requires
        score_fits(needle@.len() as int, path@.len() as int),
    ensures
        match fuzzy_path(needle@, path@) {
            None => r is None,
            Some((s, p)) => r matches Some(m) && m.score == s && positions_view(m.positions@) == p,
        },
{
    let chars = to_chars(path);
    let n = chars.len();
    let start: usize = match rfind_char_in(&chars, 0, n, '/') {
        Some(i) => i + 1,
        None => 0,
    };
    proof {
        assert(chars@.subrange(0, n as int) =~= path@);
        assert(path@.skip(start as int) =~= chars@.subrange(start as int, n as int));
    }
    let name = crate::strings::string_of(&chars, start, n);
    let offset = start;
    match score(needle, name.as_str()) {
        Some(hit) => {
            let ghost p = positions_view(hit.positions@);
            proof {
                lemma_fuzzy_positions(needle@, name@);
            }
            let mut positions: Vec<usize> = Vec::new();
            let mut i: usize = 0;
            while i < hit.positions.len()
                invariant
                    p == positions_view(hit.positions@),
                    forall|k: int| 0 <= k < p.len() ==> 0 <= #[trigger] p[k] < name@.len(),
                    name@.len() + offset == n,
                    i <= hit.positions@.len(),
                    positions_view(positions@) == p.take(i as int).map_values(|x: int| x + offset),
                decreases hit.positions@.len() - i,
            {
                let ghost before = positions@;
                assert(p[i as int] == hit.positions@[i as int]);
                positions.push(hit.positions[i] + offset);
                assert(positions_view(positions@) =~= positions_view(before).push(p[i as int] + offset));
                assert(p.take(i + 1).map_values(|x: int| x + offset) =~= p.take(i as int).map_values(|x: int| x + offset).push(p[i as int] + offset));
                i = i + 1;
            }
            assert(p.take(p.len() as int) =~= p);
            Some(FuzzyMatch { score: hit.score + 20, positions })
        },
        None => score(needle, path),
    }
}

// ---------------------------------------------------------------------------
// Laws.

/// `positions` places each needle character, ignoring case, at increasing
/// places of the candidate.
pub open spec fn embeds(needle: Seq<char>, candidate: Seq<char>, positions: Seq<int>) -> bool {
    &&& positions.len() == needle.len()
    &&& forall|j: int| 0 <= j < positions.len() ==> 0 <= #[trigger] positions[j] < candidate.len()
    &&& forall|j: int, k: int| 0 <= j < k < positions.len() ==> positions[j] < positions[k]
    &&& forall|j: int| 0 <= j < positions.len() ==> lower_of(candidate[#[trigger] positions[j]]) == lower_of(needle[j])
}

proof fn lemma_walk_embeds(cs: Seq<char>, ns: Seq<char>, j: int)
    requires
        0 <= j <= ns.len(),
        walk(cs, ns, j) is Some,
    ensures
        embeds(ns.take(j), cs, walk(cs, ns, j).unwrap().positions),
        walk(cs, ns, j).unwrap().next >= 0,
        forall|k: int| 0 <= k < j ==> #[trigger] walk(cs, ns, j).unwrap().positions[k] < walk(cs, ns, j).unwrap().next,
        j > 0 ==> walk(cs, ns, j).unwrap().previous == Some(walk(cs, ns, j).unwrap().next - 1),
        j == 0 ==> walk(cs, ns, j).unwrap().previous is None,
    decreases j,
{
    if j > 0 {
        lemma_walk_embeds(cs, ns, j - 1);
        let w = walk(cs, ns, j - 1).unwrap();
        lemma_next_match(cs, w.next, ns[j - 1]);
        let w2 = walk(cs, ns, j).unwrap();
        assert forall|k: int| 0 <= k < j implies lower_of(cs[#[trigger] w2.positions[k]]) == lower_of(ns.take(j)[k]) by {
            if k < j - 1 {
                assert(ns.take(j)[k] == ns.take(j - 1)[k]);
            }
        }
    }
}

/// The positions of a match place each needle character, ignoring case, at
/// increasing places of the candidate.
pub proof fn lemma_fuzzy_positions(needle: Seq<char>, candidate: Seq<char>)
    ensures
        fuzzy(needle, candidate) matches Some((s, p)) ==> embeds(needle, candidate, p),
{
    if needle.len() > 0 && needle.len() <= candidate.len() {
        if walk(candidate, needle, needle.len() as int) is Some {
            lemma_walk_embeds(candidate, needle, needle.len() as int);
            assert(needle.take(needle.len() as int) =~= needle);
        }
    }
}

proof fn lemma_next_match_before(cs: Seq<char>, from: int, c: char, k: int)
    requires
        0 <= from <= k < cs.len(),
        lower_of(cs[k]) == lower_of(c),
    ensures
        next_match(cs, from, c) matches Some(f) && from <= f <= k,
{
    lemma_next_match(cs, from, c);
}

proof fn lemma_walk_complete(cs: Seq<char>, ns: Seq<char>, p: Seq<int>, j: int)
    requires
        embeds(ns, cs, p),
        0 <= j <= ns.len(),
    ensures
        walk(cs, ns, j) matches Some(w) && (j > 0 ==> w.next <= p[j - 1] + 1) && w.next >= 0,
    decreases j,
{
    if j > 0 {
        lemma_walk_complete(cs, ns, p, j - 1);
        let w = walk(cs, ns, j - 1).unwrap();
        if j > 1 {
            assert(p[j - 2] < p[j - 1]);
        }
        assert(0 <= p[j - 1] < cs.len());
        assert(lower_of(cs[p[j - 1]]) == lower_of(ns[j - 1]));
        assert(w.next <= p[j - 1]);
        lemma_next_match_before(cs, w.next, ns[j - 1], p[j - 1]);
        let f = next_match(cs, w.next, ns[j - 1]).unwrap();
        assert(walk(cs, ns, j) == Some(Walk {
            next: f + 1,
            previous: Some(f),
            total: w.total + match_points(cs, ns[j - 1], f, w.previous),
            positions: w.positions.push(f),
        }));
    }
}

proof fn lemma_positions_grow(p: Seq<int>, j: int)
    requires
        forall|a: int, b: int| 0 <= a < b < p.len() ==> p[a] < p[b],
        forall|a: int| 0 <= a < p.len() ==> 0 <= #[trigger] p[a],
        0 <= j < p.len(),
    ensures
        p[j] >= j,
    decreases j,
{
    if j > 0 {
        lemma_positions_grow(p, j - 1);
    }
}

/// A needle matches exactly when its characters occur, ignoring case and in
/// order, somewhere in the candidate, and the positions reported are such
/// an occurrence.
pub proof fn law_fuzzy_matches_subsequences(needle: Seq<char>, candidate: Seq<char>)
    ensures
        fuzzy(needle, candidate) is Some <==> exists|p: Seq<int>| embeds(needle, candidate, p),
        fuzzy(needle, candidate) matches Some((s, p)) ==> embeds(needle, candidate, p),
{
    lemma_fuzzy_positions(needle, candidate);
    if fuzzy(needle, candidate) is Some {
        assert(embeds(needle, candidate, fuzzy(needle, candidate).unwrap().1));
    }
    if exists|p: Seq<int>| embeds(needle, candidate, p) {
        let p = choose|p: Seq<int>| embeds(needle, candidate, p);
        if needle.len() > 0 {
            lemma_positions_grow(p, needle.len() - 1);
            lemma_walk_complete(candidate, needle, p, needle.len() as int);
        }
    }
}

/// The quick switcher scores a filename match 20 above the same match
/// against the whole path, and reports its positions in the whole path.
pub proof fn law_filename_matches_outrank(needle: Seq<char>, path: Seq<char>)
    requires
        fuzzy(needle, path_file_name(path)) is Some,
    ensures
        fuzzy_path(needle, path) matches Some((s, p)) && s == fuzzy(needle, path_file_name(path)).unwrap().0 + 20,
{
}

} // verus!
