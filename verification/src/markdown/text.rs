//! Byte-offset and line bookkeeping shared by the parser, the scanner and the
//! transformer.
use vstd::prelude::*;
use vstd::string::StrSliceExecFns;
use core::ops::Range;
use crate::strings::{
    blen, boff, char_width, is_alnum, is_alphanumeric, is_whitespace, is_ws, lemma_boff_full,
    lemma_boff_inj, lemma_boff_mono, lemma_boff_step, to_chars, Text,
};

verus! {

/// Byte offsets at which lines start: 0, then one past every `\n`.
pub open spec fn line_starts(s: Seq<char>) -> Seq<int>
    decreases s.len(),
{
    if s.len() == 0 {
        seq![0]
    } else if s.last() == '\n' {
        line_starts(s.drop_last()).push(blen(s) as int)
    } else {
        line_starts(s.drop_last())
    }
}

/// The line containing byte `offset`: the last line start at or before it.
pub open spec fn line_at(starts: Seq<int>, offset: int) -> int {
    count_le(starts, offset) - 1
}

/// How many of `starts` are at most `offset`.
pub open spec fn count_le(starts: Seq<int>, offset: int) -> int
    decreases starts.len(),
{
    if starts.len() == 0 {
        0
    } else {
        count_le(starts.drop_last(), offset) + if starts.last() <= offset {
            1int
        } else {
            0int
        }
    }
}

pub open spec fn sorted_strict(s: Seq<int>) -> bool {
    forall|i: int, j: int| 0 <= i < j < s.len() ==> s[i] < s[j]
}

/// For sorted starts, the count is the index of the first start beyond
/// `offset`.
proof fn lemma_count_le_split(starts: Seq<int>, offset: int, k: int)
    requires
        sorted_strict(starts),
        0 <= k <= starts.len(),
        forall|i: int| 0 <= i < k ==> starts[i] <= offset,
        forall|i: int| k <= i < starts.len() ==> starts[i] > offset,
    ensures
        count_le(starts, offset) == k,
    decreases starts.len(),
{
    if starts.len() > 0 {
        if k == starts.len() {
            lemma_count_le_split(starts.drop_last(), offset, k - 1);
        } else {
            lemma_count_le_split(starts.drop_last(), offset, k);
        }
    }
}

pub proof fn lemma_line_starts(s: Seq<char>)
    ensures
        line_starts(s).len() >= 1,
        line_starts(s)[0] == 0,
        sorted_strict(line_starts(s)),
        forall|i: int| 0 <= i < line_starts(s).len() ==> 0 <= #[trigger] line_starts(s)[i] <= blen(s),
    decreases s.len(),
{
    if s.len() > 0 {
        lemma_line_starts(s.drop_last());
        assert(blen(s) == blen(s.drop_last()) + crate::strings::cw(s.last()));
    }
}

/// How many line breaks stand before byte `offset`: the `\n` characters
/// whose byte position is less than `offset`.
pub open spec fn newlines_before(s: Seq<char>, offset: int) -> int
    decreases s.len(),
{
    if s.len() == 0 {
        0
    } else {
        newlines_before(s.drop_last(), offset) + if s.last() == '\n' && blen(s.drop_last()) < offset {
            1int
        } else {
            0int
        }
    }
}

/// The line a byte offset falls on is the number of line breaks before it.
pub proof fn law_line_is_newlines_before(s: Seq<char>, offset: int)
    requires
        0 <= offset,
    ensures
        line_at(line_starts(s), offset) == newlines_before(s, offset),
    decreases s.len(),
{
    if s.len() == 0 {
        assert(seq![0int].drop_last() =~= Seq::<int>::empty());
        assert(count_le(Seq::<int>::empty(), offset) == 0);
        assert(seq![0int].last() == 0);
        assert(count_le(seq![0int], offset) == 1);
    } else {
        law_line_is_newlines_before(s.drop_last(), offset);
        assert(blen(s) == blen(s.drop_last()) + crate::strings::cw(s.last()));
        if s.last() == '\n' {
            assert(crate::strings::cw(s.last()) == 1);
            let st = line_starts(s.drop_last()).push(blen(s) as int);
            assert(st.drop_last() =~= line_starts(s.drop_last()));
            assert(count_le(st, offset) == count_le(line_starts(s.drop_last()), offset) + if blen(s) <= offset {
                1int
            } else {
                0int
            });
        }
    }
}

/// Maps byte offsets to line numbers.
#[derive(Debug)]
pub struct LineIndex {
    starts: Vec<usize>,
    len: usize,
}

impl LineIndex {
    pub closed spec fn starts(&self) -> Seq<int> {
        self.starts@.map_values(|x: usize| x as int)
    }

    pub closed spec fn byte_len(&self) -> int {
        self.len as int
    }

    /// This is the index of `s`.
    pub open spec fn indexes(&self, s: Seq<char>) -> bool {
        self.starts() == line_starts(s) && self.byte_len() == blen(s)
    }

    pub closed spec fn wf(&self) -> bool {
        &&& self.starts@.len() >= 1
        &&& self.starts@[0] == 0
        &&& sorted_strict(self.starts())
        &&& forall|i: int| 0 <= i < self.starts@.len() ==> #[trigger] self.starts@[i] <= self.len
    }

    pub fn new(source: &str) -> (r: LineIndex)
        ensures
            r.indexes(source@),
            r.wf(),
    {
        let v = to_chars(source);
        let total = crate::strings::byte_len(source);
        let mut starts: Vec<usize> = Vec::new();
        starts.push(0);
        let mut pos: usize = 0;
        let mut i: usize = 0;
        proof {
            lemma_boff_full(v@);
            assert(v@.take(0) =~= Seq::<char>::empty());
            assert(starts@.map_values(|x: usize| x as int) =~= line_starts(v@.take(0)));
        }
        while i < v.len()
            invariant
                0 <= i <= v@.len(),
                v@ == source@,
                total == blen(v@),
                pos == boff(v@, i as int),
                starts@.map_values(|x: usize| x as int) == line_starts(v@.take(i as int)),
            decreases v@.len() - i,
        {
            proof {
                lemma_boff_step(v@, i as int);
                lemma_boff_mono(v@, i + 1, v@.len() as int);
                lemma_boff_full(v@);
                assert(v@.take(i + 1).drop_last() =~= v@.take(i as int));
                assert(v@.take(i + 1).last() == v@[i as int]);
            }
            pos = pos + char_width(v[i]);
            if v[i] == '\n' {
                starts.push(pos);
                assert(starts@.map_values(|x: usize| x as int) =~= line_starts(v@.take(i as int)).push(pos as int));
            }
            i = i + 1;
        }
        assert(v@.take(v@.len() as int) =~= v@);
        proof {
            lemma_line_starts(source@);
            assert forall|k: int| 0 <= k < starts@.len() implies #[trigger] starts@[k] <= total by {
                assert(starts@.map_values(|x: usize| x as int)[k] == starts@[k] as int);
            }
            assert(starts@[0] as int == starts@.map_values(|x: usize| x as int)[0]);
        }
        LineIndex { starts, len: total }
    }

    /// Zero-based line containing `offset`.
    pub fn line_of(&self, offset: usize) -> (r: usize)
        requires
            self.wf(),
        ensures
            r == line_at(self.starts(), offset as int),
            r < self.line_count_spec(),
    {
        // first index whose start exceeds `offset`
        let mut lo: usize = 0;
        let mut hi: usize = self.starts.len();
        while lo < hi
            invariant
                self.wf(),
                0 <= lo <= hi <= self.starts@.len(),
                forall|i: int| 0 <= i < lo ==> self.starts@[i] <= offset,
                forall|i: int| hi <= i < self.starts@.len() ==> self.starts@[i] > offset,
            decreases hi - lo,
        {
            let mid = lo + (hi - lo) / 2;
            if self.starts[mid] <= offset {
                proof {
                    assert forall|i: int| 0 <= i <= mid implies self.starts@[i] <= offset by {
                        if i < mid {
                            assert(self.starts()[i] < self.starts()[mid as int]);
                        }
                    }
                }
                lo = mid + 1;
            } else {
                proof {
                    assert forall|i: int| mid <= i < self.starts@.len() implies self.starts@[i] > offset by {
                        if i > mid {
                            assert(self.starts()[mid as int] < self.starts()[i]);
                        }
                    }
                }
                hi = mid;
            }
        }
        proof {
            lemma_count_le_split(self.starts(), offset as int, lo as int);
        }
        lo - 1
    }

    /// Every offset from a line's first byte up to its terminator (or, on
    /// the last line, from its first byte on) lies on that line: the range
    /// `line_range` gives is that line and no other.
    pub proof fn law_line_range_is_its_line(&self, line: int, offset: int)
        requires
            self.wf(),
            0 <= line < self.starts().len(),
            self.starts()[line] <= offset,
            line + 1 < self.starts().len() ==> offset <= self.starts()[line + 1] - 1,
        ensures
            line_at(self.starts(), offset) == line,
    {
        let st = self.starts();
        assert forall|i: int| 0 <= i < line + 1 implies st[i] <= offset by {
            if i < line {
                assert(st[i] < st[line]);
            }
        }
        assert forall|i: int| line + 1 <= i < st.len() implies st[i] > offset by {
            if i > line + 1 {
                assert(st[line + 1] < st[i]);
            }
        }
        lemma_count_le_split(st, offset, line + 1);
    }

    pub closed spec fn line_count_spec(&self) -> int {
        self.starts@.len() as int
    }

    /// Byte range of a line, excluding its terminator.
    pub fn line_range(&self, line: usize) -> (r: Range<usize>)
        requires
            self.wf(),
        ensures
            r.start == (if line < self.starts().len() { self.starts()[line as int] } else { self.byte_len() }),
            r.end == (if line + 1 < self.starts().len() { self.starts()[line + 1] - 1 } else { self.byte_len() }),
            r.start <= r.end,
    {
        let start = if line < self.starts.len() { self.starts[line] } else { self.len };
        proof {
            if line < self.starts.len() - 1 {
                assert(self.starts()[line as int] < self.starts()[line + 1]);
                assert(self.starts()[line as int] == self.starts@[line as int] as int);
                assert(self.starts()[line + 1] == self.starts@[line + 1] as int);
            }
            if line < self.starts.len() {
                assert(self.starts()[line as int] == self.starts@[line as int] as int);
            }
        }
        let end = if line < self.starts.len() - 1 { self.starts[line + 1] - 1 } else { self.len };
        start..end
    }

    pub fn line_count(&self) -> (r: usize)
        ensures
            r == self.line_count_spec(),
            r == self.starts().len(),
    {
        self.starts.len()
    }

    /// The text of a line with trailing carriage returns removed; empty when
    /// the line's range does not fall on character boundaries of `source`.
    pub fn line_text<'a>(&self, source: &'a str, line: usize) -> (r: &'a str)
        requires
            self.wf(),
        ensures
            r@ == strip_cr(
                match byte_slice(
                    source@,
                    if line < self.starts().len() { self.starts()[line as int] } else { self.byte_len() },
                    if line + 1 < self.starts().len() { self.starts()[line + 1] - 1 } else { self.byte_len() },
                ) {
                    Some(t) => t,
                    None => Seq::<char>::empty(),
                },
            ),
    {
        let range = self.line_range(line);
        let text = Text::new(source);
        let (ci, cj) = char_range(&text, range.start, range.end);
        let mut end = cj;
        while end > ci && text.chars[end - 1] == '\r'
            invariant
                text.wf(),
                text.chars@ == source@,
                ci <= end <= cj <= text.chars@.len(),
                strip_cr(source@.subrange(ci as int, cj as int)) == strip_cr(source@.subrange(ci as int, end as int)),
            decreases end - ci,
        {
            assert(source@.subrange(ci as int, end as int).drop_last() =~= source@.subrange(ci as int, end - 1));
            end = end - 1;
        }
        source.substring_char(ci, end)
    }
}

/// Character indices of the byte range `a..b`, or `(0, 0)` when it does not
/// fall on boundaries in order.
fn char_range(text: &Text, a: usize, b: usize) -> (r: (usize, usize))
    requires
        text.wf(),
    ensures
        r.0 <= r.1 <= text.chars@.len(),
        text.chars@.subrange(r.0 as int, r.1 as int) == match byte_slice(text.chars@, a as int, b as int) {
            Some(t) => t,
            None => Seq::<char>::empty(),
        },
{
    let x = text.index_of_byte(a);
    let y = text.index_of_byte(b);
    match (x, y) {
        (Some(i), Some(j)) => {
            if i <= j {
                proof {
                    lemma_byte_slice_some(text.chars@, i as int, j as int);
                }
                (i, j)
            } else {
                proof {
                    lemma_byte_slice_none_order(text.chars@, a as int, b as int);
                    assert(text.chars@.subrange(0, 0) =~= Seq::<char>::empty());
                }
                (0, 0)
            }
        },
        _ => {
            proof {
                lemma_byte_slice_none(text.chars@, a as int, b as int);
                assert(text.chars@.subrange(0, 0) =~= Seq::<char>::empty());
            }
            (0, 0)
        },
    }
}

/// `source.get(a..b)`: the characters between two byte offsets, when both
/// fall on character boundaries in order.
pub open spec fn byte_slice(s: Seq<char>, a: int, b: int) -> Option<Seq<char>> {
    if exists|i: int, j: int| 0 <= i <= j <= s.len() && boff(s, i) == a && boff(s, j) == b {
        let (i, j) = choose|i: int, j: int| 0 <= i <= j <= s.len() && boff(s, i) == a && boff(s, j) == b;
        Some(s.subrange(i, j))
    } else {
        None
    }
}

pub proof fn lemma_byte_slice_some(s: Seq<char>, i: int, j: int)
    requires
        0 <= i <= j <= s.len(),
    ensures
        byte_slice(s, boff(s, i) as int, boff(s, j) as int) == Some(s.subrange(i, j)),
{
    let a = boff(s, i) as int;
    let b = boff(s, j) as int;
    assert(0 <= i <= j <= s.len() && boff(s, i) == a && boff(s, j) == b);
    let (x, y) = choose|x: int, y: int| 0 <= x <= y <= s.len() && boff(s, x) == a && boff(s, y) == b;
    lemma_boff_inj(s, x, i);
    lemma_boff_inj(s, y, j);
}

pub proof fn lemma_byte_slice_none(s: Seq<char>, a: int, b: int)
    requires
        (forall|i: int| 0 <= i <= s.len() ==> boff(s, i) != a) || (forall|i: int| 0 <= i <= s.len() ==> boff(s, i) != b),
    ensures
        byte_slice(s, a, b) is None,
{
}

pub proof fn lemma_byte_slice_none_order(s: Seq<char>, a: int, b: int)
    requires
        exists|i: int, j: int| 0 <= j < i <= s.len() && boff(s, i) == a && boff(s, j) == b,
    ensures
        byte_slice(s, a, b) is None,
{
    let (i, j) = choose|i: int, j: int| 0 <= j < i <= s.len() && boff(s, i) == a && boff(s, j) == b;
    if exists|x: int, y: int| 0 <= x <= y <= s.len() && boff(s, x) == a && boff(s, y) == b {
        let (x, y) = choose|x: int, y: int| 0 <= x <= y <= s.len() && boff(s, x) == a && boff(s, y) == b;
        lemma_boff_inj(s, x, i);
        lemma_boff_inj(s, y, j);
    }
}

/// `trim_end_matches('\r')`.
pub open spec fn strip_cr(s: Seq<char>) -> Seq<char>
    decreases s.len(),
{
    if s.len() > 0 && s.last() == '\r' {
        strip_cr(s.drop_last())
    } else {
        s
    }
}

/// Byte ranges the extension scanner must not look inside.
#[derive(Debug)]
pub struct ExclusionZones {
    ranges: Vec<Range<usize>>,
}

/// Whether one of `ranges` covers `offset`.
pub open spec fn covered(ranges: Seq<Range<usize>>, offset: int) -> bool {
    exists|i: int| 0 <= i < ranges.len() && (#[trigger] ranges[i]).start <= offset < ranges[i].end
}

impl ExclusionZones {
    /// The offsets this set excludes.
    pub closed spec fn covers_spec(&self, offset: int) -> bool {
        covered(self.ranges@, offset)
    }

    pub closed spec fn is_empty_spec(&self) -> bool {
        self.ranges@.len() == 0
    }

    /// The union of the given ranges; empty ranges contribute nothing.
    pub fn new(ranges: Vec<Range<usize>>) -> (z: ExclusionZones)
        ensures
            forall|o: int| z.covers_spec(o) == covered(ranges@, o),
            z.is_empty_spec() == (forall|i: int| 0 <= i < ranges@.len() ==> #[trigger] ranges@[i].start >= ranges@[i].end),
    {
        let mut kept: Vec<Range<usize>> = Vec::new();
        let mut i: usize = 0;
        while i < ranges.len()
            invariant
                0 <= i <= ranges@.len(),
                forall|o: int| covered(kept@, o) == covered(ranges@.take(i as int), o),
                kept@.len() == 0 <==> (forall|k: int| 0 <= k < i ==> #[trigger] ranges@[k].start >= ranges@[k].end),
            decreases ranges@.len() - i,
        {
            let r = ranges[i].start..ranges[i].end;
            let ghost before = kept@;
            assert forall|o: int| covered(ranges@.take(i + 1), o) == (covered(ranges@.take(i as int), o)
                || (ranges@[i as int].start <= o < ranges@[i as int].end)) by {
                if covered(ranges@.take(i + 1), o) {
                    let k = choose|k: int| 0 <= k < i + 1 && (#[trigger] ranges@.take(i + 1)[k]).start <= o < ranges@.take(i + 1)[k].end;
                    if k < i {
                        assert(ranges@.take(i as int)[k] == ranges@[k]);
                    }
                }
                if covered(ranges@.take(i as int), o) {
                    let k = choose|k: int| 0 <= k < i && (#[trigger] ranges@.take(i as int)[k]).start <= o < ranges@.take(i as int)[k].end;
                    assert(ranges@.take(i + 1)[k] == ranges@[k]);
                }
                if ranges@[i as int].start <= o < ranges@[i as int].end {
                    assert(ranges@.take(i + 1)[i as int] == ranges@[i as int]);
                }
            }
            if r.start >= r.end {
                assert forall|o: int| covered(kept@, o) == covered(ranges@.take(i + 1), o) by {}
            }
            if r.start < r.end {
                kept.push(r);
                assert forall|o: int| covered(kept@, o) == (covered(before, o) || (ranges@[i as int].start <= o < ranges@[i as int].end)) by {
                    if covered(kept@, o) {
                        let k = choose|k: int| 0 <= k < kept@.len() && (#[trigger] kept@[k]).start <= o < kept@[k].end;
                        if k < before.len() {
                            assert(kept@[k] == before[k]);
                        }
                    }
                    if covered(before, o) {
                        let k = choose|k: int| 0 <= k < before.len() && (#[trigger] before[k]).start <= o < before[k].end;
                        assert(kept@[k] == before[k]);
                    }
                    if ranges@[i as int].start <= o < ranges@[i as int].end {
                        assert(kept@[before.len() as int].start == ranges@[i as int].start);
                        assert(kept@[before.len() as int].end == ranges@[i as int].end);
                    }
                }
                assert forall|o: int| covered(kept@, o) == covered(ranges@.take(i + 1), o) by {
                    assert(covered(before, o) == covered(ranges@.take(i as int), o));
                }
            }
            i = i + 1;
        }
        assert(ranges@.take(ranges@.len() as int) =~= ranges@);
        ExclusionZones { ranges: kept }
    }

    /// Is `offset` inside one of the excluded ranges?
    pub fn covers(&self, offset: usize) -> (r: bool)
        ensures
            r == self.covers_spec(offset as int),
    {
        let mut i: usize = 0;
        while i < self.ranges.len()
            invariant
                0 <= i <= self.ranges@.len(),
                forall|k: int| 0 <= k < i ==> !((#[trigger] self.ranges@[k]).start <= offset < self.ranges@[k].end),
            decreases self.ranges@.len() - i,
        {
            if self.ranges[i].start <= offset && offset < self.ranges[i].end {
                return true;
            }
            i = i + 1;
        }
        false
    }

    pub fn is_empty(&self) -> (r: bool)
        ensures
            r == self.is_empty_spec(),
    {
        self.ranges.len() == 0
    }

    /// The union of these ranges and `extra`.
    pub fn extended(&self, extra: Vec<Range<usize>>) -> (z: ExclusionZones)
        ensures
            forall|o: int| z.covers_spec(o) == (self.covers_spec(o) || covered(extra@, o)),
    {
        let mut all: Vec<Range<usize>> = Vec::new();
        let mut i: usize = 0;
        while i < self.ranges.len()
            invariant
                0 <= i <= self.ranges@.len(),
                all@ == self.ranges@.take(i as int),
            decreases self.ranges@.len() - i,
        {
            all.push(self.ranges[i].start..self.ranges[i].end);
            i = i + 1;
            assert(all@ =~= self.ranges@.take(i as int));
        }
        assert(self.ranges@.take(self.ranges@.len() as int) =~= self.ranges@);
        let mut j: usize = 0;
        while j < extra.len()
            invariant
                0 <= j <= extra@.len(),
                all@ == self.ranges@ + extra@.take(j as int),
            decreases extra@.len() - j,
        {
            all.push(extra[j].start..extra[j].end);
            j = j + 1;
            assert(all@ =~= self.ranges@ + extra@.take(j as int));
        }
        assert(extra@.take(extra@.len() as int) =~= extra@);
        proof {
            let a = self.ranges@;
            let b = extra@;
            assert forall|o: int| covered(a + b, o) == (covered(a, o) || covered(b, o)) by {
                if covered(a + b, o) {
                    let k = choose|k: int| 0 <= k < (a + b).len() && (#[trigger] (a + b)[k]).start <= o < (a + b)[k].end;
                    if k < a.len() {
                        assert((a + b)[k] == a[k]);
                    } else {
                        assert((a + b)[k] == b[k - a.len()]);
                    }
                }
                if covered(a, o) {
                    let k = choose|k: int| 0 <= k < a.len() && (#[trigger] a[k]).start <= o < a[k].end;
                    assert((a + b)[k] == a[k]);
                }
                if covered(b, o) {
                    let k = choose|k: int| 0 <= k < b.len() && (#[trigger] b[k]).start <= o < b[k].end;
                    assert((a + b)[k + a.len()] == b[k]);
                }
            }
        }
        ExclusionZones::new(all)
    }
}

impl Default for ExclusionZones {
    fn default() -> (z: Self)
        ensures
            forall|o: int| !z.covers_spec(o),
            z.is_empty_spec(),
    {
        ExclusionZones { ranges: Vec::new() }
    }
}

// ---------------------------------------------------------------------------
// Word counting.

/// After each character: inside a token, the token has an alphanumeric, and
/// the number of finished counted tokens.
pub open spec fn word_state(s: Seq<char>) -> (bool, bool, nat)
    decreases s.len(),
{
    if s.len() == 0 {
        (false, false, 0)
    } else {
        let (inside, alnum, n) = word_state(s.drop_last());
        let c = s.last();
        if is_ws(c) {
            (false, false, if inside && alnum { n + 1 } else { n })
        } else {
            (true, alnum || is_alnum(c), n)
        }
    }
}

/// Runs of non-whitespace that contain at least one alphanumeric.
pub open spec fn word_count(s: Seq<char>) -> nat {
    let (inside, alnum, n) = word_state(s);
    if inside && alnum {
        n + 1
    } else {
        n
    }
}

/// Count words the way a status bar should: punctuation-only runs such as
/// `---` do not count.
pub fn count_words(text: &str) -> (r: usize)
    ensures
        r == word_count(text@),
{
    let v = to_chars(text);
    let mut inside = false;
    let mut alnum = false;
    let mut n: usize = 0;
    let mut i: usize = 0;
    while i < v.len()
        invariant
            0 <= i <= v@.len(),
            (inside, alnum, n as nat) == word_state(v@.take(i as int)),
            n + (if inside { 1int } else { 0int }) <= i,
        decreases v@.len() - i,
    {
        let c = v[i];
        assert(v@.take(i + 1).drop_last() =~= v@.take(i as int));
        if is_whitespace(c) {
            if inside && alnum {
                n = n + 1;
            }
            inside = false;
            alnum = false;
        } else {
            inside = true;
            alnum = alnum || is_alphanumeric(c);
        }
        i = i + 1;
    }
    assert(v@.take(v@.len() as int) =~= v@);
    if inside && alnum {
        n + 1
    } else {
        n
    }
}

} // verus!
