//! Locating a note's YAML frontmatter. The body is byte-for-byte sacred:
//! everything here works on exact byte ranges. Reading the YAML into typed
//! values (which hold floating-point numbers) is the host's part.
use vstd::prelude::*;
use crate::markdown::text::strip_cr;
use crate::strings::{
    blen, boff, chars_eq, eq_ic, eq_ignore_ascii_case, find_char, find_char_in, push_str, str_to_string,
    string_of, strip_leading, strip_leading_char, to_chars, trim, trim_range, Text,
};

verus! {

/// Where the frontmatter block sits in a source file, in bytes.
#[derive(Debug, Clone, Copy, PartialEq, Eq, Structural)]
pub struct FrontmatterSpan {
    /// Byte offset of the opening `---`, always 0 when present.
    pub start: usize,
    /// Byte offset just past the closing delimiter's line break. This is
    /// where the body begins.
    pub end: usize,
    /// Byte range of the YAML itself, between the delimiters.
    pub yaml_start: usize,
    pub yaml_end: usize,
}

/// The end of the line starting at `c`: the next `\n`, or the end.
pub open spec fn line_end_from(s: Seq<char>, c: int) -> int {
    match find_char(s.skip(c), '\n') {
        Some(i) => c + i,
        None => s.len() as int,
    }
}

/// Is this line (its trailing carriage returns dropped) a closing delimiter?
pub open spec fn is_closing_line(line: Seq<char>) -> bool {
    strip_cr(line) == "---"@ || strip_cr(line) == "..."@
}

/// The first closing delimiter line at or after `cursor`: its start and the
/// offset just past it.
pub open spec fn closing_from(s: Seq<char>, cursor: int) -> Option<(int, int)>
    decreases s.len() - cursor,
{
    if cursor < 0 || cursor > s.len() {
        None
    } else {
        let le = line_end_from(s, cursor);
        proof {
            crate::strings::lemma_find_char(s.skip(cursor), '\n');
        }
        if is_closing_line(s.subrange(cursor, le)) {
            Some((cursor, if le < s.len() { le + 1 } else { s.len() as int }))
        } else if le >= s.len() {
            None
        } else {
            closing_from(s, le + 1)
        }
    }
}

/// Where the YAML starts: just after an opening `---` alone on the first
/// line.
pub open spec fn yaml_start_of(s: Seq<char>) -> Option<int> {
    if s.len() >= 3 && s.take(3) == "---"@ {
        if s.len() >= 5 && s[3] == '\r' && s[4] == '\n' {
            Some(5)
        } else if s.len() >= 4 && s[3] == '\n' {
            Some(4)
        } else {
            None
        }
    } else {
        None
    }
}

/// The frontmatter block of a source, in bytes: only at the very start, and
/// only when closed by a `---` or `...` line.
pub open spec fn frontmatter_of(s: Seq<char>) -> Option<FrontmatterSpan> {
    match yaml_start_of(s) {
        None => None,
        Some(ys) => match closing_from(s, ys) {
            None => None,
            Some((ye, end)) => Some(
                FrontmatterSpan {
                    start: 0,
                    end: boff(s, end) as usize,
                    yaml_start: boff(s, ys) as usize,
                    yaml_end: boff(s, ye) as usize,
                },
            ),
        },
    }
}

/// The byte offset at which a note's prose starts.
pub open spec fn body_offset_of(s: Seq<char>) -> int {
    match frontmatter_of(s) {
        Some(span) => span.end as int,
        None => 0,
    }
}

/// Does `v[a..b]` spell `lit`?
fn spells(v: &Vec<char>, a: usize, b: usize, lit: &str) -> (r: bool)
    requires
        a <= b <= v@.len(),
    ensures
        r == (v@.subrange(a as int, b as int) == lit@),
{
    let w = to_chars(lit);
    if b - a != w.len() {
        return false;
    }
    let mut i: usize = 0;
    while i < w.len()
        invariant
            b - a == w@.len(),
            a <= b <= v@.len(),
            i <= w@.len(),
            w@ == lit@,
            forall|k: int| 0 <= k < i ==> v@[a + k] == w@[k],
        decreases w@.len() - i,
    {
        if v[a + i] != w[i] {
            assert(v@.subrange(a as int, b as int)[i as int] != w@[i as int]);
            return false;
        }
        i = i + 1;
    }
    assert(v@.subrange(a as int, b as int) =~= w@);
    true
}

/// Drop trailing carriage returns from `v[a..b]`.
fn strip_cr_end(v: &Vec<char>, a: usize, b: usize) -> (e: usize)
    requires
        a <= b <= v@.len(),
    ensures
        a <= e <= b,
        v@.subrange(a as int, e as int) == strip_cr(v@.subrange(a as int, b as int)),
{
    let mut e = b;
    while e > a && v[e - 1] == '\r'
        invariant
            a <= e <= b <= v@.len(),
            strip_cr(v@.subrange(a as int, b as int)) == strip_cr(v@.subrange(a as int, e as int)),
        decreases e - a,
    {
        assert(v@.subrange(a as int, e as int).drop_last() =~= v@.subrange(a as int, e - 1));
        e = e - 1;
    }
    e
}

/// Find the frontmatter block, if the file opens with one.
///
/// The very first bytes must be `---` followed by a line break; a `---` in
/// the middle of a file is a horizontal rule. An unterminated block is not
/// frontmatter, so no content is hidden from the user.
pub fn locate(source: &str) -> (r: Option<FrontmatterSpan>)
    ensures
        r == frontmatter_of(source@),
{
    let text = Text::new(source);
    let v = &text.chars;
    let n = v.len();
    let ghost s = source@;
    if !(n >= 3 && spells(v, 0, 3, "---")) {
        proof {
            if n >= 3 {
                assert(s.take(3) =~= s.subrange(0, 3));
            }
        }
        return None;
    }
    assert(s.take(3) =~= s.subrange(0, 3));
    let yaml_start: usize = if n >= 5 && v[3] == '\r' && v[4] == '\n' {
        5
    } else if n >= 4 && v[3] == '\n' {
        4
    } else {
        return None;
    };
    let mut cursor = yaml_start;
    loop
        invariant
            text.wf(),
            v@ == s,
            text.chars@ == s,
            s == source@,
            n == s.len(),
            yaml_start_of(s) == Some(yaml_start as int),
            yaml_start <= cursor <= n,
            closing_from(s, yaml_start as int) == closing_from(s, cursor as int),
        decreases n - cursor,
    {
        let line_end = match find_char_in(v, cursor, n, '\n') {
            Some(i) => i,
            None => n,
        };
        proof {
            assert(s.skip(cursor as int) =~= s.subrange(cursor as int, n as int));
            assert(line_end == line_end_from(s, cursor as int));
        }
        let e = strip_cr_end(v, cursor, line_end);
        let ghost closing = is_closing_line(s.subrange(cursor as int, line_end as int));
        if spells(v, cursor, e, "---") || spells(v, cursor, e, "...") {
            assert(closing);
            let end = if line_end < n { line_end + 1 } else { n };
            return Some(FrontmatterSpan {
                start: 0,
                end: text.offs[end],
                yaml_start: text.offs[yaml_start],
                yaml_end: text.offs[cursor],
            });
        }
        assert(!closing);
        if line_end >= n {
            return None;
        }
        cursor = line_end + 1;
    }
}

/// The byte offset at which the note's prose starts.
pub fn body_offset(source: &str) -> (r: usize)
    ensures
        r == body_offset_of(source@),
{
    match locate(source) {
        Some(span) => span.end,
        None => 0,
    }
}

/// A note's body: everything after its frontmatter.
pub fn body_of(source: &str) -> (r: String)
    ensures
        r@ == source@.skip(body_start_of(source@)),
{
    let ghost s = source@;
    let text = Text::new(source);
    let bo = body_offset(source);
    let n = text.chars.len();
    assert(text.offs@[n as int] == boff(s, n as int));
    proof {
        crate::strings::lemma_boff_full(s);
        lemma_body_start(s);
    }
    let ci = match text.index_of_byte(bo) {
        Some(i) => i,
        None => 0,
    };
    proof {
        crate::strings::lemma_boff_inj(s, ci as int, body_start_of(s));
    }
    let body = string_of(&text.chars, ci, n);
    assert(body@ =~= s.skip(body_start_of(s)));
    body
}

/// A note with its frontmatter replaced by `block`, a rendered block or
/// nothing, which removes it. Every character of the body is kept as it was.
pub fn with_frontmatter(source: &str, block: &str) -> (r: String)
    ensures
        r@ == block@ + source@.skip(body_start_of(source@)),
{
    let mut out = str_to_string(block);
    let body = body_of(source);
    push_str(&mut out, body.as_str());
    out
}

/// Where the property named `key` stands among `keys`, without regard to
/// ASCII case: the first match.
pub fn property_index(keys: &Vec<String>, key: &str) -> (r: Option<usize>)
    ensures
        match r {
            Some(i) => i < keys@.len() && eq_ic(keys@[i as int]@, key@) && forall|k: int|
                0 <= k < i ==> !eq_ic(#[trigger] keys@[k]@, key@),
            None => forall|k: int| 0 <= k < keys@.len() ==> !eq_ic(#[trigger] keys@[k]@, key@),
        },
{
    let want = to_chars(key);
    let mut i: usize = 0;
    while i < keys.len()
        invariant
            i <= keys@.len(),
            want@ == key@,
            forall|k: int| 0 <= k < i ==> !eq_ic(#[trigger] keys@[k]@, key@),
        decreases keys@.len() - i,
    {
        if eq_ignore_ascii_case(&to_chars(keys[i].as_str()), &want) {
            return Some(i);
        }
        i = i + 1;
    }
    None
}

/// Do two property keys name the same property? Keys compare without
/// regard to ASCII case.
pub fn same_key(a: &str, b: &str) -> (r: bool)
    ensures
        r == eq_ic(a@, b@),
{
    eq_ignore_ascii_case(&to_chars(a), &to_chars(b))
}

/// `str::trim_end_matches` with a single character.
pub open spec fn strip_trailing(s: Seq<char>, c: char) -> Seq<char>
    decreases s.len(),
{
    if s.len() > 0 && s.last() == c {
        strip_trailing(s.drop_last(), c)
    } else {
        s
    }
}

/// A declared tag as stored: trimmed, without leading `#`, without `/` at
/// either end.
pub open spec fn cleaned_tag(raw: Seq<char>) -> Seq<char> {
    strip_trailing(strip_leading(strip_leading(trim(raw), '#'), '/'), '/')
}

/// Add a tag declared in frontmatter, once.
pub fn push_tag(out: &mut Vec<String>, raw: &str)
    ensures
        ({
            let c = cleaned_tag(raw@);
            if c.len() == 0 || exists|i: int| 0 <= i < old(out)@.len() && (#[trigger] old(out)@[i])@ == c {
                final(out)@ == old(out)@
            } else {
                final(out)@.len() == old(out)@.len() + 1 && final(out)@.take(old(out)@.len() as int) == old(out)@
                    && final(out)@.last()@ == c
            }
        }),
{
    let v = to_chars(raw);
    let (a, b) = trim_range(&v, 0, v.len());
    proof {
        assert(v@.subrange(0, v@.len() as int) =~= raw@);
    }
    let a2 = strip_leading_char(&v, a, b, '#');
    let a3 = strip_leading_char(&v, a2, b, '/');
    let mut e = b;
    while e > a3 && v[e - 1] == '/'
        invariant
            a3 <= e <= b <= v@.len(),
            strip_trailing(v@.subrange(a3 as int, b as int), '/') == strip_trailing(v@.subrange(a3 as int, e as int), '/'),
        decreases e - a3,
    {
        assert(v@.subrange(a3 as int, e as int).drop_last() =~= v@.subrange(a3 as int, e - 1));
        e = e - 1;
    }
    if e == a3 {
        return;
    }
    let cleaned = to_chars(string_of(&v, a3, e).as_str());
    let mut i: usize = 0;
    while i < out.len()
        invariant
            i <= out@.len(),
            cleaned@ == cleaned_tag(raw@),
            forall|k: int| 0 <= k < i ==> (#[trigger] out@[k])@ != cleaned@,
        decreases out@.len() - i,
    {
        if chars_eq(&to_chars(out[i].as_str()), &cleaned) {
            return;
        }
        i = i + 1;
    }
    let ghost before = out@;
    out.push(string_of(&v, a3, e));
    assert(out@.take(before.len() as int) =~= before);
}

pub open spec fn tag_views(ts: Seq<String>) -> Seq<Seq<char>> {
    ts.map_values(|t: String| t@)
}

/// The tags after declaring one more: its cleaned form is added unless it
/// is empty or already there.
pub open spec fn with_tag(tags: Seq<Seq<char>>, raw: Seq<char>) -> Seq<Seq<char>> {
    let c = cleaned_tag(raw);
    if c.len() == 0 || tags.contains(c) {
        tags
    } else {
        tags.push(c)
    }
}

/// `with_tag` for each declaration in turn.
pub open spec fn with_tags(tags: Seq<Seq<char>>, parts: Seq<Seq<char>>) -> Seq<Seq<char>>
    decreases parts.len(),
{
    if parts.len() == 0 {
        tags
    } else {
        with_tag(with_tags(tags, parts.drop_last()), parts.last())
    }
}

pub open spec fn is_tag_separator(c: char) -> bool {
    c == ',' || c == ' ' || c == ';'
}

/// A tag list written as text, cut at each separator as `str::split` cuts
/// it: `n` separators make `n + 1` parts, empty ones included.
pub open spec fn tag_parts(s: Seq<char>) -> Seq<Seq<char>>
    decreases s.len(),
{
    if s.len() == 0 {
        seq![Seq::<char>::empty()]
    } else {
        let p = tag_parts(s.drop_last());
        if is_tag_separator(s.last()) {
            p.push(Seq::<char>::empty())
        } else {
            p.update(p.len() - 1, p.last().push(s.last()))
        }
    }
}

proof fn lemma_tag_parts_nonempty(s: Seq<char>)
    ensures
        tag_parts(s).len() >= 1,
    decreases s.len(),
{
    if s.len() > 0 {
        lemma_tag_parts_nonempty(s.drop_last());
    }
}

/// Declare one tag, in the terms of `with_tag`.
pub(crate) fn add_tag(out: &mut Vec<String>, raw: &str)
    ensures
        tag_views(final(out)@) == with_tag(tag_views(old(out)@), raw@),
{
    let ghost before = out@;
    push_tag(out, raw);
    proof {
        let c = cleaned_tag(raw@);
        if c.len() == 0 || exists|i: int| 0 <= i < before.len() && (#[trigger] before[i])@ == c {
            if c.len() != 0 {
                let i = choose|i: int| 0 <= i < before.len() && (#[trigger] before[i])@ == c;
                assert(tag_views(before)[i] == c);
            }
        } else {
            assert forall|i: int| 0 <= i < tag_views(before).len() implies tag_views(before)[i] != c by {
                assert(tag_views(before)[i] == before[i]@);
            }
            assert(tag_views(out@) =~= tag_views(before).push(c)) by {
                assert forall|k: int| 0 <= k < before.len() implies tag_views(out@)[k] == tag_views(before)[k] by {
                    assert(out@.take(before.len() as int)[k] == out@[k]);
                }
            }
        }
    }
}

/// Declare each tag of a tag list written as text, such as
/// `work, urgent;later`: the parts between commas, spaces and semicolons.
pub fn push_tags_from_text(out: &mut Vec<String>, text: &str)
    ensures
        tag_views(final(out)@) == with_tags(tag_views(old(out)@), tag_parts(text@)),
{
    let ghost orig = tag_views(out@);
    let v = to_chars(text);
    let n = v.len();
    let mut start: usize = 0;
    let mut i: usize = 0;
    proof {
        lemma_tag_parts_nonempty(v@.take(0));
        assert(v@.take(0) =~= Seq::<char>::empty());
        assert(tag_parts(v@.take(0)).drop_last() =~= Seq::<Seq<char>>::empty());
        assert(v@.subrange(0, 0) =~= Seq::<char>::empty());
    }
    while i < n
        invariant
            n == v@.len(),
            v@ == text@,
            start <= i <= n,
            tag_parts(v@.take(i as int)).len() >= 1,
            tag_parts(v@.take(i as int)).last() == v@.subrange(start as int, i as int),
            tag_views(out@) == with_tags(orig, tag_parts(v@.take(i as int)).drop_last()),
        decreases n - i,
    {
        let ghost tp = tag_parts(v@.take(i as int));
        assert(v@.take(i + 1).drop_last() =~= v@.take(i as int));
        assert(v@.take(i + 1).last() == v@[i as int]);
        let c = v[i];
        if c == ',' || c == ' ' || c == ';' {
            let part = string_of(&v, start, i);
            add_tag(out, part.as_str());
            proof {
                let np = tag_parts(v@.take(i + 1));
                assert(np == tp.push(Seq::<char>::empty()));
                assert(np.drop_last() =~= tp);
                assert(tp =~= tp.drop_last().push(tp.last()));
                assert(v@.subrange(i + 1, i + 1) =~= Seq::<char>::empty());
            }
            start = i + 1;
        } else {
            proof {
                let np = tag_parts(v@.take(i + 1));
                assert(np == tp.update(tp.len() - 1, tp.last().push(c)));
                assert(np.drop_last() =~= tp.drop_last());
                assert(v@.subrange(start as int, i + 1) =~= v@.subrange(start as int, i as int).push(c));
            }
        }
        i = i + 1;
    }
    let part = string_of(&v, start, n);
    add_tag(out, part.as_str());
    proof {
        let tp = tag_parts(v@.take(n as int));
        assert(v@.take(n as int) =~= text@);
        assert(tp =~= tp.drop_last().push(tp.last()));
    }
}

/// The character index where the body starts.
pub open spec fn body_start_of(s: Seq<char>) -> int {
    match yaml_start_of(s) {
        None => 0,
        Some(ys) => match closing_from(s, ys) {
            None => 0,
            Some((_, end)) => end,
        },
    }
}

pub(crate) proof fn lemma_closing_bounds(s: Seq<char>, c: int)
    requires
        0 <= c,
    ensures
        closing_from(s, c) matches Some((a, e)) ==> c <= a <= e <= s.len(),
    decreases s.len() - c,
{
    if c <= s.len() {
        crate::strings::lemma_find_char(s.skip(c), '\n');
        let le = line_end_from(s, c);
        if !is_closing_line(s.subrange(c, le)) && le < s.len() {
            lemma_closing_bounds(s, le + 1);
        }
    }
}

/// The body starts at a character boundary: the byte offset of
/// `body_start_of`.
pub proof fn lemma_body_start(s: Seq<char>)
    requires
        blen(s) <= usize::MAX,
    ensures
        0 <= body_start_of(s) <= s.len(),
        boff(s, body_start_of(s)) == body_offset_of(s),
{
    match yaml_start_of(s) {
        None => {
            assert(s.take(0) =~= Seq::<char>::empty());
        },
        Some(ys) => {
            lemma_closing_bounds(s, ys);
            match closing_from(s, ys) {
                None => {
                    assert(s.take(0) =~= Seq::<char>::empty());
                },
                Some((ye, end)) => {
                    crate::strings::lemma_boff_mono(s, end, s.len() as int);
                    crate::strings::lemma_boff_full(s);
                },
            }
        },
    }
}

} // verus!
