//! The app's Markdown extensions: wiki links, embeds, tags and block
//! identifiers, found in prose outside the regions a CommonMark parser
//! marked as code, HTML or ordinary links.
use vstd::prelude::*;
use core::ops::Range;
use crate::strings::{
    blen, lemma_blen_concat, lemma_find_char, trim, trim_end, trim_range, trim_end_range, is_ws,
    lemma_trim_end_len, rfind_char, rfind_char_in, boff, find_char, find_char_in, find_seq, find_seq_from, is_alnum, is_alpha, is_alphabetic,
    is_alphanumeric, lemma_boff_mono, lemma_find_seq_from, string_of, Text,
};
use crate::links::reference::{
    opt_view, target_alias, target_block, target_heading, target_path, LinkTarget,
};
use crate::markdown::text::{byte_slice, lemma_byte_slice_some, line_at, strip_cr, ExclusionZones, LineIndex};
use crate::model::{Block, Link, LinkKind, Tag};

verus! {

/// A link as plain values.
pub struct LinkView {
    pub kind: LinkKind,
    pub raw: Seq<char>,
    pub target: Seq<char>,
    pub heading: Option<Seq<char>>,
    pub block_id: Option<Seq<char>>,
    pub alias: Option<Seq<char>>,
    pub line: int,
    pub byte_start: int,
    pub byte_end: int,
}

impl View for Link {
    type V = LinkView;

    open spec fn view(&self) -> LinkView {
        LinkView {
            kind: self.kind,
            raw: self.raw@,
            target: self.target@,
            heading: opt_view(self.heading),
            block_id: opt_view(self.block_id),
            alias: opt_view(self.alias),
            line: self.line as int,
            byte_start: self.byte_start as int,
            byte_end: self.byte_end as int,
        }
    }
}

/// A tag as plain values.
pub struct TagView {
    pub name: Seq<char>,
    pub line: int,
    pub byte_start: int,
    pub byte_end: int,
}

impl View for Tag {
    type V = TagView;

    open spec fn view(&self) -> TagView {
        TagView {
            name: self.name@,
            line: self.line as int,
            byte_start: self.byte_start as int,
            byte_end: self.byte_end as int,
        }
    }
}

/// A block as plain values.
pub struct BlockView {
    pub id: Seq<char>,
    pub line: int,
    pub byte_start: int,
    pub byte_end: int,
}

impl View for Block {
    type V = BlockView;

    open spec fn view(&self) -> BlockView {
        BlockView {
            id: self.id@,
            line: self.line as int,
            byte_start: self.byte_start as int,
            byte_end: self.byte_end as int,
        }
    }
}

pub open spec fn links_view(v: Seq<Link>) -> Seq<LinkView> {
    v.map_values(|l: Link| l@)
}

pub open spec fn tags_view(v: Seq<Tag>) -> Seq<TagView> {
    v.map_values(|t: Tag| t@)
}

pub open spec fn blocks_view(v: Seq<Block>) -> Seq<BlockView> {
    v.map_values(|b: Block| b@)
}

// ---------------------------------------------------------------------------
// Wiki links.

pub open spec fn open2() -> Seq<char> {
    seq!['[', '[']
}

pub open spec fn close2() -> Seq<char> {
    seq![']', ']']
}

/// The wiki links and embeds found from character `cursor` on.
pub open spec fn wiki_links_from(s: Seq<char>, z: ExclusionZones, starts: Seq<int>, cursor: int) -> Seq<
    LinkView,
>
    decreases s.len() - cursor,
{
    if cursor < 0 || cursor + 1 >= s.len() {
        seq![]
    } else {
        match find_seq_from(s, cursor, s.len() as int, open2()) {
            None => seq![],
            Some(found) => {
                proof {
                    lemma_find_seq_from(s, cursor, s.len() as int, open2());
                }
                let is_embed = found > 0 && s[found - 1] == '!';
                let raw_start = if is_embed {
                    found - 1
                } else {
                    found
                };
                if z.covers_spec(boff(s, raw_start) as int) {
                    wiki_links_from(s, z, starts, found + 2)
                } else {
                    match find_seq_from(s, found + 2, s.len() as int, close2()) {
                        None => seq![],
                        Some(close) => {
                            proof {
                                lemma_find_seq_from(s, found + 2, s.len() as int, close2());
                            }
                            let inner = s.subrange(found + 2, close);
                            if find_char(inner, '\n') is Some || find_seq_from(
                                s,
                                found + 2,
                                close,
                                open2(),
                            ) is Some {
                                wiki_links_from(s, z, starts, found + 2)
                            } else {
                                let raw_end = close + 2;
                                if target_path(inner).len() == 0 && target_heading(inner) is None
                                    && target_block(inner) is None {
                                    wiki_links_from(s, z, starts, raw_end)
                                } else {
                                    seq![
                                        LinkView {
                                            kind: if is_embed {
                                                LinkKind::Embed
                                            } else {
                                                LinkKind::WikiLink
                                            },
                                            raw: s.subrange(raw_start, raw_end),
                                            target: target_path(inner),
                                            heading: target_heading(inner),
                                            block_id: target_block(inner),
                                            alias: target_alias(inner),
                                            line: line_at(starts, boff(s, raw_start) as int),
                                            byte_start: boff(s, raw_start) as int,
                                            byte_end: boff(s, raw_end) as int,
                                        },
                                    ] + wiki_links_from(s, z, starts, raw_end)
                                }
                            }
                        },
                    }
                }
            },
        }
    }
}

/// Where the wiki links found from `cursor` lie: each one's raw text is the
/// source between its offsets, they follow one another without
/// overlapping, and none starts before `cursor` (or the `!` just before it).
pub open spec fn placed_from(s: Seq<char>, ls: Seq<LinkView>, cursor: int) -> bool {
    &&& forall|k: int| 0 <= k < ls.len() ==> byte_slice(s, (#[trigger] ls[k]).byte_start, ls[k].byte_end) == Some(ls[k].raw)
    &&& forall|k: int| 0 <= k < ls.len() ==> (#[trigger] ls[k]).byte_start < ls[k].byte_end
    &&& forall|i: int, j: int| 0 <= i < j < ls.len() ==> (#[trigger] ls[i]).byte_end <= (#[trigger] ls[j]).byte_start
    &&& (1 <= cursor <= s.len() ==> forall|k: int| 0 <= k < ls.len() ==> boff(s, cursor - 1) <= (#[trigger] ls[k]).byte_start)
    &&& (0 <= cursor <= s.len() && (cursor == 0 || s[cursor - 1] != '!') ==> forall|k: int|
        0 <= k < ls.len() ==> boff(s, cursor) <= (#[trigger] ls[k]).byte_start)
}

proof fn lemma_placed_later(s: Seq<char>, ls: Seq<LinkView>, cursor: int, later: int)
    requires
        0 <= cursor < later <= s.len(),
        placed_from(s, ls, later),
        s[later - 1] != '!' || cursor < later - 1,
    ensures
        placed_from(s, ls, cursor),
{
    if s[later - 1] != '!' {
        lemma_boff_mono(s, cursor, later);
        if cursor >= 1 {
            lemma_boff_mono(s, cursor - 1, later);
        }
    } else {
        lemma_boff_mono(s, cursor, later - 1);
        if cursor >= 1 {
            lemma_boff_mono(s, cursor - 1, later - 1);
        }
    }
}

/// The wiki links and embeds a scan finds from any position lie in the
/// source in order: each one's raw text is the source between its offsets,
/// and each ends before the next begins.
pub proof fn law_wiki_links_placed(s: Seq<char>, z: ExclusionZones, starts: Seq<int>, cursor: int)
    requires
        0 <= cursor,
    ensures
        placed_from(s, wiki_links_from(s, z, starts, cursor), cursor),
    decreases s.len() - cursor,
{
    let ls = wiki_links_from(s, z, starts, cursor);
    if cursor + 1 >= s.len() {
        assert(ls.len() == 0);
    } else {
        lemma_find_seq_from(s, cursor, s.len() as int, open2());
        match find_seq_from(s, cursor, s.len() as int, open2()) {
            None => {
                assert(ls.len() == 0);
            },
            Some(found) => {
                let is_embed = found > 0 && s[found - 1] == '!';
                let raw_start = if is_embed {
                    found - 1
                } else {
                    found
                };
                assert(s.subrange(found, found + 2)[1] == s[found + 1]);
                assert(s[found + 1] == '[');
                if z.covers_spec(boff(s, raw_start) as int) {
                    law_wiki_links_placed(s, z, starts, found + 2);
                    lemma_placed_later(s, ls, cursor, found + 2);
                } else {
                    lemma_find_seq_from(s, found + 2, s.len() as int, close2());
                    match find_seq_from(s, found + 2, s.len() as int, close2()) {
                        None => {
                            assert(ls.len() == 0);
                        },
                        Some(close) => {
                            let inner = s.subrange(found + 2, close);
                            if find_char(inner, '\n') is Some || find_seq_from(s, found + 2, close, open2()) is Some {
                                law_wiki_links_placed(s, z, starts, found + 2);
                                lemma_placed_later(s, ls, cursor, found + 2);
                            } else {
                                let raw_end = close + 2;
                                assert(s.subrange(close, close + 2)[1] == s[close + 1]);
                                assert(s[raw_end - 1] == ']');
                                law_wiki_links_placed(s, z, starts, raw_end);
                                if target_path(inner).len() == 0 && target_heading(inner) is None
                                    && target_block(inner) is None {
                                    lemma_placed_later(s, ls, cursor, raw_end);
                                } else {
                                    let tail = wiki_links_from(s, z, starts, raw_end);
                                    let head = ls[0];
                                    assert(ls == seq![head] + tail);
                                    assert(head.byte_start == boff(s, raw_start) as int);
                                    assert(head.byte_end == boff(s, raw_end) as int);
                                    assert(head.raw == s.subrange(raw_start, raw_end));
                                    lemma_byte_slice_some(s, raw_start, raw_end);
                                    lemma_boff_mono(s, raw_start, raw_end);
                                    assert(raw_start >= cursor - 1);
                                    assert((cursor == 0 || s[cursor - 1] != '!') ==> raw_start >= cursor);
                                    lemma_boff_mono(s, raw_start, raw_end);
                                    if cursor >= 1 {
                                        lemma_boff_mono(s, cursor - 1, raw_start);
                                    }
                                    if raw_start >= cursor {
                                        lemma_boff_mono(s, cursor, raw_start);
                                    }
                                    lemma_placed_later(s, tail, cursor, raw_end);
                                    assert forall|k: int| 0 <= k < ls.len() implies byte_slice(
                                        s,
                                        (#[trigger] ls[k]).byte_start,
                                        ls[k].byte_end,
                                    ) == Some(ls[k].raw) && ls[k].byte_start < ls[k].byte_end by {
                                        if k > 0 {
                                            assert(ls[k] == tail[k - 1]);
                                        }
                                    }
                                    assert forall|i: int, j: int| 0 <= i < j < ls.len() implies (#[trigger] ls[i]).byte_end
                                        <= (#[trigger] ls[j]).byte_start by {
                                        assert(ls[j] == tail[j - 1]);
                                        if i > 0 {
                                            assert(ls[i] == tail[i - 1]);
                                        }
                                    }
                                    assert(1 <= cursor <= s.len() ==> forall|k: int| 0 <= k < ls.len() ==> boff(s, cursor - 1) <= (#[trigger] ls[k]).byte_start) by {
                                        assert forall|k: int| 1 <= cursor <= s.len() && 0 <= k < ls.len() implies boff(s, cursor - 1) <= (#[trigger] ls[k]).byte_start by {
                                            if k > 0 {
                                                assert(ls[k] == tail[k - 1]);
                                            }
                                        }
                                    }
                                    assert forall|k: int|
                                        (cursor == 0 || s[cursor - 1] != '!') && 0 <= k < ls.len() implies boff(s, cursor) <= (#[trigger] ls[k]).byte_start by {
                                        if k > 0 {
                                            assert(ls[k] == tail[k - 1]);
                                        }
                                    }
                                }
                            }
                        },
                    }
                }
            },
        }
    }
}

/// What one wiki link found in `s` looks like: its raw text is `[[` (`![[`
/// for an embed, and only then does it begin with `!`), an inner text that
/// holds no line break and no `[[`, then `]]`; it starts outside the zones,
/// and its line is the line of its first byte.
pub open spec fn wiki_link_shaped(z: ExclusionZones, starts: Seq<int>, l: LinkView) -> bool {
    let open_len: int = if l.kind == LinkKind::Embed { 3 } else { 2 };
    &&& (l.kind == LinkKind::Embed || l.kind == LinkKind::WikiLink)
    &&& l.raw.len() >= open_len + 2
    &&& (l.kind == LinkKind::Embed <==> l.raw[0] == '!')
    &&& l.raw.subrange(open_len - 2, open_len) == open2()
    &&& l.raw.subrange(l.raw.len() - 2, l.raw.len() as int) == close2()
    &&& forall|k: int| open_len <= k < l.raw.len() - 2 ==> #[trigger] l.raw[k] != '\n'
    &&& forall|k: int|
        open_len <= k && k + 1 < l.raw.len() - 2 ==> #[trigger] l.raw.subrange(k, k + 2) != open2()
    &&& !z.covers_spec(l.byte_start)
    &&& l.line == line_at(starts, l.byte_start)
}

/// Every wiki link or embed a scan finds has the shape of one: `[[` or
/// `![[`, an inner text on one line without a nested `[[`, and `]]`; it
/// starts outside the excluded regions, is an embed exactly when it begins
/// with `!`, and carries the line of its first byte.
pub proof fn law_wiki_links_shaped(s: Seq<char>, z: ExclusionZones, starts: Seq<int>, cursor: int)
    ensures
        forall|k: int| 0 <= k < wiki_links_from(s, z, starts, cursor).len()
            ==> wiki_link_shaped(z, starts, #[trigger] wiki_links_from(s, z, starts, cursor)[k]),
    decreases s.len() - cursor,
{
    let ls = wiki_links_from(s, z, starts, cursor);
    if cursor >= 0 && cursor + 1 < s.len() {
        lemma_find_seq_from(s, cursor, s.len() as int, open2());
        match find_seq_from(s, cursor, s.len() as int, open2()) {
            None => {},
            Some(found) => {
                let is_embed = found > 0 && s[found - 1] == '!';
                let raw_start = if is_embed { found - 1 } else { found };
                law_wiki_links_shaped(s, z, starts, found + 2);
                if !z.covers_spec(boff(s, raw_start) as int) {
                    lemma_find_seq_from(s, found + 2, s.len() as int, close2());
                    match find_seq_from(s, found + 2, s.len() as int, close2()) {
                        None => {},
                        Some(close) => {
                            let inner = s.subrange(found + 2, close);
                            let raw_end = close + 2;
                            law_wiki_links_shaped(s, z, starts, raw_end);
                            if !(find_char(inner, '\n') is Some || find_seq_from(s, found + 2, close, open2()) is Some)
                                && !(target_path(inner).len() == 0 && target_heading(inner) is None
                                && target_block(inner) is None) {
                                let tail = wiki_links_from(s, z, starts, raw_end);
                                let head = ls[0];
                                assert(ls == seq![head] + tail);
                                let raw = s.subrange(raw_start, raw_end);
                                assert(head.raw == raw);
                                let open_len: int = if head.kind == LinkKind::Embed { 3 } else { 2 };
                                assert(open_len == found + 2 - raw_start);
                                assert(s.subrange(found, found + 2)[0] == s[found]);
                                assert(raw[0] == s[raw_start]);
                                assert(raw.subrange(open_len - 2, open_len) =~= s.subrange(found, found + 2));
                                assert(raw.subrange(raw.len() - 2, raw.len() as int) =~= s.subrange(close, close + 2));
                                lemma_find_char(inner, '\n');
                                assert forall|k: int| open_len <= k < raw.len() - 2 implies #[trigger] raw[k] != '\n' by {
                                    assert(raw[k] == inner[k - open_len]);
                                }
                                lemma_find_seq_from(s, found + 2, close, open2());
                                assert forall|k: int| open_len <= k && k + 1 < raw.len() - 2 implies #[trigger] raw.subrange(k, k + 2)
                                    != open2() by {
                                    assert(raw.subrange(k, k + 2) =~= s.subrange(raw_start + k, raw_start + k + 2));
                                }
                                assert(wiki_link_shaped(z, starts, head));
                                assert forall|k: int| 0 <= k < ls.len() implies wiki_link_shaped(z, starts, #[trigger] ls[k]) by {
                                    if k > 0 {
                                        assert(ls[k] == tail[k - 1]);
                                    }
                                }
                            } else if !(find_char(inner, '\n') is Some || find_seq_from(s, found + 2, close, open2()) is Some) {
                                let tail = wiki_links_from(s, z, starts, raw_end);
                                assert(ls == tail);
                                assert forall|k: int| 0 <= k < ls.len() implies wiki_link_shaped(z, starts, #[trigger] ls[k]) by {
                                    assert(ls[k] == tail[k]);
                                }
                            } else {
                                let tail = wiki_links_from(s, z, starts, found + 2);
                                assert(ls == tail);
                                assert forall|k: int| 0 <= k < ls.len() implies wiki_link_shaped(z, starts, #[trigger] ls[k]) by {
                                    assert(ls[k] == tail[k]);
                                }
                            }
                        },
                    }
                } else {
                    let tail = wiki_links_from(s, z, starts, found + 2);
                    assert(ls == tail);
                    assert forall|k: int| 0 <= k < ls.len() implies wiki_link_shaped(z, starts, #[trigger] ls[k]) by {
                        assert(ls[k] == tail[k]);
                    }
                }
            },
        }
    }
}

/// Find `[[wiki links]]` and `![[embeds]]` outside the excluded regions.
pub fn scan_wikilinks(source: &str, zones: &ExclusionZones, lines: &LineIndex) -> (out: Vec<Link>)
    requires
        lines.wf(),
    ensures
        links_view(out@) == wiki_links_from(source@, *zones, lines.starts(), 0),
{
    let text = Text::new(source);
    let s = &text.chars;
    let n = s.len();
    let open: [char; 2] = ['[', '['];
    let close: [char; 2] = [']', ']'];
    assert(open@ =~= open2());
    assert(close@ =~= close2());
    let mut out: Vec<Link> = Vec::new();
    let mut cursor: usize = 0;
    while cursor < n && n - cursor > 1
        invariant
            text.wf(),
            text.chars@ == source@,
            n == text.chars@.len(),
            lines.wf(),
            open@ == open2(),
            close@ == close2(),
            cursor <= n,
            wiki_links_from(source@, *zones, lines.starts(), 0) == links_view(out@)
                + wiki_links_from(source@, *zones, lines.starts(), cursor as int),
        decreases n - cursor,
    {
        let ghost sv = source@;
        proof {
            lemma_find_seq_from(sv, cursor as int, n as int, open2());
        }
        let found = match find_seq(&text.chars, cursor, n, &open) {
            None => {
                assert(links_view(out@) + seq![] =~= links_view(out@));
                return out;
            },
            Some(f) => f,
        };
        let is_embed = found > 0 && text.chars[found - 1] == '!';
        let raw_start = if is_embed { found - 1 } else { found };
        if zones.covers(text.offs[raw_start]) {
            cursor = found + 2;
            continue;
        }
        proof {
            lemma_find_seq_from(sv, found + 2, n as int, close2());
        }
        let close_at = match find_seq(&text.chars, found + 2, n, &close) {
            None => {
                assert(links_view(out@) + seq![] =~= links_view(out@));
                return out;
            },
            Some(c) => c,
        };
        let newline = find_char_in(&text.chars, found + 2, close_at, '\n');
        let nested = find_seq(&text.chars, found + 2, close_at, &open);
        if newline.is_some() || nested.is_some() {
            cursor = found + 2;
            continue;
        }
        let raw_end = close_at + 2;
        let inner = string_of(&text.chars, found + 2, close_at);
        let target = LinkTarget::parse(inner.as_str());
        if target.path.as_str().is_empty() && target.heading.is_none() && target.block_id.is_none() {
            cursor = raw_end;
            continue;
        }
        let byte_start = text.offs[raw_start];
        let link = Link {
            kind: if is_embed { LinkKind::Embed } else { LinkKind::WikiLink },
            raw: string_of(&text.chars, raw_start, raw_end),
            target: target.path,
            heading: target.heading,
            block_id: target.block_id,
            alias: target.alias,
            line: lines.line_of(byte_start),
            byte_start,
            byte_end: text.offs[raw_end],
        };
        let ghost before = out@;
        out.push(link);
        proof {
            assert(links_view(out@) =~= links_view(before).push(link@));
            assert(links_view(before).push(link@) + wiki_links_from(sv, *zones, lines.starts(), raw_end as int)
                =~= links_view(before) + (seq![link@] + wiki_links_from(sv, *zones, lines.starts(), raw_end as int)));
        }
        cursor = raw_end;
    }
    assert(links_view(out@) + seq![] =~= links_view(out@));
    out
}

// ---------------------------------------------------------------------------
// Tags.

/// Characters that may follow `#` in a tag.
pub open spec fn tag_char(c: char) -> bool {
    is_alnum(c) || c == '_' || c == '-' || c == '/'
}

fn is_tag_char(ch: char) -> (r: bool)
    ensures
        r == tag_char(ch),
{
    is_alphanumeric(ch) || ch == '_' || ch == '-' || ch == '/'
}

/// A `#` starts a tag only after something that is not word-like.
pub open spec fn can_start(previous: Option<char>) -> bool {
    match previous {
        None => true,
        Some(c) => !(is_alnum(c) || c == '_' || c == '#' || c == '/' || c == '\\'),
    }
}

fn can_start_tag(previous: Option<char>) -> (r: bool)
    ensures
        r == can_start(previous),
{
    match previous {
        None => true,
        Some(ch) => !(is_alphanumeric(ch) || ch == '_' || ch == '#' || ch == '/' || ch == '\\'),
    }
}

/// Index just past the run of tag characters starting at `i`.
pub open spec fn tag_body_end(s: Seq<char>, i: int) -> int
    decreases s.len() - i,
{
    if 0 <= i < s.len() && tag_char(s[i]) {
        tag_body_end(s, i + 1)
    } else {
        i
    }
}

pub proof fn lemma_tag_body_end(s: Seq<char>, i: int)
    requires
        0 <= i <= s.len(),
    ensures
        i <= tag_body_end(s, i) <= s.len(),
        forall|k: int| i <= k < tag_body_end(s, i) ==> tag_char(#[trigger] s[k]),
    decreases s.len() - i,
{
    if i < s.len() && tag_char(s[i]) {
        lemma_tag_body_end(s, i + 1);
    }
}

/// Without trailing `/` and `-`.
pub open spec fn strip_tag_end(s: Seq<char>) -> Seq<char>
    decreases s.len(),
{
    if s.len() > 0 && (s.last() == '/' || s.last() == '-') {
        strip_tag_end(s.drop_last())
    } else {
        s
    }
}

pub open spec fn has_double_slash(s: Seq<char>) -> bool {
    exists|k: int| 0 <= k < s.len() - 1 && #[trigger] s[k] == '/' && s[k + 1] == '/'
}

pub open spec fn has_alpha(s: Seq<char>) -> bool {
    exists|k: int| 0 <= k < s.len() && is_alpha(#[trigger] s[k])
}

/// A tag name is usable when it is non-empty, has a letter and no `//`.
pub open spec fn usable_tag(name: Seq<char>) -> bool {
    name.len() > 0 && has_alpha(name) && !has_double_slash(name)
}

/// The tags found from character `i` on, given the character before it.
pub open spec fn tags_from(
    s: Seq<char>,
    z: ExclusionZones,
    starts: Seq<int>,
    i: int,
    previous: Option<char>,
) -> Seq<TagView>
    decreases s.len() - i,
{
    if i < 0 || i >= s.len() {
        seq![]
    } else if s[i] != '#' || z.covers_spec(boff(s, i) as int) || !can_start(previous) {
        tags_from(s, z, starts, i + 1, Some(s[i]))
    } else {
        proof {
            lemma_tag_body_end(s, i + 1);
        }
        let e = tag_body_end(s, i + 1);
        let name = strip_tag_end(s.subrange(i + 1, e));
        let next_previous = if e > i + 1 {
            s[e - 1]
        } else {
            '#'
        };
        (if usable_tag(name) {
            seq![
                TagView {
                    name,
                    line: line_at(starts, boff(s, i) as int),
                    byte_start: boff(s, i) as int,
                    byte_end: boff(s, i + 1 + name.len()) as int,
                },
            ]
        } else {
            seq![]
        }) + tags_from(s, z, starts, e, Some(next_previous))
    }
}

/// A letter of the Latin alphabet, in either case.
pub open spec fn latin_letter(c: char) -> bool {
    ('a' <= c && c <= 'z') || ('A' <= c && c <= 'Z')
}

proof fn lemma_tag_body_runs_to(s: Seq<char>, i: int, e: int)
    requires
        0 <= i <= e <= s.len(),
        forall|k: int| i <= k < e ==> tag_char(#[trigger] s[k]),
        e == s.len() || !tag_char(s[e]),
    ensures
        tag_body_end(s, i) == e,
    decreases e - i,
{
    if i < e {
        lemma_tag_body_runs_to(s, i + 1, e);
    }
}

/// The characters a tag name is made of, written out: ASCII letters and
/// digits, `_`, `-` and `/`.
pub open spec fn ascii_tag_char(c: char) -> bool {
    latin_letter(c) || ('0' <= c && c <= '9') || c == '_' || c == '-' || c == '/'
}

/// A `#` at the start of a line followed by a run of tag characters that has
/// a letter, does not end in `-` or `/` and holds no `//` is one tag named
/// by the whole run: `-`, `_`, digits and `/` inside it belong to it.
pub proof fn law_a_whole_run_is_one_tag(r: Seq<char>, z: ExclusionZones, starts: Seq<int>)
    requires
        r.len() > 0,
        forall|k: int| 0 <= k < r.len() ==> ascii_tag_char(#[trigger] r[k]),
        exists|k: int| 0 <= k < r.len() && latin_letter(#[trigger] r[k]),
        r.last() != '-' && r.last() != '/',
        forall|k: int| 0 <= k < r.len() - 1 ==> !(#[trigger] r[k] == '/' && r[k + 1] == '/'),
        forall|o: int| !z.covers_spec(o),
    ensures
        tags_from(seq!['#'] + r, z, starts, 0, None).len() == 1,
        tags_from(seq!['#'] + r, z, starts, 0, None)[0].name == r,
{
    let s = seq!['#'] + r;
    let n = s.len() as int;
    assert(s.subrange(1, n) =~= r);
    assert forall|k: int| 1 <= k < n implies tag_char(#[trigger] s[k]) by {
        assert(s[k] == r[k - 1]);
    }
    lemma_tag_body_runs_to(s, 1, n);
    assert(strip_tag_end(r) == r);
    let w = choose|k: int| 0 <= k < r.len() && latin_letter(#[trigger] r[k]);
    assert(is_alpha(r[w]));
    assert(has_alpha(r));
    assert(!has_double_slash(r));
    assert(usable_tag(r));
    assert(s[0] == '#');
    assert(tags_from(s, z, starts, n, Some(s[n - 1])) =~= Seq::<TagView>::empty());
}

proof fn lemma_strip_separators(r: Seq<char>, t: Seq<char>)
    requires
        r.len() > 0,
        r.last() != '-' && r.last() != '/',
        forall|k: int| 0 <= k < t.len() ==> #[trigger] t[k] == '-' || t[k] == '/',
    ensures
        strip_tag_end(r + t) == r,
    decreases t.len(),
{
    if t.len() == 0 {
        assert(r + t =~= r);
    } else {
        assert((r + t).drop_last() =~= r + t.drop_last());
        assert((r + t).last() == t.last());
        lemma_strip_separators(r, t.drop_last());
    }
}

/// Separators closing a tag are punctuation, not part of it: `#` followed by
/// a run as above and then any number of `-` and `/` is the tag named by the
/// run alone (so `#todo-` is `todo`).
pub proof fn law_trailing_separators_are_not_part_of_a_tag(
    r: Seq<char>,
    t: Seq<char>,
    z: ExclusionZones,
    starts: Seq<int>,
)
    requires
        r.len() > 0,
        forall|k: int| 0 <= k < r.len() ==> ascii_tag_char(#[trigger] r[k]),
        exists|k: int| 0 <= k < r.len() && latin_letter(#[trigger] r[k]),
        r.last() != '-' && r.last() != '/',
        forall|k: int| 0 <= k < r.len() - 1 ==> !(#[trigger] r[k] == '/' && r[k + 1] == '/'),
        forall|k: int| 0 <= k < t.len() ==> #[trigger] t[k] == '-' || t[k] == '/',
        forall|o: int| !z.covers_spec(o),
    ensures
        tags_from(seq!['#'] + r + t, z, starts, 0, None).len() == 1,
        tags_from(seq!['#'] + r + t, z, starts, 0, None)[0].name == r,
{
    let s = seq!['#'] + r + t;
    let n = s.len() as int;
    assert(s.subrange(1, n) =~= r + t);
    assert forall|k: int| 1 <= k < n implies tag_char(#[trigger] s[k]) by {
        if k - 1 < r.len() {
            assert(s[k] == r[k - 1]);
        } else {
            assert(s[k] == t[k - 1 - r.len()]);
        }
    }
    lemma_tag_body_runs_to(s, 1, n);
    lemma_strip_separators(r, t);
    let w = choose|k: int| 0 <= k < r.len() && latin_letter(#[trigger] r[k]);
    assert(is_alpha(r[w]));
    assert(has_alpha(r));
    assert(!has_double_slash(r));
    assert(usable_tag(r));
    assert(s[0] == '#');
    assert(tags_from(s, z, starts, n, Some(s[n - 1])) =~= Seq::<TagView>::empty());
}

/// A `-` between letters belongs to the tag: `#` followed by letters, a
/// hyphen and letters is one tag, named by the whole run (so `#a-b` is the
/// tag `a-b`, not `a`), wherever no zone is excluded.
pub proof fn law_a_hyphen_inside_a_tag_belongs_to_it(
    a: Seq<char>,
    b: Seq<char>,
    z: ExclusionZones,
    starts: Seq<int>,
)
    requires
        a.len() > 0,
        b.len() > 0,
        forall|k: int| 0 <= k < a.len() ==> latin_letter(#[trigger] a[k]),
        forall|k: int| 0 <= k < b.len() ==> latin_letter(#[trigger] b[k]),
        forall|o: int| !z.covers_spec(o),
    ensures
        tags_from(seq!['#'] + a + seq!['-'] + b, z, starts, 0, None).len() == 1,
        tags_from(seq!['#'] + a + seq!['-'] + b, z, starts, 0, None)[0].name == a + seq!['-'] + b,
{
    let r = a + seq!['-'] + b;
    assert forall|k: int| 0 <= k < r.len() implies ascii_tag_char(#[trigger] r[k]) by {
        if k < a.len() {
            assert(r[k] == a[k]);
        } else if k > a.len() {
            assert(r[k] == b[k - a.len() - 1]);
        }
    }
    assert(latin_letter(r[0]));
    assert(r.last() == b.last());
    assert forall|k: int| 0 <= k < r.len() - 1 implies !(#[trigger] r[k] == '/' && r[k + 1] == '/') by {
        if k < a.len() {
            assert(r[k] == a[k]);
        } else if k > a.len() {
            assert(r[k] == b[k - a.len() - 1]);
        }
    }
    law_a_whole_run_is_one_tag(r, z, starts);
    assert(seq!['#'] + a + seq!['-'] + b =~= seq!['#'] + r);
}

/// A tag scan only reports tags whose `#` lies outside the zones.
pub proof fn lemma_tags_outside_zones(s: Seq<char>, z: ExclusionZones, starts: Seq<int>, i: int, previous: Option<char>)
    ensures
        forall|k: int| 0 <= k < tags_from(s, z, starts, i, previous).len()
            ==> !z.covers_spec(#[trigger] tags_from(s, z, starts, i, previous)[k].byte_start)
            && tags_from(s, z, starts, i, previous)[k].byte_start >= 0,
    decreases s.len() - i,
{
    if 0 <= i < s.len() {
        if s[i] != '#' || z.covers_spec(boff(s, i) as int) || !can_start(previous) {
            lemma_tags_outside_zones(s, z, starts, i + 1, Some(s[i]));
            let all = tags_from(s, z, starts, i, previous);
            let rest = tags_from(s, z, starts, i + 1, Some(s[i]));
            assert(all == rest);
            assert forall|k: int| 0 <= k < all.len() implies !z.covers_spec(#[trigger] all[k].byte_start)
                && all[k].byte_start >= 0 by {
                assert(all[k] == rest[k]);
            }
        } else {
            lemma_tag_body_end(s, i + 1);
            let e = tag_body_end(s, i + 1);
            let next_previous = if e > i + 1 { s[e - 1] } else { '#' };
            lemma_tags_outside_zones(s, z, starts, e, Some(next_previous));
            let all = tags_from(s, z, starts, i, previous);
            let rest = tags_from(s, z, starts, e, Some(next_previous));
            let name = strip_tag_end(s.subrange(i + 1, e));
            let head: Seq<TagView> = if usable_tag(name) {
                seq![TagView {
                    name,
                    line: line_at(starts, boff(s, i) as int),
                    byte_start: boff(s, i) as int,
                    byte_end: boff(s, i + 1 + name.len()) as int,
                }]
            } else {
                seq![]
            };
            assert(all == head + rest);
            assert forall|k: int| 0 <= k < all.len() implies !z.covers_spec(#[trigger] all[k].byte_start)
                && all[k].byte_start >= 0 by {
                if k >= head.len() {
                    assert(all[k] == rest[k - head.len()]);
                }
            }
        }
    }
}

proof fn lemma_strip_tag_end_len(s: Seq<char>)
    ensures
        strip_tag_end(s).len() <= s.len(),
        strip_tag_end(s) == s.take(strip_tag_end(s).len() as int),
    decreases s.len(),
{
    if s.len() > 0 && (s.last() == '/' || s.last() == '-') {
        lemma_strip_tag_end_len(s.drop_last());
        assert(s.drop_last().take(strip_tag_end(s).len() as int) =~= s.take(strip_tag_end(s).len() as int));
    } else {
        assert(s.take(s.len() as int) =~= s);
    }
}

/// Find `#tags`, including `#nested/tags`.
pub fn scan_tags(source: &str, zones: &ExclusionZones, lines: &LineIndex) -> (out: Vec<Tag>)
    requires
        lines.wf(),
    ensures
        tags_view(out@) == tags_from(source@, *zones, lines.starts(), 0, None),
{
    let text = Text::new(source);
    let n = text.chars.len();
    let mut out: Vec<Tag> = Vec::new();
    let mut previous: Option<char> = None;
    let mut i: usize = 0;
    while i < n
        invariant
            text.wf(),
            text.chars@ == source@,
            n == text.chars@.len(),
            lines.wf(),
            i <= n,
            tags_from(source@, *zones, lines.starts(), 0, None) == tags_view(out@) + tags_from(
                source@,
                *zones,
                lines.starts(),
                i as int,
                previous,
            ),
        decreases n - i,
    {
        let ch = text.chars[i];
        if ch != '#' || zones.covers(text.offs[i]) || !can_start_tag(previous) {
            previous = Some(ch);
            i = i + 1;
            continue;
        }
        let body_start = i + 1;
        let mut end = body_start;
        while end < n && is_tag_char(text.chars[end])
            invariant
                text.chars@ == source@,
                n == text.chars@.len(),
                body_start <= end <= n,
                tag_body_end(source@, body_start as int) == tag_body_end(source@, end as int),
            decreases n - end,
        {
            end = end + 1;
        }
        // trailing separators are punctuation
        let mut name_end = end;
        proof {
            assert(source@.subrange(body_start as int, end as int) =~= source@.subrange(body_start as int, name_end as int));
        }
        while name_end > body_start && (text.chars[name_end - 1] == '/' || text.chars[name_end - 1] == '-')
            invariant
                text.chars@ == source@,
                body_start <= name_end <= end <= n,
                n == text.chars@.len(),
                strip_tag_end(source@.subrange(body_start as int, end as int)) == strip_tag_end(source@.subrange(body_start as int, name_end as int)),
            decreases name_end,
        {
            assert(source@.subrange(body_start as int, name_end as int).drop_last() =~= source@.subrange(body_start as int, name_end - 1));
            name_end = name_end - 1;
        }
        let ghost name = source@.subrange(body_start as int, name_end as int);
        assert(strip_tag_end(name) == name);
        let usable = name_end > body_start && has_alpha_in(&text.chars, body_start, name_end)
            && !has_double_slash_in(&text.chars, body_start, name_end);
        let ghost before = out@;
        if usable {
            let byte_start = text.offs[i];
            let tag = Tag {
                name: string_of(&text.chars, body_start, name_end),
                line: lines.line_of(byte_start),
                byte_start,
                byte_end: text.offs[name_end],
            };
            out.push(tag);
            assert(tags_view(out@) =~= tags_view(before).push(tag@));
        }
        let ghost rest = tags_from(source@, *zones, lines.starts(), end as int, Some(if end > body_start { source@[end - 1] } else { '#' }));
        proof {
            if usable {
                assert(tags_view(before).push(out@.last()@) + rest =~= tags_view(before) + (seq![out@.last()@] + rest));
            } else {
                assert(seq![] + rest =~= rest);
            }
        }
        previous = Some(if end > body_start { text.chars[end - 1] } else { '#' });
        i = end;
    }
    assert(tags_view(out@) + seq![] =~= tags_view(out@));
    out
}

fn has_alpha_in(v: &[char], a: usize, b: usize) -> (r: bool)
    requires
        a <= b <= v@.len(),
    ensures
        r == has_alpha(v@.subrange(a as int, b as int)),
{
    let ghost sub = v@.subrange(a as int, b as int);
    let mut i: usize = a;
    while i < b
        invariant
            a <= i <= b <= v@.len(),
            sub == v@.subrange(a as int, b as int),
            forall|k: int| a <= k < i ==> !is_alpha(#[trigger] v@[k]),
        decreases b - i,
    {
        if is_alphabetic(v[i]) {
            assert(sub[i - a] == v@[i as int]);
            return true;
        }
        i = i + 1;
    }
    assert forall|k: int| 0 <= k < sub.len() implies !is_alpha(#[trigger] sub[k]) by {
        assert(sub[k] == v@[k + a]);
    }
    false
}

fn has_double_slash_in(v: &[char], a: usize, b: usize) -> (r: bool)
    requires
        a <= b <= v@.len(),
    ensures
        r == has_double_slash(v@.subrange(a as int, b as int)),
{
    let ghost sub = v@.subrange(a as int, b as int);
    let mut i: usize = a;
    while i < b && b - i > 1
        invariant
            a <= i <= b <= v@.len(),
            sub == v@.subrange(a as int, b as int),
            forall|k: int| a <= k < i && k + 1 < b ==> !(#[trigger] v@[k] == '/' && v@[k + 1] == '/'),
        decreases b - i,
    {
        if v[i] == '/' && v[i + 1] == '/' {
            assert(sub[i - a] == '/' && sub[i - a + 1] == '/');
            return true;
        }
        i = i + 1;
    }
    assert forall|k: int| 0 <= k < sub.len() - 1 implies !(#[trigger] sub[k] == '/' && sub[k + 1] == '/') by {
        assert(sub[k] == v@[k + a]);
        assert(sub[k + 1] == v@[k + a + 1]);
    }
    false
}

/// Byte ranges of the tags found, so a later scan can skip them.
pub fn tag_ranges(tags: &[Tag]) -> (r: Vec<Range<usize>>)
    ensures
        r@.len() == tags@.len(),
        forall|k: int| 0 <= k < tags@.len() ==> (#[trigger] r@[k]).start == tags@[k].byte_start && r@[k].end == tags@[k].byte_end,
{
    let mut r: Vec<Range<usize>> = Vec::new();
    let mut i: usize = 0;
    while i < tags.len()
        invariant
            0 <= i <= tags@.len(),
            r@.len() == i,
            forall|k: int| 0 <= k < i ==> (#[trigger] r@[k]).start == tags@[k].byte_start && r@[k].end == tags@[k].byte_end,
        decreases tags@.len() - i,
    {
        r.push(tags[i].byte_start..tags[i].byte_end);
        i = i + 1;
    }
    r
}

/// Byte ranges of the links found.
pub fn link_ranges(links: &[Link]) -> (r: Vec<Range<usize>>)
    ensures
        r@.len() == links@.len(),
        forall|k: int| 0 <= k < links@.len() ==> (#[trigger] r@[k]).start == links@[k].byte_start && r@[k].end == links@[k].byte_end,
{
    let mut r: Vec<Range<usize>> = Vec::new();
    let mut i: usize = 0;
    while i < links.len()
        invariant
            0 <= i <= links@.len(),
            r@.len() == i,
            forall|k: int| 0 <= k < i ==> (#[trigger] r@[k]).start == links@[k].byte_start && r@[k].end == links@[k].byte_end,
        decreases links@.len() - i,
    {
        r.push(links[i].byte_start..links[i].byte_end);
        i = i + 1;
    }
    r
}

// ---------------------------------------------------------------------------
// Block identifiers.

pub open spec fn block_id_char(c: char) -> bool {
    ('a' <= c <= 'z') || ('A' <= c <= 'Z') || ('0' <= c <= '9') || c == '-' || c == '_'
}

/// A trailing `^id` marker of a line: the id and the character index of the
/// `^`. The marker must follow whitespace or start the line's content.
pub open spec fn trailing_id(line: Seq<char>) -> Option<(Seq<char>, int)> {
    let t = trim_end(line);
    if t.len() == 0 {
        None
    } else {
        match rfind_char(t, '^') {
            None => None,
            Some(caret) => {
                let id = t.subrange(caret + 1, t.len() as int);
                if id.len() == 0 || !(forall|k: int| 0 <= k < id.len() ==> block_id_char(#[trigger] id[k])) {
                    None
                } else if caret == 0 || is_ws(t[caret - 1]) {
                    Some((id, caret))
                } else {
                    None
                }
            },
        }
    }
}

/// The range a line's byte range maps to, as `LineIndex::line_range` gives it.
pub open spec fn lr_start(starts: Seq<int>, len: int, k: int) -> int {
    if k < starts.len() {
        starts[k]
    } else {
        len
    }
}

pub open spec fn lr_end(starts: Seq<int>, len: int, k: int) -> int {
    if k + 1 < starts.len() {
        starts[k + 1] - 1
    } else {
        len
    }
}

/// The text of line `k`, as `LineIndex::line_text` gives it.
pub open spec fn ltext(s: Seq<char>, starts: Seq<int>, len: int, k: int) -> Seq<char> {
    strip_cr(
        match byte_slice(s, lr_start(starts, len, k), lr_end(starts, len, k)) {
            Some(t) => t,
            None => Seq::<char>::empty(),
        },
    )
}

pub open spec fn blank(s: Seq<char>, starts: Seq<int>, len: int, k: int) -> bool {
    trim(ltext(s, starts, len, k)).len() == 0
}

/// Walk up from `line` while the lines above are non-blank.
pub open spec fn first_para(s: Seq<char>, starts: Seq<int>, len: int, line: int) -> int
    decreases line,
{
    if line > 0 && !blank(s, starts, len, line - 1) {
        first_para(s, starts, len, line - 1)
    } else {
        line
    }
}

/// Walk up from `k` over blank lines, stopping at line 0.
pub open spec fn skip_blank_up(s: Seq<char>, starts: Seq<int>, len: int, k: int) -> int
    decreases k,
{
    if k > 0 && blank(s, starts, len, k) {
        skip_blank_up(s, starts, len, k - 1)
    } else {
        k
    }
}

/// The block a line's marker identifies, if any.
pub open spec fn block_at(s: Seq<char>, z: ExclusionZones, starts: Seq<int>, len: int, k: int) -> Option<BlockView> {
    let text = ltext(s, starts, len, k);
    match trailing_id(text) {
        None => None,
        Some((id, caret)) => {
            let start = lr_start(starts, len, k);
            if z.covers_spec(start + blen(text.take(caret))) {
                None
            } else {
                let standalone = trim(text.take(caret)).len() == 0;
                let range = if standalone {
                    if k == 0 {
                        None
                    } else {
                        let last = skip_blank_up(s, starts, len, k - 1);
                        if blank(s, starts, len, last) {
                            None
                        } else {
                            Some((lr_start(starts, len, first_para(s, starts, len, last)), lr_end(starts, len, last)))
                        }
                    }
                } else {
                    Some((lr_start(starts, len, first_para(s, starts, len, k)), start + blen(trim_end(text.take(caret)))))
                };
                match range {
                    None => None,
                    Some((a, b)) => if a >= b {
                        None
                    } else {
                        Some(BlockView { id, line: k, byte_start: a, byte_end: b })
                    },
                }
            }
        },
    }
}

/// The blocks found on lines `k` and after.
pub open spec fn blocks_from(s: Seq<char>, z: ExclusionZones, starts: Seq<int>, len: int, k: int) -> Seq<BlockView>
    decreases starts.len() - k,
{
    if k < 0 || k >= starts.len() {
        seq![]
    } else {
        match block_at(s, z, starts, len, k) {
            Some(b) => seq![b] + blocks_from(s, z, starts, len, k + 1),
            None => blocks_from(s, z, starts, len, k + 1),
        }
    }
}

/// The character range of line `k`'s text within `text`.
fn line_chars(lines: &LineIndex, text: &Text, k: usize) -> (r: (usize, usize))
    requires
        lines.wf(),
        text.wf(),
    ensures
        r.0 <= r.1 <= text.chars@.len(),
        text.chars@.subrange(r.0 as int, r.1 as int) == ltext(text.chars@, lines.starts(), lines.byte_len(), k as int),
        byte_slice(text.chars@, lr_start(lines.starts(), lines.byte_len(), k as int), lr_end(lines.starts(), lines.byte_len(), k as int)) is Some
            ==> boff(text.chars@, r.0 as int) == lr_start(lines.starts(), lines.byte_len(), k as int),
{
    let range = lines.line_range(k);
    let x = text.index_of_byte(range.start);
    let y = text.index_of_byte(range.end);
    let ghost s = text.chars@;
    let (a, b): (usize, usize) = match (x, y) {
        (Some(i), Some(j)) => {
            if i <= j {
                proof {
                    lemma_byte_slice_some(s, i as int, j as int);
                }
                (i, j)
            } else {
                proof {
                    if byte_slice(s, range.start as int, range.end as int) is Some {
                        let (p, q) = choose|p: int, q: int| 0 <= p <= q <= s.len() && boff(s, p) == range.start && boff(s, q) == range.end;
                        crate::strings::lemma_boff_inj(s, p, i as int);
                        crate::strings::lemma_boff_inj(s, q, j as int);
                    }
                    assert(s.subrange(0, 0) =~= Seq::<char>::empty());
                }
                (0, 0)
            }
        },
        _ => {
            proof {
                assert(s.subrange(0, 0) =~= Seq::<char>::empty());
            }
            (0, 0)
        },
    };
    let mut end = b;
    while end > a && text.chars[end - 1] == '\r'
        invariant
            text.wf(),
            a <= end <= b <= text.chars@.len(),
            s == text.chars@,
            strip_cr(s.subrange(a as int, b as int)) == strip_cr(s.subrange(a as int, end as int)),
        decreases end - a,
    {
        assert(s.subrange(a as int, end as int).drop_last() =~= s.subrange(a as int, end - 1));
        end = end - 1;
    }
    assert(strip_cr(s.subrange(a as int, end as int)) == s.subrange(a as int, end as int));
    (a, end)
}

/// Whether line `k` is blank.
fn is_blank_line(lines: &LineIndex, text: &Text, k: usize) -> (r: bool)
    requires
        lines.wf(),
        text.wf(),
    ensures
        r == blank(text.chars@, lines.starts(), lines.byte_len(), k as int),
{
    let (a, b) = line_chars(lines, text, k);
    let (x, y) = trim_range(&text.chars, a, b);
    x == y
}

/// Walk up from `line` while the lines above are non-blank.
fn first_line_of_paragraph(lines: &LineIndex, text: &Text, line: usize) -> (r: usize)
    requires
        lines.wf(),
        text.wf(),
    ensures
        r == first_para(text.chars@, lines.starts(), lines.byte_len(), line as int),
{
    let mut first = line;
    while first > 0 && !is_blank_line(lines, text, first - 1)
        invariant
            lines.wf(),
            text.wf(),
            first <= line,
            first_para(text.chars@, lines.starts(), lines.byte_len(), line as int)
                == first_para(text.chars@, lines.starts(), lines.byte_len(), first as int),
        decreases first,
    {
        first = first - 1;
    }
    first
}

pub proof fn lemma_boff_sub(s: Seq<char>, a: int, k: int)
    requires
        0 <= a,
        0 <= k,
        a + k <= s.len(),
    ensures
        boff(s, a + k) == boff(s, a) + blen(s.subrange(a, a + k)),
{
    assert(s.take(a + k) =~= s.take(a) + s.subrange(a, a + k));
    lemma_blen_concat(s.take(a), s.subrange(a, a + k));
}

/// Recognise a `^id` marker at the end of line `s[a..b]`: the id and the
/// character index of the `^`.
fn parse_trailing_block_id(v: &[char], a: usize, b: usize) -> (r: Option<(String, usize)>)
    requires
        a <= b <= v@.len(),
    ensures
        match trailing_id(v@.subrange(a as int, b as int)) {
            None => r is None,
            Some((id, caret)) => r matches Some((x, c)) && x@ == id && c == a + caret,
        },
        r matches Some((x, c)) ==> a <= c < b,
{
    let ghost line = v@.subrange(a as int, b as int);
    let e = trim_end_range(v, a, b);
    let ghost t = trim_end(line);
    assert(t =~= v@.subrange(a as int, e as int));
    if e == a {
        return None;
    }
    let caret = match rfind_char_in(v, a, e, '^') {
        None => return None,
        Some(c) => c,
    };
    let ghost id = t.subrange(caret - a + 1, t.len() as int);
    assert(id =~= v@.subrange(caret + 1, e as int));
    if caret + 1 == e {
        return None;
    }
    let mut k: usize = caret + 1;
    while k < e
        invariant
            a <= caret,
            caret + 1 <= k <= e <= b <= v@.len(),
            line == v@.subrange(a as int, b as int),
            t == trim_end(line),
            t == v@.subrange(a as int, e as int),
            t.len() > 0,
            rfind_char(t, '^') == Some(caret - a),
            id == t.subrange(caret - a + 1, t.len() as int),
            id == v@.subrange(caret + 1, e as int),
            forall|j: int| caret + 1 <= j < k ==> block_id_char(#[trigger] v@[j]),
        decreases e - k,
    {
        let c = v[k];
        if !(('a' <= c && c <= 'z') || ('A' <= c && c <= 'Z') || ('0' <= c && c <= '9') || c == '-' || c == '_') {
            assert(!block_id_char(id[k - caret - 1]));
            return None;
        }
        k = k + 1;
    }
    assert forall|j: int| 0 <= j < id.len() implies block_id_char(#[trigger] id[j]) by {
        assert(id[j] == v@[j + caret + 1]);
    }
    if caret == a || crate::strings::is_whitespace(v[caret - 1]) {
        Some((string_of(v, caret + 1, e), caret))
    } else {
        assert(t[caret - a - 1] == v@[caret - 1]);
        None
    }
}

/// Find trailing `^block-id` markers and the paragraph each identifies: the
/// line's own paragraph for a marker that ends a line, the paragraph above
/// for a marker alone on its line.
pub fn scan_blocks(source: &str, zones: &ExclusionZones, lines: &LineIndex) -> (out: Vec<Block>)
    requires
        lines.wf(),
    ensures
        blocks_view(out@) == blocks_from(source@, *zones, lines.starts(), lines.byte_len(), 0),
{
    let text = Text::new(source);
    let ghost s = source@;
    let ghost st = lines.starts();
    let ghost ln = lines.byte_len();
    let count = lines.line_count();
    let mut out: Vec<Block> = Vec::new();
    let mut k: usize = 0;
    while k < count
        invariant
            text.wf(),
            text.chars@ == s,
            s == source@,
            lines.wf(),
            st == lines.starts(),
            ln == lines.byte_len(),
            count == st.len(),
            k <= count,
            blocks_from(s, *zones, st, ln, 0) == blocks_view(out@) + blocks_from(s, *zones, st, ln, k as int),
        decreases count - k,
    {
        let found = block_on_line(lines, &text, zones, k);
        let ghost before = out@;
        match found {
            Some(b) => {
                out.push(b);
                proof {
                    assert(blocks_view(out@) =~= blocks_view(before).push(out@.last()@));
                    assert(blocks_view(before).push(out@.last()@) + blocks_from(s, *zones, st, ln, k + 1)
                        =~= blocks_view(before) + (seq![out@.last()@] + blocks_from(s, *zones, st, ln, k + 1)));
                }
            },
            None => {},
        }
        k = k + 1;
    }
    assert(blocks_view(out@) + seq![] =~= blocks_view(out@));
    out
}

fn block_on_line(lines: &LineIndex, text: &Text, zones: &ExclusionZones, k: usize) -> (r: Option<Block>)
    requires
        lines.wf(),
        text.wf(),
    ensures
        match block_at(text.chars@, *zones, lines.starts(), lines.byte_len(), k as int) {
            None => r is None,
            Some(b) => r matches Some(x) && x@ == b,
        },
{
    let ghost s = text.chars@;
    let ghost st = lines.starts();
    let ghost ln = lines.byte_len();
    let range = lines.line_range(k);
    let (a, b) = line_chars(lines, text, k);
    let ghost line = s.subrange(a as int, b as int);
    let (id, caret) = match parse_trailing_block_id(&text.chars, a, b) {
        None => return None,
        Some(p) => p,
    };
    // a marker was found, so the line's text is not empty and its byte range
    // maps onto `source`
    proof {
        if byte_slice(s, lr_start(st, ln, k as int), lr_end(st, ln, k as int)) is None {
            assert(ltext(s, st, ln, k as int) == strip_cr(Seq::<char>::empty()));
            assert(trim_end(Seq::<char>::empty()).len() == 0) by {
                lemma_trim_end_len(Seq::<char>::empty());
            }
        }
        lemma_boff_sub(s, a as int, caret - a);
        assert(line.take(caret - a) =~= s.subrange(a as int, caret as int));
    }
    let marker_start = text.offs[caret];
    if zones.covers(marker_start) {
        return None;
    }
    let (p, q) = trim_range(&text.chars, a, caret);
    let standalone = p == q;
    let (content_start, content_end): (usize, usize) = if standalone {
        if k == 0 {
            return None;
        }
        let mut last = k - 1;
        while last > 0 && is_blank_line(lines, text, last)
            invariant
                lines.wf(),
                text.wf(),
                last < k,
                s == text.chars@,
                st == lines.starts(),
                ln == lines.byte_len(),
                skip_blank_up(s, st, ln, k - 1) == skip_blank_up(s, st, ln, last as int),
            decreases last,
        {
            last = last - 1;
        }
        if is_blank_line(lines, text, last) {
            return None;
        }
        let first = first_line_of_paragraph(lines, text, last);
        (lines.line_range(first).start, lines.line_range(last).end)
    } else {
        let first = first_line_of_paragraph(lines, text, k);
        let e = trim_end_range(&text.chars, a, caret);
        proof {
            lemma_boff_sub(s, a as int, e - a);
        }
        assert(trim_end(line.take(caret - a)) =~= s.subrange(a as int, e as int));
        (lines.line_range(first).start, range.start + (text.offs[e] - text.offs[a]))
    };
    if content_start >= content_end {
        return None;
    }
    Some(Block { id, line: k, byte_start: content_start, byte_end: content_end })
}

// ---------------------------------------------------------------------------
// What the scans read of the zones: only which offsets they cover.

pub open spec fn same_coverage(z1: ExclusionZones, z2: ExclusionZones) -> bool {
    forall|o: int| #[trigger] z1.covers_spec(o) == z2.covers_spec(o)
}

pub proof fn lemma_wiki_links_coverage(s: Seq<char>, z1: ExclusionZones, z2: ExclusionZones, starts: Seq<int>, cursor: int)
    requires
        same_coverage(z1, z2),
    ensures
        wiki_links_from(s, z1, starts, cursor) == wiki_links_from(s, z2, starts, cursor),
    decreases s.len() - cursor,
{
    if cursor >= 0 && cursor + 1 < s.len() {
        match find_seq_from(s, cursor, s.len() as int, open2()) {
            None => {},
            Some(found) => {
                lemma_find_seq_from(s, cursor, s.len() as int, open2());
                lemma_wiki_links_coverage(s, z1, z2, starts, found + 2);
                match find_seq_from(s, found + 2, s.len() as int, close2()) {
                    None => {},
                    Some(close) => {
                        lemma_find_seq_from(s, found + 2, s.len() as int, close2());
                        lemma_wiki_links_coverage(s, z1, z2, starts, close + 2);
                    },
                }
            },
        }
    }
}

pub proof fn lemma_tags_coverage(
    s: Seq<char>,
    z1: ExclusionZones,
    z2: ExclusionZones,
    starts: Seq<int>,
    i: int,
    previous: Option<char>,
)
    requires
        same_coverage(z1, z2),
    ensures
        tags_from(s, z1, starts, i, previous) == tags_from(s, z2, starts, i, previous),
    decreases s.len() - i,
{
    if i >= 0 && i < s.len() {
        lemma_tags_coverage(s, z1, z2, starts, i + 1, Some(s[i]));
        lemma_tag_body_end(s, i + 1);
        let e = tag_body_end(s, i + 1);
        let next_previous = if e > i + 1 {
            s[e - 1]
        } else {
            '#'
        };
        lemma_tags_coverage(s, z1, z2, starts, e, Some(next_previous));
    }
}

pub proof fn lemma_blocks_coverage(s: Seq<char>, z1: ExclusionZones, z2: ExclusionZones, starts: Seq<int>, len: int, k: int)
    requires
        same_coverage(z1, z2),
    ensures
        blocks_from(s, z1, starts, len, k) == blocks_from(s, z2, starts, len, k),
    decreases starts.len() - k,
{
    if k >= 0 && k < starts.len() {
        assert(block_at(s, z1, starts, len, k) == block_at(s, z2, starts, len, k));
        lemma_blocks_coverage(s, z1, z2, starts, len, k + 1);
    }
}

/// Every link found spans a forward byte range.
pub proof fn lemma_wiki_links_ordered(s: Seq<char>, z: ExclusionZones, starts: Seq<int>, cursor: int)
    ensures
        forall|k: int| 0 <= k < wiki_links_from(s, z, starts, cursor).len()
            ==> (#[trigger] wiki_links_from(s, z, starts, cursor)[k]).byte_start <= wiki_links_from(s, z, starts, cursor)[k].byte_end,
    decreases s.len() - cursor,
{
    if cursor >= 0 && cursor + 1 < s.len() {
        match find_seq_from(s, cursor, s.len() as int, open2()) {
            None => {},
            Some(found) => {
                lemma_find_seq_from(s, cursor, s.len() as int, open2());
                lemma_wiki_links_ordered(s, z, starts, found + 2);
                match find_seq_from(s, found + 2, s.len() as int, close2()) {
                    None => {},
                    Some(close) => {
                        lemma_find_seq_from(s, found + 2, s.len() as int, close2());
                        lemma_wiki_links_ordered(s, z, starts, close + 2);
                        let raw_start = if found > 0 && s[found - 1] == '!' { found - 1 } else { found };
                        lemma_boff_mono(s, raw_start, close + 2);
                        let rest = wiki_links_from(s, z, starts, close + 2);
                        let all = wiki_links_from(s, z, starts, cursor);
                        let inner = s.subrange(found + 2, close);
                        if !z.covers_spec(boff(s, raw_start) as int) && !(find_char(inner, '\n') is Some
                            || find_seq_from(s, found + 2, close, open2()) is Some) && !(target_path(inner).len() == 0
                            && target_heading(inner) is None && target_block(inner) is None) {
                            assert forall|k: int| 0 <= k < all.len() implies (#[trigger] all[k]).byte_start <= all[k].byte_end by {
                                if k > 0 {
                                    assert(all[k] == rest[k - 1]);
                                }
                            }
                        }
                    },
                }
            },
        }
    }
}

} // verus!
