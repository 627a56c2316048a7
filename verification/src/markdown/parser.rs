//! `MarkdownParser` — source text to everything the rest of the app needs.
//!
//! Two stages: a real CommonMark parser (`pulldown-cmark`) reports the
//! document's structure — headings, code, HTML, links, images — which tells
//! which byte ranges are prose; then the extension scanner runs over the
//! prose only, finding `[[wiki links]]`, `![[embeds]]`, `#tags` and
//! `^block-ids`. So a shell script's `#!/bin/sh` contributes no tag, and a
//! code sample's `[[x]]` no link.
use vstd::prelude::*;
use vstd::utf8::{decode_utf8, encode_utf8, valid_utf8};
use core::ops::Range;
use pulldown_cmark::Event::{Code, End, Html, InlineHtml, Start, Text as TextEvent};
use pulldown_cmark::Tag::{CodeBlock, Heading as HeadingTag, Image, Link as LinkTag};
use pulldown_cmark::TagEnd::Heading as HeadingEnd;
use pulldown_cmark::{Options, Parser};
use crate::links::reference::{opt_view, slug, slugify};
use crate::markdown::scanner::LinkView;
use crate::markdown::text::{
    byte_slice, lemma_byte_slice_none, lemma_byte_slice_none_order, lemma_byte_slice_some, line_at,
    LineIndex,
};
use crate::markdown::frontmatter::{body_offset, body_offset_of, body_start_of, lemma_body_start};
use crate::markdown::properties::{frontmatter_properties, frontmatter_title, get, parse_frontmatter};
use crate::model::property::properties_view;
use crate::markdown::scanner::{
    blocks_from, blocks_view, lemma_blocks_coverage, lemma_tags_coverage, lemma_wiki_links_coverage,
    link_ranges, links_view, scan_blocks, scan_tags, scan_wikilinks, tags_from, tags_view, wiki_links_from,
};
use crate::markdown::text::{count_words, covered, line_starts, word_count, ExclusionZones};
use crate::model::{Heading, Link, LinkKind, NoteMetadata};
use crate::strings::{
    ascii_alnum, ascii_alpha, blen, boff, find_char, find_char_in, string_of, string_of_all,
    str_to_string, to_chars, trim, trimmed, Text,
};

verus! {

/// Tunable parsing behaviour.
#[derive(Debug, Clone, Copy, PartialEq, Eq, Structural)]
pub struct ParserOptions {
    pub tables: bool,
    pub footnotes: bool,
    pub strikethrough: bool,
    pub task_lists: bool,
    /// Record `[text](https://…)` links. They never resolve to a file, but
    /// the graph can show which notes reach outward.
    pub track_external_links: bool,
}

impl Default for ParserOptions {
    fn default() -> (o: ParserOptions)
        ensures
            o.tables && o.footnotes && o.strikethrough && o.task_lists && o.track_external_links,
    {
        ParserOptions {
            tables: true,
            footnotes: true,
            strikethrough: true,
            task_lists: true,
            track_external_links: true,
        }
    }
}

/// The `pulldown_cmark::Options` bits the options select: tables (bit 1),
/// footnotes (bit 2), strikethrough (bit 3), task lists (bit 4), and
/// always heading attributes (bit 6).
pub open spec fn cmark_bits_of(o: ParserOptions) -> u32 {
    (64 + (if o.tables { 2int } else { 0 }) + (if o.footnotes { 4int } else { 0 })
        + (if o.strikethrough { 8int } else { 0 }) + (if o.task_lists { 16int } else { 0 })) as u32
}

impl ParserOptions {
    pub(crate) fn cmark_bits(self) -> (r: u32)
        ensures
            r == cmark_bits_of(self),
    {
        let mut bits: u32 = 64;
        if self.tables {
            bits = bits + 2;
        }
        if self.footnotes {
            bits = bits + 4;
        }
        if self.strikethrough {
            bits = bits + 8;
        }
        if self.task_lists {
            bits = bits + 16;
        }
        bits
    }
}

/// The app's Markdown front end.
#[derive(Debug, Clone, Copy)]
pub struct MarkdownParser {
    options: ParserOptions,
}

impl MarkdownParser {
    /// The options this parser was made with.
    pub closed spec fn opts(&self) -> ParserOptions {
        self.options
    }

    pub fn new() -> (p: MarkdownParser)
        ensures
            p.opts() == (ParserOptions {
                tables: true,
                footnotes: true,
                strikethrough: true,
                task_lists: true,
                track_external_links: true,
            }),
    {
        MarkdownParser { options: ParserOptions::default() }
    }

    pub fn with_options(options: ParserOptions) -> (p: MarkdownParser)
        ensures
            p.opts() == options,
    {
        MarkdownParser { options }
    }
}

impl Default for MarkdownParser {
    fn default() -> (p: MarkdownParser)
        ensures
            p.opts() == ParserOptions::default_spec(),
    {
        MarkdownParser::new()
    }
}

impl ParserOptions {
    pub open spec fn default_spec() -> ParserOptions {
        ParserOptions {
            tables: true,
            footnotes: true,
            strikethrough: true,
            task_lists: true,
            track_external_links: true,
        }
    }
}

// ---------------------------------------------------------------------------
// Link destinations.

/// Does this destination point outside the vault? Anything with a URL scheme
/// does, and so does protocol-relative `//host/path`. A single letter before
/// the colon is a Windows drive, and a colon followed by a space is prose.
pub open spec fn external_url(dest: Seq<char>) -> bool {
    if dest.len() >= 2 && dest[0] == '/' && dest[1] == '/' {
        true
    } else {
        match find_char(dest, ':') {
            Some(idx) => {
                let scheme = dest.take(idx);
                let rest = dest.skip(idx + 1);
                idx > 0 && scheme.len() > 1 && !(rest.len() > 0 && rest[0] == ' ') && ascii_alpha(scheme[0])
                    && forall|k: int| 0 <= k < scheme.len() ==> scheme_char(#[trigger] scheme[k])
            },
            None => false,
        }
    }
}

pub open spec fn scheme_char(c: char) -> bool {
    ascii_alnum(c) || c == '+' || c == '-' || c == '.'
}

/// Does this destination point outside the vault?
pub fn is_external_url(dest: &str) -> (r: bool)
    ensures
        r == external_url(dest@),
{
    let v = to_chars(dest);
    let n = v.len();
    if n >= 2 && v[0] == '/' && v[1] == '/' {
        return true;
    }
    proof {
        assert(v@.subrange(0, n as int) =~= v@);
    }
    match find_char_in(&v, 0, n, ':') {
        None => false,
        Some(idx) => {
            if idx == 0 || idx < 2 {
                return false;
            }
            if idx + 1 < n && v[idx + 1] == ' ' {
                assert(v@.skip(idx + 1)[0] == v@[idx + 1]);
                return false;
            }
            if !(('a' <= v[0] && v[0] <= 'z') || ('A' <= v[0] && v[0] <= 'Z')) {
                return false;
            }
            let ok = scheme_chars(&v, idx);
            proof {
                assert(forall|j: int| 0 <= j < idx ==> v@.take(idx as int)[j] == v@[j]);
            }
            ok
        },
    }
}

fn scheme_chars(v: &Vec<char>, idx: usize) -> (r: bool)
    requires
        idx <= v@.len(),
    ensures
        r == forall|j: int| 0 <= j < idx ==> scheme_char(#[trigger] v@[j]),
{
    let mut k: usize = 0;
    while k < idx
        invariant
            idx <= v@.len(),
            k <= idx,
            forall|j: int| 0 <= j < k ==> scheme_char(#[trigger] v@[j]),
        decreases idx - k,
    {
        let c = v[k];
        if !(('a' <= c && c <= 'z') || ('A' <= c && c <= 'Z') || ('0' <= c && c <= '9') || c == '+' || c == '-' || c == '.') {
            return false;
        }
        k = k + 1;
    }
    true
}

/// `Folder/Note.md#Heading` split into path, heading and block id; an empty
/// heading or block id is no reference.
pub open spec fn split_destination(dest: Seq<char>) -> (Seq<char>, Option<Seq<char>>, Option<Seq<char>>) {
    match find_char(dest, '#') {
        Some(idx) => {
            let path = dest.take(idx);
            let fragment = dest.skip(idx + 1);
            if fragment.len() > 0 && fragment[0] == '^' {
                let block = fragment.drop_first();
                (path, None, if block.len() > 0 { Some(block) } else { None })
            } else {
                (path, if fragment.len() > 0 { Some(fragment) } else { None }, None)
            }
        },
        None => (dest, None, None),
    }
}

fn split_internal_destination(dest: &String) -> (r: (String, Option<String>, Option<String>))
    ensures
        (r.0@, opt_view(r.1), opt_view(r.2)) == split_destination(dest@),
{
    let v = to_chars(dest.as_str());
    let n = v.len();
    proof {
        assert(v@.subrange(0, n as int) =~= v@);
    }
    match find_char_in(&v, 0, n, '#') {
        None => (string_of_all(&v), None, None),
        Some(idx) => {
            assert(v@.take(idx as int) =~= v@.subrange(0, idx as int));
            assert(v@.skip(idx + 1) =~= v@.subrange(idx + 1, n as int));
            let path = string_of(&v, 0, idx);
            if idx + 1 < n && v[idx + 1] == '^' {
                assert(v@.skip(idx + 1).drop_first() =~= v@.subrange(idx + 2, n as int));
                let block = if idx + 2 < n { Some(string_of(&v, idx + 2, n)) } else { None };
                (path, None, block)
            } else {
                let heading = if idx + 1 < n { Some(string_of(&v, idx + 1, n)) } else { None };
                (path, heading, None)
            }
        },
    }
}

pub open spec fn hex_value(b: u8) -> Option<int> {
    if 0x30 <= b <= 0x39 {
        Some(b - 0x30)
    } else if 0x41 <= b <= 0x46 {
        Some(b - 0x41 + 10)
    } else if 0x61 <= b <= 0x66 {
        Some(b - 0x61 + 10)
    } else {
        None
    }
}

/// What `u8::from_str_radix(.., 16)` reads from the two bytes after a `%`:
/// two hex digits, or `+` and one hex digit.
pub open spec fn escape_value(x: u8, y: u8) -> Option<u8> {
    if x == 0x2b {
        match hex_value(y) {
            Some(v) => Some(v as u8),
            None => None,
        }
    } else {
        match (hex_value(x), hex_value(y)) {
            (Some(a), Some(b)) => Some((16 * a + b) as u8),
            _ => None,
        }
    }
}

/// The bytes with each `%XX` escape that has two more bytes after it
/// replaced by the byte it names; anything else is kept.
pub open spec fn unescaped(bs: Seq<u8>) -> Seq<u8>
    decreases bs.len(),
{
    if bs.len() == 0 {
        bs
    } else if bs[0] == 0x25 && 2 < bs.len() && escape_value(bs[1], bs[2]) is Some {
        seq![escape_value(bs[1], bs[2]).unwrap()] + unescaped(bs.skip(3))
    } else {
        seq![bs[0]] + unescaped(bs.drop_first())
    }
}

/// `%20`-style escapes decoded; when the result is not UTF-8, the input.
pub open spec fn percent_decoded(s: Seq<char>) -> Seq<char> {
    if find_char(s, '%') is None {
        s
    } else {
        let d = unescaped(encode_utf8(s));
        if valid_utf8(d) {
            decode_utf8(d)
        } else {
            s
        }
    }
}

/// `String::from_utf8`: the text the bytes encode, when they are UTF-8.
#[verifier::external_body]
pub(crate) fn utf8_string(bytes: Vec<u8>) -> (r: Option<String>)
    ensures
        match r {
            Some(s) => valid_utf8(bytes@) && s@ == decode_utf8(bytes@),
            None => !valid_utf8(bytes@),
        },
{
    String::from_utf8(bytes).ok()
}

fn hex(b: u8) -> (r: Option<u8>)
    ensures
        match hex_value(b) {
            Some(v) => r == Some(v as u8),
            None => r is None,
        },
{
    if 0x30 <= b && b <= 0x39 {
        Some(b - 0x30)
    } else if 0x41 <= b && b <= 0x46 {
        Some(b - 0x41 + 10)
    } else if 0x61 <= b && b <= 0x66 {
        Some(b - 0x61 + 10)
    } else {
        None
    }
}

fn escape(x: u8, y: u8) -> (r: Option<u8>)
    ensures
        r == escape_value(x, y),
{
    if x == 0x2b {
        hex(y)
    } else {
        match (hex(x), hex(y)) {
            (Some(a), Some(b)) => Some(16 * a + b),
            _ => None,
        }
    }
}

/// Decode `%20`-style escapes that editors insert into link destinations.
/// Invalid escapes are left alone rather than dropped.
pub fn percent_decode(input: &str) -> (r: String)
    ensures
        r@ == percent_decoded(input@),
{
    let v = to_chars(input);
    proof {
        assert(v@.subrange(0, v@.len() as int) =~= v@);
    }
    if find_char_in(&v, 0, v.len(), '%').is_none() {
        return string_of_all(&v);
    }
    let bytes = input.as_bytes();
    let ghost bs = bytes@;
    let mut out: Vec<u8> = Vec::new();
    let mut i: usize = 0;
    assert(bs.skip(0) =~= bs);
    while i < bytes.len()
        invariant
            bs == bytes@,
            i <= bs.len(),
            unescaped(bs) == out@ + unescaped(bs.skip(i as int)),
        decreases bs.len() - i,
    {
        let ghost rest = bs.skip(i as int);
        if bytes[i] == 0x25 && bytes.len() - i > 2 {
            match escape(bytes[i + 1], bytes[i + 2]) {
                Some(b) => {
                    assert(rest[1] == bs[i + 1] && rest[2] == bs[i + 2]);
                    assert(rest.skip(3) =~= bs.skip(i + 3));
                    out.push(b);
                    i = i + 3;
                    assert(unescaped(bs) == out@ + unescaped(bs.skip(i as int)));
                    continue;
                },
                None => {
                    assert(rest[1] == bs[i + 1] && rest[2] == bs[i + 2]);
                },
            }
        }
        assert(rest.drop_first() =~= bs.skip(i + 1));
        assert(rest[0] == bs[i as int]);
        out.push(bytes[i]);
        i = i + 1;
        assert(unescaped(bs) == out@ + unescaped(bs.skip(i as int)));
    }
    assert(unescaped(bs.skip(i as int)) =~= Seq::<u8>::empty());
    assert(out@ + Seq::<u8>::empty() =~= out@);
    match utf8_string(out) {
        Some(s) => s,
        None => string_of_all(&v),
    }
}

// ---------------------------------------------------------------------------
// Structure, as pulldown-cmark reports it.

/// The events of the CommonMark parse that matter here, each with the byte
/// range of the body it covers.
#[derive(Debug)]
pub enum MdEvent {
    HeadingStart(u8, Range<usize>),
    HeadingEnd,
    CodeBlockStart(Range<usize>),
    Code(String, Range<usize>),
    Html(Range<usize>),
    InlineHtml(Range<usize>),
    LinkStart(String, Range<usize>),
    ImageStart(String, Range<usize>),
    Text(String),
    Other,
}

pub enum MdEventView {
    HeadingStart(int, nat, nat),
    HeadingEnd,
    CodeBlockStart(nat, nat),
    Code(Seq<char>, nat, nat),
    Html(nat, nat),
    InlineHtml(nat, nat),
    LinkStart(Seq<char>, nat, nat),
    ImageStart(Seq<char>, nat, nat),
    Text(Seq<char>),
    Other,
}

pub open spec fn md_event_view(e: MdEvent) -> MdEventView {
    match e {
        MdEvent::HeadingStart(l, r) => MdEventView::HeadingStart(l as int, r.start as nat, r.end as nat),
        MdEvent::HeadingEnd => MdEventView::HeadingEnd,
        MdEvent::CodeBlockStart(r) => MdEventView::CodeBlockStart(r.start as nat, r.end as nat),
        MdEvent::Code(t, r) => MdEventView::Code(t@, r.start as nat, r.end as nat),
        MdEvent::Html(r) => MdEventView::Html(r.start as nat, r.end as nat),
        MdEvent::InlineHtml(r) => MdEventView::InlineHtml(r.start as nat, r.end as nat),
        MdEvent::LinkStart(d, r) => MdEventView::LinkStart(d@, r.start as nat, r.end as nat),
        MdEvent::ImageStart(d, r) => MdEventView::ImageStart(d@, r.start as nat, r.end as nat),
        MdEvent::Text(t) => MdEventView::Text(t@),
        MdEvent::Other => MdEventView::Other,
    }
}

pub open spec fn md_events_view(v: Seq<MdEvent>) -> Seq<MdEventView> {
    v.map_values(|e: MdEvent| md_event_view(e))
}

/// The range an event covers lies within a body of `len` bytes.
pub open spec fn within(e: MdEvent, len: int) -> bool {
    match e {
        MdEvent::HeadingStart(_, r) => r.start <= r.end <= len,
        MdEvent::CodeBlockStart(r) => r.start <= r.end <= len,
        MdEvent::Code(_, r) => r.start <= r.end <= len,
        MdEvent::Html(r) => r.start <= r.end <= len,
        MdEvent::InlineHtml(r) => r.start <= r.end <= len,
        MdEvent::LinkStart(_, r) => r.start <= r.end <= len,
        MdEvent::ImageStart(_, r) => r.start <= r.end <= len,
        _ => true,
    }
}

/// The events `pulldown_cmark` reports for a body parsed with the given
/// option bits.
pub uninterp spec fn cmark_events(body: Seq<char>, bits: u32) -> Seq<MdEventView>;

/// `pulldown_cmark::Parser::new_ext(..).into_offset_iter()`: each event with
/// the byte range of the body it stands for. Claims that the events are
/// those the parser reports for these arguments, and that each range is a
/// range of the body.
#[verifier::external_body]
fn structure_events(body: &str, bits: u32) -> (r: Vec<MdEvent>)
    ensures
        md_events_view(r@) == cmark_events(body@, bits),
        forall|i: int| 0 <= i < r@.len() ==> within(#[trigger] r@[i], blen(body@) as int),
{
    Parser::new_ext(body, Options::from_bits_truncate(bits)).into_offset_iter().map(|(e, r)| match e {
        Start(HeadingTag { level, .. }) => MdEvent::HeadingStart(level as u8, r),
        End(HeadingEnd(_)) => MdEvent::HeadingEnd,
        Start(CodeBlock(_)) => MdEvent::CodeBlockStart(r),
        Code(c) => MdEvent::Code(c.to_string(), r),
        Html(_) => MdEvent::Html(r),
        InlineHtml(_) => MdEvent::InlineHtml(r),
        Start(LinkTag { dest_url, .. }) => MdEvent::LinkStart(dest_url.to_string(), r),
        Start(Image { dest_url, .. }) => MdEvent::ImageStart(dest_url.to_string(), r),
        TextEvent(t) => MdEvent::Text(t.to_string()),
        _ => MdEvent::Other,
    }).collect()
}

/// `source.get(a..b)`, or the empty string.
pub open spec fn slice_or_empty(s: Seq<char>, a: int, b: int) -> Seq<char> {
    match byte_slice(s, a, b) {
        Some(t) => t,
        None => Seq::<char>::empty(),
    }
}

/// The link a Markdown link or image with destination `dest` at `start..end`
/// makes, if any.
pub open spec fn md_link(
    s: Seq<char>,
    starts: Seq<int>,
    track_external: bool,
    dest: Seq<char>,
    start: int,
    end: int,
    image: bool,
) -> Option<LinkView> {
    let external = external_url(dest);
    if external && !track_external {
        None
    } else {
        let kind = if external {
            LinkKind::External
        } else if image {
            LinkKind::MarkdownImage
        } else {
            LinkKind::Markdown
        };
        let parts = if external {
            (dest, None::<Seq<char>>, None::<Seq<char>>)
        } else {
            split_destination(percent_decoded(dest))
        };
        if parts.0.len() == 0 && parts.1 is None && parts.2 is None {
            None
        } else {
            Some(
                LinkView {
                    kind,
                    raw: slice_or_empty(s, start, end),
                    target: parts.0,
                    heading: parts.1,
                    block_id: parts.2,
                    alias: None,
                    line: line_at(starts, start),
                    byte_start: start,
                    byte_end: end,
                },
            )
        }
    }
}

pub struct HeadingView {
    pub level: int,
    pub text: Seq<char>,
    pub slug: Seq<char>,
    pub line: int,
    pub byte_start: int,
}

pub open spec fn heading_view(h: Heading) -> HeadingView {
    HeadingView {
        level: h.level as int,
        text: h.text@,
        slug: h.slug@,
        line: h.line as int,
        byte_start: h.byte_start as int,
    }
}

pub open spec fn headings_view(v: Seq<Heading>) -> Seq<HeadingView> {
    v.map_values(|h: Heading| heading_view(h))
}

/// The structure collected from the events so far.
pub struct WalkView {
    pub headings: Seq<HeadingView>,
    /// Ranges the extension scanner must not enter.
    pub excluded: Seq<(int, int)>,
    /// Ranges of Markdown links and images, excluded from tag scanning only.
    pub link_ranges: Seq<(int, int)>,
    pub links: Seq<LinkView>,
    /// A heading being read: level, start, text so far.
    pub open: Option<(int, int, Seq<char>)>,
}

pub open spec fn walk_start() -> WalkView {
    WalkView { headings: seq![], excluded: seq![], link_ranges: seq![], links: seq![], open: None }
}

pub open spec fn appended(open: Option<(int, int, Seq<char>)>, t: Seq<char>) -> Option<(int, int, Seq<char>)> {
    match open {
        Some((l, s0, x)) => Some((l, s0, x + t)),
        None => None,
    }
}

pub open spec fn heading_of(starts: Seq<int>, level: int, start: int, text: Seq<char>) -> HeadingView {
    HeadingView { level, text: trim(text), slug: slug(trim(text)), line: line_at(starts, start), byte_start: start }
}

pub open spec fn with_link(links: Seq<LinkView>, l: Option<LinkView>) -> Seq<LinkView> {
    match l {
        Some(x) => links.push(x),
        None => links,
    }
}

/// One event's effect; the body starts at byte `bo` of `s`.
pub open spec fn walk_step(s: Seq<char>, starts: Seq<int>, track: bool, bo: int, st: WalkView, e: MdEventView) -> WalkView {
    match e {
        MdEventView::HeadingStart(level, a, b) => WalkView { open: Some((level, a + bo, seq![])), ..st },
        MdEventView::HeadingEnd => match st.open {
            Some((level, start, text)) => WalkView {
                headings: st.headings.push(heading_of(starts, level, start, text)),
                open: None,
                ..st
            },
            None => st,
        },
        MdEventView::CodeBlockStart(a, b) => WalkView { excluded: st.excluded.push((a + bo, b + bo)), ..st },
        MdEventView::Code(t, a, b) => WalkView {
            excluded: st.excluded.push((a + bo, b + bo)),
            open: appended(st.open, t),
            ..st
        },
        MdEventView::Html(a, b) => WalkView { excluded: st.excluded.push((a + bo, b + bo)), ..st },
        MdEventView::InlineHtml(a, b) => WalkView { excluded: st.excluded.push((a + bo, b + bo)), ..st },
        MdEventView::LinkStart(d, a, b) => WalkView {
            link_ranges: st.link_ranges.push((a + bo, b + bo)),
            links: with_link(st.links, md_link(s, starts, track, d, a + bo, b + bo, false)),
            ..st
        },
        MdEventView::ImageStart(d, a, b) => WalkView {
            link_ranges: st.link_ranges.push((a + bo, b + bo)),
            links: with_link(st.links, md_link(s, starts, track, d, a + bo, b + bo, true)),
            ..st
        },
        MdEventView::Text(t) => WalkView { open: appended(st.open, t), ..st },
        MdEventView::Other => st,
    }
}

pub open spec fn walk_all(s: Seq<char>, starts: Seq<int>, track: bool, bo: int, evs: Seq<MdEventView>) -> WalkView
    decreases evs.len(),
{
    if evs.len() == 0 {
        walk_start()
    } else {
        walk_step(s, starts, track, bo, walk_all(s, starts, track, bo, evs.drop_last()), evs.last())
    }
}

/// `source.get(a..b)` as a string, or the empty string.
fn slice_text(text: &Text, a: usize, b: usize) -> (r: String)
    requires
        text.wf(),
    ensures
        r@ == slice_or_empty(text.chars@, a as int, b as int),
{
    let ghost s = text.chars@;
    match (text.index_of_byte(a), text.index_of_byte(b)) {
        (Some(i), Some(j)) => {
            if i <= j {
                proof {
                    lemma_byte_slice_some(s, i as int, j as int);
                }
                string_of(&text.chars, i, j)
            } else {
                proof {
                    lemma_byte_slice_none_order(s, a as int, b as int);
                    reveal_strlit("");
                }
                str_to_string("")
            }
        },
        _ => {
            proof {
                lemma_byte_slice_none(s, a as int, b as int);
                reveal_strlit("");
            }
            str_to_string("")
        },
    }
}

/// The structure collected from the events.
struct Structure {
    headings: Vec<Heading>,
    excluded: Vec<Range<usize>>,
    link_ranges: Vec<Range<usize>>,
    markdown_links: Vec<Link>,
}

pub open spec fn pairs_view(v: Seq<Range<usize>>) -> Seq<(int, int)> {
    v.map_values(|r: Range<usize>| (r.start as int, r.end as int))
}

spec fn open_view(o: Option<(u8, usize, Vec<char>)>) -> Option<(int, int, Seq<char>)> {
    match o {
        Some((l, s0, t)) => Some((l as int, s0 as int, t@)),
        None => None,
    }
}

spec fn structure_view(st: Structure, open: Option<(u8, usize, Vec<char>)>) -> WalkView {
    WalkView {
        headings: headings_view(st.headings@),
        excluded: pairs_view(st.excluded@),
        link_ranges: pairs_view(st.link_ranges@),
        links: crate::markdown::scanner::links_view(st.markdown_links@),
        open: open_view(open),
    }
}

fn push_chars_of(v: &mut Vec<char>, t: &String)
    ensures
        final(v)@ == old(v)@ + t@,
{
    let w = to_chars(t.as_str());
    let mut i: usize = 0;
    while i < w.len()
        invariant
            i <= w@.len(),
            w@ == t@,
            v@ == old(v)@ + w@.take(i as int),
        decreases w@.len() - i,
    {
        v.push(w[i]);
        i = i + 1;
        assert(v@ =~= old(v)@ + w@.take(i as int));
    }
    assert(w@.take(w@.len() as int) =~= w@);
}

impl MarkdownParser {
    fn build_markdown_link(
        &self,
        text: &Text,
        lines: &LineIndex,
        dest: &String,
        start: usize,
        end: usize,
        image: bool,
    ) -> (r: Option<Link>)
        requires
            text.wf(),
            lines.wf(),
        ensures
            match md_link(text.chars@, lines.starts(), self.options.track_external_links, dest@, start as int, end as int, image) {
                Some(l) => r matches Some(x) && x@ == l,
                None => r is None,
            },
    {
        let external = is_external_url(dest.as_str());
        if external && !self.options.track_external_links {
            return None;
        }
        let kind = if external {
            LinkKind::External
        } else if image {
            LinkKind::MarkdownImage
        } else {
            LinkKind::Markdown
        };
        let (target, heading, block_id) = if external {
            (crate::strings::clone_string(dest), None, None)
        } else {
            split_internal_destination(&percent_decode(dest.as_str()))
        };
        if to_chars(target.as_str()).len() == 0 && heading.is_none() && block_id.is_none() {
            return None;
        }
        Some(Link {
            kind,
            raw: slice_text(text, start, end),
            target,
            heading,
            block_id,
            alias: None,
            line: lines.line_of(start),
            byte_start: start,
            byte_end: end,
        })
    }

    fn walk_structure(&self, text: &Text, lines: &LineIndex, body_offset: usize, events: &Vec<MdEvent>) -> (r: Structure)
        requires
            text.wf(),
            lines.wf(),
            forall|i: int| 0 <= i < events@.len() ==> within(#[trigger] events@[i], blen(text.chars@) - body_offset),
            body_offset <= blen(text.chars@),
            blen(text.chars@) <= usize::MAX,
        ensures
            structure_view(r, None) == ({
                let w = walk_all(text.chars@, lines.starts(), self.options.track_external_links, body_offset as int, md_events_view(events@));
                WalkView { open: None, ..w }
            }),
            forall|k: int| 0 <= k < r.markdown_links@.len() ==> (#[trigger] r.markdown_links@[k]).byte_start <= r.markdown_links@[k].byte_end,
    {
        let ghost s = text.chars@;
        let ghost starts = lines.starts();
        let ghost track = self.options.track_external_links;
        let ghost bo = body_offset as int;
        let ghost evs = md_events_view(events@);
        let mut st = Structure { headings: Vec::new(), excluded: Vec::new(), link_ranges: Vec::new(), markdown_links: Vec::new() };
        let mut open: Option<(u8, usize, Vec<char>)> = None;
        let mut i: usize = 0;
        assert(evs.take(0) =~= seq![]);
        assert(structure_view(st, open) == walk_start()) by {
            assert(headings_view(st.headings@) =~= seq![]);
            assert(pairs_view(st.excluded@) =~= seq![]);
            assert(pairs_view(st.link_ranges@) =~= seq![]);
            assert(crate::markdown::scanner::links_view(st.markdown_links@) =~= seq![]);
        }
        while i < events.len()
            invariant
                text.wf(),
                lines.wf(),
                s == text.chars@,
                starts == lines.starts(),
                track == self.options.track_external_links,
                bo == body_offset,
                evs == md_events_view(events@),
                forall|k: int| 0 <= k < events@.len() ==> within(#[trigger] events@[k], blen(s) - body_offset),
                body_offset <= blen(s) <= usize::MAX,
                i <= events@.len(),
                structure_view(st, open) == walk_all(s, starts, track, bo, evs.take(i as int)),
                forall|k: int| 0 <= k < st.markdown_links@.len() ==> (#[trigger] st.markdown_links@[k]).byte_start <= st.markdown_links@[k].byte_end,
            decreases events@.len() - i,
        {
            assert(evs.take(i + 1).drop_last() =~= evs.take(i as int));
            assert(evs.take(i + 1).last() == md_event_view(events@[i as int]));
            assert(within(events@[i as int], blen(s) - body_offset));
            let ghost before = structure_view(st, open);
            match &events[i] {
                MdEvent::HeadingStart(level, r) => {
                    open = Some((*level, r.start + body_offset, Vec::new()));
                    assert(open_view(open) == Some((*level as int, r.start + bo, Seq::<char>::empty())));
                },
                MdEvent::HeadingEnd => {
                    match open {
                        Some((level, start, t)) => {
                            let trimmed_text = trimmed(&t, 0, t.len());
                            proof {
                                assert(t@.subrange(0, t@.len() as int) =~= t@);
                            }
                            let slug_text = slugify(trimmed_text.as_str());
                            let line = lines.line_of(start);
                            let ghost hb = st.headings@;
                            st.headings.push(Heading { level, text: trimmed_text, slug: slug_text, line, byte_start: start });
                            assert(headings_view(st.headings@) =~= headings_view(hb).push(heading_of(starts, level as int, start as int, t@)));
                            open = None;
                        },
                        None => {},
                    }
                },
                MdEvent::CodeBlockStart(r) | MdEvent::Html(r) | MdEvent::InlineHtml(r) => {
                    let ghost eb = st.excluded@;
                    st.excluded.push(r.start + body_offset..r.end + body_offset);
                    assert(pairs_view(st.excluded@) =~= pairs_view(eb).push((r.start + bo, r.end + bo)));
                },
                MdEvent::Code(code, r) => {
                    let ghost eb = st.excluded@;
                    st.excluded.push(r.start + body_offset..r.end + body_offset);
                    assert(pairs_view(st.excluded@) =~= pairs_view(eb).push((r.start + bo, r.end + bo)));
                    match open {
                        Some((level, start, mut t)) => {
                            push_chars_of(&mut t, code);
                            open = Some((level, start, t));
                        },
                        None => {},
                    }
                },
                MdEvent::LinkStart(dest, r) | MdEvent::ImageStart(dest, r) => {
                    let image = matches!(&events[i], MdEvent::ImageStart(..));
                    let a = r.start + body_offset;
                    let b = r.end + body_offset;
                    let ghost lb = st.link_ranges@;
                    st.link_ranges.push(a..b);
                    assert(pairs_view(st.link_ranges@) =~= pairs_view(lb).push((a as int, b as int)));
                    let ghost mb = st.markdown_links@;
                    match self.build_markdown_link(text, lines, dest, a, b, image) {
                        Some(link) => {
                            assert(link.byte_start == a && link.byte_end == b);
                            st.markdown_links.push(link);
                            assert(crate::markdown::scanner::links_view(st.markdown_links@)
                                =~= crate::markdown::scanner::links_view(mb).push(st.markdown_links@.last()@));
                        },
                        None => {},
                    }
                },
                MdEvent::Text(t) => {
                    match open {
                        Some((level, start, mut x)) => {
                            push_chars_of(&mut x, t);
                            open = Some((level, start, x));
                        },
                        None => {},
                    }
                },
                MdEvent::Other => {},
            }
            i = i + 1;
        }
        assert(evs.take(events@.len() as int) =~= evs);
        st
    }
}

// ---------------------------------------------------------------------------
// The whole parse.

/// What the host read from the frontmatter's YAML: the `title` property as
/// text, and the YAML error, if any.
#[derive(Debug)]
pub struct FrontmatterValues {
    pub title: Option<String>,
    pub error: Option<String>,
}

impl FrontmatterValues {
    /// No title property and no error.
    pub fn none() -> (r: FrontmatterValues)
        ensures
            r.title is None,
            r.error is None,
    {
        FrontmatterValues { title: None, error: None }
    }
}

/// The result of parsing one note.
#[derive(Debug)]
pub struct ParsedDocument {
    pub metadata: NoteMetadata,
    /// Byte offset where the body starts, after any frontmatter.
    pub body_offset: usize,
    /// Set when the frontmatter is present but not valid YAML. The note is
    /// still fully parsed; only its properties are missing.
    pub frontmatter_error: Option<String>,
}

/// The text of the first level-one heading.
pub open spec fn first_h1(hs: Seq<HeadingView>) -> Option<Seq<char>>
    decreases hs.len(),
{
    if hs.len() == 0 {
        None
    } else if hs[0].level == 1 {
        Some(hs[0].text)
    } else {
        first_h1(hs.drop_first())
    }
}

/// A non-blank title property, else the first level-one heading.
pub open spec fn title_of(property: Option<Seq<char>>, hs: Seq<HeadingView>) -> Option<Seq<char>> {
    match property {
        Some(t) => if trim(t).len() > 0 {
            Some(t)
        } else {
            first_h1(hs)
        },
        None => first_h1(hs),
    }
}

/// Insert `l` after every link that starts no later than it.
pub open spec fn insert_by_start(sorted: Seq<LinkView>, l: LinkView) -> Seq<LinkView>
    decreases sorted.len(),
{
    if sorted.len() == 0 {
        seq![l]
    } else if sorted.last().byte_start <= l.byte_start {
        sorted.push(l)
    } else {
        insert_by_start(sorted.drop_last(), l).push(sorted.last())
    }
}

/// A stable sort of links by their start offset.
pub open spec fn sort_by_start(ls: Seq<LinkView>) -> Seq<LinkView>
    decreases ls.len(),
{
    if ls.len() == 0 {
        ls
    } else {
        insert_by_start(sort_by_start(ls.drop_last()), ls.last())
    }
}

/// Links in order of their start offsets.
pub open spec fn in_source_order(ls: Seq<LinkView>) -> bool {
    forall|i: int, j: int| 0 <= i < j < ls.len() ==> (#[trigger] ls[i]).byte_start <= (#[trigger] ls[j]).byte_start
}

proof fn lemma_insert_by_start_bounded(sorted: Seq<LinkView>, l: LinkView, m: int)
    requires
        forall|k: int| 0 <= k < sorted.len() ==> (#[trigger] sorted[k]).byte_start <= m,
        l.byte_start <= m,
    ensures
        forall|k: int| 0 <= k < insert_by_start(sorted, l).len() ==> (#[trigger] insert_by_start(sorted, l)[k]).byte_start <= m,
        insert_by_start(sorted, l).len() == sorted.len() + 1,
    decreases sorted.len(),
{
    if sorted.len() > 0 && sorted.last().byte_start > l.byte_start {
        let d = sorted.drop_last();
        assert forall|k: int| 0 <= k < d.len() implies (#[trigger] d[k]).byte_start <= m by {
            assert(d[k] == sorted[k]);
        }
        lemma_insert_by_start_bounded(d, l, m);
        let r = insert_by_start(d, l).push(sorted.last());
        assert forall|k: int| 0 <= k < r.len() implies (#[trigger] r[k]).byte_start <= m by {
            if k < r.len() - 1 {
                assert(r[k] == insert_by_start(d, l)[k]);
            }
        }
    } else if sorted.len() > 0 {
        assert forall|k: int| 0 <= k < sorted.push(l).len() implies (#[trigger] sorted.push(l)[k]).byte_start <= m by {
            if k < sorted.len() {
                assert(sorted.push(l)[k] == sorted[k]);
            }
        }
    }
}

proof fn lemma_insert_by_start_ordered(sorted: Seq<LinkView>, l: LinkView)
    requires
        in_source_order(sorted),
    ensures
        in_source_order(insert_by_start(sorted, l)),
    decreases sorted.len(),
{
    if sorted.len() > 0 {
        if sorted.last().byte_start <= l.byte_start {
            let r = sorted.push(l);
            assert forall|i: int, j: int| 0 <= i < j < r.len() implies (#[trigger] r[i]).byte_start <= (#[trigger] r[j]).byte_start by {
                assert(r[i] == sorted[i]);
                if j < sorted.len() {
                    assert(r[j] == sorted[j]);
                } else if i < sorted.len() - 1 {
                    assert(sorted[i].byte_start <= sorted[sorted.len() - 1].byte_start);
                }
            }
        } else {
            let d = sorted.drop_last();
            let last = sorted.last();
            assert(in_source_order(d)) by {
                assert forall|i: int, j: int| 0 <= i < j < d.len() implies (#[trigger] d[i]).byte_start <= (#[trigger] d[j]).byte_start by {
                    assert(d[i] == sorted[i] && d[j] == sorted[j]);
                }
            }
            lemma_insert_by_start_ordered(d, l);
            assert forall|k: int| 0 <= k < d.len() implies (#[trigger] d[k]).byte_start <= last.byte_start by {
                assert(d[k] == sorted[k]);
                assert(sorted[k].byte_start <= sorted[sorted.len() - 1].byte_start);
            }
            lemma_insert_by_start_bounded(d, l, last.byte_start);
            let q = insert_by_start(d, l);
            let r = q.push(last);
            assert forall|i: int, j: int| 0 <= i < j < r.len() implies (#[trigger] r[i]).byte_start <= (#[trigger] r[j]).byte_start by {
                assert(r[i] == q[i]);
                if j < q.len() {
                    assert(r[j] == q[j]);
                }
            }
        }
    }
}

/// Sorting by start leaves links in source order.
proof fn lemma_sort_by_start_ordered(ls: Seq<LinkView>)
    ensures
        in_source_order(sort_by_start(ls)),
    decreases ls.len(),
{
    if ls.len() > 0 {
        lemma_sort_by_start_ordered(ls.drop_last());
        lemma_insert_by_start_ordered(sort_by_start(ls.drop_last()), ls.last());
    }
}

/// The links a parse returns come in source order, by start offset.
pub proof fn law_parsed_links_in_source_order(s: Seq<char>, o: ParserOptions)
    ensures
        in_source_order(parsed_links(s, o)),
{
    lemma_sort_by_start_ordered(parsed_wiki(s, o) + parse_walk(s, o).links);
}

pub open spec fn covered_pairs(rs: Seq<(int, int)>, o: int) -> bool {
    exists|i: int| 0 <= i < rs.len() && (#[trigger] rs[i]).0 <= o < rs[i].1
}

pub open spec fn link_pairs(ls: Seq<LinkView>) -> Seq<(int, int)> {
    ls.map_values(|l: LinkView| (l.byte_start, l.byte_end))
}

/// The structure of a source, as the parse collects it.
pub open spec fn parse_walk(s: Seq<char>, o: ParserOptions) -> WalkView {
    walk_all(
        s,
        line_starts(s),
        o.track_external_links,
        body_offset_of(s),
        cmark_events(s.skip(body_start_of(s)), cmark_bits_of(o)),
    )
}

/// Offsets the extension scanner must not enter: the frontmatter and what
/// the structure excluded.
pub open spec fn excluded_at(w: WalkView, bo: int, o: int) -> bool {
    covered_pairs(w.excluded, o) || (0 <= o < bo)
}

proof fn lemma_covered_pairs(v: Seq<Range<usize>>)
    ensures
        forall|o: int| covered(v, o) == covered_pairs(pairs_view(v), o),
{
    assert forall|o: int| covered(v, o) == covered_pairs(pairs_view(v), o) by {
        if covered(v, o) {
            let i = choose|i: int| 0 <= i < v.len() && (#[trigger] v[i]).start <= o < v[i].end;
            assert(pairs_view(v)[i] == (v[i].start as int, v[i].end as int));
        }
        if covered_pairs(pairs_view(v), o) {
            let i = choose|i: int| 0 <= i < pairs_view(v).len() && (#[trigger] pairs_view(v)[i]).0 <= o < pairs_view(v)[i].1;
            assert(v[i] == v[i]);
        }
    }
}

pub open spec fn forward(ls: Seq<LinkView>) -> bool {
    forall|k: int| 0 <= k < ls.len() ==> (#[trigger] ls[k]).byte_start <= ls[k].byte_end
}

proof fn lemma_insert_keeps_forward(sorted: Seq<LinkView>, l: LinkView)
    requires
        forward(sorted),
        l.byte_start <= l.byte_end,
    ensures
        forward(insert_by_start(sorted, l)),
    decreases sorted.len(),
{
    if sorted.len() > 0 && sorted.last().byte_start > l.byte_start {
        assert(forward(sorted.drop_last())) by {
            assert forall|k: int| 0 <= k < sorted.drop_last().len() implies (#[trigger] sorted.drop_last()[k]).byte_start <= sorted.drop_last()[k].byte_end by {
                assert(sorted.drop_last()[k] == sorted[k]);
            }
        }
        lemma_insert_keeps_forward(sorted.drop_last(), l);
        let r = insert_by_start(sorted.drop_last(), l).push(sorted.last());
        assert forall|k: int| 0 <= k < r.len() implies (#[trigger] r[k]).byte_start <= r[k].byte_end by {
            if k < r.len() - 1 {
                assert(r[k] == insert_by_start(sorted.drop_last(), l)[k]);
            }
        }
    } else if sorted.len() > 0 {
        assert forall|k: int| 0 <= k < sorted.push(l).len() implies (#[trigger] sorted.push(l)[k]).byte_start <= sorted.push(l)[k].byte_end by {
            if k < sorted.len() {
                assert(sorted.push(l)[k] == sorted[k]);
            }
        }
    }
}

proof fn lemma_forward_concat(wiki: Seq<LinkView>, md: Seq<Link>, all: Seq<LinkView>)
    requires
        forward(wiki),
        forall|k: int| 0 <= k < md.len() ==> (#[trigger] md[k]).byte_start <= md[k].byte_end,
        all == wiki + links_view(md),
    ensures
        forward(all),
{
    assert forall|k: int| 0 <= k < all.len() implies (#[trigger] all[k]).byte_start <= all[k].byte_end by {
        if k >= wiki.len() {
            assert(all[k] == md[k - wiki.len()]@);
        }
    }
}

proof fn lemma_sort_keeps_ordered(ls: Seq<LinkView>)
    requires
        forward(ls),
    ensures
        forward(sort_by_start(ls)),
    decreases ls.len(),
{
    if ls.len() > 0 {
        assert(forward(ls.drop_last())) by {
            assert forall|k: int| 0 <= k < ls.drop_last().len() implies (#[trigger] ls.drop_last()[k]).byte_start <= ls.drop_last()[k].byte_end by {
                assert(ls.drop_last()[k] == ls[k]);
            }
        }
        lemma_sort_keeps_ordered(ls.drop_last());
        lemma_insert_keeps_forward(sort_by_start(ls.drop_last()), ls.last());
    }
}

fn insert_link(sorted: &mut Vec<Link>, l: Link)
    ensures
        links_view(final(sorted)@) == insert_by_start(links_view(old(sorted)@), l@),
{
    let ghost sv = links_view(sorted@);
    let mut p = sorted.len();
    while p > 0 && sorted[p - 1].byte_start > l.byte_start
        invariant
            p <= sorted@.len(),
            sv == links_view(sorted@),
            forall|j: int| p <= j < sorted@.len() ==> (#[trigger] sorted@[j]).byte_start > l.byte_start,
        decreases p,
    {
        p = p - 1;
    }
    proof {
        lemma_insert_at(sv, l@, p as int);
    }
    let ghost before = sorted@;
    sorted.insert(p, l);
    assert(links_view(sorted@) =~= sv.take(p as int).push(l@) + sv.skip(p as int));
}

proof fn lemma_insert_at(sorted: Seq<LinkView>, l: LinkView, p: int)
    requires
        0 <= p <= sorted.len(),
        forall|j: int| p <= j < sorted.len() ==> (#[trigger] sorted[j]).byte_start > l.byte_start,
        p > 0 ==> sorted[p - 1].byte_start <= l.byte_start,
    ensures
        insert_by_start(sorted, l) == sorted.take(p).push(l) + sorted.skip(p),
    decreases sorted.len(),
{
    if sorted.len() == 0 {
        assert(sorted.take(p).push(l) + sorted.skip(p) =~= seq![l]);
    } else if p == sorted.len() {
        assert(sorted.take(p) =~= sorted);
        assert(sorted.skip(p) =~= Seq::<LinkView>::empty());
        assert(sorted.push(l) + Seq::<LinkView>::empty() =~= sorted.push(l));
    } else {
        lemma_insert_at(sorted.drop_last(), l, p);
        assert(sorted.drop_last().take(p) =~= sorted.take(p));
        assert(sorted.drop_last().skip(p).push(sorted.last()) =~= sorted.skip(p));
        assert((sorted.take(p).push(l) + sorted.drop_last().skip(p)).push(sorted.last())
            =~= sorted.take(p).push(l) + sorted.skip(p));
    }
}

fn sort_links(links: Vec<Link>) -> (r: Vec<Link>)
    ensures
        links_view(r@) == sort_by_start(links_view(links@)),
{
    let ghost lv = links_view(links@);
    let mut rest = links;
    let mut out: Vec<Link> = Vec::new();
    let ghost mut done: int = 0;
    assert(lv.take(0) =~= seq![]);
    assert(links_view(out@) =~= seq![]);
    while rest.len() > 0
        invariant
            0 <= done <= lv.len(),
            links_view(rest@) == lv.skip(done),
            links_view(out@) == sort_by_start(lv.take(done)),
        decreases rest@.len(),
    {
        let ghost before = rest@;
        let l = rest.remove(0);
        assert(l@ == lv[done]) by {
            assert(links_view(before)[0] == before[0]@);
            assert(lv.skip(done).len() > 0);
            assert(links_view(before)[0] == lv.skip(done)[0]);
        }
        assert(links_view(rest@) =~= lv.skip(done + 1)) by {
            assert(links_view(rest@) =~= links_view(before).drop_first());
        }
        assert(lv.take(done + 1).drop_last() =~= lv.take(done));
        insert_link(&mut out, l);
        proof {
            done = done + 1;
        }
    }
    assert(lv.take(done) =~= lv) by {
        assert(lv.skip(done).len() == 0);
    }
    out
}

fn first_heading_one(headings: &Vec<Heading>) -> (r: Option<String>)
    ensures
        opt_view(r) == first_h1(headings_view(headings@)),
{
    let ghost hv = headings_view(headings@);
    let mut i: usize = 0;
    assert(hv.skip(0) =~= hv);
    while i < headings.len()
        invariant
            hv == headings_view(headings@),
            i <= headings@.len(),
            first_h1(hv) == first_h1(hv.skip(i as int)),
        decreases headings@.len() - i,
    {
        assert(hv.skip(i as int).drop_first() =~= hv.skip(i + 1));
        assert(hv.skip(i as int)[0] == heading_view(headings@[i as int]));
        if headings[i].level == 1 {
            return Some(crate::strings::clone_string(&headings[i].text));
        }
        i = i + 1;
    }
    None
}

/// `z` excludes exactly what a parse excludes from the scans.
pub open spec fn zones_fit(z: ExclusionZones, w: WalkView, bo: int) -> bool {
    forall|o: int| #[trigger] z.covers_spec(o) == excluded_at(w, bo, o)
}

/// `tz` also excludes the links already found, for the tag scan.
pub open spec fn tag_zones_fit(tz: ExclusionZones, w: WalkView, bo: int, wiki: Seq<LinkView>) -> bool {
    forall|o: int| #[trigger] tz.covers_spec(o) == (excluded_at(w, bo, o) || covered_pairs(link_pairs(wiki), o)
        || covered_pairs(w.link_ranges, o))
}

proof fn lemma_parse_zones(
    s: Seq<char>,
    w: WalkView,
    bo: int,
    zones: ExclusionZones,
    wiki: Seq<LinkView>,
    links: Seq<LinkView>,
    blocks: Seq<crate::markdown::scanner::BlockView>,
    z: ExclusionZones,
)
    requires
        zones_fit(zones, w, bo),
        zones_fit(z, w, bo),
        wiki == wiki_links_from(s, zones, line_starts(s), 0),
        links == sort_by_start(wiki + w.links),
        blocks == blocks_from(s, zones, line_starts(s), blen(s) as int, 0),
    ensures
        wiki == wiki_links_from(s, z, line_starts(s), 0),
        links == sort_by_start(wiki_links_from(s, z, line_starts(s), 0) + w.links),
        blocks == blocks_from(s, z, line_starts(s), blen(s) as int, 0),
{
    assert(crate::markdown::scanner::same_coverage(zones, z));
    lemma_wiki_links_coverage(s, zones, z, line_starts(s), 0);
    lemma_blocks_coverage(s, zones, z, line_starts(s), blen(s) as int, 0);
}

proof fn lemma_parse_tag_zones(
    s: Seq<char>,
    w: WalkView,
    bo: int,
    tag_zones: ExclusionZones,
    wiki: Seq<LinkView>,
    tags: Seq<crate::markdown::scanner::TagView>,
    tz: ExclusionZones,
)
    requires
        tag_zones_fit(tag_zones, w, bo, wiki),
        tag_zones_fit(tz, w, bo, wiki),
        tags == tags_from(s, tag_zones, line_starts(s), 0, None),
    ensures
        tags == tags_from(s, tz, line_starts(s), 0, None),
{
    assert(crate::markdown::scanner::same_coverage(tag_zones, tz));
    lemma_tags_coverage(s, tag_zones, tz, line_starts(s), 0, None);
}

/// Zones that exclude what the parse of `s` excludes.
pub open spec fn parse_zones(s: Seq<char>, o: ParserOptions) -> ExclusionZones {
    choose|z: ExclusionZones| zones_fit(z, parse_walk(s, o), body_offset_of(s))
}

/// The wiki links and embeds a parse finds.
pub open spec fn parsed_wiki(s: Seq<char>, o: ParserOptions) -> Seq<LinkView> {
    wiki_links_from(s, parse_zones(s, o), line_starts(s), 0)
}

/// Every link a parse finds, in source order.
pub open spec fn parsed_links(s: Seq<char>, o: ParserOptions) -> Seq<LinkView> {
    sort_by_start(parsed_wiki(s, o) + parse_walk(s, o).links)
}

/// Zones that also exclude the links found, for the tag scan.
pub open spec fn parse_tag_zones(s: Seq<char>, o: ParserOptions) -> ExclusionZones {
    choose|tz: ExclusionZones| tag_zones_fit(tz, parse_walk(s, o), body_offset_of(s), parsed_wiki(s, o))
}

/// The tags a parse finds.
pub open spec fn parsed_tags(s: Seq<char>, o: ParserOptions) -> Seq<crate::markdown::scanner::TagView> {
    tags_from(s, parse_tag_zones(s, o), line_starts(s), 0, None)
}

/// The block identifiers a parse finds.
pub open spec fn parsed_blocks(s: Seq<char>, o: ParserOptions) -> Seq<crate::markdown::scanner::BlockView> {
    blocks_from(s, parse_zones(s, o), line_starts(s), blen(s) as int, 0)
}

/// `doc` is the parse of `s` under options `o`, with `title` and `error`
/// taken from its frontmatter.
pub open spec fn parsed_as(
    doc: ParsedDocument,
    s: Seq<char>,
    o: ParserOptions,
    title: Option<Seq<char>>,
    error: Option<Seq<char>>,
) -> bool {
    let bo = body_offset_of(s);
    let w = parse_walk(s, o);
    &&& doc.body_offset == bo
    &&& doc.metadata.frontmatter_bytes == bo
    &&& opt_view(doc.frontmatter_error) == error
    &&& headings_view(doc.metadata.headings@) == w.headings
    &&& doc.metadata.word_count == word_count(s.skip(body_start_of(s)))
    &&& opt_view(doc.metadata.title) == title_of(title, w.headings)
    &&& links_view(doc.metadata.links@) == parsed_links(s, o)
    &&& tags_view(doc.metadata.tags@) == parsed_tags(s, o)
    &&& blocks_view(doc.metadata.blocks@) == parsed_blocks(s, o)
    &&& forall|k: int| 0 <= k < doc.metadata.links@.len()
        ==> (#[trigger] doc.metadata.links@[k]).byte_start <= doc.metadata.links@[k].byte_end
    &&& zones_fit(parse_zones(s, o), w, bo)
    &&& tag_zones_fit(parse_tag_zones(s, o), w, bo, parsed_wiki(s, o))
}

/// A Markdown link or image as the structure walk records it: in the body,
/// not a wiki link or embed, its raw text the source slice where one exists.
pub open spec fn md_link_placed(s: Seq<char>, bo: int, l: LinkView) -> bool {
    &&& bo <= l.byte_start
    &&& l.kind != LinkKind::WikiLink
    &&& l.kind != LinkKind::Embed
    &&& l.raw == slice_or_empty(s, l.byte_start, l.byte_end)
}

proof fn lemma_walk_links_placed(s: Seq<char>, starts: Seq<int>, track: bool, bo: int, evs: Seq<MdEventView>)
    ensures
        forall|k: int| 0 <= k < walk_all(s, starts, track, bo, evs).links.len()
            ==> md_link_placed(s, bo, #[trigger] walk_all(s, starts, track, bo, evs).links[k]),
    decreases evs.len(),
{
    if evs.len() > 0 {
        let prev = walk_all(s, starts, track, bo, evs.drop_last());
        lemma_walk_links_placed(s, starts, track, bo, evs.drop_last());
        let cur = walk_all(s, starts, track, bo, evs);
        assert(cur == walk_step(s, starts, track, bo, prev, evs.last()));
        assert forall|k: int| 0 <= k < cur.links.len() implies md_link_placed(s, bo, #[trigger] cur.links[k]) by {
            if k < prev.links.len() {
                assert(cur.links[k] == prev.links[k]);
            }
        }
    }
}

proof fn lemma_insert_by_start_keeps(sorted: Seq<LinkView>, l: LinkView, p: spec_fn(LinkView) -> bool)
    requires
        forall|k: int| 0 <= k < sorted.len() ==> p(#[trigger] sorted[k]),
        p(l),
    ensures
        forall|k: int| 0 <= k < insert_by_start(sorted, l).len() ==> p(#[trigger] insert_by_start(sorted, l)[k]),
    decreases sorted.len(),
{
    if sorted.len() > 0 && sorted.last().byte_start > l.byte_start {
        let d = sorted.drop_last();
        assert forall|k: int| 0 <= k < d.len() implies p(#[trigger] d[k]) by {
            assert(d[k] == sorted[k]);
        }
        lemma_insert_by_start_keeps(d, l, p);
        let q = insert_by_start(d, l);
        let r = q.push(sorted.last());
        assert forall|k: int| 0 <= k < r.len() implies p(#[trigger] r[k]) by {
            if k < q.len() {
                assert(r[k] == q[k]);
            }
        }
    } else if sorted.len() > 0 {
        let r = sorted.push(l);
        assert forall|k: int| 0 <= k < r.len() implies p(#[trigger] r[k]) by {
            if k < sorted.len() {
                assert(r[k] == sorted[k]);
            }
        }
    }
}

proof fn lemma_sort_by_start_keeps(ls: Seq<LinkView>, p: spec_fn(LinkView) -> bool)
    requires
        forall|k: int| 0 <= k < ls.len() ==> p(#[trigger] ls[k]),
    ensures
        forall|k: int| 0 <= k < sort_by_start(ls).len() ==> p(#[trigger] sort_by_start(ls)[k]),
    decreases ls.len(),
{
    if ls.len() > 0 {
        let d = ls.drop_last();
        assert forall|k: int| 0 <= k < d.len() implies p(#[trigger] d[k]) by {
            assert(d[k] == ls[k]);
        }
        lemma_sort_by_start_keeps(d, p);
        lemma_insert_by_start_keeps(sort_by_start(d), ls.last(), p);
    }
}

/// Where a parsed link lies: at or after the body offset, with its raw text
/// the source between its offsets where they cut the source on character
/// boundaries, and always so for a wiki link or embed.
pub open spec fn parsed_link_placed(s: Seq<char>, bo: int, l: LinkView) -> bool {
    &&& bo <= l.byte_start
    &&& l.raw == slice_or_empty(s, l.byte_start, l.byte_end)
    &&& (l.kind == LinkKind::WikiLink || l.kind == LinkKind::Embed) ==> byte_slice(s, l.byte_start, l.byte_end)
        == Some(l.raw)
}

/// Every link and tag a parse returns starts in the body, at or after the
/// body offset, and a link's raw text is the source between its offsets:
/// always for a wiki link or embed, and for a Markdown link wherever the
/// parser's range cuts the source on character boundaries.
pub proof fn law_parsed_links_lie_in_the_body(
    doc: ParsedDocument,
    s: Seq<char>,
    o: ParserOptions,
    title: Option<Seq<char>>,
    error: Option<Seq<char>>,
)
    requires
        parsed_as(doc, s, o, title, error),
    ensures
        doc.body_offset == body_offset_of(s),
        links_view(doc.metadata.links@) == parsed_links(s, o),
        forall|k: int| 0 <= k < parsed_links(s, o).len()
            ==> parsed_link_placed(s, body_offset_of(s), #[trigger] parsed_links(s, o)[k]),
        tags_view(doc.metadata.tags@) == parsed_tags(s, o),
        forall|k: int| 0 <= k < parsed_tags(s, o).len()
            ==> body_offset_of(s) <= (#[trigger] parsed_tags(s, o)[k]).byte_start,
{
    let bo = body_offset_of(s);
    let w = parse_walk(s, o);
    let z = parse_zones(s, o);
    let wiki = parsed_wiki(s, o);
    crate::markdown::scanner::law_wiki_links_placed(s, z, line_starts(s), 0);
    crate::markdown::scanner::law_wiki_links_shaped(s, z, line_starts(s), 0);
    lemma_walk_links_placed(
        s,
        line_starts(s),
        o.track_external_links,
        bo,
        cmark_events(s.skip(body_start_of(s)), cmark_bits_of(o)),
    );
    let all = wiki + w.links;
    let p = |l: LinkView| parsed_link_placed(s, bo, l);
    assert forall|k: int| 0 <= k < all.len() implies p(#[trigger] all[k]) by {
        if k < wiki.len() {
            let l = wiki[k];
            assert(all[k] == l);
            assert(crate::markdown::scanner::wiki_link_shaped(z, line_starts(s), l));
            assert(byte_slice(s, l.byte_start, l.byte_end) == Some(l.raw));
            let (i, j) = choose|i: int, j: int|
                0 <= i <= j <= s.len() && boff(s, i) == l.byte_start && boff(s, j) == l.byte_end;
            assert(l.byte_start >= 0);
            assert(!z.covers_spec(l.byte_start));
            assert(!excluded_at(w, bo, l.byte_start));
        } else {
            assert(all[k] == w.links[k - wiki.len()]);
            assert(md_link_placed(s, bo, w.links[k - wiki.len()]));
        }
    }
    lemma_sort_by_start_keeps(all, p);
    let tz = parse_tag_zones(s, o);
    crate::markdown::scanner::lemma_tags_outside_zones(s, tz, line_starts(s), 0, None);
    assert forall|k: int| 0 <= k < parsed_tags(s, o).len() implies bo <= (#[trigger] parsed_tags(s, o)[k]).byte_start by {
        assert(!tz.covers_spec(parsed_tags(s, o)[k].byte_start));
    }
}

impl MarkdownParser {
    /// Parse a note completely: frontmatter, structure and extensions. The
    /// title is the frontmatter's `title` when it is not blank, else the
    /// first level-one heading.
    pub fn parse(&self, source: &str) -> (doc: ParsedDocument)
        ensures
            parsed_as(
                doc,
                source@,
                self.opts(),
                frontmatter_title(frontmatter_properties(source@).0),
                frontmatter_properties(source@).1,
            ),
            properties_view(doc.metadata.properties@) == frontmatter_properties(source@).0,
    {
        let (properties, error) = parse_frontmatter(source);
        let title = match get(&properties, "title") {
            Some(v) => Some(v.as_text()),
            None => None,
        };
        let values = FrontmatterValues { title, error };
        let mut doc = self.parse_with(source, &values);
        doc.metadata.properties = properties;
        doc
    }

    /// Parse a note with its frontmatter's title and error given, and no
    /// properties.
    #[verifier::rlimit(60)]
    pub fn parse_with(&self, source: &str, frontmatter: &FrontmatterValues) -> (doc: ParsedDocument)
        ensures
            parsed_as(doc, source@, self.opts(), opt_view(frontmatter.title), opt_view(frontmatter.error)),
            doc.metadata.properties@.len() == 0,
    {
        let ghost s = source@;
        let text = Text::new(source);
        let lines = LineIndex::new(source);
        let bo = body_offset(source);
        let n = text.chars.len();
        assert(text.offs@[n as int] == boff(s, n as int));
        proof {
            crate::strings::lemma_boff_full(s);
            lemma_body_start(s);
        }
        let ci = match text.index_of_byte(bo) {
            Some(i) => i,
            None => 0,
        };
        proof {
            crate::strings::lemma_boff_inj(s, ci as int, body_start_of(s));
        }
        let body = string_of(&text.chars, ci, n);
        assert(body@ =~= s.skip(body_start_of(s)));
        proof {
            assert(s =~= s.take(ci as int) + s.skip(ci as int));
            crate::strings::lemma_blen_concat(s.take(ci as int), s.skip(ci as int));
        }
        let events = structure_events(body.as_str(), self.options.cmark_bits());
        let structure = self.walk_structure(&text, &lines, bo, &events);
        let ghost w = parse_walk(s, self.opts());
        // Everything before the body is off limits: a `#` in a YAML comment
        // is not a tag, and `---` is not a heading.
        let mut excluded: Vec<Range<usize>> = Vec::new();
        let mut i: usize = 0;
        while i < structure.excluded.len()
            invariant
                i <= structure.excluded@.len(),
                excluded@ == structure.excluded@.take(i as int),
            decreases structure.excluded@.len() - i,
        {
            excluded.push(structure.excluded[i].start..structure.excluded[i].end);
            i = i + 1;
            assert(excluded@ =~= structure.excluded@.take(i as int));
        }
        assert(structure.excluded@.take(structure.excluded@.len() as int) =~= structure.excluded@);
        let ghost ex0 = excluded@;
        if bo > 0 {
            excluded.push(0..bo);
        }
        proof {
            lemma_covered_pairs(structure.excluded@);
            assert forall|o: int| covered(excluded@, o) == excluded_at(w, bo as int, o) by {
                if bo > 0 {
                    if covered(excluded@, o) {
                        let k = choose|k: int| 0 <= k < excluded@.len() && (#[trigger] excluded@[k]).start <= o < excluded@[k].end;
                        if k < ex0.len() {
                            assert(excluded@[k] == ex0[k]);
                        }
                    }
                    if covered(ex0, o) {
                        let k = choose|k: int| 0 <= k < ex0.len() && (#[trigger] ex0[k]).start <= o < ex0[k].end;
                        assert(excluded@[k] == ex0[k]);
                    }
                    if 0 <= o < bo {
                        assert(excluded@[ex0.len() as int] == (0..bo));
                    }
                }
            }
        }
        let zones = ExclusionZones::new(excluded);
        let mut links = scan_wikilinks(source, &zones, &lines);
        let ghost wiki = links_view(links@);
        // Tags must not be found inside a link that was already recognised:
        // `[[Note#Heading]]` has no `#Heading` tag, `[a](http://x/#frag)` no
        // `#frag`.
        let mut extra = link_ranges(&links);
        let ghost e0 = extra@;
        let mut more: Vec<Range<usize>> = Vec::new();
        let mut j: usize = 0;
        while j < structure.link_ranges.len()
            invariant
                j <= structure.link_ranges@.len(),
                more@ == structure.link_ranges@.take(j as int),
            decreases structure.link_ranges@.len() - j,
        {
            more.push(structure.link_ranges[j].start..structure.link_ranges[j].end);
            j = j + 1;
            assert(more@ =~= structure.link_ranges@.take(j as int));
        }
        assert(structure.link_ranges@.take(structure.link_ranges@.len() as int) =~= structure.link_ranges@);
        let ghost m0 = more@;
        extra.append(&mut more);
        proof {
            lemma_covered_pairs(e0);
            lemma_covered_pairs(m0);
            assert(pairs_view(e0) =~= link_pairs(wiki));
            assert forall|o: int| covered(extra@, o) == (covered(e0, o) || covered(m0, o)) by {
                if covered(extra@, o) {
                    let k = choose|k: int| 0 <= k < extra@.len() && (#[trigger] extra@[k]).start <= o < extra@[k].end;
                    if k < e0.len() {
                        assert(extra@[k] == e0[k]);
                    } else {
                        assert(extra@[k] == m0[k - e0.len()]);
                    }
                }
                if covered(e0, o) {
                    let k = choose|k: int| 0 <= k < e0.len() && (#[trigger] e0[k]).start <= o < e0[k].end;
                    assert(extra@[k] == e0[k]);
                }
                if covered(m0, o) {
                    let k = choose|k: int| 0 <= k < m0.len() && (#[trigger] m0[k]).start <= o < m0[k].end;
                    assert(extra@[k + e0.len()] == m0[k]);
                }
            }
        }
        let tag_zones = zones.extended(extra);
        let tags = scan_tags(source, &tag_zones, &lines);
        let blocks = scan_blocks(source, &zones, &lines);
        let mut structure = structure;
        let ghost mdl = links_view(structure.markdown_links@);
        let ghost md_before = structure.markdown_links@;
        links.append(&mut structure.markdown_links);
        assert(links_view(links@) =~= wiki + mdl);
        proof {
            crate::markdown::scanner::lemma_wiki_links_ordered(s, zones, line_starts(s), 0);
            lemma_forward_concat(wiki, md_before, links_view(links@));
            lemma_sort_keeps_ordered(links_view(links@));
        }
        let links = sort_links(links);
        proof {
            assert forall|k: int| 0 <= k < links@.len() implies (#[trigger] links@[k]).byte_start <= links@[k].byte_end by {
                assert(links_view(links@)[k] == links@[k]@);
            }
        }
        let title = match &frontmatter.title {
            Some(t) => {
                let v = to_chars(t.as_str());
                let (a, b) = crate::strings::trim_range(&v, 0, v.len());
                proof {
                    assert(v@.subrange(0, v@.len() as int) =~= t@);
                }
                if a < b {
                    Some(crate::strings::clone_string(t))
                } else {
                    first_heading_one(&structure.headings)
                }
            },
            None => first_heading_one(&structure.headings),
        };
        let word_count = count_words(body.as_str());
        let frontmatter_error = crate::model::clone_opt(&frontmatter.error);
        proof {
            assert(pairs_view(structure.link_ranges@) == w.link_ranges);
            assert forall|o: int| #[trigger] tag_zones.covers_spec(o) == (excluded_at(w, bo as int, o)
                || covered_pairs(link_pairs(wiki), o) || covered_pairs(w.link_ranges, o)) by {
                assert(covered(e0, o) == covered_pairs(pairs_view(e0), o));
                assert(covered(m0, o) == covered_pairs(pairs_view(m0), o));
            }
            assert(tag_zones_fit(tag_zones, w, bo as int, wiki));
            assert(zones_fit(zones, w, bo as int));
            let pz = parse_zones(s, self.opts());
            lemma_parse_zones(s, w, bo as int, zones, wiki, links_view(links@), blocks_view(blocks@), pz);
            let ptz = parse_tag_zones(s, self.opts());
            assert(tag_zones_fit(tag_zones, w, bo as int, parsed_wiki(s, self.opts())));
            lemma_parse_tag_zones(s, w, bo as int, tag_zones, parsed_wiki(s, self.opts()), tags_view(tags@), ptz);
        }
        ParsedDocument {
            metadata: NoteMetadata {
                title,
                properties: Vec::new(),
                links,
                tags,
                headings: structure.headings,
                blocks,
                frontmatter_bytes: bo,
                word_count,
            },
            body_offset: bo,
            frontmatter_error,
        }
    }
}

} // verus!
