//! `MarkdownRenderer` — structure to HTML.
//!
//! Used by export and by anything that needs a rendered note. Wiki links and
//! embeds are not CommonMark, so they are rewritten into ordinary Markdown
//! links (or HTML) before the CommonMark renderer sees them. That way a single
//! HTML generator handles everything, and a link that resolves to a file and
//! one that does not differ only by a CSS class.
use vstd::prelude::*;
use vstd::utf8::encode_utf8;
use crate::links::reference::{display_of, opt_view, slug, slugify, LinkTarget};
use crate::markdown::frontmatter::{body_of, body_offset, body_offset_of, body_start_of};
use crate::markdown::parser::{cmark_bits_of, parsed_links, FrontmatterValues, MarkdownParser, ParserOptions};
use crate::markdown::scanner::{links_view, LinkView};
use crate::markdown::transform::{applied, edits_view, lemma_forward_edits_apply, Edit, EditView, MarkdownTransformer};
use crate::model::{clone_opt, Link, LinkKind};
use crate::strings::{ascii_lower_seq, char_from_ascii, clone_string, has_prefix_at, push_char, push_str, starts_with_at, str_to_string, to_ascii_lowercase, to_chars, Text};
use crate::vault::path::{extension_of, file_name_of, join_spec, parent_of, stem_of, VaultPath};

verus! {

/// The page around a standalone export, up to the title.
pub const DOCUMENT_HEAD: &'static str = r#"<!DOCTYPE html>
<html lang="en">
<head>
<meta charset="utf-8">
<meta name="viewport" content="width=device-width, initial-scale=1">
<title>"#;

/// From the title to the body: the stylesheet, which uses the same custom
/// property names as the app's themes, so an exported page looks like what
/// the user was reading and needs no network access to render.
pub const DOCUMENT_STYLE: &'static str = r#"</title>
<style>
:root {
  --background-primary: #ffffff;
  --background-secondary: #f6f7f9;
  --text-normal: #1f2328;
  --text-muted: #6b7280;
  --accent: #3b6fd4;
  --border: #e2e5ea;
  --code-background: #f2f4f7;
}
@media (prefers-color-scheme: dark) {
  :root {
    --background-primary: #16181d;
    --background-secondary: #1d2027;
    --text-normal: #e6e8eb;
    --text-muted: #9aa3ae;
    --accent: #7aa2f7;
    --border: #2b2f38;
    --code-background: #21252d;
  }
}
body {
  margin: 0 auto; padding: 3rem 1.5rem; max-width: 46rem;
  background: var(--background-primary); color: var(--text-normal);
  font: 16px/1.7 -apple-system, "Segoe UI", Roboto, "Helvetica Neue", sans-serif;
}
h1, h2, h3, h4, h5, h6 { line-height: 1.25; margin-top: 2em; }
a { color: var(--accent); }
a.ie-unresolved-link { color: var(--text-muted); text-decoration: underline dotted; }
code { background: var(--code-background); padding: 0.15em 0.35em; border-radius: 4px; }
pre { background: var(--code-background); padding: 1rem; border-radius: 8px; overflow-x: auto; }
pre code { background: none; padding: 0; }
blockquote { margin: 1rem 0; padding-left: 1rem; border-left: 3px solid var(--border); color: var(--text-muted); }
table { border-collapse: collapse; width: 100%; }
th, td { border: 1px solid var(--border); padding: 0.4rem 0.6rem; text-align: left; }
img { max-width: 100%; height: auto; }
hr { border: none; border-top: 1px solid var(--border); margin: 2rem 0; }
.ie-properties { background: var(--background-secondary); border: 1px solid var(--border);
  border-radius: 8px; padding: 0.75rem 1rem; margin-bottom: 2rem; font-size: 0.9em; }
.ie-properties dt { color: var(--text-muted); font-weight: 600; }
.ie-properties dd { margin: 0 0 0.5rem 0; }
.ie-embed { border-left: 3px solid var(--border); padding-left: 1rem; color: var(--text-muted); }
</style>
</head>
<body>
"#;

/// After the body.
pub const DOCUMENT_TAIL: &'static str = r#"
</body>
</html>
"#;

/// What `pulldown_cmark` renders `text` to as HTML, with the extensions in
/// `bits`.
pub uninterp spec fn cmark_html(text: Seq<char>, bits: u32) -> Seq<char>;

/// `pulldown_cmark::html::push_html` over `Parser::new_ext(text, bits)`, into
/// a new string. The contract names the result.
#[verifier::external_body]
fn html_of(text: &str, bits: u32) -> (r: String)
    ensures
        r@ == cmark_html(text@, bits),
{
    let mut out = String::new();
    pulldown_cmark::html::push_html(&mut out, pulldown_cmark::Parser::new_ext(text, pulldown_cmark::Options::from_bits_truncate(bits)));
    out
}

#[derive(Debug, Clone)]
pub struct RenderOptions {
    pub parser: ParserOptions,
    /// Emit the frontmatter as a definition list ahead of the body.
    pub include_properties: bool,
    /// Wrap the output in a full HTML document with the theme's stylesheet.
    pub standalone: bool,
    pub document_title: String,
    /// Extension appended to internal link targets, e.g. `html` for export.
    pub internal_link_extension: Option<String>,
}

impl Default for RenderOptions {
    fn default() -> (r: RenderOptions)
        ensures
            r.parser == ParserOptions::default_spec(),
            r.include_properties,
            !r.standalone,
            r.document_title@.len() == 0,
            r.internal_link_extension is None,
    {
        RenderOptions {
            parser: ParserOptions::default(),
            include_properties: true,
            standalone: false,
            document_title: String::new(),
            internal_link_extension: None,
        }
    }
}

pub struct MarkdownRenderer {
    options: RenderOptions,
    /// Each link target text with the path it resolved to. Supplied by the
    /// caller because resolution needs the index, which this module must not
    /// depend on.
    resolutions: Vec<(String, VaultPath)>,
}

pub open spec fn pairs_view(ps: Seq<(String, VaultPath)>) -> Seq<(Seq<char>, Seq<char>)> {
    ps.map_values(|p: (String, VaultPath)| (p.0@, p.1@))
}

impl MarkdownRenderer {
    pub closed spec fn options_spec(&self) -> RenderOptions {
        self.options
    }

    pub closed spec fn resolutions_spec(&self) -> Seq<(Seq<char>, Seq<char>)> {
        pairs_view(self.resolutions@)
    }

    pub fn new(options: RenderOptions) -> (r: MarkdownRenderer)
        ensures
            r.options_spec() == options,
            r.resolutions_spec().len() == 0,
    {
        MarkdownRenderer { options, resolutions: Vec::new() }
    }

    /// Tell the renderer what each link target resolves to (a later pair for
    /// the same target wins).
    pub fn with_resolutions(self, resolutions: Vec<(String, VaultPath)>) -> (r: MarkdownRenderer)
        ensures
            r.options_spec() == self.options_spec(),
            r.resolutions_spec() == pairs_view(resolutions@),
    {
        MarkdownRenderer { options: self.options, resolutions }
    }
}

// ---------------------------------------------------------------------------
// Escaping.

pub open spec fn html_char(c: char) -> Seq<char> {
    if c == '&' {
        "&amp;"@
    } else if c == '<' {
        "&lt;"@
    } else if c == '>' {
        "&gt;"@
    } else if c == '"' {
        "&quot;"@
    } else if c == '\'' {
        "&#39;"@
    } else {
        seq![c]
    }
}

/// Text with `& < > " '` replaced by their entities.
pub open spec fn html_escaped(s: Seq<char>) -> Seq<char>
    decreases s.len(),
{
    if s.len() == 0 {
        Seq::<char>::empty()
    } else {
        html_escaped(s.drop_last()) + html_char(s.last())
    }
}

/// The character an HTML entity at the front of `t` stands for, and the
/// entity's length, for the five entities that escaping writes.
pub open spec fn html_entity(t: Seq<char>) -> Option<(char, int)> {
    if t.len() >= 5 && t.take(5) == "&amp;"@ {
        Some(('&', 5))
    } else if t.len() >= 4 && t.take(4) == "&lt;"@ {
        Some(('<', 4))
    } else if t.len() >= 4 && t.take(4) == "&gt;"@ {
        Some(('>', 4))
    } else if t.len() >= 6 && t.take(6) == "&quot;"@ {
        Some(('"', 6))
    } else if t.len() >= 5 && t.take(5) == "&#39;"@ {
        Some(('\'', 5))
    } else {
        None
    }
}

/// Escaped text read back: each of the five entities becomes its
/// character, everything else stays.
pub open spec fn html_unescaped(t: Seq<char>) -> Seq<char>
    decreases t.len(),
{
    if t.len() == 0 {
        t
    } else {
        match html_entity(t) {
            Some((c, n)) => seq![c] + html_unescaped(t.skip(n)),
            None => seq![t[0]] + html_unescaped(t.skip(1)),
        }
    }
}

proof fn lemma_html_escaped_concat(a: Seq<char>, b: Seq<char>)
    ensures
        html_escaped(a + b) == html_escaped(a) + html_escaped(b),
    decreases b.len(),
{
    if b.len() == 0 {
        assert(a + b =~= a);
        assert(html_escaped(a) + html_escaped(b) =~= html_escaped(a));
    } else {
        lemma_html_escaped_concat(a, b.drop_last());
        assert((a + b).drop_last() =~= a + b.drop_last());
        assert((a + b).last() == b.last());
        assert(html_escaped(a) + html_escaped(b) =~= html_escaped(a) + html_escaped(b.drop_last())
            + html_char(b.last()));
    }
}

proof fn lemma_unescape_char(c: char, rest: Seq<char>)
    ensures
        html_unescaped(html_char(c) + rest) == seq![c] + html_unescaped(rest),
{
    reveal_strlit("&amp;");
    reveal_strlit("&lt;");
    reveal_strlit("&gt;");
    reveal_strlit("&quot;");
    reveal_strlit("&#39;");
    let t = html_char(c) + rest;
    let n = html_char(c).len() as int;
    assert(t.skip(n) =~= rest);
    assert(t.take(n) =~= html_char(c));
    if c == '&' {
        assert(html_entity(t) == Some(('&', 5int)));
    } else if c == '<' {
        assert(t.len() >= 5 ==> t.take(5)[1] != "&amp;"@[1]);
        assert(html_entity(t) == Some(('<', 4int)));
    } else if c == '>' {
        assert(t.len() >= 5 ==> t.take(5)[1] != "&amp;"@[1]);
        assert(t.take(4)[1] != "&lt;"@[1]);
        assert(html_entity(t) == Some(('>', 4int)));
    } else if c == '"' {
        assert(t.len() >= 5 ==> t.take(5)[1] != "&amp;"@[1]);
        assert(t.take(4)[1] != "&lt;"@[1]);
        assert(t.take(4)[1] != "&gt;"@[1]);
        assert(html_entity(t) == Some(('"', 6int)));
    } else if c == '\'' {
        assert(t.take(5)[1] != "&amp;"@[1]);
        assert(t.take(4)[1] != "&lt;"@[1]);
        assert(t.take(4)[1] != "&gt;"@[1]);
        assert(t.len() >= 6 ==> t.take(6)[1] != "&quot;"@[1]);
        assert(html_entity(t) == Some(('\'', 5int)));
    } else {
        assert(t[0] == c);
        assert(t.len() >= 5 ==> t.take(5)[0] != "&amp;"@[0]);
        assert(t.len() >= 4 ==> t.take(4)[0] != "&lt;"@[0]);
        assert(t.len() >= 4 ==> t.take(4)[0] != "&gt;"@[0]);
        assert(t.len() >= 6 ==> t.take(6)[0] != "&quot;"@[0]);
        assert(t.len() >= 5 ==> t.take(5)[0] != "&#39;"@[0]);
        assert(html_entity(t) is None);
    }
}

/// Escaped text reads back to the text it came from.
pub proof fn law_escaped_html_reads_back(s: Seq<char>)
    ensures
        html_unescaped(html_escaped(s)) == s,
    decreases s.len(),
{
    if s.len() > 0 {
        let tail = s.drop_first();
        assert(s =~= seq![s[0]] + tail);
        lemma_html_escaped_concat(seq![s[0]], tail);
        assert(seq![s[0]].drop_last() =~= Seq::<char>::empty());
        assert(seq![s[0]].last() == s[0]);
        assert(html_escaped(Seq::<char>::empty()) =~= Seq::<char>::empty());
        assert(html_escaped(seq![s[0]]) =~= html_char(s[0]));
        lemma_unescape_char(s[0], html_escaped(tail));
        law_escaped_html_reads_back(tail);
    }
}

fn push_escaped(out: &mut String, input: &str)
    ensures
        final(out)@ == old(out)@ + html_escaped(input@),
{
    let v = to_chars(input);
    let mut i: usize = 0;
    while i < v.len()
        invariant
            v@ == input@,
            i <= v@.len(),
            out@ == old(out)@ + html_escaped(v@.take(i as int)),
        decreases v@.len() - i,
    {
        let c = v[i];
        let ghost before = out@;
        if c == '&' {
            push_str(out, "&amp;");
        } else if c == '<' {
            push_str(out, "&lt;");
        } else if c == '>' {
            push_str(out, "&gt;");
        } else if c == '"' {
            push_str(out, "&quot;");
        } else if c == '\'' {
            push_str(out, "&#39;");
        } else {
            push_char(out, c);
        }
        assert(v@.take(i + 1).drop_last() =~= v@.take(i as int));
        assert(out@ =~= before + html_char(c));
        i = i + 1;
    }
    assert(v@.take(i as int) =~= input@);
}

/// Escape text for HTML.
pub fn escape_html(input: &str) -> (r: String)
    ensures
        r@ == html_escaped(input@),
{
    let mut out = String::new();
    push_escaped(&mut out, input);
    assert(out@ =~= html_escaped(input@));
    out
}

/// `[` and `]` escaped with a backslash, for link text.
pub open spec fn bracket_escaped(s: Seq<char>) -> Seq<char>
    decreases s.len(),
{
    if s.len() == 0 {
        Seq::<char>::empty()
    } else {
        bracket_escaped(s.drop_last()) + (if s.last() == '[' || s.last() == ']' {
            seq!['\\', s.last()]
        } else {
            seq![s.last()]
        })
    }
}

fn escape_bracket(input: &str) -> (r: String)
    ensures
        r@ == bracket_escaped(input@),
{
    let v = to_chars(input);
    let mut out = String::new();
    let mut i: usize = 0;
    while i < v.len()
        invariant
            v@ == input@,
            i <= v@.len(),
            out@ == bracket_escaped(v@.take(i as int)),
        decreases v@.len() - i,
    {
        let c = v[i];
        if c == '[' || c == ']' {
            push_char(&mut out, '\\');
        }
        push_char(&mut out, c);
        assert(v@.take(i + 1).drop_last() =~= v@.take(i as int));
        assert(out@ =~= bracket_escaped(v@.take(i + 1)));
        i = i + 1;
    }
    assert(v@.take(i as int) =~= input@);
    out
}

/// Bytes an href may carry as they are.
pub open spec fn unreserved(b: u8) -> bool {
    (65 <= b <= 90) || (97 <= b <= 122) || (48 <= b <= 57) || b == 45 || b == 95 || b == 46 || b == 126 || b == 47
}

pub open spec fn hex_upper(d: int) -> char {
    if d < 10 {
        (48 + d) as char
    } else {
        (55 + d) as char
    }
}

/// UTF-8 bytes percent-encoded, except those an href may carry as they are.
pub open spec fn href_encoded(bs: Seq<u8>) -> Seq<char>
    decreases bs.len(),
{
    if bs.len() == 0 {
        Seq::<char>::empty()
    } else {
        let b = bs.last();
        href_encoded(bs.drop_last()) + (if unreserved(b) {
            seq![b as char]
        } else {
            seq!['%', hex_upper((b / 16) as int), hex_upper((b % 16) as int)]
        })
    }
}

fn push_hex_upper(out: &mut String, d: u8)
    requires
        d < 16,
    ensures
        final(out)@ == old(out)@.push(hex_upper(d as int)),
{
    let code: u32 = if d < 10 { 48 + d as u32 } else { 55 + d as u32 };
    push_char(out, char_from_ascii(code));
}

/// Percent-encode the characters that would otherwise break an href.
fn encode_href(input: &str) -> (r: String)
    ensures
        r@ == href_encoded(encode_utf8(input@)),
{
    let bytes = input.as_bytes();
    let ghost bs = encode_utf8(input@);
    let mut out = String::new();
    let mut i: usize = 0;
    while i < bytes.len()
        invariant
            bytes@ == bs,
            i <= bs.len(),
            out@ == href_encoded(bs.take(i as int)),
        decreases bs.len() - i,
    {
        let b = bytes[i];
        let keep = (65 <= b && b <= 90) || (97 <= b && b <= 122) || (48 <= b && b <= 57) || b == 45 || b == 95 || b
            == 46 || b == 126 || b == 47;
        if keep {
            push_char(&mut out, char_from_ascii(b as u32));
        } else {
            push_char(&mut out, '%');
            push_hex_upper(&mut out, b / 16);
            push_hex_upper(&mut out, b % 16);
        }
        assert(bs.take(i + 1).drop_last() =~= bs.take(i as int));
        assert(out@ =~= href_encoded(bs.take(i + 1)));
        i = i + 1;
    }
    assert(bs.take(i as int) =~= bs);
    out
}

// ---------------------------------------------------------------------------
// Wiki links.

/// Where inside the target a link points: `#` and the encoded block id
/// (with its `^`), or `#` and the heading's slug, or nothing.
pub open spec fn fragment_of(heading: Option<Seq<char>>, block: Option<Seq<char>>) -> Seq<char> {
    match block {
        Some(b) => seq!['#'] + href_encoded(encode_utf8(seq!['^'] + b)),
        None => match heading {
            Some(h) => seq!['#'] + slug(h),
            None => Seq::<char>::empty(),
        },
    }
}

fn fragment_for(link: &Link) -> (r: String)
    ensures
        r@ == fragment_of(opt_view(link.heading), opt_view(link.block_id)),
{
    if let Some(block) = &link.block_id {
        let mut caret = str_to_string("^");
        push_str(&mut caret, block.as_str());
        let mut out = str_to_string("#");
        push_str(&mut out, encode_href(caret.as_str()).as_str());
        proof {
            reveal_strlit("^");
            reveal_strlit("#");
        }
        assert(caret@ =~= seq!['^'] + block@);
        assert(out@ =~= seq!['#'] + href_encoded(encode_utf8(seq!['^'] + block@)));
        out
    } else if let Some(heading) = &link.heading {
        let mut out = str_to_string("#");
        push_str(&mut out, slugify(heading.as_str()).as_str());
        proof {
            reveal_strlit("#");
        }
        assert(out@ =~= seq!['#'] + slug(heading@));
        out
    } else {
        String::new()
    }
}

pub open spec fn ends_with(s: Seq<char>, suffix: Seq<char>) -> bool {
    s.len() >= suffix.len() && has_prefix_at(s, s.len() - suffix.len(), suffix)
}

/// A target that names an image, by its extension in any case.
pub open spec fn is_image_name(t: Seq<char>) -> bool {
    let low = ascii_lower_seq(t);
    ends_with(low, ".png"@) || ends_with(low, ".jpg"@) || ends_with(low, ".jpeg"@) || ends_with(low, ".gif"@)
        || ends_with(low, ".webp"@) || ends_with(low, ".svg"@) || ends_with(low, ".bmp"@) || ends_with(low, ".avif"@)
}

fn ends_with_str(v: &Vec<char>, suffix: &str) -> (r: bool)
    ensures
        r == ends_with(v@, suffix@),
{
    let p = to_chars(suffix);
    if p.len() > v.len() {
        return false;
    }
    starts_with_at(v, v.len() - p.len(), &p)
}

fn is_image_target(target: &str) -> (r: bool)
    ensures
        r == is_image_name(target@),
{
    let low = to_ascii_lowercase(&to_chars(target));
    ends_with_str(&low, ".png") || ends_with_str(&low, ".jpg") || ends_with_str(&low, ".jpeg") || ends_with_str(
        &low,
        ".gif",
    ) || ends_with_str(&low, ".webp") || ends_with_str(&low, ".svg") || ends_with_str(&low, ".bmp")
        || ends_with_str(&low, ".avif")
}

/// The path the last pair for `target` names.
pub open spec fn resolved_in(pairs: Seq<(Seq<char>, Seq<char>)>, target: Seq<char>) -> Option<Seq<char>>
    decreases pairs.len(),
{
    if pairs.len() == 0 {
        None
    } else if pairs.last().0 == target {
        Some(pairs.last().1)
    } else {
        resolved_in(pairs.drop_last(), target)
    }
}

/// A note's extension, the kind re-extensioned on export.
pub open spec fn is_note_path(p: Seq<char>) -> bool {
    let e = extension_of(file_name_of(p));
    e == Some("md"@) || e == Some("markdown"@) || e == Some("mdx"@)
}

/// Where a link to `path` points: the path, with the export extension in
/// place of a note's own when one is set (and the result is a valid path).
pub open spec fn link_base(path: Seq<char>, link_extension: Option<Seq<char>>) -> Seq<char> {
    match link_extension {
        Some(ext) => if is_note_path(path) {
            match join_spec(parent_of(path), stem_of(file_name_of(path)) + seq!['.'] + ext) {
                Ok(q) => q,
                Err(_) => path,
            }
        } else {
            path
        },
        None => path,
    }
}

pub open spec fn href_of(l: LinkView, resolved: Option<Seq<char>>, link_extension: Option<Seq<char>>) -> Seq<char> {
    match resolved {
        Some(path) => href_encoded(encode_utf8(link_base(path, link_extension))) + fragment_of(l.heading, l.block_id),
        None => seq!['#'] + href_encoded(encode_utf8(l.target)),
    }
}

/// The Markdown or HTML a wiki link or embed becomes.
pub open spec fn wikilink_html(
    l: LinkView,
    pairs: Seq<(Seq<char>, Seq<char>)>,
    link_extension: Option<Seq<char>>,
) -> Seq<char> {
    let display = display_of(l.target, l.heading, l.block_id, l.alias);
    let resolved = resolved_in(pairs, l.target);
    let href = href_of(l, resolved, link_extension);
    if l.kind == LinkKind::Embed {
        if is_image_name(l.target) {
            "!["@ + bracket_escaped(display) + "]("@ + href + ")"@
        } else {
            "<div class=\"ie-embed\" data-target=\""@ + html_escaped(l.target) + "\">"@ + html_escaped(display)
                + "</div>"@
        }
    } else {
        let class = if resolved is Some {
            "ie-internal-link"@
        } else {
            "ie-unresolved-link"@
        };
        "<a class=\""@ + class + "\" href=\""@ + html_escaped(href) + "\">"@ + html_escaped(display) + "</a>"@
    }
}

/// The Markdown edits that rewrite the wiki links and embeds of a body that
/// starts at byte `bo`.
pub open spec fn rewrite_edits(
    ls: Seq<LinkView>,
    bo: int,
    pairs: Seq<(Seq<char>, Seq<char>)>,
    link_extension: Option<Seq<char>>,
) -> Seq<EditView>
    decreases ls.len(),
{
    if ls.len() == 0 {
        Seq::<EditView>::empty()
    } else {
        let rest = rewrite_edits(ls.drop_last(), bo, pairs, link_extension);
        let l = ls.last();
        if (l.kind == LinkKind::WikiLink || l.kind == LinkKind::Embed) && l.byte_start >= bo {
            rest.push(
                EditView {
                    start: l.byte_start - bo,
                    end: l.byte_end - bo,
                    replacement: wikilink_html(l, pairs, link_extension),
                },
            )
        } else {
            rest
        }
    }
}

/// The body with its wiki links and embeds rewritten. The parse's links never
/// overlap; were the edits refused, the body would be left as it is.
pub open spec fn rewritten(
    s: Seq<char>,
    o: ParserOptions,
    pairs: Seq<(Seq<char>, Seq<char>)>,
    link_extension: Option<Seq<char>>,
) -> Seq<char> {
    let body = s.skip(body_start_of(s));
    let edits = rewrite_edits(parsed_links(s, o), body_offset_of(s), pairs, link_extension);
    match applied(body, edits) {
        Ok(t) => t,
        Err(_) => body,
    }
}

pub open spec fn property_rows(props: Seq<(Seq<char>, Seq<char>)>) -> Seq<char>
    decreases props.len(),
{
    if props.len() == 0 {
        Seq::<char>::empty()
    } else {
        property_rows(props.drop_last()) + "  <dt>"@ + html_escaped(props.last().0) + "</dt>\n  <dd>"@
            + html_escaped(props.last().1) + "</dd>\n"@
    }
}

/// The frontmatter as a definition list.
pub open spec fn properties_html(props: Seq<(Seq<char>, Seq<char>)>) -> Seq<char> {
    "<dl class=\"ie-properties\">\n"@ + property_rows(props) + "</dl>\n"@
}

/// A self-contained page around rendered HTML.
pub open spec fn document(title: Seq<char>, body: Seq<char>) -> Seq<char> {
    DOCUMENT_HEAD@ + html_escaped(title) + DOCUMENT_STYLE@ + body + DOCUMENT_TAIL@
}

pub open spec fn props_view(ps: Seq<(String, String)>) -> Seq<(Seq<char>, Seq<char>)> {
    ps.map_values(|p: (String, String)| (p.0@, p.1@))
}

/// What rendering `s` gives, with the frontmatter's properties as (key, value
/// text) pairs.
pub open spec fn rendered(
    s: Seq<char>,
    props: Seq<(Seq<char>, Seq<char>)>,
    options: RenderOptions,
    pairs: Seq<(Seq<char>, Seq<char>)>,
) -> Seq<char> {
    let link_extension = opt_view(options.internal_link_extension);
    let html = cmark_html(rewritten(s, options.parser, pairs, link_extension), cmark_bits_of(options.parser));
    let out = (if options.include_properties && props.len() > 0 {
        properties_html(props)
    } else {
        Seq::<char>::empty()
    }) + html;
    if options.standalone {
        document(options.document_title@, out)
    } else {
        out
    }
}

fn resolution_for<'a>(pairs: &'a Vec<(String, VaultPath)>, target: &String) -> (r: Option<&'a VaultPath>)
    ensures
        match resolved_in(pairs_view(pairs@), target@) {
            Some(p) => r matches Some(x) && x@ == p,
            None => r is None,
        },
{
    let ghost pv = pairs_view(pairs@);
    let t = to_chars(target.as_str());
    let mut i = pairs.len();
    assert(pv.take(i as int) =~= pv);
    while i > 0
        invariant
            pv == pairs_view(pairs@),
            t@ == target@,
            i <= pairs@.len(),
            resolved_in(pv, target@) == resolved_in(pv.take(i as int), target@),
        decreases i,
    {
        assert(pv.take(i as int).drop_last() =~= pv.take(i - 1));
        assert(pv.take(i as int).last() == (pairs@[i - 1].0@, pairs@[i - 1].1@));
        if crate::strings::chars_eq(&to_chars(pairs[i - 1].0.as_str()), &t) {
            return Some(&pairs[i - 1].1);
        }
        i = i - 1;
    }
    None
}

fn is_note_file(path: &VaultPath) -> (r: bool)
    ensures
        r == is_note_path(path@),
{
    match path.extension() {
        Some(e) => {
            let v = to_chars(e.as_str());
            crate::strings::chars_eq(&v, &to_chars("md")) || crate::strings::chars_eq(&v, &to_chars("markdown"))
                || crate::strings::chars_eq(&v, &to_chars("mdx"))
        },
        None => false,
    }
}

impl MarkdownRenderer {
    fn link_href(&self, link: &Link, resolved: Option<&VaultPath>) -> (r: String)
        ensures
            r@ == href_of(
                link@,
                match resolved {
                    Some(p) => Some(p@),
                    None => None,
                },
                opt_view(self.options.internal_link_extension),
            ),
    {
        match resolved {
            Some(path) => {
                let base = match &self.options.internal_link_extension {
                    Some(ext) => {
                        if is_note_file(path) {
                            match path.with_extension(Some(ext.as_str())) {
                                Ok(p) => str_to_string(p.as_str()),
                                Err(_) => str_to_string(path.as_str()),
                            }
                        } else {
                            str_to_string(path.as_str())
                        }
                    },
                    None => str_to_string(path.as_str()),
                };
                let mut out = encode_href(base.as_str());
                push_str(&mut out, fragment_for(link).as_str());
                out
            },
            None => {
                let mut out = str_to_string("#");
                push_str(&mut out, encode_href(link.target.as_str()).as_str());
                proof {
                    reveal_strlit("#");
                }
                assert(out@ =~= seq!['#'] + href_encoded(encode_utf8(link.target@)));
                out
            },
        }
    }

    fn render_wikilink(&self, link: &Link) -> (r: String)
        ensures
            r@ == wikilink_html(link@, pairs_view(self.resolutions@), opt_view(self.options.internal_link_extension)),
    {
        let target = LinkTarget {
            path: clone_string(&link.target),
            heading: clone_opt(&link.heading),
            block_id: clone_opt(&link.block_id),
            alias: clone_opt(&link.alias),
        };
        let display = target.default_display();
        let resolved = resolution_for(&self.resolutions, &link.target);
        let href = self.link_href(link, resolved);
        match link.kind {
            LinkKind::Embed => {
                if is_image_target(link.target.as_str()) {
                    let mut out = str_to_string("![");
                    push_str(&mut out, escape_bracket(display.as_str()).as_str());
                    push_str(&mut out, "](");
                    push_str(&mut out, href.as_str());
                    push_str(&mut out, ")");
                    out
                } else {
                    let mut out = str_to_string("<div class=\"ie-embed\" data-target=\"");
                    push_escaped(&mut out, link.target.as_str());
                    push_str(&mut out, "\">");
                    push_escaped(&mut out, display.as_str());
                    push_str(&mut out, "</div>");
                    out
                }
            },
            _ => {
                let mut out = str_to_string("<a class=\"");
                if resolved.is_some() {
                    push_str(&mut out, "ie-internal-link");
                } else {
                    push_str(&mut out, "ie-unresolved-link");
                }
                push_str(&mut out, "\" href=\"");
                push_escaped(&mut out, href.as_str());
                push_str(&mut out, "\">");
                push_escaped(&mut out, display.as_str());
                push_str(&mut out, "</a>");
                out
            },
        }
    }

    fn rewrite_extensions(&self, source: &str) -> (r: String)
        ensures
            r@ == rewritten(
                source@,
                self.options.parser,
                pairs_view(self.resolutions@),
                opt_view(self.options.internal_link_extension),
            ),
    {
        let ghost s = source@;
        let document = MarkdownParser::with_options(self.options.parser).parse_with(source, &FrontmatterValues::none());
        let bo = document.body_offset;
        let body = body_of(source);
        let links = &document.metadata.links;
        let ghost lv = links_view(links@);
        let ghost pairs = pairs_view(self.resolutions@);
        let ghost ext = opt_view(self.options.internal_link_extension);
        let mut edits: Vec<Edit> = Vec::new();
        let mut i: usize = 0;
        assert(edits_view(edits@) =~= rewrite_edits(lv.take(0), bo as int, pairs, ext));
        while i < links.len()
            invariant
                lv == links_view(links@),
                pairs == pairs_view(self.resolutions@),
                ext == opt_view(self.options.internal_link_extension),
                i <= links@.len(),
                forall|k: int| 0 <= k < links@.len() ==> (#[trigger] links@[k]).byte_start <= links@[k].byte_end,
                forall|k: int| 0 <= k < edits@.len() ==> (#[trigger] edits@[k]).range.start <= edits@[k].range.end,
                edits_view(edits@) == rewrite_edits(lv.take(i as int), bo as int, pairs, ext),
            decreases links@.len() - i,
        {
            let link = &links[i];
            assert(lv.take(i + 1).drop_last() =~= lv.take(i as int));
            assert(lv.take(i + 1).last() == link@);
            let rewrite = match link.kind {
                LinkKind::WikiLink => true,
                LinkKind::Embed => true,
                _ => false,
            };
            if rewrite && link.byte_start >= bo {
                let replacement = self.render_wikilink(link);
                let ghost before = edits_view(edits@);
                edits.push(Edit { range: (link.byte_start - bo)..(link.byte_end - bo), replacement });
                assert(edits_view(edits@) =~= before.push(
                    EditView {
                        start: link.byte_start - bo,
                        end: link.byte_end - bo,
                        replacement: wikilink_html(link@, pairs, ext),
                    },
                ));
            }
            i = i + 1;
        }
        assert(lv.take(i as int) =~= lv);
        proof {
            lemma_forward_edits_apply(body@, edits@);
        }
        match MarkdownTransformer::apply(body.as_str(), edits) {
            Ok(t) => t,
            Err(_) => body,
        }
    }

    /// Render a note to HTML, given its frontmatter's properties as (key,
    /// value text) pairs.
    pub fn render(&self, source: &str, properties: &Vec<(String, String)>) -> (r: String)
        ensures
            r@ == rendered(source@, props_view(properties@), self.options_spec(), self.resolutions_spec()),
    {
        let normalized = self.rewrite_extensions(source);
        let body_html = html_of(normalized.as_str(), self.options.parser.cmark_bits());
        let mut out = String::new();
        if self.options.include_properties && properties.len() > 0 {
            push_str(&mut out, "<dl class=\"ie-properties\">\n");
            let ghost pv = props_view(properties@);
            let mut i: usize = 0;
            assert(out@ =~= "<dl class=\"ie-properties\">\n"@ + property_rows(pv.take(0)));
            while i < properties.len()
                invariant
                    pv == props_view(properties@),
                    i <= properties@.len(),
                    out@ == "<dl class=\"ie-properties\">\n"@ + property_rows(pv.take(i as int)),
                decreases properties@.len() - i,
            {
                push_str(&mut out, "  <dt>");
                push_escaped(&mut out, properties[i].0.as_str());
                push_str(&mut out, "</dt>\n  <dd>");
                push_escaped(&mut out, properties[i].1.as_str());
                push_str(&mut out, "</dd>\n");
                assert(pv.take(i + 1).drop_last() =~= pv.take(i as int));
                assert(pv.take(i + 1).last() == (properties@[i as int].0@, properties@[i as int].1@));
                assert(out@ =~= "<dl class=\"ie-properties\">\n"@ + property_rows(pv.take(i + 1)));
                i = i + 1;
            }
            assert(pv.take(i as int) =~= pv);
            push_str(&mut out, "</dl>\n");
        }
        push_str(&mut out, body_html.as_str());
        if self.options.standalone {
            let mut page = str_to_string(DOCUMENT_HEAD);
            push_escaped(&mut page, self.options.document_title.as_str());
            push_str(&mut page, DOCUMENT_STYLE);
            push_str(&mut page, out.as_str());
            push_str(&mut page, DOCUMENT_TAIL);
            page
        } else {
            out
        }
    }
}

// ---------------------------------------------------------------------------
// Laws.

pub open spec fn is_markup_char(c: char) -> bool {
    c == '<' || c == '>' || c == '"' || c == '\''
}

proof fn lemma_entity_extends(a: Seq<char>, b: Seq<char>)
    requires
        html_entity(a) is Some,
    ensures
        html_entity(a + b) is Some,
{
    let t = a + b;
    assert(t.take(4) =~= a.take(4) || a.len() < 4);
    if a.len() >= 5 && a.take(5) == "&amp;"@ {
        assert(t.take(5) =~= a.take(5));
    } else if a.len() >= 4 && a.take(4) == "&lt;"@ {
        assert(t.take(4) =~= a.take(4));
    } else if a.len() >= 4 && a.take(4) == "&gt;"@ {
        assert(t.take(4) =~= a.take(4));
    } else if a.len() >= 6 && a.take(6) == "&quot;"@ {
        assert(t.take(6) =~= a.take(6));
    } else {
        assert(t.take(5) =~= a.take(5));
    }
}

/// Every `&` in escaped text begins one of the five entities escaping
/// writes.
pub proof fn law_every_ampersand_begins_an_entity(s: Seq<char>)
    ensures
        forall|k: int| 0 <= k < html_escaped(s).len() && html_escaped(s)[k] == '&' ==> html_entity(
            #[trigger] html_escaped(s).skip(k),
        ) is Some,
    decreases s.len(),
{
    if s.len() > 0 {
        law_every_ampersand_begins_an_entity(s.drop_last());
        reveal_strlit("&amp;");
        reveal_strlit("&lt;");
        reveal_strlit("&gt;");
        reveal_strlit("&quot;");
        reveal_strlit("&#39;");
        let a = html_escaped(s.drop_last());
        let b = html_char(s.last());
        let e = html_escaped(s);
        assert(e == a + b);
        assert forall|k: int| 0 <= k < e.len() && e[k] == '&' implies html_entity(#[trigger] e.skip(k)) is Some by {
            if k < a.len() {
                assert(e[k] == a[k]);
                assert(e.skip(k) =~= a.skip(k) + b);
                assert(a.skip(k).len() > 0 && a.skip(k)[0] == a[k]);
                assert(html_entity(a.skip(k)) is Some);
                lemma_entity_extends(a.skip(k), b);
            } else {
                assert(e.skip(k) =~= b.skip(k - a.len()));
                assert(e[k] == b[k - a.len()]);
                let c = s.last();
                if c == '&' || c == '<' || c == '>' || c == '"' || c == '\'' {
                    assert(k == a.len());
                    assert(b.skip(0) =~= b);
                    if c == '&' {
                        assert(b.take(5) =~= "&amp;"@);
                    } else if c == '<' {
                        assert(b.take(4) =~= "&lt;"@);
                    } else if c == '>' {
                        assert(b.take(4) =~= "&gt;"@);
                    } else if c == '"' {
                        assert(b.take(6) =~= "&quot;"@);
                    } else {
                        assert(b.take(5) =~= "&#39;"@);
                    }
                }
            }
        }
    }
}

/// Escaped text holds no character that could open a tag or end an
/// attribute, whatever the note said.
pub proof fn law_escaped_text_holds_no_markup(s: Seq<char>)
    ensures
        forall|k: int| 0 <= k < html_escaped(s).len() ==> !is_markup_char(#[trigger] html_escaped(s)[k]),
    decreases s.len(),
{
    if s.len() > 0 {
        law_escaped_text_holds_no_markup(s.drop_last());
        reveal_strlit("&amp;");
        reveal_strlit("&lt;");
        reveal_strlit("&gt;");
        reveal_strlit("&quot;");
        reveal_strlit("&#39;");
        let a = html_escaped(s.drop_last());
        let b = html_char(s.last());
        assert forall|k: int| 0 <= k < b.len() implies !is_markup_char(#[trigger] b[k]) by {}
        assert forall|k: int| 0 <= k < html_escaped(s).len() implies !is_markup_char(#[trigger] html_escaped(s)[k]) by {
            assert(html_escaped(s) == a + b);
            if k < a.len() {
                assert(html_escaped(s)[k] == a[k]);
            } else {
                assert(html_escaped(s)[k] == b[k - a.len()]);
            }
        }
    }
}

/// `t` ends in `ext`, ASCII letters compared without regard to case.
pub open spec fn ends_in_ignoring_case(t: Seq<char>, ext: Seq<char>) -> bool {
    t.len() >= ext.len() && ascii_lower_seq(t.skip(t.len() - ext.len())) == ext
}

/// The file names an embed shows as a picture: those ending, in any case,
/// in `.png`, `.jpg`, `.jpeg`, `.gif`, `.webp`, `.svg`, `.bmp` or `.avif`.
pub open spec fn names_picture(t: Seq<char>) -> bool {
    ||| ends_in_ignoring_case(t, ".png"@)
    ||| ends_in_ignoring_case(t, ".jpg"@)
    ||| ends_in_ignoring_case(t, ".jpeg"@)
    ||| ends_in_ignoring_case(t, ".gif"@)
    ||| ends_in_ignoring_case(t, ".webp"@)
    ||| ends_in_ignoring_case(t, ".svg"@)
    ||| ends_in_ignoring_case(t, ".bmp"@)
    ||| ends_in_ignoring_case(t, ".avif"@)
}

proof fn lemma_ends_in_ignoring_case(t: Seq<char>, ext: Seq<char>)
    requires
        ends_in_ignoring_case(t, ext),
    ensures
        ends_with(ascii_lower_seq(t), ext),
{
    let low = ascii_lower_seq(t);
    let a = t.len() - ext.len();
    assert(low.subrange(a, a + ext.len()) =~= ascii_lower_seq(t.skip(a)));
}

/// An embed of a picture becomes a Markdown image whose source is the
/// resolved file's href (or the unresolved target's), which the CommonMark
/// renderer turns into an `<img>`; it is never the note-embed marker.
pub proof fn law_picture_embeds_render_as_images(
    l: LinkView,
    pairs: Seq<(Seq<char>, Seq<char>)>,
    link_extension: Option<Seq<char>>,
)
    requires
        l.kind == LinkKind::Embed,
        names_picture(l.target),
    ensures
        wikilink_html(l, pairs, link_extension) == "!["@ + bracket_escaped(
            display_of(l.target, l.heading, l.block_id, l.alias),
        ) + "]("@ + href_of(l, resolved_in(pairs, l.target), link_extension) + ")"@,
        resolved_in(pairs, l.target) matches Some(p) ==> href_of(l, resolved_in(pairs, l.target), link_extension)
            == href_encoded(encode_utf8(link_base(p, link_extension))) + fragment_of(l.heading, l.block_id),
{
    let t = l.target;
    if ends_in_ignoring_case(t, ".png"@) {
        lemma_ends_in_ignoring_case(t, ".png"@);
    } else if ends_in_ignoring_case(t, ".jpg"@) {
        lemma_ends_in_ignoring_case(t, ".jpg"@);
    } else if ends_in_ignoring_case(t, ".jpeg"@) {
        lemma_ends_in_ignoring_case(t, ".jpeg"@);
    } else if ends_in_ignoring_case(t, ".gif"@) {
        lemma_ends_in_ignoring_case(t, ".gif"@);
    } else if ends_in_ignoring_case(t, ".webp"@) {
        lemma_ends_in_ignoring_case(t, ".webp"@);
    } else if ends_in_ignoring_case(t, ".svg"@) {
        lemma_ends_in_ignoring_case(t, ".svg"@);
    } else if ends_in_ignoring_case(t, ".bmp"@) {
        lemma_ends_in_ignoring_case(t, ".bmp"@);
    } else {
        lemma_ends_in_ignoring_case(t, ".avif"@);
    }
    assert(is_image_name(t));
}

proof fn lemma_ends_with_lowered(t: Seq<char>, ext: Seq<char>)
    requires
        ends_with(ascii_lower_seq(t), ext),
    ensures
        ends_in_ignoring_case(t, ext),
{
    let low = ascii_lower_seq(t);
    let a = t.len() - ext.len();
    assert(low.subrange(a, a + ext.len()) =~= ascii_lower_seq(t.skip(a)));
}

/// An embed of anything else (a note, a PDF, a file with no extension) is
/// the note-embed marker naming its target, never an image.
pub proof fn law_other_embeds_render_as_markers(
    l: LinkView,
    pairs: Seq<(Seq<char>, Seq<char>)>,
    link_extension: Option<Seq<char>>,
)
    requires
        l.kind == LinkKind::Embed,
        !names_picture(l.target),
    ensures
        wikilink_html(l, pairs, link_extension) == "<div class=\"ie-embed\" data-target=\""@ + html_escaped(l.target)
            + "\">"@ + html_escaped(display_of(l.target, l.heading, l.block_id, l.alias)) + "</div>"@,
{
    let t = l.target;
    let low = ascii_lower_seq(t);
    if is_image_name(t) {
        if ends_with(low, ".png"@) {
            lemma_ends_with_lowered(t, ".png"@);
        } else if ends_with(low, ".jpg"@) {
            lemma_ends_with_lowered(t, ".jpg"@);
        } else if ends_with(low, ".jpeg"@) {
            lemma_ends_with_lowered(t, ".jpeg"@);
        } else if ends_with(low, ".gif"@) {
            lemma_ends_with_lowered(t, ".gif"@);
        } else if ends_with(low, ".webp"@) {
            lemma_ends_with_lowered(t, ".webp"@);
        } else if ends_with(low, ".svg"@) {
            lemma_ends_with_lowered(t, ".svg"@);
        } else if ends_with(low, ".bmp"@) {
            lemma_ends_with_lowered(t, ".bmp"@);
        } else {
            lemma_ends_with_lowered(t, ".avif"@);
        }
    }
}

/// An encoded href holds only ASCII: unreserved characters, `%` and hex
/// digits.
pub proof fn law_encoded_href_is_ascii(bs: Seq<u8>)
    ensures
        forall|k: int| 0 <= k < href_encoded(bs).len() ==> (#[trigger] href_encoded(bs)[k]) as int <= 0x7f,
    decreases bs.len(),
{
    if bs.len() > 0 {
        law_encoded_href_is_ascii(bs.drop_last());
        let a = href_encoded(bs.drop_last());
        let b = bs.last();
        let tail = if unreserved(b) {
            seq![b as char]
        } else {
            seq!['%', hex_upper((b / 16) as int), hex_upper((b % 16) as int)]
        };
        assert forall|k: int| 0 <= k < href_encoded(bs).len() implies (#[trigger] href_encoded(bs)[k]) as int <= 0x7f by {
            assert(href_encoded(bs) == a + tail);
            if k < a.len() {
                assert(href_encoded(bs)[k] == a[k]);
            } else {
                assert(href_encoded(bs)[k] == tail[k - a.len()]);
            }
        }
    }
}

} // verus!
