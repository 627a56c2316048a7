//! Parsing and re-rendering the inside of a wiki link.
//!
//! ```text
//! [[Note]]  [[Note|Display]]  [[Note#Heading]]  [[Note#^block-id]]  [[#Heading]]
//! ```
use vstd::prelude::*;
use crate::strings::{lower_chars, clone_string, eq_ic, eq_ignore_ascii_case, find_char, find_char_in, is_alphanumeric, lemma_find_char_at, lemma_trim_end_at, lemma_trim_start_at, push_char, push_str, to_chars, to_lowercase_char, trim, trim_end, trim_range, trim_start, trimmed, is_alnum, is_ws, string_of, chars_eq};

verus! {

/// The addressable parts of a link, independent of how it was written.
#[derive(Debug)]
pub struct LinkTarget {
    /// The note being addressed; empty means "this note".
    pub path: String,
    pub heading: Option<String>,
    pub block_id: Option<String>,
    pub alias: Option<String>,
}

pub open spec fn opt_view(o: Option<String>) -> Option<Seq<char>> {
    match o {
        Some(s) => Some(s@),
        None => None,
    }
}

pub open spec fn nonempty_opt(s: Seq<char>) -> Option<Seq<char>> {
    if s.len() == 0 {
        None
    } else {
        Some(s)
    }
}

/// The part before the first `|`.
pub open spec fn locator_raw(inner: Seq<char>) -> Seq<char> {
    match find_char(inner, '|') {
        Some(i) => inner.take(i),
        None => inner,
    }
}

pub open spec fn target_alias(inner: Seq<char>) -> Option<Seq<char>> {
    match find_char(inner, '|') {
        Some(i) => nonempty_opt(trim(inner.skip(i + 1))),
        None => None,
    }
}

pub open spec fn locator(inner: Seq<char>) -> Seq<char> {
    trim(locator_raw(inner))
}

pub open spec fn target_path(inner: Seq<char>) -> Seq<char> {
    let l = locator(inner);
    match find_char(l, '#') {
        Some(h) => trim(l.take(h)),
        None => trim(l),
    }
}

/// The text after the first `#` of the locator.
pub open spec fn fragment(inner: Seq<char>) -> Option<Seq<char>> {
    let l = locator(inner);
    match find_char(l, '#') {
        Some(h) => Some(l.skip(h + 1)),
        None => None,
    }
}

pub open spec fn target_block(inner: Seq<char>) -> Option<Seq<char>> {
    match fragment(inner) {
        Some(rest) => if rest.len() > 0 && rest[0] == '^' {
            nonempty_opt(trim(rest.skip(1)))
        } else {
            None
        },
        None => None,
    }
}

pub open spec fn target_heading(inner: Seq<char>) -> Option<Seq<char>> {
    match fragment(inner) {
        Some(rest) => if rest.len() > 0 && rest[0] == '^' {
            None
        } else {
            nonempty_opt(trim(rest))
        },
        None => None,
    }
}

/// The text between `[[` and `]]` that renders a target.
pub open spec fn inner_of(
    path: Seq<char>,
    heading: Option<Seq<char>>,
    block: Option<Seq<char>>,
    alias: Option<Seq<char>>,
) -> Seq<char> {
    let located = match block {
        Some(b) => path + seq!['#', '^'] + b,
        None => match heading {
            Some(h) => path + seq!['#'] + h,
            None => path,
        },
    };
    match alias {
        Some(a) => located + seq!['|'] + a,
        None => located,
    }
}

/// What a reader sees when no alias is given: the most specific part.
pub open spec fn display_of(
    path: Seq<char>,
    heading: Option<Seq<char>>,
    block: Option<Seq<char>>,
    alias: Option<Seq<char>>,
) -> Seq<char> {
    match alias {
        Some(a) => a,
        None => if path.len() == 0 {
            match heading {
                Some(h) => h,
                None => match block {
                    Some(b) => b,
                    None => path,
                },
            }
        } else {
            path
        },
    }
}

fn opt_clone(o: &Option<String>) -> (r: Option<String>)
    ensures
        opt_view(r) == opt_view(*o),
{
    match o {
        Some(s) => Some(clone_string(s)),
        None => None,
    }
}

/// `Some(trim(v[a..b]))` when that is non-empty.
fn nonempty_trimmed(v: &[char], a: usize, b: usize) -> (r: Option<String>)
    requires
        a <= b <= v@.len(),
    ensures
        opt_view(r) == nonempty_opt(trim(v@.subrange(a as int, b as int))),
{
    let (x, y) = trim_range(v, a, b);
    if x == y {
        assert(trim(v@.subrange(a as int, b as int)).len() == 0);
        None
    } else {
        Some(string_of(v, x, y))
    }
}

impl LinkTarget {
    pub open spec fn parts(&self) -> (Seq<char>, Option<Seq<char>>, Option<Seq<char>>, Option<Seq<char>>) {
        (self.path@, opt_view(self.heading), opt_view(self.block_id), opt_view(self.alias))
    }

    /// Parse the text between `[[` and `]]`. The alias runs from the first
    /// pipe to the end; a heading keeps any further `#`.
    pub fn parse(inner: &str) -> (t: LinkTarget)
        ensures
            t.path@ == target_path(inner@),
            opt_view(t.heading) == target_heading(inner@),
            opt_view(t.block_id) == target_block(inner@),
            opt_view(t.alias) == target_alias(inner@),
    {
        let v = to_chars(inner);
        let n = v.len();
        assert(v@.subrange(0, n as int) =~= v@);
        let pipe = find_char_in(&v, 0, n, '|');
        let (loc_end, alias) = match pipe {
            Some(i) => {
                assert(v@.subrange(i + 1, n as int) =~= inner@.skip(i + 1));
                (i, nonempty_trimmed(&v, i + 1, n))
            },
            None => (n, None),
        };
        assert(v@.subrange(0, loc_end as int) =~= locator_raw(inner@));
        let (ls, le) = trim_range(&v, 0, loc_end);
        let ghost l = locator(inner@);
        assert(v@.subrange(ls as int, le as int) == l);
        let hash = find_char_in(&v, ls, le, '#');
        let mut target = LinkTarget { path: String::new(), heading: None, block_id: None, alias };
        match hash {
            Some(h) => {
                assert(v@.subrange(ls as int, h as int) =~= l.take(h - ls));
                target.path = trimmed(&v, ls, h);
                let rest_start = h + 1;
                assert(v@.subrange(rest_start as int, le as int) =~= l.skip(h - ls + 1));
                if rest_start < le && v[rest_start] == '^' {
                    assert(v@.subrange(rest_start + 1, le as int) =~= l.skip(h - ls + 1).skip(1));
                    target.block_id = nonempty_trimmed(&v, rest_start + 1, le);
                } else {
                    target.heading = nonempty_trimmed(&v, rest_start, le);
                }
            },
            None => {
                target.path = trimmed(&v, ls, le);
                assert(trim(l) =~= trim(v@.subrange(ls as int, le as int)));
            },
        }
        target
    }

    /// Render back to the text that belongs between `[[` and `]]`.
    pub fn to_inner(&self) -> (r: String)
        ensures
            r@ == inner_of(self.path@, opt_view(self.heading), opt_view(self.block_id), opt_view(self.alias)),
    {
        let mut out = clone_string(&self.path);
        match &self.block_id {
            Some(block) => {
                push_str(&mut out, "#^");
                push_str(&mut out, block.as_str());
                proof {
                    reveal_strlit("#^");
                }
                assert(out@ =~= self.path@ + seq!['#', '^'] + block@);
            },
            None => match &self.heading {
                Some(heading) => {
                    push_char(&mut out, '#');
                    push_str(&mut out, heading.as_str());
                    assert(out@ =~= self.path@ + seq!['#'] + heading@);
                },
                None => {},
            },
        }
        let ghost located = out@;
        match &self.alias {
            Some(alias) => {
                push_char(&mut out, '|');
                push_str(&mut out, alias.as_str());
                assert(out@ =~= located + seq!['|'] + alias@);
            },
            None => {},
        }
        out
    }

    /// Render the whole link, as an embed or a plain wiki link.
    pub fn to_wikilink(&self, embed: bool) -> (r: String)
        ensures
            r@ == (if embed { seq!['!', '[', '['] } else { seq!['[', '['] }) + inner_of(
                self.path@,
                opt_view(self.heading),
                opt_view(self.block_id),
                opt_view(self.alias),
            ) + seq![']', ']'],
    {
        let mut out = String::new();
        if embed {
            push_char(&mut out, '!');
        }
        push_char(&mut out, '[');
        push_char(&mut out, '[');
        let inner = self.to_inner();
        push_str(&mut out, inner.as_str());
        push_char(&mut out, ']');
        push_char(&mut out, ']');
        assert(out@ =~= (if embed { seq!['!', '[', '['] } else { seq!['[', '['] }) + inner@ + seq![']', ']']);
        out
    }

    /// Does this address a location inside the note that contains it?
    pub fn is_same_note(&self) -> (r: bool)
        ensures
            r == (self.path@.len() == 0),
    {
        self.path.as_str().is_empty()
    }

    /// What the reader sees when no alias is given.
    pub fn default_display(&self) -> (r: String)
        ensures
            r@ == display_of(self.path@, opt_view(self.heading), opt_view(self.block_id), opt_view(self.alias)),
    {
        if let Some(alias) = &self.alias {
            return clone_string(alias);
        }
        if self.path.as_str().is_empty() {
            if let Some(heading) = &self.heading {
                return clone_string(heading);
            }
            if let Some(block) = &self.block_id {
                return clone_string(block);
            }
        }
        clone_string(&self.path)
    }

    pub fn clone_target(&self) -> (r: LinkTarget)
        ensures
            r.parts() == self.parts(),
    {
        LinkTarget {
            path: clone_string(&self.path),
            heading: opt_clone(&self.heading),
            block_id: opt_clone(&self.block_id),
            alias: opt_clone(&self.alias),
        }
    }
}

impl Default for LinkTarget {
    fn default() -> (r: Self)
        ensures
            r.path@.len() == 0,
            r.heading is None,
            r.block_id is None,
            r.alias is None,
    {
        LinkTarget { path: String::new(), heading: None, block_id: None, alias: None }
    }
}

// ---------------------------------------------------------------------------
// Slugs.

/// The slug under construction after each character, and whether it ends in
/// a separator that was just added.
pub open spec fn slug_acc(s: Seq<char>) -> (Seq<char>, bool)
    decreases s.len(),
{
    if s.len() == 0 {
        (seq![], false)
    } else {
        let (out, dash) = slug_acc(s.drop_last());
        let c = s.last();
        if is_alnum(c) {
            (out + lower_chars(c), false)
        } else if out.len() > 0 && !dash {
            (out.push('-'), true)
        } else {
            (out, dash)
        }
    }
}

/// `s` without its trailing `-` characters.
pub open spec fn strip_dashes(s: Seq<char>) -> Seq<char>
    decreases s.len(),
{
    if s.len() > 0 && s.last() == '-' {
        strip_dashes(s.drop_last())
    } else {
        s
    }
}

/// What `slugify` returns.
pub open spec fn slug(s: Seq<char>) -> Seq<char> {
    strip_dashes(slug_acc(s).0)
}

/// Turn a heading into a stable anchor: alphanumerics lowercased, every run
/// of anything else one `-`, no leading or trailing `-`.
pub fn slugify(heading: &str) -> (r: String)
    ensures
        r@ == slug(heading@),
{
    let v = to_chars(heading);
    let mut out: Vec<char> = Vec::new();
    let mut last_was_dash = false;
    let mut i: usize = 0;
    while i < v.len()
        invariant
            0 <= i <= v@.len(),
            (out@, last_was_dash) == slug_acc(v@.take(i as int)),
        decreases v@.len() - i,
    {
        let ch = v[i];
        assert(v@.take(i + 1).drop_last() =~= v@.take(i as int));
        if is_alphanumeric(ch) {
            let low = to_lowercase_char(ch);
            let mut k: usize = 0;
            let ghost before = out@;
            while k < low.len()
                invariant
                    0 <= k <= low@.len(),
                    out@ == before + low@.take(k as int),
                decreases low@.len() - k,
            {
                out.push(low[k]);
                k = k + 1;
                assert(out@ =~= before + low@.take(k as int));
            }
            assert(low@.take(low@.len() as int) =~= low@);
            last_was_dash = false;
        } else if out.len() > 0 && !last_was_dash {
            out.push('-');
            last_was_dash = true;
        }
        i = i + 1;
    }
    assert(v@.take(v@.len() as int) =~= v@);
    let mut end: usize = out.len();
    assert(out@.take(end as int) =~= out@);
    while end > 0 && out[end - 1] == '-'
        invariant
            0 <= end <= out@.len(),
            strip_dashes(out@.take(end as int)) == strip_dashes(out@),
        decreases end,
    {
        assert(out@.take(end as int).drop_last() =~= out@.take(end - 1));
        end = end - 1;
    }
    string_of(&out, 0, end)
}

/// Compare headings case-insensitively and ignoring punctuation and spacing.
pub fn heading_matches(candidate: &str, wanted: &str) -> (r: bool)
    ensures
        r == (eq_ic(candidate@, wanted@) || slug(candidate@) == slug(wanted@)),
{
    let a = to_chars(candidate);
    let b = to_chars(wanted);
    if eq_ignore_ascii_case(&a, &b) {
        return true;
    }
    let sa = to_chars(slugify(candidate).as_str());
    let sb = to_chars(slugify(wanted).as_str());
    chars_eq(&sa, &sb)
}

// ---------------------------------------------------------------------------
// The round-trip law.

/// No whitespace at either end (and not empty).
pub open spec fn tight(s: Seq<char>) -> bool {
    s.len() > 0 && !is_ws(s[0]) && !is_ws(s.last())
}

pub open spec fn lacks(s: Seq<char>, c: char) -> bool {
    forall|i: int| 0 <= i < s.len() ==> s[i] != c
}

/// A target that `to_inner` renders unambiguously.
pub open spec fn well_formed(
    path: Seq<char>,
    heading: Option<Seq<char>>,
    block: Option<Seq<char>>,
    alias: Option<Seq<char>>,
) -> bool {
    &&& (path.len() == 0 || tight(path))
    &&& lacks(path, '|') && lacks(path, '#')
    &&& match block {
        Some(b) => tight(b) && lacks(b, '|') && heading is None,
        None => true,
    }
    &&& match heading {
        Some(h) => tight(h) && lacks(h, '|') && h[0] != '^',
        None => true,
    }
    &&& match alias {
        Some(a) => tight(a),
        None => true,
    }
}

proof fn lemma_trim_tight(s: Seq<char>)
    requires
        tight(s),
    ensures
        trim(s) == s,
{
    lemma_trim_start_at(s, 0);
    assert(trim_start(s) =~= s);
    lemma_trim_end_at(s, s.len() as int);
    assert(trim_end(s) =~= s);
}

proof fn lemma_trim_empty()
    ensures
        trim(Seq::<char>::empty()) == Seq::<char>::empty(),
{
    lemma_trim_start_at(Seq::<char>::empty(), 0);
    assert(trim_start(Seq::<char>::empty()) =~= Seq::<char>::empty());
    lemma_trim_end_at(Seq::<char>::empty(), 0);
    assert(trim_end(Seq::<char>::empty()) =~= Seq::<char>::empty());
}

/// `trim` of a sequence that begins and ends with non-whitespace.
proof fn lemma_trim_outer(s: Seq<char>)
    requires
        s.len() > 0,
        !is_ws(s[0]),
        !is_ws(s.last()),
    ensures
        trim(s) == s,
{
    lemma_trim_tight(s);
}

/// Parsing the rendering of a well-formed target gives the target back.
pub proof fn law_parse_inverts_to_inner(
    path: Seq<char>,
    heading: Option<Seq<char>>,
    block: Option<Seq<char>>,
    alias: Option<Seq<char>>,
)
    requires
        well_formed(path, heading, block, alias),
    ensures
        ({
            let inner = inner_of(path, heading, block, alias);
            &&& target_path(inner) == path
            &&& target_heading(inner) == heading
            &&& target_block(inner) == block
            &&& target_alias(inner) == alias
        }),
{
    let located = match block {
        Some(b) => path + seq!['#', '^'] + b,
        None => match heading {
            Some(h) => path + seq!['#'] + h,
            None => path,
        },
    };
    let inner = inner_of(path, heading, block, alias);
    // the locator holds no pipe
    assert forall|i: int| 0 <= i < located.len() implies located[i] != '|' by {
        if i >= path.len() {
            match block {
                Some(b) => {
                    if i >= path.len() + 2 {
                        assert(located[i] == b[i - path.len() - 2]);
                    }
                },
                None => match heading {
                    Some(h) => {
                        if i >= path.len() + 1 {
                            assert(located[i] == h[i - path.len() - 1]);
                        }
                    },
                    None => {},
                },
            }
        }
    }
    match alias {
        Some(a) => {
            assert(inner =~= located + seq!['|'] + a);
            assert forall|j: int| 0 <= j < located.len() implies inner[j] != '|' by {
                assert(inner[j] == located[j]);
            }
            lemma_find_char_at(inner, '|', located.len() as int);
            assert(inner.take(located.len() as int) =~= located);
            assert(inner.skip(located.len() as int + 1) =~= a);
            lemma_trim_tight(a);
        },
        None => {
            lemma_find_char_at(inner, '|', located.len() as int);
        },
    }
    assert(locator_raw(inner) == located);
    // the locator is already tight, or empty
    if located.len() == 0 {
        lemma_trim_empty();
    } else {
        let last_ok = match block {
            Some(b) => located.last() == b.last(),
            None => match heading {
                Some(h) => located.last() == h.last(),
                None => located.last() == path.last(),
            },
        };
        assert(last_ok);
        if path.len() > 0 {
            assert(located[0] == path[0]);
        } else {
            assert(located[0] == '#');
        }
        lemma_trim_outer(located);
    }
    assert(locator(inner) == located);
    let l = located;
    match block {
        Some(b) => {
            assert forall|j: int| 0 <= j < path.len() implies l[j] != '#' by {
                assert(l[j] == path[j]);
            }
            lemma_find_char_at(l, '#', path.len() as int);
            assert(l.take(path.len() as int) =~= path);
            assert(l.skip(path.len() as int + 1) =~= seq!['^'] + b);
            assert((seq!['^'] + b).skip(1) =~= b);
            lemma_trim_tight(b);
            if path.len() == 0 {
                lemma_trim_empty();
            } else {
                lemma_trim_tight(path);
            }
        },
        None => match heading {
            Some(h) => {
                assert forall|j: int| 0 <= j < path.len() implies l[j] != '#' by {
                    assert(l[j] == path[j]);
                }
                lemma_find_char_at(l, '#', path.len() as int);
                assert(l.take(path.len() as int) =~= path);
                assert(l.skip(path.len() as int + 1) =~= h);
                lemma_trim_tight(h);
                if path.len() == 0 {
                    lemma_trim_empty();
                } else {
                    lemma_trim_tight(path);
                }
            },
            None => {
                lemma_find_char_at(l, '#', path.len() as int);
                if path.len() == 0 {
                    lemma_trim_empty();
                } else {
                    lemma_trim_tight(path);
                }
            },
        },
    }
}

} // verus!
