//! The search query language.
//!
//! ```text
//! machine learning          all of these words
//! "machine learning"        this exact phrase
//! -draft                    excluding this word
//! tag:AI                    tagged #AI, or anything nested under it
//! path:Projects             inside this folder
//! file:readme               whose filename contains this
//! ext:png                   with this extension
//! status:active             whose `status` property is exactly this
//! rating>7                  numeric comparison on a property
//! section:"Design notes"    containing a heading like this
//! ```
//!
//! Filters combine with AND; bare terms go to the full-text index.
use vstd::prelude::*;
use crate::error::CoreError;
use crate::strings::{
    joined,
    chars_eq, find_char, find_char_in, find_seq, find_seq_from, is_whitespace, is_ws,
    lemma_find_seq_from, lowercase, string_of, string_of_all, str_to_string, to_chars,
    to_lowercase, trim, trim_range, starts_with_at, clone_string, strip_leading, strip_leading_char,
};

verus! {

#[derive(Debug, PartialEq, Eq)]
pub enum Term {
    Word(String),
    Phrase(String),
    /// `-word` or `-"a phrase"`: must not appear.
    Not(Box<Term>),
}

#[derive(Debug, Clone, Copy, PartialEq, Eq, Structural)]
pub enum Comparison {
    Equal,
    NotEqual,
    Greater,
    GreaterOrEqual,
    Less,
    LessOrEqual,
}

#[derive(Debug, PartialEq, Eq)]
pub enum Filter {
    /// `tag:AI` — matches `#AI` and everything nested beneath it.
    Tag(String),
    /// `path:Projects` — the path contains this segment.
    Path(String),
    /// `file:readme` — the filename contains this.
    File(String),
    Extension(String),
    /// `section:Design` — the note has a heading containing this.
    Section(String),
    /// A frontmatter property comparison.
    Property { key: String, comparison: Comparison, value: String },
    /// `is:unresolved`, `is:orphan`, `is:untagged` — structural predicates.
    Is(StructuralPredicate),
    /// Negation of any of the above.
    Not(Box<Filter>),
}

#[derive(Debug, Clone, Copy, PartialEq, Eq, Structural)]
pub enum StructuralPredicate {
    /// Contains at least one link that points nowhere.
    Unresolved,
    /// Nothing links to it.
    Orphan,
    Untagged,
    /// Has no outgoing internal links.
    DeadEnd,
}

#[derive(Debug, PartialEq, Eq)]
pub struct Query {
    pub terms: Vec<Term>,
    pub filters: Vec<Filter>,
}

// ---------------------------------------------------------------------------
// Mathematical views.

pub enum TermView {
    Word(Seq<char>),
    Phrase(Seq<char>),
    Not(Box<TermView>),
}

pub enum FilterView {
    Tag(Seq<char>),
    Path(Seq<char>),
    File(Seq<char>),
    Extension(Seq<char>),
    Section(Seq<char>),
    Property { key: Seq<char>, comparison: Comparison, value: Seq<char> },
    Is(StructuralPredicate),
    Not(Box<FilterView>),
}

pub open spec fn term_view(t: Term) -> TermView
    decreases t,
{
    match t {
        Term::Word(w) => TermView::Word(w@),
        Term::Phrase(p) => TermView::Phrase(p@),
        Term::Not(inner) => TermView::Not(Box::new(term_view(*inner))),
    }
}

pub open spec fn filter_view(f: Filter) -> FilterView
    decreases f,
{
    match f {
        Filter::Tag(x) => FilterView::Tag(x@),
        Filter::Path(x) => FilterView::Path(x@),
        Filter::File(x) => FilterView::File(x@),
        Filter::Extension(x) => FilterView::Extension(x@),
        Filter::Section(x) => FilterView::Section(x@),
        Filter::Property { key, comparison, value } => FilterView::Property {
            key: key@,
            comparison,
            value: value@,
        },
        Filter::Is(s) => FilterView::Is(s),
        Filter::Not(inner) => FilterView::Not(Box::new(filter_view(*inner))),
    }
}

pub open spec fn terms_view(ts: Seq<Term>) -> Seq<TermView> {
    ts.map_values(|t: Term| term_view(t))
}

pub open spec fn filters_view(fs: Seq<Filter>) -> Seq<FilterView> {
    fs.map_values(|f: Filter| filter_view(f))
}

// ---------------------------------------------------------------------------
// Tokens.

/// A token: the raw text, whether it was quoted, whether its first quote
/// opened before any text (no prefix such as `section:` stands before the
/// quote), and whether it was negated.
pub struct TokenView {
    pub text: Seq<char>,
    pub quoted: bool,
    pub bare: bool,
    pub negated: bool,
}

/// The tokenizer's state between characters.
pub struct Lexer {
    pub tokens: Seq<TokenView>,
    pub current: Seq<char>,
    pub quoted: bool,
    pub bare: bool,
    pub negated: bool,
    pub in_quotes: bool,
}

pub open spec fn lexer_start() -> Lexer {
    Lexer { tokens: seq![], current: seq![], quoted: false, bare: false, negated: false, in_quotes: false }
}

/// Close the token being collected, if there is one.
pub open spec fn flushed(st: Lexer) -> Lexer {
    if st.current.len() > 0 || st.quoted {
        Lexer {
            tokens: st.tokens.push(
                TokenView { text: st.current, quoted: st.quoted, bare: st.bare, negated: st.negated },
            ),
            current: seq![],
            quoted: false,
            bare: false,
            negated: false,
            in_quotes: st.in_quotes,
        }
    } else {
        st
    }
}

/// One character of input; `next` is the character after it.
pub open spec fn lex_step(st: Lexer, c: char, next: Option<char>) -> Lexer {
    if c == '"' {
        if st.in_quotes {
            Lexer { in_quotes: false, quoted: true, ..st }
        } else {
            Lexer { in_quotes: true, bare: st.bare || (st.current.len() == 0 && !st.quoted), ..st }
        }
    } else if is_ws(c) && !st.in_quotes {
        flushed(st)
    } else if c == '-' && st.current.len() == 0 && !st.in_quotes && !st.negated {
        // A leading dash negates; a dash inside a word is part of it.
        if next matches Some(n) && !is_ws(n) {
            Lexer { negated: true, ..st }
        } else {
            Lexer { current: st.current.push('-'), ..st }
        }
    } else {
        Lexer { current: st.current.push(c), ..st }
    }
}

/// The state after reading `s[i..]` from `st`.
pub open spec fn lex_from(s: Seq<char>, i: int, st: Lexer) -> Lexer
    decreases s.len() - i,
{
    if i < 0 || i >= s.len() {
        st
    } else {
        lex_from(s, i + 1, lex_step(st, s[i], if i + 1 < s.len() { Some(s[i + 1]) } else { None }))
    }
}

/// The tokens of a query, or `None` when a quote was left open.
pub open spec fn tokens_of(s: Seq<char>) -> Option<Seq<TokenView>> {
    let st = lex_from(s, 0, lexer_start());
    if st.in_quotes {
        None
    } else {
        Some(flushed(st).tokens)
    }
}

struct Token {
    text: Vec<char>,
    quoted: bool,
    bare: bool,
    negated: bool,
}

impl Token {
    spec fn view(&self) -> TokenView {
        TokenView { text: self.text@, quoted: self.quoted, bare: self.bare, negated: self.negated }
    }
}

spec fn tokens_view(ts: Seq<Token>) -> Seq<TokenView> {
    ts.map_values(|t: Token| t.view())
}

spec fn lexer_of(
    tokens: Seq<Token>,
    current: Seq<char>,
    quoted: bool,
    bare: bool,
    negated: bool,
    in_quotes: bool,
) -> Lexer {
    Lexer { tokens: tokens_view(tokens), current, quoted, bare, negated, in_quotes }
}

fn tokenize(input: &str) -> (r: Option<Vec<Token>>)
    ensures
        match tokens_of(input@) {
            None => r is None,
            Some(ts) => r matches Some(v) && tokens_view(v@) == ts,
        },
{
    let s = to_chars(input);
    let ghost sv = input@;
    let mut tokens: Vec<Token> = Vec::new();
    let mut current: Vec<char> = Vec::new();
    let mut quoted = false;
    let mut bare = false;
    let mut negated = false;
    let mut in_quotes = false;
    let mut i: usize = 0;
    assert(tokens_view(tokens@) =~= seq![]);
    while i < s.len()
        invariant
            s@ == sv,
            i <= s@.len(),
            lex_from(sv, 0, lexer_start())
                == lex_from(sv, i as int, lexer_of(tokens@, current@, quoted, bare, negated, in_quotes)),
        decreases s@.len() - i,
    {
        let c = s[i];
        let ghost before = lexer_of(tokens@, current@, quoted, bare, negated, in_quotes);
        let ghost next = if i + 1 < s@.len() { Some(s@[i + 1]) } else { None::<char> };
        if c == '"' {
            if in_quotes {
                in_quotes = false;
                quoted = true;
            } else {
                bare = bare || (current.len() == 0 && !quoted);
                in_quotes = true;
            }
        } else if is_whitespace(c) && !in_quotes {
            if current.len() > 0 || quoted {
                let ghost old_tokens = tokens@;
                let text = current;
                tokens.push(Token { text, quoted, bare, negated });
                proof {
                    assert(tokens_view(tokens@) =~= tokens_view(old_tokens).push(tokens@.last().view()));
                }
                current = Vec::new();
                quoted = false;
                bare = false;
                negated = false;
            }
        } else if c == '-' && current.len() == 0 && !in_quotes && !negated {
            if i + 1 < s.len() && !is_whitespace(s[i + 1]) {
                negated = true;
            } else {
                current.push('-');
            }
        } else {
            current.push(c);
        }
        assert(lexer_of(tokens@, current@, quoted, bare, negated, in_quotes) == lex_step(before, c, next));
        i = i + 1;
    }
    if in_quotes {
        return None;
    }
    if current.len() > 0 || quoted {
        let ghost old_tokens = tokens@;
        tokens.push(Token { text: current, quoted, bare, negated });
        proof {
            assert(tokens_view(tokens@) =~= tokens_view(old_tokens).push(tokens@.last().view()));
        }
    }
    Some(tokens)
}

// ---------------------------------------------------------------------------
// Filters.

/// The comparison operators, in the order they are tried: two-character
/// operators before their one-character prefixes.
pub open spec fn comparison_symbol(k: int) -> Seq<char> {
    if k == 0 {
        ">="@
    } else if k == 1 {
        "<="@
    } else if k == 2 {
        "!="@
    } else if k == 3 {
        ">"@
    } else {
        "<"@
    }
}

pub open spec fn comparison_kind(k: int) -> Comparison {
    if k == 0 {
        Comparison::GreaterOrEqual
    } else if k == 1 {
        Comparison::LessOrEqual
    } else if k == 2 {
        Comparison::NotEqual
    } else if k == 3 {
        Comparison::Greater
    } else {
        Comparison::Less
    }
}

/// A comparison `key OP value` using the operators from the `k`th on: the
/// first operator that occurs, splitting the token into a non-empty key
/// without `:` and a non-empty value, wins.
pub open spec fn property_comparison(text: Seq<char>, k: int) -> Option<FilterView>
    decreases 5 - k,
{
    if k < 0 || k >= 5 {
        None
    } else {
        let sym = comparison_symbol(k);
        match find_seq_from(text, 0, text.len() as int, sym) {
            Some(i) => {
                let key = trim(text.take(i));
                let value = trim(text.skip(i + sym.len()));
                if key.len() > 0 && value.len() > 0 && find_char(key, ':') is None {
                    Some(FilterView::Property { key, comparison: comparison_kind(k), value })
                } else {
                    property_comparison(text, k + 1)
                }
            },
            None => property_comparison(text, k + 1),
        }
    }
}


/// The structural predicate named by a lowercased word.
pub open spec fn structural_from(v: Seq<char>) -> Option<StructuralPredicate> {
    if v == "unresolved"@ {
        Some(StructuralPredicate::Unresolved)
    } else if v == "orphan"@ || v == "orphaned"@ {
        Some(StructuralPredicate::Orphan)
    } else if v == "untagged"@ {
        Some(StructuralPredicate::Untagged)
    } else if v == "deadend"@ || v == "dead-end"@ {
        Some(StructuralPredicate::DeadEnd)
    } else {
        None
    }
}

/// The filter `key:value` stands for; an unknown key names a property.
pub open spec fn prefixed_filter(key: Seq<char>, value: Seq<char>) -> Result<FilterView, Seq<char>> {
    let k = lowercase(key);
    if k == "tag"@ {
        Ok(FilterView::Tag(strip_leading(value, '#')))
    } else if k == "path"@ || k == "folder"@ {
        Ok(FilterView::Path(value))
    } else if k == "file"@ || k == "name"@ {
        Ok(FilterView::File(value))
    } else if k == "ext"@ || k == "extension"@ {
        Ok(FilterView::Extension(strip_leading(value, '.')))
    } else if k == "section"@ || k == "heading"@ {
        Ok(FilterView::Section(value))
    } else if k == "is"@ {
        match structural_from(lowercase(value)) {
            Some(p) => Ok(FilterView::Is(p)),
            None => Err("is:"@ + value + " is not recognised — try unresolved, orphan, untagged or dead-end"@),
        }
    } else {
        Ok(FilterView::Property { key, comparison: Comparison::Equal, value })
    }
}

/// The filter a token's text spells, `None` for a plain term, or the
/// message of the error it makes.
pub open spec fn parsed_filter(text: Seq<char>) -> Result<Option<FilterView>, Seq<char>> {
    match property_comparison(text, 0) {
        Some(f) => Ok(Some(f)),
        None => match find_char(text, ':') {
            None => Ok(None),
            Some(i) => {
                let key = trim(text.take(i));
                let value = trim(text.skip(i + 1));
                if key.len() == 0 {
                    Ok(None)
                } else if value.len() == 0 {
                    Err(key + ": needs a value"@)
                } else {
                    match prefixed_filter(key, value) {
                        Ok(f) => Ok(Some(f)),
                        Err(m) => Err(m),
                    }
                }
            },
        },
    }
}

pub enum PieceView {
    Term(TermView),
    Filter(FilterView),
}

/// What one token contributes to the query. A quoted token is a literal
/// phrase unless a prefix stood before its quote, as in
/// `section:"Design notes"`.
pub open spec fn piece_of(tok: TokenView) -> Result<PieceView, Seq<char>> {
    if tok.quoted && tok.bare {
        let t = TermView::Phrase(tok.text);
        Ok(PieceView::Term(if tok.negated { TermView::Not(Box::new(t)) } else { t }))
    } else {
        match parsed_filter(tok.text) {
            Err(m) => Err(m),
            Ok(Some(f)) => Ok(PieceView::Filter(if tok.negated { FilterView::Not(Box::new(f)) } else { f })),
            Ok(None) => {
                let t = if tok.quoted || find_char(tok.text, ' ') is Some {
                    TermView::Phrase(tok.text)
                } else {
                    TermView::Word(tok.text)
                };
                Ok(PieceView::Term(if tok.negated { TermView::Not(Box::new(t)) } else { t }))
            },
        }
    }
}

/// Terms and filters of a token sequence, in order; the first bad token
/// decides the error.
pub open spec fn pieces_of(toks: Seq<TokenView>) -> Result<(Seq<TermView>, Seq<FilterView>), Seq<char>>
    decreases toks.len(),
{
    if toks.len() == 0 {
        Ok((seq![], seq![]))
    } else {
        match pieces_of(toks.drop_last()) {
            Err(m) => Err(m),
            Ok((ts, fs)) => match piece_of(toks.last()) {
                Err(m) => Err(m),
                Ok(PieceView::Term(t)) => Ok((ts.push(t), fs)),
                Ok(PieceView::Filter(f)) => Ok((ts, fs.push(f))),
            },
        }
    }
}

/// The meaning of a query string: its terms and filters, or the message of
/// the error it makes.
pub open spec fn query_of(input: Seq<char>) -> Result<(Seq<TermView>, Seq<FilterView>), Seq<char>> {
    match tokens_of(input) {
        None => Err("a quoted phrase was never closed"@),
        Some(toks) => pieces_of(toks),
    }
}

fn comparison_entry(k: usize) -> (r: (Vec<char>, Comparison))
    ensures
        r.0@ == comparison_symbol(k as int),
        r.0@.len() > 0,
        r.1 == comparison_kind(k as int),
{
    proof {
        reveal_strlit(">=");
        reveal_strlit("<=");
        reveal_strlit("!=");
        reveal_strlit(">");
        reveal_strlit("<");
    }
    if k == 0 {
        (to_chars(">="), Comparison::GreaterOrEqual)
    } else if k == 1 {
        (to_chars("<="), Comparison::LessOrEqual)
    } else if k == 2 {
        (to_chars("!="), Comparison::NotEqual)
    } else if k == 3 {
        (to_chars(">"), Comparison::Greater)
    } else {
        (to_chars("<"), Comparison::Less)
    }
}

/// Is `s` exactly the word `w`?
fn is_word(s: &String, w: &str) -> (r: bool)
    ensures
        r == (s@ == w@),
{
    chars_eq(&to_chars(s.as_str()), &to_chars(w))
}


fn structural_parse(value: &String) -> (r: Option<StructuralPredicate>)
    ensures
        r == structural_from(lowercase(value@)),
{
    let v = to_lowercase(value.as_str());
    if is_word(&v, "unresolved") {
        Some(StructuralPredicate::Unresolved)
    } else if is_word(&v, "orphan") || is_word(&v, "orphaned") {
        Some(StructuralPredicate::Orphan)
    } else if is_word(&v, "untagged") {
        Some(StructuralPredicate::Untagged)
    } else if is_word(&v, "deadend") || is_word(&v, "dead-end") {
        Some(StructuralPredicate::DeadEnd)
    } else {
        None
    }
}

fn prefixed(v: &[char], ka: usize, kb: usize, va: usize, vb: usize) -> (r: Result<Filter, String>)
    requires
        ka <= kb <= v@.len(),
        va <= vb <= v@.len(),
    ensures
        match prefixed_filter(v@.subrange(ka as int, kb as int), v@.subrange(va as int, vb as int)) {
            Ok(f) => r matches Ok(x) && filter_view(x) == f,
            Err(m) => r matches Err(x) && x@ == m,
        },
{
    let key = string_of(v, ka, kb);
    let value = string_of(v, va, vb);
    let k = to_lowercase(key.as_str());
    if is_word(&k, "tag") {
        let s = strip_leading_char(v, va, vb, '#');
        Ok(Filter::Tag(string_of(v, s, vb)))
    } else if is_word(&k, "path") || is_word(&k, "folder") {
        Ok(Filter::Path(value))
    } else if is_word(&k, "file") || is_word(&k, "name") {
        Ok(Filter::File(value))
    } else if is_word(&k, "ext") || is_word(&k, "extension") {
        let s = strip_leading_char(v, va, vb, '.');
        Ok(Filter::Extension(string_of(v, s, vb)))
    } else if is_word(&k, "section") || is_word(&k, "heading") {
        Ok(Filter::Section(value))
    } else if is_word(&k, "is") {
        match structural_parse(&value) {
            Some(p) => Ok(Filter::Is(p)),
            None => {
                let mut m = str_to_string("is:");
                m.append(value.as_str());
                m.append(" is not recognised — try unresolved, orphan, untagged or dead-end");
                Err(m)
            },
        }
    } else {
        Ok(Filter::Property { key, comparison: Comparison::Equal, value })
    }
}

fn parse_filter(text: &Vec<char>) -> (r: Result<Option<Filter>, String>)
    ensures
        match parsed_filter(text@) {
            Ok(None) => r matches Ok(None),
            Ok(Some(f)) => r matches Ok(Some(x)) && filter_view(x) == f,
            Err(m) => r matches Err(x) && x@ == m,
        },
{
    let ghost t = text@;
    let n = text.len();
    let mut k: usize = 0;
    while k < 5
        invariant
            t == text@,
            n == t.len(),
            k <= 5,
            property_comparison(t, 0) == property_comparison(t, k as int),
        decreases 5 - k,
    {
        let (sym, op) = comparison_entry(k);
        match find_seq(text, 0, n, &sym) {
            Some(index) => {
                proof {
                    lemma_find_seq_from(t, 0, n as int, sym@);
                    assert(t.take(index as int) =~= t.subrange(0, index as int));
                    assert(t.skip(index + sym@.len()) =~= t.subrange(index + sym@.len(), n as int));
                }
                let (ka, kb) = trim_range(text, 0, index);
                let (va, vb) = trim_range(text, index + sym.len(), n);
                if ka < kb && va < vb && find_char_in(text, ka, kb, ':').is_none() {
                    return Ok(Some(Filter::Property {
                        key: string_of(text, ka, kb),
                        comparison: op,
                        value: string_of(text, va, vb),
                    }));
                }
            },
            None => {},
        }
        k = k + 1;
    }
    let colon = match find_char_in(text, 0, n, ':') {
        None => {
            proof {
                assert(t.subrange(0, n as int) =~= t);
            }
            return Ok(None);
        },
        Some(i) => i,
    };
    proof {
        assert(t.subrange(0, n as int) =~= t);
        assert(t.take(colon as int) =~= t.subrange(0, colon as int));
        assert(t.skip(colon + 1) =~= t.subrange(colon + 1, n as int));
    }
    let (ka, kb) = trim_range(text, 0, colon);
    let (va, vb) = trim_range(text, colon + 1, n);
    if ka == kb {
        return Ok(None);
    }
    if va == vb {
        let mut m = string_of(text, ka, kb);
        m.append(": needs a value");
        return Err(m);
    }
    match prefixed(text, ka, kb, va, vb) {
        Ok(f) => Ok(Some(f)),
        Err(m) => Err(m),
    }
}

enum Classified {
    Term(Term),
    Filter(Filter),
}

fn classify(token: &Token) -> (r: Result<Classified, String>)
    ensures
        match piece_of(token.view()) {
            Ok(PieceView::Term(t)) => r matches Ok(Classified::Term(x)) && term_view(x) == t,
            Ok(PieceView::Filter(f)) => r matches Ok(Classified::Filter(x)) && filter_view(x) == f,
            Err(m) => r matches Err(x) && x@ == m,
        },
{
    if token.quoted && token.bare {
        let term = Term::Phrase(string_of_all(&token.text));
        if token.negated {
            let t = Term::Not(Box::new(term));
            assert(term_view(t) == TermView::Not(Box::new(term_view(term))));
            return Ok(Classified::Term(t));
        } else {
            return Ok(Classified::Term(term));
        }
    }
    match parse_filter(&token.text) {
        Err(m) => Err(m),
        Ok(Some(filter)) => {
            if token.negated {
                let f = Filter::Not(Box::new(filter));
                assert(filter_view(f) == FilterView::Not(Box::new(filter_view(filter))));
                Ok(Classified::Filter(f))
            } else {
                Ok(Classified::Filter(filter))
            }
        },
        Ok(None) => {
            let n = token.text.len();
            let has_space = find_char_in(&token.text, 0, n, ' ').is_some();
            proof {
                assert(token.text@.subrange(0, n as int) =~= token.text@);
            }
            let text = string_of_all(&token.text);
            let term = if token.quoted || has_space {
                Term::Phrase(text)
            } else {
                Term::Word(text)
            };
            if token.negated {
                let t = Term::Not(Box::new(term));
                assert(term_view(t) == TermView::Not(Box::new(term_view(term))));
                Ok(Classified::Term(t))
            } else {
                Ok(Classified::Term(term))
            }
        },
    }
}

/// Parse a query string.
pub fn parse(input: &str) -> (r: Result<Query, CoreError>)
    ensures
        match query_of(input@) {
            Ok((ts, fs)) => r matches Ok(q) && terms_view(q.terms@) == ts && filters_view(q.filters@) == fs,
            Err(m) => r matches Err(CoreError::InvalidQuery { message }) && message@ == m,
        },
{
    let tokens = match tokenize(input) {
        None => {
            return Err(CoreError::InvalidQuery { message: str_to_string("a quoted phrase was never closed") });
        },
        Some(t) => t,
    };
    let ghost tv = tokens_view(tokens@);
    let mut terms: Vec<Term> = Vec::new();
    let mut filters: Vec<Filter> = Vec::new();
    let mut i: usize = 0;
    assert(tv.take(0) =~= seq![]);
    assert(terms_view(terms@) =~= seq![]);
    assert(filters_view(filters@) =~= seq![]);
    while i < tokens.len()
        invariant
            tv == tokens_view(tokens@),
            tokens_of(input@) == Some(tv),
            i <= tokens@.len(),
            pieces_of(tv.take(i as int)) == Ok::<(Seq<TermView>, Seq<FilterView>), Seq<char>>((terms_view(terms@), filters_view(filters@))),
        decreases tokens@.len() - i,
    {
        assert(tv.take(i + 1).drop_last() =~= tv.take(i as int));
        assert(tv.take(i + 1).last() == tokens@[i as int].view());
        match classify(&tokens[i]) {
            Err(m) => {
                proof {
                    lemma_pieces_error_sticks(tv, i + 1);
                    assert(tv.take(tv.len() as int) =~= tv);
                }
                return Err(CoreError::InvalidQuery { message: m });
            },
            Ok(Classified::Term(t)) => {
                let ghost before = terms@;
                terms.push(t);
                assert(terms_view(terms@) =~= terms_view(before).push(term_view(t)));
            },
            Ok(Classified::Filter(f)) => {
                let ghost before = filters@;
                filters.push(f);
                assert(filters_view(filters@) =~= filters_view(before).push(filter_view(f)));
            },
        }
        i = i + 1;
    }
    assert(tv.take(tokens@.len() as int) =~= tv);
    Ok(Query { terms, filters })
}

/// Once a prefix of the tokens fails, every longer prefix fails the same way.
proof fn lemma_pieces_error_sticks(toks: Seq<TokenView>, n: int)
    requires
        0 <= n <= toks.len(),
        pieces_of(toks.take(n)) is Err,
    ensures
        pieces_of(toks) == pieces_of(toks.take(n)),
    decreases toks.len() - n,
{
    if n < toks.len() {
        assert(toks.take(n + 1).drop_last() =~= toks.take(n));
        lemma_pieces_error_sticks(toks, n + 1);
    } else {
        assert(toks.take(n) =~= toks);
    }
}

// ---------------------------------------------------------------------------
// The full-text expression.

/// A term's text with each `"` doubled, which is how FTS5 escapes quotes.
pub open spec fn doubled_quotes(t: Seq<char>) -> Seq<char>
    decreases t.len(),
{
    if t.len() == 0 {
        t
    } else {
        doubled_quotes(t.drop_last()) + (if t.last() == '"' { seq!['"', '"'] } else { seq![t.last()] })
    }
}

pub open spec fn fts_quoted(t: Seq<char>) -> Seq<char> {
    seq!['"'] + doubled_quotes(t) + seq!['"']
}

/// The piece of the MATCH expression one term becomes; a doubly negated
/// term contributes nothing.
pub open spec fn fts_part(t: TermView) -> Option<Seq<char>> {
    match t {
        TermView::Word(w) => Some(fts_quoted(w)),
        TermView::Phrase(p) => Some(fts_quoted(p)),
        TermView::Not(inner) => match *inner {
            TermView::Word(w) => Some("NOT "@ + fts_quoted(w)),
            TermView::Phrase(p) => Some("NOT "@ + fts_quoted(p)),
            TermView::Not(_) => None,
        },
    }
}

pub open spec fn fts_parts(ts: Seq<TermView>) -> Seq<Seq<char>>
    decreases ts.len(),
{
    if ts.len() == 0 {
        seq![]
    } else {
        match fts_part(ts.last()) {
            Some(p) => fts_parts(ts.drop_last()).push(p),
            None => fts_parts(ts.drop_last()),
        }
    }
}

/// `str::replace` with a non-empty pattern: every occurrence, scanning left
/// to right without overlaps.
pub open spec fn replaced(s: Seq<char>, pat: Seq<char>, rep: Seq<char>) -> Seq<char>
    decreases s.len(),
{
    if s.len() == 0 || pat.len() == 0 {
        s
    } else if pat.len() <= s.len() && s.take(pat.len() as int) == pat {
        rep + replaced(s.skip(pat.len() as int), pat, rep)
    } else {
        seq![s[0]] + replaced(s.drop_first(), pat, rep)
    }
}

/// Matches every indexed document: the left side of a bare negation.
pub open spec fn fts_everything() -> Seq<char> {
    "(path : \"md\" OR path : \"canvas\" OR body : \"\")"@
}

/// The FTS5 MATCH expression for a list of terms.
pub open spec fn fts_expression(ts: Seq<TermView>) -> Option<Seq<char>> {
    let parts = fts_parts(ts);
    if parts.len() == 0 {
        None
    } else {
        let all = if parts[0].len() >= 4 && parts[0].take(4) == "NOT "@ {
            seq![fts_everything()] + parts
        } else {
            parts
        };
        Some(replaced(joined(all, " AND "@), " AND NOT "@, " NOT "@))
    }
}

/// Quote a term for FTS5.
fn quote_fts(text: &String) -> (r: Vec<char>)
    ensures
        r@ == fts_quoted(text@),
{
    let t = to_chars(text.as_str());
    let mut out: Vec<char> = Vec::new();
    out.push('"');
    let mut i: usize = 0;
    while i < t.len()
        invariant
            i <= t@.len(),
            out@ == seq!['"'] + doubled_quotes(t@.take(i as int)),
        decreases t@.len() - i,
    {
        assert(t@.take(i + 1).drop_last() =~= t@.take(i as int));
        if t[i] == '"' {
            out.push('"');
            out.push('"');
        } else {
            out.push(t[i]);
        }
        i = i + 1;
        assert(out@ =~= seq!['"'] + doubled_quotes(t@.take(i as int)));
    }
    out.push('"');
    assert(t@.take(t@.len() as int) =~= t@);
    assert(out@ =~= fts_quoted(text@));
    out
}

fn push_all(out: &mut Vec<char>, v: &[char])
    ensures
        final(out)@ == old(out)@ + v@,
{
    let mut i: usize = 0;
    while i < v.len()
        invariant
            i <= v@.len(),
            out@ == old(out)@ + v@.take(i as int),
        decreases v@.len() - i,
    {
        out.push(v[i]);
        i = i + 1;
        assert(out@ =~= old(out)@ + v@.take(i as int));
    }
    assert(v@.take(v@.len() as int) =~= v@);
}

fn fts_part_of(t: &Term) -> (r: Option<Vec<char>>)
    ensures
        match fts_part(term_view(*t)) {
            Some(p) => r matches Some(x) && x@ == p,
            None => r is None,
        },
{
    proof {
        reveal_with_fuel(term_view, 2);
    }
    match t {
        Term::Word(w) => Some(quote_fts(w)),
        Term::Phrase(p) => Some(quote_fts(p)),
        Term::Not(inner) => {
            let text = match &**inner {
                Term::Word(w) => w,
                Term::Phrase(p) => p,
                Term::Not(_) => {
                    return None;
                },
            };
            let mut out = to_chars("NOT ");
            let q = quote_fts(text);
            push_all(&mut out, &q);
            Some(out)
        },
    }
}

fn replace_all(s: &Vec<char>, pat: &Vec<char>, rep: &Vec<char>) -> (r: Vec<char>)
    requires
        pat@.len() > 0,
    ensures
        r@ == replaced(s@, pat@, rep@),
{
    let mut out: Vec<char> = Vec::new();
    let mut i: usize = 0;
    assert(s@.skip(0) =~= s@);
    while i < s.len()
        invariant
            pat@.len() > 0,
            i <= s@.len(),
            replaced(s@, pat@, rep@) == out@ + replaced(s@.skip(i as int), pat@, rep@),
        decreases s@.len() - i,
    {
        let ghost rest = s@.skip(i as int);
        if starts_with_at(s, i, pat) {
            assert(rest.take(pat@.len() as int) =~= s@.subrange(i as int, i + pat@.len()));
            assert(rest.skip(pat@.len() as int) =~= s@.skip(i + pat@.len()));
            push_all(&mut out, rep);
            i = i + pat.len();
        } else {
            assert(pat@.len() <= rest.len() ==> rest.take(pat@.len() as int) =~= s@.subrange(i as int, i + pat@.len()));
            assert(rest.drop_first() =~= s@.skip(i + 1));
            assert(rest[0] == s@[i as int]);
            out.push(s[i]);
            i = i + 1;
        }
        assert(out@ + replaced(s@.skip(i as int), pat@, rep@) == replaced(s@, pat@, rep@));
    }
    assert(s@.skip(i as int) =~= Seq::<char>::empty());
    assert(out@ + Seq::<char>::empty() =~= out@);
    out
}

fn join_parts(parts: &Vec<Vec<char>>, sep: &Vec<char>) -> (r: Vec<char>)
    ensures
        r@ == joined(parts@.map_values(|p: Vec<char>| p@), sep@),
{
    let ghost pv = parts@.map_values(|p: Vec<char>| p@);
    let mut out: Vec<char> = Vec::new();
    let mut i: usize = 0;
    while i < parts.len()
        invariant
            pv == parts@.map_values(|p: Vec<char>| p@),
            i <= parts@.len(),
            out@ == joined(pv.take(i as int), sep@),
        decreases parts@.len() - i,
    {
        assert(pv.take(i + 1).drop_last() =~= pv.take(i as int));
        if i > 0 {
            push_all(&mut out, sep);
        }
        push_all(&mut out, &parts[i]);
        i = i + 1;
        assert(out@ =~= joined(pv.take(i as int), sep@));
    }
    assert(pv.take(parts@.len() as int) =~= pv);
    out
}

impl Query {
    /// True when the query asks for nothing, so callers can show recents
    /// rather than running an empty search.
    pub fn is_empty(&self) -> (r: bool)
        ensures
            r == (self.terms@.len() == 0 && self.filters@.len() == 0),
    {
        self.terms.len() == 0 && self.filters.len() == 0
    }

    /// True when only the full-text side has work.
    pub fn is_text_only(&self) -> (r: bool)
        ensures
            r == (self.filters@.len() == 0 && self.terms@.len() > 0),
    {
        self.filters.len() == 0 && self.terms.len() > 0
    }

    /// Render the FTS5 MATCH expression, or `None` when there are no terms.
    ///
    /// Everything is quoted, so a user typing `AND`, `*` or `"` gets a
    /// literal search rather than a syntax error from SQLite.
    pub fn to_fts_expression(&self) -> (r: Option<String>)
        ensures
            match fts_expression(terms_view(self.terms@)) {
                Some(e) => r matches Some(x) && x@ == e,
                None => r is None,
            },
    {
        let ghost tv = terms_view(self.terms@);
        let mut parts: Vec<Vec<char>> = Vec::new();
        let mut i: usize = 0;
        assert(tv.take(0) =~= seq![]);
        assert(parts@.map_values(|p: Vec<char>| p@) =~= seq![]);
        while i < self.terms.len()
            invariant
                tv == terms_view(self.terms@),
                i <= self.terms@.len(),
                parts@.map_values(|p: Vec<char>| p@) == fts_parts(tv.take(i as int)),
            decreases self.terms@.len() - i,
        {
            assert(tv.take(i + 1).drop_last() =~= tv.take(i as int));
            let ghost before = parts@;
            match fts_part_of(&self.terms[i]) {
                Some(p) => {
                    parts.push(p);
                    assert(parts@.map_values(|p: Vec<char>| p@) =~= before.map_values(|p: Vec<char>| p@).push(parts@.last()@));
                },
                None => {},
            }
            i = i + 1;
        }
        assert(tv.take(self.terms@.len() as int) =~= tv);
        if parts.len() == 0 {
            return None;
        }
        let ghost pv = parts@.map_values(|p: Vec<char>| p@);
        let not_prefix = to_chars("NOT ");
        proof {
            reveal_strlit("NOT ");
        }
        let leading_not = parts[0].len() >= 4 && starts_with_at(&parts[0], 0, &not_prefix);
        proof {
            assert(pv[0] == parts@[0]@);
            if parts@[0]@.len() >= 4 {
                assert(parts@[0]@.take(4) =~= parts@[0]@.subrange(0, 4));
            }
        }
        if leading_not {
            let everything = to_chars("(path : \"md\" OR path : \"canvas\" OR body : \"\")");
            parts.insert(0, everything);
            assert(parts@.map_values(|p: Vec<char>| p@) =~= seq![fts_everything()] + pv);
        }
        let joined_text = join_parts(&parts, &to_chars(" AND "));
        proof {
            reveal_strlit(" AND NOT ");
        }
        let out = replace_all(&joined_text, &to_chars(" AND NOT "), &to_chars(" NOT "));
        Some(string_of_all(&out))
    }
}

impl Default for Query {
    fn default() -> (q: Query)
        ensures
            q.terms@.len() == 0,
            q.filters@.len() == 0,
    {
        Query { terms: Vec::new(), filters: Vec::new() }
    }
}

// ---------------------------------------------------------------------------
// SQL for filters.

/// A bound parameter of a filter's SQL.
#[derive(Debug, PartialEq, Eq)]
pub enum SqlParam {
    Text(String),
    /// A value written in the syntax of a floating-point number; the host
    /// binds it as a REAL.
    Number(String),
    /// A count or an offset, bound as an INTEGER.
    Integer(i64),
}

pub enum SqlParamView {
    Text(Seq<char>),
    Number(Seq<char>),
    Integer(i64),
}

pub open spec fn sql_param_view(p: SqlParam) -> SqlParamView {
    match p {
        SqlParam::Text(t) => SqlParamView::Text(t@),
        SqlParam::Number(t) => SqlParamView::Number(t@),
        SqlParam::Integer(n) => SqlParamView::Integer(n),
    }
}

pub open spec fn sql_params_view(ps: Seq<SqlParam>) -> Seq<SqlParamView> {
    ps.map_values(|p: SqlParam| sql_param_view(p))
}

pub open spec fn comparison_sql(c: Comparison) -> Seq<char> {
    match c {
        Comparison::Equal => "="@,
        Comparison::NotEqual => "<>"@,
        Comparison::Greater => ">"@,
        Comparison::GreaterOrEqual => ">="@,
        Comparison::Less => "<"@,
        Comparison::LessOrEqual => "<="@,
    }
}

impl Comparison {
    fn sql(self) -> (r: &'static str)
        ensures
            r@ == comparison_sql(self),
    {
        match self {
            Comparison::Equal => "=",
            Comparison::NotEqual => "<>",
            Comparison::Greater => ">",
            Comparison::GreaterOrEqual => ">=",
            Comparison::Less => "<",
            Comparison::LessOrEqual => "<=",
        }
    }
}

/// LIKE's wildcards and its escape character, escaped with `\`.
pub open spec fn like_escaped(s: Seq<char>) -> Seq<char>
    decreases s.len(),
{
    if s.len() == 0 {
        s
    } else {
        let c = s.last();
        like_escaped(s.drop_last()) + (if c == '\\' || c == '%' || c == '_' { seq!['\\', c] } else { seq![c] })
    }
}

pub(crate) fn escape_like(input: &String) -> (r: String)
    ensures
        r@ == like_escaped(input@),
{
    let v = to_chars(input.as_str());
    let mut out: Vec<char> = Vec::new();
    let mut i: usize = 0;
    while i < v.len()
        invariant
            i <= v@.len(),
            out@ == like_escaped(v@.take(i as int)),
        decreases v@.len() - i,
    {
        assert(v@.take(i + 1).drop_last() =~= v@.take(i as int));
        let c = v[i];
        if c == '\\' || c == '%' || c == '_' {
            out.push('\\');
        }
        out.push(c);
        i = i + 1;
        assert(out@ =~= like_escaped(v@.take(i as int)));
    }
    assert(v@.take(v@.len() as int) =~= v@);
    string_of_all(&out)
}

pub open spec fn is_digit(c: char) -> bool {
    '0' <= c <= '9'
}

pub open spec fn all_digits(s: Seq<char>) -> bool {
    forall|i: int| 0 <= i < s.len() ==> is_digit(#[trigger] s[i])
}

pub open spec fn without_sign(s: Seq<char>) -> Seq<char> {
    if s.len() > 0 && (s[0] == '+' || s[0] == '-') {
        s.drop_first()
    } else {
        s
    }
}

/// `Digit+ | Digit+ '.' Digit* | Digit* '.' Digit+`
pub open spec fn mantissa_syntax(m: Seq<char>) -> bool {
    match find_char(m, '.') {
        None => m.len() > 0 && all_digits(m),
        Some(d) => m.len() > 1 && all_digits(m.take(d)) && all_digits(m.skip(d + 1)),
    }
}

/// The first `e` or `E`.
pub open spec fn exponent_mark(s: Seq<char>) -> Option<int>
    decreases s.len(),
{
    if s.len() == 0 {
        None
    } else if s[0] == 'e' || s[0] == 'E' {
        Some(0)
    } else {
        match exponent_mark(s.drop_first()) {
            Some(i) => Some(i + 1),
            None => None,
        }
    }
}

/// The syntax `f64::from_str` accepts, as its documentation gives it:
/// `Sign? ( 'inf' | 'infinity' | 'nan' | Number )` with
/// `Number ::= Mantissa ( 'e' Sign? Digit+ )?`, letters in either case.
pub open spec fn float_syntax(s: Seq<char>) -> bool {
    let b = without_sign(s);
    let l = crate::strings::ascii_lower_seq(b);
    l == "inf"@ || l == "infinity"@ || l == "nan"@ || match exponent_mark(b) {
        None => mantissa_syntax(b),
        Some(e) => mantissa_syntax(b.take(e)) && {
            let x = without_sign(b.skip(e + 1));
            x.len() > 0 && all_digits(x)
        },
    }
}

fn digits_in(v: &[char], a: usize, b: usize) -> (r: bool)
    requires
        a <= b <= v@.len(),
    ensures
        r == all_digits(v@.subrange(a as int, b as int)),
{
    let mut i = a;
    while i < b
        invariant
            a <= i <= b <= v@.len(),
            forall|k: int| a <= k < i ==> is_digit(#[trigger] v@[k]),
        decreases b - i,
    {
        if !('0' <= v[i] && v[i] <= '9') {
            assert(!is_digit(v@.subrange(a as int, b as int)[i - a]));
            return false;
        }
        i = i + 1;
    }
    assert forall|k: int| 0 <= k < b - a implies is_digit(#[trigger] v@.subrange(a as int, b as int)[k]) by {
        assert(v@.subrange(a as int, b as int)[k] == v@[a + k]);
    }
    true
}

fn mantissa_ok(v: &[char], a: usize, b: usize) -> (r: bool)
    requires
        a <= b <= v@.len(),
    ensures
        r == mantissa_syntax(v@.subrange(a as int, b as int)),
{
    let ghost m = v@.subrange(a as int, b as int);
    match find_char_in(v, a, b, '.') {
        None => a < b && digits_in(v, a, b),
        Some(d) => {
            assert(m.take(d - a) =~= v@.subrange(a as int, d as int));
            assert(m.skip(d - a + 1) =~= v@.subrange(d + 1, b as int));
            b - a > 1 && digits_in(v, a, d) && digits_in(v, d + 1, b)
        },
    }
}

proof fn lemma_exponent_mark(s: Seq<char>, k: int)
    requires
        0 <= k <= s.len(),
        forall|j: int| 0 <= j < k ==> s[j] != 'e' && s[j] != 'E',
    ensures
        exponent_mark(s) == (if k == s.len() {
            None::<int>
        } else if s[k] == 'e' || s[k] == 'E' {
            Some(k)
        } else {
            match exponent_mark(s.skip(k + 1)) {
                Some(i) => Some(i + k + 1),
                None => None,
            }
        }),
    decreases k,
{
    if k > 0 {
        lemma_exponent_mark(s.drop_first(), k - 1);
        if k < s.len() {
            assert(s.drop_first().skip(k) =~= s.skip(k + 1));
        }
    } else if s.len() > 0 {
        assert(s.drop_first() =~= s.skip(1));
    }
}

/// Whether `v` is written as `f64::from_str` accepts.
fn is_float_syntax(v: &[char]) -> (r: bool)
    ensures
        r == float_syntax(v@),
{
    let n = v.len();
    let a: usize = if n > 0 && (v[0] == '+' || v[0] == '-') { 1 } else { 0 };
    let ghost b = without_sign(v@);
    assert(b =~= v@.subrange(a as int, n as int));
    let lower = crate::strings::to_ascii_lowercase(&v[a..n]);
    proof {
        assert(v@.subrange(a as int, n as int) =~= b);
    }
    if chars_eq(&lower, &to_chars("inf")) || chars_eq(&lower, &to_chars("infinity")) || chars_eq(&lower, &to_chars("nan")) {
        return true;
    }
    let mut e = a;
    while e < n && v[e] != 'e' && v[e] != 'E'
        invariant
            a <= e <= n == v@.len(),
            forall|j: int| a <= j < e ==> v@[j] != 'e' && v@[j] != 'E',
        decreases n - e,
    {
        e = e + 1;
    }
    proof {
        lemma_exponent_mark(b, e - a);
    }
    if e == n {
        proof {
            assert(b.len() == e - a);
        }
        mantissa_ok(v, a, n)
    } else {
        assert(b.take(e - a) =~= v@.subrange(a as int, e as int));
        let ghost x0 = b.skip(e - a + 1);
        assert(x0 =~= v@.subrange(e + 1, n as int));
        let xa: usize = if e + 1 < n && (v[e + 1] == '+' || v[e + 1] == '-') { e + 2 } else { e + 1 };
        assert(without_sign(x0) =~= v@.subrange(xa as int, n as int));
        mantissa_ok(v, a, e) && xa < n && digits_in(v, xa, n)
    }
}

/// The SQL condition over `files f` a filter stands for, with its bound
/// parameters.
pub open spec fn filter_sql_of(f: FilterView) -> (Seq<char>, Seq<SqlParamView>)
    decreases f,
{
    match f {
        FilterView::Tag(tag) => {
            let fold = lowercase(tag);
            (
                "EXISTS (SELECT 1 FROM tags t WHERE t.file_id = f.id AND (t.tag_fold = ? OR t.tag_fold LIKE ? ESCAPE '\\'))"@,
                seq![SqlParamView::Text(fold), SqlParamView::Text(like_escaped(fold) + "/%"@)],
            )
        },
        FilterView::Path(path) => (
            "f.path_fold LIKE ? ESCAPE '\\'"@,
            seq![SqlParamView::Text("%"@ + like_escaped(lowercase(path)) + "%"@)],
        ),
        FilterView::File(name) => (
            "f.name_fold LIKE ? ESCAPE '\\'"@,
            seq![SqlParamView::Text("%"@ + like_escaped(lowercase(name)) + "%"@)],
        ),
        FilterView::Extension(ext) => ("f.ext = ?"@, seq![SqlParamView::Text(lowercase(ext))]),
        FilterView::Section(section) => (
            "EXISTS (SELECT 1 FROM headings h WHERE h.file_id = f.id AND lower(h.text) LIKE ? ESCAPE '\\')"@,
            seq![SqlParamView::Text("%"@ + like_escaped(lowercase(section)) + "%"@)],
        ),
        FilterView::Property { key, comparison, value } => {
            // A numeric-looking value compares numerically, which is what
            // makes `rating>7` behave like arithmetic rather than like string
            // order where "10" sorts before "9".
            if float_syntax(value) {
                (
                    "EXISTS (SELECT 1 FROM properties p WHERE p.file_id = f.id AND p.key_fold = ? AND p.num_value IS NOT NULL AND p.num_value "@
                        + comparison_sql(comparison) + " ?)"@,
                    seq![SqlParamView::Text(lowercase(key)), SqlParamView::Number(value)],
                )
            } else {
                (
                    "EXISTS (SELECT 1 FROM properties p WHERE p.file_id = f.id AND p.key_fold = ? AND p.text_fold "@
                        + comparison_sql(comparison) + " ?)"@,
                    seq![SqlParamView::Text(lowercase(key)), SqlParamView::Text(lowercase(value))],
                )
            }
        },
        FilterView::Is(StructuralPredicate::Unresolved) => (
            "EXISTS (SELECT 1 FROM links l WHERE l.file_id = f.id AND l.target_file_id IS NULL AND l.kind <> 'external' AND l.target_text <> '')"@,
            seq![],
        ),
        FilterView::Is(StructuralPredicate::Orphan) => (
            "NOT EXISTS (SELECT 1 FROM links l WHERE l.target_file_id = f.id)"@,
            seq![],
        ),
        FilterView::Is(StructuralPredicate::Untagged) => (
            "NOT EXISTS (SELECT 1 FROM tags t WHERE t.file_id = f.id)"@,
            seq![],
        ),
        FilterView::Is(StructuralPredicate::DeadEnd) => (
            "NOT EXISTS (SELECT 1 FROM links l WHERE l.file_id = f.id AND l.kind <> 'external')"@,
            seq![],
        ),
        FilterView::Not(inner) => {
            let (sql, params) = filter_sql_of(*inner);
            ("NOT ("@ + sql + ")"@, params)
        },
    }
}

fn text_param(t: String) -> (r: SqlParam)
    ensures
        sql_param_view(r) == SqlParamView::Text(t@),
{
    SqlParam::Text(t)
}

/// `%text%` with LIKE's wildcards in `text` escaped, lowercased first.
pub(crate) fn contains_pattern(text: &String) -> (r: String)
    ensures
        r@ == "%"@ + like_escaped(lowercase(text@)) + "%"@,
{
    let mut r = str_to_string("%");
    let e = escape_like(&to_lowercase(text.as_str()));
    r.append(e.as_str());
    r.append("%");
    r
}

/// SQL for one filter: a condition over `files f` plus its bound parameters.
pub fn filter_sql(filter: &Filter) -> (r: (String, Vec<SqlParam>))
    ensures
        (r.0@, sql_params_view(r.1@)) == filter_sql_of(filter_view(*filter)),
    decreases filter,
{
    match filter {
        Filter::Tag(tag) => {
            let fold = to_lowercase(tag.as_str());
            let mut like = escape_like(&fold);
            like.append("/%");
            let params = vec![text_param(fold), text_param(like)];
            assert(sql_params_view(params@) =~= filter_sql_of(filter_view(*filter)).1);
            (str_to_string("EXISTS (SELECT 1 FROM tags t WHERE t.file_id = f.id AND (t.tag_fold = ? OR t.tag_fold LIKE ? ESCAPE '\\'))"), params)
        },
        Filter::Path(path) => {
            let params = vec![text_param(contains_pattern(path))];
            assert(sql_params_view(params@) =~= filter_sql_of(filter_view(*filter)).1);
            (str_to_string("f.path_fold LIKE ? ESCAPE '\\'"), params)
        },
        Filter::File(name) => {
            let params = vec![text_param(contains_pattern(name))];
            assert(sql_params_view(params@) =~= filter_sql_of(filter_view(*filter)).1);
            (str_to_string("f.name_fold LIKE ? ESCAPE '\\'"), params)
        },
        Filter::Extension(ext) => {
            let params = vec![text_param(to_lowercase(ext.as_str()))];
            assert(sql_params_view(params@) =~= filter_sql_of(filter_view(*filter)).1);
            (str_to_string("f.ext = ?"), params)
        },
        Filter::Section(section) => {
            let params = vec![text_param(contains_pattern(section))];
            assert(sql_params_view(params@) =~= filter_sql_of(filter_view(*filter)).1);
            (str_to_string("EXISTS (SELECT 1 FROM headings h WHERE h.file_id = f.id AND lower(h.text) LIKE ? ESCAPE '\\')"), params)
        },
        Filter::Property { key, comparison, value } => {
            let key_fold = to_lowercase(key.as_str());
            if is_float_syntax(&to_chars(value.as_str())) {
                let mut sql = str_to_string("EXISTS (SELECT 1 FROM properties p WHERE p.file_id = f.id AND p.key_fold = ? AND p.num_value IS NOT NULL AND p.num_value ");
                sql.append(comparison.sql());
                sql.append(" ?)");
                let params = vec![text_param(key_fold), SqlParam::Number(clone_string(value))];
                assert(sql_params_view(params@) =~= filter_sql_of(filter_view(*filter)).1);
                (sql, params)
            } else {
                let mut sql = str_to_string("EXISTS (SELECT 1 FROM properties p WHERE p.file_id = f.id AND p.key_fold = ? AND p.text_fold ");
                sql.append(comparison.sql());
                sql.append(" ?)");
                let params = vec![text_param(key_fold), text_param(to_lowercase(value.as_str()))];
                assert(sql_params_view(params@) =~= filter_sql_of(filter_view(*filter)).1);
                (sql, params)
            }
        },
        Filter::Is(StructuralPredicate::Unresolved) => {
            let params: Vec<SqlParam> = Vec::new();
            assert(sql_params_view(params@) =~= seq![]);
            (str_to_string("EXISTS (SELECT 1 FROM links l WHERE l.file_id = f.id AND l.target_file_id IS NULL AND l.kind <> 'external' AND l.target_text <> '')"), params)
        },
        Filter::Is(StructuralPredicate::Orphan) => {
            let params: Vec<SqlParam> = Vec::new();
            assert(sql_params_view(params@) =~= seq![]);
            (str_to_string("NOT EXISTS (SELECT 1 FROM links l WHERE l.target_file_id = f.id)"), params)
        },
        Filter::Is(StructuralPredicate::Untagged) => {
            let params: Vec<SqlParam> = Vec::new();
            assert(sql_params_view(params@) =~= seq![]);
            (str_to_string("NOT EXISTS (SELECT 1 FROM tags t WHERE t.file_id = f.id)"), params)
        },
        Filter::Is(StructuralPredicate::DeadEnd) => {
            let params: Vec<SqlParam> = Vec::new();
            assert(sql_params_view(params@) =~= seq![]);
            (str_to_string("NOT EXISTS (SELECT 1 FROM links l WHERE l.file_id = f.id AND l.kind <> 'external')"), params)
        },
        Filter::Not(inner) => {
            let (sql, params) = filter_sql(inner);
            let mut out = str_to_string("NOT (");
            out.append(sql.as_str());
            out.append(")");
            (out, params)
        },
    }
}

proof fn lemma_blank_lexes_to_nothing(s: Seq<char>, i: int)
    requires
        0 <= i <= s.len(),
        forall|k: int| 0 <= k < s.len() ==> is_ws(#[trigger] s[k]),
    ensures
        lex_from(s, i, lexer_start()) == lexer_start(),
    decreases s.len() - i,
{
    if i < s.len() {
        assert(is_ws(s[i]));
        assert(s[i] != '"');
        lemma_blank_lexes_to_nothing(s, i + 1);
    }
}

/// A query of nothing but whitespace parses to the empty query rather than
/// an error.
pub proof fn law_blank_query_is_empty(input: Seq<char>)
    requires
        forall|k: int| 0 <= k < input.len() ==> is_ws(#[trigger] input[k]),
    ensures
        query_of(input) == Ok::<(Seq<TermView>, Seq<FilterView>), Seq<char>>((seq![], seq![])),
{
    lemma_blank_lexes_to_nothing(input, 0);
}

} // verus!
