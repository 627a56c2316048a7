//! `VaultPath`: how everything in the system names a file.
//!
//! A vault path is relative to the vault root, `/`-separated on every
//! platform, free of `.` and `..` components and of empty components, and its
//! components are in Unicode normalisation form C.
use vstd::prelude::*;
use vstd::string::StrSliceExecFns;
use crate::strings::{
    ascii_lower_seq, blen, boff, chars_eq, clone_string, find_char, find_char_in, has_prefix_at,
    is_whitespace, lemma_boff_full, lemma_boff_mono, lemma_boff_step, lemma_find_char,
    lemma_find_char_at, lemma_rfind_char_at, lemma_blen_bound, lemma_trim_start_at, nfc, lowercase, push_char,
    push_str, rfind_char, rfind_char_in, starts_with_at, str_to_string, string_of, string_of_all,
    to_ascii_lowercase, to_chars, to_lowercase, to_nfc, trim_start, trim_start_len, is_ws, char_width,
};
use crate::error::{CoreError, Result};

verus! {

/// The app's private directory inside a vault.
pub const APP_DIR: &'static str = ".inner-empire";

/// The longest a single path component may be, in bytes.
pub const MAX_SEGMENT_BYTES: usize = 255;

// ---------------------------------------------------------------------------
// The model: splitting and joining on '/'.

/// Backslashes read as separators.
pub open spec fn unify(s: Seq<char>) -> Seq<char> {
    Seq::new(s.len(), |i: int| if s[i] == '\\' { '/' } else { s[i] })
}

/// `str::split('/')`.
pub open spec fn split(s: Seq<char>) -> Seq<Seq<char>>
    decreases s.len(),
{
    match find_char(s, '/') {
        None => seq![s],
        Some(i) => {
            proof {
                lemma_find_char(s, '/');
            }
            seq![s.take(i)] + split(s.skip(i + 1))
        },
    }
}

/// `join("/")`.
pub open spec fn join(v: Seq<Seq<char>>) -> Seq<char>
    decreases v.len(),
{
    if v.len() == 0 {
        seq![]
    } else if v.len() == 1 {
        v[0]
    } else {
        v[0] + seq!['/'] + join(v.drop_first())
    }
}

pub proof fn lemma_join_push(v: Seq<Seq<char>>, x: Seq<char>)
    ensures
        join(v.push(x)) == if v.len() == 0 { x } else { join(v) + seq!['/'] + x },
    decreases v.len(),
{
    if v.len() == 0 {
    } else if v.len() == 1 {
        assert(v.push(x).drop_first() =~= seq![x]);
        assert(join(seq![x]) == x);
    } else {
        assert(v.push(x).drop_first() =~= v.drop_first().push(x));
        lemma_join_push(v.drop_first(), x);
        assert(join(v.push(x)) =~= join(v) + seq!['/'] + x);
    }
}

/// Non-empty pieces without a separator survive a join and a split.
pub proof fn lemma_split_join(v: Seq<Seq<char>>)
    requires
        v.len() > 0,
        forall|k: int| 0 <= k < v.len() ==> find_char(#[trigger] v[k], '/') is None,
    ensures
        split(join(v)) == v,
    decreases v.len(),
{
    if v.len() == 1 {
        assert(split(v[0]) == seq![v[0]]);
        assert(seq![v[0]] =~= v);
    } else {
        let s = join(v);
        let first = v[0];
        lemma_find_char(first, '/');
        assert forall|j: int| 0 <= j < first.len() implies s[j] != '/' by {
            assert(s[j] == first[j]);
        }
        lemma_find_char_at(s, '/', first.len() as int);
        assert(s.take(first.len() as int) =~= first);
        assert(s.skip(first.len() as int + 1) =~= join(v.drop_first()));
        lemma_split_join(v.drop_first());
        assert(seq![first] + v.drop_first() =~= v);
    }
}

/// The components of a path that are not empty.
pub open spec fn nonempty(v: Seq<Seq<char>>) -> Seq<Seq<char>>
    decreases v.len(),
{
    if v.len() == 0 {
        seq![]
    } else if v[0].len() == 0 {
        nonempty(v.drop_first())
    } else {
        seq![v[0]] + nonempty(v.drop_first())
    }
}

/// The segments of a path, as `VaultPath::segments` yields them.
pub open spec fn segments_of(s: Seq<char>) -> Seq<Seq<char>> {
    nonempty(split(s))
}

// ---------------------------------------------------------------------------
// Segment validation.

pub open spec fn forbidden(c: char) -> bool {
    c == '<' || c == '>' || c == ':' || c == '"' || c == '|' || c == '?' || c == '*' || c == '/'
        || c == '\\'
}

pub open spec fn control(c: char) -> bool {
    (c as u32) < 0x20 || c == '\x7f'
}

/// `{c:?}` for a character that may be forbidden.
pub open spec fn debug_char(c: char) -> Seq<char> {
    if c == '\\' {
        seq!['\'', '\\', '\\', '\'']
    } else {
        seq!['\'', c, '\'']
    }
}

/// Index of the first forbidden character.
pub open spec fn find_forbidden(s: Seq<char>) -> Option<int>
    decreases s.len(),
{
    if s.len() == 0 {
        None
    } else if forbidden(s[0]) {
        Some(0)
    } else {
        match find_forbidden(s.drop_first()) {
            Some(i) => Some(i + 1),
            None => None,
        }
    }
}

pub open spec fn has_control(s: Seq<char>) -> bool {
    exists|i: int| 0 <= i < s.len() && control(#[trigger] s[i])
}

/// The reserved MS-DOS device names, in lower case.
pub open spec fn reserved(s: Seq<char>) -> bool {
    ||| s == seq!['c', 'o', 'n']
    ||| s == seq!['p', 'r', 'n']
    ||| s == seq!['a', 'u', 'x']
    ||| s == seq!['n', 'u', 'l']
    ||| (s.len() == 4 && ((s[0] == 'c' && s[1] == 'o' && s[2] == 'm') || (s[0] == 'l' && s[1]
        == 'p' && s[2] == 't')) && '1' <= s[3] && s[3] <= '9')
}

/// The lower-cased part of a name before its first dot (a leading dot keeps
/// the whole name).
pub open spec fn stem_lower(s: Seq<char>) -> Seq<char> {
    match find_char(s, '.') {
        Some(i) => if i == 0 {
            ascii_lower_seq(s)
        } else {
            ascii_lower_seq(s.take(i))
        },
        None => ascii_lower_seq(s),
    }
}

/// Why a single component is unusable, or `None` when it is usable.
pub open spec fn segment_problem(s: Seq<char>) -> Option<Seq<char>> {
    if s.len() == 0 {
        Some("a name may not be empty"@)
    } else if blen(s) > 255 {
        Some("a name may be at most 255 bytes long"@)
    } else if find_forbidden(s) is Some {
        Some("the character "@ + debug_char(s[find_forbidden(s)->0]) + " is not allowed"@)
    } else if has_control(s) {
        Some("control characters are not allowed"@)
    } else if s.last() == ' ' || s.last() == '.' {
        Some("a name may not end with a space or a dot"@)
    } else if s == seq!['.'] || s == seq!['.', '.'] {
        Some("'.' and '..' are not usable names"@)
    } else if reserved(stem_lower(s)) {
        Some(stem_lower(s) + " is a reserved device name on Windows"@)
    } else {
        None
    }
}

/// Every component of a (non-root) path is usable.
pub open spec fn is_valid_path(s: Seq<char>) -> bool {
    s.len() == 0 || forall|k: int|
        0 <= k < split(s).len() ==> segment_problem(#[trigger] split(s)[k]) is None
}

// ---------------------------------------------------------------------------
// Parsing.

pub open spec fn dotdot_reason() -> Seq<char> {
    "a vault path may not contain '..'"@
}

/// Walk the raw components: skip empty and `.`, refuse `..`, normalise and
/// validate the rest. An error is `(name, reason)`.
pub open spec fn parse_segs(raws: Seq<Seq<char>>, input: Seq<char>) -> core::result::Result<
    Seq<Seq<char>>,
    (Seq<char>, Seq<char>),
>
    decreases raws.len(),
{
    if raws.len() == 0 {
        Ok(seq![])
    } else {
        let raw = raws[0];
        if raw.len() == 0 || raw == seq!['.'] {
            parse_segs(raws.drop_first(), input)
        } else if raw == seq!['.', '.'] {
            Err((input, dotdot_reason()))
        } else {
            let n = nfc(raw);
            match segment_problem(n) {
                Some(r) => Err((n, r)),
                None => match parse_segs(raws.drop_first(), input) {
                    Ok(v) => Ok(seq![n] + v),
                    Err(e) => Err(e),
                },
            }
        }
    }
}

/// What `VaultPath::parse` yields for `input`.
pub open spec fn parse_spec(input: Seq<char>) -> core::result::Result<
    Seq<char>,
    (Seq<char>, Seq<char>),
> {
    match parse_segs(split(unify(input)), input) {
        Ok(v) => Ok(join(v)),
        Err(e) => Err(e),
    }
}

pub open spec fn chain(
    done: Seq<Seq<char>>,
    r: core::result::Result<Seq<Seq<char>>, (Seq<char>, Seq<char>)>,
) -> core::result::Result<Seq<Seq<char>>, (Seq<char>, Seq<char>)> {
    match r {
        Ok(v) => Ok(done + v),
        Err(e) => Err(e),
    }
}

/// An `InvalidName` failure carrying exactly `(name, reason)`.
pub open spec fn invalid_name_is(e: CoreError, name: Seq<char>, reason: Seq<char>) -> bool {
    match e {
        CoreError::InvalidName { name: n, reason: r } => n@ == name && r@ == reason,
        _ => false,
    }
}

/// A result of `VaultPath::parse`-like operations, compared with its model.
pub open spec fn path_result_is(
    r: Result<VaultPath>,
    m: core::result::Result<Seq<char>, (Seq<char>, Seq<char>)>,
) -> bool {
    match (r, m) {
        (Ok(p), Ok(v)) => p@ == v,
        (Err(e), Err((n, rs))) => invalid_name_is(e, n, rs),
        _ => false,
    }
}

// ---------------------------------------------------------------------------
// Sanitising.

pub open spec fn clean_char(c: char) -> char {
    if forbidden(c) || control(c) {
        '-'
    } else {
        c
    }
}

pub open spec fn clean(s: Seq<char>) -> Seq<char> {
    Seq::new(s.len(), |i: int| clean_char(s[i]))
}

/// Length once trailing spaces and dots are popped.
pub open spec fn strip_end_len(s: Seq<char>) -> nat
    decreases s.len(),
{
    if s.len() > 0 && (s.last() == ' ' || s.last() == '.') {
        strip_end_len(s.drop_last())
    } else {
        s.len()
    }
}

/// Length of the longest prefix of at most 255 bytes.
pub open spec fn fit_len(s: Seq<char>) -> nat
    decreases s.len(),
{
    if blen(s) <= 255 {
        s.len()
    } else if s.len() == 0 {
        0
    } else {
        fit_len(s.drop_last())
    }
}

/// A name cut to 255 bytes, then stripped of trailing spaces and dots.
pub open spec fn fit_and_strip(s: Seq<char>) -> Seq<char> {
    let f = s.take(fit_len(s) as int);
    f.take(strip_end_len(f) as int)
}

/// What `sanitize_segment` returns: cleaned, normalised and cleaned again
/// (normalisation may not bring back what cleaning removed), cut to 255
/// bytes, trailing spaces and dots and leading whitespace removed, a reserved
/// device name prefixed with `_` (and cut and stripped again, should the
/// prefix push it over), or `Untitled` when nothing is left.
pub open spec fn sanitize_spec(input: Seq<char>) -> Seq<char> {
    let a = clean(nfc(clean(input)));
    let c = trim_start(fit_and_strip(a));
    if c.len() == 0 {
        "Untitled"@
    } else {
        let d = if reserved(stem_lower(c)) {
            seq!['_'] + c
        } else {
            c
        };
        fit_and_strip(d)
    }
}

/// A location inside a vault.
#[derive(Debug, PartialOrd, Ord, Hash)]
pub struct VaultPath(String);

impl View for VaultPath {
    type V = Seq<char>;

    closed spec fn view(&self) -> Seq<char> {
        self.0@
    }
}

impl Clone for VaultPath {
    fn clone(&self) -> (r: Self)
        ensures
            r@ == self@,
    {
        VaultPath(self.0.clone())
    }
}

impl PartialEq for VaultPath {
    fn eq(&self, other: &Self) -> (r: bool) {
        self.0 == other.0
    }
}

impl Eq for VaultPath {

}

impl vstd::std_specs::cmp::PartialEqSpecImpl for VaultPath {
    open spec fn obeys_eq_spec() -> bool {
        true
    }

    open spec fn eq_spec(&self, other: &Self) -> bool {
        self@ == other@
    }
}

impl Default for VaultPath {
    fn default() -> (r: Self)
        ensures
            r@ == Seq::<char>::empty(),
    {
        VaultPath::root()
    }
}

/// Why `validate_segment` refuses `v`, as the model states it.
fn segment_problem_exec(v: &[char]) -> (r: Option<String>)
    ensures
        match r {
            Some(x) => segment_problem(v@) == Some(x@),
            None => segment_problem(v@) is None,
        },
{
    if v.len() == 0 {
        return Some(str_to_string("a name may not be empty"));
    }
    if exceeds_bytes(v, 255) {
        return Some(str_to_string("a name may be at most 255 bytes long"));
    }
    // forbidden characters
    let mut i: usize = 0;
    while i < v.len()
        invariant
            0 <= i <= v@.len(),
            v@.len() > 0,
            !(blen(v@) > 255),
            forall|k: int| 0 <= k < i ==> !forbidden(#[trigger] v@[k]),
        decreases v@.len() - i,
    {
        let c = v[i];
        if is_forbidden(c) {
            proof {
                lemma_find_forbidden_at(v@, i as int);
            }
            let mut msg = str_to_string("the character ");
            if c == '\\' {
                push_str(&mut msg, "'\\\\'");
                proof {
                    reveal_strlit("'\\\\'");
                }
                assert(msg@ =~= "the character "@ + debug_char(c));
            } else {
                push_char(&mut msg, '\'');
                push_char(&mut msg, c);
                push_char(&mut msg, '\'');
                assert(msg@ =~= "the character "@ + debug_char(c));
            }
            push_str(&mut msg, " is not allowed");
            return Some(msg);
        }
        i = i + 1;
    }
    proof {
        lemma_find_forbidden_at(v@, v@.len() as int);
    }
    let mut j: usize = 0;
    while j < v.len()
        invariant
            0 <= j <= v@.len(),
            v@.len() > 0,
            !(blen(v@) > 255),
            find_forbidden(v@) is None,
            forall|k: int| 0 <= k < j ==> !control(#[trigger] v@[k]),
        decreases v@.len() - j,
    {
        let code: u32 = v[j] as u32;
        if code < 0x20 || v[j] == '\x7f' {
            assert(control(v@[j as int]));
            assert(v@.len() > 0);
            assert(!(blen(v@) > 255));
            assert(find_forbidden(v@) is None);
            assert(has_control(v@));
            return Some(str_to_string("control characters are not allowed"));
        }
        j = j + 1;
    }
    let last = v[v.len() - 1];
    if last == ' ' || last == '.' {
        return Some(str_to_string("a name may not end with a space or a dot"));
    }
    if (v.len() == 1 && v[0] == '.') || (v.len() == 2 && v[0] == '.' && v[1] == '.') {
        assert(v@ =~= seq!['.'] || v@ =~= seq!['.', '.']);
        return Some(str_to_string("'.' and '..' are not usable names"));
    }
    if v.len() == 1 {
        assert(!(v@ =~= seq!['.']));
    }
    if v.len() == 2 {
        assert(!(v@ =~= seq!['.', '.']));
    }
    let stem = stem_lower_exec(v);
    if is_reserved(&stem) {
        let mut msg = string_of_all(&stem);
        push_str(&mut msg, " is a reserved device name on Windows");
        return Some(msg);
    }
    None
}

proof fn lemma_find_forbidden_at(s: Seq<char>, k: int)
    requires
        0 <= k <= s.len(),
        forall|j: int| 0 <= j < k ==> !forbidden(#[trigger] s[j]),
        k < s.len() ==> forbidden(s[k]),
    ensures
        find_forbidden(s) == (if k < s.len() { Some(k) } else { None::<int> }),
    decreases k,
{
    if k > 0 {
        assert(!forbidden(s[0]));
        assert forall|j: int| 0 <= j < k - 1 implies !forbidden(#[trigger] s.drop_first()[j]) by {
            assert(s.drop_first()[j] == s[j + 1]);
        }
        lemma_find_forbidden_at(s.drop_first(), k - 1);
    }
}

fn is_forbidden(c: char) -> (b: bool)
    ensures
        b == forbidden(c),
{
    c == '<' || c == '>' || c == ':' || c == '"' || c == '|' || c == '?' || c == '*' || c == '/'
        || c == '\\'
}

/// Whether `blen(v) > limit`, without risking overflow.
pub fn exceeds_bytes(v: &[char], limit: usize) -> (r: bool)
    ensures
        r == (blen(v@) > limit),
{
    let mut sum: usize = 0;
    let mut i: usize = 0;
    while i < v.len()
        invariant
            0 <= i <= v@.len(),
            sum == boff(v@, i as int),
            sum <= limit,
        decreases v@.len() - i,
    {
        proof {
            lemma_boff_step(v@, i as int);
        }
        let w = char_width(v[i]);
        if w > limit - sum {
            proof {
                lemma_boff_mono(v@, i + 1, v@.len() as int);
                lemma_boff_full(v@);
            }
            return true;
        }
        sum = sum + w;
        i = i + 1;
    }
    proof {
        lemma_boff_full(v@);
    }
    false
}

fn stem_lower_exec(v: &[char]) -> (r: Vec<char>)
    ensures
        r@ == stem_lower(v@),
{
    let dot = find_char_in(v, 0, v.len(), '.');
    assert(v@.subrange(0, v@.len() as int) =~= v@);
    match dot {
        Some(i) => {
            if i == 0 {
                to_ascii_lowercase(v)
            } else {
                let head = slice_prefix(v, i);
                to_ascii_lowercase(&head)
            }
        },
        None => to_ascii_lowercase(v),
    }
}

fn slice_prefix(v: &[char], n: usize) -> (r: Vec<char>)
    requires
        n <= v@.len(),
    ensures
        r@ == v@.take(n as int),
{
    let mut r: Vec<char> = Vec::new();
    let mut i: usize = 0;
    while i < n
        invariant
            n <= v@.len(),
            0 <= i <= n,
            r@ == v@.take(i as int),
        decreases n - i,
    {
        r.push(v[i]);
        i = i + 1;
        assert(r@ =~= v@.take(i as int));
    }
    r
}

fn is_reserved(s: &[char]) -> (b: bool)
    ensures
        b == reserved(s@),
{
    if s.len() == 3 {
        let r = (s[0] == 'c' && s[1] == 'o' && s[2] == 'n') || (s[0] == 'p' && s[1] == 'r' && s[2]
            == 'n') || (s[0] == 'a' && s[1] == 'u' && s[2] == 'x') || (s[0] == 'n' && s[1] == 'u'
            && s[2] == 'l');
        proof {
            if s[0] == 'c' && s[1] == 'o' && s[2] == 'n' {
                assert(s@ =~= seq!['c', 'o', 'n']);
            }
            if s[0] == 'p' && s[1] == 'r' && s[2] == 'n' {
                assert(s@ =~= seq!['p', 'r', 'n']);
            }
            if s[0] == 'a' && s[1] == 'u' && s[2] == 'x' {
                assert(s@ =~= seq!['a', 'u', 'x']);
            }
            if s[0] == 'n' && s[1] == 'u' && s[2] == 'l' {
                assert(s@ =~= seq!['n', 'u', 'l']);
            }
        }
        r
    } else if s.len() == 4 {
        ((s[0] == 'c' && s[1] == 'o' && s[2] == 'm') || (s[0] == 'l' && s[1] == 'p' && s[2] == 't'))
            && '1' <= s[3] && s[3] <= '9'
    } else {
        false
    }
}

/// Validate one path component against the union of Windows and POSIX rules.
pub fn validate_segment(segment: &str) -> (r: Result<()>)
    ensures
        match segment_problem(segment@) {
            None => r is Ok,
            Some(reason) => r is Err && invalid_name_is(r->Err_0, segment@, reason),
        },
{
    let v = to_chars(segment);
    match segment_problem_exec(&v) {
        None => Ok(()),
        Some(reason) => Err(CoreError::InvalidName { name: str_to_string(segment), reason }),
    }
}

/// Every forbidden or control character replaced by `-`.
fn cleaned_chars(v: &Vec<char>) -> (r: Vec<char>)
    ensures
        r@ == clean(v@),
{
    let mut cleaned: Vec<char> = Vec::new();
    let mut i: usize = 0;
    while i < v.len()
        invariant
            0 <= i <= v@.len(),
            cleaned@ == clean(v@.take(i as int)),
        decreases v@.len() - i,
    {
        let c = v[i];
        let bad = is_forbidden(c) || (c as u32) < 0x20 || c == '\x7f';
        cleaned.push(if bad { '-' } else { c });
        i = i + 1;
        assert(cleaned@ =~= clean(v@.take(i as int)));
    }
    assert(v@.take(v@.len() as int) =~= v@);
    cleaned
}

/// Turn arbitrary text into a name that is legal everywhere, without failing.
pub fn sanitize_segment(input: &str) -> (r: String)
    ensures
        r@ == sanitize_spec(input@),
        r@.len() > 0,
        blen(r@) <= 255,
        r@.last() != ' ' && r@.last() != '.',
        segment_problem(r@) is None,
{
    let cleaned = cleaned_chars(&to_chars(input));
    let cleaned_str = string_of_all(&cleaned);
    let normalized = to_nfc(cleaned_str.as_str());
    let a = cleaned_chars(&to_chars(normalized.as_str()));
    proof {
        law_sanitized_name_is_usable(input@);
    }
    let end = fit_and_strip_len(&a, a.len());
    assert(a@.take(a@.len() as int) =~= a@);
    let (start, _) = trim_start_range(&a, end);
    if start == end {
        proof {
            reveal_strlit("Untitled");
            lemma_blen_bound("Untitled"@);
        }
        return str_to_string("Untitled");
    }
    let c_chars = slice_range(&a, start, end);
    assert(c_chars@ =~= trim_start(fit_and_strip(a@)));
    let stem = stem_lower_exec(&c_chars);
    let mut d: Vec<char> = Vec::new();
    if is_reserved(&stem) {
        d.push('_');
    }
    let mut k: usize = 0;
    while k < c_chars.len()
        invariant
            0 <= k <= c_chars@.len(),
            d@ == (if reserved(stem_lower(c_chars@)) { seq!['_'] } else { seq![] }) + c_chars@.take(k as int),
        decreases c_chars@.len() - k,
    {
        d.push(c_chars[k]);
        k = k + 1;
        assert(d@ =~= (if reserved(stem_lower(c_chars@)) { seq!['_'] } else { seq![] }) + c_chars@.take(k as int));
    }
    assert(c_chars@.take(c_chars@.len() as int) =~= c_chars@);
    let ghost d0 = d@;
    assert(d0 =~= if reserved(stem_lower(c_chars@)) { seq!['_'] + c_chars@ } else { c_chars@ });
    assert(d@.take(d@.len() as int) =~= d@);
    let n = fit_and_strip_len(&d, d.len());
    let out = string_of(&d, 0, n);
    proof {
        assert(out@ =~= fit_and_strip(d0));
        lemma_sanitized_shape(a@, c_chars@, d0);
    }
    out
}

/// The length of `fit_and_strip(v[..n])`.
fn fit_and_strip_len(v: &Vec<char>, n0: usize) -> (e: usize)
    requires
        n0 <= v@.len(),
    ensures
        e <= n0,
        v@.take(e as int) == fit_and_strip(v@.take(n0 as int)),
{
    let ghost s = v@.take(n0 as int);
    let mut n: usize = n0;
    assert(v@.take(n as int) =~= s);
    proof {
        lemma_fit_len_le(s);
    }
    while exceeds_bytes_prefix(v, n)
        invariant
            0 <= n <= n0 <= v@.len(),
            s == v@.take(n0 as int),
            fit_len(v@.take(n as int)) == fit_len(s),
            n as int >= fit_len(s),
            s.take(n as int) == v@.take(n as int),
        decreases n,
    {
        proof {
            if n == 0 {
                assert(v@.take(0) =~= Seq::<char>::empty());
            }
            assert(v@.take(n as int).drop_last() =~= v@.take(n - 1));
            assert(s.take(n - 1) =~= v@.take(n - 1));
            lemma_fit_len_le(v@.take(n - 1));
        }
        n = n - 1;
    }
    proof {
        assert(fit_len(v@.take(n as int)) == n);
    }
    let ghost f = v@.take(n as int);
    assert(f == s.take(fit_len(s) as int));
    let mut end: usize = n;
    assert(v@.take(end as int) =~= f.take(end as int));
    while end > 0 && (v[end - 1] == ' ' || v[end - 1] == '.')
        invariant
            0 <= end <= n <= v@.len(),
            f == v@.take(n as int),
            strip_end_len(v@.take(end as int)) == strip_end_len(f),
        decreases end,
    {
        assert(v@.take(end as int).drop_last() =~= v@.take(end - 1));
        end = end - 1;
    }
    proof {
        assert(strip_end_len(v@.take(end as int)) == end);
        assert(f.take(end as int) =~= v@.take(end as int));
    }
    end
}

proof fn lemma_strip_end(s: Seq<char>)
    ensures
        strip_end_len(s) <= s.len(),
        strip_end_len(s) > 0 ==> s[strip_end_len(s) - 1] != ' ' && s[strip_end_len(s) - 1] != '.',
        s.len() > 0 && s.last() != ' ' && s.last() != '.' ==> strip_end_len(s) == s.len(),
    decreases s.len(),
{
    if s.len() > 0 && (s.last() == ' ' || s.last() == '.') {
        lemma_strip_end(s.drop_last());
    }
}

proof fn lemma_strip_keeps_first(s: Seq<char>)
    requires
        s.len() > 0,
        s[0] != ' ' && s[0] != '.',
    ensures
        strip_end_len(s) >= 1,
    decreases s.len(),
{
    if s.len() > 1 && (s.last() == ' ' || s.last() == '.') {
        lemma_strip_keeps_first(s.drop_last());
    }
}

/// What fits and is stripped is at most 255 bytes and does not end with a
/// space or a dot.
proof fn lemma_fit_and_strip(s: Seq<char>)
    ensures
        blen(fit_and_strip(s)) <= 255,
        fit_and_strip(s).len() > 0 ==> fit_and_strip(s).last() != ' ' && fit_and_strip(s).last() != '.',
        s.len() > 0 && s[0] != ' ' && s[0] != '.' ==> fit_and_strip(s).len() > 0,
{
    let f = s.take(fit_len(s) as int);
    lemma_fit_len_le(s);
    if s.len() > 0 {
        lemma_fit_nonempty(s);
    } else {
        assert(f =~= Seq::<char>::empty());
    }
    lemma_strip_end(f);
    let g = f.take(strip_end_len(f) as int);
    assert(f =~= g + f.skip(strip_end_len(f) as int));
    crate::strings::lemma_blen_concat(g, f.skip(strip_end_len(f) as int));
    if s.len() > 0 && s[0] != ' ' && s[0] != '.' {
        assert(f[0] == s[0]);
        lemma_strip_keeps_first(f);
    }
}

/// A sanitised name is never empty, fits in 255 bytes and does not end with
/// a space or a dot.
proof fn lemma_sanitized_shape(a: Seq<char>, c: Seq<char>, d: Seq<char>)
    requires
        c == trim_start(fit_and_strip(a)),
        c.len() > 0,
        d == (if reserved(stem_lower(c)) { seq!['_'] + c } else { c }),
    ensures
        fit_and_strip(d).len() > 0,
        blen(fit_and_strip(d)) <= 255,
        fit_and_strip(d).last() != ' ' && fit_and_strip(d).last() != '.',
        !reserved(stem_lower(c)) ==> fit_and_strip(d) == c,
{
    lemma_fit_and_strip(d);
    if reserved(stem_lower(c)) {
        assert(d[0] == '_');
    } else {
        let fs = fit_and_strip(a);
        lemma_fit_and_strip(a);
        let k = trim_start_len(fs) as int;
        lemma_trim_start_len_le(fs);
        assert(fs =~= fs.take(k) + c);
        crate::strings::lemma_blen_concat(fs.take(k), c);
        assert(c.last() == fs.last());
        assert(fit_len(c) == c.len());
        assert(c.take(c.len() as int) =~= c);
        lemma_strip_end(c);
        assert(fit_and_strip(c) =~= c);
    }
}

/// No character of `s` is forbidden or a control character.
pub open spec fn clean_chars(s: Seq<char>) -> bool {
    forall|i: int| 0 <= i < s.len() ==> !forbidden(#[trigger] s[i]) && !control(s[i])
}

proof fn lemma_fit_and_strip_prefix(s: Seq<char>)
    ensures
        fit_and_strip(s).len() <= s.len(),
        forall|i: int| 0 <= i < fit_and_strip(s).len() ==> #[trigger] fit_and_strip(s)[i] == s[i],
{
    lemma_fit_len_le(s);
    lemma_strip_end(s.take(fit_len(s) as int));
}

proof fn lemma_no_forbidden(s: Seq<char>)
    requires
        clean_chars(s),
    ensures
        find_forbidden(s) is None,
    decreases s.len(),
{
    if s.len() > 0 {
        assert(clean_chars(s.drop_first())) by {
            assert forall|i: int| 0 <= i < s.drop_first().len() implies !forbidden(#[trigger] s.drop_first()[i])
                && !control(s.drop_first()[i]) by {
                assert(s.drop_first()[i] == s[i + 1]);
            }
        }
        lemma_no_forbidden(s.drop_first());
        assert(!forbidden(s[0]));
    }
}

proof fn lemma_usable(r: Seq<char>)
    requires
        r.len() > 0,
        blen(r) <= 255,
        clean_chars(r),
        r.last() != ' ' && r.last() != '.',
        !reserved(stem_lower(r)),
    ensures
        segment_problem(r) is None,
{
    lemma_no_forbidden(r);
    assert(!has_control(r));
    assert(r != seq!['.']) by {
        if r == seq!['.'] {
            assert(r.last() == '.');
        }
    }
    assert(r != seq!['.', '.']) by {
        if r == seq!['.', '.'] {
            assert(r.last() == '.');
        }
    }
}

proof fn lemma_untitled_usable()
    ensures
        segment_problem("Untitled"@) is None,
{
    reveal_strlit("Untitled");
    let u = "Untitled"@;
    crate::strings::lemma_blen_bound(u);
    assert(clean_chars(u)) by {
        assert forall|i: int| 0 <= i < u.len() implies !forbidden(#[trigger] u[i]) && !control(u[i]) by {
            assert(u[i] == 'U' || u[i] == 'n' || u[i] == 't' || u[i] == 'i' || u[i] == 'l' || u[i] == 'e' || u[i] == 'd');
        }
    }
    crate::strings::lemma_find_char(u, '.');
    assert(forall|k: int| 0 <= k < u.len() ==> u[k] != '.');
    assert(stem_lower(u).len() == 8);
    lemma_usable(u);
}

/// A name made of `_` and what follows is no reserved device name.
proof fn lemma_underscore_not_reserved(r: Seq<char>)
    requires
        r.len() > 0,
        r[0] == '_',
    ensures
        !reserved(stem_lower(r)),
{
    crate::strings::lemma_find_char(r, '.');
    let x = stem_lower(r);
    assert(x.len() > 0 && x[0] == '_');
    assert(seq!['c', 'o', 'n'][0] == 'c');
    assert(seq!['p', 'r', 'n'][0] == 'p');
    assert(seq!['a', 'u', 'x'][0] == 'a');
    assert(seq!['n', 'u', 'l'][0] == 'n');
}

/// A sanitised name is legal everywhere: `segment_problem` finds nothing
/// wrong with it, whatever the input.
pub proof fn law_sanitized_name_is_usable(input: Seq<char>)
    ensures
        segment_problem(sanitize_spec(input)) is None,
{
    let a = clean(nfc(clean(input)));
    assert(clean_chars(a));
    let fs = fit_and_strip(a);
    lemma_fit_and_strip_prefix(a);
    assert(clean_chars(fs)) by {
        assert forall|i: int| 0 <= i < fs.len() implies !forbidden(#[trigger] fs[i]) && !control(fs[i]) by {
            assert(fs[i] == a[i]);
        }
    }
    let k = trim_start_len(fs) as int;
    lemma_trim_start_len_le(fs);
    let c = trim_start(fs);
    assert(clean_chars(c)) by {
        assert forall|i: int| 0 <= i < c.len() implies !forbidden(#[trigger] c[i]) && !control(c[i]) by {
            assert(c[i] == fs[i + k]);
        }
    }
    if c.len() == 0 {
        lemma_untitled_usable();
    } else {
        let d = if reserved(stem_lower(c)) {
            seq!['_'] + c
        } else {
            c
        };
        lemma_sanitized_shape(a, c, d);
        let r = fit_and_strip(d);
        lemma_fit_and_strip_prefix(d);
        assert(clean_chars(d)) by {
            assert forall|i: int| 0 <= i < d.len() implies !forbidden(#[trigger] d[i]) && !control(d[i]) by {
                if reserved(stem_lower(c)) && i > 0 {
                    assert(d[i] == c[i - 1]);
                }
            }
        }
        assert(clean_chars(r)) by {
            assert forall|i: int| 0 <= i < r.len() implies !forbidden(#[trigger] r[i]) && !control(r[i]) by {
                assert(r[i] == d[i]);
            }
        }
        if reserved(stem_lower(c)) {
            assert(r[0] == d[0]);
            lemma_underscore_not_reserved(r);
        }
        lemma_usable(r);
    }
}

proof fn lemma_trim_start_len_le(s: Seq<char>)
    ensures
        trim_start_len(s) <= s.len(),
    decreases s.len(),
{
    if s.len() > 0 && is_ws(s[0]) {
        lemma_trim_start_len_le(s.drop_first());
    }
}

proof fn lemma_fit_nonempty(d: Seq<char>)
    requires
        d.len() > 0,
    ensures
        fit_len(d) > 0,
        blen(d.take(fit_len(d) as int)) <= 255,
    decreases d.len(),
{
    if blen(d) <= 255 {
        assert(d.take(d.len() as int) =~= d);
    } else if d.len() == 1 {
        // a single character is at most four bytes
        lemma_blen_bound(d);
    } else {
        lemma_fit_nonempty(d.drop_last());
        lemma_fit_len_le(d.drop_last());
        assert(d.drop_last().take(fit_len(d.drop_last()) as int) =~= d.take(fit_len(d) as int));
    }
}

proof fn lemma_fit_len_le(d: Seq<char>)
    ensures
        fit_len(d) <= d.len(),
    decreases d.len(),
{
    if blen(d) > 255 && d.len() > 0 {
        lemma_fit_len_le(d.drop_last());
    }
}

fn exceeds_bytes_prefix(d: &Vec<char>, n: usize) -> (r: bool)
    requires
        n <= d@.len(),
    ensures
        r == (blen(d@.take(n as int)) > 255),
{
    let p = slice_prefix(d, n);
    exceeds_bytes(&p, 255)
}

fn slice_range(v: &[char], a: usize, b: usize) -> (r: Vec<char>)
    requires
        a <= b <= v@.len(),
    ensures
        r@ == v@.subrange(a as int, b as int),
{
    let mut r: Vec<char> = Vec::new();
    let mut i: usize = a;
    while i < b
        invariant
            a <= i <= b <= v@.len(),
            r@ == v@.subrange(a as int, i as int),
        decreases b - i,
    {
        r.push(v[i]);
        i = i + 1;
        assert(r@ =~= v@.subrange(a as int, i as int));
    }
    r
}

/// Position of the first non-whitespace character of `v[..end]`.
fn trim_start_range(v: &[char], end: usize) -> (r: (usize, usize))
    requires
        end <= v@.len(),
    ensures
        r.0 <= end,
        r.1 == end,
        v@.subrange(r.0 as int, end as int) == trim_start(v@.take(end as int)),
{
    let ghost b = v@.take(end as int);
    let mut i: usize = 0;
    while i < end && is_whitespace(v[i])
        invariant
            0 <= i <= end <= v@.len(),
            forall|j: int| 0 <= j < i ==> is_ws(#[trigger] v@[j]),
        decreases end - i,
    {
        i = i + 1;
    }
    proof {
        assert forall|j: int| 0 <= j < i implies is_ws(#[trigger] b[j]) by {}
        lemma_trim_start_at(b, i as int);
        assert(trim_start(b) =~= v@.subrange(i as int, end as int));
    }
    (i, end)
}

impl VaultPath {
    /// The vault root itself.
    pub fn root() -> (r: Self)
        ensures
            r@ == Seq::<char>::empty(),
    {
        VaultPath(String::new())
    }

    /// Build from a `/`-separated relative string, normalising and validating.
    /// Backslashes are accepted as separators; `..` is refused.
    pub fn parse(input: &str) -> (r: Result<Self>)
        ensures
            path_result_is(r, parse_spec(input@)),
            r matches Ok(p) ==> is_valid_path(p@),
    {
        let raw = to_chars(input);
        let mut u: Vec<char> = Vec::new();
        let mut i: usize = 0;
        while i < raw.len()
            invariant
                0 <= i <= raw@.len(),
                u@ == unify(raw@.take(i as int)),
            decreases raw@.len() - i,
        {
            let c = raw[i];
            u.push(if c == '\\' { '/' } else { c });
            i = i + 1;
            assert(u@ =~= unify(raw@.take(i as int)));
        }
        assert(raw@.take(raw@.len() as int) =~= raw@);
        assert(u@ == unify(input@));
        let mut out = String::new();
        let ghost mut done: Seq<Seq<char>> = seq![];
        let mut count: usize = 0;
        let mut start: usize = 0;
        assert(u@.skip(0) =~= u@);
        loop
            invariant
                0 <= start <= u@.len(),
                u@ == unify(input@),
                parse_segs(split(u@), input@) == chain(done, parse_segs(split(u@.skip(start as int)), input@)),
                out@ == join(done),
                count == done.len(),
                count <= start,
                forall|k: int| 0 <= k < done.len() ==> segment_problem(#[trigger] done[k]) is None,
            decreases u@.len() - start,
        {
            let found = find_char_in(&u, start, u.len(), '/');
            let ghost rest = u@.skip(start as int);
            assert(u@.subrange(start as int, u@.len() as int) =~= rest);
            let seg_end: usize = match found {
                Some(e) => e,
                None => u.len(),
            };
            proof {
                match find_char(rest, '/') {
                    Some(k) => {
                        assert(split(rest) == seq![rest.take(k)] + split(rest.skip(k + 1)));
                        assert(rest.skip(k + 1) =~= u@.skip(seg_end + 1));
                        assert(rest.take(k) =~= u@.subrange(start as int, seg_end as int));
                    },
                    None => {
                        assert(split(rest) == seq![rest]);
                        assert(rest =~= u@.subrange(start as int, seg_end as int));
                    },
                }
            }
            let ghost seg = u@.subrange(start as int, seg_end as int);
            let ghost tail: Seq<Seq<char>> = match found {
                Some(e) => split(u@.skip(e + 1)),
                None => seq![],
            };
            assert(split(rest) =~= seq![seg] + tail);
            assert((seq![seg] + tail)[0] == seg);
            assert((seq![seg] + tail).drop_first() =~= tail);
            let ghost d0 = done;
            let len = seg_end - start;
            let is_dot = len == 1 && u[start] == '.';
            let is_dotdot = len == 2 && u[start] == '.' && u[start + 1] == '.';
            proof {
                if is_dot {
                    assert(seg =~= seq!['.']);
                }
                if is_dotdot {
                    assert(seg =~= seq!['.', '.']);
                }
                if len == 1 && !is_dot {
                    assert(!(seg =~= seq!['.']));
                }
                if len == 2 && !is_dotdot {
                    assert(!(seg =~= seq!['.', '.']));
                }
            }
            if len == 0 || is_dot {
                // skipped
            } else if is_dotdot {
                return Err(
                    CoreError::InvalidName {
                        name: str_to_string(input),
                        reason: str_to_string("a vault path may not contain '..'"),
                    },
                );
            } else {
                let seg_string = string_of(&u, start, seg_end);
                let normalized = to_nfc(seg_string.as_str());
                let nchars = to_chars(normalized.as_str());
                match segment_problem_exec(&nchars) {
                    Some(reason) => {
                        return Err(CoreError::InvalidName { name: normalized, reason });
                    },
                    None => {},
                }
                proof {
                    lemma_join_push(done, nfc(seg));
                }
                if count > 0 {
                    push_char(&mut out, '/');
                }
                push_str(&mut out, normalized.as_str());
                proof {
                    lemma_chain_push(done, nfc(seg), parse_segs(tail, input@));
                    done = done.push(nfc(seg));
                }
                count = count + 1;
            }
            match found {
                Some(e) => {
                    start = e + 1;
                },
                None => {
                    proof {
                        assert(parse_segs(tail, input@) == Ok::<Seq<Seq<char>>, (Seq<char>, Seq<char>)>(seq![]));
                        assert(chain(done, parse_segs(tail, input@)) == Ok::<Seq<Seq<char>>, (Seq<char>, Seq<char>)>(done + seq![]));
                        assert(done + seq![] =~= done);
                        if len == 0 || is_dot {
                            assert(done == d0);
                            assert(parse_segs(split(rest), input@) == parse_segs(tail, input@));
                        } else {
                            assert(parse_segs(split(rest), input@) == (match parse_segs(tail, input@) { Ok(v) => Ok(seq![nfc(seg)] + v), Err(e) => Err(e) }));
                        }
                        assert(parse_segs(split(u@), input@) == Ok::<Seq<Seq<char>>, (Seq<char>, Seq<char>)>(done));
                        if done.len() > 0 {
                            assert forall|k: int| 0 <= k < done.len() implies find_char(#[trigger] done[k], '/') is None by {
                                lemma_no_slash(done[k]);
                            }
                            lemma_split_join(done);
                        }
                    }
                    assert(out@ == join(done));
                    assert(parse_spec(input@) == Ok::<Seq<char>, (Seq<char>, Seq<char>)>(join(done)));
                    return Ok(VaultPath(out));
                },
            }
        }
    }

    /// Build from the components of an OS path relative to the vault root.
    /// A parent, root or prefix component means the path is outside the
    /// vault; `.` components are skipped; names are NFC-normalised.
    pub fn from_fs_parts(parts: &[FsPart], display: &str) -> (r: Result<Self>)
        ensures
            match fs_parts_spec(parts@) {
                Some(v) => r matches Ok(p) && p@ == join(v),
                None => r matches Err(CoreError::OutsideVault { path }) && path@ == display@,
            },
    {
        let mut out = String::new();
        let ghost mut done: Seq<Seq<char>> = seq![];
        let mut count: usize = 0;
        let mut i: usize = 0;
        assert(parts@.skip(0) =~= parts@);
        while i < parts.len()
            invariant
                0 <= i <= parts@.len(),
                count <= i,
                fs_parts_spec(parts@) == chain_opt(done, fs_parts_spec(parts@.skip(i as int))),
                out@ == join(done),
                count == done.len(),
            decreases parts@.len() - i,
        {
            assert(parts@.skip(i as int)[0] == parts@[i as int]);
            assert(parts@.skip(i as int).drop_first() =~= parts@.skip(i + 1));
            match &parts[i] {
                FsPart::Normal(name) => {
                    let normalized = to_nfc(name.as_str());
                    proof {
                        lemma_join_push(done, nfc(name@));
                    }
                    if count > 0 {
                        push_char(&mut out, '/');
                    }
                    push_str(&mut out, normalized.as_str());
                    proof {
                        let t = fs_parts_spec(parts@.skip(i + 1));
                        if t is Some {
                            assert(done.push(nfc(name@)) + t->0 =~= done + (seq![nfc(name@)] + t->0));
                        }
                        done = done.push(nfc(name@));
                    }
                    count = count + 1;
                },
                FsPart::CurDir => {},
                FsPart::Outside => {
                    return Err(CoreError::OutsideVault { path: str_to_string(display) });
                },
            }
            i = i + 1;
        }
        assert(parts@.skip(parts@.len() as int) =~= Seq::<FsPart>::empty());
        assert(done + seq![] =~= done);
        Ok(VaultPath(out))
    }

    pub fn as_str(&self) -> (r: &str)
        ensures
            r@ == self@,
    {
        self.0.as_str()
    }

    pub fn is_root(&self) -> (r: bool)
        ensures
            r == (self@.len() == 0),
    {
        self.0.as_str().is_empty()
    }

    /// The non-empty components, in order.
    pub fn segments(&self) -> (r: Vec<String>)
        ensures
            r@.len() == segments_of(self@).len(),
            forall|k: int| 0 <= k < r@.len() ==> #[trigger] r@[k]@ == segments_of(self@)[k],
    {
        let v = to_chars(self.as_str());
        let mut r: Vec<String> = Vec::new();
        let ghost mut got: Seq<Seq<char>> = seq![];
        let mut start: usize = 0;
        assert(v@.skip(0) =~= v@);
        loop
            invariant
                0 <= start <= v@.len(),
                v@ == self@,
                segments_of(self@) == got + nonempty(split(v@.skip(start as int))),
                r@.len() == got.len(),
                forall|k: int| 0 <= k < r@.len() ==> #[trigger] r@[k]@ == got[k],
            decreases v@.len() - start,
        {
            let found = find_char_in(&v, start, v.len(), '/');
            let ghost rest = v@.skip(start as int);
            assert(v@.subrange(start as int, v@.len() as int) =~= rest);
            let seg_end: usize = match found {
                Some(e) => e,
                None => v.len(),
            };
            let ghost seg = v@.subrange(start as int, seg_end as int);
            let ghost tail: Seq<Seq<char>> = match found {
                Some(e) => split(v@.skip(e + 1)),
                None => seq![],
            };
            proof {
                match find_char(rest, '/') {
                    Some(k) => {
                        assert(rest.skip(k + 1) =~= v@.skip(seg_end + 1));
                        assert(rest.take(k) =~= seg);
                    },
                    None => {
                        assert(rest =~= seg);
                    },
                }
                assert(split(rest) =~= seq![seg] + tail);
                assert((seq![seg] + tail).drop_first() =~= tail);
            }
            if seg_end > start {
                let s = string_of(&v, start, seg_end);
                r.push(s);
                proof {
                    assert(got.push(seg) + nonempty(tail) =~= got + (seq![seg] + nonempty(tail)));
                    got = got.push(seg);
                }
            }
            match found {
                Some(e) => {
                    start = e + 1;
                },
                None => {
                    assert(nonempty(tail) =~= Seq::<Seq<char>>::empty());
                    assert(got + seq![] =~= got);
                    return r;
                },
            }
        }
    }

    /// The final component, including any extension.
    pub fn file_name(&self) -> (r: &str)
        ensures
            r@ == file_name_of(self@),
    {
        let v = to_chars(self.as_str());
        let slash = rfind_char_in(&v, 0, v.len(), '/');
        assert(v@.subrange(0, v@.len() as int) =~= v@);
        let len = self.0.as_str().unicode_len();
        match slash {
            Some(i) => self.0.as_str().substring_char(i + 1, len),
            None => {
                let r = self.0.as_str().substring_char(0, len);
                assert(self@.subrange(0, self@.len() as int) =~= self@);
                r
            },
        }
    }

    /// The final component without its extension.
    pub fn stem(&self) -> (r: &str)
        ensures
            r@ == stem_of(file_name_of(self@)),
    {
        let name = self.file_name();
        let v = to_chars(name);
        let dot = rfind_char_in(&v, 0, v.len(), '.');
        assert(v@.subrange(0, v@.len() as int) =~= v@);
        let len = name.unicode_len();
        match dot {
            Some(i) => {
                if i == 0 {
                    let r = name.substring_char(0, len);
                    assert(name@.subrange(0, name@.len() as int) =~= name@);
                    r
                } else {
                    name.substring_char(0, i)
                }
            },
            None => {
                let r = name.substring_char(0, len);
                assert(name@.subrange(0, name@.len() as int) =~= name@);
                r
            },
        }
    }

    /// Lowercase extension without the dot; `None` for extensionless and
    /// dot-prefixed names.
    pub fn extension(&self) -> (r: Option<String>)
        ensures
            match extension_of(file_name_of(self@)) {
                Some(e) => r matches Some(x) && x@ == e,
                None => r is None,
            },
    {
        let name = self.file_name();
        let v = to_chars(name);
        let dot = rfind_char_in(&v, 0, v.len(), '.');
        assert(v@.subrange(0, v@.len() as int) =~= v@);
        match dot {
            Some(i) => {
                if i == 0 {
                    None
                } else {
                    let tail = slice_range(&v, i + 1, v.len());
                    let low = to_ascii_lowercase(&tail);
                    Some(string_of_all(&low))
                }
            },
            None => None,
        }
    }

    /// The containing folder, or the root.
    pub fn parent(&self) -> (r: VaultPath)
        ensures
            r@ == parent_of(self@),
    {
        let v = to_chars(self.as_str());
        let slash = rfind_char_in(&v, 0, v.len(), '/');
        assert(v@.subrange(0, v@.len() as int) =~= v@);
        match slash {
            Some(i) => VaultPath(string_of(&v, 0, i)),
            None => VaultPath::root(),
        }
    }

    /// Append a single component, normalised and validated.
    pub fn join(&self, segment: &str) -> (r: Result<VaultPath>)
        ensures
            path_result_is(r, join_spec(self@, segment@)),
    {
        let normalized = to_nfc(segment);
        let n = to_chars(normalized.as_str());
        match segment_problem_exec(&n) {
            Some(reason) => Err(CoreError::InvalidName { name: normalized, reason }),
            None => {
                if self.is_root() {
                    Ok(VaultPath(normalized))
                } else {
                    let mut out = clone_string(&self.0);
                    push_char(&mut out, '/');
                    push_str(&mut out, normalized.as_str());
                    assert(out@ =~= self@ + seq!['/'] + nfc(segment@));
                    Ok(VaultPath(out))
                }
            },
        }
    }

    /// Same path, different final component.
    pub fn with_file_name(&self, name: &str) -> (r: Result<VaultPath>)
        ensures
            path_result_is(r, join_spec(parent_of(self@), name@)),
    {
        self.parent().join(name)
    }

    /// Same path, different extension; `None` drops it.
    pub fn with_extension(&self, extension: Option<&str>) -> (r: Result<VaultPath>)
        ensures
            path_result_is(
                r,
                join_spec(
                    parent_of(self@),
                    match extension {
                        Some(e) => stem_of(file_name_of(self@)) + seq!['.'] + e@,
                        None => stem_of(file_name_of(self@)),
                    },
                ),
            ),
    {
        let mut name = str_to_string(self.stem());
        match extension {
            Some(ext) => {
                push_char(&mut name, '.');
                push_str(&mut name, ext);
                assert(name@ =~= stem_of(file_name_of(self@)) + seq!['.'] + ext@);
            },
            None => {},
        }
        self.with_file_name(name.as_str())
    }

    /// The key used for collision detection and case-insensitive lookup.
    pub fn fold(&self) -> (r: String)
        ensures
            r@ == lowercase(self@),
    {
        to_lowercase(self.as_str())
    }

    /// Is this path inside `folder` (at any depth)?
    pub fn is_within(&self, folder: &VaultPath) -> (r: bool)
        ensures
            r == within(self@, folder@),
    {
        if folder.is_root() {
            return true;
        }
        let a = to_chars(self.as_str());
        let b = to_chars(folder.as_str());
        if chars_eq(&a, &b) {
            return true;
        }
        let mut prefix = b.clone();
        prefix.push('/');
        assert(prefix@ =~= folder@ + seq!['/']);
        starts_with_at(&a, 0, &prefix)
    }

    /// Does this path live in the app's private directory?
    pub fn is_app_internal(&self) -> (r: bool)
        ensures
            r == (self@ == app_dir() || has_prefix_at(self@, 0, app_dir() + seq!['/'])),
    {
        let a = to_chars(self.as_str());
        let d = to_chars(APP_DIR);
        proof {
            reveal_strlit(".inner-empire");
        }
        assert(d@ =~= app_dir());
        if chars_eq(&a, &d) {
            return true;
        }
        let mut prefix = d.clone();
        prefix.push('/');
        assert(prefix@ =~= app_dir() + seq!['/']);
        starts_with_at(&a, 0, &prefix)
    }

    /// Depth below the root: the number of non-empty components.
    pub fn depth(&self) -> (r: usize)
        ensures
            r == segments_of(self@).len(),
    {
        self.segments().len()
    }

    /// Construct without validating, for values the index itself wrote.
    pub fn from_indexed(value: String) -> (r: Self)
        ensures
            r@ == value@,
    {
        VaultPath(value)
    }

    /// The path as shown to the user: `/` for the root.
    pub fn to_string(&self) -> (r: String)
        ensures
            r@ == crate::error::shown(self@),
    {
        if self.is_root() {
            str_to_string("/")
        } else {
            clone_string(&self.0)
        }
    }
}

pub open spec fn app_dir() -> Seq<char> {
    seq!['.', 'i', 'n', 'n', 'e', 'r', '-', 'e', 'm', 'p', 'i', 'r', 'e']
}

pub open spec fn file_name_of(s: Seq<char>) -> Seq<char> {
    match rfind_char(s, '/') {
        Some(i) => s.subrange(i + 1, s.len() as int),
        None => s,
    }
}

pub open spec fn stem_of(name: Seq<char>) -> Seq<char> {
    match rfind_char(name, '.') {
        Some(i) => if i == 0 {
            name
        } else {
            name.take(i)
        },
        None => name,
    }
}

pub open spec fn extension_of(name: Seq<char>) -> Option<Seq<char>> {
    match rfind_char(name, '.') {
        Some(i) => if i == 0 {
            None
        } else {
            Some(ascii_lower_seq(name.subrange(i + 1, name.len() as int)))
        },
        None => None,
    }
}

pub open spec fn parent_of(s: Seq<char>) -> Seq<char> {
    match rfind_char(s, '/') {
        Some(i) => s.take(i),
        None => seq![],
    }
}

pub open spec fn join_spec(base: Seq<char>, segment: Seq<char>) -> core::result::Result<
    Seq<char>,
    (Seq<char>, Seq<char>),
> {
    let n = nfc(segment);
    match segment_problem(n) {
        Some(r) => Err((n, r)),
        None => Ok(
            if base.len() == 0 {
                n
            } else {
                base + seq!['/'] + n
            },
        ),
    }
}

pub open spec fn within(p: Seq<char>, folder: Seq<char>) -> bool {
    folder.len() == 0 || p == folder || has_prefix_at(p, 0, folder + seq!['/'])
}

proof fn lemma_chain_push(
    done: Seq<Seq<char>>,
    n: Seq<char>,
    r: core::result::Result<Seq<Seq<char>>, (Seq<char>, Seq<char>)>,
)
    ensures
        chain(
            done,
            match r {
                Ok(v) => Ok(seq![n] + v),
                Err(e) => Err(e),
            },
        ) == chain(done.push(n), r),
{
    match r {
        Ok(v) => {
            assert(done + (seq![n] + v) =~= done.push(n) + v);
        },
        Err(_) => {},
    }
}

/// One component of an OS path, as the host reads it.
pub enum FsPart {
    Normal(String),
    CurDir,
    /// A parent, root or drive-prefix component.
    Outside,
}

pub open spec fn chain_opt(done: Seq<Seq<char>>, r: Option<Seq<Seq<char>>>) -> Option<
    Seq<Seq<char>>,
> {
    match r {
        Some(v) => Some(done + v),
        None => None,
    }
}

pub open spec fn fs_parts_spec(parts: Seq<FsPart>) -> Option<Seq<Seq<char>>>
    decreases parts.len(),
{
    if parts.len() == 0 {
        Some(seq![])
    } else {
        match parts[0] {
            FsPart::Normal(name) => match fs_parts_spec(parts.drop_first()) {
                Some(v) => Some(seq![nfc(name@)] + v),
                None => None,
            },
            FsPart::CurDir => fs_parts_spec(parts.drop_first()),
            FsPart::Outside => None,
        }
    }
}

/// A usable component contains no separator.
pub proof fn lemma_no_slash(s: Seq<char>)
    requires
        segment_problem(s) is None,
    ensures
        find_char(s, '/') is None,
{
    lemma_find_char(s, '/');
    if find_char(s, '/') is Some {
        let i = find_char(s, '/')->0;
        lemma_find_forbidden(s);
        assert(forbidden(s[i]));
    }
}

proof fn lemma_find_forbidden(s: Seq<char>)
    ensures
        find_forbidden(s) is None ==> forall|k: int| 0 <= k < s.len() ==> !forbidden(#[trigger] s[k]),
    decreases s.len(),
{
    if s.len() > 0 {
        lemma_find_forbidden(s.drop_first());
        if find_forbidden(s) is None {
            assert forall|k: int| 0 <= k < s.len() implies !forbidden(#[trigger] s[k]) by {
                if k > 0 {
                    assert(s[k] == s.drop_first()[k - 1]);
                }
            }
        }
    }
}

// ---------------------------------------------------------------------------
// Laws.

/// Joining a usable component and then taking the parent gives back the
/// folder; the joined path's final component is the normalised name.
pub proof fn law_join_then_parent(base: Seq<char>, segment: Seq<char>)
    requires
        join_spec(base, segment) is Ok,
    ensures
        parent_of(join_spec(base, segment)->Ok_0) == base,
        file_name_of(join_spec(base, segment)->Ok_0) == nfc(segment),
{
    let n = nfc(segment);
    lemma_no_slash(n);
    lemma_find_char(n, '/');
    let p = join_spec(base, segment)->Ok_0;
    if base.len() == 0 {
        assert(p == n);
        lemma_rfind_char_at(n, '/', -1);
    } else {
        assert(p =~= base + seq!['/'] + n);
        assert forall|j: int| base.len() < j < p.len() implies p[j] != '/' by {
            assert(p[j] == n[j - base.len() - 1]);
        }
        lemma_rfind_char_at(p, '/', base.len() as int);
        assert(p.take(base.len() as int) =~= base);
        assert(p.subrange(base.len() as int + 1, p.len() as int) =~= n);
    }
}

/// Every path is within the root and within itself.
pub proof fn law_within_root_and_self(p: Seq<char>)
    ensures
        within(p, seq![]),
        within(p, p),
{
}

} // verus!
