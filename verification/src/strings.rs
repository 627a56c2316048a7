//! Character-level helpers shared by every text-processing module.
//!
//! Text is modelled as its sequence of characters (`s@`). Positions that the
//! rest of the crate reports are UTF-8 byte offsets, so the byte length of a
//! character prefix, [`blen`], is the bridge between the two.
use vstd::prelude::*;
use vstd::utf8::*;
use unicode_normalization::UnicodeNormalization;

verus! {

broadcast use vstd::string::group_string_axioms;

/// Number of UTF-8 bytes that encode `c`.
pub open spec fn cw(c: char) -> nat {
    if (c as u32) < 0x80 {
        1
    } else if (c as u32) < 0x800 {
        2
    } else if (c as u32) < 0x10000 {
        3
    } else {
        4
    }
}

/// Byte length of the UTF-8 encoding of a character sequence.
pub open spec fn blen(s: Seq<char>) -> nat
    decreases s.len(),
{
    if s.len() == 0 {
        0
    } else {
        blen(s.drop_last()) + cw(s.last())
    }
}

/// The byte offset of character index `i` in `s`.
pub open spec fn boff(s: Seq<char>, i: int) -> nat {
    blen(s.take(i))
}

pub proof fn lemma_boff_step(s: Seq<char>, i: int)
    requires
        0 <= i < s.len(),
    ensures
        boff(s, i + 1) == boff(s, i) + cw(s[i]),
{
    assert(s.take(i + 1).drop_last() =~= s.take(i));
}

pub proof fn lemma_boff_mono(s: Seq<char>, i: int, j: int)
    requires
        0 <= i <= j <= s.len(),
    ensures
        boff(s, i) <= boff(s, j),
        i < j ==> boff(s, i) < boff(s, j),
    decreases j - i,
{
    if i < j {
        lemma_boff_mono(s, i, j - 1);
        lemma_boff_step(s, j - 1);
    }
}

pub proof fn lemma_boff_full(s: Seq<char>)
    ensures
        boff(s, s.len() as int) == blen(s),
{
    assert(s.take(s.len() as int) =~= s);
}

/// Byte offsets determine character indices.
pub proof fn lemma_boff_inj(s: Seq<char>, i: int, j: int)
    requires
        0 <= i <= s.len(),
        0 <= j <= s.len(),
        boff(s, i) == boff(s, j),
    ensures
        i == j,
{
    if i < j {
        lemma_boff_mono(s, i, j);
    } else if j < i {
        lemma_boff_mono(s, j, i);
    }
}

pub proof fn lemma_blen_bound(s: Seq<char>)
    ensures
        blen(s) <= 4 * s.len(),
    decreases s.len(),
{
    if s.len() > 0 {
        lemma_blen_bound(s.drop_last());
    }
}

pub proof fn lemma_blen_concat(a: Seq<char>, b: Seq<char>)
    ensures
        blen(a + b) == blen(a) + blen(b),
    decreases b.len(),
{
    if b.len() > 0 {
        assert((a + b).drop_last() =~= a + b.drop_last());
        lemma_blen_concat(a, b.drop_last());
    } else {
        assert(a + b =~= a);
    }
}

proof fn lemma_encode_push(s: Seq<char>, c: char)
    ensures
        encode_utf8(s.push(c)) =~= encode_utf8(s) + encode_scalar(c as u32),
    decreases s.len(),
{
    if s.len() == 0 {
        assert(s.push(c).drop_first() =~= Seq::<char>::empty());
        assert(s.push(c)[0] == c);
        assert(encode_utf8(s.push(c).drop_first()) =~= Seq::<u8>::empty());
        assert(encode_utf8(s) =~= Seq::<u8>::empty());
        assert(encode_utf8(s.push(c)) =~= encode_scalar(c as u32) + Seq::<u8>::empty());
    } else {
        assert(s.push(c).drop_first() =~= s.drop_first().push(c));
        assert(s.push(c)[0] == s[0]);
        lemma_encode_push(s.drop_first(), c);
        assert(encode_utf8(s.push(c)) == encode_scalar(s[0] as u32) + encode_utf8(s.drop_first().push(c)));
        assert(encode_utf8(s) == encode_scalar(s[0] as u32) + encode_utf8(s.drop_first()));
        assert(encode_utf8(s.push(c)) =~= encode_utf8(s) + encode_scalar(c as u32));
    }
}

proof fn lemma_scalar_len(c: char)
    ensures
        encode_scalar(c as u32).len() == cw(c),
{
    char_is_scalar(c);
}

/// The byte length used throughout the crate is that of the UTF-8 encoding.
pub proof fn lemma_blen_bytes(s: Seq<char>)
    ensures
        blen(s) == encode_utf8(s).len(),
    decreases s.len(),
{
    if s.len() > 0 {
        lemma_blen_bytes(s.drop_last());
        assert(s.drop_last().push(s.last()) =~= s);
        lemma_encode_push(s.drop_last(), s.last());
        lemma_scalar_len(s.last());
    }
}

/// UTF-8 width of one character.
pub fn char_width(c: char) -> (w: usize)
    ensures
        w == cw(c),
{
    let v: u32 = c as u32;
    if v < 0x80 {
        1
    } else if v < 0x800 {
        2
    } else if v < 0x10000 {
        3
    } else {
        4
    }
}

/// The characters of `s`.
pub fn to_chars(s: &str) -> (v: Vec<char>)
    ensures
        v@ == s@,
{
    let mut v: Vec<char> = Vec::new();
    for c in it: s.chars()
        invariant
            v@ == it.seq().take(it.index()),
    {
        v.push(c);
    }
    assert(v@ =~= s@);
    v
}

/// Byte length of `s`, with the guarantee that every prefix length fits in a
/// `usize`.
pub fn byte_len(s: &str) -> (n: usize)
    ensures
        n == blen(s@),
{
    let b = s.as_bytes();
    proof {
        lemma_blen_bytes(s@);
    }
    b.len()
}

/// A character sequence together with the byte offset of every position.
pub struct Text {
    pub chars: Vec<char>,
    pub offs: Vec<usize>,
}

impl Text {
    pub open spec fn wf(&self) -> bool {
        &&& self.offs@.len() == self.chars@.len() + 1
        &&& forall|i: int| 0 <= i <= self.chars@.len() ==> #[trigger] self.offs@[i] == boff(self.chars@, i)
    }

    pub fn new(s: &str) -> (t: Text)
        ensures
            t.wf(),
            t.chars@ == s@,
    {
        let chars = to_chars(s);
        let total = byte_len(s);
        let mut offs: Vec<usize> = Vec::new();
        offs.push(0);
        let mut pos: usize = 0;
        let mut i: usize = 0;
        proof {
            lemma_boff_full(s@);
            assert(s@.take(0) =~= Seq::<char>::empty());
        }
        while i < chars.len()
            invariant
                chars@ == s@,
                total == blen(s@),
                0 <= i <= chars@.len(),
                offs@.len() == i + 1,
                pos == boff(chars@, i as int),
                forall|k: int| 0 <= k <= i ==> #[trigger] offs@[k] == boff(chars@, k),
            decreases chars@.len() - i,
        {
            proof {
                lemma_boff_step(chars@, i as int);
                lemma_boff_mono(chars@, i + 1, chars@.len() as int);
                lemma_boff_full(chars@);
            }
            pos = pos + char_width(chars[i]);
            offs.push(pos);
            i = i + 1;
        }
        Text { chars, offs }
    }

    /// The character index whose byte offset is `b`, if `b` is a boundary.
    pub fn index_of_byte(&self, b: usize) -> (r: Option<usize>)
        requires
            self.wf(),
        ensures
            match r {
                Some(i) => i <= self.chars@.len() && boff(self.chars@, i as int) == b,
                None => forall|i: int| 0 <= i <= self.chars@.len() ==> boff(self.chars@, i) != b,
            },
    {
        let mut i: usize = 0;
        while i < self.offs.len()
            invariant
                self.wf(),
                0 <= i <= self.offs@.len(),
                forall|k: int| 0 <= k < i ==> boff(self.chars@, k) != b,
            decreases self.offs@.len() - i,
        {
            if self.offs[i] == b {
                return Some(i);
            }
            i = i + 1;
        }
        None
    }
}

/// Append one character (std's `String::push`).
#[verifier::external_body]
pub fn push_char(s: &mut String, c: char)
    ensures
        final(s)@ == old(s)@.push(c),
{
    s.push(c);
}

/// Append a string slice.
pub fn push_str(s: &mut String, t: &str)
    ensures
        final(s)@ == old(s)@ + t@,
{
    s.append(t);
}

pub open spec fn digit_char(d: int) -> char {
    if d == 0 {
        '0'
    } else if d == 1 {
        '1'
    } else if d == 2 {
        '2'
    } else if d == 3 {
        '3'
    } else if d == 4 {
        '4'
    } else if d == 5 {
        '5'
    } else if d == 6 {
        '6'
    } else if d == 7 {
        '7'
    } else if d == 8 {
        '8'
    } else {
        '9'
    }
}

/// A number in decimal, as `Display` writes it.
pub open spec fn decimal(n: nat) -> Seq<char>
    decreases n,
{
    if n < 10 {
        seq![digit_char(n as int)]
    } else {
        decimal(n / 10).push(digit_char((n % 10) as int))
    }
}

pub fn push_decimal(out: &mut String, n: usize)
    ensures
        final(out)@ == old(out)@ + decimal(n as nat),
    decreases n,
{
    if n >= 10 {
        push_decimal(out, n / 10);
    }
    let d = n % 10;
    let c = if d == 0 {
        '0'
    } else if d == 1 {
        '1'
    } else if d == 2 {
        '2'
    } else if d == 3 {
        '3'
    } else if d == 4 {
        '4'
    } else if d == 5 {
        '5'
    } else if d == 6 {
        '6'
    } else if d == 7 {
        '7'
    } else if d == 8 {
        '8'
    } else {
        '9'
    };
    crate::strings::push_char(out, c);
}

fn push_decimal_u64(out: &mut String, n: u64)
    ensures
        final(out)@ == old(out)@ + decimal(n as nat),
    decreases n,
{
    if n >= 10 {
        push_decimal_u64(out, n / 10);
    }
    let d = (n % 10) as u32;
    crate::strings::push_char(out, char_from_ascii(48 + d));
    assert(digit_char(d as int) == ((48 + d) as char));
}

/// A signed number in decimal, as `Display` writes it.
pub open spec fn signed_decimal(n: int) -> Seq<char> {
    if n < 0 {
        seq!['-'] + decimal((-n) as nat)
    } else {
        decimal(n as nat)
    }
}

pub fn push_signed(out: &mut String, n: i64)
    ensures
        final(out)@ == old(out)@ + signed_decimal(n as int),
{
    if n < 0 {
        push_char(out, '-');
        let m: u64 = if n == i64::MIN { 0x8000_0000_0000_0000u64 } else { (-n) as u64 };
        push_decimal_u64(out, m);
        assert(old(out)@.push('-') + decimal(m as nat) =~= old(out)@ + (seq!['-'] + decimal((-n) as nat)));
    } else {
        push_decimal_u64(out, n as u64);
    }
}

/// `[String]::join`.
pub open spec fn joined(parts: Seq<Seq<char>>, sep: Seq<char>) -> Seq<char>
    decreases parts.len(),
{
    if parts.len() == 0 {
        seq![]
    } else if parts.len() == 1 {
        parts[0]
    } else {
        joined(parts.drop_last(), sep) + sep + parts.last()
    }
}

pub open spec fn texts_view(ts: Seq<String>) -> Seq<Seq<char>> {
    ts.map_values(|t: String| t@)
}

/// `[String]::join`.
pub fn join_strings(parts: &Vec<String>, sep: &str) -> (r: String)
    ensures
        r@ == joined(texts_view(parts@), sep@),
{
    let ghost pv = texts_view(parts@);
    let mut out = String::new();
    let mut i: usize = 0;
    while i < parts.len()
        invariant
            pv == texts_view(parts@),
            i <= parts@.len(),
            out@ == joined(pv.take(i as int), sep@),
        decreases parts@.len() - i,
    {
        assert(pv.take(i + 1).drop_last() =~= pv.take(i as int));
        assert(pv.take(i + 1).last() == parts@[i as int]@);
        if i > 0 {
            push_str(&mut out, sep);
        }
        push_str(&mut out, parts[i].as_str());
        i = i + 1;
        assert(out@ =~= joined(pv.take(i as int), sep@));
    }
    assert(pv.take(parts@.len() as int) =~= pv);
    out
}

/// Append a sequence of characters.
pub fn push_chars(s: &mut String, v: &[char], a: usize, b: usize)
    requires
        a <= b <= v@.len(),
    ensures
        final(s)@ == old(s)@ + v@.subrange(a as int, b as int),
{
    let mut i: usize = a;
    while i < b
        invariant
            a <= i <= b <= v@.len(),
            s@ == old(s)@ + v@.subrange(a as int, i as int),
        decreases b - i,
    {
        push_char(s, v[i]);
        i = i + 1;
        assert(s@ =~= old(s)@ + v@.subrange(a as int, i as int));
    }
}

/// A new string holding `v[a..b]`.
pub fn string_of(v: &[char], a: usize, b: usize) -> (s: String)
    requires
        a <= b <= v@.len(),
    ensures
        s@ == v@.subrange(a as int, b as int),
{
    let mut s = String::new();
    push_chars(&mut s, v, a, b);
    assert(s@ =~= v@.subrange(a as int, b as int));
    s
}

/// A new string holding all of `v`.
pub fn string_of_all(v: &[char]) -> (s: String)
    ensures
        s@ == v@,
{
    let s = string_of(v, 0, v.len());
    assert(v@.subrange(0, v@.len() as int) =~= v@);
    s
}

pub fn str_to_string(t: &str) -> (s: String)
    ensures
        s@ == t@,
{
    let mut s = String::new();
    push_str(&mut s, t);
    assert(s@ =~= t@);
    s
}

pub fn clone_string(t: &String) -> (s: String)
    ensures
        s@ == t@,
{
    t.clone()
}

// ---------------------------------------------------------------------------
// Unicode character classes, as std defines them.

/// What `char::is_whitespace` answers for a non-ASCII `c`.
pub uninterp spec fn unicode_ws(c: char) -> bool;

/// What `char::is_alphanumeric` answers for a non-ASCII `c`.
pub uninterp spec fn unicode_alnum(c: char) -> bool;

/// What `char::is_alphabetic` answers for a non-ASCII `c`.
pub uninterp spec fn unicode_alpha(c: char) -> bool;

/// What `char::is_lowercase` answers for a non-ASCII `c`.
pub uninterp spec fn unicode_lower(c: char) -> bool;

/// What `char::is_uppercase` answers for a non-ASCII `c`.
pub uninterp spec fn unicode_upper(c: char) -> bool;

/// The characters `char::to_lowercase` yields for a non-ASCII `c`.
pub uninterp spec fn char_lowercase(c: char) -> Seq<char>;

/// What `str::to_lowercase` returns for a string.
pub uninterp spec fn lowercase(s: Seq<char>) -> Seq<char>;

/// The Unicode normalisation form C of a string (`unicode_normalization`).
pub uninterp spec fn nfc(s: Seq<char>) -> Seq<char>;

pub open spec fn is_ascii_char(c: char) -> bool {
    (c as u32) < 0x80
}

pub open spec fn ascii_ws(c: char) -> bool {
    c == ' ' || c == '\t' || c == '\n' || c == '\r' || c == '\x0b' || c == '\x0c'
}

pub open spec fn ascii_alpha(c: char) -> bool {
    ('a' <= c && c <= 'z') || ('A' <= c && c <= 'Z')
}

pub open spec fn ascii_digit(c: char) -> bool {
    '0' <= c && c <= '9'
}

pub open spec fn ascii_alnum(c: char) -> bool {
    ascii_alpha(c) || ascii_digit(c)
}

/// `char::is_whitespace`: the White_Space property.
pub open spec fn is_ws(c: char) -> bool {
    if is_ascii_char(c) {
        ascii_ws(c)
    } else {
        unicode_ws(c)
    }
}

/// `char::is_alphanumeric`.
pub open spec fn is_alnum(c: char) -> bool {
    if is_ascii_char(c) {
        ascii_alnum(c)
    } else {
        unicode_alnum(c)
    }
}

/// `char::is_alphabetic`.
pub open spec fn is_alpha(c: char) -> bool {
    if is_ascii_char(c) {
        ascii_alpha(c)
    } else {
        unicode_alpha(c)
    }
}

/// `char::is_lowercase`.
pub open spec fn is_lower(c: char) -> bool {
    if is_ascii_char(c) {
        'a' <= c && c <= 'z'
    } else {
        unicode_lower(c)
    }
}

/// `char::is_uppercase`.
pub open spec fn is_upper(c: char) -> bool {
    if is_ascii_char(c) {
        'A' <= c && c <= 'Z'
    } else {
        unicode_upper(c)
    }
}

/// `char::to_lowercase`, as a sequence.
pub open spec fn lower_chars(c: char) -> Seq<char> {
    if is_ascii_char(c) {
        seq![ascii_lower(c)]
    } else {
        char_lowercase(c)
    }
}

/// `char::is_whitespace`. For ASCII its documentation names the characters;
/// the rest of the White_Space table is left to the name.
#[verifier::external_body]
pub fn is_whitespace(c: char) -> (b: bool)
    ensures
        b == is_ws(c),
        !is_ascii_char(c) ==> b == unicode_ws(c),
{
    c.is_whitespace()
}

/// `char::is_alphanumeric`: for ASCII, letters and digits.
#[verifier::external_body]
pub fn is_alphanumeric(c: char) -> (b: bool)
    ensures
        b == is_alnum(c),
        !is_ascii_char(c) ==> b == unicode_alnum(c),
{
    c.is_alphanumeric()
}

/// `char::is_alphabetic`: for ASCII, letters.
#[verifier::external_body]
pub fn is_alphabetic(c: char) -> (b: bool)
    ensures
        b == is_alpha(c),
        !is_ascii_char(c) ==> b == unicode_alpha(c),
{
    c.is_alphabetic()
}

/// `char::is_lowercase`: for ASCII, `a` to `z`.
#[verifier::external_body]
pub fn is_lowercase(c: char) -> (b: bool)
    ensures
        b == is_lower(c),
        !is_ascii_char(c) ==> b == unicode_lower(c),
{
    c.is_lowercase()
}

/// `char::is_uppercase`: for ASCII, `A` to `Z`.
#[verifier::external_body]
pub fn is_uppercase(c: char) -> (b: bool)
    ensures
        b == is_upper(c),
        !is_ascii_char(c) ==> b == unicode_upper(c),
{
    c.is_uppercase()
}

/// `char::to_lowercase`, collected. It yields at least one character, and
/// maps ASCII as `to_ascii_lowercase` does.
#[verifier::external_body]
pub fn to_lowercase_char(c: char) -> (v: Vec<char>)
    ensures
        v@ == lower_chars(c),
        !is_ascii_char(c) ==> v@ == char_lowercase(c),
        v@.len() >= 1,
{
    c.to_lowercase().collect()
}

/// `str::to_lowercase`. ASCII text maps character by character.
#[verifier::external_body]
pub fn to_lowercase(s: &str) -> (r: String)
    ensures
        r@ == lowercase(s@),
        all_ascii(s@) ==> r@ == ascii_lower_seq(s@),
{
    s.to_lowercase()
}

/// NFC normalisation (`UnicodeNormalization::nfc`); the contract names the
/// result.
#[verifier::external_body]
pub fn to_nfc(s: &str) -> (r: String)
    ensures
        r@ == nfc(s@),
{
    s.nfc().collect()
}

// ---------------------------------------------------------------------------
// ASCII helpers, written out.

pub open spec fn ascii_lower(c: char) -> char {
    if 'A' <= c && c <= 'Z' {
        ((c as u32) + 32) as char
    } else {
        c
    }
}

pub open spec fn all_ascii(s: Seq<char>) -> bool {
    forall|i: int| 0 <= i < s.len() ==> (#[trigger] s[i] as u32) < 0x80
}

pub open spec fn ascii_lower_seq(s: Seq<char>) -> Seq<char> {
    Seq::new(s.len(), |i: int| ascii_lower(s[i]))
}

pub fn to_ascii_lower_char(c: char) -> (r: char)
    ensures
        r == ascii_lower(c),
{
    if 'A' <= c && c <= 'Z' {
        let v: u32 = (c as u32) + 32;
        assert(0x61 <= v <= 0x7a);
        proof {
            assert(v == (c as u32) + 32);
        }
        char_from_ascii(v)
    } else {
        c
    }
}

pub(crate) fn char_from_ascii(v: u32) -> (c: char)
    requires
        v < 0x80,
    ensures
        c == v as char,
{
    let b: u8 = v as u8;
    b as char
}

/// `str::to_ascii_lowercase`.
pub fn to_ascii_lowercase(s: &[char]) -> (r: Vec<char>)
    ensures
        r@ == ascii_lower_seq(s@),
{
    let mut r: Vec<char> = Vec::new();
    let mut i: usize = 0;
    while i < s.len()
        invariant
            0 <= i <= s@.len(),
            r@ == ascii_lower_seq(s@.take(i as int)),
        decreases s@.len() - i,
    {
        let c = to_ascii_lower_char(s[i]);
        r.push(c);
        i = i + 1;
        assert(r@ =~= ascii_lower_seq(s@.take(i as int)));
    }
    assert(s@.take(s@.len() as int) =~= s@);
    r
}

/// `eq_ignore_ascii_case`.
pub open spec fn eq_ic(a: Seq<char>, b: Seq<char>) -> bool {
    ascii_lower_seq(a) == ascii_lower_seq(b)
}

pub fn eq_ignore_ascii_case(a: &[char], b: &[char]) -> (r: bool)
    ensures
        r == eq_ic(a@, b@),
{
    if a.len() != b.len() {
        assert(ascii_lower_seq(a@).len() != ascii_lower_seq(b@).len());
        return false;
    }
    let mut i: usize = 0;
    while i < a.len()
        invariant
            a@.len() == b@.len(),
            0 <= i <= a@.len(),
            forall|k: int| 0 <= k < i ==> ascii_lower(a@[k]) == ascii_lower(b@[k]),
        decreases a@.len() - i,
    {
        if to_ascii_lower_char(a[i]) != to_ascii_lower_char(b[i]) {
            assert(ascii_lower_seq(a@)[i as int] != ascii_lower_seq(b@)[i as int]);
            return false;
        }
        i = i + 1;
    }
    assert(ascii_lower_seq(a@) =~= ascii_lower_seq(b@));
    true
}

/// Equality of character slices.
pub fn chars_eq(a: &[char], b: &[char]) -> (r: bool)
    ensures
        r == (a@ == b@),
{
    if a.len() != b.len() {
        return false;
    }
    let mut i: usize = 0;
    while i < a.len()
        invariant
            a@.len() == b@.len(),
            0 <= i <= a@.len(),
            forall|k: int| 0 <= k < i ==> a@[k] == b@[k],
        decreases a@.len() - i,
    {
        if a[i] != b[i] {
            return false;
        }
        i = i + 1;
    }
    assert(a@ =~= b@);
    true
}

// ---------------------------------------------------------------------------
// Searching and trimming.

/// Index of the first occurrence of `c` in `s`, if any.
pub open spec fn find_char(s: Seq<char>, c: char) -> Option<int>
    decreases s.len(),
{
    if s.len() == 0 {
        None
    } else if s[0] == c {
        Some(0)
    } else {
        match find_char(s.drop_first(), c) {
            Some(i) => Some(i + 1),
            None => None,
        }
    }
}

pub proof fn lemma_find_char(s: Seq<char>, c: char)
    ensures
        match find_char(s, c) {
            Some(i) => 0 <= i < s.len() && s[i] == c && forall|k: int| 0 <= k < i ==> s[k] != c,
            None => forall|k: int| 0 <= k < s.len() ==> s[k] != c,
        },
    decreases s.len(),
{
    if s.len() > 0 {
        lemma_find_char(s.drop_first(), c);
        if s[0] != c {
            match find_char(s.drop_first(), c) {
                Some(i) => {
                    assert forall|k: int| 0 <= k < i + 1 implies s[k] != c by {
                        if k > 0 {
                            assert(s[k] == s.drop_first()[k - 1]);
                        }
                    }
                },
                None => {
                    assert forall|k: int| 0 <= k < s.len() implies s[k] != c by {
                        if k > 0 {
                            assert(s[k] == s.drop_first()[k - 1]);
                        }
                    }
                },
            }
        }
    }
}

/// The first `k` characters of `s` all differ from `c` and `s[k] == c`
/// characterise `find_char`.
pub proof fn lemma_find_char_at(s: Seq<char>, c: char, k: int)
    requires
        0 <= k <= s.len(),
        forall|j: int| 0 <= j < k ==> s[j] != c,
        k < s.len() ==> s[k] == c,
    ensures
        find_char(s, c) == (if k < s.len() { Some(k) } else { None::<int> }),
{
    lemma_find_char(s, c);
    match find_char(s, c) {
        Some(i) => {
            if i < k {
            } else if k < i {
                assert(s[k] != c);
            }
        },
        None => {
            if k < s.len() {
                assert(s[k] != c);
            }
        },
    }
}

/// `s[a..b].find(c)`, as an absolute index.
pub fn find_char_in(s: &[char], a: usize, b: usize, c: char) -> (r: Option<usize>)
    requires
        a <= b <= s@.len(),
    ensures
        r == (match find_char(s@.subrange(a as int, b as int), c) {
            Some(i) => Some((i + a) as usize),
            None => None::<usize>,
        }),
        match r {
            Some(i) => a <= i < b && s@[i as int] == c,
            None => true,
        },
        match find_char(s@.subrange(a as int, b as int), c) {
            Some(k) => 0 <= k < b - a,
            None => true,
        },
{
    proof {
        lemma_find_char(s@.subrange(a as int, b as int), c);
    }
    let mut i: usize = a;
    while i < b
        invariant
            a <= i <= b <= s@.len(),
            forall|k: int| a <= k < i ==> s@[k] != c,
        decreases b - i,
    {
        if s[i] == c {
            proof {
                lemma_find_char_at(s@.subrange(a as int, b as int), c, i - a);
            }
            return Some(i);
        }
        i = i + 1;
    }
    proof {
        lemma_find_char_at(s@.subrange(a as int, b as int), c, b - a);
    }
    None
}

/// Index of the last occurrence of `c` in `s`.
pub open spec fn rfind_char(s: Seq<char>, c: char) -> Option<int>
    decreases s.len(),
{
    if s.len() == 0 {
        None
    } else if s.last() == c {
        Some(s.len() - 1)
    } else {
        rfind_char(s.drop_last(), c)
    }
}

pub proof fn lemma_rfind_char(s: Seq<char>, c: char)
    ensures
        match rfind_char(s, c) {
            Some(i) => 0 <= i < s.len() && s[i] == c && forall|k: int| i < k < s.len() ==> s[k] != c,
            None => forall|k: int| 0 <= k < s.len() ==> s[k] != c,
        },
    decreases s.len(),
{
    if s.len() > 0 {
        lemma_rfind_char(s.drop_last(), c);
        assert forall|k: int| 0 <= k < s.len() - 1 implies s.drop_last()[k] == s[k] by {}
    }
}

pub proof fn lemma_rfind_char_at(s: Seq<char>, c: char, k: int)
    requires
        -1 <= k < s.len(),
        forall|j: int| k < j < s.len() ==> s[j] != c,
        k >= 0 ==> s[k] == c,
    ensures
        rfind_char(s, c) == (if k >= 0 { Some(k) } else { None::<int> }),
{
    lemma_rfind_char(s, c);
    match rfind_char(s, c) {
        Some(i) => {
            if i < k {
                assert(s[k] != c);
            }
        },
        None => {
            if k >= 0 {
                assert(s[k] != c);
            }
        },
    }
}

/// `s[a..b].rfind(c)`, as an absolute index.
pub fn rfind_char_in(s: &[char], a: usize, b: usize, c: char) -> (r: Option<usize>)
    requires
        a <= b <= s@.len(),
    ensures
        r == (match rfind_char(s@.subrange(a as int, b as int), c) {
            Some(i) => Some((i + a) as usize),
            None => None::<usize>,
        }),
        match r {
            Some(i) => a <= i < b && s@[i as int] == c,
            None => true,
        },
        match rfind_char(s@.subrange(a as int, b as int), c) {
            Some(k) => 0 <= k < b - a,
            None => true,
        },
{
    proof {
        lemma_rfind_char(s@.subrange(a as int, b as int), c);
    }
    let mut i: usize = b;
    while i > a
        invariant
            a <= i <= b <= s@.len(),
            forall|k: int| i <= k < b ==> s@[k] != c,
        decreases i - a,
    {
        if s[i - 1] == c {
            proof {
                lemma_rfind_char_at(s@.subrange(a as int, b as int), c, i - 1 - a);
            }
            return Some(i - 1);
        }
        i = i - 1;
    }
    proof {
        lemma_rfind_char_at(s@.subrange(a as int, b as int), c, -1);
    }
    None
}

/// Start of `s` after leading whitespace (as a count of characters skipped).
pub open spec fn trim_start_len(s: Seq<char>) -> nat
    decreases s.len(),
{
    if s.len() > 0 && is_ws(s[0]) {
        1 + trim_start_len(s.drop_first())
    } else {
        0
    }
}

/// Length of `s` once trailing whitespace is removed.
pub open spec fn trim_end_len(s: Seq<char>) -> nat
    decreases s.len(),
{
    if s.len() > 0 && is_ws(s.last()) {
        trim_end_len(s.drop_last())
    } else {
        s.len()
    }
}

pub open spec fn trim_end(s: Seq<char>) -> Seq<char> {
    s.take(trim_end_len(s) as int)
}

pub open spec fn trim_start(s: Seq<char>) -> Seq<char> {
    s.skip(trim_start_len(s) as int)
}

/// `str::trim`.
pub open spec fn trim(s: Seq<char>) -> Seq<char> {
    trim_end(trim_start(s))
}

pub proof fn lemma_trim_start_len(s: Seq<char>)
    ensures
        trim_start_len(s) <= s.len(),
        forall|k: int| 0 <= k < trim_start_len(s) ==> is_ws(#[trigger] s[k]),
        trim_start_len(s) < s.len() ==> !is_ws(s[trim_start_len(s) as int]),
    decreases s.len(),
{
    if s.len() > 0 && is_ws(s[0]) {
        lemma_trim_start_len(s.drop_first());
        assert forall|k: int| 0 <= k < trim_start_len(s) implies is_ws(#[trigger] s[k]) by {
            if k > 0 {
                assert(s[k] == s.drop_first()[k - 1]);
            }
        }
    }
}

pub proof fn lemma_trim_start_at(s: Seq<char>, k: int)
    requires
        0 <= k <= s.len(),
        forall|j: int| 0 <= j < k ==> is_ws(#[trigger] s[j]),
        k < s.len() ==> !is_ws(s[k]),
    ensures
        trim_start_len(s) == k,
    decreases k,
{
    if k > 0 {
        assert(is_ws(s[0]));
        assert forall|j: int| 0 <= j < k - 1 implies is_ws(#[trigger] s.drop_first()[j]) by {
            assert(s.drop_first()[j] == s[j + 1]);
        }
        lemma_trim_start_at(s.drop_first(), k - 1);
    }
}

pub proof fn lemma_trim_end_len(s: Seq<char>)
    ensures
        trim_end_len(s) <= s.len(),
        forall|k: int| trim_end_len(s) <= k < s.len() ==> is_ws(#[trigger] s[k]),
        trim_end_len(s) > 0 ==> !is_ws(s[trim_end_len(s) - 1]),
    decreases s.len(),
{
    if s.len() > 0 && is_ws(s.last()) {
        lemma_trim_end_len(s.drop_last());
        assert forall|k: int| 0 <= k < s.len() - 1 implies s.drop_last()[k] == s[k] by {}
    }
}

pub proof fn lemma_trim_end_at(s: Seq<char>, k: int)
    requires
        0 <= k <= s.len(),
        forall|j: int| k <= j < s.len() ==> is_ws(#[trigger] s[j]),
        k > 0 ==> !is_ws(s[k - 1]),
    ensures
        trim_end_len(s) == k,
    decreases s.len(),
{
    if s.len() > k {
        assert(is_ws(s.last()));
        lemma_trim_end_at(s.drop_last(), k);
    }
}

/// Character range `[start, end)` of `s[a..b]` once surrounding whitespace is
/// trimmed.
pub fn trim_range(s: &[char], a: usize, b: usize) -> (r: (usize, usize))
    requires
        a <= b <= s@.len(),
    ensures
        a <= r.0 <= r.1 <= b,
        s@.subrange(r.0 as int, r.1 as int) == trim(s@.subrange(a as int, b as int)),
{
    let ghost sub = s@.subrange(a as int, b as int);
    let mut i: usize = a;
    while i < b && is_whitespace(s[i])
        invariant
            a <= i <= b <= s@.len(),
            sub == s@.subrange(a as int, b as int),
            forall|j: int| a <= j < i ==> is_ws(#[trigger] s@[j]),
        decreases b - i,
    {
        i = i + 1;
    }
    proof {
        assert forall|j: int| 0 <= j < i - a implies is_ws(#[trigger] sub[j]) by {
            assert(sub[j] == s@[j + a]);
        }
        lemma_trim_start_at(sub, i - a);
    }
    let ghost st = trim_start(sub);
    assert(st =~= s@.subrange(i as int, b as int));
    let mut j: usize = b;
    while j > i && is_whitespace(s[j - 1])
        invariant
            a <= i <= j <= b <= s@.len(),
            forall|k: int| j <= k < b ==> is_ws(#[trigger] s@[k]),
        decreases j - i,
    {
        j = j - 1;
    }
    proof {
        assert forall|k: int| j - i <= k < st.len() implies is_ws(#[trigger] st[k]) by {
            assert(st[k] == s@[k + i]);
        }
        lemma_trim_end_at(st, j - i);
        assert(trim(sub) =~= s@.subrange(i as int, j as int));
    }
    (i, j)
}

/// Character range of `s[a..b]` with trailing whitespace removed.
pub fn trim_end_range(s: &[char], a: usize, b: usize) -> (e: usize)
    requires
        a <= b <= s@.len(),
    ensures
        a <= e <= b,
        s@.subrange(a as int, e as int) == trim_end(s@.subrange(a as int, b as int)),
{
    let ghost sub = s@.subrange(a as int, b as int);
    let mut j: usize = b;
    while j > a && is_whitespace(s[j - 1])
        invariant
            a <= j <= b <= s@.len(),
            forall|k: int| j <= k < b ==> is_ws(#[trigger] s@[k]),
        decreases j - a,
    {
        j = j - 1;
    }
    proof {
        assert forall|k: int| j - a <= k < sub.len() implies is_ws(#[trigger] sub[k]) by {
            assert(sub[k] == s@[k + a]);
        }
        lemma_trim_end_at(sub, j - a);
        assert(trim_end(sub) =~= s@.subrange(a as int, j as int));
    }
    j
}

/// `str::trim` into a new string.
pub fn trimmed(s: &[char], a: usize, b: usize) -> (r: String)
    requires
        a <= b <= s@.len(),
    ensures
        r@ == trim(s@.subrange(a as int, b as int)),
{
    let (x, y) = trim_range(s, a, b);
    string_of(s, x, y)
}

/// Does `s[a..]` start with `p`?
pub open spec fn has_prefix_at(s: Seq<char>, a: int, p: Seq<char>) -> bool {
    a + p.len() <= s.len() && s.subrange(a, a + p.len()) == p
}

pub fn starts_with_at(s: &[char], a: usize, p: &[char]) -> (r: bool)
    requires
        a <= s@.len(),
    ensures
        r == has_prefix_at(s@, a as int, p@),
{
    if p.len() > s.len() - a {
        return false;
    }
    let mut i: usize = 0;
    while i < p.len()
        invariant
            a + p@.len() <= s@.len(),
            s@.len() <= usize::MAX,
            0 <= i <= p@.len(),
            forall|k: int| 0 <= k < i ==> s@[a + k] == p@[k],
        decreases p@.len() - i,
    {
        if s[a + i] != p[i] {
            assert(s@.subrange(a as int, a + p@.len())[i as int] != p@[i as int]);
            return false;
        }
        i = i + 1;
    }
    assert(s@.subrange(a as int, a + p@.len()) =~= p@);
    true
}

/// First index `k >= a` with `s[k..]` starting with `p`, searching up to `b`
/// (so a match must end by `b`).
pub open spec fn find_seq_from(s: Seq<char>, a: int, b: int, p: Seq<char>) -> Option<int>
    decreases b + 1 - a,
{
    if a + p.len() > b || a < 0 {
        None
    } else if s.subrange(a, a + p.len()) == p {
        Some(a)
    } else {
        find_seq_from(s, a + 1, b, p)
    }
}

pub proof fn lemma_find_seq_from(s: Seq<char>, a: int, b: int, p: Seq<char>)
    requires
        0 <= a,
        b <= s.len(),
    ensures
        match find_seq_from(s, a, b, p) {
            Some(k) => a <= k && k + p.len() <= b && s.subrange(k, k + p.len()) == p
                && forall|j: int| a <= j < k ==> #[trigger] s.subrange(j, j + p.len()) != p,
            None => forall|j: int| a <= j && j + p.len() <= b ==> #[trigger] s.subrange(j, j + p.len()) != p,
        },
    decreases b + 1 - a,
{
    if a + p.len() > b {
    } else if s.subrange(a, a + p.len()) == p {
    } else {
        lemma_find_seq_from(s, a + 1, b, p);
    }
}

/// `s[a..b].find(p)` as an absolute index, for a non-empty pattern.
pub fn find_seq(s: &[char], a: usize, b: usize, p: &[char]) -> (r: Option<usize>)
    requires
        a <= b <= s@.len(),
        p@.len() > 0,
    ensures
        r == (match find_seq_from(s@, a as int, b as int, p@) {
            Some(k) => Some(k as usize),
            None => None::<usize>,
        }),
{
    let mut i: usize = a;
    while i < b
        invariant
            a <= i <= b <= s@.len(),
            p@.len() > 0,
            find_seq_from(s@, a as int, b as int, p@) == find_seq_from(s@, i as int, b as int, p@),
        decreases b - i,
    {
        if p.len() <= b - i {
            let sub_b = i + p.len();
            let hit = starts_with_at(s, i, p);
            if hit {
                return Some(i);
            }
        }
        i = i + 1;
    }
    None
}

/// `str::trim_start_matches` with a single character.
pub open spec fn strip_leading(s: Seq<char>, c: char) -> Seq<char>
    decreases s.len(),
{
    if s.len() > 0 && s[0] == c {
        strip_leading(s.drop_first(), c)
    } else {
        s
    }
}

/// Drop every leading `c`.
pub fn strip_leading_char(v: &[char], a: usize, b: usize, c: char) -> (r: usize)
    requires
        a <= b <= v@.len(),
    ensures
        a <= r <= b,
        v@.subrange(r as int, b as int) == strip_leading(v@.subrange(a as int, b as int), c),
{
    let mut i = a;
    while i < b && v[i] == c
        invariant
            a <= i <= b <= v@.len(),
            strip_leading(v@.subrange(a as int, b as int), c) == strip_leading(v@.subrange(i as int, b as int), c),
        decreases b - i,
    {
        assert(v@.subrange(i as int, b as int).drop_first() =~= v@.subrange(i + 1, b as int));
        i = i + 1;
    }
    i
}

} // verus!
