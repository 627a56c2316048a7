//! Logging levels. Logs go to a rotating file in the platform's log
//! directory, which the host sets up, and never to the user interface.
use vstd::prelude::*;
use crate::strings::{
    decimal, find_char, find_char_in, join_strings, joined, lemma_find_char, push_decimal, str_to_string, string_of,
    texts_view, to_chars,
};

verus! {

#[derive(Debug, Clone, Copy, PartialEq, Eq, PartialOrd, Ord, Structural)]
pub enum LogLevel {
    Debug,
    Info,
    Warn,
    Error,
}

impl LogLevel {
    /// The filter directive that selects this level and above.
    pub fn as_filter(self) -> (r: &'static str)
        ensures
            r@ == match self {
                LogLevel::Debug => "debug"@,
                LogLevel::Info => "info"@,
                LogLevel::Warn => "warn"@,
                LogLevel::Error => "error"@,
            },
    {
        match self {
            LogLevel::Debug => "debug",
            LogLevel::Info => "info",
            LogLevel::Warn => "warn",
            LogLevel::Error => "error",
        }
    }
}

/// Keep this many rotated files. Enough to cover a few sessions, few enough
/// that a long-running install does not fill a disk.
pub const MAX_LOG_FILES: usize = 5;

/// Rotate once a file passes this size.
pub const MAX_LOG_BYTES: u64 = 2097152;

/// The current log file's name.
pub const LOG_FILE: &'static str = "inner-empire.log";

/// Does a log file of `len` bytes (if it exists) need rotating?
pub fn needs_rotation(len: Option<u64>) -> (r: bool)
    ensures
        r == match len {
            Some(n) => n > MAX_LOG_BYTES,
            None => false,
        },
{
    match len {
        Some(n) => n > MAX_LOG_BYTES,
        None => false,
    }
}

/// The name of the `index`-th rotated log.
pub open spec fn rotated_log(index: nat) -> Seq<char> {
    "inner-empire.log."@ + decimal(index)
}

pub fn rotated_log_name(index: usize) -> (r: String)
    ensures
        r@ == rotated_log(index as nat),
{
    let mut out = str_to_string("inner-empire.log.");
    push_decimal(&mut out, index);
    out
}

/// The renames of a rotation, in order, after the oldest rotated file is
/// removed: each rotated file one place older, from the second-oldest
/// down, then the current file to the first place. A rename whose source
/// is missing is skipped.
pub open spec fn rotation_steps_spec() -> Seq<(Seq<char>, Seq<char>)> {
    Seq::new(
        MAX_LOG_FILES as nat,
        |k: int| if k < MAX_LOG_FILES - 1 {
            (rotated_log((MAX_LOG_FILES - 1 - k) as nat), rotated_log((MAX_LOG_FILES - k) as nat))
        } else {
            ("inner-empire.log"@, rotated_log(1))
        },
    )
}

/// The rotation's renames (see `rotation_steps_spec`).
pub fn rotation_steps() -> (r: Vec<(String, String)>)
    ensures
        r@.len() == MAX_LOG_FILES,
        forall|k: int| 0 <= k < r@.len() ==> (#[trigger] r@[k]).0@ == rotation_steps_spec()[k].0 && r@[k].1@
            == rotation_steps_spec()[k].1,
{
    let mut out: Vec<(String, String)> = Vec::new();
    let mut index: usize = MAX_LOG_FILES - 1;
    while index >= 1
        invariant
            0 <= index < MAX_LOG_FILES,
            out@.len() == MAX_LOG_FILES - 1 - index,
            forall|k: int| 0 <= k < out@.len() ==> (#[trigger] out@[k]).0@ == rotation_steps_spec()[k].0
                && out@[k].1@ == rotation_steps_spec()[k].1,
        decreases index,
    {
        out.push((rotated_log_name(index), rotated_log_name(index + 1)));
        index = index - 1;
    }
    out.push((str_to_string("inner-empire.log"), rotated_log_name(1)));
    out
}

/// A line without the `\r` of a `\r\n` ending.
pub open spec fn without_cr(l: Seq<char>) -> Seq<char> {
    if l.len() > 0 && l.last() == '\r' {
        l.drop_last()
    } else {
        l
    }
}

/// `str::lines`: the text cut at each `\n`, a `\r` before it dropped; a
/// final line ending adds no empty line.
pub open spec fn text_lines(s: Seq<char>) -> Seq<Seq<char>>
    decreases s.len(),
{
    if s.len() == 0 {
        Seq::<Seq<char>>::empty()
    } else {
        match find_char(s, '\n') {
            None => seq![s],
            Some(i) => {
                proof {
                    lemma_find_char(s, '\n');
                }
                seq![without_cr(s.take(i))] + text_lines(s.skip(i + 1))
            },
        }
    }
}

/// The last `n` lines of a log's text, oldest first, one per line.
pub open spec fn tail_text(s: Seq<char>, n: nat) -> Seq<char> {
    let ls = text_lines(s);
    joined(ls.skip(if ls.len() > n { ls.len() - n } else { 0 }), "\n"@)
}

/// The tail of a log, for the "copy diagnostics" button (see `tail_text`).
pub fn tail_of(text: &str, lines: usize) -> (r: String)
    ensures
        r@ == tail_text(text@, lines as nat),
{
    let v = to_chars(text);
    let n = v.len();
    let mut all: Vec<String> = Vec::new();
    let mut pos: usize = 0;
    assert(v@.subrange(0, n as int) =~= text@);
    while pos < n
        invariant
            pos <= n == v@.len(),
            v@ == text@,
            texts_view(all@) + text_lines(v@.subrange(pos as int, n as int)) == text_lines(text@),
        decreases n - pos,
    {
        let ghost sub = v@.subrange(pos as int, n as int);
        let ghost before = texts_view(all@);
        proof {
            lemma_find_char(sub, '\n');
        }
        match find_char_in(&v, pos, n, '\n') {
            Some(i) => {
                let e = if i > pos && v[i - 1] == '\r' { i - 1 } else { i };
                all.push(string_of(&v, pos, e));
                proof {
                    let k = (i - pos) as int;
                    assert(sub.take(k) =~= v@.subrange(pos as int, i as int));
                    assert(sub.skip(k + 1) =~= v@.subrange(i + 1, n as int));
                    if i > pos && v@[i - 1] == '\r' {
                        assert(v@.subrange(pos as int, e as int) =~= v@.subrange(pos as int, i as int).drop_last());
                    }
                    assert(texts_view(all@) =~= before.push(without_cr(sub.take(k))));
                    assert(text_lines(sub) == seq![without_cr(sub.take(k))] + text_lines(sub.skip(k + 1)));
                    assert(before.push(without_cr(sub.take(k))) + text_lines(sub.skip(k + 1)) =~= before + text_lines(sub));
                }
                pos = i + 1;
            },
            None => {
                all.push(string_of(&v, pos, n));
                proof {
                    assert(text_lines(sub) == seq![sub]);
                    assert(texts_view(all@) =~= before.push(sub));
                    assert(v@.subrange(n as int, n as int) =~= Seq::<char>::empty());
                    assert(before.push(sub) + Seq::<Seq<char>>::empty() =~= before + seq![sub]);
                }
                pos = n;
            },
        }
    }
    assert(v@.subrange(n as int, n as int) =~= Seq::<char>::empty());
    assert(texts_view(all@) + Seq::<Seq<char>>::empty() =~= texts_view(all@));
    let start: usize = if all.len() > lines { all.len() - lines } else { 0 };
    let mut kept: Vec<String> = Vec::new();
    let mut k: usize = start;
    while k < all.len()
        invariant
            start <= k <= all@.len(),
            texts_view(kept@) == texts_view(all@).subrange(start as int, k as int),
        decreases all@.len() - k,
    {
        let ghost before = texts_view(kept@);
        kept.push(crate::strings::clone_string(&all[k]));
        assert(texts_view(kept@) =~= before.push(all@[k as int]@));
        assert(texts_view(all@)[k as int] == all@[k as int]@);
        assert(texts_view(all@).subrange(start as int, k + 1) =~= texts_view(all@).subrange(start as int, k as int).push(
            all@[k as int]@,
        ));
        k = k + 1;
    }
    assert(texts_view(all@).subrange(start as int, all@.len() as int) =~= texts_view(all@).skip(start as int));
    join_strings(&kept, "\n")
}

} // verus!
