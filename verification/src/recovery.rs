//! The recovery journal's rules.
//!
//! Every write to a note is atomic, so a crash can never leave a damaged
//! file. What it can leave behind is work the user did in the seconds since
//! the last autosave. The journal keeps unsaved buffers in the application's
//! data directory, outside the vault, and anything newer than the file it
//! belongs to is offered back on the next launch. This module decides what a
//! journal entry means and how entries are named; the host reads and writes
//! the files.
use vstd::prelude::*;
use vstd::utf8::encode_utf8;
use crate::digest::{hex_of, hex_prefix, sha256, sha256_digest};
use crate::strings::{chars_eq, push_char, str_to_string, to_chars};
use crate::vault::path::VaultPath;

verus! {

pub const RECOVERY_DIR: &'static str = "recovery";

/// One note's unsaved text.
#[derive(Debug, Clone)]
pub struct RecoveryEntry {
    pub path: VaultPath,
    pub content: String,
    /// When the journal entry was written.
    pub saved_ms: i64,
    /// The file's modification time when the buffer was opened, so a stale
    /// entry can be told from a genuinely newer one.
    pub base_modified_ms: i64,
}

/// What a recovery entry means, once the file it belongs to has been examined.
#[derive(Debug, Clone)]
pub struct RecoveryCandidate {
    pub path: VaultPath,
    /// The unsaved text.
    pub content: String,
    pub saved_ms: i64,
    /// True when the file on disk already holds this text, so there is nothing
    /// to recover and the entry is only waiting to be cleaned up.
    pub already_saved: bool,
    /// True when the file changed after the journal entry was written, so
    /// restoring would discard newer work.
    pub file_is_newer: bool,
}

pub struct CandidateView {
    pub path: Seq<char>,
    pub content: Seq<char>,
    pub saved_ms: i64,
    pub already_saved: bool,
    pub file_is_newer: bool,
}

impl View for RecoveryCandidate {
    type V = CandidateView;

    open spec fn view(&self) -> CandidateView {
        CandidateView {
            path: self.path@,
            content: self.content@,
            saved_ms: self.saved_ms,
            already_saved: self.already_saved,
            file_is_newer: self.file_is_newer,
        }
    }
}

/// An entry judged against its file: `on_disk` is the file's text and
/// modification time, or nothing when the file is gone (the entry is then
/// still offered, being the only copy of that text).
pub open spec fn classified(e: RecoveryEntry, on_disk: Option<(String, i64)>) -> CandidateView {
    CandidateView {
        path: e.path@,
        content: e.content@,
        saved_ms: e.saved_ms,
        already_saved: match on_disk {
            Some(d) => d.0@ == e.content@,
            None => false,
        },
        file_is_newer: match on_disk {
            Some(d) => d.1 > e.saved_ms,
            None => false,
        },
    }
}

pub open spec fn insert_newest(sorted: Seq<CandidateView>, c: CandidateView) -> Seq<CandidateView>
    decreases sorted.len(),
{
    if sorted.len() == 0 {
        seq![c]
    } else if !(c.saved_ms > sorted.last().saved_ms) {
        sorted.push(c)
    } else {
        insert_newest(sorted.drop_last(), c).push(sorted.last())
    }
}

/// A stable sort, newest entry first.
pub open spec fn newest_first(cs: Seq<CandidateView>) -> Seq<CandidateView>
    decreases cs.len(),
{
    if cs.len() == 0 {
        cs
    } else {
        insert_newest(newest_first(cs.drop_last()), cs.last())
    }
}

pub open spec fn classified_all(examined: Seq<(RecoveryEntry, Option<(String, i64)>)>) -> Seq<CandidateView> {
    examined.map_values(|x: (RecoveryEntry, Option<(String, i64)>)| classified(x.0, x.1))
}

pub open spec fn candidates_view(cs: Seq<RecoveryCandidate>) -> Seq<CandidateView> {
    cs.map_values(|c: RecoveryCandidate| c@)
}

proof fn lemma_insert_newest_at(sorted: Seq<CandidateView>, c: CandidateView, p: int)
    requires
        0 <= p <= sorted.len(),
        forall|j: int| p <= j < sorted.len() ==> c.saved_ms > (#[trigger] sorted[j]).saved_ms,
        p > 0 ==> !(c.saved_ms > sorted[p - 1].saved_ms),
    ensures
        insert_newest(sorted, c) == sorted.take(p).push(c) + sorted.skip(p),
    decreases sorted.len(),
{
    if sorted.len() == 0 {
        assert(sorted.take(p).push(c) + sorted.skip(p) =~= seq![c]);
    } else if p == sorted.len() {
        assert(sorted.take(p) =~= sorted);
        assert(sorted.take(p).push(c) + sorted.skip(p) =~= sorted.push(c));
    } else {
        lemma_insert_newest_at(sorted.drop_last(), c, p);
        assert(sorted.drop_last().take(p) =~= sorted.take(p));
        assert(sorted.drop_last().skip(p).push(sorted.last()) =~= sorted.skip(p));
        assert((sorted.take(p).push(c) + sorted.drop_last().skip(p)).push(sorted.last())
            =~= sorted.take(p).push(c) + sorted.skip(p));
    }
}

fn classify(entry: RecoveryEntry, on_disk: Option<(String, i64)>) -> (r: RecoveryCandidate)
    ensures
        r@ == classified(entry, on_disk),
{
    let (already_saved, file_is_newer) = match &on_disk {
        Some(d) => (chars_eq(&to_chars(d.0.as_str()), &to_chars(entry.content.as_str())), d.1 > entry.saved_ms),
        None => (false, false),
    };
    RecoveryCandidate {
        path: entry.path,
        content: entry.content,
        saved_ms: entry.saved_ms,
        already_saved,
        file_is_newer,
    }
}

/// The journal's entries, each with what its file holds now (text and
/// modification time, or nothing when the file is gone), classified and
/// ordered newest first; entries saved at the same moment keep their order.
pub fn candidates_from(examined: Vec<(RecoveryEntry, Option<(String, i64)>)>) -> (r: Vec<RecoveryCandidate>)
    ensures
        candidates_view(r@) == newest_first(classified_all(examined@)),
{
    let ghost ev = classified_all(examined@);
    let mut rest = examined;
    let mut out: Vec<RecoveryCandidate> = Vec::new();
    let ghost mut done: int = 0;
    assert(ev.take(0) =~= Seq::<CandidateView>::empty());
    assert(candidates_view(out@) =~= Seq::<CandidateView>::empty());
    while rest.len() > 0
        invariant
            0 <= done <= ev.len(),
            classified_all(rest@) == ev.skip(done),
            candidates_view(out@) == newest_first(ev.take(done)),
        decreases rest@.len(),
    {
        let ghost before_rest = rest@;
        let (entry, on_disk) = rest.remove(0);
        assert(ev.skip(done).len() == before_rest.len());
        assert(classified_all(before_rest)[0] == classified(entry, on_disk));
        assert(classified_all(rest@) =~= ev.skip(done + 1)) by {
            assert(classified_all(rest@) =~= classified_all(before_rest).drop_first());
        }
        let c = classify(entry, on_disk);
        let ghost sv = candidates_view(out@);
        assert(ev.take(done + 1).drop_last() =~= ev.take(done));
        assert(ev.take(done + 1).last() == c@);
        let mut p = out.len();
        while p > 0 && c.saved_ms > out[p - 1].saved_ms
            invariant
                p <= out@.len(),
                sv == candidates_view(out@),
                forall|j: int| p <= j < out@.len() ==> c.saved_ms > (#[trigger] sv[j]).saved_ms,
            decreases p,
        {
            assert(sv[p - 1] == out@[p - 1]@);
            p = p - 1;
        }
        proof {
            if p > 0 {
                assert(sv[p - 1] == out@[p - 1]@);
            }
            lemma_insert_newest_at(sv, c@, p as int);
        }
        let ghost cv = c@;
        out.insert(p, c);
        assert(candidates_view(out@) =~= sv.take(p as int).push(cv) + sv.skip(p as int));
        proof {
            done = done + 1;
        }
    }
    assert(ev.take(done) =~= ev);
    out
}

/// Whether pruning removes a candidate: its text is already on disk, or it
/// is older than `max_age_ms`.
pub fn is_prunable(candidate: &RecoveryCandidate, now_ms: i64, max_age_ms: i64) -> (r: bool)
    requires
        i64::MIN <= now_ms - candidate.saved_ms <= i64::MAX,
    ensures
        r == (candidate.already_saved || now_ms - candidate.saved_ms > max_age_ms),
{
    candidate.already_saved || now_ms - candidate.saved_ms > max_age_ms
}

/// The file name a path's entry is journalled under: the first twelve bytes
/// of the SHA-256 of the path, in hexadecimal.
pub fn key_for(path: &VaultPath) -> (r: String)
    ensures
        r@ == hex_of(sha256_digest(encode_utf8(path@)).take(12)),
{
    let digest = sha256(path.as_str().as_bytes());
    hex_prefix(&digest, 12)
}

pub open spec fn id_char(c: char) -> char {
    if ('a' <= c <= 'z') || ('A' <= c <= 'Z') || ('0' <= c <= '9') || c == '-' {
        c
    } else {
        '_'
    }
}

/// A vault id made safe as a directory name: letters, digits and `-` kept,
/// everything else `_`, at most 64 characters, and never empty.
pub open spec fn sanitized_id(id: Seq<char>) -> Seq<char> {
    let n = if id.len() < 64 { id.len() } else { 64 };
    if n == 0 {
        "unnamed"@
    } else {
        Seq::new(n as nat, |i: int| id_char(id[i]))
    }
}

/// Sanitise a vault id before it becomes a directory name: it comes from the
/// vault's own settings file, which the user could have edited.
pub fn sanitize_id(id: &str) -> (r: String)
    ensures
        r@ == sanitized_id(id@),
{
    let v = to_chars(id);
    let n: usize = if v.len() < 64 { v.len() } else { 64 };
    if n == 0 {
        return str_to_string("unnamed");
    }
    let mut out = String::new();
    let mut i: usize = 0;
    while i < n
        invariant
            i <= n <= v@.len(),
            n <= 64,
            out@ == Seq::new(i as nat, |k: int| id_char(v@[k])),
        decreases n - i,
    {
        let c = v[i];
        let keep = ('a' <= c && c <= 'z') || ('A' <= c && c <= 'Z') || ('0' <= c && c <= '9') || c == '-';
        if keep {
            push_char(&mut out, c);
        } else {
            push_char(&mut out, '_');
        }
        assert(out@ =~= Seq::new((i + 1) as nat, |k: int| id_char(v@[k])));
        i = i + 1;
    }
    out
}

// ---------------------------------------------------------------------------
// Laws.

pub open spec fn newest_to_oldest(cs: Seq<CandidateView>) -> bool {
    forall|i: int, j: int| 0 <= i < j < cs.len() ==> (#[trigger] cs[i]).saved_ms >= (#[trigger] cs[j]).saved_ms
}

proof fn lemma_insert_newest_sorted(sorted: Seq<CandidateView>, c: CandidateView)
    requires
        newest_to_oldest(sorted),
    ensures
        newest_to_oldest(insert_newest(sorted, c)),
        insert_newest(sorted, c).len() == sorted.len() + 1,
        forall|k: int| 0 <= k < sorted.len() + 1 ==> #[trigger] insert_newest(sorted, c)[k] == c
            || exists|j: int| 0 <= j < sorted.len() && insert_newest(sorted, c)[k] == sorted[j],
    decreases sorted.len(),
{
    if sorted.len() == 0 {
    } else if !(c.saved_ms > sorted.last().saved_ms) {
        let r = sorted.push(c);
        assert forall|k: int| 0 <= k < sorted.len() + 1 implies #[trigger] r[k] == c || exists|j: int| 0 <= j < sorted.len() && r[k] == sorted[j] by {
            if k < sorted.len() {
                assert(r[k] == sorted[k]);
            }
        }
    } else {
        let rest = sorted.drop_last();
        lemma_insert_newest_sorted(rest, c);
        let ins = insert_newest(rest, c);
        let r = ins.push(sorted.last());
        assert forall|i: int, j: int| 0 <= i < j < r.len() implies (#[trigger] r[i]).saved_ms >= (#[trigger] r[j]).saved_ms by {
            if j == r.len() - 1 {
                assert(r[j] == sorted.last());
                assert(r[i] == ins[i]);
                if ins[i] != c {
                    let m = choose|m: int| 0 <= m < rest.len() && ins[i] == rest[m];
                    assert(rest[m] == sorted[m]);
                }
            } else {
                assert(r[i] == ins[i] && r[j] == ins[j]);
            }
        }
        assert forall|k: int| 0 <= k < sorted.len() + 1 implies #[trigger] r[k] == c || exists|j: int| 0 <= j < sorted.len() && r[k] == sorted[j] by {
            if k == sorted.len() {
                assert(r[k] == sorted[sorted.len() - 1]);
            } else {
                assert(r[k] == ins[k]);
                if ins[k] != c {
                    let m = choose|m: int| 0 <= m < rest.len() && ins[k] == rest[m];
                    assert(rest[m] == sorted[m]);
                }
            }
        }
    }
}

/// Recovery candidates come newest first, and none is lost or added.
pub proof fn law_candidates_come_newest_first(cs: Seq<CandidateView>)
    ensures
        newest_to_oldest(newest_first(cs)),
        newest_first(cs).len() == cs.len(),
    decreases cs.len(),
{
    if cs.len() > 0 {
        law_candidates_come_newest_first(cs.drop_last());
        lemma_insert_newest_sorted(newest_first(cs.drop_last()), cs.last());
    }
}

/// A sanitised vault id is a safe directory name: one to sixty-four
/// letters, digits, `-` and `_`.
pub proof fn law_sanitized_id_is_a_safe_name(id: Seq<char>)
    ensures
        1 <= sanitized_id(id).len() <= 64,
        forall|k: int| 0 <= k < sanitized_id(id).len() ==> {
            let c = #[trigger] sanitized_id(id)[k];
            ('a' <= c <= 'z') || ('A' <= c <= 'Z') || ('0' <= c <= '9') || c == '-' || c == '_'
        },
{
    reveal_strlit("unnamed");
}

} // verus!
