//! The in-vault trash's rules and manifest.
//!
//! Deletion must be recoverable, but it must not depend on the OS. So the
//! trash is a folder inside the vault with a manifest, which works the same
//! everywhere and travels with the vault. This module holds what is decided
//! about it; the host moves the files.
use vstd::prelude::*;
use crate::error::{CoreError, Result};
use crate::strings::{chars_eq, clone_string, push_char, push_str, str_to_string, to_chars, has_prefix_at};
use crate::vault::fileops::{all_taken, candidate, candidate_fails, first_free, refused_is};
use crate::vault::path::{app_dir, file_name_of, VaultPath};

verus! {

pub const TRASH_DIR: &'static str = "trash";

pub const MANIFEST_FILE: &'static str = "trash.json";

/// One deleted item.
#[derive(Debug, Clone)]
pub struct TrashEntry {
    pub id: String,
    /// Where it was when it was deleted, so restore can put it back.
    pub original_path: VaultPath,
    pub trashed_ms: i64,
    /// Name inside the trash folder. Prefixed with the id so two files called
    /// `Untitled.md` can both be in the trash at once.
    pub stored_as: String,
    pub is_dir: bool,
    pub size: u64,
}

pub struct TrashEntryView {
    pub id: Seq<char>,
    pub original_path: Seq<char>,
    pub trashed_ms: i64,
    pub stored_as: Seq<char>,
    pub is_dir: bool,
    pub size: u64,
}

impl View for TrashEntry {
    type V = TrashEntryView;

    open spec fn view(&self) -> TrashEntryView {
        TrashEntryView {
            id: self.id@,
            original_path: self.original_path@,
            trashed_ms: self.trashed_ms,
            stored_as: self.stored_as@,
            is_dir: self.is_dir,
            size: self.size,
        }
    }
}

/// The manifest: every item in the trash, in the order they were deleted.
#[derive(Debug, Clone)]
pub struct TrashManifest {
    pub entries: Vec<TrashEntry>,
}

pub open spec fn entries_view(es: Seq<TrashEntry>) -> Seq<TrashEntryView> {
    es.map_values(|e: TrashEntry| e@)
}

impl Default for TrashManifest {
    fn default() -> (r: TrashManifest)
        ensures
            r.entries@.len() == 0,
    {
        TrashManifest { entries: Vec::new() }
    }
}

/// The first entry with the id `id`.
pub open spec fn first_with_id(es: Seq<TrashEntryView>, id: Seq<char>) -> Option<int> {
    if exists|k: int| 0 <= k < es.len() && (#[trigger] es[k]).id == id {
        Some(choose|k: int| 0 <= k < es.len() && (#[trigger] es[k]).id == id && forall|j: int| 0 <= j < k ==> (#[trigger] es[j]).id != id)
    } else {
        None
    }
}

pub open spec fn insert_newest(sorted: Seq<TrashEntryView>, e: TrashEntryView) -> Seq<TrashEntryView>
    decreases sorted.len(),
{
    if sorted.len() == 0 {
        seq![e]
    } else if !(e.trashed_ms > sorted.last().trashed_ms) {
        sorted.push(e)
    } else {
        insert_newest(sorted.drop_last(), e).push(sorted.last())
    }
}

/// A stable sort, most recently deleted first.
pub open spec fn newest_first(es: Seq<TrashEntryView>) -> Seq<TrashEntryView>
    decreases es.len(),
{
    if es.len() == 0 {
        es
    } else {
        insert_newest(newest_first(es.drop_last()), es.last())
    }
}

/// The ids of the entries deleted more than `max_age_ms` before `now_ms`, in
/// manifest order.
pub open spec fn expired_ids(es: Seq<TrashEntryView>, now_ms: int, max_age_ms: int) -> Seq<Seq<char>>
    decreases es.len(),
{
    if es.len() == 0 {
        Seq::<Seq<char>>::empty()
    } else {
        let rest = expired_ids(es.drop_last(), now_ms, max_age_ms);
        if now_ms - es.last().trashed_ms > max_age_ms {
            rest.push(es.last().id)
        } else {
            rest
        }
    }
}

/// Every entry's age fits an `i64`.
pub open spec fn ages_fit(es: Seq<TrashEntryView>, now_ms: int) -> bool {
    forall|k: int| 0 <= k < es.len() ==> i64::MIN <= now_ms - (#[trigger] es[k]).trashed_ms <= i64::MAX
}

proof fn lemma_insert_newest_at(sorted: Seq<TrashEntryView>, e: TrashEntryView, p: int)
    requires
        0 <= p <= sorted.len(),
        forall|j: int| p <= j < sorted.len() ==> e.trashed_ms > (#[trigger] sorted[j]).trashed_ms,
        p > 0 ==> !(e.trashed_ms > sorted[p - 1].trashed_ms),
    ensures
        insert_newest(sorted, e) == sorted.take(p).push(e) + sorted.skip(p),
    decreases sorted.len(),
{
    if sorted.len() == 0 {
        assert(sorted.take(p).push(e) + sorted.skip(p) =~= seq![e]);
    } else if p == sorted.len() {
        assert(sorted.take(p) =~= sorted);
        assert(sorted.take(p).push(e) + sorted.skip(p) =~= sorted.push(e));
    } else {
        lemma_insert_newest_at(sorted.drop_last(), e, p);
        assert(sorted.drop_last().take(p) =~= sorted.take(p));
        assert(sorted.drop_last().skip(p).push(sorted.last()) =~= sorted.skip(p));
        assert((sorted.take(p).push(e) + sorted.drop_last().skip(p)).push(sorted.last())
            =~= sorted.take(p).push(e) + sorted.skip(p));
    }
}

fn clone_entry(e: &TrashEntry) -> (r: TrashEntry)
    ensures
        r@ == e@,
{
    TrashEntry {
        id: clone_string(&e.id),
        original_path: e.original_path.clone(),
        trashed_ms: e.trashed_ms,
        stored_as: clone_string(&e.stored_as),
        is_dir: e.is_dir,
        size: e.size,
    }
}

impl TrashManifest {
    /// Where the entry with the id `id` stands, if one does.
    pub fn find(&self, id: &str) -> (r: Option<usize>)
        ensures
            match first_with_id(entries_view(self.entries@), id@) {
                Some(k) => r == Some(k as usize),
                None => r is None,
            },
    {
        let ghost ev = entries_view(self.entries@);
        let target = to_chars(id);
        let mut i: usize = 0;
        while i < self.entries.len()
            invariant
                ev == entries_view(self.entries@),
                target@ == id@,
                i <= self.entries@.len(),
                forall|j: int| 0 <= j < i ==> (#[trigger] ev[j]).id != id@,
            decreases self.entries@.len() - i,
        {
            assert(ev[i as int] == self.entries@[i as int]@);
            if chars_eq(&to_chars(self.entries[i].id.as_str()), &target) {
                assert(ev[i as int].id == id@);
                let ghost k = choose|k: int| 0 <= k < ev.len() && (#[trigger] ev[k]).id == id@ && forall|j: int| 0 <= j < k ==> (#[trigger] ev[j]).id != id@;
                assert(k == i) by {
                    if k < i {
                        assert(ev[k].id != id@);
                    } else if k > i {
                        assert(ev[i as int].id != id@);
                    }
                }
                return Some(i);
            }
            i = i + 1;
        }
        None
    }

    /// The entries, most recently deleted first; entries deleted at the same
    /// moment keep their manifest order.
    pub fn newest_first(&self) -> (r: Vec<TrashEntry>)
        ensures
            entries_view(r@) == newest_first(entries_view(self.entries@)),
    {
        let ghost ev = entries_view(self.entries@);
        let mut out: Vec<TrashEntry> = Vec::new();
        let mut i: usize = 0;
        assert(ev.take(0) =~= Seq::<TrashEntryView>::empty());
        assert(entries_view(out@) =~= Seq::<TrashEntryView>::empty());
        while i < self.entries.len()
            invariant
                ev == entries_view(self.entries@),
                i <= self.entries@.len(),
                entries_view(out@) == newest_first(ev.take(i as int)),
            decreases self.entries@.len() - i,
        {
            let e = clone_entry(&self.entries[i]);
            assert(ev[i as int] == e@);
            assert(ev.take(i + 1).drop_last() =~= ev.take(i as int));
            assert(ev.take(i + 1).last() == e@);
            let ghost sv = entries_view(out@);
            let mut p = out.len();
            while p > 0 && e.trashed_ms > out[p - 1].trashed_ms
                invariant
                    p <= out@.len(),
                    sv == entries_view(out@),
                    forall|j: int| p <= j < out@.len() ==> e.trashed_ms > (#[trigger] sv[j]).trashed_ms,
                decreases p,
            {
                assert(sv[p - 1] == out@[p - 1]@);
                p = p - 1;
            }
            proof {
                if p > 0 {
                    assert(sv[p - 1] == out@[p - 1]@);
                }
                lemma_insert_newest_at(sv, e@, p as int);
            }
            let ghost ew = e@;
            out.insert(p, e);
            assert(entries_view(out@) =~= sv.take(p as int).push(ew) + sv.skip(p as int));
            i = i + 1;
        }
        assert(ev.take(i as int) =~= ev);
        out
    }

    /// The ids of the entries deleted more than `max_age_ms` before `now_ms`,
    /// in manifest order: what retention removes.
    pub fn expired(&self, now_ms: i64, max_age_ms: i64) -> (r: Vec<String>)
        requires
            ages_fit(entries_view(self.entries@), now_ms as int),
        ensures
            r@.map_values(|s: String| s@) == expired_ids(entries_view(self.entries@), now_ms as int, max_age_ms as int),
    {
        let ghost ev = entries_view(self.entries@);
        let mut out: Vec<String> = Vec::new();
        let mut i: usize = 0;
        assert(out@.map_values(|s: String| s@) =~= Seq::<Seq<char>>::empty());
        while i < self.entries.len()
            invariant
                ev == entries_view(self.entries@),
                i <= self.entries@.len(),
                ages_fit(ev, now_ms as int),
                out@.map_values(|s: String| s@) == expired_ids(ev.take(i as int), now_ms as int, max_age_ms as int),
            decreases self.entries@.len() - i,
        {
            assert(ev[i as int] == self.entries@[i as int]@);
            assert(ev.take(i + 1).drop_last() =~= ev.take(i as int));
            assert(ev.take(i + 1).last() == ev[i as int]);
            let age = now_ms - self.entries[i].trashed_ms;
            if age > max_age_ms {
                let ghost before = out@.map_values(|s: String| s@);
                out.push(clone_string(&self.entries[i].id));
                assert(out@.map_values(|s: String| s@) =~= before.push(ev[i as int].id));
            }
            i = i + 1;
        }
        assert(ev.take(i as int) =~= ev);
        out
    }
}

/// Why `path` cannot go to the trash, if it cannot: the vault root, and the
/// files the application owns, are refused.
pub open spec fn trash_refusal(path: Seq<char>) -> Option<Seq<char>> {
    if path.len() == 0 {
        Some("the vault root cannot be deleted"@)
    } else if path == app_dir() || has_prefix_at(path, 0, app_dir() + seq!['/']) {
        Some("files the application owns cannot be deleted from the explorer"@)
    } else {
        None
    }
}

/// Check that `path` may be moved to the trash.
pub fn check_trashable(path: &VaultPath) -> (r: Result<()>)
    ensures
        match trash_refusal(path@) {
            Some(reason) => r matches Err(CoreError::Refused { operation, reason: why })
                && operation@ == "trash"@ && why@ == reason,
            None => r is Ok,
        },
{
    if path.is_root() {
        return Err(CoreError::Refused {
            operation: str_to_string("trash"),
            reason: str_to_string("the vault root cannot be deleted"),
        });
    }
    if path.is_app_internal() {
        return Err(CoreError::Refused {
            operation: str_to_string("trash"),
            reason: str_to_string("files the application owns cannot be deleted from the explorer"),
        });
    }
    Ok(())
}

/// The name an item is stored under inside the trash folder: its id, `-`,
/// and its own name.
pub fn stored_name(id: &str, path: &VaultPath) -> (r: String)
    ensures
        r@ == id@ + seq!['-'] + file_name_of(path@),
{
    let mut out = str_to_string(id);
    push_char(&mut out, '-');
    push_str(&mut out, path.file_name());
    out
}

/// The refusal of a restore whose id names nothing in the trash.
pub fn no_such_entry(id: &str) -> (r: CoreError)
    ensures
        refused_is(r, "restore"@, "nothing in the trash has the id "@ + id@),
{
    let mut reason = str_to_string("nothing in the trash has the id ");
    push_str(&mut reason, id);
    CoreError::Refused { operation: str_to_string("restore"), reason }
}

/// Where a restored entry lands: its original path if that is free, else a
/// numbered sibling, `Note (1).md`, `Note (2).md`, … up to 999, so nothing
/// that now occupies the path is overwritten. `taken` is whether a path is
/// in use.
pub fn restore_destination<F: Fn(&VaultPath) -> bool>(desired: &VaultPath, taken: F) -> (r: Result<VaultPath>)
    requires
        forall|p: &VaultPath| call_requires(taken, (p,)),
    ensures
        exists|tried: Seq<VaultPath>|
            #![trigger all_taken(taken, tried, desired@, true)]
            {
                &&& all_taken(taken, tried, desired@, true)
                &&& match r {
                    Ok(p) => tried.len() < 1000 && candidate(desired@, tried.len() as int, true) == Ok::<
                        Seq<char>,
                        (Seq<char>, Seq<char>),
                    >(p@) && call_ensures(taken, (&p,), false),
                    Err(e) => (tried.len() == 1000 && refused_is(
                        e,
                        "restore"@,
                        "could not find a free name to restore into"@,
                    )) || (1 <= tried.len() < 1000 && candidate_fails(e, desired@, tried.len() as int, true)),
                }
            },
{
    first_free(desired, taken, true, 1000, "restore", "could not find a free name to restore into")
}

// ---------------------------------------------------------------------------
// Laws.

pub open spec fn newest_to_oldest(es: Seq<TrashEntryView>) -> bool {
    forall|i: int, j: int| 0 <= i < j < es.len() ==> (#[trigger] es[i]).trashed_ms >= (#[trigger] es[j]).trashed_ms
}

proof fn lemma_insert_newest_sorted(sorted: Seq<TrashEntryView>, e: TrashEntryView)
    requires
        newest_to_oldest(sorted),
    ensures
        newest_to_oldest(insert_newest(sorted, e)),
        insert_newest(sorted, e).len() == sorted.len() + 1,
        forall|k: int| 0 <= k < sorted.len() + 1 ==> #[trigger] insert_newest(sorted, e)[k] == e
            || exists|j: int| 0 <= j < sorted.len() && insert_newest(sorted, e)[k] == sorted[j],
    decreases sorted.len(),
{
    if sorted.len() == 0 {
    } else if !(e.trashed_ms > sorted.last().trashed_ms) {
        let r = sorted.push(e);
        assert forall|k: int| 0 <= k < sorted.len() + 1 implies #[trigger] r[k] == e || exists|j: int| 0 <= j < sorted.len() && r[k] == sorted[j] by {
            if k < sorted.len() {
                assert(r[k] == sorted[k]);
            }
        }
    } else {
        let rest = sorted.drop_last();
        lemma_insert_newest_sorted(rest, e);
        let ins = insert_newest(rest, e);
        let r = ins.push(sorted.last());
        assert forall|i: int, j: int| 0 <= i < j < r.len() implies (#[trigger] r[i]).trashed_ms >= (#[trigger] r[j]).trashed_ms by {
            if j == r.len() - 1 {
                assert(r[j] == sorted.last());
                assert(r[i] == ins[i]);
                if ins[i] != e {
                    let m = choose|m: int| 0 <= m < rest.len() && ins[i] == rest[m];
                    assert(rest[m] == sorted[m]);
                }
            } else {
                assert(r[i] == ins[i] && r[j] == ins[j]);
            }
        }
        assert forall|k: int| 0 <= k < sorted.len() + 1 implies #[trigger] r[k] == e || exists|j: int| 0 <= j < sorted.len() && r[k] == sorted[j] by {
            if k == sorted.len() {
                assert(r[k] == sorted[sorted.len() - 1]);
            } else {
                assert(r[k] == ins[k]);
                if ins[k] != e {
                    let m = choose|m: int| 0 <= m < rest.len() && ins[k] == rest[m];
                    assert(rest[m] == sorted[m]);
                }
            }
        }
    }
}

/// The trash lists the most recently deleted first, and lists every entry
/// once.
pub proof fn law_the_listing_is_newest_first(es: Seq<TrashEntryView>)
    ensures
        newest_to_oldest(newest_first(es)),
        newest_first(es).len() == es.len(),
    decreases es.len(),
{
    if es.len() > 0 {
        law_the_listing_is_newest_first(es.drop_last());
        lemma_insert_newest_sorted(newest_first(es.drop_last()), es.last());
    }
}

} // verus!
