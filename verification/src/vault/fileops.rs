//! The naming rules behind creating, renaming and listing the user's files.
//!
//! Names are legal on every target platform, a name that would collide is
//! never silently overwritten, and a listing reads the same everywhere.
use vstd::prelude::*;
use crate::error::{CoreError, Result};
use crate::index::resolve::{less, seq_less};
use crate::strings::{lowercase, push_decimal, push_str, str_to_string, to_chars, to_lowercase, trim, trimmed, decimal};
use crate::vault::path::{
    extension_of, file_name_of, invalid_name_is, join_spec, parent_of, path_result_is, sanitize_segment,
    sanitize_spec, segment_problem, segments_of, stem_of, validate_segment, within, VaultPath,
};

verus! {

/// What to do when a target name already exists.
#[derive(Debug, Clone, Copy, PartialEq, Eq, Structural)]
pub enum Collision {
    /// Refuse, so the caller can prompt.
    Fail,
    /// Append ` 1`, ` 2`, … until a free name is found.
    Rename,
    /// Replace, for the rare case where the caller has already confirmed.
    Overwrite,
}

pub open spec fn ends_with_md(s: Seq<char>) -> bool {
    s.len() >= 3 && s.skip(s.len() - 3) == seq!['.', 'm', 'd']
}

/// The file name a note titled `title` gets: sanitised, with `.md` unless
/// it already ends in it (in any case).
pub open spec fn title_file_name(title: Seq<char>) -> Seq<char> {
    let name = sanitize_spec(trim(title));
    if ends_with_md(lowercase(name)) {
        name
    } else {
        name + ".md"@
    }
}

/// Turn arbitrary text into a note path under `folder`.
///
/// Used when the user creates a note from an unresolved link, where the link
/// text may contain characters no filesystem accepts.
pub fn note_path_for_title(folder: &VaultPath, title: &str) -> (r: Result<VaultPath>)
    ensures
        path_result_is(r, join_spec(folder@, title_file_name(title@))),
{
    let t = to_chars(title);
    let trimmed_title = trimmed(&t, 0, t.len());
    proof {
        assert(t@.subrange(0, t@.len() as int) =~= title@);
    }
    let mut name = sanitize_segment(trimmed_title.as_str());
    let low = to_chars(to_lowercase(name.as_str()).as_str());
    let n = low.len();
    let has_md = n >= 3 && low[n - 3] == '.' && low[n - 2] == 'm' && low[n - 1] == 'd';
    proof {
        if n >= 3 {
            assert(has_md == (low@.skip(n - 3) =~= seq!['.', 'm', 'd']));
        }
    }
    if !has_md {
        let ghost before = name@;
        push_str(&mut name, ".md");
        assert(name@ =~= before + ".md"@);
    }
    folder.join(name.as_str())
}

/// The `attempt`-th alternative to a taken name: ` N` (or ` (N)`) after the
/// stem, before the extension.
pub open spec fn numbered_file_name(name: Seq<char>, attempt: nat, parenthesised: bool) -> Seq<char> {
    let number = if parenthesised {
        " ("@ + decimal(attempt) + ")"@
    } else {
        seq![' '] + decimal(attempt)
    };
    match extension_of(name) {
        Some(ext) => stem_of(name) + number + seq!['.'] + ext,
        None => stem_of(name) + number,
    }
}

/// The path to try when `desired` is taken: `Note 1.md`, or `Note (1).md`
/// for a restore, in the same folder. The extension keeps its lowercase
/// form.
pub fn numbered_name(desired: &VaultPath, attempt: u32, parenthesised: bool) -> (r: Result<VaultPath>)
    ensures
        path_result_is(
            r,
            join_spec(parent_of(desired@), numbered_file_name(file_name_of(desired@), attempt as nat, parenthesised)),
        ),
{
    let mut name = str_to_string(desired.stem());
    if parenthesised {
        push_str(&mut name, " (");
        push_decimal(&mut name, attempt as usize);
        push_str(&mut name, ")");
    } else {
        crate::strings::push_char(&mut name, ' ');
        push_decimal(&mut name, attempt as usize);
    }
    match desired.extension() {
        Some(ext) => {
            crate::strings::push_char(&mut name, '.');
            push_str(&mut name, ext.as_str());
        },
        None => {},
    }
    proof {
        let number = if parenthesised {
            " ("@ + decimal(attempt as nat) + ")"@
        } else {
            seq![' '] + decimal(attempt as nat)
        };
        match extension_of(file_name_of(desired@)) {
            Some(ext) => {
                assert(name@ =~= stem_of(file_name_of(desired@)) + number + seq!['.'] + ext);
            },
            None => {
                assert(name@ =~= stem_of(file_name_of(desired@)) + number);
            },
        }
    }
    desired.with_file_name(name.as_str())
}

/// The names a search for a free name tries: the wanted one, then the
/// numbered ones (see `numbered_name`).
pub open spec fn candidate(desired: Seq<char>, i: int, parenthesised: bool) -> core::result::Result<
    Seq<char>,
    (Seq<char>, Seq<char>),
> {
    if i == 0 {
        Ok(desired)
    } else {
        join_spec(parent_of(desired), numbered_file_name(file_name_of(desired), i as nat, parenthesised))
    }
}

/// `e` is the failure of the `i`-th candidate, which is no valid name.
pub open spec fn candidate_fails(e: CoreError, desired: Seq<char>, i: int, parenthesised: bool) -> bool {
    match candidate(desired, i, parenthesised) {
        Err((n, why)) => invalid_name_is(e, n, why),
        Ok(_) => false,
    }
}

/// Every name in `tried` was, in turn, the next candidate and was taken.
pub open spec fn all_taken<F: Fn(&VaultPath) -> bool>(
    taken: F,
    tried: Seq<VaultPath>,
    desired: Seq<char>,
    parenthesised: bool,
) -> bool {
    forall|i: int|
        0 <= i < tried.len() ==> candidate(desired, i, parenthesised) == Ok::<Seq<char>, (Seq<char>, Seq<char>)>(
            tried[i]@,
        ) && call_ensures(taken, (&tried[i],), true)
}

/// The first free name among `desired` and its numbered forms below
/// `limit` candidates in all; `taken` says whether a name is in use. When
/// every candidate is taken the request is refused as `operation` for
/// `reason`; a numbered name that is not a valid name fails as such.
pub fn first_free<F: Fn(&VaultPath) -> bool>(
    desired: &VaultPath,
    taken: F,
    parenthesised: bool,
    limit: u32,
    operation: &str,
    reason: &str,
) -> (r: Result<VaultPath>)
    requires
        forall|p: &VaultPath| call_requires(taken, (p,)),
        limit >= 1,
    ensures
        exists|tried: Seq<VaultPath>|
            #![trigger all_taken(taken, tried, desired@, parenthesised)]
            {
                &&& all_taken(taken, tried, desired@, parenthesised)
                &&& match r {
                    Ok(p) => tried.len() < limit && candidate(desired@, tried.len() as int, parenthesised) == Ok::<
                        Seq<char>,
                        (Seq<char>, Seq<char>),
                    >(p@) && call_ensures(taken, (&p,), false),
                    Err(e) => (tried.len() == limit && refused_is(e, operation@, reason@)) || (1 <= tried.len()
                        < limit && candidate_fails(e, desired@, tried.len() as int, parenthesised)),
                }
            },
{
    let ghost mut tried: Seq<VaultPath> = Seq::empty();
    let d = desired.clone();
    if !taken(&d) {
        assert(all_taken(taken, tried, desired@, parenthesised));
        return Ok(d);
    }
    proof {
        tried = tried.push(d);
        assert(all_taken(taken, tried, desired@, parenthesised)) by {
            assert(tried[0] == d);
        }
    }
    let mut attempt: u32 = 1;
    while attempt < limit
        invariant
            1 <= attempt <= limit,
            tried.len() == attempt,
            all_taken(taken, tried, desired@, parenthesised),
            forall|p: &VaultPath| call_requires(taken, (p,)),
        decreases limit - attempt,
    {
        match numbered_name(desired, attempt, parenthesised) {
            Err(e) => {
                return Err(e);
            },
            Ok(c) => {
                if !taken(&c) {
                    return Ok(c);
                }
                proof {
                    let before = tried;
                    tried = tried.push(c);
                    assert forall|i: int| 0 <= i < tried.len() implies candidate(desired@, i, parenthesised)
                        == Ok::<Seq<char>, (Seq<char>, Seq<char>)>(tried[i]@) && call_ensures(
                        taken,
                        (&tried[i],),
                        true,
                    ) by {
                        if i < before.len() {
                            assert(tried[i] == before[i]);
                        }
                    }
                }
            },
        }
        attempt = attempt + 1;
    }
    Err(CoreError::Refused { operation: str_to_string(operation), reason: str_to_string(reason) })
}

/// A free name for a new entry at `desired`: itself if free, else `Note 1`,
/// `Note 2`, … up to 9999, before giving up. `taken` is whether a name is in
/// use, or would collide with one by case.
pub fn free_name<F: Fn(&VaultPath) -> bool>(desired: &VaultPath, taken: F) -> (r: Result<VaultPath>)
    requires
        forall|p: &VaultPath| call_requires(taken, (p,)),
    ensures
        exists|tried: Seq<VaultPath>|
            #![trigger all_taken(taken, tried, desired@, false)]
            {
                &&& all_taken(taken, tried, desired@, false)
                &&& match r {
                    Ok(p) => tried.len() < 10000 && candidate(desired@, tried.len() as int, false) == Ok::<
                        Seq<char>,
                        (Seq<char>, Seq<char>),
                    >(p@) && call_ensures(taken, (&p,), false),
                    Err(e) => (tried.len() == 10000 && refused_is(e, "create"@, "could not find a free name"@)) || (
                    1 <= tried.len() < 10000 && candidate_fails(e, desired@, tried.len() as int, false)),
                }
            },
{
    first_free(desired, taken, false, 10000, "create", "could not find a free name")
}

/// A refusal of `operation` for `reason`.
pub open spec fn refused_is(e: CoreError, operation: Seq<char>, reason: Seq<char>) -> bool {
    e matches CoreError::Refused { operation: o, reason: r } && o@ == operation && r@ == reason
}

/// The checks a move passes before the filesystem is asked anything. A
/// path moved onto itself is already in place (`Ok(true)`); the vault root
/// never moves, and no folder moves inside itself.
pub fn check_move(from: &VaultPath, to: &VaultPath) -> (r: Result<bool>)
    ensures
        from@ == to@ ==> r == Ok::<bool, CoreError>(true),
        from@ != to@ && from@.len() == 0 ==> (r matches Err(e) && refused_is(
            e,
            "move"@,
            "the vault root cannot be moved"@,
        )),
        from@ != to@ && from@.len() != 0 && within(to@, from@) ==> (r matches Err(e) && refused_is(
            e,
            "move"@,
            "a folder cannot be moved inside itself"@,
        )),
        from@ != to@ && from@.len() != 0 && !within(to@, from@) ==> r == Ok::<bool, CoreError>(false),
{
    if *from == *to {
        return Ok(true);
    }
    if from.is_root() {
        return Err(CoreError::Refused {
            operation: str_to_string("move"),
            reason: str_to_string("the vault root cannot be moved"),
        });
    }
    if to.is_within(from) {
        return Err(CoreError::Refused {
            operation: str_to_string("move"),
            reason: str_to_string("a folder cannot be moved inside itself"),
        });
    }
    Ok(false)
}

/// Check a move's destination, name by name, and tell whether the move only
/// changes capitalisation: that is a legitimate rename, not a collision,
/// and on a case-insensitive filesystem source and destination are one
/// file.
pub fn check_destination(from: &VaultPath, to: &VaultPath) -> (r: Result<bool>)
    ensures
        match r {
            Ok(case_only) => (forall|k: int|
                0 <= k < segments_of(to@).len() ==> segment_problem(#[trigger] segments_of(to@)[k]) is None)
                && case_only == (lowercase(from@) == lowercase(to@)),
            Err(e) => exists|k: int|
                {
                    &&& 0 <= k < segments_of(to@).len()
                    &&& forall|j: int| 0 <= j < k ==> segment_problem(#[trigger] segments_of(to@)[j]) is None
                    &&& segment_problem(#[trigger] segments_of(to@)[k]) matches Some(reason)
                    &&& invalid_name_is(e, segments_of(to@)[k], reason)
                },
        },
{
    let segments = to.segments();
    let mut i: usize = 0;
    while i < segments.len()
        invariant
            i <= segments@.len(),
            segments@.len() == segments_of(to@).len(),
            forall|k: int| 0 <= k < segments@.len() ==> #[trigger] segments@[k]@ == segments_of(to@)[k],
            forall|j: int| 0 <= j < i ==> segment_problem(#[trigger] segments_of(to@)[j]) is None,
        decreases segments@.len() - i,
    {
        assert(segments@[i as int]@ == segments_of(to@)[i as int]);
        match validate_segment(segments[i].as_str()) {
            Ok(()) => {},
            Err(e) => {
                return Err(e);
            },
        }
        i = i + 1;
    }
    let a = to_chars(from.fold().as_str());
    let b = to_chars(to.fold().as_str());
    Ok(crate::strings::chars_eq(&a, &b))
}

/// The temporary name a case-only rename passes through, since NTFS
/// refuses to rename a file onto itself: `.ie-case-<pid>-<name>` beside it.
pub fn staging_name(target: &VaultPath, pid: u32) -> (r: Result<VaultPath>)
    ensures
        path_result_is(r, join_spec(parent_of(target@), ".ie-case-"@ + decimal(pid as nat) + "-"@ + file_name_of(target@))),
{
    let mut name = str_to_string(".ie-case-");
    push_decimal(&mut name, pid as usize);
    push_str(&mut name, "-");
    push_str(&mut name, target.file_name());
    target.with_file_name(name.as_str())
}

/// The check a permanent removal passes: the vault root is never removed.
pub fn check_removal(path: &VaultPath) -> (r: Result<()>)
    ensures
        path@.len() == 0 ==> (r matches Err(e) && refused_is(e, "delete"@, "the vault root cannot be deleted"@)),
        path@.len() != 0 ==> r is Ok,
{
    if path.is_root() {
        return Err(CoreError::Refused {
            operation: str_to_string("delete"),
            reason: str_to_string("the vault root cannot be deleted"),
        });
    }
    Ok(())
}

/// Does `name` differ from the wanted one only by capitalisation?
pub open spec fn case_twin(name: Seq<char>, wanted: Seq<char>) -> bool {
    lowercase(name) == lowercase(wanted) && name != wanted
}

/// The first entry beside `path` whose name differs from its name only by
/// capitalisation. Both could exist on ext4, but on NTFS the second would
/// become the first, so such a name is refused on every platform.
pub fn case_twin_among(path: &VaultPath, siblings: &Vec<String>) -> (r: Option<usize>)
    ensures
        match r {
            Some(k) => k < siblings@.len() && case_twin(siblings@[k as int]@, file_name_of(path@)) && forall|j: int|
                0 <= j < k ==> !case_twin(#[trigger] siblings@[j]@, file_name_of(path@)),
            None => forall|j: int| 0 <= j < siblings@.len() ==> !case_twin(#[trigger] siblings@[j]@, file_name_of(path@)),
        },
{
    let name = to_chars(path.file_name());
    let wanted = to_chars(to_lowercase(path.file_name()).as_str());
    let mut i: usize = 0;
    while i < siblings.len()
        invariant
            i <= siblings@.len(),
            name@ == file_name_of(path@),
            wanted@ == lowercase(file_name_of(path@)),
            forall|j: int| 0 <= j < i ==> !case_twin(#[trigger] siblings@[j]@, file_name_of(path@)),
        decreases siblings@.len() - i,
    {
        let folded = to_chars(to_lowercase(siblings[i].as_str()).as_str());
        let exact = to_chars(siblings[i].as_str());
        if crate::strings::chars_eq(&folded, &wanted) && !crate::strings::chars_eq(&exact, &name) {
            return Some(i);
        }
        i = i + 1;
    }
    None
}

/// `a` lists before `b`: folders before files, then by name without regard
/// to case.
pub open spec fn lists_before(a: (Seq<char>, bool), b: (Seq<char>, bool)) -> bool {
    (a.1 && !b.1) || (a.1 == b.1 && seq_less(lowercase(file_name_of(a.0)), lowercase(file_name_of(b.0))))
}

pub open spec fn insert_listed(sorted: Seq<(Seq<char>, bool)>, e: (Seq<char>, bool)) -> Seq<(Seq<char>, bool)>
    decreases sorted.len(),
{
    if sorted.len() == 0 {
        seq![e]
    } else if !lists_before(e, sorted.last()) {
        sorted.push(e)
    } else {
        insert_listed(sorted.drop_last(), e).push(sorted.last())
    }
}

/// A stable sort into listing order.
pub open spec fn listing_order(es: Seq<(Seq<char>, bool)>) -> Seq<(Seq<char>, bool)>
    decreases es.len(),
{
    if es.len() == 0 {
        es
    } else {
        insert_listed(listing_order(es.drop_last()), es.last())
    }
}

pub open spec fn listing_view(es: Seq<(VaultPath, bool)>) -> Seq<(Seq<char>, bool)> {
    es.map_values(|e: (VaultPath, bool)| (e.0@, e.1))
}

proof fn lemma_insert_listed_at(sorted: Seq<(Seq<char>, bool)>, e: (Seq<char>, bool), p: int)
    requires
        0 <= p <= sorted.len(),
        forall|j: int| p <= j < sorted.len() ==> lists_before(e, #[trigger] sorted[j]),
        p > 0 ==> !lists_before(e, sorted[p - 1]),
    ensures
        insert_listed(sorted, e) == sorted.take(p).push(e) + sorted.skip(p),
    decreases sorted.len(),
{
    if sorted.len() == 0 {
        assert(sorted.take(p).push(e) + sorted.skip(p) =~= seq![e]);
    } else if p == sorted.len() {
        assert(sorted.take(p) =~= sorted);
        assert(sorted.take(p).push(e) + sorted.skip(p) =~= sorted.push(e));
    } else {
        lemma_insert_listed_at(sorted.drop_last(), e, p);
        assert(sorted.drop_last().take(p) =~= sorted.take(p));
        assert(sorted.drop_last().skip(p).push(sorted.last()) =~= sorted.skip(p));
        assert((sorted.take(p).push(e) + sorted.drop_last().skip(p)).push(sorted.last())
            =~= sorted.take(p).push(e) + sorted.skip(p));
    }
}

fn goes_before(a: &(VaultPath, bool), a_key: &String, b: &(VaultPath, bool), b_key: &String) -> (r: bool)
    requires
        a_key@ == lowercase(file_name_of(a.0@)),
        b_key@ == lowercase(file_name_of(b.0@)),
    ensures
        r == lists_before((a.0@, a.1), (b.0@, b.1)),
{
    (a.1 && !b.1) || (a.1 == b.1 && less(a_key.as_str(), b_key.as_str()))
}

/// Put a folder's entries (path, is a folder) in listing order: folders
/// first, then files, each by name without regard to case, ties kept in the
/// order given.
pub fn sort_listing(entries: Vec<(VaultPath, bool)>) -> (r: Vec<(VaultPath, bool)>)
    ensures
        listing_view(r@) == listing_order(listing_view(entries@)),
{
    let ghost ev = listing_view(entries@);
    let mut rest = entries;
    let mut out: Vec<(VaultPath, bool)> = Vec::new();
    let mut keys: Vec<String> = Vec::new();
    let ghost mut done: int = 0;
    assert(ev.take(0) =~= Seq::<(Seq<char>, bool)>::empty());
    assert(listing_view(out@) =~= Seq::<(Seq<char>, bool)>::empty());
    while rest.len() > 0
        invariant
            0 <= done <= ev.len(),
            listing_view(rest@) == ev.skip(done),
            keys@.len() == out@.len(),
            forall|j: int| 0 <= j < out@.len() ==> (#[trigger] keys@[j])@ == lowercase(file_name_of(out@[j].0@)),
            listing_view(out@) == listing_order(ev.take(done)),
        decreases rest@.len(),
    {
        let ghost before_rest = rest@;
        let entry = rest.remove(0);
        assert(listing_view(before_rest)[0] == (entry.0@, entry.1));
        assert(ev.skip(done).len() == before_rest.len());
        assert(ev.skip(done)[0] == ev[done]);
        assert(listing_view(rest@) =~= ev.skip(done + 1)) by {
            assert(listing_view(rest@) =~= listing_view(before_rest).drop_first());
        }
        let ghost e = (entry.0@, entry.1);
        let ghost sv = listing_view(out@);
        assert(ev.take(done + 1).drop_last() =~= ev.take(done));
        assert(ev.take(done + 1).last() == e);
        let key = to_lowercase(entry.0.file_name());
        let mut p = out.len();
        while p > 0 && goes_before(&entry, &key, &out[p - 1], &keys[p - 1])
            invariant
                p <= out@.len(),
                keys@.len() == out@.len(),
                sv == listing_view(out@),
                e == (entry.0@, entry.1),
                key@ == lowercase(file_name_of(entry.0@)),
                forall|j: int| 0 <= j < out@.len() ==> (#[trigger] keys@[j])@ == lowercase(file_name_of(out@[j].0@)),
                forall|j: int| p <= j < out@.len() ==> lists_before(e, #[trigger] sv[j]),
            decreases p,
        {
            assert(sv[p - 1] == (out@[p - 1].0@, out@[p - 1].1));
            p = p - 1;
        }
        proof {
            if p > 0 {
                assert(sv[p - 1] == (out@[p - 1].0@, out@[p - 1].1));
            }
            lemma_insert_listed_at(sv, e, p as int);
        }
        let ghost old_keys = keys@;
        let ghost old_out = out@;
        out.insert(p, entry);
        keys.insert(p, key);
        assert(listing_view(out@) =~= sv.take(p as int).push(e) + sv.skip(p as int));
        assert forall|j: int| 0 <= j < out@.len() implies (#[trigger] keys@[j])@ == lowercase(
            file_name_of(out@[j].0@),
        ) by {
            if j < p {
                assert(keys@[j] == old_keys[j] && out@[j] == old_out[j]);
            } else if j > p {
                assert(keys@[j] == old_keys[j - 1] && out@[j] == old_out[j - 1]);
            }
        }
        proof {
            done = done + 1;
        }
    }
    assert(ev.take(done) =~= ev);
    out
}

} // verus!
