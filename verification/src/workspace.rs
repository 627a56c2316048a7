//! Where workspaces are kept, and which stored one is usable. The current
//! layout lives at `.inner-empire/workspace.json` and named layouts under
//! `.inner-empire/workspaces/`; the host reads and writes the files.
use vstd::prelude::*;
use crate::index::resolve::{lemma_seq_less_total, lemma_seq_less_transitive, less, seq_less};
use crate::model::workspace::{is_default_workspace, Workspace, WORKSPACE_VERSION};
use crate::strings::{push_str, string_of, to_chars};
use crate::vault::path::{sanitize_segment, sanitize_spec};

verus! {

pub const WORKSPACE_FILE: &'static str = "workspace.json";

pub const SAVED_DIR: &'static str = "workspaces";

/// The file a named layout is saved in: the name made safe for every
/// filesystem, with `.json`.
pub fn saved_file_name(name: &str) -> (r: String)
    ensures
        r@ == sanitize_spec(name@) + ".json"@,
{
    let mut r = sanitize_segment(name);
    push_str(&mut r, ".json");
    r
}

pub open spec fn ends_with_json(s: Seq<char>) -> bool {
    s.len() >= 5 && s.skip(s.len() - 5) == ".json"@
}

/// `str::trim_end_matches(".json")`.
pub open spec fn without_json(s: Seq<char>) -> Seq<char>
    decreases s.len(),
{
    if ends_with_json(s) {
        without_json(s.take(s.len() - 5))
    } else {
        s
    }
}

/// The layout names among a folder's entries (name, is a folder): every
/// file ending in `.json`, without it.
pub open spec fn layout_names(es: Seq<(Seq<char>, bool)>) -> Seq<Seq<char>>
    decreases es.len(),
{
    if es.len() == 0 {
        Seq::<Seq<char>>::empty()
    } else {
        let e = es.last();
        if !e.1 && ends_with_json(e.0) {
            layout_names(es.drop_last()).push(without_json(e.0))
        } else {
            layout_names(es.drop_last())
        }
    }
}

pub open spec fn insert_name(sorted: Seq<Seq<char>>, x: Seq<char>) -> Seq<Seq<char>>
    decreases sorted.len(),
{
    if sorted.len() == 0 {
        seq![x]
    } else if !seq_less(x, sorted.last()) {
        sorted.push(x)
    } else {
        insert_name(sorted.drop_last(), x).push(sorted.last())
    }
}

/// Names in order, as `[String]::sort` leaves them.
pub open spec fn sorted_names(xs: Seq<Seq<char>>) -> Seq<Seq<char>>
    decreases xs.len(),
{
    if xs.len() == 0 {
        xs
    } else {
        insert_name(sorted_names(xs.drop_last()), xs.last())
    }
}

/// Names in order: none sorts before one that comes earlier.
pub open spec fn names_in_order(xs: Seq<Seq<char>>) -> bool {
    forall|i: int, j: int| 0 <= i < j < xs.len() ==> !seq_less(#[trigger] xs[j], #[trigger] xs[i])
}

proof fn lemma_not_less_transitive(a: Seq<char>, b: Seq<char>, c: Seq<char>)
    requires
        !seq_less(b, a),
        !seq_less(c, b),
    ensures
        !seq_less(c, a),
{
    lemma_seq_less_total(a, b);
    if seq_less(c, a) && seq_less(a, b) {
        lemma_seq_less_transitive(c, a, b);
    }
}

proof fn lemma_insert_name_bounded(sorted: Seq<Seq<char>>, x: Seq<char>, m: Seq<char>)
    requires
        forall|k: int| 0 <= k < sorted.len() ==> !seq_less(m, #[trigger] sorted[k]),
        !seq_less(m, x),
    ensures
        forall|k: int| 0 <= k < insert_name(sorted, x).len() ==> !seq_less(m, #[trigger] insert_name(sorted, x)[k]),
        insert_name(sorted, x).len() == sorted.len() + 1,
    decreases sorted.len(),
{
    if sorted.len() > 0 && seq_less(x, sorted.last()) {
        let d = sorted.drop_last();
        assert forall|k: int| 0 <= k < d.len() implies !seq_less(m, #[trigger] d[k]) by {
            assert(d[k] == sorted[k]);
        }
        lemma_insert_name_bounded(d, x, m);
        let r = insert_name(d, x).push(sorted.last());
        assert forall|k: int| 0 <= k < r.len() implies !seq_less(m, #[trigger] r[k]) by {
            if k < r.len() - 1 {
                assert(r[k] == insert_name(d, x)[k]);
            }
        }
    } else if sorted.len() > 0 {
        let r = sorted.push(x);
        assert forall|k: int| 0 <= k < r.len() implies !seq_less(m, #[trigger] r[k]) by {
            if k < sorted.len() {
                assert(r[k] == sorted[k]);
            }
        }
    }
}

proof fn lemma_insert_name_in_order(sorted: Seq<Seq<char>>, x: Seq<char>)
    requires
        names_in_order(sorted),
    ensures
        names_in_order(insert_name(sorted, x)),
    decreases sorted.len(),
{
    if sorted.len() > 0 {
        let last = sorted.last();
        if !seq_less(x, last) {
            let r = sorted.push(x);
            assert forall|i: int, j: int| 0 <= i < j < r.len() implies !seq_less(#[trigger] r[j], #[trigger] r[i]) by {
                assert(r[i] == sorted[i]);
                if j < sorted.len() {
                    assert(r[j] == sorted[j]);
                } else if i < sorted.len() - 1 {
                    assert(!seq_less(sorted[sorted.len() - 1], sorted[i]));
                    lemma_not_less_transitive(sorted[i], last, x);
                }
            }
        } else {
            let d = sorted.drop_last();
            assert(names_in_order(d)) by {
                assert forall|i: int, j: int| 0 <= i < j < d.len() implies !seq_less(#[trigger] d[j], #[trigger] d[i]) by {
                    assert(d[i] == sorted[i] && d[j] == sorted[j]);
                }
            }
            lemma_insert_name_in_order(d, x);
            assert forall|k: int| 0 <= k < d.len() implies !seq_less(last, #[trigger] d[k]) by {
                assert(d[k] == sorted[k]);
                assert(!seq_less(sorted[sorted.len() - 1], sorted[k]));
            }
            crate::index::resolve::lemma_seq_less_asym(x, last);
            lemma_insert_name_bounded(d, x, last);
            let q = insert_name(d, x);
            let r = q.push(last);
            assert forall|i: int, j: int| 0 <= i < j < r.len() implies !seq_less(#[trigger] r[j], #[trigger] r[i]) by {
                assert(r[i] == q[i]);
                if j < q.len() {
                    assert(r[j] == q[j]);
                }
            }
        }
    }
}

/// Names sorted as `[String]::sort` leaves them are in order.
pub proof fn law_sorted_names_in_order(xs: Seq<Seq<char>>)
    ensures
        names_in_order(sorted_names(xs)),
    decreases xs.len(),
{
    if xs.len() > 0 {
        law_sorted_names_in_order(xs.drop_last());
        lemma_insert_name_in_order(sorted_names(xs.drop_last()), xs.last());
    }
}

pub open spec fn entries_view(es: Seq<(String, bool)>) -> Seq<(Seq<char>, bool)> {
    es.map_values(|e: (String, bool)| (e.0@, e.1))
}

pub open spec fn names_view(ns: Seq<String>) -> Seq<Seq<char>> {
    ns.map_values(|n: String| n@)
}

pub(crate) proof fn lemma_insert_name_at(sorted: Seq<Seq<char>>, x: Seq<char>, p: int)
    requires
        0 <= p <= sorted.len(),
        forall|j: int| p <= j < sorted.len() ==> seq_less(x, #[trigger] sorted[j]),
        p > 0 ==> !seq_less(x, sorted[p - 1]),
    ensures
        insert_name(sorted, x) == sorted.take(p).push(x) + sorted.skip(p),
    decreases sorted.len(),
{
    if sorted.len() == 0 {
        assert(sorted.take(p).push(x) + sorted.skip(p) =~= seq![x]);
    } else if p == sorted.len() {
        assert(sorted.take(p) =~= sorted);
        assert(sorted.take(p).push(x) + sorted.skip(p) =~= sorted.push(x));
    } else {
        lemma_insert_name_at(sorted.drop_last(), x, p);
        assert(sorted.drop_last().take(p) =~= sorted.take(p));
        assert(sorted.drop_last().skip(p).push(sorted.last()) =~= sorted.skip(p));
        assert((sorted.take(p).push(x) + sorted.drop_last().skip(p)).push(sorted.last()) =~= sorted.take(p).push(x)
            + sorted.skip(p));
    }
}

/// The saved layouts' names, from the saved-layouts folder's entries (file
/// name, is a folder), in order.
pub fn saved_names(entries: &Vec<(String, bool)>) -> (r: Vec<String>)
    ensures
        names_view(r@) == sorted_names(layout_names(entries_view(entries@))),
{
    let ghost ev = entries_view(entries@);
    let mut names: Vec<String> = Vec::new();
    let mut i: usize = 0;
    assert(ev.take(0) =~= Seq::<(Seq<char>, bool)>::empty());
    assert(names_view(names@) =~= Seq::<Seq<char>>::empty());
    while i < entries.len()
        invariant
            i <= entries@.len(),
            ev == entries_view(entries@),
            names_view(names@) == layout_names(ev.take(i as int)),
        decreases entries@.len() - i,
    {
        assert(ev.take(i + 1).drop_last() =~= ev.take(i as int));
        assert(ev.take(i + 1).last() == (entries@[i as int].0@, entries@[i as int].1));
        let v = to_chars(entries[i].0.as_str());
        if !entries[i].1 && ends_in_json(&v, v.len()) {
            let mut e = v.len();
            assert(v@.take(v@.len() as int) =~= v@);
            while ends_in_json(&v, e)
                invariant
                    e <= v@.len(),
                    without_json(v@) == without_json(v@.take(e as int)),
                decreases e,
            {
                assert(v@.take(e as int).take(e - 5) =~= v@.take(e - 5));
                e = e - 5;
            }
            assert(v@.take(v@.len() as int) =~= v@);
            let ghost before = names_view(names@);
            names.push(string_of(&v, 0, e));
            assert(v@.subrange(0, e as int) =~= v@.take(e as int));
            assert(names_view(names@) =~= before.push(without_json(v@)));
        } else {
            assert(v@.take(v@.len() as int) =~= v@);
        }
        i = i + 1;
    }
    assert(ev.take(i as int) =~= ev);
    sort_names(names)
}

/// Does `v[..e]` end with `.json`?
fn ends_in_json(v: &Vec<char>, e: usize) -> (r: bool)
    requires
        e <= v@.len(),
    ensures
        r == ends_with_json(v@.take(e as int)),
{
    let r = e >= 5 && v[e - 5] == '.' && v[e - 4] == 'j' && v[e - 3] == 's' && v[e - 2] == 'o' && v[e - 1] == 'n';
    proof {
        reveal_strlit(".json");
        if e >= 5 {
            let t = v@.take(e as int);
            assert(t.skip(t.len() - 5) =~= v@.subrange(e - 5, e as int));
            if r {
                assert(v@.subrange(e - 5, e as int) =~= ".json"@);
            }
            if v@.subrange(e - 5, e as int) == ".json"@ {
                assert(v@.subrange(e - 5, e as int)[0] == v@[e - 5]);
                assert(v@.subrange(e - 5, e as int)[1] == v@[e - 4]);
                assert(v@.subrange(e - 5, e as int)[2] == v@[e - 3]);
                assert(v@.subrange(e - 5, e as int)[3] == v@[e - 2]);
                assert(v@.subrange(e - 5, e as int)[4] == v@[e - 1]);
            }
        }
    }
    r
}

fn sort_names(names: Vec<String>) -> (r: Vec<String>)
    ensures
        names_view(r@) == sorted_names(names_view(names@)),
{
    let ghost nv = names_view(names@);
    let mut out: Vec<String> = Vec::new();
    let mut i: usize = 0;
    assert(nv.take(0) =~= Seq::<Seq<char>>::empty());
    assert(names_view(out@) =~= Seq::<Seq<char>>::empty());
    while i < names.len()
        invariant
            i <= names@.len(),
            nv == names_view(names@),
            names_view(out@) == sorted_names(nv.take(i as int)),
        decreases names@.len() - i,
    {
        assert(nv.take(i + 1).drop_last() =~= nv.take(i as int));
        assert(nv.take(i + 1).last() == names@[i as int]@);
        let ghost sv = names_view(out@);
        let x = crate::strings::clone_string(&names[i]);
        let mut p = out.len();
        while p > 0 && less(x.as_str(), out[p - 1].as_str())
            invariant
                p <= out@.len(),
                sv == names_view(out@),
                x@ == names@[i as int]@,
                forall|j: int| p <= j < out@.len() ==> seq_less(x@, #[trigger] sv[j]),
            decreases p,
        {
            assert(sv[p - 1] == out@[p - 1]@);
            p = p - 1;
        }
        proof {
            if p > 0 {
                assert(sv[p - 1] == out@[p - 1]@);
            }
            lemma_insert_name_at(sv, x@, p as int);
        }
        out.insert(p, x);
        assert(names_view(out@) =~= sv.take(p as int).push(names@[i as int]@) + sv.skip(p as int));
        i = i + 1;
    }
    assert(nv.take(i as int) =~= nv);
    out
}

/// The workspace to start from: the stored one when it could be read and
/// is of this version, a fresh default otherwise.
pub fn usable_workspace(stored: Option<Workspace>) -> (r: Workspace)
    ensures
        match stored {
            Some(w) => if w.version == WORKSPACE_VERSION {
                r == w
            } else {
                is_default_workspace(r)
            },
            None => is_default_workspace(r),
        },
{
    match stored {
        Some(w) => if w.version == WORKSPACE_VERSION {
            w
        } else {
            Workspace::default()
        },
        None => Workspace::default(),
    }
}

} // verus!
