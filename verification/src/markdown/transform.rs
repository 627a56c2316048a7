//! `MarkdownTransformer` — edits to a note's source, guided by its parse.
//!
//! Every method rewrites exact byte ranges the parser identified. None of
//! them reformats, re-indents or re-serialises the document: a rename must
//! change the link and nothing else.
use core::ops::Range;
use vstd::prelude::*;
use crate::links::reference::{inner_of, opt_view, LinkTarget};
use crate::markdown::parser::{parsed_blocks, parsed_links, FrontmatterValues, MarkdownParser, ParserOptions};
use crate::markdown::scanner::{links_view, lr_start, ltext, BlockView, LinkView};
use crate::markdown::text::{byte_slice, lemma_byte_slice_some, line_at, line_starts, LineIndex};
use crate::model::{clone_opt, Link, LinkKind};
use crate::strings::{
    decimal, push_decimal, blen, boff, byte_len, find_char, find_char_in, string_of, string_of_all, str_to_string, to_chars,
    trim_end, trim_end_range, Text,
};

verus! {

/// One replacement, in source byte offsets.
#[derive(Debug, PartialEq, Eq)]
pub struct Edit {
    pub range: Range<usize>,
    pub replacement: String,
}

pub struct EditView {
    pub start: int,
    pub end: int,
    pub replacement: Seq<char>,
}

pub open spec fn edit_view(e: Edit) -> EditView {
    EditView { start: e.range.start as int, end: e.range.end as int, replacement: e.replacement@ }
}

pub open spec fn edits_view(es: Seq<Edit>) -> Seq<EditView> {
    es.map_values(|e: Edit| edit_view(e))
}

/// `a` sorts no later than `b` by (start, end).
pub open spec fn key_le(a: EditView, b: EditView) -> bool {
    a.start < b.start || (a.start == b.start && a.end <= b.end)
}

pub open spec fn insert_edit(sorted: Seq<EditView>, e: EditView) -> Seq<EditView>
    decreases sorted.len(),
{
    if sorted.len() == 0 {
        seq![e]
    } else if key_le(sorted.last(), e) {
        sorted.push(e)
    } else {
        insert_edit(sorted.drop_last(), e).push(sorted.last())
    }
}

/// A stable sort of edits by (start, end).
pub open spec fn sort_edits(es: Seq<EditView>) -> Seq<EditView>
    decreases es.len(),
{
    if es.len() == 0 {
        es
    } else {
        insert_edit(sort_edits(es.drop_last()), es.last())
    }
}

/// The first neighbouring pair, from `i` on, whose ranges overlap.
pub open spec fn first_overlap(es: Seq<EditView>, i: int) -> Option<int>
    decreases es.len() - i,
{
    if i < 0 || i + 1 >= es.len() {
        None
    } else if es[i].end > es[i + 1].start {
        Some(i)
    } else {
        first_overlap(es, i + 1)
    }
}

pub open spec fn overlap_message(a: EditView, b: EditView) -> Seq<char> {
    "overlapping edits at "@ + decimal(a.start as nat) + ".."@ + decimal(a.end as nat) + " and "@
        + decimal(b.start as nat) + ".."@ + decimal(b.end as nat)
}

pub open spec fn is_boundary(s: Seq<char>, b: int) -> bool {
    exists|i: int| 0 <= i <= s.len() && boff(s, i) == b
}

/// `s[a..b]` in bytes, or nothing.
pub open spec fn bytes_between(s: Seq<char>, a: int, b: int) -> Seq<char> {
    match byte_slice(s, a, b) {
        Some(t) => t,
        None => Seq::<char>::empty(),
    }
}

/// The text from byte `from` on, with the (sorted) edits applied: the text
/// between edits is kept as it was.
pub open spec fn spliced(s: Seq<char>, es: Seq<EditView>, from: int) -> Seq<char>
    decreases es.len(),
{
    if es.len() == 0 {
        bytes_between(s, from, blen(s) as int)
    } else {
        bytes_between(s, from, es[0].start) + es[0].replacement + spliced(s, es.drop_first(), es[0].end)
    }
}

/// Applying edits: refused when two overlap, when one runs past the end or
/// when one cuts a character; otherwise every range replaced and every
/// byte outside the ranges kept.
pub open spec fn applied(s: Seq<char>, edits: Seq<EditView>) -> Result<Seq<char>, Seq<char>> {
    let es = sort_edits(edits);
    match first_overlap(es, 0) {
        Some(i) => Err(overlap_message(es[i], es[i + 1])),
        None => if es.len() > 0 && es.last().end > blen(s) {
            Err("an edit extends past the end of the document"@)
        } else if exists|k: int| 0 <= k < es.len() && !(is_boundary(s, (#[trigger] es[k]).start) && is_boundary(s, es[k].end)) {
            Err("an edit does not fall on a character boundary"@)
        } else {
            Ok(spliced(s, es, 0))
        },
    }
}

/// The inputs on which applying edits cannot finish: no overlap and nothing
/// past the end is found, and, working from the last edit back, a reversed
/// range (start after end) is reached before any edit off a character
/// boundary.
pub open spec fn apply_panics(s: Seq<char>, edits: Seq<EditView>) -> bool {
    let es = sort_edits(edits);
    &&& first_overlap(es, 0) is None
    &&& !(es.len() > 0 && es.last().end > blen(s))
    &&& exists|k: int|
        0 <= k < es.len() && (#[trigger] es[k]).start > es[k].end && forall|j: int|
            k <= j < es.len() ==> is_boundary(s, (#[trigger] es[j]).start) && is_boundary(s, es[j].end)
}

/// Edits whose ranges all run forwards can always be applied or refused.
pub proof fn lemma_forward_edits_apply(s: Seq<char>, edits: Seq<Edit>)
    requires
        forall|i: int| 0 <= i < edits.len() ==> (#[trigger] edits[i]).range.start <= edits[i].range.end,
    ensures
        !apply_panics(s, edits_view(edits)),
{
    let ev = edits_view(edits);
    assert forall|k: int| 0 <= k < ev.len() implies (#[trigger] ev[k]).start <= ev[k].end by {
        assert(ev[k] == edit_view(edits[k]));
    }
    lemma_sort_edits_ordered(ev);
}

pub open spec fn ordered(es: Seq<EditView>) -> bool {
    forall|k: int| 0 <= k < es.len() ==> (#[trigger] es[k]).start <= es[k].end
}

proof fn lemma_insert_edit_ordered(sorted: Seq<EditView>, e: EditView)
    requires
        ordered(sorted),
        e.start <= e.end,
    ensures
        ordered(insert_edit(sorted, e)),
        insert_edit(sorted, e).len() == sorted.len() + 1,
    decreases sorted.len(),
{
    if sorted.len() > 0 && !key_le(sorted.last(), e) {
        lemma_insert_edit_ordered(sorted.drop_last(), e);
        let r = insert_edit(sorted.drop_last(), e).push(sorted.last());
        assert forall|k: int| 0 <= k < r.len() implies (#[trigger] r[k]).start <= r[k].end by {
            if k < r.len() - 1 {
                assert(r[k] == insert_edit(sorted.drop_last(), e)[k]);
            }
        }
    } else if sorted.len() > 0 {
        assert forall|k: int| 0 <= k < sorted.push(e).len() implies (#[trigger] sorted.push(e)[k]).start <= sorted.push(e)[k].end by {
            if k < sorted.len() {
                assert(sorted.push(e)[k] == sorted[k]);
            }
        }
    }
}

proof fn lemma_insert_edit_at(sorted: Seq<EditView>, e: EditView, p: int)
    requires
        0 <= p <= sorted.len(),
        forall|j: int| p <= j < sorted.len() ==> !key_le(#[trigger] sorted[j], e),
        p > 0 ==> key_le(sorted[p - 1], e),
    ensures
        insert_edit(sorted, e) == sorted.take(p).push(e) + sorted.skip(p),
    decreases sorted.len(),
{
    if sorted.len() == 0 {
        assert(sorted.take(p).push(e) + sorted.skip(p) =~= seq![e]);
    } else if p == sorted.len() {
        assert(sorted.take(p) =~= sorted);
        assert(sorted.skip(p) =~= Seq::<EditView>::empty());
        assert(sorted.push(e) + Seq::<EditView>::empty() =~= sorted.push(e));
    } else {
        lemma_insert_edit_at(sorted.drop_last(), e, p);
        assert(sorted.drop_last().take(p) =~= sorted.take(p));
        assert(sorted.drop_last().skip(p).push(sorted.last()) =~= sorted.skip(p));
        assert((sorted.take(p).push(e) + sorted.drop_last().skip(p)).push(sorted.last())
            =~= sorted.take(p).push(e) + sorted.skip(p));
    }
}

fn sorted_edits(edits: Vec<Edit>) -> (r: Vec<Edit>)
    ensures
        edits_view(r@) == sort_edits(edits_view(edits@)),
{
    let ghost ev = edits_view(edits@);
    let mut rest = edits;
    let mut out: Vec<Edit> = Vec::new();
    let ghost mut done: int = 0;
    assert(ev.take(0) =~= seq![]);
    assert(edits_view(out@) =~= seq![]);
    while rest.len() > 0
        invariant
            0 <= done <= ev.len(),
            edits_view(rest@) == ev.skip(done),
            edits_view(out@) == sort_edits(ev.take(done)),
        decreases rest@.len(),
    {
        let ghost before = rest@;
        let e = rest.remove(0);
        assert(edit_view(e) == ev[done]) by {
            assert(edits_view(before)[0] == edit_view(before[0]));
            assert(ev.skip(done).len() > 0);
            assert(edits_view(before)[0] == ev.skip(done)[0]);
        }
        assert(edits_view(rest@) =~= ev.skip(done + 1)) by {
            assert(edits_view(rest@) =~= edits_view(before).drop_first());
        }
        assert(ev.take(done + 1).drop_last() =~= ev.take(done));
        let ghost sv = edits_view(out@);
        let mut p = out.len();
        while p > 0 && !(out[p - 1].range.start < e.range.start
            || (out[p - 1].range.start == e.range.start && out[p - 1].range.end <= e.range.end))
            invariant
                p <= out@.len(),
                sv == edits_view(out@),
                forall|j: int| p <= j < out@.len() ==> !key_le(#[trigger] sv[j], edit_view(e)),
            decreases p,
        {
            p = p - 1;
        }
        proof {
            lemma_insert_edit_at(sv, edit_view(e), p as int);
        }
        out.insert(p, e);
        assert(edits_view(out@) =~= sv.take(p as int).push(ev[done]) + sv.skip(p as int));
        proof {
            done = done + 1;
        }
    }
    assert(ev.take(done) =~= ev) by {
        assert(ev.skip(done).len() == 0);
    }
    out
}

fn push_range_chars(out: &mut Vec<char>, v: &Vec<char>, a: usize, b: usize)
    requires
        a <= b <= v@.len(),
    ensures
        final(out)@ == old(out)@ + v@.subrange(a as int, b as int),
{
    let mut i = a;
    while i < b
        invariant
            a <= i <= b <= v@.len(),
            out@ == old(out)@ + v@.subrange(a as int, i as int),
        decreases b - i,
    {
        out.push(v[i]);
        i = i + 1;
        assert(out@ =~= old(out)@ + v@.subrange(a as int, i as int));
    }
}

proof fn lemma_boff_order(s: Seq<char>, i: int, j: int)
    requires
        0 <= i <= s.len(),
        0 <= j <= s.len(),
        boff(s, i) <= boff(s, j),
    ensures
        i <= j,
{
    if j < i {
        crate::strings::lemma_boff_mono(s, j, i);
    }
}

/// Apply edits to a source string.
///
/// Each range still refers to the text it was computed against. Overlapping
/// edits are refused rather than silently producing garbage.
#[verifier::rlimit(80)]
pub fn apply(source: &str, edits: Vec<Edit>) -> (r: Result<String, String>)
    requires
        !apply_panics(source@, edits_view(edits@)),
    ensures
        match applied(source@, edits_view(edits@)) {
            Ok(t) => r matches Ok(x) && x@ == t,
            Err(m) => r matches Err(x) && x@ == m,
        },
{
    let ghost s = source@;
    let ghost ev = edits_view(edits@);
    let sorted = sorted_edits(edits);
    let ghost es = edits_view(sorted@);
    let m = sorted.len();
    let mut i: usize = 0;
    while m > 0 && i < m - 1
        invariant
            m == sorted@.len(),
            es == edits_view(sorted@),
            es == sort_edits(ev),
            ev == edits_view(edits@),
            s == source@,
            i < m || m == 0,
            first_overlap(es, 0) == first_overlap(es, i as int),
        decreases m - i,
    {
        if sorted[i].range.end > sorted[i + 1].range.start {
            let mut msg = str_to_string("overlapping edits at ");
            push_decimal(&mut msg, sorted[i].range.start);
            msg.append("..");
            push_decimal(&mut msg, sorted[i].range.end);
            msg.append(" and ");
            push_decimal(&mut msg, sorted[i + 1].range.start);
            msg.append("..");
            push_decimal(&mut msg, sorted[i + 1].range.end);
            assert(es[i as int] == edit_view(sorted@[i as int]));
            assert(es[i + 1] == edit_view(sorted@[i + 1]));
            return Err(msg);
        }
        i = i + 1;
    }
    assert(first_overlap(es, 0) is None);
    let total = byte_len(source);
    if m > 0 && sorted[m - 1].range.end > total {
        assert(es.last() == edit_view(sorted@[m - 1]));
        return Err(str_to_string("an edit extends past the end of the document"));
    }
    let text = Text::new(source);
    let n = text.chars.len();
    // Every edit must fall on character boundaries before any is applied.
    let mut q: usize = 0;
    while q < m
        invariant
            text.wf(),
            text.chars@ == s,
            m == sorted@.len(),
            es == edits_view(sorted@),
            es == sort_edits(ev),
            ev == edits_view(edits@),
            s == source@,
            first_overlap(es, 0) is None,
            m > 0 ==> es.last().end <= blen(s),
            q <= m,
            forall|j: int| 0 <= j < q ==> is_boundary(s, (#[trigger] es[j]).start) && is_boundary(s, es[j].end),
        decreases m - q,
    {
        assert(es[q as int] == edit_view(sorted@[q as int]));
        if text.index_of_byte(sorted[q].range.start).is_none() || text.index_of_byte(sorted[q].range.end).is_none() {
            assert(!(is_boundary(s, es[q as int].start) && is_boundary(s, es[q as int].end)));
            return Err(str_to_string("an edit does not fall on a character boundary"));
        }
        q = q + 1;
    }
    proof {
        assert forall|k: int| 0 <= k < es.len() implies (#[trigger] es[k]).start <= es[k].end by {
            if es[k].start > es[k].end {
                assert(forall|j: int|
                    k <= j < es.len() ==> is_boundary(s, (#[trigger] es[j]).start) && is_boundary(s, es[j].end));
                assert(apply_panics(s, ev));
            }
        }
    }
    let mut out: Vec<char> = Vec::new();
    let mut from: usize = 0;
    let mut k: usize = 0;
    proof {
        crate::strings::lemma_boff_full(s);
        assert(s.take(0) =~= Seq::<char>::empty());
        assert(es.skip(0) =~= es);
        assert(out@ + spliced(s, es, 0) =~= spliced(s, es, 0));
    }
    while k < m
        invariant
            text.wf(),
            text.chars@ == s,
            n == s.len(),
            total == blen(s),
            m == sorted@.len(),
            es == edits_view(sorted@),
            es == sort_edits(ev),
            ev == edits_view(edits@),
            s == source@,
            ordered(es),
            first_overlap(es, 0) is None,
            m > 0 ==> es.last().end <= blen(s),
            k <= m,
            from <= n,
            k > 0 ==> boff(s, from as int) == es[k - 1].end,
            k == 0 ==> from == 0,
            forall|j: int| 0 <= j < k ==> is_boundary(s, (#[trigger] es[j]).start) && is_boundary(s, es[j].end),
            spliced(s, es, 0) == out@ + spliced(s, es.skip(k as int), if k == 0 { 0 } else { es[k - 1].end }),
        decreases m - k,
    {
        proof {
            if k > 0 {
                lemma_no_overlap_at(es, k as int);
            }
        }
        let a = match text.index_of_byte(sorted[k].range.start) {
            Some(x) => x,
            None => {
                assert(!is_boundary(s, es[k as int].start));
                return Err(str_to_string("an edit does not fall on a character boundary"));
            },
        };
        let b = match text.index_of_byte(sorted[k].range.end) {
            Some(x) => x,
            None => {
                assert(!is_boundary(s, es[k as int].end));
                return Err(str_to_string("an edit does not fall on a character boundary"));
            },
        };
        assert(es[k as int] == edit_view(sorted@[k as int]));
        proof {
            if k > 0 {
                lemma_boff_order(s, from as int, a as int);
            } else {
                lemma_boff_order(s, 0, a as int);
            }
            lemma_boff_order(s, a as int, b as int);
            lemma_splice_step(s, es, k as int, from as int, a as int, b as int, out@);
        }
        push_range_chars(&mut out, &text.chars, from, a);
        let rep = to_chars(sorted[k].replacement.as_str());
        push_range_chars(&mut out, &rep, 0, rep.len());
        assert(rep@.subrange(0, rep@.len() as int) =~= rep@);
        from = b;
        k = k + 1;
    }
    proof {
        lemma_byte_slice_some(s, from as int, n as int);
        assert(es.skip(m as int) =~= Seq::<EditView>::empty());
        if m > 0 {
            lemma_boff_order(s, from as int, n as int);
        }
    }
    push_range_chars(&mut out, &text.chars, from, n);
    Ok(string_of_all(&out))
}

proof fn lemma_splice_step(s: Seq<char>, es: Seq<EditView>, k: int, from: int, a: int, b: int, out: Seq<char>)
    requires
        0 <= k < es.len(),
        0 <= from <= a <= b <= s.len(),
        boff(s, from) == (if k == 0 { 0 } else { es[k - 1].end }),
        boff(s, a) == es[k].start,
        boff(s, b) == es[k].end,
        spliced(s, es, 0) == out + spliced(s, es.skip(k), if k == 0 { 0 } else { es[k - 1].end }),
    ensures
        spliced(s, es, 0) == out + s.subrange(from, a) + es[k].replacement + spliced(s, es.skip(k + 1), es[k].end),
{
    lemma_byte_slice_some(s, from, a);
    let rest = es.skip(k);
    assert(rest[0] == es[k]);
    assert(rest.drop_first() =~= es.skip(k + 1));
    assert(out + (s.subrange(from, a) + es[k].replacement + spliced(s, es.skip(k + 1), es[k].end))
        =~= out + s.subrange(from, a) + es[k].replacement + spliced(s, es.skip(k + 1), es[k].end));
}

proof fn lemma_no_overlap_at(es: Seq<EditView>, k: int)
    requires
        first_overlap(es, 0) is None,
        0 < k < es.len(),
    ensures
        es[k - 1].end <= es[k].start,
{
    lemma_first_overlap_none(es, 0, k - 1);
}

proof fn lemma_first_overlap_none(es: Seq<EditView>, i: int, j: int)
    requires
        0 <= i <= j,
        j + 1 < es.len(),
        first_overlap(es, i) is None,
    ensures
        es[j].end <= es[j + 1].start,
    decreases j - i,
{
    if i < j {
        lemma_first_overlap_none(es, i + 1, j);
    }
}

proof fn lemma_sort_edits_ordered(es: Seq<EditView>)
    requires
        ordered(es),
    ensures
        ordered(sort_edits(es)),
        sort_edits(es).len() == es.len(),
    decreases es.len(),
{
    if es.len() > 0 {
        assert(ordered(es.drop_last())) by {
            assert forall|k: int| 0 <= k < es.drop_last().len() implies (#[trigger] es.drop_last()[k]).start <= es.drop_last()[k].end by {
                assert(es.drop_last()[k] == es[k]);
            }
        }
        lemma_sort_edits_ordered(es.drop_last());
        lemma_insert_edit_ordered(sort_edits(es.drop_last()), es.last());
    }
}

// ---------------------------------------------------------------------------
// Retargeting links.

/// Where the label of `[label](dest)` closes: the `]` that balances the
/// brackets opened so far (`depth` of them).
pub open spec fn label_close(raw: Seq<char>, i: int, depth: int) -> Option<int>
    decreases raw.len() - i,
{
    if i < 0 || i >= raw.len() {
        None
    } else if raw[i] == '[' {
        label_close(raw, i + 1, depth + 1)
    } else if raw[i] == ']' {
        if depth == 1 {
            Some(i)
        } else {
            label_close(raw, i + 1, depth - 1)
        }
    } else {
        label_close(raw, i + 1, depth)
    }
}

/// The label of `[label](dest)` or `![label](dest)`.
pub open spec fn md_label(raw: Seq<char>) -> Option<Seq<char>> {
    match find_char(raw, '[') {
        None => None,
        Some(b) => match label_close(raw, b + 1, 1) {
            Some(e) => Some(raw.subrange(b + 1, e)),
            None => None,
        },
    }
}

/// A destination with the characters that would end it early escaped.
pub open spec fn encoded_destination(t: Seq<char>) -> Seq<char>
    decreases t.len(),
{
    if t.len() == 0 {
        t
    } else {
        let c = t.last();
        encoded_destination(t.drop_last()) + (if c == '(' {
            "%28"@
        } else if c == ')' {
            "%29"@
        } else if c == ' ' {
            "%20"@
        } else {
            seq![c]
        })
    }
}

/// The fragment a Markdown link keeps: a block reference, else a heading.
pub open spec fn fragment_of(heading: Option<Seq<char>>, block: Option<Seq<char>>) -> Seq<char> {
    match block {
        Some(b) => "#^"@ + b,
        None => match heading {
            Some(h) => "#"@ + h,
            None => Seq::<char>::empty(),
        },
    }
}

/// The text a link becomes when it points at `new_target`: wiki links keep
/// their heading, block and alias; Markdown links keep their label and
/// fragment; external links are never touched.
pub open spec fn retargeted_text(l: LinkView, new_target: Seq<char>) -> Option<Seq<char>> {
    match l.kind {
        LinkKind::WikiLink => Some(seq!['[', '['] + inner_of(new_target, l.heading, l.block_id, l.alias) + seq![']', ']']),
        LinkKind::Embed => Some(seq!['!', '[', '['] + inner_of(new_target, l.heading, l.block_id, l.alias) + seq![']', ']']),
        LinkKind::Markdown => match md_label(l.raw) {
            Some(label) => Some(seq!['['] + label + seq![']', '('] + encoded_destination(new_target) + fragment_of(l.heading, l.block_id) + seq![')']),
            None => None,
        },
        LinkKind::MarkdownImage => match md_label(l.raw) {
            Some(label) => Some(seq!['!', '['] + label + seq![']', '('] + encoded_destination(new_target) + fragment_of(l.heading, l.block_id) + seq![')']),
            None => None,
        },
        LinkKind::External => None,
    }
}

/// The edit retargeting one link, if its text changes.
pub open spec fn retarget_edit(l: LinkView, new_target: Seq<char>) -> Option<EditView> {
    match retargeted_text(l, new_target) {
        Some(r) => if r == l.raw {
            None
        } else {
            Some(EditView { start: l.byte_start, end: l.byte_end, replacement: r })
        },
        None => None,
    }
}

/// The edits for the chosen internal links, in order.
pub open spec fn chosen_edits(ls: Seq<LinkView>, chosen: Seq<bool>, new_target: Seq<char>) -> Seq<EditView>
    decreases ls.len(),
{
    if ls.len() == 0 {
        seq![]
    } else {
        let rest = chosen_edits(ls.drop_last(), chosen, new_target);
        let l = ls.last();
        if l.kind != LinkKind::External && chosen[ls.len() - 1] {
            match retarget_edit(l, new_target) {
                Some(e) => rest.push(e),
                None => rest,
            }
        } else {
            rest
        }
    }
}

/// Pull the label out of `[label](dest)` or `![label](dest)`.
pub fn markdown_link_label(raw: &str) -> (r: Option<String>)
    ensures
        opt_view(r) == md_label(raw@),
{
    let v = to_chars(raw);
    let n = v.len();
    proof {
        assert(v@.subrange(0, n as int) =~= v@);
    }
    let open = match find_char_in(&v, 0, n, '[') {
        None => return None,
        Some(b) => b,
    };
    let start = open + 1;
    let mut depth: usize = 1;
    let mut i = start;
    assert(md_label(raw@) == match label_close(v@, start as int, 1) {
        Some(e) => Some(v@.subrange(start as int, e)),
        None => None::<Seq<char>>,
    });
    while i < n
        invariant
            v@ == raw@,
            n == v@.len(),
            1 <= start <= i <= n,
            1 <= depth <= i - start + 1,
            label_close(v@, start as int, 1) == label_close(v@, i as int, depth as int),
            md_label(raw@) == match label_close(v@, start as int, 1) {
                Some(e) => Some(v@.subrange(start as int, e)),
                None => None::<Seq<char>>,
            },
        decreases n - i,
    {
        if v[i] == '[' {
            depth = depth + 1;
        } else if v[i] == ']' {
            if depth == 1 {
                return Some(string_of(&v, start, i));
            }
            depth = depth - 1;
        }
        i = i + 1;
    }
    None
}

/// Escape the characters that would end a Markdown link destination early.
fn encode_destination(target: &str) -> (r: String)
    ensures
        r@ == encoded_destination(target@),
{
    let v = to_chars(target);
    let mut out = str_to_string("");
    proof {
        reveal_strlit("");
    }
    let mut i: usize = 0;
    while i < v.len()
        invariant
            i <= v@.len(),
            v@ == target@,
            out@ == encoded_destination(v@.take(i as int)),
        decreases v@.len() - i,
    {
        assert(v@.take(i + 1).drop_last() =~= v@.take(i as int));
        let c = v[i];
        if c == '(' {
            out.append("%28");
        } else if c == ')' {
            out.append("%29");
        } else if c == ' ' {
            out.append("%20");
        } else {
            crate::strings::push_char(&mut out, c);
        }
        i = i + 1;
    }
    assert(v@.take(v@.len() as int) =~= v@);
    out
}

/// Edits to a note's source, guided by its parse.
pub struct MarkdownTransformer {
    parser: MarkdownParser,
}

impl MarkdownTransformer {
    /// The parser options the transformer reads notes with.
    pub closed spec fn opts(&self) -> ParserOptions {
        self.parser.opts()
    }

    pub fn new() -> (t: MarkdownTransformer)
        ensures
            t.opts() == ParserOptions::default_spec(),
    {
        MarkdownTransformer { parser: MarkdownParser::new() }
    }

    /// Apply edits to a source string; see `apply`.
    pub fn apply(source: &str, edits: Vec<Edit>) -> (r: Result<String, String>)
        requires
            !apply_panics(source@, edits_view(edits@)),
        ensures
            match applied(source@, edits_view(edits@)) {
                Ok(t) => r matches Ok(x) && x@ == t,
                Err(m) => r matches Err(x) && x@ == m,
            },
    {
        apply(source, edits)
    }

    fn retarget_one(&self, link: &Link, new_target: &str) -> (r: Option<Edit>)
        ensures
            match retarget_edit(link@, new_target@) {
                Some(e) => r matches Some(x) && edit_view(x) == e,
                None => r is None,
            },
    {
        let replacement = match link.kind {
            LinkKind::WikiLink | LinkKind::Embed => {
                let target = LinkTarget {
                    path: str_to_string(new_target),
                    heading: clone_opt(&link.heading),
                    block_id: clone_opt(&link.block_id),
                    alias: clone_opt(&link.alias),
                };
                target.to_wikilink(matches!(link.kind, LinkKind::Embed))
            },
            LinkKind::Markdown | LinkKind::MarkdownImage => {
                // Keep the display text exactly as written; only the
                // destination changes.
                let label = match markdown_link_label(link.raw.as_str()) {
                    Some(l) => l,
                    None => return None,
                };
                let mut text = if matches!(link.kind, LinkKind::MarkdownImage) {
                    str_to_string("![")
                } else {
                    str_to_string("[")
                };
                text.append(label.as_str());
                text.append("](");
                text.append(encode_destination(new_target).as_str());
                match &link.block_id {
                    Some(block) => {
                        text.append("#^");
                        text.append(block.as_str());
                    },
                    None => match &link.heading {
                        Some(heading) => {
                            text.append("#");
                            text.append(heading.as_str());
                        },
                        None => {},
                    },
                }
                text.append(")");
                proof {
                    reveal_strlit("![");
                    reveal_strlit("[");
                    reveal_strlit("](");
                    reveal_strlit(")");
                    reveal_strlit("#^");
                    reveal_strlit("#");
                    let bang: Seq<char> = if link.kind == LinkKind::MarkdownImage { seq!['!', '['] } else { seq!['['] };
                    assert(text@ =~= bang + label@ + seq![']', '('] + encoded_destination(new_target@)
                        + fragment_of(opt_view(link.heading), opt_view(link.block_id)) + seq![')']);
                }
                text
            },
            LinkKind::External => return None,
        };
        assert(retargeted_text(link@, new_target@) == Some(replacement@));
        if crate::strings::chars_eq(&to_chars(replacement.as_str()), &to_chars(link.raw.as_str())) {
            return None;
        }
        Some(Edit { range: link.byte_start..link.byte_end, replacement })
    }

    /// Rewrite every internal link that `matches` accepts so it points at
    /// `new_target`. Aliases, heading references and block references are
    /// preserved; a link whose text would not change gets no edit.
    pub fn retarget_links<F: Fn(&Link) -> bool>(&self, source: &str, matches: F, new_target: &str) -> (r: Vec<Edit>)
        requires
            forall|l: &Link| #[trigger] matches.requires((l,)),
        ensures
            exists|ls: Seq<Link>, chosen: Seq<bool>|
                links_view(ls) == parsed_links(source@, self.opts()) && chosen.len() == ls.len()
                    && (forall|i: int| 0 <= i < ls.len() && ls[i].kind != LinkKind::External
                        ==> #[trigger] matches.ensures((&ls[i],), chosen[i]))
                    && edits_view(r@) == chosen_edits(links_view(ls), chosen, new_target@),
            forall|k: int| 0 <= k < r@.len() ==> (#[trigger] r@[k]).range.start <= r@[k].range.end,
    {
        let document = self.parser.parse_with(source, &FrontmatterValues::none());
        let links = &document.metadata.links;
        let ghost ls = links@;
        let ghost mut chosen: Seq<bool> = Seq::new(ls.len(), |i: int| false);
        let mut out: Vec<Edit> = Vec::new();
        let mut i: usize = 0;
        assert(links_view(ls).take(0) =~= seq![]);
        assert(edits_view(out@) =~= seq![]);
        while i < links.len()
            invariant
                ls == links@,
                chosen.len() == ls.len(),
                i <= ls.len(),
                forall|l: &Link| #[trigger] matches.requires((l,)),
                forall|k: int| 0 <= k < i && ls[k].kind != LinkKind::External ==> #[trigger] matches.ensures((&ls[k],), chosen[k]),
                edits_view(out@) == chosen_edits(links_view(ls).take(i as int), chosen, new_target@),
                forall|k: int| 0 <= k < ls.len() ==> (#[trigger] ls[k]).byte_start <= ls[k].byte_end,
                forall|k: int| 0 <= k < out@.len() ==> (#[trigger] out@[k]).range.start <= out@[k].range.end,
            decreases ls.len() - i,
        {
            let ghost lv = links_view(ls);
            assert(lv.take(i + 1).drop_last() =~= lv.take(i as int));
            assert(lv.take(i + 1).last() == ls[i as int]@);
            let link = &links[i];
            if link.kind.is_internal() {
                let accepted = matches(link);
                let ghost old_chosen = chosen;
                proof {
                    chosen = chosen.update(i as int, accepted);
                    lemma_chosen_edits_frame(lv.take(i as int), chosen, old_chosen, new_target@);
                }
                if accepted {
                    match self.retarget_one(link, new_target) {
                        Some(e) => {
                            let ghost before = out@;
                            out.push(e);
                            assert(edits_view(out@) =~= edits_view(before).push(edit_view(e)));
                        },
                        None => {},
                    }
                }
            }
            i = i + 1;
        }
        assert(links_view(ls).take(ls.len() as int) =~= links_view(ls));
        out
    }
}

/// The choice only matters for internal links.
pub proof fn lemma_chosen_edits_internal(ls: Seq<LinkView>, c1: Seq<bool>, c2: Seq<bool>, t: Seq<char>)
    requires
        c1.len() >= ls.len(),
        c2.len() >= ls.len(),
        forall|k: int| 0 <= k < ls.len() && ls[k].kind != LinkKind::External ==> c1[k] == c2[k],
    ensures
        chosen_edits(ls, c1, t) == chosen_edits(ls, c2, t),
    decreases ls.len(),
{
    if ls.len() > 0 {
        assert forall|k: int| 0 <= k < ls.drop_last().len() && ls.drop_last()[k].kind != LinkKind::External implies c1[k] == c2[k] by {
            assert(ls.drop_last()[k] == ls[k]);
        }
        lemma_chosen_edits_internal(ls.drop_last(), c1, c2, t);
    }
}

proof fn lemma_chosen_edits_frame(ls: Seq<LinkView>, c1: Seq<bool>, c2: Seq<bool>, t: Seq<char>)
    requires
        c1.len() >= ls.len(),
        c2.len() >= ls.len(),
        forall|k: int| 0 <= k < ls.len() ==> c1[k] == c2[k],
    ensures
        chosen_edits(ls, c1, t) == chosen_edits(ls, c2, t),
    decreases ls.len(),
{
    if ls.len() > 0 {
        lemma_chosen_edits_frame(ls.drop_last(), c1, c2, t);
    }
}

// ---------------------------------------------------------------------------
// Block identifiers.

/// The first block on `line`, or around `offset`.
pub open spec fn block_here(bs: Seq<BlockView>, line: int, offset: int) -> Option<int>
    decreases bs.len(),
{
    if bs.len() == 0 {
        None
    } else if bs[0].line == line || (bs[0].byte_start <= offset <= bs[0].byte_end) {
        Some(0)
    } else {
        match block_here(bs.drop_first(), line, offset) {
            Some(i) => Some(i + 1),
            None => None,
        }
    }
}

/// Where a new `^id` goes on line `k`: after the line's text, before any
/// trailing whitespace.
pub open spec fn marker_at(s: Seq<char>, k: int) -> int {
    let starts = line_starts(s);
    lr_start(starts, blen(s) as int, k) + blen(trim_end(ltext(s, starts, blen(s) as int, k)))
}

proof fn lemma_prefix_blen(x: Seq<char>, k: int)
    requires
        0 <= k <= x.len(),
    ensures
        blen(x.take(k)) <= blen(x),
{
    assert(x =~= x.take(k) + x.skip(k));
    crate::strings::lemma_blen_concat(x.take(k), x.skip(k));
}

proof fn lemma_strip_cr_prefix(t: Seq<char>)
    ensures
        crate::markdown::text::strip_cr(t) == t.take(crate::markdown::text::strip_cr(t).len() as int),
        crate::markdown::text::strip_cr(t).len() <= t.len(),
    decreases t.len(),
{
    if t.len() > 0 && t.last() == '\r' {
        lemma_strip_cr_prefix(t.drop_last());
        assert(t.drop_last().take(crate::markdown::text::strip_cr(t).len() as int)
            =~= t.take(crate::markdown::text::strip_cr(t).len() as int));
    } else {
        assert(t.take(t.len() as int) =~= t);
    }
}

proof fn lemma_marker_bound(s: Seq<char>, k: int)
    requires
        0 <= k,
    ensures
        marker_at(s, k) <= blen(s),
        0 <= lr_start(line_starts(s), blen(s) as int, k),
{
    let starts = line_starts(s);
    let len = blen(s) as int;
    crate::markdown::text::lemma_line_starts(s);
    let a = lr_start(starts, len, k);
    let b = crate::markdown::scanner::lr_end(starts, len, k);
    match byte_slice(s, a, b) {
        Some(t) => {
            let (i, j) = choose|i: int, j: int| 0 <= i <= j <= s.len() && boff(s, i) == a && boff(s, j) == b;
            assert(t == s.subrange(i, j));
            crate::markdown::scanner::lemma_boff_sub(s, i, j - i);
            crate::strings::lemma_boff_mono(s, j, s.len() as int);
            crate::strings::lemma_boff_full(s);
            let u = crate::markdown::text::strip_cr(t);
            assert(ltext(s, starts, len, k) == u);
            lemma_strip_cr_prefix(t);
            lemma_prefix_blen(t, u.len() as int);
            crate::strings::lemma_trim_end_len(u);
            lemma_prefix_blen(u, crate::strings::trim_end_len(u) as int);
        },
        None => {
            assert(crate::markdown::text::strip_cr(Seq::<char>::empty()) =~= Seq::<char>::empty());
            crate::strings::lemma_trim_end_len(Seq::<char>::empty());
        },
    }
}

fn find_block(blocks: &Vec<crate::model::Block>, line: usize, offset: usize) -> (r: Option<usize>)
    ensures
        match r {
            Some(i) => i < blocks@.len() && block_here(crate::markdown::scanner::blocks_view(blocks@), line as int, offset as int) == Some(i as int),
            None => block_here(crate::markdown::scanner::blocks_view(blocks@), line as int, offset as int) is None,
        },
{
    let ghost bs = crate::markdown::scanner::blocks_view(blocks@);
    let mut i: usize = 0;
    assert(bs.skip(0) =~= bs);
    while i < blocks.len()
        invariant
            bs == crate::markdown::scanner::blocks_view(blocks@),
            i <= blocks@.len(),
            block_here(bs, line as int, offset as int) == match block_here(bs.skip(i as int), line as int, offset as int) {
                Some(j) => Some(j + i),
                None => None::<int>,
            },
        decreases blocks@.len() - i,
    {
        assert(bs.skip(i as int)[0] == bs[i as int]);
        assert(bs.skip(i as int).drop_first() =~= bs.skip(i + 1));
        assert(bs[i as int] == blocks@[i as int]@);
        if blocks[i].line == line || (blocks[i].byte_start <= offset && offset <= blocks[i].byte_end) {
            return Some(i);
        }
        i = i + 1;
    }
    None
}

fn marker_offset(lines: &LineIndex, source: &str, line: usize) -> (r: usize)
    requires
        lines.wf(),
        lines.indexes(source@),
    ensures
        r == marker_at(source@, line as int),
{
    let ghost s = source@;
    let total = byte_len(source);
    let range = lines.line_range(line);
    let text = lines.line_text(source, line);
    let v = to_chars(text);
    let e = trim_end_range(&v, 0, v.len());
    proof {
        assert(v@.subrange(0, v@.len() as int) =~= v@);
        lemma_marker_bound(s, line as int);
    }
    let kept = string_of(&v, 0, e);
    let trimmed_len = byte_len(kept.as_str());
    assert(text@ == ltext(s, line_starts(s), blen(s) as int, line as int));
    assert(range.start == lr_start(line_starts(s), blen(s) as int, line as int));
    assert(trimmed_len == blen(trim_end(text@)));
    range.start + trimmed_len
}

impl MarkdownTransformer {
    /// Append a block identifier to the line containing `offset`, or return
    /// the existing one if that line already has a marker. Creating the id
    /// must not disturb the text.
    #[verifier::rlimit(80)]
    pub fn ensure_block_id<F: FnOnce() -> String>(&self, source: &str, offset: usize, generate_id: F) -> (r: (String, String, Option<Edit>))
        requires
            generate_id.requires(()),
        ensures
            ({
                let s = source@;
                let bs = parsed_blocks(s, self.opts());
                let line = line_at(line_starts(s), if offset < blen(s) { offset as int } else { blen(s) as int });
                match block_here(bs, line, offset as int) {
                    Some(i) => r.0@ == s && r.1@ == bs[i].id && r.2 is None,
                    None => {
                        let at = marker_at(s, line);
                        let e = EditView { start: at, end: at, replacement: seq![' ', '^'] + r.1@ };
                        &&& generate_id.ensures((), r.1)
                        &&& r.2 matches Some(x) && edit_view(x) == e
                        &&& r.0@ == match applied(s, seq![e]) {
                            Ok(t) => t,
                            Err(_) => s,
                        }
                    },
                }
            }),
    {
        let document = self.parser.parse_with(source, &FrontmatterValues::none());
        let lines = LineIndex::new(source);
        let total = byte_len(source);
        let line = lines.line_of(if offset < total { offset } else { total });
        match find_block(&document.metadata.blocks, line, offset) {
            Some(i) => {
                assert(crate::markdown::scanner::blocks_view(document.metadata.blocks@)[i as int]
                    == document.metadata.blocks@[i as int]@);
                return (str_to_string(source), crate::strings::clone_string(&document.metadata.blocks[i].id), None);
            },
            None => {},
        }
        let at = marker_offset(&lines, source, line);
        let id = generate_id();
        let mut replacement = str_to_string(" ^");
        replacement.append(id.as_str());
        proof {
            reveal_strlit(" ^");
            assert(replacement@ =~= seq![' ', '^'] + id@);
        }
        let edit = Edit { range: at..at, replacement };
        let copy = Edit { range: at..at, replacement: crate::strings::clone_string(&edit.replacement) };
        let mut single: Vec<Edit> = Vec::new();
        single.push(copy);
        assert(edits_view(single@) =~= seq![edit_view(edit)]);
        proof {
            lemma_forward_edits_apply(source@, single@);
        }
        let updated = match apply(source, single) {
            Ok(t) => t,
            Err(_) => str_to_string(source),
        };
        (updated, id, Some(edit))
    }
}

// ---------------------------------------------------------------------------
// Laws.

/// Applying no edits gives the text back unchanged.
pub proof fn law_no_edits_leave_the_text_as_it_is(s: Seq<char>)
    ensures
        applied(s, Seq::<EditView>::empty()) == Ok::<Seq<char>, Seq<char>>(s),
{
    crate::strings::lemma_boff_full(s);
    crate::markdown::text::lemma_byte_slice_some(s, 0, s.len() as int);
    assert(boff(s, 0) == 0);
    assert(s.subrange(0, s.len() as int) =~= s);
    assert(sort_edits(Seq::<EditView>::empty()) =~= Seq::<EditView>::empty());
}

/// Neighbouring edits from `i` on do not overlap.
pub open spec fn disjoint_from(es: Seq<EditView>, i: int) -> bool {
    forall|k: int| i <= k && k + 1 < es.len() ==> (#[trigger] es[k]).end <= es[k + 1].start
}

proof fn lemma_no_overlap_is_disjoint(es: Seq<EditView>, i: int)
    requires
        0 <= i,
    ensures
        first_overlap(es, i) is None <==> disjoint_from(es, i),
    decreases es.len() - i,
{
    if i + 1 < es.len() {
        lemma_no_overlap_is_disjoint(es, i + 1);
    }
}

proof fn lemma_ends_before_last(es: Seq<EditView>, k: int)
    requires
        ordered(es),
        disjoint_from(es, 0),
        0 <= k < es.len(),
    ensures
        es[k].end <= es.last().end,
    decreases es.len() - k,
{
    if k + 1 < es.len() {
        lemma_ends_before_last(es, k + 1);
        assert(es[k].end <= es[k + 1].start);
        assert(es[k + 1].start <= es[k + 1].end);
    }
}

/// Edits whose ranges run forwards are applied exactly when, sorted by
/// (start, end), no edit ends after the next one starts, none ends past the
/// text and every offset falls on a character boundary; the result then
/// replaces each range and keeps every byte between them.
pub proof fn law_apply_accepts_exactly_disjoint_edits(s: Seq<char>, edits: Seq<EditView>)
    requires
        forall|k: int| 0 <= k < edits.len() ==> (#[trigger] edits[k]).start <= edits[k].end,
    ensures
        ({
            let es = sort_edits(edits);
            &&& es.len() == edits.len()
            &&& (applied(s, edits) is Ok <==> {
                &&& disjoint_from(es, 0)
                &&& forall|k: int| 0 <= k < es.len() ==> (#[trigger] es[k]).end <= blen(s)
                &&& forall|k: int|
                    0 <= k < es.len() ==> is_boundary(s, (#[trigger] es[k]).start) && is_boundary(s, es[k].end)
            })
            &&& (applied(s, edits) is Ok ==> applied(s, edits) == Ok::<Seq<char>, Seq<char>>(spliced(s, es, 0)))
        }),
{
    let es = sort_edits(edits);
    assert(ordered(edits));
    lemma_sort_edits_ordered(edits);
    lemma_no_overlap_is_disjoint(es, 0);
    if disjoint_from(es, 0) && es.len() > 0 {
        assert forall|k: int| 0 <= k < es.len() implies (#[trigger] es[k]).end <= es.last().end by {
            lemma_ends_before_last(es, k);
        }
    }
}

/// What retargeting does to one link `l` that it edits: the edit covers
/// exactly the link's bytes, and its text differs from the link's.
pub open spec fn edits_link(e: EditView, l: LinkView, new_target: Seq<char>) -> bool {
    &&& l.kind != LinkKind::External
    &&& retarget_edit(l, new_target) == Some(e)
    &&& e.start == l.byte_start
    &&& e.end == l.byte_end
    &&& e.replacement != l.raw
}

/// Retargeting edits only chosen internal links: each edit replaces exactly
/// the bytes of one such link, in the links' order, with text that differs
/// from the link's own (a link whose text would not change gets no edit).
pub proof fn law_retargeting_replaces_whole_chosen_links(ls: Seq<LinkView>, chosen: Seq<bool>, new_target: Seq<char>)
    requires
        chosen.len() >= ls.len(),
    ensures
        forall|k: int| 0 <= k < chosen_edits(ls, chosen, new_target).len() ==> exists|i: int|
            0 <= i < ls.len() && chosen[i] && edits_link(
                #[trigger] chosen_edits(ls, chosen, new_target)[k],
                ls[i],
                new_target,
            ),
    decreases ls.len(),
{
    if ls.len() > 0 {
        let d = ls.drop_last();
        law_retargeting_replaces_whole_chosen_links(d, chosen, new_target);
        let rest = chosen_edits(d, chosen, new_target);
        let all = chosen_edits(ls, chosen, new_target);
        let last = ls.len() - 1;
        assert forall|k: int| 0 <= k < all.len() implies exists|i: int|
            0 <= i < ls.len() && chosen[i] && edits_link(#[trigger] all[k], ls[i], new_target) by {
            if k < rest.len() {
                assert(all[k] == rest[k]);
                let i = choose|i: int| 0 <= i < d.len() && chosen[i] && edits_link(rest[k], d[i], new_target);
                assert(ls[i] == d[i]);
            } else {
                assert(edits_link(all[k], ls[last], new_target));
            }
        }
    }
}

/// A chosen internal link whose text changes has its edit among the edits.
pub proof fn lemma_chosen_edit_present(ls: Seq<LinkView>, chosen: Seq<bool>, new_target: Seq<char>, i: int)
    requires
        0 <= i < ls.len(),
        chosen.len() >= ls.len(),
        chosen[i],
        ls[i].kind != LinkKind::External,
        retarget_edit(ls[i], new_target) is Some,
    ensures
        chosen_edits(ls, chosen, new_target).contains(retarget_edit(ls[i], new_target)->Some_0),
    decreases ls.len(),
{
    let d = ls.drop_last();
    let all = chosen_edits(ls, chosen, new_target);
    let e = retarget_edit(ls[i], new_target)->Some_0;
    if i == ls.len() - 1 {
        assert(all.last() == e);
        assert(all[all.len() - 1] == e);
    } else {
        assert(d[i] == ls[i]);
        lemma_chosen_edit_present(d, chosen, new_target, i);
        let rest = chosen_edits(d, chosen, new_target);
        let k = choose|k: int| 0 <= k < rest.len() && rest[k] == e;
        assert(all[k] == rest[k]);
    }
}

pub proof fn lemma_nothing_chosen(ls: Seq<LinkView>, chosen: Seq<bool>, new_target: Seq<char>)
    requires
        chosen.len() >= ls.len(),
        forall|i: int| 0 <= i < chosen.len() ==> !chosen[i],
    ensures
        chosen_edits(ls, chosen, new_target) == Seq::<EditView>::empty(),
    decreases ls.len(),
{
    if ls.len() > 0 {
        lemma_nothing_chosen(ls.drop_last(), chosen, new_target);
    }
}

} // verus!
