//! A note's frontmatter as typed properties: read from the YAML between its
//! delimiters, and written back without touching the body.
//!
//! YAML has already decided what is a number and what is a string, and that
//! decision is respected: `rating: 8` is a number, `rating: "8"` is text. The
//! one classification added on top is date recognition, because the YAML 1.2
//! core schema has no date type.
use vstd::prelude::*;
use crate::index::resolve::{less, seq_less};
use crate::links::reference::opt_view;
use crate::markdown::frontmatter::{
    add_tag, closing_from, frontmatter_of, lemma_closing_bounds, locate, push_tags_from_text, tag_parts,
    tag_views, with_tag, with_tags, yaml_start_of,
};
use crate::markdown::yaml::{read_yaml, write_yaml, yaml_document, yaml_result_view, yaml_written, YamlNode, YamlView};
use crate::markdown::frontmatter::{body_start_of, with_frontmatter};
use crate::markdown::transform::MarkdownTransformer;
use crate::model::property::{looks_like_plain_number, plain_number, properties_view, Property, PropertyValue, ValueView};
use crate::strings::{
    blen, boff, chars_eq, clone_string, eq_ic, eq_ignore_ascii_case, join_strings, joined, str_to_string,
    string_of, texts_view, to_chars, trim, trimmed, Text,
};

verus! {

// ---------------------------------------------------------------------------
// Dates.

/// Whether `time::Date::parse` reads `text` as `[year]-[month]-[day]`.
pub uninterp spec fn is_calendar_date(text: Seq<char>) -> bool;

/// Whether `time::OffsetDateTime::parse` reads `text` as RFC 3339.
pub uninterp spec fn is_rfc3339(text: Seq<char>) -> bool;

/// `time::Date::parse` with the format `[year]-[month]-[day]` (built by
/// `time::format_description::parse`): does it accept `text`? The contract
/// names the answer.
#[verifier::external_body]
fn calendar_date(text: &str) -> (r: bool)
    ensures
        r == is_calendar_date(text@),
{
    match time::format_description::parse("[year]-[month]-[day]") {
        Ok(format) => time::Date::parse(text, &format).is_ok(),
        Err(_) => false,
    }
}

/// `time::OffsetDateTime::parse` with the RFC 3339 format: does it accept
/// `text`? The contract names the answer.
#[verifier::external_body]
fn rfc3339_instant(text: &str) -> (r: bool)
    ensures
        r == is_rfc3339(text@),
{
    time::OffsetDateTime::parse(text, &time::format_description::well_known::Rfc3339).is_ok()
}

// ---------------------------------------------------------------------------
// From YAML to typed values.

/// A scalar used as a key: text as it is, a number by its text, a boolean
/// as `true` or `false`; anything else is no key.
pub open spec fn scalar_text(v: YamlView) -> Option<Seq<char>> {
    match v {
        YamlView::Text(s) => Some(s),
        YamlView::Number(t) => Some(t),
        YamlView::Bool(b) => Some(if b { "true"@ } else { "false"@ }),
        _ => None,
    }
}

/// A YAML string: a date or an instant when its trimmed text reads as one,
/// text as written otherwise.
pub open spec fn text_value(s: Seq<char>) -> ValueView {
    let t = trim(s);
    if is_calendar_date(t) {
        ValueView::Date(t)
    } else if is_rfc3339(t) {
        ValueView::DateTime(t)
    } else {
        ValueView::Text(s)
    }
}

/// An object's entries after setting `k` to `v`: ordered by key, each key
/// once, a key set again keeping its place and taking the new value.
pub open spec fn object_insert(es: Seq<(Seq<char>, ValueView)>, k: Seq<char>, v: ValueView) -> Seq<
    (Seq<char>, ValueView),
>
    decreases es.len(),
{
    if es.len() == 0 {
        seq![(k, v)]
    } else if es.last().0 == k {
        es.drop_last().push((k, v))
    } else if seq_less(es.last().0, k) {
        es.push((k, v))
    } else {
        object_insert(es.drop_last(), k, v).push(es.last())
    }
}

/// The object a YAML mapping makes: each entry with a scalar key, in turn.
pub open spec fn object_of(pairs: Seq<(YamlView, YamlView)>) -> Seq<(Seq<char>, ValueView)>
    decreases pairs, 0nat,
{
    if pairs.len() == 0 {
        seq![]
    } else {
        proof {
            assert(decreases_to!(pairs => pairs[pairs.len() - 1]));
            assert(decreases_to!(pairs[pairs.len() - 1] => pairs[pairs.len() - 1].1));
            assert(decreases_to!(pairs => pairs.subrange(0, pairs.len() - 1)));
        }
        let rest = object_of(pairs.subrange(0, pairs.len() - 1));
        match scalar_text(pairs[pairs.len() - 1].0) {
            Some(k) => object_insert(rest, k, value_of_yaml(pairs[pairs.len() - 1].1)),
            None => rest,
        }
    }
}

/// The typed value of a YAML value.
pub open spec fn value_of_yaml(v: YamlView) -> ValueView
    decreases v, 1nat,
{
    match v {
        YamlView::Null => ValueView::Null,
        YamlView::Bool(b) => ValueView::Checkbox(b),
        YamlView::Number(t) => ValueView::Number(t),
        YamlView::Text(s) => text_value(s),
        YamlView::List(items) => ValueView::List(
            Seq::new(items.len(), |i: int| if 0 <= i < items.len() { value_of_yaml(items[i]) } else { ValueView::Null }),
        ),
        YamlView::Mapping(pairs) => ValueView::Object(object_of(pairs)),
        YamlView::Tagged(inner) => value_of_yaml(*inner),
    }
}

pub open spec fn entries_view(es: Seq<(String, PropertyValue)>) -> Seq<(Seq<char>, ValueView)> {
    es.map_values(|e: (String, PropertyValue)| (e.0@, e.1@))
}

fn text_property(s: &String) -> (r: PropertyValue)
    ensures
        r@ == text_value(s@),
{
    let v = to_chars(s.as_str());
    let t = trimmed(&v, 0, v.len());
    assert(v@.subrange(0, v@.len() as int) =~= s@);
    if calendar_date(t.as_str()) {
        PropertyValue::Date(t)
    } else if rfc3339_instant(t.as_str()) {
        PropertyValue::DateTime(t)
    } else {
        PropertyValue::Text(clone_string(s))
    }
}

fn scalar_key(v: &YamlNode) -> (r: Option<String>)
    ensures
        opt_view(r) == scalar_text(v@),
{
    match v {
        YamlNode::Text(s) => Some(clone_string(s)),
        YamlNode::Number(t) => Some(clone_string(t)),
        YamlNode::Bool(b) => Some(str_to_string(if *b { "true" } else { "false" })),
        _ => None,
    }
}

fn insert_entry(entries: Vec<(String, PropertyValue)>, k: String, v: PropertyValue) -> (r: Vec<
    (String, PropertyValue),
>)
    ensures
        entries_view(r@) == object_insert(entries_view(entries@), k@, v@),
    decreases entries@.len(),
{
    let ghost ev = entries_view(entries@);
    let mut rest = entries;
    if rest.len() == 0 {
        let r = vec![(k, v)];
        assert(entries_view(r@) =~= seq![(k@, v@)]);
        return r;
    }
    let last = rest.pop().unwrap();
    assert(entries_view(rest@) =~= ev.drop_last());
    assert(ev.last() == (last.0@, last.1@));
    if chars_eq(&to_chars(last.0.as_str()), &to_chars(k.as_str())) {
        let ghost before = rest@;
        rest.push((k, v));
        assert(entries_view(rest@) =~= entries_view(before).push((k@, v@)));
        rest
    } else if less(last.0.as_str(), k.as_str()) {
        let ghost before = rest@;
        rest.push(last);
        rest.push((k, v));
        assert(entries_view(rest@) =~= ev.push((k@, v@)));
        rest
    } else {
        let mut r = insert_entry(rest, k, v);
        let ghost before = r@;
        r.push(last);
        assert(entries_view(r@) =~= entries_view(before).push(ev.last()));
        r
    }
}

/// The typed value of a YAML value.
#[verifier::spinoff_prover]
#[verifier::rlimit(40)]
pub fn value_from_yaml(node: &YamlNode) -> (r: PropertyValue)
    ensures
        r@ == value_of_yaml(node@),
    decreases node,
{
    match node {
        YamlNode::Null => {
            assert(node@ == YamlView::Null);
            PropertyValue::Null
        },
        YamlNode::Bool(b) => {
            assert(node@ == YamlView::Bool(*b));
            PropertyValue::Checkbox(*b)
        },
        YamlNode::Number(t) => {
            assert(node@ == YamlView::Number(t@));
            PropertyValue::Number(clone_string(t))
        },
        YamlNode::Text(s) => {
            assert(node@ == YamlView::Text(s@));
            text_property(s)
        },
        YamlNode::List(items) => {
            let ghost iv = Seq::new(
                items@.len(),
                |i: int| if 0 <= i < items@.len() { items@[i].view_of() } else { YamlView::Null },
            );
            let mut out: Vec<PropertyValue> = Vec::new();
            let mut i: usize = 0;
            while i < items.len()
                invariant
                    *node == YamlNode::List(*items),
                    i <= items@.len(),
                    out@.len() == i,
                    forall|k: int| 0 <= k < i ==> (#[trigger] out@[k])@ == value_of_yaml(iv[k]),
                    iv == Seq::new(
                        items@.len(),
                        |i: int| if 0 <= i < items@.len() { items@[i].view_of() } else { YamlView::Null },
                    ),
                decreases items@.len() - i,
            {
                proof {
                    assert(*items == node->List_0);
                    assert(decreases_to!(*node => node->List_0));
                    assert(decreases_to!(*items => items@));
                    assert(decreases_to!(items@ => items@[i as int]));
                }
                let x = value_from_yaml(&items[i]);
                out.push(x);
                i = i + 1;
            }
            let r = PropertyValue::List(out);
            assert(*node == YamlNode::List(*items));
            assert(node@ is List);
            assert(node@->List_0.len() == iv.len());
            assert(forall|k: int| 0 <= k < iv.len() ==> node@->List_0[k] == iv[k]);
            assert(node@->List_0 =~= iv);
            assert(node@ == YamlView::List(iv));
            let ghost want = Seq::new(
                iv.len(),
                |i: int| if 0 <= i < iv.len() { value_of_yaml(iv[i]) } else { ValueView::Null },
            );
            let ghost got = Seq::new(
                out@.len(),
                |i: int| if 0 <= i < out@.len() { out@[i].view_of() } else { ValueView::Null },
            );
            assert(got =~= want);
            assert(r@ is List);
            assert(forall|k: int| 0 <= k < got.len() ==> r@->List_0[k] == got[k]);
            assert(r@->List_0 =~= got);
            assert(value_of_yaml(node@) is List);
            assert(forall|k: int| 0 <= k < want.len() ==> value_of_yaml(node@)->List_0[k] == want[k]);
            assert(value_of_yaml(node@)->List_0 =~= want);
            r
        },
        YamlNode::Mapping(pairs) => {
            let ghost pv = Seq::new(
                pairs@.len(),
                |i: int|
                    if 0 <= i < pairs@.len() {
                        (pairs@[i].0.view_of(), pairs@[i].1.view_of())
                    } else {
                        (YamlView::Null, YamlView::Null)
                    },
            );
            let mut out: Vec<(String, PropertyValue)> = Vec::new();
            let mut i: usize = 0;
            assert(pv.take(0) =~= Seq::<(YamlView, YamlView)>::empty());
            assert(entries_view(out@) =~= Seq::<(Seq<char>, ValueView)>::empty());
            while i < pairs.len()
                invariant
                    *node == YamlNode::Mapping(*pairs),
                    i <= pairs@.len(),
                    pv.len() == pairs@.len(),
                    forall|k: int| 0 <= k < pairs@.len() ==> #[trigger] pv[k] == (pairs@[k].0.view_of(), pairs@[k].1.view_of()),
                    entries_view(out@) == object_of(pv.take(i as int)),
                decreases pairs@.len() - i,
            {
                proof {
                    assert(*pairs == node->Mapping_0);
                    assert(decreases_to!(*node => node->Mapping_0));
                    assert(decreases_to!(*pairs => pairs@));
                    assert(decreases_to!(pairs@ => pairs@[i as int]));
                    assert(decreases_to!(pairs@[i as int] => pairs@[i as int].0));
                    assert(decreases_to!(pairs@[i as int] => pairs@[i as int].1));
                }
                let ghost t = pv.take(i + 1);
                assert(t.subrange(0, t.len() - 1) =~= pv.take(i as int));
                assert(t[t.len() - 1] == pv[i as int]);
                let key = scalar_key(&pairs[i].0);
                let value = value_from_yaml(&pairs[i].1);
                match key {
                    Some(k) => {
                        out = insert_entry(out, k, value);
                    },
                    None => {},
                }
                i = i + 1;
            }
            assert(pv.take(i as int) =~= pv);
            let r = PropertyValue::Object(out);
            assert(node@ is Mapping);
            assert(forall|k: int| 0 <= k < pv.len() ==> node@->Mapping_0[k] == pv[k]);
            assert(node@->Mapping_0 =~= pv);
            assert(node@ == YamlView::Mapping(pv));
            let ghost got = Seq::new(
                out@.len(),
                |i: int|
                    if 0 <= i < out@.len() {
                        (out@[i].0@, out@[i].1.view_of())
                    } else {
                        (Seq::<char>::empty(), ValueView::Null)
                    },
            );
            assert(r@ is Object);
            assert(forall|k: int| 0 <= k < got.len() ==> r@->Object_0[k] == got[k]);
            assert(r@->Object_0 =~= got);
            assert(got =~= entries_view(out@));
            r
        },
        YamlNode::Tagged(inner) => {
            assert(node@ == YamlView::Tagged(Box::new((**inner).view_of())));
            value_from_yaml(inner)
        },
    }
}

// ---------------------------------------------------------------------------
// Reading a note's properties.

/// The properties of a mapping: each entry with a scalar key, in document
/// order.
pub open spec fn entries_of(pairs: Seq<(YamlView, YamlView)>) -> Seq<(Seq<char>, ValueView)>
    decreases pairs.len(),
{
    if pairs.len() == 0 {
        seq![]
    } else {
        let rest = entries_of(pairs.drop_last());
        match scalar_text(pairs.last().0) {
            Some(k) => rest.push((k, value_of_yaml(pairs.last().1))),
            None => rest,
        }
    }
}

pub open spec fn not_a_mapping() -> Seq<char> {
    "frontmatter must be a mapping of keys to values"@
}

/// The properties a YAML document gives and the error to report: a mapping
/// gives its entries, an empty document none, anything else an error.
pub open spec fn properties_spec(doc: Result<YamlView, Seq<char>>) -> (Seq<(Seq<char>, ValueView)>, Option<Seq<char>>) {
    match doc {
        Ok(YamlView::Mapping(pairs)) => (entries_of(pairs), None),
        Ok(YamlView::Null) => (seq![], None),
        Ok(_) => (seq![], Some(not_a_mapping())),
        Err(e) => (seq![], Some(e)),
    }
}

/// The properties a YAML document gives, and the error to report.
pub fn properties_from_yaml(doc: Result<YamlNode, String>) -> (r: (Vec<Property>, Option<String>))
    ensures
        (properties_view(r.0@), opt_view(r.1)) == properties_spec(yaml_result_view(doc)),
{
    let empty: Vec<Property> = Vec::new();
    assert(properties_view(empty@) =~= Seq::<(Seq<char>, ValueView)>::empty());
    match doc {
        Ok(YamlNode::Mapping(pairs)) => {
            let ghost pv = Seq::new(
                pairs@.len(),
                |i: int|
                    if 0 <= i < pairs@.len() {
                        (pairs@[i].0.view_of(), pairs@[i].1.view_of())
                    } else {
                        (YamlView::Null, YamlView::Null)
                    },
            );
            let ghost node = YamlNode::Mapping(pairs);
            assert(node@ is Mapping);
            assert(forall|k: int| 0 <= k < pv.len() ==> node@->Mapping_0[k] == pv[k]);
            assert(node@->Mapping_0 =~= pv);
            let mut out: Vec<Property> = Vec::new();
            let mut i: usize = 0;
            assert(pv.take(0) =~= Seq::<(YamlView, YamlView)>::empty());
            assert(properties_view(out@) =~= Seq::<(Seq<char>, ValueView)>::empty());
            while i < pairs.len()
                invariant
                    i <= pairs@.len(),
                    pv.len() == pairs@.len(),
                    forall|k: int| 0 <= k < pairs@.len() ==> #[trigger] pv[k] == (pairs@[k].0.view_of(), pairs@[k].1.view_of()),
                    properties_view(out@) == entries_of(pv.take(i as int)),
                decreases pairs@.len() - i,
            {
                assert(pv.take(i + 1).drop_last() =~= pv.take(i as int));
                assert(pv.take(i + 1).last() == pv[i as int]);
                let key = scalar_key(&pairs[i].0);
                match key {
                    Some(k) => {
                        let value = value_from_yaml(&pairs[i].1);
                        let ghost before = out@;
                        out.push(Property { key: k, value });
                        assert(properties_view(out@) =~= properties_view(before).push((k@, value@)));
                    },
                    None => {},
                }
                i = i + 1;
            }
            assert(pv.take(i as int) =~= pv);
            (out, None)
        },
        Ok(YamlNode::Null) => (empty, None),
        Ok(_) => (empty, Some(str_to_string("frontmatter must be a mapping of keys to values"))),
        Err(e) => (empty, Some(e)),
    }
}

/// The YAML between a note's frontmatter delimiters, when it has a block.
pub open spec fn yaml_text_of(s: Seq<char>) -> Option<Seq<char>> {
    match yaml_start_of(s) {
        None => None,
        Some(ys) => match closing_from(s, ys) {
            None => None,
            Some((ye, _)) => Some(s.subrange(ys, ye)),
        },
    }
}

/// The YAML between a note's frontmatter delimiters, when it has a block.
pub fn yaml_text(source: &str) -> (r: Option<String>)
    ensures
        opt_view(r) == yaml_text_of(source@),
{
    let ghost s = source@;
    match locate(source) {
        None => None,
        Some(span) => {
            let text = Text::new(source);
            let ghost ys = yaml_start_of(s)->0;
            let ghost closing = closing_from(s, ys)->0;
            let ghost ye = closing.0;
            proof {
                lemma_closing_bounds(s, ys);
                crate::strings::lemma_boff_full(s);
                assert(text.offs@[s.len() as int] == boff(s, s.len() as int));
                crate::strings::lemma_boff_mono(s, ys, s.len() as int);
                crate::strings::lemma_boff_mono(s, ye, s.len() as int);
                assert(span.yaml_start == boff(s, ys));
                assert(span.yaml_end == boff(s, ye));
            }
            let a = text.index_of_byte(span.yaml_start);
            let b = text.index_of_byte(span.yaml_end);
            match (a, b) {
                (Some(i), Some(j)) => {
                    proof {
                        crate::strings::lemma_boff_inj(s, i as int, ys);
                        crate::strings::lemma_boff_inj(s, j as int, ye);
                    }
                    Some(string_of(&text.chars, i, j))
                },
                _ => None,
            }
        },
    }
}

/// A note's properties as its frontmatter declares them, and the error to
/// report: none without a block or with a blank one.
pub open spec fn frontmatter_properties(s: Seq<char>) -> (Seq<(Seq<char>, ValueView)>, Option<Seq<char>>) {
    match yaml_text_of(s) {
        None => (seq![], None),
        Some(y) => if trim(y).len() == 0 {
            (seq![], None)
        } else {
            properties_spec(yaml_document(y))
        },
    }
}

/// Parse a note's frontmatter into properties and, separately, any parse
/// error: a malformed block is reported and the note is still indexed for
/// its links, tags and text.
pub fn parse_frontmatter(source: &str) -> (r: (Vec<Property>, Option<String>))
    ensures
        (properties_view(r.0@), opt_view(r.1)) == frontmatter_properties(source@),
{
    let empty: Vec<Property> = Vec::new();
    assert(properties_view(empty@) =~= Seq::<(Seq<char>, ValueView)>::empty());
    match yaml_text(source) {
        None => (empty, None),
        Some(yaml) => {
            let v = to_chars(yaml.as_str());
            let t = trimmed(&v, 0, v.len());
            assert(v@.subrange(0, v@.len() as int) =~= yaml@);
            if to_chars(t.as_str()).len() == 0 {
                (empty, None)
            } else {
                properties_from_yaml(read_yaml(yaml.as_str()))
            }
        },
    }
}

// ---------------------------------------------------------------------------
// Looking properties up.

/// A value as text, for display, the index's text column and equality
/// filters: a list joins its items with `, `; an object and null give
/// nothing.
pub open spec fn text_of_value(v: ValueView) -> Seq<char>
    decreases v, 1nat,
{
    match v {
        ValueView::Text(s) => s,
        ValueView::Number(t) => t,
        ValueView::Checkbox(b) => if b {
            "true"@
        } else {
            "false"@
        },
        ValueView::Date(d) => d,
        ValueView::DateTime(d) => d,
        ValueView::List(items) => joined(texts_of_values(items), ", "@),
        ValueView::Object(_) => Seq::empty(),
        ValueView::Null => Seq::empty(),
    }
}

/// Each value as text, in order.
pub open spec fn texts_of_values(items: Seq<ValueView>) -> Seq<Seq<char>>
    decreases items, 0nat,
{
    if items.len() == 0 {
        seq![]
    } else {
        proof {
            assert(decreases_to!(items => items[items.len() - 1]));
            assert(decreases_to!(items => items.subrange(0, items.len() - 1)));
        }
        texts_of_values(items.subrange(0, items.len() - 1)).push(text_of_value(items[items.len() - 1]))
    }
}

impl PropertyValue {
    /// The value as text.
    pub fn as_text(&self) -> (r: String)
        ensures
            r@ == text_of_value(self@),
        decreases self,
    {
        match self {
            PropertyValue::Text(s) => clone_string(s),
            PropertyValue::Number(t) => clone_string(t),
            PropertyValue::Checkbox(b) => str_to_string(if *b { "true" } else { "false" }),
            PropertyValue::Date(d) => clone_string(d),
            PropertyValue::DateTime(d) => clone_string(d),
            PropertyValue::List(items) => {
                let ghost iv = Seq::new(
                    items@.len(),
                    |i: int| if 0 <= i < items@.len() { items@[i].view_of() } else { ValueView::Null },
                );
                let mut parts: Vec<String> = Vec::new();
                let mut i: usize = 0;
                assert(iv.take(0) =~= Seq::<ValueView>::empty());
                assert(texts_view(parts@) =~= Seq::<Seq<char>>::empty());
                while i < items.len()
                    invariant
                        *self == PropertyValue::List(*items),
                        i <= items@.len(),
                        iv.len() == items@.len(),
                        forall|k: int| 0 <= k < items@.len() ==> #[trigger] iv[k] == items@[k].view_of(),
                        texts_view(parts@) == texts_of_values(iv.take(i as int)),
                    decreases items@.len() - i,
                {
                    proof {
                        assert(*items == self->List_0);
                        assert(decreases_to!(*self => self->List_0));
                        assert(decreases_to!(*items => items@));
                        assert(decreases_to!(items@ => items@[i as int]));
                    }
                    let ghost t1 = iv.take(i + 1);
                    assert(t1.subrange(0, t1.len() - 1) =~= iv.take(i as int));
                    assert(t1[t1.len() - 1] == iv[i as int]);
                    let t = items[i].as_text();
                    let ghost before = parts@;
                    parts.push(t);
                    assert(texts_view(parts@) =~= texts_view(before).push(t@));
                    i = i + 1;
                }
                assert(iv.take(i as int) =~= iv);
                assert(self@ is List);
                assert(forall|k: int| 0 <= k < iv.len() ==> self@->List_0[k] == iv[k]);
                assert(self@->List_0 =~= iv);
                join_strings(&parts, ", ")
            },
            PropertyValue::Object(_) => String::new(),
            PropertyValue::Null => String::new(),
        }
    }
}

/// Where the first property named `key` stands, without regard to ASCII
/// case, looking from `i` on.
pub open spec fn key_index_from(ps: Seq<(Seq<char>, ValueView)>, key: Seq<char>, i: int) -> Option<int>
    decreases ps.len() - i,
{
    if i < 0 || i >= ps.len() {
        None
    } else if eq_ic(ps[i].0, key) {
        Some(i)
    } else {
        key_index_from(ps, key, i + 1)
    }
}

pub open spec fn key_index(ps: Seq<(Seq<char>, ValueView)>, key: Seq<char>) -> Option<int> {
    key_index_from(ps, key, 0)
}

/// Where the first property named `key` stands, without regard to ASCII
/// case.
pub fn property_position(properties: &Vec<Property>, key: &str) -> (r: Option<usize>)
    ensures
        match r {
            Some(i) => i < properties@.len() && key_index(properties_view(properties@), key@) == Some(i as int),
            None => key_index(properties_view(properties@), key@) is None,
        },
{
    let ghost pv = properties_view(properties@);
    let want = to_chars(key);
    let mut i: usize = properties.len();
    let mut found: Option<usize> = None;
    assert(key_index_from(pv, key@, pv.len() as int) is None);
    while i > 0
        invariant
            i <= properties@.len(),
            pv == properties_view(properties@),
            want@ == key@,
            match found {
                Some(j) => j < properties@.len() && key_index_from(pv, key@, i as int) == Some(j as int),
                None => key_index_from(pv, key@, i as int) is None,
            },
        decreases i,
    {
        i = i - 1;
        assert(pv[i as int] == (properties@[i as int].key@, properties@[i as int].value@));
        if eq_ignore_ascii_case(&to_chars(properties[i].key.as_str()), &want) {
            found = Some(i);
        }
    }
    found
}

/// Look up one property by key, without regard to ASCII case.
pub fn get<'a>(properties: &'a Vec<Property>, key: &str) -> (r: Option<&'a PropertyValue>)
    ensures
        match key_index(properties_view(properties@), key@) {
            Some(i) => r matches Some(v) && v@ == properties_view(properties@)[i].1,
            None => r is None,
        },
{
    match property_position(properties, key) {
        Some(i) => Some(&properties[i].value),
        None => None,
    }
}

/// The title property as text, when there is one.
pub open spec fn frontmatter_title(ps: Seq<(Seq<char>, ValueView)>) -> Option<Seq<char>> {
    match key_index(ps, "title"@) {
        Some(i) => Some(text_of_value(ps[i].1)),
        None => None,
    }
}

/// The tags a value declares: each item of a list, or each part of a text
/// cut at commas, spaces and semicolons; any other value declares none.
pub open spec fn declared_tags(tags: Seq<Seq<char>>, v: ValueView) -> Seq<Seq<char>> {
    match v {
        ValueView::List(items) => with_tags(tags, texts_of_values(items)),
        ValueView::Text(t) => with_tags(tags, tag_parts(t)),
        _ => tags,
    }
}

pub open spec fn tags_under(tags: Seq<Seq<char>>, ps: Seq<(Seq<char>, ValueView)>, key: Seq<char>) -> Seq<Seq<char>> {
    match key_index(ps, key) {
        Some(i) => declared_tags(tags, ps[i].1),
        None => tags,
    }
}

/// Tags declared in frontmatter under `tags`, then under `tag`, each once,
/// cleaned as `cleaned_tag` cleans them.
pub open spec fn frontmatter_tags(ps: Seq<(Seq<char>, ValueView)>) -> Seq<Seq<char>> {
    tags_under(tags_under(seq![], ps, "tags"@), ps, "tag"@)
}

fn add_declared(out: &mut Vec<String>, value: &PropertyValue)
    ensures
        tag_views(final(out)@) == declared_tags(tag_views(old(out)@), value@),
{
    match value {
        PropertyValue::List(items) => {
            let ghost iv = Seq::new(
                items@.len(),
                |i: int| if 0 <= i < items@.len() { items@[i].view_of() } else { ValueView::Null },
            );
            let ghost parts = texts_of_values(iv);
            let ghost start = tag_views(out@);
            let mut i: usize = 0;
            assert(iv.take(0) =~= Seq::<ValueView>::empty());
            while i < items.len()
                invariant
                    i <= items@.len(),
                    iv.len() == items@.len(),
                    forall|k: int| 0 <= k < items@.len() ==> #[trigger] iv[k] == items@[k].view_of(),
                    tag_views(out@) == with_tags(start, texts_of_values(iv.take(i as int))),
                decreases items@.len() - i,
            {
                let ghost t1 = iv.take(i + 1);
                assert(t1.subrange(0, t1.len() - 1) =~= iv.take(i as int));
                assert(t1[t1.len() - 1] == iv[i as int]);
                let t = items[i].as_text();
                add_tag(out, t.as_str());
                proof {
                    let p = texts_of_values(t1);
                    assert(p == texts_of_values(iv.take(i as int)).push(text_of_value(iv[i as int])));
                    assert(p.drop_last() =~= texts_of_values(iv.take(i as int)));
                    assert(p.last() == t@);
                }
                i = i + 1;
            }
            assert(iv.take(i as int) =~= iv);
            assert(value@ is List);
            assert(forall|k: int| 0 <= k < iv.len() ==> value@->List_0[k] == iv[k]);
            assert(value@->List_0 =~= iv);
        },
        PropertyValue::Text(t) => {
            push_tags_from_text(out, t.as_str());
        },
        _ => {},
    }
}

/// Tags declared in frontmatter under `tags` or `tag`: a list, a single
/// string, or a separated string; a leading `#` is dropped.
pub fn tags(properties: &Vec<Property>) -> (r: Vec<String>)
    ensures
        tag_views(r@) == frontmatter_tags(properties_view(properties@)),
{
    let mut out: Vec<String> = Vec::new();
    assert(tag_views(out@) =~= Seq::<Seq<char>>::empty());
    match get(properties, "tags") {
        Some(v) => add_declared(&mut out, v),
        None => {},
    }
    match get(properties, "tag") {
        Some(v) => add_declared(&mut out, v),
        None => {},
    }
    out
}

// ---------------------------------------------------------------------------
// Writing properties back.

/// The YAML a value is written as: dates as strings, an object as a mapping
/// with string keys.
pub open spec fn yaml_of_value(v: ValueView) -> YamlView
    decreases v, 1nat,
{
    match v {
        ValueView::Text(s) => YamlView::Text(s),
        ValueView::Number(t) => YamlView::Number(t),
        ValueView::Checkbox(b) => YamlView::Bool(b),
        ValueView::Date(d) => YamlView::Text(d),
        ValueView::DateTime(d) => YamlView::Text(d),
        ValueView::List(items) => YamlView::List(yamls_of_values(items)),
        ValueView::Object(es) => YamlView::Mapping(yaml_entries(es)),
        ValueView::Null => YamlView::Null,
    }
}

pub open spec fn yamls_of_values(items: Seq<ValueView>) -> Seq<YamlView>
    decreases items, 0nat,
{
    if items.len() == 0 {
        seq![]
    } else {
        proof {
            assert(decreases_to!(items => items[items.len() - 1]));
            assert(decreases_to!(items => items.subrange(0, items.len() - 1)));
        }
        yamls_of_values(items.subrange(0, items.len() - 1)).push(yaml_of_value(items[items.len() - 1]))
    }
}

/// Entries as YAML mapping entries, each key a string, in order.
pub open spec fn yaml_entries(es: Seq<(Seq<char>, ValueView)>) -> Seq<(YamlView, YamlView)>
    decreases es, 0nat,
{
    if es.len() == 0 {
        seq![]
    } else {
        proof {
            assert(decreases_to!(es => es[es.len() - 1]));
            assert(decreases_to!(es[es.len() - 1] => es[es.len() - 1].1));
            assert(decreases_to!(es => es.subrange(0, es.len() - 1)));
        }
        yaml_entries(es.subrange(0, es.len() - 1)).push(
            (YamlView::Text(es[es.len() - 1].0), yaml_of_value(es[es.len() - 1].1)),
        )
    }
}

/// A frontmatter block holding `ps` in order: the YAML `serde_yaml_ng`
/// writes for their mapping between `---` lines, nothing when there are no
/// properties.
pub open spec fn rendered_block(ps: Seq<(Seq<char>, ValueView)>) -> Seq<char> {
    if ps.len() == 0 {
        Seq::empty()
    } else {
        "---\n"@ + match yaml_written(YamlView::Mapping(yaml_entries(ps))) {
            Some(t) => t,
            None => Seq::empty(),
        } + "---\n"@
    }
}

/// The YAML a value is written as.
#[verifier::spinoff_prover]
pub fn yaml_from_value(v: &PropertyValue) -> (r: YamlNode)
    ensures
        r@ == yaml_of_value(v@),
    decreases v,
{
    match v {
        PropertyValue::Text(s) => YamlNode::Text(clone_string(s)),
        PropertyValue::Number(t) => YamlNode::Number(clone_string(t)),
        PropertyValue::Checkbox(b) => YamlNode::Bool(*b),
        PropertyValue::Date(d) => YamlNode::Text(clone_string(d)),
        PropertyValue::DateTime(d) => YamlNode::Text(clone_string(d)),
        PropertyValue::Null => YamlNode::Null,
        PropertyValue::List(items) => {
            let ghost iv = Seq::new(
                items@.len(),
                |i: int| if 0 <= i < items@.len() { items@[i].view_of() } else { ValueView::Null },
            );
            let mut out: Vec<YamlNode> = Vec::new();
            let mut i: usize = 0;
            assert(iv.take(0) =~= Seq::<ValueView>::empty());
            while i < items.len()
                invariant
                    *v == PropertyValue::List(*items),
                    i <= items@.len(),
                    iv.len() == items@.len(),
                    forall|k: int| 0 <= k < items@.len() ==> #[trigger] iv[k] == items@[k].view_of(),
                    out@.len() == i,
                    forall|k: int| 0 <= k < i ==> (#[trigger] out@[k])@ == yamls_of_values(iv.take(i as int))[k],
                    yamls_of_values(iv.take(i as int)).len() == i,
                decreases items@.len() - i,
            {
                proof {
                    assert(*items == v->List_0);
                    assert(decreases_to!(*v => v->List_0));
                    assert(decreases_to!(*items => items@));
                    assert(decreases_to!(items@ => items@[i as int]));
                }
                let ghost t1 = iv.take(i + 1);
                assert(t1.subrange(0, t1.len() - 1) =~= iv.take(i as int));
                assert(t1[t1.len() - 1] == iv[i as int]);
                let y = yaml_from_value(&items[i]);
                out.push(y);
                i = i + 1;
            }
            assert(iv.take(i as int) =~= iv);
            let r = YamlNode::List(out);
            assert(v@ is List);
            assert(forall|k: int| 0 <= k < iv.len() ==> v@->List_0[k] == iv[k]);
            assert(v@->List_0 =~= iv);
            assert(r@ is List);
            assert(forall|k: int| 0 <= k < out@.len() ==> r@->List_0[k] == out@[k]@);
            assert(r@->List_0 =~= yamls_of_values(iv));
            r
        },
        PropertyValue::Object(entries) => {
            let ghost ev = entries_view(entries@);
            let mut out: Vec<(YamlNode, YamlNode)> = Vec::new();
            let mut i: usize = 0;
            assert(ev.take(0) =~= Seq::<(Seq<char>, ValueView)>::empty());
            while i < entries.len()
                invariant
                    *v == PropertyValue::Object(*entries),
                    i <= entries@.len(),
                    ev == entries_view(entries@),
                    out@.len() == i,
                    yaml_entries(ev.take(i as int)).len() == i,
                    forall|k: int| 0 <= k < i ==> ((#[trigger] out@[k]).0@, out@[k].1@) == yaml_entries(ev.take(i as int))[k],
                decreases entries@.len() - i,
            {
                proof {
                    assert(*entries == v->Object_0);
                    assert(decreases_to!(*v => v->Object_0));
                    assert(decreases_to!(*entries => entries@));
                    assert(decreases_to!(entries@ => entries@[i as int]));
                    assert(decreases_to!(entries@[i as int] => entries@[i as int].1));
                }
                let ghost t1 = ev.take(i + 1);
                assert(t1.subrange(0, t1.len() - 1) =~= ev.take(i as int));
                assert(t1[t1.len() - 1] == ev[i as int]);
                let key = YamlNode::Text(clone_string(&entries[i].0));
                let value = yaml_from_value(&entries[i].1);
                out.push((key, value));
                i = i + 1;
            }
            assert(ev.take(i as int) =~= ev);
            let r = YamlNode::Mapping(out);
            let ghost got = Seq::new(
                out@.len(),
                |i: int|
                    if 0 <= i < out@.len() {
                        (out@[i].0.view_of(), out@[i].1.view_of())
                    } else {
                        (YamlView::Null, YamlView::Null)
                    },
            );
            assert(v@ is Object);
            let ghost vv = Seq::new(
                entries@.len(),
                |i: int|
                    if 0 <= i < entries@.len() {
                        (entries@[i].0@, entries@[i].1.view_of())
                    } else {
                        (Seq::<char>::empty(), ValueView::Null)
                    },
            );
            assert(forall|k: int| 0 <= k < vv.len() ==> v@->Object_0[k] == vv[k]);
            assert(v@->Object_0 =~= vv);
            assert(vv =~= ev);
            assert(r@ is Mapping);
            assert(forall|k: int| 0 <= k < got.len() ==> r@->Mapping_0[k] == got[k]);
            assert(r@->Mapping_0 =~= yaml_entries(ev));
            r
        },
    }
}

/// Serialise properties into a frontmatter block, preserving key order.
pub fn render(properties: &[Property]) -> (r: String)
    ensures
        r@ == rendered_block(properties_view(properties@)),
{
    let ghost pv = properties_view(properties@);
    if properties.len() == 0 {
        return String::new();
    }
    let mut out: Vec<(YamlNode, YamlNode)> = Vec::new();
    let mut i: usize = 0;
    assert(pv.take(0) =~= Seq::<(Seq<char>, ValueView)>::empty());
    while i < properties.len()
        invariant
            i <= properties@.len(),
            pv == properties_view(properties@),
            out@.len() == i,
            yaml_entries(pv.take(i as int)).len() == i,
            forall|k: int| 0 <= k < i ==> ((#[trigger] out@[k]).0@, out@[k].1@) == yaml_entries(pv.take(i as int))[k],
        decreases properties@.len() - i,
    {
        let ghost t1 = pv.take(i + 1);
        assert(t1.subrange(0, t1.len() - 1) =~= pv.take(i as int));
        assert(t1[t1.len() - 1] == pv[i as int]);
        let key = YamlNode::Text(clone_string(&properties[i].key));
        let value = yaml_from_value(&properties[i].value);
        out.push((key, value));
        i = i + 1;
    }
    assert(pv.take(i as int) =~= pv);
    let node = YamlNode::Mapping(out);
    let ghost got = Seq::new(
        out@.len(),
        |i: int|
            if 0 <= i < out@.len() {
                (out@[i].0.view_of(), out@[i].1.view_of())
            } else {
                (YamlView::Null, YamlView::Null)
            },
    );
    assert(node@ is Mapping);
    assert(forall|k: int| 0 <= k < got.len() ==> node@->Mapping_0[k] == got[k]);
    assert(node@->Mapping_0 =~= yaml_entries(pv));
    assert(node@ == YamlView::Mapping(yaml_entries(pv)));
    let written = write_yaml(&node);
    let mut block = str_to_string("---\n");
    match written {
        Some(t) => block.append(t.as_str()),
        None => {},
    }
    block.append("---\n");
    block
}

/// Replace a note's frontmatter with `properties`, leaving every byte of the
/// body untouched; no properties removes the block.
pub fn replace(source: &str, properties: &[Property]) -> (r: String)
    ensures
        r@ == rendered_block(properties_view(properties@)) + source@.skip(body_start_of(source@)),
{
    let block = render(properties);
    with_frontmatter(source, block.as_str())
}

/// The properties after setting `key` to `value`: the first property of
/// that name (ASCII case aside) takes the value, or the property is added
/// at the end.
pub open spec fn with_property(ps: Seq<(Seq<char>, ValueView)>, key: Seq<char>, value: ValueView) -> Seq<(Seq<char>, ValueView)> {
    match key_index(ps, key) {
        Some(i) => ps.update(i, (ps[i].0, value)),
        None => ps.push((key, value)),
    }
}

/// The properties without any named `key` (ASCII case aside).
pub open spec fn without_property(ps: Seq<(Seq<char>, ValueView)>, key: Seq<char>) -> Seq<(Seq<char>, ValueView)>
    decreases ps.len(),
{
    if ps.len() == 0 {
        seq![]
    } else {
        let rest = without_property(ps.drop_last(), key);
        if eq_ic(ps.last().0, key) {
            rest
        } else {
            rest.push(ps.last())
        }
    }
}

proof fn lemma_key_index_in_range(ps: Seq<(Seq<char>, ValueView)>, key: Seq<char>, i: int)
    requires
        0 <= i,
    ensures
        key_index_from(ps, key, i) matches Some(j) ==> i <= j < ps.len() && eq_ic(ps[j].0, key),
    decreases ps.len() - i,
{
    if i < ps.len() && !eq_ic(ps[i].0, key) {
        lemma_key_index_in_range(ps, key, i + 1);
    }
}

impl MarkdownTransformer {
    /// Replace the frontmatter block with `properties`, leaving the body
    /// untouched.
    pub fn set_properties(&self, source: &str, properties: &[Property]) -> (r: String)
        ensures
            r@ == rendered_block(properties_view(properties@)) + source@.skip(body_start_of(source@)),
    {
        replace(source, properties)
    }

    /// Set a single property, adding it if absent and keeping the others'
    /// order; the body is kept byte for byte.
    pub fn set_property(&self, source: &str, key: &str, value: PropertyValue) -> (r: String)
        ensures
            r@ == rendered_block(with_property(frontmatter_properties(source@).0, key@, value@)) + source@.skip(
                body_start_of(source@),
            ),
    {
        let (mut properties, _) = parse_frontmatter(source);
        let ghost pv = properties_view(properties@);
        let ghost vv = value@;
        match property_position(&properties, key) {
            Some(i) => {
                let old_key = clone_string(&properties[i].key);
                let ghost before = properties@;
                properties.set(i, Property { key: old_key, value });
                assert(properties_view(properties@) =~= pv.update(i as int, (pv[i as int].0, vv)));
            },
            None => {
                let ghost before = properties@;
                properties.push(Property { key: str_to_string(key), value });
                assert(properties_view(properties@) =~= pv.push((key@, vv)));
            },
        }
        replace(source, properties.as_slice())
    }

    /// Remove a property. Removing the last one removes the block.
    pub fn remove_property(&self, source: &str, key: &str) -> (r: String)
        ensures
            r@ == rendered_block(without_property(frontmatter_properties(source@).0, key@)) + source@.skip(
                body_start_of(source@),
            ),
    {
        let (properties, _) = parse_frontmatter(source);
        let ghost pv = properties_view(properties@);
        let want = to_chars(key);
        let mut kept: Vec<Property> = Vec::new();
        let mut rest = properties;
        let ghost mut done: int = 0;
        assert(pv.take(0) =~= Seq::<(Seq<char>, ValueView)>::empty());
        assert(properties_view(kept@) =~= Seq::<(Seq<char>, ValueView)>::empty());
        while rest.len() > 0
            invariant
                0 <= done <= pv.len(),
                want@ == key@,
                properties_view(rest@) == pv.skip(done),
                properties_view(kept@) == without_property(pv.take(done), key@),
            decreases rest@.len(),
        {
            let ghost before_rest = rest@;
            let p = rest.remove(0);
            assert(properties_view(before_rest)[0] == p@);
            assert(pv.skip(done).len() == before_rest.len());
            assert(pv.skip(done)[0] == pv[done]);
            assert(properties_view(rest@) =~= pv.skip(done + 1)) by {
                assert(properties_view(rest@) =~= properties_view(before_rest).drop_first());
            }
            assert(pv.take(done + 1).drop_last() =~= pv.take(done));
            assert(pv.take(done + 1).last() == pv[done]);
            let ghost kept_before = kept@;
            if !eq_ignore_ascii_case(&to_chars(p.key.as_str()), &want) {
                let ghost pvw = p@;
                kept.push(p);
                assert(properties_view(kept@) =~= properties_view(kept_before).push(pvw));
            }
            proof {
                done = done + 1;
            }
        }
        assert(pv.take(done) =~= pv);
        replace(source, kept.as_slice())
    }
}

/// The properties as the renderer shows them: each key with its value as
/// text, in order.
pub fn property_rows(properties: &Vec<Property>) -> (r: Vec<(String, String)>)
    ensures
        r@.len() == properties@.len(),
        forall|k: int|
            0 <= k < properties@.len() ==> (#[trigger] r@[k]).0@ == properties@[k].key@ && r@[k].1@
                == text_of_value(properties@[k].value@),
{
    let mut out: Vec<(String, String)> = Vec::new();
    let mut i: usize = 0;
    while i < properties.len()
        invariant
            i <= properties@.len(),
            out@.len() == i,
            forall|k: int|
                0 <= k < i ==> (#[trigger] out@[k]).0@ == properties@[k].key@ && out@[k].1@ == text_of_value(
                    properties@[k].value@,
                ),
        decreases properties@.len() - i,
    {
        out.push((clone_string(&properties[i].key), properties[i].value.as_text()));
        i = i + 1;
    }
    out
}

// ---------------------------------------------------------------------------
// Scalars typed by their shape, and the rows the index stores.

/// How a scalar typed in the properties editor is read: trimmed; blank,
/// `null` and `~` are null; the usual spellings of true and false are a
/// checkbox; then a date, an instant, a plain decimal number, or text.
pub open spec fn inferred_value(raw: Seq<char>) -> ValueView {
    let t = trim(raw);
    if t.len() == 0 {
        ValueView::Null
    } else if t == "true"@ || t == "True"@ || t == "TRUE"@ || t == "yes"@ {
        ValueView::Checkbox(true)
    } else if t == "false"@ || t == "False"@ || t == "FALSE"@ || t == "no"@ {
        ValueView::Checkbox(false)
    } else if t == "null"@ || t == "~"@ {
        ValueView::Null
    } else if is_calendar_date(t) {
        ValueView::Date(t)
    } else if is_rfc3339(t) {
        ValueView::DateTime(t)
    } else if plain_number(t) {
        ValueView::Number(t)
    } else {
        ValueView::Text(t)
    }
}

fn spelled(v: &Vec<char>, lit: &str) -> (r: bool)
    ensures
        r == (v@ == lit@),
{
    chars_eq(v, &to_chars(lit))
}

impl PropertyValue {
    /// Classify a scalar string the way the app's frontmatter rules do.
    pub fn infer_from_scalar(raw: &str) -> (r: PropertyValue)
        ensures
            r@ == inferred_value(raw@),
    {
        let v = to_chars(raw);
        let t = trimmed(&v, 0, v.len());
        assert(v@.subrange(0, v@.len() as int) =~= raw@);
        let tc = to_chars(t.as_str());
        if tc.len() == 0 {
            PropertyValue::Null
        } else if spelled(&tc, "true") || spelled(&tc, "True") || spelled(&tc, "TRUE") || spelled(&tc, "yes") {
            PropertyValue::Checkbox(true)
        } else if spelled(&tc, "false") || spelled(&tc, "False") || spelled(&tc, "FALSE") || spelled(&tc, "no") {
            PropertyValue::Checkbox(false)
        } else if spelled(&tc, "null") || spelled(&tc, "~") {
            PropertyValue::Null
        } else if calendar_date(t.as_str()) {
            PropertyValue::Date(t)
        } else if rfc3339_instant(t.as_str()) {
            PropertyValue::DateTime(t)
        } else if looks_like_plain_number(t.as_str()) {
            PropertyValue::Number(t)
        } else {
            PropertyValue::Text(t)
        }
    }
}

/// The spellings of true a properties editor reads as a ticked checkbox.
pub open spec fn spells_true(t: Seq<char>) -> bool {
    t == "true"@ || t == "True"@ || t == "TRUE"@ || t == "yes"@
}

/// The spellings of false it reads as an unticked one.
pub open spec fn spells_false(t: Seq<char>) -> bool {
    t == "false"@ || t == "False"@ || t == "FALSE"@ || t == "no"@
}

/// A typed scalar becomes a checkbox exactly when, trimmed, it is one of
/// the usual spellings of true (`true`, `True`, `TRUE`, `yes`) or of false
/// (`false`, `False`, `FALSE`, `no`), and the box is ticked exactly for a
/// spelling of true.
pub proof fn law_checkbox_spellings(raw: Seq<char>)
    ensures
        (inferred_value(raw) == ValueView::Checkbox(true)) <==> spells_true(trim(raw)),
        (inferred_value(raw) == ValueView::Checkbox(false)) <==> spells_false(trim(raw)),
        (inferred_value(raw) is Checkbox) <==> (spells_true(trim(raw)) || spells_false(trim(raw))),
{
    reveal_strlit("true");
    reveal_strlit("True");
    reveal_strlit("TRUE");
    reveal_strlit("yes");
    reveal_strlit("false");
    reveal_strlit("False");
    reveal_strlit("FALSE");
    reveal_strlit("no");
    let t = trim(raw);
    if spells_false(t) {
        assert(t.len() > 0);
        assert(!spells_true(t)) by {
            if t == "true"@ || t == "True"@ || t == "TRUE"@ || t == "yes"@ {
                assert(t[0] == "true"@[0] || t[0] == "True"@[0] || t[0] == "TRUE"@[0] || t[0] == "yes"@[0]);
                assert(t[0] == "false"@[0] || t[0] == "False"@[0] || t[0] == "FALSE"@[0] || t[0] == "no"@[0]);
            }
        }
    }
    if spells_true(t) {
        assert(t.len() > 0);
    }
}

/// The rows a value is stored as: a list gives one row per scalar item with
/// its index, an object none, a scalar one row without an index.
pub open spec fn flattened(v: ValueView) -> Seq<(Option<int>, ValueView)> {
    match v {
        ValueView::List(items) => item_rows(items, items.len() as int),
        ValueView::Object(_) => seq![],
        _ => seq![(None, v)],
    }
}

/// The rows of the first `n` items of a list.
pub open spec fn item_rows(items: Seq<ValueView>, n: int) -> Seq<(Option<int>, ValueView)>
    decreases n,
{
    if n <= 0 {
        seq![]
    } else {
        let rest = item_rows(items, n - 1);
        let item = items[n - 1];
        if item is List || item is Object {
            rest
        } else {
            rest.push((Some(n - 1), item))
        }
    }
}

pub open spec fn rows_view(rows: Seq<(Option<usize>, PropertyValue)>) -> Seq<(Option<int>, ValueView)> {
    rows.map_values(
        |r: (Option<usize>, PropertyValue)|
            (
                match r.0 {
                    Some(i) => Some(i as int),
                    None => None,
                },
                r.1@,
            ),
    )
}

fn clone_scalar(v: &PropertyValue) -> (r: PropertyValue)
    requires
        !(v is List),
        !(v is Object),
    ensures
        r@ == v@,
{
    match v {
        PropertyValue::Text(s) => PropertyValue::Text(clone_string(s)),
        PropertyValue::Number(t) => PropertyValue::Number(clone_string(t)),
        PropertyValue::Checkbox(b) => PropertyValue::Checkbox(*b),
        PropertyValue::Date(d) => PropertyValue::Date(clone_string(d)),
        PropertyValue::DateTime(d) => PropertyValue::DateTime(clone_string(d)),
        _ => PropertyValue::Null,
    }
}

impl PropertyValue {
    /// Flatten to the scalar rows the index stores, so that a multi-valued
    /// property is searchable with a plain equality filter.
    pub fn flatten_scalars(&self) -> (r: Vec<(Option<usize>, PropertyValue)>)
        ensures
            rows_view(r@) == flattened(self@),
    {
        match self {
            PropertyValue::List(items) => {
                let ghost iv = Seq::new(
                    items@.len(),
                    |i: int| if 0 <= i < items@.len() { items@[i].view_of() } else { ValueView::Null },
                );
                let mut out: Vec<(Option<usize>, PropertyValue)> = Vec::new();
                let mut i: usize = 0;
                assert(rows_view(out@) =~= Seq::<(Option<int>, ValueView)>::empty());
                while i < items.len()
                    invariant
                        i <= items@.len(),
                        iv.len() == items@.len(),
                        forall|k: int| 0 <= k < items@.len() ==> #[trigger] iv[k] == items@[k].view_of(),
                        rows_view(out@) == item_rows(iv, i as int),
                    decreases items@.len() - i,
                {
                    let item = &items[i];
                    assert(iv[i as int] == item@);
                    match item {
                        PropertyValue::List(_) => {},
                        PropertyValue::Object(_) => {},
                        _ => {
                            let ghost before = out@;
                            let c = clone_scalar(item);
                            out.push((Some(i), c));
                            assert(rows_view(out@) =~= rows_view(before).push((Some(i as int), iv[i as int])));
                        },
                    }
                    i = i + 1;
                }
                assert(self@ is List);
                assert(forall|k: int| 0 <= k < iv.len() ==> self@->List_0[k] == iv[k]);
                assert(self@->List_0 =~= iv);
                out
            },
            PropertyValue::Object(_) => {
                let out: Vec<(Option<usize>, PropertyValue)> = Vec::new();
                assert(rows_view(out@) =~= Seq::<(Option<int>, ValueView)>::empty());
                out
            },
            _ => {
                let out = vec![(None, clone_scalar(self))];
                assert(rows_view(out@) =~= seq![(None::<int>, self@)]);
                out
            },
        }
    }
}

} // verus!
