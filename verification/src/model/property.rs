//! Frontmatter properties: their typed values and the types the properties
//! editor names. A number is kept as the text YAML gives for it; reading
//! it as a floating-point value is the host's part.
use vstd::prelude::*;
use crate::strings::{chars_eq, to_chars};

verus! {

#[derive(Debug, Clone, Copy, PartialEq, Eq, Hash, Structural)]
pub enum PropertyKind {
    Text,
    Number,
    Checkbox,
    Date,
    DateTime,
    List,
    Object,
    Null,
}

pub open spec fn property_kind_name(k: PropertyKind) -> Seq<char> {
    match k {
        PropertyKind::Text => "text"@,
        PropertyKind::Number => "number"@,
        PropertyKind::Checkbox => "checkbox"@,
        PropertyKind::Date => "date"@,
        PropertyKind::DateTime => "datetime"@,
        PropertyKind::List => "list"@,
        PropertyKind::Object => "object"@,
        PropertyKind::Null => "null"@,
    }
}

pub open spec fn property_kind_from(s: Seq<char>) -> Option<PropertyKind> {
    if s == "text"@ {
        Some(PropertyKind::Text)
    } else if s == "number"@ {
        Some(PropertyKind::Number)
    } else if s == "checkbox"@ {
        Some(PropertyKind::Checkbox)
    } else if s == "date"@ {
        Some(PropertyKind::Date)
    } else if s == "datetime"@ {
        Some(PropertyKind::DateTime)
    } else if s == "list"@ {
        Some(PropertyKind::List)
    } else if s == "object"@ {
        Some(PropertyKind::Object)
    } else if s == "null"@ {
        Some(PropertyKind::Null)
    } else {
        None
    }
}

impl PropertyKind {
    pub fn as_str(self) -> (r: &'static str)
        ensures
            r@ == property_kind_name(self),
    {
        match self {
            PropertyKind::Text => "text",
            PropertyKind::Number => "number",
            PropertyKind::Checkbox => "checkbox",
            PropertyKind::Date => "date",
            PropertyKind::DateTime => "datetime",
            PropertyKind::List => "list",
            PropertyKind::Object => "object",
            PropertyKind::Null => "null",
        }
    }

    pub fn from_str(value: &str) -> (r: Option<PropertyKind>)
        ensures
            r == property_kind_from(value@),
    {
        let v = to_chars(value);
        if chars_eq(&v, &to_chars("text")) {
            Some(PropertyKind::Text)
        } else if chars_eq(&v, &to_chars("number")) {
            Some(PropertyKind::Number)
        } else if chars_eq(&v, &to_chars("checkbox")) {
            Some(PropertyKind::Checkbox)
        } else if chars_eq(&v, &to_chars("date")) {
            Some(PropertyKind::Date)
        } else if chars_eq(&v, &to_chars("datetime")) {
            Some(PropertyKind::DateTime)
        } else if chars_eq(&v, &to_chars("list")) {
            Some(PropertyKind::List)
        } else if chars_eq(&v, &to_chars("object")) {
            Some(PropertyKind::Object)
        } else if chars_eq(&v, &to_chars("null")) {
            Some(PropertyKind::Null)
        } else {
            None
        }
    }
}

/// Reading back the name of a kind gives the kind.
pub proof fn law_property_kind_round_trip(k: PropertyKind)
    ensures
        property_kind_from(property_kind_name(k)) == Some(k),
{
    reveal_strlit("text");
    assert("text"@.len() == 4 && "text"@[0] == 't');
    reveal_strlit("number");
    assert("number"@.len() == 6 && "number"@[0] == 'n');
    reveal_strlit("checkbox");
    assert("checkbox"@.len() == 8 && "checkbox"@[0] == 'c');
    reveal_strlit("date");
    assert("date"@.len() == 4 && "date"@[0] == 'd');
    reveal_strlit("datetime");
    assert("datetime"@.len() == 8 && "datetime"@[0] == 'd');
    reveal_strlit("list");
    assert("list"@.len() == 4 && "list"@[0] == 'l');
    reveal_strlit("object");
    assert("object"@.len() == 6 && "object"@[0] == 'o');
    reveal_strlit("null");
    assert("null"@.len() == 4 && "null"@[0] == 'n');
}

/// Whether `text` is an optional minus sign followed by digits with at most
/// one decimal point, starting with a digit.
pub open spec fn number_body(text: Seq<char>) -> Seq<char> {
    if text.len() > 0 && text[0] == '-' {
        text.skip(1)
    } else {
        text
    }
}

pub open spec fn plain_number(text: Seq<char>) -> bool {
    let body = number_body(text);
    &&& body.len() > 0
    &&& forall|i: int| 0 <= i < body.len() ==> ('0' <= #[trigger] body[i] <= '9' || body[i] == '.')
    &&& dots(body) <= 1
    &&& '0' <= body[0] <= '9'
}

pub open spec fn dots(s: Seq<char>) -> nat
    decreases s.len(),
{
    if s.len() == 0 {
        0
    } else {
        dots(s.drop_last()) + if s.last() == '.' {
            1nat
        } else {
            0nat
        }
    }
}

/// Guard used before reading a scalar as a number: rejects `1_000`, `v2`
/// and `1.2.3`.
pub fn looks_like_plain_number(text: &str) -> (r: bool)
    ensures
        r == plain_number(text@),
{
    let v = to_chars(text);
    let start: usize = if v.len() > 0 && v[0] == '-' { 1 } else { 0 };
    let ghost body = if v@.len() > 0 && v@[0] == '-' { v@.skip(1) } else { v@ };
    assert(v@.skip(0) =~= v@);
    assert(v@.skip(start as int) == body);
    if start >= v.len() {
        return false;
    }
    let mut count: usize = 0;
    let mut i: usize = start;
    while i < v.len()
        invariant
            start <= i <= v@.len(),
            v@ == text@,
            start == (if v@.len() > 0 && v@[0] == '-' { 1int } else { 0int }),
            body == (if v@.len() > 0 && v@[0] == '-' { v@.skip(1) } else { v@ }),
            body == v@.skip(start as int),
            count == dots(body.take(i - start)),
            count <= i - start,
            forall|k: int| 0 <= k < i - start ==> ('0' <= #[trigger] body[k] <= '9' || body[k] == '.'),
        decreases v@.len() - i,
    {
        let c = v[i];
        assert(body.take(i - start + 1).drop_last() =~= body.take(i - start));
        if !(('0' <= c && c <= '9') || c == '.') {
            assert(number_body(text@)[i - start] == c);
            assert(!plain_number(text@));
            return false;
        }
        if c == '.' {
            count = count + 1;
        }
        i = i + 1;
    }
    assert(body.take(body.len() as int) =~= body);
    count <= 1 && '0' <= v[start] && v[start] <= '9'
}

/// A frontmatter value, preserving the distinction YAML makes.
#[derive(Debug)]
pub enum PropertyValue {
    Text(String),
    /// A YAML number, as `serde_yaml_ng` prints it.
    Number(String),
    Checkbox(bool),
    /// Calendar date with no time component, e.g. `2026-09-17`.
    Date(String),
    /// An instant, RFC 3339.
    DateTime(String),
    List(Vec<PropertyValue>),
    /// Entries ordered by key, each key once.
    Object(Vec<(String, PropertyValue)>),
    Null,
}

/// A property value as the contracts see it.
pub enum ValueView {
    Text(Seq<char>),
    Number(Seq<char>),
    Checkbox(bool),
    Date(Seq<char>),
    DateTime(Seq<char>),
    List(Seq<ValueView>),
    Object(Seq<(Seq<char>, ValueView)>),
    Null,
}

impl PropertyValue {
    pub open spec fn view_of(self) -> ValueView
        decreases self,
    {
        match self {
            PropertyValue::Text(t) => ValueView::Text(t@),
            PropertyValue::Number(t) => ValueView::Number(t@),
            PropertyValue::Checkbox(b) => ValueView::Checkbox(b),
            PropertyValue::Date(t) => ValueView::Date(t@),
            PropertyValue::DateTime(t) => ValueView::DateTime(t@),
            PropertyValue::List(items) => ValueView::List(
                Seq::new(items@.len(), |i: int| if 0 <= i < items@.len() { items@[i].view_of() } else { ValueView::Null }),
            ),
            PropertyValue::Object(entries) => ValueView::Object(
                Seq::new(
                    entries@.len(),
                    |i: int|
                        if 0 <= i < entries@.len() {
                            (entries@[i].0@, entries@[i].1.view_of())
                        } else {
                            (Seq::<char>::empty(), ValueView::Null)
                        },
                ),
            ),
            PropertyValue::Null => ValueView::Null,
        }
    }

    /// The value's type, as the properties editor names it.
    pub fn kind(&self) -> (k: PropertyKind)
        ensures
            k == kind_of_view(self.view_of()),
    {
        match self {
            PropertyValue::Text(_) => PropertyKind::Text,
            PropertyValue::Number(_) => PropertyKind::Number,
            PropertyValue::Checkbox(_) => PropertyKind::Checkbox,
            PropertyValue::Date(_) => PropertyKind::Date,
            PropertyValue::DateTime(_) => PropertyKind::DateTime,
            PropertyValue::List(_) => PropertyKind::List,
            PropertyValue::Object(_) => PropertyKind::Object,
            PropertyValue::Null => PropertyKind::Null,
        }
    }
}

impl View for PropertyValue {
    type V = ValueView;

    open spec fn view(&self) -> ValueView {
        self.view_of()
    }
}

pub open spec fn kind_of_view(v: ValueView) -> PropertyKind {
    match v {
        ValueView::Text(_) => PropertyKind::Text,
        ValueView::Number(_) => PropertyKind::Number,
        ValueView::Checkbox(_) => PropertyKind::Checkbox,
        ValueView::Date(_) => PropertyKind::Date,
        ValueView::DateTime(_) => PropertyKind::DateTime,
        ValueView::List(_) => PropertyKind::List,
        ValueView::Object(_) => PropertyKind::Object,
        ValueView::Null => PropertyKind::Null,
    }
}

/// One frontmatter entry, in the order it appeared in the file.
#[derive(Debug)]
pub struct Property {
    pub key: String,
    pub value: PropertyValue,
}

impl View for Property {
    type V = (Seq<char>, ValueView);

    open spec fn view(&self) -> (Seq<char>, ValueView) {
        (self.key@, self.value@)
    }
}

pub open spec fn properties_view(ps: Seq<Property>) -> Seq<(Seq<char>, ValueView)> {
    ps.map_values(|p: Property| p@)
}

} // verus!
