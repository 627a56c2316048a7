//! YAML documents as plain values: what `serde_yaml_ng` reads from a
//! frontmatter block, and what it writes back.
use vstd::prelude::*;
use crate::links::reference::opt_view;

verus! {

#[verifier::external_type_specification]
#[verifier::external_body]
pub struct ExYamlValue(serde_yaml_ng::Value);

/// A YAML value. A number keeps the text `serde_yaml_ng` prints for it; a
/// mapping keeps its entries in document order.
#[derive(Debug)]
pub enum YamlNode {
    Null,
    Bool(bool),
    Number(String),
    Text(String),
    List(Vec<YamlNode>),
    Mapping(Vec<(YamlNode, YamlNode)>),
    /// A value carrying an explicit `!tag`; the tag's name is not kept.
    Tagged(Box<YamlNode>),
}

/// A YAML value as the contracts see it.
pub enum YamlView {
    Null,
    Bool(bool),
    Number(Seq<char>),
    Text(Seq<char>),
    List(Seq<YamlView>),
    Mapping(Seq<(YamlView, YamlView)>),
    Tagged(Box<YamlView>),
}

impl YamlNode {
    pub open spec fn view_of(self) -> YamlView
        decreases self,
    {
        match self {
            YamlNode::Null => YamlView::Null,
            YamlNode::Bool(b) => YamlView::Bool(b),
            YamlNode::Number(t) => YamlView::Number(t@),
            YamlNode::Text(t) => YamlView::Text(t@),
            YamlNode::List(items) => YamlView::List(
                Seq::new(items@.len(), |i: int| if 0 <= i < items@.len() { items@[i].view_of() } else { YamlView::Null }),
            ),
            YamlNode::Mapping(pairs) => YamlView::Mapping(
                Seq::new(
                    pairs@.len(),
                    |i: int|
                        if 0 <= i < pairs@.len() {
                            (pairs@[i].0.view_of(), pairs@[i].1.view_of())
                        } else {
                            (YamlView::Null, YamlView::Null)
                        },
                ),
            ),
            YamlNode::Tagged(inner) => YamlView::Tagged(Box::new((*inner).view_of())),
        }
    }
}

impl View for YamlNode {
    type V = YamlView;

    open spec fn view(&self) -> YamlView {
        self.view_of()
    }
}

/// What `serde_yaml_ng::from_str::<serde_yaml_ng::Value>` reads from
/// `text`: the value, or the message of the error it reports.
pub uninterp spec fn yaml_document(text: Seq<char>) -> Result<YamlView, Seq<char>>;

/// What `serde_yaml_ng::to_string` writes for `node`, or `None` where it
/// reports an error.
pub uninterp spec fn yaml_written(node: YamlView) -> Option<Seq<char>>;

pub open spec fn yaml_result_view(r: Result<YamlNode, String>) -> Result<YamlView, Seq<char>> {
    match r {
        Ok(n) => Ok(n@),
        Err(e) => Err(e@),
    }
}

/// Read a YAML document with `serde_yaml_ng::from_str`, the value converted
/// to a `YamlNode`, the error to its message. The contract names the result.
#[verifier::external_body]
pub(crate) fn read_yaml(text: &str) -> (r: Result<YamlNode, String>)
    ensures
        yaml_result_view(r) == yaml_document(text@),
{
    match serde_yaml_ng::from_str::<serde_yaml_ng::Value>(text) {
        Ok(value) => Ok(node_of_value(value)),
        Err(e) => Err(e.to_string()),
    }
}

/// Write a YAML document with `serde_yaml_ng::to_string`, from the value
/// `node` converts to. The contract names the result.
#[verifier::external_body]
pub(crate) fn write_yaml(node: &YamlNode) -> (r: Option<String>)
    ensures
        opt_view(r) == yaml_written(node@),
{
    serde_yaml_ng::to_string(&value_of_node(node)).ok()
}

/// `serde_yaml_ng::Value` as a `YamlNode`, one variant for one: a number by
/// its printed text, a tagged value by its value. Only `read_yaml` calls it.
#[verifier::external_body]
fn node_of_value(value: serde_yaml_ng::Value) -> YamlNode {
    match value {
        serde_yaml_ng::Value::Null => YamlNode::Null,
        serde_yaml_ng::Value::Bool(b) => YamlNode::Bool(b),
        serde_yaml_ng::Value::Number(n) => YamlNode::Number(n.to_string()),
        serde_yaml_ng::Value::String(s) => YamlNode::Text(s),
        serde_yaml_ng::Value::Sequence(items) => YamlNode::List(items.into_iter().map(node_of_value).collect()),
        serde_yaml_ng::Value::Mapping(m) => YamlNode::Mapping(m.into_iter().map(|(k, v)| (node_of_value(k), node_of_value(v))).collect()),
        serde_yaml_ng::Value::Tagged(t) => YamlNode::Tagged(Box::new(node_of_value(t.value))),
    }
}

/// A `YamlNode` as a `serde_yaml_ng::Value`, one variant for one: a number
/// read back from its text by `serde_yaml_ng::Number`'s `FromStr` (kept as
/// a string should that fail), a mapping's entries inserted in order, a
/// tagged value by its value. Only `write_yaml` calls it.
#[verifier::external_body]
fn value_of_node(node: &YamlNode) -> serde_yaml_ng::Value {
    match node {
        YamlNode::Null => serde_yaml_ng::Value::Null,
        YamlNode::Bool(b) => serde_yaml_ng::Value::Bool(*b),
        YamlNode::Number(t) => t.parse().map(serde_yaml_ng::Value::Number).unwrap_or_else(|_| serde_yaml_ng::Value::String(t.clone())),
        YamlNode::Text(t) => serde_yaml_ng::Value::String(t.clone()),
        YamlNode::List(items) => serde_yaml_ng::Value::Sequence(items.iter().map(value_of_node).collect()),
        YamlNode::Mapping(pairs) => serde_yaml_ng::Value::Mapping(pairs.iter().map(|(k, v)| (value_of_node(k), value_of_node(v))).collect()),
        YamlNode::Tagged(inner) => value_of_node(inner),
    }
}

} // verus!
