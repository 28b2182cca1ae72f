//! The tree of a parsed YAML document.

use vstd::prelude::*;

verus! {

/// A node of a parsed YAML document.
///
/// A float carries its bit pattern (IEEE 754 binary64) together with its
/// text, the decimal form in which the float is written out. A mapping is
/// the sequence of its entries in document order.
#[derive(Debug, PartialEq, Eq)]
pub enum YamlNode {
    Null,
    Boolean(bool),
    Integer(i64),
    Float { bits: u64, text: String },
    String(String),
    Sequence(Vec<YamlNode>),
    Mapping(Vec<YamlEntry>),
    /// A node under a tag that is not of the core schema.
    Tagged { handle: String, suffix: String, node: Box<YamlNode> },
    /// A reference to an anchor, by the anchor's number.
    Alias(usize),
    /// A node that stands for content the parser could not make sense of.
    BadValue,
    /// A scalar left as the text it had in the document.
    Representation(String),
}

/// One entry of a YAML mapping.
#[derive(Debug, PartialEq, Eq)]
pub struct YamlEntry {
    pub key: YamlNode,
    pub value: YamlNode,
}

/// The mathematical model of a [`YamlNode`].
pub enum YamlModel {
    Null,
    Boolean(bool),
    Integer(i64),
    Float { bits: u64, text: Seq<char> },
    String(Seq<char>),
    Sequence(Seq<YamlModel>),
    Mapping(Seq<(YamlModel, YamlModel)>),
    Tagged { handle: Seq<char>, suffix: Seq<char>, node: Box<YamlModel> },
    Alias(usize),
    BadValue,
    Representation(Seq<char>),
}

/// The model of a node.
pub open spec fn node_model(node: YamlNode) -> YamlModel
    decreases node,
{
    match node {
        YamlNode::Null => YamlModel::Null,
        YamlNode::Boolean(b) => YamlModel::Boolean(b),
        YamlNode::Integer(i) => YamlModel::Integer(i),
        YamlNode::Float { bits, text } => YamlModel::Float { bits, text: text@ },
        YamlNode::String(s) => YamlModel::String(s@),
        YamlNode::Sequence(items) => YamlModel::Sequence(
            Seq::new(
                items@.len(),
                |i: int|
                    if 0 <= i < items@.len() {
                        node_model(items@[i])
                    } else {
                        YamlModel::Null
                    },
            ),
        ),
        YamlNode::Mapping(entries) => YamlModel::Mapping(
            Seq::new(
                entries@.len(),
                |i: int|
                    if 0 <= i < entries@.len() {
                        (node_model(entries@[i].key), node_model(entries@[i].value))
                    } else {
                        (YamlModel::Null, YamlModel::Null)
                    },
            ),
        ),
        YamlNode::Tagged { handle, suffix, node } => YamlModel::Tagged {
            handle: handle@,
            suffix: suffix@,
            node: Box::new(node_model(*node)),
        },
        YamlNode::Alias(id) => YamlModel::Alias(id),
        YamlNode::BadValue => YamlModel::BadValue,
        YamlNode::Representation(text) => YamlModel::Representation(text@),
    }
}

impl View for YamlNode {
    type V = YamlModel;

    open spec fn view(&self) -> YamlModel {
        node_model(*self)
    }
}

/// The models of a sequence of nodes.
pub open spec fn nodes_model(nodes: Seq<YamlNode>) -> Seq<YamlModel> {
    Seq::new(nodes.len(), |i: int| nodes[i]@)
}

/// The models of the entries of a mapping.
pub open spec fn pairs_model(entries: Seq<YamlEntry>) -> Seq<(YamlModel, YamlModel)> {
    Seq::new(entries.len(), |i: int| (entries[i].key@, entries[i].value@))
}

/// The view of a sequence and of a mapping in terms of [`nodes_model`] and
/// [`pairs_model`].
pub proof fn lemma_view_of_collection(node: YamlNode)
    ensures
        node matches YamlNode::Sequence(items) ==> node@ == YamlModel::Sequence(
            nodes_model(items@),
        ),
        node matches YamlNode::Mapping(entries) ==> node@ == YamlModel::Mapping(
            pairs_model(entries@),
        ),
{
    match node {
        YamlNode::Sequence(items) => {
            assert(node@->Sequence_0 =~= nodes_model(items@));
        },
        YamlNode::Mapping(entries) => {
            assert(node@->Mapping_0 =~= pairs_model(entries@));
        },
        _ => {},
    }
}

/// A copy of the node.
pub fn duplicate(node: &YamlNode) -> (r: YamlNode)
    ensures
        r@ == node@,
    decreases node,
{
    {
        match node {
            YamlNode::Null => YamlNode::Null,
            YamlNode::Boolean(b) => YamlNode::Boolean(*b),
            YamlNode::Integer(i) => YamlNode::Integer(*i),
            YamlNode::Float { bits, text } => YamlNode::Float { bits: *bits, text: text.clone() },
            YamlNode::String(text) => YamlNode::String(text.clone()),
            YamlNode::Sequence(items) => {
                let mut copies: Vec<YamlNode> = Vec::new();
                let mut i: usize = 0;
                while i < items.len()
                    invariant
                        node is Sequence && node->Sequence_0 == *items,
                        i <= items.len(),
                        copies.len() == i,
                        forall|j: int| 0 <= j < i ==> copies[j]@ == items[j]@,
                    decreases items.len() - i,
                {
                    copies.push(duplicate(&items[i]));
                    i += 1;
                }
                let r = YamlNode::Sequence(copies);
                proof {
                    lemma_view_of_collection(r);
                    lemma_view_of_collection(*node);
                    assert(nodes_model(copies@) =~= nodes_model(items@));
                }
                r
            },
            YamlNode::Mapping(entries) => {
                let mut copies: Vec<YamlEntry> = Vec::new();
                let mut i: usize = 0;
                while i < entries.len()
                    invariant
                        node is Mapping && node->Mapping_0 == *entries,
                        i <= entries.len(),
                        copies.len() == i,
                        forall|j: int|
                            0 <= j < i ==> copies[j].key@ == entries[j].key@ && copies[j].value@
                                == entries[j].value@,
                    decreases entries.len() - i,
                {
                    let key = duplicate(&entries[i].key);
                    let value = duplicate(&entries[i].value);
                    copies.push(YamlEntry { key, value });
                    i += 1;
                }
                let r = YamlNode::Mapping(copies);
                proof {
                    lemma_view_of_collection(r);
                    lemma_view_of_collection(*node);
                    assert(pairs_model(copies@) =~= pairs_model(entries@));
                }
                r
            },
            YamlNode::Tagged { handle, suffix, node } => YamlNode::Tagged {
                handle: handle.clone(),
                suffix: suffix.clone(),
                node: Box::new(duplicate(&**node)),
            },
            YamlNode::Alias(id) => YamlNode::Alias(*id),
            YamlNode::BadValue => YamlNode::BadValue,
            YamlNode::Representation(text) => YamlNode::Representation(text.clone()),
        }
    }
}

impl Clone for YamlNode {
    fn clone(&self) -> (r: Self)
        ensures
            r@ == self@,
    {
        duplicate(self)
    }
}

} // verus!
