//! Items of other crates and of the standard library, with the contracts
//! that this library relies on.
//!
//! Nothing in this file is proved. Each contract says of an item what its
//! source or its documentation says; a parser's result, which no few lines
//! can state, has a name.

use saphyr::{Scalar, Yaml};
use vstd::prelude::*;
use crate::value::{CanonicalValue, Number, ValueModel};
use crate::yaml::{YamlModel, YamlNode};

verus! {

/// A node of a YAML document as `saphyr` holds it.
#[verifier::external_type_specification]
#[verifier::external_body]
pub struct ExYaml<'input>(Yaml<'input>);

/// A value as `serde_json` holds it.
#[verifier::external_type_specification]
#[verifier::external_body]
pub struct ExJson(serde_json::Value);

/// Whether a character has the Unicode property `White_Space`.
pub uninterp spec fn is_white_space(c: char) -> bool;

/// `char::is_whitespace` tells whether a character has the Unicode property
/// `White_Space`.
pub assume_specification[ char::is_whitespace ](c: char) -> (r: bool)
    ensures
        r == is_white_space(c),
;

/// The tree that a `saphyr` node holds.
pub uninterp spec fn yaml_model(node: Yaml<'_>) -> YamlModel;

/// What `saphyr` makes of a text: the documents in it, in order, or the
/// message of the error that it reports.
pub uninterp spec fn yaml_loaded(text: Seq<char>) -> Result<Seq<YamlModel>, Seq<char>>;

/// The value that a `serde_json` value holds.
pub uninterp spec fn json_model(value: serde_json::Value) -> ValueModel;

/// What `serde_json` makes of a text: the value it spells, or the message of
/// the error that it reports.
pub uninterp spec fn json_parsed(text: Seq<char>) -> Result<ValueModel, Seq<char>>;

/// What `toml` makes of a text: the table it spells, as a value, or the
/// message of the error that it reports.
pub uninterp spec fn toml_parsed(text: Seq<char>) -> Result<ValueModel, Seq<char>>;

/// The trees held by a sequence of `saphyr` nodes.
pub open spec fn yaml_models(nodes: Seq<Yaml<'_>>) -> Seq<YamlModel> {
    Seq::new(nodes.len(), |i: int| yaml_model(nodes[i]))
}

/// The trees held by the entries of a `saphyr` mapping.
pub open spec fn yaml_pair_models(entries: Seq<(&Yaml<'_>, &Yaml<'_>)>) -> Seq<
    (YamlModel, YamlModel),
> {
    Seq::new(entries.len(), |i: int| (yaml_model(*entries[i].0), yaml_model(*entries[i].1)))
}

/// The values held by a sequence of `serde_json` values.
pub open spec fn json_models(values: Seq<serde_json::Value>) -> Seq<ValueModel> {
    Seq::new(values.len(), |i: int| json_model(values[i]))
}

/// The keys and values held by the entries of a `serde_json` object.
pub open spec fn json_entry_models(entries: Seq<(&String, &serde_json::Value)>) -> Seq<
    (Seq<char>, ValueModel),
> {
    Seq::new(entries.len(), |i: int| (entries[i].0@, json_model(*entries[i].1)))
}

/// Whether a tree is neither a sequence, nor a mapping, nor a tagged node.
pub open spec fn is_yaml_leaf(node: YamlModel) -> bool {
    !(node is Sequence || node is Mapping || node is Tagged)
}

/// Whether a value is neither an array nor an object.
pub open spec fn is_json_leaf(value: ValueModel) -> bool {
    !(value is Array || value is Object)
}

/// What stands under a `saphyr` node that is no leaf.
pub(crate) enum YamlParts<'a, 'input> {
    /// The node is a leaf.
    Leaf,
    /// The items of a sequence.
    Sequence(&'a Vec<Yaml<'input>>),
    /// The entries of a mapping, in the order of the mapping.
    Mapping(Vec<(&'a Yaml<'input>, &'a Yaml<'input>)>),
    /// The handle and the suffix of a tag, and the node under the tag.
    Tagged(String, String, &'a Yaml<'input>),
}

/// What stands under a `serde_json` value that is no leaf.
pub(crate) enum JsonParts<'a> {
    /// The value is a leaf.
    Leaf,
    /// The items of an array.
    Array(&'a Vec<serde_json::Value>),
    /// The entries of an object, in the order of its map.
    Object(Vec<(&'a String, &'a serde_json::Value)>),
}

/// `saphyr::Yaml::load_from_str` parses a text into the documents it holds.
/// The outcome depends on the text alone. An error is handed on as its
/// message.
#[verifier::external_body]
pub(crate) fn yaml_from_str<'a>(content: &'a str) -> (r: Result<Vec<Yaml<'a>>, String>)
    ensures
        match r {
            Ok(documents) => yaml_loaded(content@) == Ok::<Seq<YamlModel>, Seq<char>>(
                yaml_models(documents@),
            ),
            Err(message) => yaml_loaded(content@) == Err::<Seq<YamlModel>, Seq<char>>(message@),
        },
{
    <Yaml as saphyr::LoadableYamlNode>::load_from_str(content).map_err(|e| e.to_string())
}

/// Hands out what stands under a `saphyr` node: the items of a
/// `Yaml::Sequence`, the entries of a `Yaml::Mapping` as its iterator yields
/// them, and of a `Yaml::Tagged` the tag's handle and suffix and the node.
/// A node of another variant is a leaf.
#[verifier::external_body]
pub(crate) fn yaml_parts<'a, 'input>(yaml: &'a Yaml<'input>) -> (r: YamlParts<'a, 'input>)
    ensures
        match r {
            YamlParts::Leaf => is_yaml_leaf(yaml_model(*yaml)),
            YamlParts::Sequence(items) => yaml_model(*yaml) == YamlModel::Sequence(
                yaml_models(items@),
            ),
            YamlParts::Mapping(entries) => yaml_model(*yaml) == YamlModel::Mapping(
                yaml_pair_models(entries@),
            ),
            YamlParts::Tagged(handle, suffix, node) => yaml_model(*yaml) == (YamlModel::Tagged {
                handle: handle@,
                suffix: suffix@,
                node: Box::new(yaml_model(*node)),
            }),
        },
{
    match yaml {
        Yaml::Sequence(items) => YamlParts::Sequence(items),
        Yaml::Mapping(entries) => YamlParts::Mapping(entries.iter().collect()),
        Yaml::Tagged(tag, node) => YamlParts::Tagged(tag.handle.clone(), tag.suffix.clone(), node),
        Yaml::Value(_) | Yaml::Alias(_) | Yaml::BadValue | Yaml::Representation(..) => YamlParts::Leaf,
    }
}

/// Copies a `saphyr` node that is a leaf, variant by variant: a scalar as
/// what it holds, a float among them as its bit pattern and its `Display`
/// text, an alias as its number, an unparsed scalar as its text.
#[verifier::external_body]
pub(crate) fn yaml_leaf(yaml: &Yaml<'_>) -> (r: YamlNode)
    requires
        is_yaml_leaf(yaml_model(*yaml)),
    ensures
        r@ == yaml_model(*yaml),
{
    match yaml {
        Yaml::Value(Scalar::Null) => YamlNode::Null,
        Yaml::Value(Scalar::Boolean(b)) => YamlNode::Boolean(*b),
        Yaml::Value(Scalar::Integer(i)) => YamlNode::Integer(*i),
        Yaml::Value(Scalar::FloatingPoint(x)) => YamlNode::Float { bits: x.to_bits(), text: x.to_string() },
        Yaml::Value(Scalar::String(s)) => YamlNode::String(s.to_string()),
        Yaml::Alias(id) => YamlNode::Alias(*id),
        Yaml::Representation(text, _, _) => YamlNode::Representation(text.to_string()),
        Yaml::BadValue | Yaml::Sequence(_) | Yaml::Mapping(_) | Yaml::Tagged(..) => YamlNode::BadValue,
    }
}

/// `serde_json::from_str` parses a text into a value. The outcome depends on
/// the text alone. An error is handed on as its message.
#[verifier::external_body]
pub(crate) fn json_from_str(content: &str) -> (r: Result<serde_json::Value, String>)
    ensures
        match r {
            Ok(value) => json_parsed(content@) == Ok::<ValueModel, Seq<char>>(json_model(value)),
            Err(message) => json_parsed(content@) == Err::<ValueModel, Seq<char>>(message@),
        },
{
    serde_json::from_str::<serde_json::Value>(content).map_err(|e| e.to_string())
}

/// `toml::from_str` parses a text into a table, here read as a `serde_json`
/// value. The outcome depends on the text alone. An error is handed on as
/// its message.
#[verifier::external_body]
pub(crate) fn toml_from_str(content: &str) -> (r: Result<serde_json::Value, String>)
    ensures
        match r {
            Ok(value) => toml_parsed(content@) == Ok::<ValueModel, Seq<char>>(json_model(value)),
            Err(message) => toml_parsed(content@) == Err::<ValueModel, Seq<char>>(message@),
        },
{
    toml::from_str::<serde_json::Value>(content).map_err(|e| e.to_string())
}

/// Hands out what stands under a `serde_json` value: the items of a
/// `Value::Array`, and the entries of a `Value::Object` as the iterator of
/// its map yields them. A value of another variant is a leaf.
///
/// The map of an object holds each key once, so no two of the entries are
/// under the same key.
#[verifier::external_body]
pub(crate) fn json_parts<'a>(value: &'a serde_json::Value) -> (r: JsonParts<'a>)
    ensures
        match r {
            JsonParts::Leaf => is_json_leaf(json_model(*value)),
            JsonParts::Array(items) => json_model(*value) == ValueModel::Array(json_models(items@)),
            JsonParts::Object(entries) => json_model(*value) == ValueModel::Object(
                json_entry_models(entries@),
            ) && forall|i: int, j: int|
                0 <= i < j < entries.len() ==> (#[trigger] entries[i]).0@ != (
                #[trigger] entries[j]).0@,
        },
{
    match value {
        serde_json::Value::Array(items) => JsonParts::Array(items),
        serde_json::Value::Object(entries) => JsonParts::Object(entries.iter().collect()),
        serde_json::Value::Null | serde_json::Value::Bool(_) | serde_json::Value::Number(_) | serde_json::Value::String(_) => JsonParts::Leaf,
    }
}

/// Copies a `serde_json` value that is a leaf, variant by variant. A number
/// is copied as a `PosInt` if it is a `u64`, else as a `NegInt` if it is an
/// `i64`, else as the bit pattern of the float that it is.
///
/// The copy is well formed: a `serde_json` number that is no `u64` and yet an
/// `i64` is negative, and none holds a float that is not finite.
#[verifier::external_body]
pub(crate) fn json_leaf(value: &serde_json::Value) -> (r: CanonicalValue)
    requires
        is_json_leaf(json_model(*value)),
    ensures
        r@ == json_model(*value),
        r@.wf(),
{
    match value {
        serde_json::Value::Bool(b) => CanonicalValue::Bool(*b),
        serde_json::Value::String(s) => CanonicalValue::String(s.clone()),
        serde_json::Value::Number(n) => CanonicalValue::Number(match (n.as_u64(), n.as_i64()) {
            (Some(u), _) => Number::PosInt(u),
            (None, Some(i)) => Number::NegInt(i),
            (None, None) => Number::Float(n.as_f64().unwrap_or_default().to_bits()),
        }),
        serde_json::Value::Null | serde_json::Value::Array(_) | serde_json::Value::Object(_) => CanonicalValue::Null,
    }
}

} // verus!
