//! Normalization of a YAML tree into the canonical value model.

use vstd::prelude::*;
use vstd::string::StringExecFns;
use crate::decimal::{integer_text, integer_to_text};
use crate::object::{bind, object_of, unique_keys};
use crate::value::{
    entries_model, is_finite_bits, values_model, CanonicalValue, Member, Number, ValueModel,
};
use crate::yaml::{duplicate, nodes_model, pairs_model, YamlModel, YamlNode};

verus! {

/// Why a YAML text has no canonical value.
#[derive(Debug, PartialEq, Eq)]
pub enum ConversionError {
    /// The text holds more than one document that is not null.
    MultipleYamlDocuments,
    /// A mapping key that is neither a string, an integer nor a float: the
    /// key.
    BadYamlKey(YamlNode),
    /// A node that stands for content the parser could not make sense of.
    MalformedYamlNode,
    /// A reference to an anchor; references are not followed.
    UnresolvedYamlAlias,
    /// A scalar that was left unparsed: its text.
    UnexpectedRepresentation(String),
    /// The parser rejected the text: the parser's message.
    UnderlyingParserError(String),
}

/// The mathematical model of a [`ConversionError`].
pub enum ErrorModel {
    MultipleYamlDocuments,
    BadYamlKey(YamlModel),
    MalformedYamlNode,
    UnresolvedYamlAlias,
    UnexpectedRepresentation(Seq<char>),
    UnderlyingParserError(Seq<char>),
}

impl View for ConversionError {
    type V = ErrorModel;

    open spec fn view(&self) -> ErrorModel {
        match self {
            ConversionError::MultipleYamlDocuments => ErrorModel::MultipleYamlDocuments,
            ConversionError::BadYamlKey(key) => ErrorModel::BadYamlKey(key@),
            ConversionError::MalformedYamlNode => ErrorModel::MalformedYamlNode,
            ConversionError::UnresolvedYamlAlias => ErrorModel::UnresolvedYamlAlias,
            ConversionError::UnexpectedRepresentation(text) => ErrorModel::UnexpectedRepresentation(
                text@,
            ),
            ConversionError::UnderlyingParserError(message) => ErrorModel::UnderlyingParserError(message@),
        }
    }
}

/// The name of the kind of a node.
pub open spec fn kind_name(node: YamlModel) -> Seq<char> {
    match node {
        YamlModel::Null => "null"@,
        YamlModel::Boolean(_) => "boolean"@,
        YamlModel::Integer(_) => "integer"@,
        YamlModel::Float { .. } => "float"@,
        YamlModel::String(_) => "string"@,
        YamlModel::Sequence(_) => "sequence"@,
        YamlModel::Mapping(_) => "mapping"@,
        YamlModel::Tagged { .. } => "tagged node"@,
        YamlModel::Alias(_) => "alias"@,
        YamlModel::BadValue => "bad value"@,
        YamlModel::Representation(_) => "unparsed scalar"@,
    }
}

/// The message of an error.
pub open spec fn message_text(error: ErrorModel) -> Seq<char> {
    match error {
        ErrorModel::MultipleYamlDocuments => "Multiple yaml documents are unsupported"@,
        ErrorModel::BadYamlKey(key) => "Bad key: "@ + kind_name(key),
        ErrorModel::MalformedYamlNode => "Bad value encountered when converting YAML"@,
        ErrorModel::UnresolvedYamlAlias => "Unresolved alias encountered when converting YAML"@,
        ErrorModel::UnexpectedRepresentation(text) =>
            "Encountered unexpected representation when converting YAML: "@ + text,
        ErrorModel::UnderlyingParserError(message) => message,
    }
}

/// Names the kind of a node.
pub fn kind_of(node: &YamlNode) -> (r: &'static str)
    ensures
        r@ == kind_name(node@),
{
    match node {
        YamlNode::Null => "null",
        YamlNode::Boolean(_) => "boolean",
        YamlNode::Integer(_) => "integer",
        YamlNode::Float { .. } => "float",
        YamlNode::String(_) => "string",
        YamlNode::Sequence(_) => "sequence",
        YamlNode::Mapping(_) => "mapping",
        YamlNode::Tagged { .. } => "tagged node",
        YamlNode::Alias(_) => "alias",
        YamlNode::BadValue => "bad value",
        YamlNode::Representation(_) => "unparsed scalar",
    }
}

impl ConversionError {
    /// The message of the error.
    pub fn message(&self) -> (r: String)
        ensures
            r@ == message_text(self@),
    {
        match self {
            ConversionError::MultipleYamlDocuments => String::from_str(
                "Multiple yaml documents are unsupported",
            ),
            ConversionError::BadYamlKey(key) => String::from_str("Bad key: ").concat(kind_of(key)),
            ConversionError::MalformedYamlNode => String::from_str(
                "Bad value encountered when converting YAML",
            ),
            ConversionError::UnresolvedYamlAlias => String::from_str(
                "Unresolved alias encountered when converting YAML",
            ),
            ConversionError::UnexpectedRepresentation(text) => String::from_str(
                "Encountered unexpected representation when converting YAML: ",
            ).concat(text.as_str()),
            ConversionError::UnderlyingParserError(message) => message.clone(),
        }
    }
}

/// The text that a mapping key stands for as the key of an object, if the
/// key is of a kind that has one.
pub open spec fn key_text(key: YamlModel) -> Option<Seq<char>> {
    match key {
        YamlModel::Integer(i) => Some(integer_text(i as int)),
        YamlModel::String(text) => Some(text),
        YamlModel::Float { text, .. } => Some(text),
        _ => None,
    }
}

/// The canonical value of a YAML tree, or the reason why it has none.
///
/// A float that is not finite becomes null. A sequence becomes the array of
/// the values of its items, a mapping the object built from its entries. A
/// tagged node has the value of the node under the tag. An alias, a bad value
/// and an unparsed scalar have no value.
pub open spec fn normalized(node: YamlModel) -> Result<ValueModel, ErrorModel>
    decreases node,
{
    match node {
        YamlModel::Null => Ok(ValueModel::Null),
        YamlModel::Boolean(b) => Ok(ValueModel::Bool(b)),
        YamlModel::Integer(i) => Ok(ValueModel::Number(Number::of_int(i))),
        YamlModel::Float { bits, .. } => Ok(
            if is_finite_bits(bits) {
                ValueModel::Number(Number::Float(bits))
            } else {
                ValueModel::Null
            },
        ),
        YamlModel::String(text) => Ok(ValueModel::String(text)),
        YamlModel::Sequence(items) => match normalized_items(items) {
            Ok(values) => Ok(ValueModel::Array(values)),
            Err(e) => Err(e),
        },
        YamlModel::Mapping(entries) => match normalized_entries(entries) {
            Ok(pairs) => Ok(ValueModel::Object(object_of(pairs))),
            Err(e) => Err(e),
        },
        YamlModel::Tagged { node, .. } => normalized(*node),
        YamlModel::Alias(_) => Err(ErrorModel::UnresolvedYamlAlias),
        YamlModel::BadValue => Err(ErrorModel::MalformedYamlNode),
        YamlModel::Representation(text) => Err(ErrorModel::UnexpectedRepresentation(text)),
    }
}

/// The values of the items of a sequence, in order, or the error of the
/// first item that has no value.
pub open spec fn normalized_items(items: Seq<YamlModel>) -> Result<Seq<ValueModel>, ErrorModel>
    decreases items,
{
    if items.len() == 0 {
        Ok(Seq::empty())
    } else {
        match normalized_items(items.drop_last()) {
            Err(e) => Err(e),
            Ok(values) => match normalized(items.last()) {
                Ok(value) => Ok(values.push(value)),
                Err(e) => Err(e),
            },
        }
    }
}

/// The key text and the value of one entry of a mapping. A key without a
/// text is an error, whatever the value is.
pub open spec fn normalized_entry(entry: (YamlModel, YamlModel)) -> Result<
    (Seq<char>, ValueModel),
    ErrorModel,
>
    decreases entry,
{
    match key_text(entry.0) {
        None => Err(ErrorModel::BadYamlKey(entry.0)),
        Some(key) => match normalized(entry.1) {
            Ok(value) => Ok((key, value)),
            Err(e) => Err(e),
        },
    }
}

/// The key texts and values of the entries of a mapping, in order, or the
/// error of the first entry that has none.
pub open spec fn normalized_entries(entries: Seq<(YamlModel, YamlModel)>) -> Result<
    Seq<(Seq<char>, ValueModel)>,
    ErrorModel,
>
    decreases entries,
{
    if entries.len() == 0 {
        Ok(Seq::empty())
    } else {
        match normalized_entries(entries.drop_last()) {
            Err(e) => Err(e),
            Ok(pairs) => match normalized_entry(entries.last()) {
                Ok(pair) => Ok(pairs.push(pair)),
                Err(e) => Err(e),
            },
        }
    }
}

/// Once an item has no value, the items after it do not count.
pub proof fn lemma_items_failed(items: Seq<YamlModel>, n: int)
    requires
        0 <= n <= items.len(),
        normalized_items(items.take(n)) is Err,
    ensures
        normalized_items(items) == normalized_items(items.take(n)),
    decreases items.len() - n,
{
    if n < items.len() {
        assert(items.take(n + 1).drop_last() =~= items.take(n));
        lemma_items_failed(items, n + 1);
    } else {
        assert(items.take(n) =~= items);
    }
}

/// Once an entry has failed, the entries after it do not count.
pub proof fn lemma_entries_failed(entries: Seq<(YamlModel, YamlModel)>, n: int)
    requires
        0 <= n <= entries.len(),
        normalized_entries(entries.take(n)) is Err,
    ensures
        normalized_entries(entries) == normalized_entries(entries.take(n)),
    decreases entries.len() - n,
{
    if n < entries.len() {
        assert(entries.take(n + 1).drop_last() =~= entries.take(n));
        lemma_entries_failed(entries, n + 1);
    } else {
        assert(entries.take(n) =~= entries);
    }
}

/// Where the entries of a mapping have key texts and values, these are, one
/// by one, what [`normalized_entry`] gives.
pub proof fn lemma_entries_normalized(entries: Seq<(YamlModel, YamlModel)>)
    requires
        normalized_entries(entries) is Ok,
    ensures
        normalized_entries(entries)->Ok_0.len() == entries.len(),
        forall|i: int|
            0 <= i < entries.len() ==> normalized_entry(#[trigger] entries[i]) == Ok::<
                (Seq<char>, ValueModel),
                ErrorModel,
            >(normalized_entries(entries)->Ok_0[i]),
    decreases entries.len(),
{
    if entries.len() > 0 {
        let init = entries.drop_last();
        lemma_entries_normalized(init);
        assert forall|i: int| 0 <= i < entries.len() implies normalized_entry(
            #[trigger] entries[i],
        ) == Ok::<(Seq<char>, ValueModel), ErrorModel>(normalized_entries(entries)->Ok_0[i]) by {
            if i < init.len() {
                assert(init[i] == entries[i]);
            }
        }
    }
}

/// Where every entry of a mapping has a key text and a value, the mapping
/// has them all.
pub proof fn lemma_entries_all_normalized(entries: Seq<(YamlModel, YamlModel)>)
    requires
        forall|i: int| 0 <= i < entries.len() ==> normalized_entry(#[trigger] entries[i]) is Ok,
    ensures
        normalized_entries(entries) is Ok,
    decreases entries.len(),
{
    if entries.len() > 0 {
        let init = entries.drop_last();
        assert forall|i: int| 0 <= i < init.len() implies normalized_entry(#[trigger] init[i])
            is Ok by {
            assert(init[i] == entries[i]);
        }
        lemma_entries_all_normalized(init);
        assert(entries.last() == entries[entries.len() - 1]);
    }
}

/// A mapping that repeats one key becomes an object with that key alone,
/// bound to the value of the last entry.
///
/// The key may be written in different ways, as long as its text is the
/// same; the values need not differ.
pub proof fn law_repeated_key(entries: Seq<(YamlModel, YamlModel)>, key: Seq<char>)
    requires
        entries.len() > 0,
        forall|i: int| 0 <= i < entries.len() ==> key_text((#[trigger] entries[i]).0) == Some(key),
        forall|i: int| 0 <= i < entries.len() ==> normalized((#[trigger] entries[i]).1) is Ok,
    ensures
        normalized(YamlModel::Mapping(entries)) == Ok::<ValueModel, ErrorModel>(
            ValueModel::Object(seq![(key, normalized(entries.last().1)->Ok_0)]),
        ),
{
    assert forall|i: int| 0 <= i < entries.len() implies normalized_entry(#[trigger] entries[i])
        == Ok::<(Seq<char>, ValueModel), ErrorModel>((key, normalized(entries[i].1)->Ok_0)) by {
        assert(key_text(entries[i].0) == Some(key));
        assert(normalized(entries[i].1) is Ok);
    }
    lemma_entries_all_normalized(entries);
    lemma_entries_normalized(entries);
    let pairs = normalized_entries(entries)->Ok_0;
    assert forall|i: int| 0 <= i < pairs.len() implies (#[trigger] pairs[i]).0 == key by {
        assert(normalized_entry(entries[i]) == Ok::<(Seq<char>, ValueModel), ErrorModel>(pairs[i]));
    }
    crate::object::lemma_object_of_one_key(pairs, key);
    assert(entries.last() == entries[entries.len() - 1]);
    assert(pairs.last() == pairs[pairs.len() - 1]);
}

/// In the object of a mapping, the last entry under each key text counts.
///
/// Where a mapping becomes an object and the entry at `at` is the last one
/// under its key text, the object has an entry of that key with the value of
/// that entry, and no other entry under that key.
pub proof fn law_last_entry_wins(entries: Seq<(YamlModel, YamlModel)>, at: int)
    requires
        normalized(YamlModel::Mapping(entries)) is Ok,
        0 <= at < entries.len(),
        forall|later: int|
            at < later < entries.len() ==> key_text((#[trigger] entries[later]).0) != key_text(
                entries[at].0,
            ),
    ensures
        ({
            let object = normalized(YamlModel::Mapping(entries))->Ok_0->Object_0;
            let key = key_text(entries[at].0)->0;
            let value = normalized(entries[at].1)->Ok_0;
            exists|i: int|
                0 <= i < object.len() && #[trigger] object[i] == (key, value) && forall|j: int|
                    0 <= j < object.len() && j != i ==> (#[trigger] object[j]).0 != key
        }),
{
    lemma_entries_normalized(entries);
    let pairs = normalized_entries(entries)->Ok_0;
    assert(normalized_entry(entries[at]) == Ok::<(Seq<char>, ValueModel), ErrorModel>(pairs[at]));
    assert forall|later: int| at < later < pairs.len() implies pairs[later].0 != pairs[at].0 by {
        assert(normalized_entry(entries[later]) == Ok::<(Seq<char>, ValueModel), ErrorModel>(
            pairs[later],
        ));
        assert(key_text(entries[later].0) != key_text(entries[at].0));
    }
    crate::object::law_last_binding_wins(pairs, at);
    assert(normalized(YamlModel::Mapping(entries))->Ok_0->Object_0 == object_of(pairs));
    assert(pairs[at] == (key_text(entries[at].0)->0, normalized(entries[at].1)->Ok_0));
}

/// Whether a YAML tree spells a canonical value plainly: node by node the
/// same null, boolean, integer, float or string, a sequence for an array and
/// a mapping with string keys for an object, entry by entry.
pub open spec fn spells(node: YamlModel, value: ValueModel) -> bool
    decreases node,
{
    match node {
        YamlModel::Null => value is Null,
        YamlModel::Boolean(b) => value == ValueModel::Bool(b),
        YamlModel::Integer(i) => value == ValueModel::Number(Number::of_int(i)),
        YamlModel::Float { bits, .. } => value == ValueModel::Number(Number::Float(bits)),
        YamlModel::String(text) => value == ValueModel::String(text),
        YamlModel::Sequence(items) => value matches ValueModel::Array(values) && items.len()
            == values.len() && forall|i: int|
            0 <= i < items.len() ==> spells(#[trigger] items[i], values[i]),
        YamlModel::Mapping(entries) => value matches ValueModel::Object(members) && entries.len()
            == members.len() && forall|i: int|
            0 <= i < entries.len() ==> (#[trigger] entries[i]).0 == YamlModel::String(members[i].0)
                && spells(entries[i].1, members[i].1),
        _ => false,
    }
}

/// A canonical value that is spelled plainly as a YAML tree is the value of
/// that tree.
pub proof fn law_spelled_value_is_kept(node: YamlModel, value: ValueModel)
    requires
        spells(node, value),
        value.wf(),
    ensures
        normalized(node) == Ok::<ValueModel, ErrorModel>(value),
    decreases node, 0nat,
{
    match node {
        YamlModel::Sequence(items) => {
            let values = value->Array_0;
            lemma_spelled_items(items, values, items.len());
            assert(items.take(items.len() as int) =~= items);
            assert(values.take(items.len() as int) =~= values);
        },
        YamlModel::Mapping(entries) => {
            let members = value->Object_0;
            lemma_spelled_entries(entries, members, entries.len());
            assert(entries.take(entries.len() as int) =~= entries);
            assert(members.take(entries.len() as int) =~= members);
            crate::object::lemma_object_of_unique_pairs(members);
        },
        _ => {},
    }
}

/// The first `n` items of a sequence that spells an array have the first
/// `n` values of the array.
proof fn lemma_spelled_items(items: Seq<YamlModel>, values: Seq<ValueModel>, n: nat)
    requires
        n <= items.len() == values.len(),
        forall|i: int| 0 <= i < items.len() ==> spells(#[trigger] items[i], values[i]),
        forall|i: int| 0 <= i < values.len() ==> (#[trigger] values[i]).wf(),
    ensures
        normalized_items(items.take(n as int)) == Ok::<Seq<ValueModel>, ErrorModel>(
            values.take(n as int),
        ),
    decreases items, n,
{
    if n == 0 {
        assert(values.take(0) =~= Seq::empty());
    } else {
        lemma_spelled_items(items, values, (n - 1) as nat);
        assert(items.take(n as int).drop_last() =~= items.take(n - 1));
        assert(items.take(n as int).last() == items[n - 1]);
        assert(spells(items[n - 1], values[n - 1]));
        assert(values[n - 1].wf());
        law_spelled_value_is_kept(items[n - 1], values[n - 1]);
        assert(values.take(n - 1).push(values[n - 1]) =~= values.take(n as int));
    }
}

/// The first `n` entries of a mapping that spells an object have the first
/// `n` entries of the object as their key texts and values.
proof fn lemma_spelled_entries(
    entries: Seq<(YamlModel, YamlModel)>,
    members: Seq<(Seq<char>, ValueModel)>,
    n: nat,
)
    requires
        n <= entries.len() == members.len(),
        forall|i: int|
            0 <= i < entries.len() ==> (#[trigger] entries[i]).0 == YamlModel::String(members[i].0)
                && spells(entries[i].1, members[i].1),
        forall|i: int| 0 <= i < members.len() ==> (#[trigger] members[i]).1.wf(),
    ensures
        normalized_entries(entries.take(n as int)) == Ok::<
            Seq<(Seq<char>, ValueModel)>,
            ErrorModel,
        >(members.take(n as int)),
    decreases entries, n,
{
    if n == 0 {
        assert(members.take(0) =~= Seq::empty());
    } else {
        lemma_spelled_entries(entries, members, (n - 1) as nat);
        assert(entries.take(n as int).drop_last() =~= entries.take(n - 1));
        assert(entries.take(n as int).last() == entries[n - 1]);
        assert(entries[n - 1].0 == YamlModel::String(members[n - 1].0));
        assert(spells(entries[n - 1].1, members[n - 1].1));
        assert(members[n - 1].1.wf());
        law_spelled_value_is_kept(entries[n - 1].1, members[n - 1].1);
        assert(key_text(entries[n - 1].0) == Some(members[n - 1].0));
        assert(normalized_entry(entries[n - 1]) == Ok::<(Seq<char>, ValueModel), ErrorModel>(
            members[n - 1],
        ));
        assert(members.take(n - 1).push(members[n - 1]) =~= members.take(n as int));
    }
}

/// The text of a mapping key, or the key itself if it has none.
fn key_to_text(key: &YamlNode) -> (r: Result<String, ConversionError>)
    ensures
        match key_text(key@) {
            Some(text) => r matches Ok(t) && t@ == text,
            None => r matches Err(e) && e@ == ErrorModel::BadYamlKey(key@),
        },
{
    match key {
        YamlNode::Integer(i) => Ok(integer_to_text(*i)),
        YamlNode::String(text) => Ok(text.clone()),
        YamlNode::Float { bits: _, text } => Ok(text.clone()),
        other => Err(ConversionError::BadYamlKey(duplicate(other))),
    }
}

fn convert(yaml: &YamlNode) -> (r: Result<CanonicalValue, ConversionError>)
    ensures
        match normalized(yaml@) {
            Ok(value) => r matches Ok(v) && v@ == value,
            Err(error) => r matches Err(e) && e@ == error,
        },
        r matches Ok(v) ==> v@.wf(),
    decreases yaml,
{
    match yaml {
        YamlNode::Null => Ok(CanonicalValue::Null),
        YamlNode::Boolean(b) => Ok(CanonicalValue::Bool(*b)),
        YamlNode::Integer(i) => Ok(CanonicalValue::Number(Number::from_integer(*i))),
        YamlNode::Float { bits, text: _ } => match Number::from_float_bits(*bits) {
            Some(n) => Ok(CanonicalValue::Number(n)),
            None => Ok(CanonicalValue::Null),
        },
        YamlNode::String(text) => Ok(CanonicalValue::String(text.clone())),
        YamlNode::Sequence(items) => {
            let ghost nodes = nodes_model(items@);
            proof {
                crate::yaml::lemma_view_of_collection(*yaml);
            }
            let mut values: Vec<CanonicalValue> = Vec::new();
            let mut i: usize = 0;
            assert(values_model(values@) =~= Seq::empty());
            while i < items.len()
                invariant
                    *yaml == YamlNode::Sequence(*items),
                    yaml@ == YamlModel::Sequence(nodes),
                    i <= items.len(),
                    nodes == nodes_model(items@),
                    normalized_items(nodes.take(i as int)) == Ok::<Seq<ValueModel>, ErrorModel>(
                        values_model(values@),
                    ),
                    forall|j: int| 0 <= j < values.len() ==> (#[trigger] values[j])@.wf(),
                decreases items.len() - i,
            {
                assert(nodes.take(i + 1).drop_last() =~= nodes.take(i as int));
                let ghost done = values_model(values@);
                match convert(&items[i]) {
                    Ok(value) => {
                        values.push(value);
                        assert(values_model(values@) =~= done.push(value@));
                    },
                    Err(e) => {
                        proof {
                            lemma_items_failed(nodes, i + 1);
                        }
                        return Err(e);
                    },
                }
                i += 1;
            }
            assert(nodes.take(i as int) =~= nodes);
            let r = CanonicalValue::Array(values);
            proof {
                crate::value::lemma_view_of_collection(r);
            }
            Ok(r)
        },
        YamlNode::Mapping(entries) => {
            let ghost nodes = pairs_model(entries@);
            proof {
                crate::yaml::lemma_view_of_collection(*yaml);
            }
            let mut members: Vec<Member> = Vec::new();
            let ghost mut pairs: Seq<(Seq<char>, ValueModel)> = Seq::empty();
            let mut i: usize = 0;
            assert(entries_model(members@) =~= Seq::empty());
            while i < entries.len()
                invariant
                    *yaml == YamlNode::Mapping(*entries),
                    yaml@ == YamlModel::Mapping(nodes),
                    i <= entries.len(),
                    nodes == pairs_model(entries@),
                    normalized_entries(nodes.take(i as int)) == Ok::<
                        Seq<(Seq<char>, ValueModel)>,
                        ErrorModel,
                    >(pairs),
                    entries_model(members@) == object_of(pairs),
                    unique_keys(entries_model(members@)),
                    forall|j: int|
                        0 <= j < members.len() ==> (#[trigger] entries_model(members@)[j]).1.wf(),
                decreases entries.len() - i,
            {
                assert(nodes.take(i + 1).drop_last() =~= nodes.take(i as int));
                assert(nodes[i as int] == (entries[i as int].key@, entries[i as int].value@));
                assert(nodes.take(i + 1).last() == nodes[i as int]);
                assert(normalized_entry(nodes[i as int]) == match key_text(entries[i as int].key@) {
                    None => Err::<(Seq<char>, ValueModel), ErrorModel>(
                        ErrorModel::BadYamlKey(entries[i as int].key@),
                    ),
                    Some(key) => match normalized(entries[i as int].value@) {
                        Ok(value) => Ok((key, value)),
                        Err(e) => Err(e),
                    },
                });
                let key = match key_to_text(&entries[i].key) {
                    Ok(key) => key,
                    Err(e) => {
                        proof {
                            lemma_entries_failed(nodes, i + 1);
                        }
                        return Err(e);
                    },
                };
                let value = match convert(&entries[i].value) {
                    Ok(value) => value,
                    Err(e) => {
                        proof {
                            lemma_entries_failed(nodes, i + 1);
                        }
                        return Err(e);
                    },
                };
                proof {
                    assert(pairs.push((key@, value@)).drop_last() =~= pairs);
                    pairs = pairs.push((key@, value@));
                }
                bind(&mut members, key, value);
                i += 1;
            }
            assert(nodes.take(i as int) =~= nodes);
            let r = CanonicalValue::Object(members);
            proof {
                crate::value::lemma_view_of_collection(r);
            }
            Ok(r)
        },
        YamlNode::Tagged { handle: _, suffix: _, node } => convert(&**node),
        YamlNode::Alias(_) => Err(ConversionError::UnresolvedYamlAlias),
        YamlNode::BadValue => Err(ConversionError::MalformedYamlNode),
        YamlNode::Representation(text) => Err(
            ConversionError::UnexpectedRepresentation(text.clone()),
        ),
    }
}

/// Whether the document at index `at` is the only one that is not null.
pub open spec fn is_only_document(documents: Seq<YamlModel>, at: int) -> bool {
    &&& 0 <= at < documents.len()
    &&& !(documents[at] is Null)
    &&& forall|i: int| 0 <= i < documents.len() && i != at ==> documents[i] is Null
}

/// The canonical value of the documents of a YAML text. Documents that are
/// null do not count. Of the others there may be one at most, whose value is
/// the result; where there is none, the result is null.
pub open spec fn single_value(documents: Seq<YamlModel>) -> Result<ValueModel, ErrorModel> {
    if forall|i: int| 0 <= i < documents.len() ==> documents[i] is Null {
        Ok(ValueModel::Null)
    } else if exists|at: int| is_only_document(documents, at) {
        normalized(documents[choose|at: int| is_only_document(documents, at)])
    } else {
        Err(ErrorModel::MultipleYamlDocuments)
    }
}

/// Converts the documents of a YAML text into the one canonical value they
/// stand for.
pub fn documents_to_json(documents: Vec<YamlNode>) -> (r: Result<CanonicalValue, ConversionError>)
    ensures
        match single_value(nodes_model(documents@)) {
            Ok(value) => r matches Ok(v) && v@ == value,
            Err(error) => r matches Err(e) && e@ == error,
        },
        r matches Ok(value) ==> value@.wf(),
{
    let ghost nodes = nodes_model(documents@);
    let mut found: Option<usize> = None;
    let mut i: usize = 0;
    while i < documents.len()
        invariant
            i <= documents.len(),
            nodes == nodes_model(documents@),
            match found {
                Some(at) => at < i && !(nodes[at as int] is Null) && forall|j: int|
                    0 <= j < i && j != at ==> nodes[j] is Null,
                None => forall|j: int| 0 <= j < i ==> nodes[j] is Null,
            },
        decreases documents.len() - i,
    {
        let is_null = match &documents[i] {
            YamlNode::Null => true,
            _ => false,
        };
        assert(is_null == (nodes[i as int] is Null));
        if !is_null {
            if found.is_some() {
                proof {
                    let first = found->0 as int;
                    assert(!(nodes[first] is Null));
                    assert(!(nodes[i as int] is Null));
                    assert forall|at: int| !is_only_document(nodes, at) by {
                        if is_only_document(nodes, at) {
                            if at == first {
                                assert(nodes[i as int] is Null);
                            } else {
                                assert(nodes[first] is Null);
                            }
                        }
                    }
                }
                return Err(ConversionError::MultipleYamlDocuments);
            }
            found = Some(i);
        }
        i += 1;
    }
    match found {
        None => Ok(CanonicalValue::Null),
        Some(at) => {
            proof {
                assert(is_only_document(nodes, at as int));
                let chosen = choose|k: int| is_only_document(nodes, k);
                assert(is_only_document(nodes, chosen));
                if chosen != at {
                    assert(nodes[at as int] is Null);
                }
            }
            convert(&documents[at])
        },
    }
}

/// Converts a YAML tree into its canonical value.
///
/// A float that is not finite becomes null. A sequence becomes an array and
/// a mapping an object, whose keys are the texts of the mapping's keys; a key
/// that occurs again takes the later value and the later place. A tag is
/// dropped. The first node in document order that has no canonical value
/// makes the whole conversion fail.
pub fn yaml_to_json(yaml: YamlNode) -> (r: Result<CanonicalValue, ConversionError>)
    ensures
        match normalized(yaml@) {
            Ok(value) => r matches Ok(v) && v@ == value,
            Err(error) => r matches Err(e) && e@ == error,
        },
        r matches Ok(v) ==> v@.wf(),
{
    convert(&yaml)
}

} // verus!
