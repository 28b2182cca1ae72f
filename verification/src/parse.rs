//! The three parsers, from a text to a canonical value.

use saphyr::Yaml;
use vstd::prelude::*;
use crate::conversion::{
    documents_to_json, is_only_document, law_spelled_value_is_kept, single_value, spells,
    ConversionError, ErrorModel,
};
use crate::foreign::{
    json_entry_models, json_from_str, json_leaf, json_model, json_models, json_parsed, json_parts,
    toml_from_str, toml_parsed, yaml_from_str, yaml_leaf, yaml_loaded, yaml_model, yaml_models,
    yaml_pair_models, yaml_parts, JsonParts, YamlParts,
};
use crate::object::unique_keys;
use crate::value::{entries_model, values_model, CanonicalValue, Member, ValueModel};
use crate::yaml::{nodes_model, pairs_model, YamlEntry, YamlModel, YamlNode};

verus! {

/// Copies the tree that a `saphyr` node holds.
pub fn node_from_yaml(yaml: &Yaml<'_>) -> (r: YamlNode)
    ensures
        r@ == yaml_model(*yaml),
    decreases yaml_model(*yaml),
{
    let ghost whole = yaml_model(*yaml);
    match yaml_parts(yaml) {
        YamlParts::Leaf => yaml_leaf(yaml),
        YamlParts::Sequence(items) => {
            let mut nodes: Vec<YamlNode> = Vec::new();
            let mut i: usize = 0;
            while i < items.len()
                invariant
                    whole == yaml_model(*yaml),
                    whole == YamlModel::Sequence(yaml_models(items@)),
                    i <= items.len(),
                    nodes.len() == i,
                    forall|j: int| 0 <= j < i ==> (#[trigger] nodes[j])@ == yaml_model(items[j]),
                decreases items.len() - i,
            {
                proof {
                    assert(whole->Sequence_0[i as int] == yaml_model(items[i as int]));
                    assert(decreases_to!(whole => whole->Sequence_0));
                    assert(decreases_to!(whole->Sequence_0 => whole->Sequence_0[i as int]));
                }
                nodes.push(node_from_yaml(&items[i]));
                i += 1;
            }
            let r = YamlNode::Sequence(nodes);
            proof {
                crate::yaml::lemma_view_of_collection(r);
                assert(nodes_model(nodes@) =~= yaml_models(items@));
            }
            r
        },
        YamlParts::Mapping(entries) => {
            let mut nodes: Vec<YamlEntry> = Vec::new();
            let mut i: usize = 0;
            while i < entries.len()
                invariant
                    whole == yaml_model(*yaml),
                    whole == YamlModel::Mapping(yaml_pair_models(entries@)),
                    i <= entries.len(),
                    nodes.len() == i,
                    forall|j: int|
                        0 <= j < i ==> (#[trigger] nodes[j]).key@ == yaml_model(*entries[j].0)
                            && nodes[j].value@ == yaml_model(*entries[j].1),
                decreases entries.len() - i,
            {
                proof {
                    let pair = whole->Mapping_0[i as int];
                    assert(pair == (
                        yaml_model(*entries[i as int].0),
                        yaml_model(*entries[i as int].1),
                    ));
                    assert(decreases_to!(whole => whole->Mapping_0));
                    assert(decreases_to!(whole->Mapping_0 => pair));
                    assert(decreases_to!(pair => pair.0));
                    assert(decreases_to!(pair => pair.1));
                }
                let key = node_from_yaml(entries[i].0);
                let value = node_from_yaml(entries[i].1);
                nodes.push(YamlEntry { key, value });
                i += 1;
            }
            let r = YamlNode::Mapping(nodes);
            proof {
                crate::yaml::lemma_view_of_collection(r);
                assert(pairs_model(nodes@) =~= yaml_pair_models(entries@));
            }
            r
        },
        YamlParts::Tagged(handle, suffix, node) => {
            proof {
                assert(decreases_to!(whole => whole->Tagged_node));
                assert(decreases_to!(whole => *whole->Tagged_node));
            }
            let inner = node_from_yaml(node);
            YamlNode::Tagged { handle, suffix, node: Box::new(inner) }
        },
    }
}

/// Copies the value that a `serde_json` value holds.
pub fn value_from_json(value: &serde_json::Value) -> (r: CanonicalValue)
    ensures
        r@ == json_model(*value),
        r@.wf(),
    decreases json_model(*value),
{
    let ghost whole = json_model(*value);
    match json_parts(value) {
        JsonParts::Leaf => json_leaf(value),
        JsonParts::Array(items) => {
            let mut values: Vec<CanonicalValue> = Vec::new();
            let mut i: usize = 0;
            while i < items.len()
                invariant
                    whole == json_model(*value),
                    whole == ValueModel::Array(json_models(items@)),
                    i <= items.len(),
                    values.len() == i,
                    forall|j: int|
                        0 <= j < i ==> (#[trigger] values[j])@ == json_model(items[j])
                            && values[j]@.wf(),
                decreases items.len() - i,
            {
                proof {
                    assert(whole->Array_0[i as int] == json_model(items[i as int]));
                    assert(decreases_to!(whole => whole->Array_0));
                    assert(decreases_to!(whole->Array_0 => whole->Array_0[i as int]));
                }
                values.push(value_from_json(&items[i]));
                i += 1;
            }
            let r = CanonicalValue::Array(values);
            proof {
                crate::value::lemma_view_of_collection(r);
                assert(values_model(values@) =~= json_models(items@));
            }
            r
        },
        JsonParts::Object(entries) => {
            let mut members: Vec<Member> = Vec::new();
            let mut i: usize = 0;
            while i < entries.len()
                invariant
                    whole == json_model(*value),
                    whole == ValueModel::Object(json_entry_models(entries@)),
                    i <= entries.len(),
                    members.len() == i,
                    forall|j: int|
                        0 <= j < i ==> (#[trigger] members[j]).key@ == entries[j].0@
                            && members[j].value@ == json_model(*entries[j].1)
                            && members[j].value@.wf(),
                decreases entries.len() - i,
            {
                proof {
                    let pair = whole->Object_0[i as int];
                    assert(pair == (entries[i as int].0@, json_model(*entries[i as int].1)));
                    assert(decreases_to!(whole => whole->Object_0));
                    assert(decreases_to!(whole->Object_0 => pair));
                    assert(decreases_to!(pair => pair.1));
                }
                let member = value_from_json(entries[i].1);
                members.push(Member { key: entries[i].0.clone(), value: member });
                i += 1;
            }
            let r = CanonicalValue::Object(members);
            proof {
                crate::value::lemma_view_of_collection(r);
                assert(entries_model(members@) =~= json_entry_models(entries@));
                assert(unique_keys(entries_model(members@))) by {
                    assert forall|a: int, b: int| 0 <= a < b < members.len() implies entries_model(
                        members@,
                    )[a].0 != entries_model(members@)[b].0 by {
                        assert(entries[a].0@ != entries[b].0@);
                    }
                }
            }
            r
        },
    }
}

/// The model of what a JSON or TOML parser returns.
pub open spec fn parsed_model(parsed: Result<CanonicalValue, String>) -> Result<
    ValueModel,
    Seq<char>,
> {
    match parsed {
        Ok(value) => Ok(value@),
        Err(message) => Err(message@),
    }
}

/// The model of what the YAML parser returns.
pub open spec fn converted_model(parsed: Result<CanonicalValue, ConversionError>) -> Result<
    ValueModel,
    ErrorModel,
> {
    match parsed {
        Ok(value) => Ok(value@),
        Err(error) => Err(error@),
    }
}

/// Parses a JSON text. The entries of an object keep the order of the text.
pub fn parse_json(content: &str) -> (r: Result<CanonicalValue, String>)
    ensures
        parsed_model(r) == json_parsed(content@),
        r matches Ok(value) ==> value@.wf(),
{
    match json_from_str(content) {
        Ok(value) => Ok(value_from_json(&value)),
        Err(message) => Err(message),
    }
}

/// Parses a TOML text.
pub fn parse_toml(content: &str) -> (r: Result<CanonicalValue, String>)
    ensures
        parsed_model(r) == toml_parsed(content@),
        r matches Ok(value) ==> value@.wf(),
{
    match toml_from_str(content) {
        Ok(value) => Ok(value_from_json(&value)),
        Err(message) => Err(message),
    }
}

/// The canonical value of a YAML text: the value of the one document in it
/// that is not null, as [`single_value`] says, or the parser's error.
pub open spec fn yaml_parsed(text: Seq<char>) -> Result<ValueModel, ErrorModel> {
    match yaml_loaded(text) {
        Ok(documents) => single_value(documents),
        Err(message) => Err(ErrorModel::UnderlyingParserError(message)),
    }
}

/// A YAML text that spells a canonical value is read back as that value.
///
/// This holds of a text that the parser reads as one document, a tree that
/// spells the value plainly, as [`spells`] says.
pub proof fn law_spelled_text_is_read_back(text: Seq<char>, node: YamlModel, value: ValueModel)
    requires
        yaml_loaded(text) == Ok::<Seq<YamlModel>, Seq<char>>(seq![node]),
        spells(node, value),
        value.wf(),
    ensures
        yaml_parsed(text) == Ok::<ValueModel, ErrorModel>(value),
{
    let documents = seq![node];
    law_spelled_value_is_kept(node, value);
    if node is Null {
        assert forall|i: int| 0 <= i < documents.len() implies documents[i] is Null by {}
    } else {
        assert(!(documents[0] is Null));
        assert(is_only_document(documents, 0));
        let chosen = choose|at: int| is_only_document(documents, at);
        assert(is_only_document(documents, chosen));
        assert(chosen == 0);
    }
}

/// Parses a YAML text. The entries of an object keep the order of the text;
/// where a key is repeated, the last entry under it counts.
pub fn parse_yaml(content: &str) -> (r: Result<CanonicalValue, ConversionError>)
    ensures
        converted_model(r) == yaml_parsed(content@),
        r matches Ok(value) ==> value@.wf(),
{
    match yaml_from_str(content) {
        Ok(loaded) => {
            let mut documents: Vec<YamlNode> = Vec::new();
            let mut i: usize = 0;
            while i < loaded.len()
                invariant
                    i <= loaded.len(),
                    documents.len() == i,
                    forall|j: int|
                        0 <= j < i ==> (#[trigger] documents[j])@ == yaml_model(loaded[j]),
                decreases loaded.len() - i,
            {
                documents.push(node_from_yaml(&loaded[i]));
                i += 1;
            }
            assert(nodes_model(documents@) =~= yaml_models(loaded@));
            documents_to_json(documents)
        },
        Err(message) => Err(ConversionError::UnderlyingParserError(message)),
    }
}

} // verus!
