//! The outside document parsers: each reads a text into a [`Doc`]
//! tree, node for node; what the tree means is decided in `docs`.

use vstd::prelude::*;

use serde_json::Value as JsonTree;
use serde_yaml::Value as YamlTree;
use toml::Value as TomlTree;

use crate::docs::{Doc, DocKey, DocM};

verus! {

// ---------------------------------------------------------------------
// The outside parsers
// ---------------------------------------------------------------------

#[verifier::external_type_specification]
#[verifier::external_body]
pub struct ExJsonTree(JsonTree);

#[verifier::external_type_specification]
#[verifier::external_body]
pub struct ExJsoncTree<'a>(jsonc_parser::JsonValue<'a>);

#[verifier::external_type_specification]
#[verifier::external_body]
pub struct ExYamlTree(YamlTree);

#[verifier::external_type_specification]
#[verifier::external_body]
pub struct ExTomlTree(TomlTree);

/// The model of a parser's answer.
pub open spec fn doc_res(r: Result<Doc, String>) -> Result<DocM, Seq<char>> {
    match r {
        Ok(d) => Ok(d@),
        Err(m) => Err(m@),
    }
}

/// The model of a parser's answer that may hold no document.
pub open spec fn opt_doc_res(r: Result<Option<Doc>, String>) -> Result<Option<DocM>, Seq<char>> {
    match r {
        Ok(Some(d)) => Ok(Some(d@)),
        Ok(None) => Ok(None),
        Err(m) => Err(m@),
    }
}

/// The tree `serde_json` reads from a text, or its error's message.
pub uninterp spec fn json_parsed(text: Seq<char>) -> Result<DocM, Seq<char>>;

/// The tree `jsonc_parser` reads from a text (`None`: no value in it),
/// or its error's message.
pub uninterp spec fn jsonc_parsed(text: Seq<char>) -> Result<Option<DocM>, Seq<char>>;

/// The tree `serde_yaml` reads from a text, or its error's message.
pub uninterp spec fn yaml_parsed(text: Seq<char>) -> Result<DocM, Seq<char>>;

/// The table `toml` reads from a text, or its error's message.
pub uninterp spec fn toml_parsed(text: Seq<char>) -> Result<DocM, Seq<char>>;

/// `serde_json`'s tree as a [`Doc`], node for node (numbers by their
/// `Display` text); a part of `read_json`.
#[verifier::external_body]
fn json_tree(v: JsonTree) -> Doc {
    match v {
        JsonTree::Null => Doc::Null,
        JsonTree::Bool(b) => Doc::Bool(b),
        JsonTree::Number(n) => Doc::Num(n.to_string()),
        JsonTree::String(s) => Doc::Str(s),
        JsonTree::Array(items) => Doc::List(items.into_iter().map(json_tree).collect()),
        JsonTree::Object(map) => Doc::Table(
            map.into_iter().map(|(k, v)| (DocKey::Str(k), json_tree(v))).collect(),
        ),
    }
}

/// Trusted: `serde_json::from_str::<JsonTree>`, its tree
/// converted node for node, or its error's `Display` text. The contract
/// only names the outcome as a function of the text.
#[verifier::external_body]
pub(crate) fn read_json(text: &str) -> (r: Result<Doc, String>)
    ensures
        doc_res(r) == json_parsed(text@),
{
    serde_json::from_str::<JsonTree>(text).map(json_tree).map_err(|e| e.to_string())
}

/// `jsonc_parser`'s tree as a [`Doc`], node for node (numbers by their
/// raw text); a part of `read_jsonc`.
#[verifier::external_body]
fn jsonc_tree(v: jsonc_parser::JsonValue<'_>) -> Doc {
    match v {
        jsonc_parser::JsonValue::Null => Doc::Null,
        jsonc_parser::JsonValue::Boolean(b) => Doc::Bool(b),
        jsonc_parser::JsonValue::Number(raw) => Doc::Num(raw.to_owned()),
        jsonc_parser::JsonValue::String(s) => Doc::Str(s.into_owned()),
        jsonc_parser::JsonValue::Array(items) => Doc::List(items.into_iter().map(jsonc_tree).collect()),
        jsonc_parser::JsonValue::Object(map) => Doc::Table(
            map.into_iter().map(|(k, v)| (DocKey::Str(k.into_owned()), jsonc_tree(v))).collect(),
        ),
    }
}

/// Trusted: `jsonc_parser::parse_to_value` with the default options (built
/// with `preserve_order`, so an object's entries come in text order), its
/// tree converted node for node, or its error's `Display` text. The
/// contract only names the outcome as a function of the text.
#[verifier::external_body]
pub(crate) fn read_jsonc(text: &str) -> (r: Result<Option<Doc>, String>)
    ensures
        opt_doc_res(r) == jsonc_parsed(text@),
{
    jsonc_parser::parse_to_value(text, &Default::default()).map(|o| o.map(jsonc_tree)).map_err(
        |e| e.to_string(),
    )
}

/// A `serde_yaml` mapping key as a [`DocKey`] (others by their `Debug`
/// text); a part of `read_yaml`.
#[verifier::external_body]
fn yaml_key(k: YamlTree) -> DocKey {
    match k {
        YamlTree::String(s) => DocKey::Str(s),
        YamlTree::Bool(b) => DocKey::Bool(b),
        YamlTree::Number(n) => DocKey::Num(n.to_string()),
        other => DocKey::Other(format!("{other:?}")),
    }
}

/// `serde_yaml`'s tree as a [`Doc`], node for node (numbers by their
/// `Display` text); a part of `read_yaml`.
#[verifier::external_body]
fn yaml_tree(v: YamlTree) -> Doc {
    match v {
        YamlTree::Null => Doc::Null,
        YamlTree::Bool(b) => Doc::Bool(b),
        YamlTree::Number(n) => Doc::Num(n.to_string()),
        YamlTree::String(s) => Doc::Str(s),
        YamlTree::Sequence(items) => Doc::List(items.into_iter().map(yaml_tree).collect()),
        YamlTree::Mapping(map) => Doc::Table(
            map.into_iter().map(|(k, v)| (yaml_key(k), yaml_tree(v))).collect(),
        ),
        YamlTree::Tagged(t) => Doc::Tagged(Box::new(yaml_tree(t.value))),
    }
}

/// Trusted: `serde_yaml::from_str::<YamlTree>`, its tree
/// converted node for node, or its error's `Display` text. The contract
/// only names the outcome as a function of the text.
#[verifier::external_body]
pub(crate) fn read_yaml(text: &str) -> (r: Result<Doc, String>)
    ensures
        doc_res(r) == yaml_parsed(text@),
{
    serde_yaml::from_str::<YamlTree>(text).map(yaml_tree).map_err(|e| e.to_string())
}

/// `toml`'s tree as a [`Doc`], node for node (floats by their bit
/// pattern, datetimes by their `Display` text); a part of `read_toml`.
#[verifier::external_body]
fn toml_tree(v: TomlTree) -> Doc {
    match v {
        TomlTree::String(s) => Doc::Str(s),
        TomlTree::Integer(i) => Doc::Int(i),
        TomlTree::Float(x) => Doc::Float(x.to_bits()),
        TomlTree::Boolean(b) => Doc::Bool(b),
        TomlTree::Datetime(dt) => Doc::Date(dt.to_string()),
        TomlTree::Array(items) => Doc::List(items.into_iter().map(toml_tree).collect()),
        TomlTree::Table(map) => Doc::Table(
            map.into_iter().map(|(k, v)| (DocKey::Str(k), toml_tree(v))).collect(),
        ),
    }
}

/// Trusted: `toml::from_str::<toml::Table>`, the table converted node
/// for node, or its error's `Display` text. The contract only names the
/// outcome as a function of the text.
#[verifier::external_body]
pub(crate) fn read_toml(text: &str) -> (r: Result<Doc, String>)
    ensures
        doc_res(r) == toml_parsed(text@),
{
    toml::from_str::<toml::Table>(text).map(|t| toml_tree(TomlTree::Table(t))).map_err(
        |e| e.to_string(),
    )
}

} // verus!
