//! Calls into the outside parsers of the formats a configuration is read
//! from. Each parser's result is named, not restated: what the configuration
//! logic proves holds for whatever document the parser reads.
use crate::value::{keys_distinct, ConfigValue};
use vstd::prelude::*;

verus! {

#[verifier::external_type_specification]
#[verifier::external_body]
pub struct ExJsonValue(serde_json::Value);

/// The tree that serde_json reads from a JSON document, if it reads one.
pub uninterp spec fn json_document(text: Seq<char>) -> Option<ConfigValue>;

/// The tree that toml reads from a TOML document, if it reads one.
pub uninterp spec fn toml_document(text: Seq<char>) -> Option<ConfigValue>;

/// The tree that serde_yaml reads from a YAML document, if it reads one.
pub uninterp spec fn yaml_document(text: Seq<char>) -> Option<ConfigValue>;

/// The variables that env-file-reader reads from dotenv text, if it reads it.
pub uninterp spec fn dotenv_document(text: Seq<char>) -> Option<Map<Seq<char>, Seq<char>>>;

/// No two pairs of `es` share a name.
pub open spec fn names_distinct(es: Seq<(String, String)>) -> bool {
    forall|i: int, j: int| 0 <= i < es.len() && 0 <= j < es.len() && i != j ==> es[i].0@ != es[j].0@
}

/// The pairs of `es` as a map from name to text.
pub open spec fn pairs_map(es: Seq<(String, String)>) -> Map<Seq<char>, Seq<char>> {
    Map::new(
        |k: Seq<char>| exists|i: int| 0 <= i < es.len() && #[trigger] es[i].0@ == k,
        |k: Seq<char>| es[choose|i: int| 0 <= i < es.len() && #[trigger] es[i].0@ == k].1@,
    )
}

/// Relies on serde_json's `Value` being a tree of null, booleans, numbers,
/// strings, arrays and string-keyed objects: each is carried over as the
/// matching `ConfigValue`, a number as an integer when it is one, else as the
/// decimal text of its float.
#[verifier::external_body]
fn tree_of(j: serde_json::Value) -> ConfigValue {
    match j {
        serde_json::Value::Null => ConfigValue::Null,
        serde_json::Value::Bool(b) => ConfigValue::Bool(b),
        serde_json::Value::Number(n) => match n.as_i64() {
            Some(i) => ConfigValue::Int64(i),
            None => ConfigValue::Float64(n.to_string()),
        },
        serde_json::Value::String(s) => ConfigValue::String(s),
        serde_json::Value::Array(a) => ConfigValue::Array(a.into_iter().map(tree_of).collect()),
        serde_json::Value::Object(o) => ConfigValue::Table(o.into_iter().map(|(k, v)| (k, tree_of(v))).collect()),
    }
}

/// Relies on serde_json::from_str: it reads a JSON document into a tree, or
/// fails with a message; the outcome depends on the text alone. An object is
/// a map, so its keys are distinct.
#[verifier::external_body]
pub(crate) fn parse_json(text: &str) -> (r: Result<ConfigValue, String>)
    ensures
        r is Ok <==> json_document(text@) is Some,
        r is Ok ==> r->Ok_0 == json_document(text@)->0,
        r matches Ok(ConfigValue::Table(es)) ==> keys_distinct(es@),
{
    serde_json::from_str::<serde_json::Value>(text).map(tree_of).map_err(|e| e.to_string())
}

/// Relies on toml::from_str: it reads a TOML document into a tree, or fails
/// with a message; the outcome depends on the text alone.
#[verifier::external_body]
pub(crate) fn parse_toml(text: &str) -> (r: Result<ConfigValue, String>)
    ensures
        r is Ok <==> toml_document(text@) is Some,
        r is Ok ==> r->Ok_0 == toml_document(text@)->0,
        r matches Ok(ConfigValue::Table(es)) ==> keys_distinct(es@),
{
    toml::from_str::<serde_json::Value>(text).map(tree_of).map_err(|e| e.to_string())
}

/// Relies on serde_yaml::from_str: it reads a YAML document into a tree, or
/// fails with a message; the outcome depends on the text alone.
#[verifier::external_body]
pub(crate) fn parse_yaml(text: &str) -> (r: Result<ConfigValue, String>)
    ensures
        r is Ok <==> yaml_document(text@) is Some,
        r is Ok ==> r->Ok_0 == yaml_document(text@)->0,
        r matches Ok(ConfigValue::Table(es)) ==> keys_distinct(es@),
{
    serde_yaml::from_str::<serde_json::Value>(text).map(tree_of).map_err(|e| e.to_string())
}

/// Relies on env_file_reader::read_str: it reads dotenv text into a map from
/// variable name to text, or fails with an `io::Error` that wraps its lexer's
/// `ParseError`, whose text is `ParseError`. The map depends on the text
/// alone; the order in which its pairs come out does not, so only the pairs
/// are stated.
#[verifier::external_body]
pub(crate) fn read_dotenv(text: &str) -> (r: Result<Vec<(String, String)>, String>)
    ensures
        r is Ok <==> dotenv_document(text@) is Some,
        r is Ok ==> names_distinct(r->Ok_0@) && pairs_map(r->Ok_0@) == dotenv_document(text@)->0,
        r is Err ==> r->Err_0@ == "ParseError"@,
{
    env_file_reader::read_str(text).map(|m| m.into_iter().collect()).map_err(|e| e.to_string())
}

} // verus!
