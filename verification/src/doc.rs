//! Reading JSON and TOML texts. A text is parsed one level deep: a table's
//! members and an array's items are kept as text (compact, as the parser
//! prints them), and are read again when the logic looks inside them.

use vstd::prelude::*;
use crate::model::lookup;
use crate::text::str_eq;

verus! {

/// A parsed value, one level deep.
pub enum Parsed {
    /// A table / object: each member's key and value text, in the order the
    /// parser keeps them.
    Table(Vec<Entry>),
    /// An array: each item's text.
    Array(Vec<String>),
    Str(String),
    /// Any other value (null, a boolean, a number, a date).
    Other,
}

pub struct Entry {
    pub key: String,
    pub text: String,
}

pub enum ParsedView {
    Table(Seq<(Seq<char>, Seq<char>)>),
    Array(Seq<Seq<char>>),
    Str(Seq<char>),
    Other,
}

impl View for Parsed {
    type V = ParsedView;

    open spec fn view(&self) -> ParsedView {
        match self {
            Parsed::Table(es) => ParsedView::Table(
                es@.map_values(|e: Entry| (e.key@, e.text@)),
            ),
            Parsed::Array(v) => ParsedView::Array(v@.map_values(|s: String| s@)),
            Parsed::Str(s) => ParsedView::Str(s@),
            Parsed::Other => ParsedView::Other,
        }
    }
}

/// What `serde_json` parses a JSON text into (`None` when it rejects it).
pub uninterp spec fn json_value(text: Seq<char>) -> Option<ParsedView>;

/// What `toml` parses a TOML document into (`None` when it rejects it).
pub uninterp spec fn toml_document(text: Seq<char>) -> Option<ParsedView>;

/// What `toml` parses a single TOML value (such as an inline table) into.
pub uninterp spec fn toml_value(text: Seq<char>) -> Option<ParsedView>;

/// `serde_json::from_str::<serde_json::Value>`, one level deep; each member
/// or item is kept as its `Display` (compact JSON) text. The contract only
/// names the result.
#[verifier::external_body]
pub(crate) fn parse_json(text: &str) -> (r: Option<Parsed>)
    ensures
        r matches Some(p) ==> json_value(text@) == Some(p@),
        r is None ==> json_value(text@) is None,
{
    match serde_json::from_str::<serde_json::Value>(text) {
        Ok(serde_json::Value::Object(m)) => Some(
            Parsed::Table(m.iter().map(|(k, v)| Entry { key: k.clone(), text: v.to_string() }).collect()),
        ),
        Ok(serde_json::Value::Array(a)) => Some(Parsed::Array(a.iter().map(|v| v.to_string()).collect())),
        Ok(serde_json::Value::String(s)) => Some(Parsed::Str(s)),
        Ok(_) => Some(Parsed::Other),
        Err(_) => None,
    }
}

/// `str::parse::<toml::Value>` (a whole document), one level deep; each
/// member or item is kept as its `Display` (inline TOML) text. The contract
/// only names the result.
#[verifier::external_body]
pub(crate) fn parse_toml_document(text: &str) -> (r: Option<Parsed>)
    ensures
        r matches Some(p) ==> toml_document(text@) == Some(p@),
        r is None ==> toml_document(text@) is None,
{
    match text.parse::<toml::Value>() {
        Ok(toml::Value::Table(t)) => Some(
            Parsed::Table(t.iter().map(|(k, v)| Entry { key: k.clone(), text: v.to_string() }).collect()),
        ),
        Ok(toml::Value::Array(a)) => Some(Parsed::Array(a.iter().map(|v| v.to_string()).collect())),
        Ok(toml::Value::String(s)) => Some(Parsed::Str(s)),
        Ok(_) => Some(Parsed::Other),
        Err(_) => None,
    }
}

/// `toml::Value::deserialize(toml::de::ValueDeserializer::new(text))` (one
/// value, such as an inline table), one level deep like
/// `parse_toml_document`. The contract only names the result.
#[verifier::external_body]
pub(crate) fn parse_toml_value(text: &str) -> (r: Option<Parsed>)
    ensures
        r matches Some(p) ==> toml_value(text@) == Some(p@),
        r is None ==> toml_value(text@) is None,
{
    match <toml::Value as serde::Deserialize>::deserialize(toml::de::ValueDeserializer::new(text)) {
        Ok(toml::Value::Table(t)) => Some(
            Parsed::Table(t.iter().map(|(k, v)| Entry { key: k.clone(), text: v.to_string() }).collect()),
        ),
        Ok(toml::Value::Array(a)) => Some(Parsed::Array(a.iter().map(|v| v.to_string()).collect())),
        Ok(toml::Value::String(s)) => Some(Parsed::Str(s)),
        Ok(_) => Some(Parsed::Other),
        Err(_) => None,
    }
}

/// The text of member `k` of a table.
pub open spec fn member_text(p: Option<ParsedView>, k: Seq<char>) -> Option<Seq<char>> {
    match p {
        Some(ParsedView::Table(es)) => lookup(es, k),
        _ => None,
    }
}

/// The members of a table (nothing for anything else).
pub open spec fn entries_of(p: Option<ParsedView>) -> Seq<(Seq<char>, Seq<char>)> {
    match p {
        Some(ParsedView::Table(es)) => es,
        _ => seq![],
    }
}

/// The keys of a table, in order (nothing for anything else).
pub open spec fn keys_of(p: Option<ParsedView>) -> Seq<Seq<char>> {
    entries_of(p).map_values(|e: (Seq<char>, Seq<char>)| e.0)
}

/// The item texts of an array (nothing for anything else).
pub open spec fn items_of(p: Option<ParsedView>) -> Seq<Seq<char>> {
    match p {
        Some(ParsedView::Array(v)) => v,
        _ => seq![],
    }
}

/// The string a value is, if it is one.
pub open spec fn str_of(p: Option<ParsedView>) -> Option<Seq<char>> {
    match p {
        Some(ParsedView::Str(s)) => Some(s),
        _ => None,
    }
}

/// A JSON text, if any, parsed.
pub open spec fn json_at(t: Option<Seq<char>>) -> Option<ParsedView> {
    match t {
        Some(x) => json_value(x),
        None => None,
    }
}

/// A TOML value text, if any, parsed.
pub open spec fn toml_at(t: Option<Seq<char>>) -> Option<ParsedView> {
    match t {
        Some(x) => toml_value(x),
        None => None,
    }
}

/// The views of an optional parsed value.
pub open spec fn parsed_view(p: Option<&Parsed>) -> Option<ParsedView> {
    match p {
        Some(x) => Some(x@),
        None => None,
    }
}

/// The text of member `key` of a table.
pub fn member<'a>(p: Option<&'a Parsed>, key: &str) -> (r: Option<&'a String>)
    ensures
        match r {
            Some(t) => member_text(parsed_view(p), key@) == Some(t@),
            None => member_text(parsed_view(p), key@) is None,
        },
{
    match p {
        Some(Parsed::Table(es)) => {
            let ghost v = match parsed_view(p) {
                Some(ParsedView::Table(t)) => t,
                _ => seq![],
            };
            assert(v.len() == es@.len());
            let mut i: usize = 0;
            while i < es.len()
                invariant
                    parsed_view(p) == Some(ParsedView::Table(v)),
                    v.len() == es@.len(),
                    forall|j: int| 0 <= j < v.len() ==> #[trigger] v[j] == (es@[j].key@, es@[j].text@),
                    i <= es@.len(),
                    forall|j: int| 0 <= j < i ==> v[j].0 != key@,
                decreases es@.len() - i,
            {
                if str_eq(es[i].key.as_str(), key) {
                    proof {
                        assert(v[i as int] == (es@[i as int].key@, es@[i as int].text@));
                        crate::model::lemma_key_index_at(v, key@, i as int);
                    }
                    return Some(&es[i].text);
                }
                assert(v[i as int] == (es@[i as int].key@, es@[i as int].text@));
                i += 1;
            }
            proof {
                crate::model::lemma_key_index(v, key@);
            }
            None
        },
        _ => None,
    }
}

/// A JSON text, if any, parsed.
pub fn json_opt(t: Option<&String>) -> (r: Option<Parsed>)
    ensures
        match r {
            Some(p) => json_at(match t {
                Some(x) => Some(x@),
                None => None,
            }) == Some(p@),
            None => json_at(match t {
                Some(x) => Some(x@),
                None => None,
            }) is None,
        },
{
    match t {
        Some(x) => parse_json(x.as_str()),
        None => None,
    }
}

/// A TOML value text, if any, parsed.
pub fn toml_opt(t: Option<&String>) -> (r: Option<Parsed>)
    ensures
        match r {
            Some(p) => toml_at(match t {
                Some(x) => Some(x@),
                None => None,
            }) == Some(p@),
            None => toml_at(match t {
                Some(x) => Some(x@),
                None => None,
            }) is None,
        },
{
    match t {
        Some(x) => parse_toml_value(x.as_str()),
        None => None,
    }
}

} // verus!
