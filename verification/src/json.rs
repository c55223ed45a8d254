//! Reading single values out of JSON texts.

use vstd::prelude::*;
use vstd::string::*;
use crate::text;

verus! {

/// Whether a text is JSON.
pub uninterp spec fn is_json(s: Seq<char>) -> bool;

/// The string that a member of the object in a JSON text holds; none where the text is no JSON,
/// no object or has no such string.
pub uninterp spec fn member(json: Seq<char>, key: Seq<char>) -> Option<Seq<char>>;

/// The string that a member of a member of the object in a JSON text holds.
pub uninterp spec fn inner_member(json: Seq<char>, outer: Seq<char>, key: Seq<char>) -> Option<
    Seq<char>,
>;

/// The keys of the object in a JSON text, in order; none where the text is no JSON or no object.
pub uninterp spec fn keys(json: Seq<char>) -> Option<Seq<Seq<char>>>;

/// The strings that two members of each element of a list hold. The list is a member of the
/// object in a JSON text; where there is none it counts as empty. None where the text is no JSON.
pub uninterp spec fn table(json: Seq<char>, list: Seq<char>, a: Seq<char>, b: Seq<char>) -> Option<
    Seq<(Option<Seq<char>>, Option<Seq<char>>)>,
>;

/// What the parser has to say against a text that is no JSON.
pub uninterp spec fn complaint(json: Seq<char>) -> Seq<char>;

/// `serde_json::from_str`, then `serde_json::Value::get` and `serde_json::Value::as_str`: the
/// string under a key. It depends on the text and the key alone.
#[verifier::external_body]
pub(crate) fn read_member(json: &str, key: &str) -> (out: Option<String>)
    ensures
        text::opt_view(out) == member(json@, key@),
{
    let v: serde_json::Value = serde_json::from_str(json).ok()?;
    v.get(key)?.as_str().map(|s| s.to_string())
}

/// `serde_json::from_str`, then `serde_json::Value::get` twice and `serde_json::Value::as_str`:
/// the string under a key in the value under another. It depends on the text and the keys alone.
#[verifier::external_body]
pub(crate) fn read_inner_member(json: &str, outer: &str, key: &str) -> (out: Option<String>)
    ensures
        text::opt_view(out) == inner_member(json@, outer@, key@),
{
    let v: serde_json::Value = serde_json::from_str(json).ok()?;
    v.get(outer)?.get(key)?.as_str().map(|s| s.to_string())
}

/// The view of a list of strings that may be absent.
pub open spec fn opt_views(v: Option<Vec<String>>) -> Option<Seq<Seq<char>>> {
    match v {
        Some(list) => Some(text::views(list@)),
        None => None,
    }
}

/// `serde_json::from_str`, then `serde_json::Value::as_object` and `serde_json::Map::keys`: the
/// keys of an object, in the order in which the map walks them, which is that of the keys. They
/// depend on the text alone.
#[verifier::external_body]
pub(crate) fn read_keys(json: &str) -> (out: Option<Vec<String>>)
    ensures
        opt_views(out) == keys(json@),
{
    let v: serde_json::Value = serde_json::from_str(json).ok()?;
    Some(v.as_object()?.keys().cloned().collect())
}

/// The view of a list of pairs of strings that may be absent.
pub open spec fn pair_views(v: Seq<(Option<String>, Option<String>)>) -> Seq<
    (Option<Seq<char>>, Option<Seq<char>>),
> {
    v.map_values(
        |p: (Option<String>, Option<String>)| (text::opt_view(p.0), text::opt_view(p.1)),
    )
}

/// `serde_json::from_str`, then indexing with `list`, `serde_json::Value::as_array`, and of each
/// element indexing with `a` and `b` and `serde_json::Value::as_str`. It fails where the text is no
/// JSON. The pairs, and the complaint of the parser, depend on the arguments alone.
#[verifier::external_body]
pub(crate) fn read_table(json: &str, list: &str, a: &str, b: &str) -> (out: Result<
    Vec<(Option<String>, Option<String>)>,
    String,
>)
    ensures
        match out {
            Ok(rows) => is_json(json@) && table(json@, list@, a@, b@) == Some(pair_views(rows@)),
            Err(e) => {
                &&& !is_json(json@)
                &&& table(json@, list@, a@, b@) is None
                &&& e@ == complaint(json@)
            },
        },
{
    let v: serde_json::Value = serde_json::from_str(json).map_err(|e| e.to_string())?;
    let text = |x: &serde_json::Value, k: &str| x[k].as_str().map(|s| s.to_string());
    let rows = v[list].as_array().map(|r| r.iter().map(|x| (text(x, a), text(x, b))).collect());
    Ok(rows.unwrap_or_default())
}

/// A text as a string of JSON, with its quotation marks.
pub uninterp spec fn quoted(s: Seq<char>) -> Seq<char>;

/// `serde_json::to_string` of a text, which never fails: the text as a string of JSON, which is
/// JSON itself. It depends on the text alone; it begins and ends in a quotation mark.
#[verifier::external_body]
pub(crate) fn quote(s: &str) -> (out: String)
    ensures
        out@ == quoted(s@),
        is_json(out@),
        out@.len() >= 2 && out@[0] == '"' && out@.last() == '"',
{
    serde_json::to_string(s).unwrap_or_else(|_| "\"\"".to_string())
}

/// `serde_json::from_str` into a `serde_json::Value`: whether a text is JSON. It depends on the
/// text alone.
#[verifier::external_body]
pub(crate) fn parses(s: &str) -> (out: bool)
    ensures
        out == is_json(s@),
{
    serde_json::from_str::<serde_json::Value>(s).is_ok()
}

/// The members of the object in a JSON text, in the order of their keys: the key, the string that
/// the value is, if it is one, and the value as JSON. None where the text is no JSON or no object.
pub uninterp spec fn members(json: Seq<char>) -> Option<
    Seq<(Seq<char>, Option<Seq<char>>, Seq<char>)>,
>;

/// The view of a list of members.
pub open spec fn member_views(v: Seq<(String, Option<String>, String)>) -> Seq<
    (Seq<char>, Option<Seq<char>>, Seq<char>),
> {
    v.map_values(|m: (String, Option<String>, String)| (m.0@, text::opt_view(m.1), m.2@))
}

/// `serde_json::from_str`, then `serde_json::Value::as_object` and walking the map; of each value
/// `serde_json::Value::as_str` and its text as `serde_json::Value` prints it, which is JSON. They
/// depend on the text alone.
#[verifier::external_body]
pub(crate) fn read_members(json: &str) -> (out: Option<Vec<(String, Option<String>, String)>>)
    ensures
        match out {
            Some(list) => {
                &&& members(json@) == Some(member_views(list@))
                &&& forall|i: int| 0 <= i < list@.len() ==> is_json((#[trigger] list@[i]).2@)
            },
            None => members(json@) is None,
        },
{
    let v: serde_json::Value = serde_json::from_str(json).ok()?;
    let text = |x: &serde_json::Value| x.as_str().map(|s| s.to_string());
    Some(v.as_object()?.iter().map(|(k, x)| (k.clone(), text(x), x.to_string())).collect())
}

} // verus!
