//! Reading fields of JSON texts.

use vstd::prelude::*;

verus! {

/// What a value holds, where it is a text.
pub open spec fn text_view(t: Option<String>) -> Option<Seq<char>> {
    match t {
        Some(s) => Some(s@),
        None => None,
    }
}

/// Pairs of texts.
pub open spec fn pair_views(v: Seq<(Option<String>, Option<String>)>) -> Seq<
    (Option<Seq<char>>, Option<Seq<char>>),
> {
    Seq::new(v.len(), |i: int| (text_view(v[i].0), text_view(v[i].1)))
}

/// Names with texts.
pub open spec fn entry_views(v: Seq<(String, Option<String>)>) -> Seq<
    (Seq<char>, Option<Seq<char>>),
> {
    Seq::new(v.len(), |i: int| (v[i].0@, text_view(v[i].1)))
}

/// What `serde_json` says is wrong with a text; nothing where it is valid.
pub uninterp spec fn json_fault(text: Seq<char>) -> Option<Seq<char>>;

/// Calls `serde_json::from_str` for a `serde_json::Value` and, where it fails, `to_string` on the
/// error. The result depends on the text alone; what the messages say is not stated.
#[verifier::external_body]
pub(crate) fn json_error(text: &str) -> (r: Option<String>)
    ensures
        text_view(r) == json_fault(text@),
{
    serde_json::from_str::<serde_json::Value>(text).err().map(|e| e.to_string())
}

/// The text under a key of the object that a JSON text holds.
pub uninterp spec fn json_text_of(text: Seq<char>, key: Seq<char>) -> Option<Seq<char>>;

/// Calls `serde_json::from_str`, indexes the value with a key and calls
/// `serde_json::Value::as_str`. Nothing comes back where the text is not valid, holds no object,
/// has no such key, or has something else than a text under it.
#[verifier::external_body]
pub(crate) fn json_text(text: &str, key: &str) -> (r: Option<String>)
    ensures
        text_view(r) == json_text_of(text@, key@),
{
    let v: serde_json::Value = serde_json::from_str(text).ok()?;
    v[key].as_str().map(|s| s.to_string())
}

/// The number under a key of the object that a JSON text holds.
pub uninterp spec fn json_number_of(text: Seq<char>, key: Seq<char>) -> Option<u64>;

/// Calls `serde_json::from_str`, indexes the value with a key and calls
/// `serde_json::Value::as_u64`. Nothing comes back where there is no whole number of 64 bits
/// without sign.
#[verifier::external_body]
pub(crate) fn json_number(text: &str, key: &str) -> (r: Option<u64>)
    ensures
        r == json_number_of(text@, key@),
{
    let v: serde_json::Value = serde_json::from_str(text).ok()?;
    v[key].as_u64()
}

/// The texts under two keys of each object of the list that is under a key of the object that a
/// JSON text holds.
pub uninterp spec fn json_pairs_of(
    text: Seq<char>,
    list: Seq<char>,
    a: Seq<char>,
    b: Seq<char>,
) -> Option<Seq<(Option<Seq<char>>, Option<Seq<char>>)>>;

/// Calls `serde_json::from_str`, indexes the value with a key, calls
/// `serde_json::Value::as_array`, and reads two texts of each entry with `as_str`. Nothing comes
/// back where there is no list.
#[verifier::external_body]
pub(crate) fn json_pairs(text: &str, list: &str, a: &str, b: &str) -> (r: Option<
    Vec<(Option<String>, Option<String>)>,
>)
    ensures
        match r {
            Some(v) => json_pairs_of(text@, list@, a@, b@) == Some(pair_views(v@)),
            None => json_pairs_of(text@, list@, a@, b@) is None,
        },
{
    let v: serde_json::Value = serde_json::from_str(text).ok()?;
    let field = |m: &serde_json::Value, k: &str| m[k].as_str().map(|s| s.to_string());
    Some(v[list].as_array()?.iter().map(|m| (field(m, a), field(m, b))).collect())
}

/// The names and texts of the object that is under a key of the object that a JSON text holds.
pub uninterp spec fn json_entries_of(text: Seq<char>, key: Seq<char>) -> Option<
    Seq<(Seq<char>, Option<Seq<char>>)>,
>;

/// Calls `serde_json::from_str`, `serde_json::Value::get` and `as_object`, and reads each entry of
/// the object with `as_str`. No name occurs twice. Nothing comes back where there is no such
/// object.
#[verifier::external_body]
pub(crate) fn json_entries(text: &str, key: &str) -> (r: Option<Vec<(String, Option<String>)>>)
    ensures
        match r {
            Some(v) => {
                &&& json_entries_of(text@, key@) == Some(entry_views(v@))
                &&& forall|i: int, j: int|
                    0 <= i < j < v@.len() ==> (#[trigger] v@[i]).0@ != (#[trigger] v@[j]).0@
            },
            None => json_entries_of(text@, key@) is None,
        },
{
    let v: serde_json::Value = serde_json::from_str(text).ok()?;
    let m = v.get(key)?.as_object()?;
    Some(m.iter().map(|(k, x)| (k.clone(), x.as_str().map(|s| s.to_string()))).collect())
}

/// Names with texts that are always there.
pub open spec fn member_views(v: Seq<(String, String)>) -> Seq<(Seq<char>, Seq<char>)> {
    Seq::new(v.len(), |i: int| (v[i].0@, v[i].1@))
}

/// The names and values of the object that is under a key of the object that a JSON text holds,
/// each value as a JSON text of its own.
pub uninterp spec fn json_members_of(text: Seq<char>, key: Seq<char>) -> Option<
    Seq<(Seq<char>, Seq<char>)>,
>;

/// Calls `serde_json::from_str`, `serde_json::Value::get` and `as_object`, and writes each value of
/// the object as a JSON text with `to_string`. No name occurs twice. Nothing comes back where
/// there is no such object.
#[verifier::external_body]
pub(crate) fn json_members(text: &str, key: &str) -> (r: Option<Vec<(String, String)>>)
    ensures
        match r {
            Some(v) => {
                &&& json_members_of(text@, key@) == Some(member_views(v@))
                &&& forall|i: int, j: int|
                    0 <= i < j < v@.len() ==> (#[trigger] v@[i]).0@ != (#[trigger] v@[j]).0@
            },
            None => json_members_of(text@, key@) is None,
        },
{
    let v: serde_json::Value = serde_json::from_str(text).ok()?;
    let m = v.get(key)?.as_object()?;
    Some(m.iter().map(|(k, x)| (k.clone(), x.to_string())).collect())
}

} // verus!
