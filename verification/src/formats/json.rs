//! JSON values, as serde_json reads them. A value inside another is handed on as
//! its JSON text, and an error as its wording.

use vstd::prelude::*;
use vstd::utf8::encode_utf8;

verus! {

/// The members of the object that a JSON text holds, ordered by name, each value
/// as its JSON text; or why the text is not a JSON object.
pub uninterp spec fn json_object(json: Seq<u8>) -> Result<
    Seq<(Seq<char>, Seq<char>)>,
    Seq<char>,
>;

/// The members of a value that is an object, ordered by name, each value as its
/// JSON text; or why it is none.
pub uninterp spec fn value_object(json: Seq<char>) -> Result<
    Seq<(Seq<char>, Seq<char>)>,
    Seq<char>,
>;

/// The items of a value that is an array, each as its JSON text; or why it is none.
pub uninterp spec fn value_array(json: Seq<char>) -> Result<Seq<Seq<char>>, Seq<char>>;

/// The string that a value is; or why it is none.
pub uninterp spec fn value_string(json: Seq<char>) -> Result<Seq<char>, Seq<char>>;

/// The numbers of a value that is an array of integers that fit a `u64`; or why it
/// is none.
pub uninterp spec fn value_numbers(json: Seq<char>) -> Result<Seq<u64>, Seq<char>>;

/// The numbers of a value that is an array of two integers that fit a `u64`; or why
/// it is none.
pub uninterp spec fn value_pair(json: Seq<char>) -> Result<(u64, u64), Seq<char>>;

/// The models of a list of members.
pub open spec fn members_view(s: Seq<(String, String)>) -> Seq<(Seq<char>, Seq<char>)> {
    s.map_values(|m: (String, String)| (m.0@, m.1@))
}

/// The models of a list of texts.
pub open spec fn items_view(s: Seq<String>) -> Seq<Seq<char>> {
    s.map_values(|t: String| t@)
}

/// Whether bytes `a` come before bytes `b`, compared byte by byte.
pub open spec fn bytes_before(a: Seq<u8>, b: Seq<u8>) -> bool
    decreases a.len(),
{
    if b.len() == 0 {
        false
    } else if a.len() == 0 {
        true
    } else if a[0] == b[0] {
        bytes_before(a.skip(1), b.skip(1))
    } else {
        a[0] < b[0]
    }
}

/// Whether text `a` comes before text `b`: texts are compared by their bytes in
/// UTF-8.
pub open spec fn text_before(a: Seq<char>, b: Seq<char>) -> bool {
    bytes_before(encode_utf8(a), encode_utf8(b))
}

/// Whether members stand in the order of their names, no two of which are the same.
pub open spec fn by_name(m: Seq<(Seq<char>, Seq<char>)>) -> bool {
    forall|i: int, j: int|
        0 <= i < j < m.len() ==> text_before(#[trigger] m[i].0, #[trigger] m[j].0)
}

/// `serde_json::from_slice` into a map from names to values: what it gives, and the
/// wording of its error, depend on the text alone. The map is handed on in the order
/// in which it is walked, that of the names, of which none stands twice; each value is
/// handed on as its JSON text.
#[verifier::external_body]
pub(crate) fn object_members(json: &[u8]) -> (r: Result<Vec<(String, String)>, String>)
    ensures
        match r {
            Ok(m) => json_object(json@) == Ok::<Seq<(Seq<char>, Seq<char>)>, Seq<char>>(
                members_view(m@),
            ) && by_name(members_view(m@)),
            Err(e) => json_object(json@) == Err::<Seq<(Seq<char>, Seq<char>)>, Seq<char>>(e@),
        },
{
    let map: std::collections::BTreeMap<String, serde_json::Value> =
        serde_json::from_slice(json).map_err(|e| e.to_string())?;
    Ok(map.into_iter().map(|m| (m.0, m.1.to_string())).collect())
}

/// `serde_json::from_value` of the value that a JSON text holds into a map from names
/// to values: what it gives, and the wording of its error, depend on the text alone.
/// The map is handed on in the order in which it is walked, that of the names, of which
/// none stands twice; each value is handed on as its JSON text.
#[verifier::external_body]
pub(crate) fn members_of(json: &str) -> (r: Result<Vec<(String, String)>, String>)
    ensures
        match r {
            Ok(m) => value_object(json@) == Ok::<Seq<(Seq<char>, Seq<char>)>, Seq<char>>(
                members_view(m@),
            ) && by_name(members_view(m@)),
            Err(e) => value_object(json@) == Err::<Seq<(Seq<char>, Seq<char>)>, Seq<char>>(e@),
        },
{
    let map: std::collections::BTreeMap<String, serde_json::Value> =
        serde_json::from_str(json).and_then(serde_json::from_value).map_err(|e| e.to_string())?;
    Ok(map.into_iter().map(|m| (m.0, m.1.to_string())).collect())
}

/// `serde_json::from_value` of the value that a JSON text holds into a list of values:
/// what it gives, and the wording of its error, depend on the text alone. Each value is
/// handed on as its JSON text.
#[verifier::external_body]
pub(crate) fn items_of(json: &str) -> (r: Result<Vec<String>, String>)
    ensures
        match r {
            Ok(items) => value_array(json@) == Ok::<Seq<Seq<char>>, Seq<char>>(items_view(items@)),
            Err(e) => value_array(json@) == Err::<Seq<Seq<char>>, Seq<char>>(e@),
        },
{
    let items: Vec<serde_json::Value> =
        serde_json::from_str(json).and_then(serde_json::from_value).map_err(|e| e.to_string())?;
    Ok(items.into_iter().map(|v| v.to_string()).collect())
}

/// `serde_json::from_value` of the value that a JSON text holds into a `String`: what
/// it gives, and the wording of its error, depend on the text alone.
#[verifier::external_body]
pub(crate) fn string_of(json: &str) -> (r: Result<String, String>)
    ensures
        match r {
            Ok(s) => value_string(json@) == Ok::<Seq<char>, Seq<char>>(s@),
            Err(e) => value_string(json@) == Err::<Seq<char>, Seq<char>>(e@),
        },
{
    serde_json::from_str(json).and_then(serde_json::from_value).map_err(|e| e.to_string())
}

/// `serde_json::from_value` of the value that a JSON text holds into a list of `u64`:
/// what it gives, and the wording of its error, depend on the text alone.
#[verifier::external_body]
pub(crate) fn numbers_of(json: &str) -> (r: Result<Vec<u64>, String>)
    ensures
        match r {
            Ok(v) => value_numbers(json@) == Ok::<Seq<u64>, Seq<char>>(v@),
            Err(e) => value_numbers(json@) == Err::<Seq<u64>, Seq<char>>(e@),
        },
{
    serde_json::from_str(json).and_then(serde_json::from_value).map_err(|e| e.to_string())
}

/// `serde_json::from_value` of the value that a JSON text holds into an array of two
/// `u64`: what it gives, and the wording of its error, depend on the text alone.
#[verifier::external_body]
pub(crate) fn pair_of(json: &str) -> (r: Result<(u64, u64), String>)
    ensures
        match r {
            Ok(p) => value_pair(json@) == Ok::<(u64, u64), Seq<char>>(p),
            Err(e) => value_pair(json@) == Err::<(u64, u64), Seq<char>>(e@),
        },
{
    let pair: [u64; 2] =
        serde_json::from_str(json).and_then(serde_json::from_value).map_err(|e| e.to_string())?;
    Ok((pair[0], pair[1]))
}

} // verus!
