//! Configuration updates: the JSON form the embedder hands in, and the
//! merge semantics applied to a plugin's configuration map.
//!
//! An update maps string keys to either a replacement value or `null`; a
//! value inserts or overwrites, `null` removes. The JSON parse itself is an
//! external collaborator; the merge is verified.

use vstd::prelude::*;

verus! {

/// The key/value updates a JSON object of optional strings denotes, or
/// `None` where the bytes are not such an object. The result depends on the
/// bytes alone.
pub uninterp spec fn json_config_of(bytes: Seq<u8>) -> Option<Seq<(Seq<u8>, Option<Seq<u8>>)>>;

/// The byte views of a list of parsed updates.
pub open spec fn updates_view(s: Seq<(Vec<u8>, Option<Vec<u8>>)>) -> Seq<
    (Seq<u8>, Option<Seq<u8>>),
> {
    s.map_values(
        |u: (Vec<u8>, Option<Vec<u8>>)|
            (
                u.0@,
                match u.1 {
                    Some(v) => Some(v@),
                    None => None::<Seq<u8>>,
                },
            ),
    )
}

/// One update applied to a configuration map: a value inserts or
/// overwrites, `None` removes the key.
pub open spec fn apply_update(m: Map<Seq<u8>, Seq<u8>>, u: (Seq<u8>, Option<Seq<u8>>)) -> Map<
    Seq<u8>,
    Seq<u8>,
> {
    match u.1 {
        Some(v) => m.insert(u.0, v),
        None => m.remove(u.0),
    }
}

/// A list of updates applied in order.
pub open spec fn apply_updates(
    m: Map<Seq<u8>, Seq<u8>>,
    ups: Seq<(Seq<u8>, Option<Seq<u8>>)>,
) -> Map<Seq<u8>, Seq<u8>>
    decreases ups.len(),
{
    if ups.len() == 0 {
        m
    } else {
        apply_update(apply_updates(m, ups.drop_last()), ups.last())
    }
}

/// Relies on serde_json::from_slice: the bytes parse as a JSON object of
/// strings and nulls exactly when a map of optional strings deserializes
/// from them, and the parse is a function of the bytes alone. Keys and
/// values are handed on as their UTF-8 bytes.
#[verifier::external_body]
pub(crate) fn parse_config_json(data: &[u8]) -> (r: Option<Vec<(Vec<u8>, Option<Vec<u8>>)>>)
    ensures
        r is Some <==> json_config_of(data@) is Some,
        r matches Some(v) ==> Some(updates_view(v@)) == json_config_of(data@),
{
    let parsed: std::collections::BTreeMap<String, Option<String>> =
        match serde_json::from_slice(data) {
            Ok(m) => m,
            Err(_) => return None,
        };
    Some(parsed.into_iter().map(|(k, v)| (k.into_bytes(), v.map(String::into_bytes))).collect())
}

} // verus!
