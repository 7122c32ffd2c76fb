//! The members of a settings file, read with `serde_json`.
use std::collections::BTreeMap;

use serde_json::value::RawValue;
use vstd::prelude::*;
use vstd::utf8::{encode_utf8, encode_utf8_decode_utf8};

use crate::order::{bytes_less, bytes_order, lemma_bytes_order};
use crate::order::{compare_bytes, Comparison};

verus! {

/// The error of `serde_json`, carried to the caller as it is.
#[verifier::external_type_specification]
#[verifier::external_body]
pub struct ExJsonError(serde_json::Error);

/// What `serde_json::from_str` makes of `json` as a map from borrowed string keys to raw values:
/// each member's key with the text of its value, or `None` where it reports an error.
pub uninterp spec fn json_object(json: Seq<char>) -> Option<Map<Seq<char>, Seq<char>>>;

/// The order of strings: lexicographic by the bytes of their UTF-8 encoding.
pub open spec fn str_less(a: Seq<char>, b: Seq<char>) -> bool {
    bytes_less(encode_utf8(a), encode_utf8(b))
}

/// Strings are strictly and totally ordered.
pub proof fn lemma_str_order(a: Seq<char>, b: Seq<char>, c: Seq<char>)
    ensures
        !str_less(a, a),
        a == b || str_less(a, b) || str_less(b, a),
        str_less(a, b) && str_less(b, c) ==> str_less(a, c),
        encode_utf8(a) == encode_utf8(b) ==> a == b,
{
    encode_utf8_decode_utf8(a);
    encode_utf8_decode_utf8(b);
    lemma_bytes_order();
    let (x, y, z) = (encode_utf8(a), encode_utf8(b), encode_utf8(c));
    assert(bytes_order()(x, y) == bytes_less(x, y));
    assert(bytes_order()(y, x) == bytes_less(y, x));
    assert(bytes_order()(y, z) == bytes_less(y, z));
    assert(!bytes_order()(x, x));
    assert(bytes_order()(x, y) && bytes_order()(y, z) ==> bytes_order()(x, z));
}

/// Compares two strings.
pub fn compare_str(a: &str, b: &str) -> (result: Comparison)
    ensures
        result == (if a@ == b@ {
            Comparison::Equal
        } else if str_less(a@, b@) {
            Comparison::Less
        } else {
            Comparison::Greater
        }),
        result is Greater <==> str_less(b@, a@),
{
    proof {
        lemma_str_order(a@, b@, a@);
    }
    compare_bytes(a.as_bytes(), b.as_bytes())
}

/// The keys of `entries` are in strictly ascending order.
pub open spec fn keys_ascending(entries: Seq<(String, String)>) -> bool {
    forall|i: int, j: int|
        0 <= i < j < entries.len() ==> str_less((#[trigger] entries[i]).0@, (#[trigger] entries[j]).0@)
}

/// `entries` has an entry for `key` at position `i`.
pub open spec fn has_key_at(entries: Seq<(String, String)>, key: Seq<char>, i: int) -> bool {
    0 <= i < entries.len() && entries[i].0@ == key
}

/// `entries` as a map.
pub open spec fn members_of(entries: Seq<(String, String)>) -> Map<Seq<char>, Seq<char>> {
    Map::new(
        |key: Seq<char>| exists|i: int| has_key_at(entries, key, i),
        |key: Seq<char>| entries[choose|i: int| has_key_at(entries, key, i)].1@,
    )
}

/// In ascending entries each member's text is the one at the position of its key.
pub proof fn lemma_members(entries: Seq<(String, String)>, i: int)
    requires
        keys_ascending(entries),
        0 <= i < entries.len(),
    ensures
        members_of(entries).contains_key(entries[i].0@),
        members_of(entries)[entries[i].0@] == entries[i].1@,
{
    let key = entries[i].0@;
    assert(has_key_at(entries, key, i));
    let k = choose|k: int| has_key_at(entries, key, k);
    lemma_str_order(key, key, key);
    if k < i {
        assert(str_less(entries[k].0@, entries[i].0@));
    } else if i < k {
        assert(str_less(entries[i].0@, entries[k].0@));
    }
}

/// Parses a JSON object with `serde_json::from_str` into a `BTreeMap` from borrowed keys to raw
/// values, and hands out its entries.
///
/// The contract claims that whether this succeeds, and what the members are, depends on the text
/// alone, and that the entries come in the ascending key order in which a `BTreeMap` is iterated.
#[verifier::external_body]
pub(crate) fn parse_object(json: &str) -> (result: Result<Vec<(String, String)>, serde_json::Error>)
    ensures
        match result {
            Ok(entries) => {
                &&& json_object(json@) == Some(members_of(entries@))
                &&& keys_ascending(entries@)
            },
            Err(_) => json_object(json@) is None,
        },
{
    let members: BTreeMap<&str, &RawValue> = serde_json::from_str(json)?;
    Ok(members.into_iter().map(|(key, value)| (key.to_string(), value.get().to_string())).collect())
}

} // verus!
