//! Bencode values as JSON values of the `serde_json` crate, for showing them.
//!
//! The JSON values are made by `serde_json`. What it makes is not looked into
//! here: the four ways in which it makes a value from parts have names, and the
//! conversion is proved to put a bencode tree together out of them part by
//! part.

use crate::bencode::value::{
    entries_view, items_view, lemma_dict_view, lemma_list_view, Bencode, Tree,
};
use crate::text::{lossy_string, texts, utf8_lossy};
use vstd::prelude::*;

verus! {

/// `serde_json::Value`, a JSON value. Nothing of its inside is known here.
#[verifier::external_type_specification]
#[verifier::external_body]
pub struct ExJsonValue(serde_json::Value);

/// The JSON number that `serde_json` makes of an integer.
pub uninterp spec fn json_number(n: i64) -> serde_json::Value;

/// The JSON string that `serde_json` makes of a text.
pub uninterp spec fn json_text(s: Seq<char>) -> serde_json::Value;

/// The JSON array that `serde_json` makes of values.
pub uninterp spec fn json_array(items: Seq<serde_json::Value>) -> serde_json::Value;

/// The JSON object that `serde_json` makes of names and values, the first name
/// with the first value and so on.
pub uninterp spec fn json_object(
    names: Seq<Seq<char>>,
    values: Seq<serde_json::Value>,
) -> serde_json::Value;

/// `From<i64> for serde_json::Value`: the number `n`.
#[verifier::external_body]
pub(crate) fn json_from_i64(n: i64) -> (v: serde_json::Value)
    ensures
        v == json_number(n),
{
    serde_json::Value::from(n)
}

/// `From<String> for serde_json::Value`: the string `s`.
#[verifier::external_body]
pub(crate) fn json_from_string(s: String) -> (v: serde_json::Value)
    ensures
        v == json_text(s@),
{
    serde_json::Value::from(s)
}

/// `From<Vec<T>> for serde_json::Value` with JSON values for `T`: the array of
/// the values in their order.
#[verifier::external_body]
pub(crate) fn json_from_vec(items: Vec<serde_json::Value>) -> (v: serde_json::Value)
    ensures
        v == json_array(items@),
{
    serde_json::Value::from(items)
}

/// `FromIterator<(String, Value)> for serde_json::Map`, and the object of that
/// map: the object that holds each value under its name. What it is depends on
/// the names and values alone.
#[verifier::external_body]
pub(crate) fn json_from_entries(names: Vec<String>, values: Vec<serde_json::Value>) -> (v:
    serde_json::Value)
    ensures
        v == json_object(texts(names@), values@),
{
    serde_json::Value::Object(names.into_iter().zip(values).collect())
}

/// The JSON value that stands for a bencode value: a byte string is the string
/// of its text, with the replacement character where it is no UTF-8; an integer
/// is a number; a list is an array; a dictionary is an object, the keys being
/// texts as byte strings are.
pub open spec fn json_of(v: Tree) -> serde_json::Value
    decreases v, 1nat,
{
    match v {
        Tree::Bytes(b) => json_text(utf8_lossy(b)),
        Tree::Integer(i) => json_number(i),
        Tree::List(items) => json_array(json_of_all(items)),
        Tree::Dict(entries) => json_object(names_of(entries), json_of_values(entries)),
    }
}

/// The JSON values of a sequence of bencode values.
pub open spec fn json_of_all(items: Seq<Tree>) -> Seq<serde_json::Value>
    decreases items, 0nat,
{
    Seq::new(
        items.len(),
        |i: int|
            if 0 <= i < items.len() {
                json_of(items[i])
            } else {
                json_number(0)
            },
    )
}

/// The keys of the entries as texts.
pub open spec fn names_of(entries: Seq<(Seq<u8>, Tree)>) -> Seq<Seq<char>> {
    Seq::new(entries.len(), |i: int| utf8_lossy(entries[i].0))
}

/// The JSON values of the values of the entries.
pub open spec fn json_of_values(entries: Seq<(Seq<u8>, Tree)>) -> Seq<serde_json::Value>
    decreases entries, 0nat,
{
    Seq::new(
        entries.len(),
        |i: int|
            if 0 <= i < entries.len() {
                json_of(entries[i].1)
            } else {
                json_number(0)
            },
    )
}

/// The JSON array of a list of bencode values.
#[verifier::loop_isolation(false)]
fn convert_list(list: &Vec<Bencode>) -> (v: serde_json::Value)
    ensures
        v == json_of(Tree::List(items_view(list@))),
    decreases list, 0nat,
{
    let ghost models = items_view(list@);
    let mut items: Vec<serde_json::Value> = Vec::new();
    let mut i: usize = 0;
    while i < list.len()
        invariant
            i <= list@.len(),
            items@.len() == i,
            forall|k: int| 0 <= k < i ==> #[trigger] items@[k] == json_of(models[k]),
        decreases list@.len() - i,
    {
        assert(models[i as int] == list@[i as int]@);
        let item = to_json(&list[i]);
        items.push(item);
        i += 1;
    }
    assert(items@ =~= json_of_all(models));
    json_from_vec(items)
}

/// The JSON object of the entries of a bencode dictionary.
#[verifier::loop_isolation(false)]
fn convert_dict(dict: &Vec<(Vec<u8>, Bencode)>) -> (v: serde_json::Value)
    ensures
        v == json_of(Tree::Dict(entries_view(dict@))),
    decreases dict, 0nat,
{
    let ghost models = entries_view(dict@);
    let mut names: Vec<String> = Vec::new();
    let mut values: Vec<serde_json::Value> = Vec::new();
    let mut i: usize = 0;
    while i < dict.len()
        invariant
            i <= dict@.len(),
            names@.len() == i,
            values@.len() == i,
            forall|k: int| 0 <= k < i ==> (#[trigger] names@[k])@ == utf8_lossy(models[k].0),
            forall|k: int| 0 <= k < i ==> #[trigger] values@[k] == json_of(models[k].1),
        decreases dict@.len() - i,
    {
        assert(models[i as int] == (dict@[i as int].0@, dict@[i as int].1@));
        let name = lossy_string(dict[i].0.as_slice());
        let value = to_json(&dict[i].1);
        names.push(name);
        values.push(value);
        i += 1;
    }
    assert(texts(names@) =~= names_of(models));
    assert(values@ =~= json_of_values(models));
    json_from_entries(names, values)
}

/// The JSON value that stands for a bencode value.
pub fn to_json(value: &Bencode) -> (v: serde_json::Value)
    ensures
        v == json_of(value@),
    decreases value, 1nat,
{
    match value {
        Bencode::Byte(b) => json_from_string(lossy_string(b.as_slice())),
        Bencode::Integer(i) => json_from_i64(*i),
        Bencode::List(list) => {
            proof {
                lemma_list_view(*list);
            }
            convert_list(list)
        },
        Bencode::Dict(dict) => {
            proof {
                lemma_dict_view(*dict);
            }
            convert_dict(dict)
        },
    }
}

} // verus!
