//! Reading the fields of a bencoded record by name.

use crate::bencode::order::bytes_eq;
use crate::bencode::value::{
    entries_view, items_view, lemma_dict_view, lemma_list_view, Bencode, Tree,
};
use crate::text::{lossy_string, utf8_lossy};
use vstd::prelude::*;
use vstd::string::*;

verus! {

/// Why a bencoded record is not the one that was asked for.
#[derive(Debug, Clone, Copy, PartialEq, Eq, Structural)]
pub enum FieldError {
    /// A field that has to be there is not.
    MissingField,
    /// A field holds a value of the wrong kind or out of range, or the record is
    /// no dictionary.
    InvalidField,
    /// The piece hashes are not a whole number of twenty-byte digests.
    MalformedHashes,
}

/// The bytes of an ASCII name, the form in which a record's keys stand.
pub open spec fn key_of(name: Seq<char>) -> Seq<u8> {
    Seq::new(name.len(), |i: int| name[i] as u8)
}

/// The bytes of an ASCII name.
pub fn key_bytes(name: &str) -> (r: &[u8])
    requires
        is_ascii(name),
    ensures
        r@ == key_of(name@),
{
    broadcast use is_ascii_spec_bytes;

    name.as_bytes()
}

/// The value that the first entry with the key `key` holds.
pub open spec fn lookup(entries: Seq<(Seq<u8>, Tree)>, key: Seq<u8>) -> Option<Tree>
    decreases entries.len(),
{
    if entries.len() == 0 {
        None
    } else if entries[0].0 == key {
        Some(entries[0].1)
    } else {
        lookup(entries.drop_first(), key)
    }
}

/// The field `key` of a dictionary; `None` where the value is no dictionary or
/// has no such field.
pub open spec fn field(v: Tree, key: Seq<u8>) -> Option<Tree> {
    match v {
        Tree::Dict(entries) => lookup(entries, key),
        _ => None,
    }
}

/// The field `key` of a dictionary.
pub fn dict_get<'a>(value: &'a Bencode, key: &[u8]) -> (r: Option<&'a Bencode>)
    ensures
        match r {
            Some(v) => field(value@, key@) == Some(v@),
            None => field(value@, key@) is None,
        },
{
    match value {
        Bencode::Dict(entries) => {
            proof {
                lemma_dict_view(*entries);
            }
            let ghost models = entries_view(entries@);
            let mut i: usize = 0;
            assert(models.skip(0) =~= models);
            while i < entries.len()
                invariant
                    i <= entries@.len(),
                    models == entries_view(entries@),
                    value@ == Tree::Dict(models),
                    lookup(models, key@) == lookup(models.skip(i as int), key@),
                decreases entries@.len() - i,
            {
                assert(models.skip(i as int)[0] == models[i as int]);
                assert(models.skip(i as int).drop_first() =~= models.skip(i + 1));
                if bytes_eq(entries[i].0.as_slice(), key) {
                    return Some(&entries[i].1);
                }
                i += 1;
            }
            None
        },
        _ => None,
    }
}

/// Every value is an integer from 0 to 255.
pub open spec fn all_byte_integers(items: Seq<Tree>) -> bool {
    forall|i: int|
        0 <= i < items.len() ==> (#[trigger] items[i] matches Tree::Integer(n) && 0 <= n <= 255)
}

/// The integers of a list as bytes.
pub open spec fn integers_as_bytes(items: Seq<Tree>) -> Seq<u8> {
    Seq::new(items.len(), |i: int| items[i]->Integer_0 as u8)
}

/// The bytes that a value gives for a byte-string field: a byte string is its
/// bytes, a list of integers from 0 to 255 those integers.
pub open spec fn field_bytes(v: Tree) -> Option<Seq<u8>> {
    match v {
        Tree::Bytes(b) => Some(b),
        Tree::List(items) => if all_byte_integers(items) {
            Some(integers_as_bytes(items))
        } else {
            None
        },
        _ => None,
    }
}

/// The non-negative integer that a value gives for a count or length.
pub open spec fn field_count(v: Tree) -> Option<u64> {
    match v {
        Tree::Integer(i) => if i >= 0 {
            Some(i as u64)
        } else {
            None
        },
        _ => None,
    }
}

/// The bytes of a byte-string field, which may stand as a byte string or as a
/// list of byte integers.
pub fn bytes_of(value: &Bencode) -> (r: Result<Vec<u8>, FieldError>)
    ensures
        match r {
            Ok(b) => field_bytes(value@) == Some(b@),
            Err(e) => field_bytes(value@) is None && e == FieldError::InvalidField,
        },
{
    match value {
        Bencode::Byte(b) => Ok(b.clone()),
        Bencode::List(items) => {
            proof {
                lemma_list_view(*items);
            }
            let ghost models = items_view(items@);
            let mut out: Vec<u8> = Vec::new();
            let mut i: usize = 0;
            while i < items.len()
                invariant
                    i <= items@.len(),
                    models == items_view(items@),
                    value@ == Tree::List(models),
                    out@.len() == i,
                    forall|j: int|
                        0 <= j < i ==> (#[trigger] models[j] matches Tree::Integer(n) && 0 <= n
                            <= 255 && out@[j] == n),
                decreases items@.len() - i,
            {
                assert(models[i as int] == items@[i as int]@);
                match &items[i] {
                    Bencode::Integer(n) => {
                        if *n < 0 || *n > 255 {
                            return Err(FieldError::InvalidField);
                        }
                        out.push(*n as u8);
                    },
                    _ => {
                        return Err(FieldError::InvalidField);
                    },
                }
                i += 1;
            }
            assert(out@ =~= integers_as_bytes(models));
            Ok(out)
        },
        _ => Err(FieldError::InvalidField),
    }
}

/// The text of a string field, which may stand as a byte string or as a list of
/// byte integers. Bytes that are no UTF-8 are replaced.
pub fn deserialize(value: &Bencode) -> (r: Result<String, FieldError>)
    ensures
        match r {
            Ok(s) => field_bytes(value@) matches Some(b) && s@ == utf8_lossy(b),
            Err(e) => field_bytes(value@) is None && e == FieldError::InvalidField,
        },
{
    match bytes_of(value) {
        Ok(b) => Ok(lossy_string(b.as_slice())),
        Err(e) => Err(e),
    }
}

/// The non-negative integer of a count or length field.
pub fn count_of(value: &Bencode) -> (r: Result<u64, FieldError>)
    ensures
        match r {
            Ok(n) => field_count(value@) == Some(n),
            Err(e) => field_count(value@) is None && e == FieldError::InvalidField,
        },
{
    match value {
        Bencode::Integer(i) => {
            if *i >= 0 {
                Ok(*i as u64)
            } else {
                Err(FieldError::InvalidField)
            }
        },
        _ => Err(FieldError::InvalidField),
    }
}

/// The entry at `index` is the one that `lookup` finds, where no entry before it
/// has the key.
pub proof fn lemma_lookup_at(entries: Seq<(Seq<u8>, Tree)>, key: Seq<u8>, index: int)
    requires
        0 <= index < entries.len(),
        entries[index].0 == key,
        forall|j: int| 0 <= j < index ==> (#[trigger] entries[j]).0 != key,
    ensures
        lookup(entries, key) == Some(entries[index].1),
    decreases index,
{
    if index > 0 {
        let rest = entries.drop_first();
        assert(entries[0].0 != key);
        assert forall|j: int| 0 <= j < index - 1 implies (#[trigger] rest[j]).0 != key by {
            assert(rest[j] == entries[j + 1]);
        }
        lemma_lookup_at(rest, key, index - 1);
    }
}

/// `lookup` finds nothing where no entry has the key.
pub proof fn lemma_lookup_none(entries: Seq<(Seq<u8>, Tree)>, key: Seq<u8>)
    requires
        forall|j: int| 0 <= j < entries.len() ==> (#[trigger] entries[j]).0 != key,
    ensures
        lookup(entries, key) is None,
    decreases entries.len(),
{
    if entries.len() > 0 {
        let rest = entries.drop_first();
        assert(entries[0].0 != key);
        assert forall|j: int| 0 <= j < rest.len() implies (#[trigger] rest[j]).0 != key by {
            assert(rest[j] == entries[j + 1]);
        }
        lemma_lookup_none(rest, key);
    }
}

} // verus!
