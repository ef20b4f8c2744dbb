use vstd::prelude::*;
use crate::decimal::decimal_of;
use rlibbencode::variables::bencode_array::{AddArray, BencodeArray};
use rlibbencode::variables::bencode_bytes::BencodeBytes;
use rlibbencode::variables::bencode_number::BencodeNumber;
use rlibbencode::variables::bencode_object::{BencodeObject, GetObject, PutObject};
use rlibbencode::variables::inter::bencode_variable::ToBencode;

verus! {

#[verifier::external_type_specification]
#[verifier::external_body]
pub struct ExBencodeObject(BencodeObject);

#[verifier::external_type_specification]
#[verifier::external_body]
pub struct ExBencodeArray(BencodeArray);

/// The entries of a dictionary that hold byte strings, by key.
pub uninterp spec fn ben_bytes(o: BencodeObject) -> Map<Seq<u8>, Seq<u8>>;

/// The entries of a dictionary that hold dictionaries, by key, each given by its
/// byte-string entries.
pub uninterp spec fn ben_dicts(o: BencodeObject) -> Map<Seq<u8>, Map<Seq<u8>, Seq<u8>>>;

/// The entries of a dictionary that hold lists, by key, each given by its items.
pub uninterp spec fn ben_lists(o: BencodeObject) -> Map<Seq<u8>, Seq<(u8, Seq<u8>)>>;

/// The items of a list: `(1, text)` for a number written as `text` in decimal,
/// `(2, bytes)` for a byte string, `(0, empty)` for a list or a dictionary.
pub uninterp spec fn ben_items(a: BencodeArray) -> Seq<(u8, Seq<u8>)>;

/// Relies on `BencodeObject::new`: an empty dictionary.
#[verifier::external_body]
pub fn ben_new() -> (r: BencodeObject)
    ensures
        ben_bytes(r).dom() == Set::<Seq<u8>>::empty(),
        ben_dicts(r).dom() == Set::<Seq<u8>>::empty(),
        ben_lists(r).dom() == Set::<Seq<u8>>::empty(),
{
    BencodeObject::new()
}

/// Relies on `BencodeObject::put` with a byte-string value: the key now holds it,
/// replacing what it held.
#[verifier::external_body]
pub fn ben_put_bytes(o: &mut BencodeObject, key: &[u8], value: &[u8])
    ensures
        ben_bytes(*final(o)) == ben_bytes(*old(o)).insert(key@, value@),
        ben_dicts(*final(o)) == ben_dicts(*old(o)).remove(key@),
        ben_lists(*final(o)) == ben_lists(*old(o)).remove(key@),
{
    o.put(key, value)
}

/// Relies on `BencodeObject::put` with a dictionary value: the key now holds it,
/// replacing what it held.
#[verifier::external_body]
pub fn ben_put_dict(o: &mut BencodeObject, key: &[u8], value: BencodeObject)
    ensures
        ben_bytes(*final(o)) == ben_bytes(*old(o)).remove(key@),
        ben_dicts(*final(o)) == ben_dicts(*old(o)).insert(key@, ben_bytes(value)),
        ben_lists(*final(o)) == ben_lists(*old(o)).remove(key@),
{
    o.put(key, value)
}

/// Relies on `BencodeObject::put` with a list value: the key now holds it, replacing
/// what it held.
#[verifier::external_body]
pub fn ben_put_list(o: &mut BencodeObject, key: &[u8], value: BencodeArray)
    ensures
        ben_bytes(*final(o)) == ben_bytes(*old(o)).remove(key@),
        ben_dicts(*final(o)) == ben_dicts(*old(o)).remove(key@),
        ben_lists(*final(o)) == ben_lists(*old(o)).insert(key@, ben_items(value)),
{
    o.put(key, value)
}

/// Relies on `BencodeObject::get` for a byte string: the bytes under `key`, if it
/// holds a byte string.
#[verifier::external_body]
pub fn ben_get_bytes(o: &BencodeObject, key: &[u8]) -> (r: Option<Vec<u8>>)
    ensures
        r is Some == ben_bytes(*o).contains_key(key@),
        r is Some ==> r->0@ == ben_bytes(*o)[key@],
{
    o.get::<BencodeBytes>(key).map(|b| b.as_bytes().to_vec())
}

/// Relies on `BencodeObject::get` for a dictionary: a copy of the dictionary under
/// `key`, if it holds one.
#[verifier::external_body]
pub fn ben_get_dict(o: &BencodeObject, key: &[u8]) -> (r: Option<BencodeObject>)
    ensures
        r is Some == ben_dicts(*o).contains_key(key@),
        r is Some ==> ben_bytes(r->0) == ben_dicts(*o)[key@],
{
    o.get::<BencodeObject>(key).cloned()
}

/// Relies on `BencodeObject::get` for a list: a copy of the list under `key`, if it
/// holds one.
#[verifier::external_body]
pub fn ben_get_list(o: &BencodeObject, key: &[u8]) -> (r: Option<BencodeArray>)
    ensures
        r is Some == ben_lists(*o).contains_key(key@),
        r is Some ==> ben_items(r->0) == ben_lists(*o)[key@],
{
    o.get::<BencodeArray>(key).cloned()
}

/// Relies on `BencodeArray::new`: an empty list.
#[verifier::external_body]
pub fn ben_list_new() -> (r: BencodeArray)
    ensures
        ben_items(r).len() == 0,
{
    BencodeArray::new()
}

/// Relies on `BencodeArray::push` of an `i32`, which stores its decimal text.
#[verifier::external_body]
pub fn ben_list_push_number(a: &mut BencodeArray, v: i32)
    ensures
        ben_items(*final(a)) == ben_items(*old(a)).push((1u8, decimal_of(v as int))),
{
    a.push(v)
}

/// Relies on `BencodeArray::push` of a byte string.
#[verifier::external_body]
pub fn ben_list_push_bytes(a: &mut BencodeArray, v: &[u8])
    ensures
        ben_items(*final(a)) == ben_items(*old(a)).push((2u8, v@)),
{
    a.push(v)
}

/// Relies on `BencodeArray::len`: the number of items.
#[verifier::external_body]
pub fn ben_list_len(a: &BencodeArray) -> (r: usize)
    ensures
        r == ben_items(*a).len(),
{
    a.len()
}

/// Relies on `BencodeArray::get` for a number and on its `to_bencode`: the item's
/// decimal text between `i` and `e`, if item `i` is a number.
#[verifier::external_body]
pub fn ben_list_number(a: &BencodeArray, i: usize) -> (r: Option<Vec<u8>>)
    ensures
        r is Some == (i < ben_items(*a).len() && ben_items(*a)[i as int].0 == 1),
        r is Some ==> r->0@ == seq![105u8] + ben_items(*a)[i as int].1 + seq![101u8],
{
    a.get::<BencodeNumber>(i).map(|n| n.to_bencode())
}

/// Relies on `BencodeArray::get` for a byte string: the bytes of item `i`, if it is a
/// byte string.
#[verifier::external_body]
pub fn ben_list_bytes(a: &BencodeArray, i: usize) -> (r: Option<Vec<u8>>)
    ensures
        r is Some == (i < ben_items(*a).len() && ben_items(*a)[i as int].0 == 2),
        r is Some ==> r->0@ == ben_items(*a)[i as int].1,
{
    a.get::<BencodeBytes>(i).map(|b| b.as_bytes().to_vec())
}

} // verus!
