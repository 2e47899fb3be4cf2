//! Reading the fields of a dictionary: each is the value bound to its key
//! where that value has the expected type, and the type's zero value otherwise.

use crate::bencode::{entry_models, BencodeValue, Entry, Pair, Value};
use crate::decode::bytes_equal;
use vstd::prelude::*;
use vstd::utf8::{decode_utf8, valid_utf8};

verus! {

/// The value of the first entry at or after `from` whose key is `key`.
pub open spec fn lookup(entries: Seq<Pair>, key: Seq<u8>, from: int) -> Option<Value>
    decreases entries.len() - from,
{
    if from < 0 || from >= entries.len() {
        None
    } else if entries[from].key == key {
        Some(entries[from].value)
    } else {
        lookup(entries, key, from + 1)
    }
}

/// The number bound to `key`, or 0 where there is none or it is negative.
pub open spec fn number_field(entries: Seq<Pair>, key: Seq<u8>) -> u64 {
    match lookup(entries, key, 0) {
        Some(Value::Integer(n)) => if 0 <= n <= u64::MAX {
            n as u64
        } else {
            0
        },
        _ => 0,
    }
}

/// The byte string bound to `key`, or the empty one.
pub open spec fn bytes_field(entries: Seq<Pair>, key: Seq<u8>) -> Seq<u8> {
    match lookup(entries, key, 0) {
        Some(Value::Bytes(s)) => s,
        _ => Seq::empty(),
    }
}

/// The text that a byte string spells in UTF-8, or the empty text where it
/// spells none.
pub open spec fn text_of(bytes: Seq<u8>) -> Seq<char> {
    if valid_utf8(bytes) {
        decode_utf8(bytes)
    } else {
        Seq::empty()
    }
}

/// The text bound to `key`, or the empty text.
pub open spec fn text_field(entries: Seq<Pair>, key: Seq<u8>) -> Seq<char> {
    text_of(bytes_field(entries, key))
}

/// The entries of the dictionary bound to `key`, if a dictionary is bound to it.
pub open spec fn dict_field(entries: Seq<Pair>, key: Seq<u8>) -> Option<Seq<Pair>> {
    match lookup(entries, key, 0) {
        Some(Value::Dict(inner)) => Some(inner),
        _ => None,
    }
}

/// Finds the value bound to `key` among `entries`.
pub fn find<'a>(entries: &'a Vec<Entry>, key: &[u8]) -> (r: Option<&'a BencodeValue>)
    ensures
        match r {
            Some(v) => lookup(entry_models(entries@), key@, 0) == Some(v@),
            None => lookup(entry_models(entries@), key@, 0) is None,
        },
{
    let mut i: usize = 0;
    while i < entries.len()
        invariant
            i <= entries@.len(),
            lookup(entry_models(entries@), key@, 0) == lookup(
                entry_models(entries@),
                key@,
                i as int,
            ),
        decreases entries@.len() - i,
    {
        if bytes_equal(entries[i].key.as_slice(), key) {
            return Some(&entries[i].value);
        }
        i = i + 1;
    }
    None
}

/// Reads the number bound to `key`.
pub fn read_number_field(entries: &Vec<Entry>, key: &[u8]) -> (r: u64)
    ensures
        r == number_field(entry_models(entries@), key@),
{
    match find(entries, key) {
        Some(BencodeValue::Integer(n)) => if *n >= 0 {
            *n as u64
        } else {
            0
        },
        _ => 0,
    }
}

/// Reads the byte string bound to `key`.
pub fn read_bytes_field(entries: &Vec<Entry>, key: &[u8]) -> (r: Vec<u8>)
    ensures
        r@ == bytes_field(entry_models(entries@), key@),
{
    match find(entries, key) {
        Some(BencodeValue::ByteString(s)) => s.clone(),
        _ => Vec::new(),
    }
}

/// Calls `std::str::from_utf8` on `bytes` and copies the text it gives.
/// Believed of it: it gives text exactly where the bytes are well-formed
/// UTF-8, and then the text that they spell.
#[verifier::external_body]
fn utf8_text(bytes: &[u8]) -> (r: Option<String>)
    ensures
        r is Some <==> valid_utf8(bytes@),
        r matches Some(s) ==> s@ == decode_utf8(bytes@),
{
    match std::str::from_utf8(bytes) {
        Ok(s) => Some(s.to_owned()),
        Err(_) => None,
    }
}

/// The text that `bytes` spell, or the empty text where they spell none.
pub fn text_from_bytes(bytes: &[u8]) -> (r: String)
    ensures
        r@ == text_of(bytes@),
{
    match utf8_text(bytes) {
        Some(s) => s,
        None => String::new(),
    }
}

/// Reads the text bound to `key`.
pub fn read_text_field(entries: &Vec<Entry>, key: &[u8]) -> (r: String)
    ensures
        r@ == text_field(entry_models(entries@), key@),
{
    match find(entries, key) {
        Some(BencodeValue::ByteString(s)) => text_from_bytes(s.as_slice()),
        _ => {
            let empty: Vec<u8> = Vec::new();
            text_from_bytes(empty.as_slice())
        },
    }
}

} // verus!
