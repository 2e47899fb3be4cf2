//! The bencode value model and its canonical encoding.

use crate::decode::{decoding, DecodeError, MAX_DEPTH};
use crate::normal::{canonical_copy, lemma_canonical_is_normalized, normalized};
use crate::roundtrip::{canonical, lemma_decode_encoded};
use vstd::prelude::*;

verus! {

/// The mathematical model of a dictionary entry: a key and the value bound to it.
pub struct Pair {
    pub key: Seq<u8>,
    pub value: Value,
}

/// The mathematical model of a bencode value.
pub enum Value {
    Integer(int),
    Bytes(Seq<u8>),
    List(Seq<Value>),
    Dict(Seq<Pair>),
}

/// One entry of a dictionary.
#[derive(Debug, PartialEq, Eq)]
pub struct Entry {
    pub key: Vec<u8>,
    pub value: BencodeValue,
}

/// A bencode value as held in memory. A dictionary is a vector of entries.
#[derive(Debug, PartialEq, Eq)]
pub enum BencodeValue {
    Integer(i64),
    ByteString(Vec<u8>),
    List(Vec<BencodeValue>),
    Dict(Vec<Entry>),
}

impl View for BencodeValue {
    type V = Value;

    open spec fn view(&self) -> Value
        decreases self,
    {
        match self {
            BencodeValue::Integer(n) => Value::Integer(*n as int),
            BencodeValue::ByteString(s) => Value::Bytes(s@),
            BencodeValue::List(items) => Value::List(
                Seq::new(
                    items@.len(),
                    |i: int|
                        if 0 <= i < items@.len() {
                            items@[i].view()
                        } else {
                            Value::Integer(0)
                        },
                ),
            ),
            BencodeValue::Dict(entries) => Value::Dict(
                Seq::new(
                    entries@.len(),
                    |i: int|
                        if 0 <= i < entries@.len() {
                            Pair { key: entries@[i].key@, value: entries@[i].value.view() }
                        } else {
                            Pair { key: Seq::empty(), value: Value::Integer(0) }
                        },
                ),
            ),
        }
    }
}

/// The models of the items of a list, in order.
pub open spec fn item_models(items: Seq<BencodeValue>) -> Seq<Value> {
    Seq::new(items.len(), |i: int| items[i]@)
}

/// The models of the entries of a dictionary, in order.
pub open spec fn entry_models(entries: Seq<Entry>) -> Seq<Pair> {
    Seq::new(entries.len(), |i: int| Pair { key: entries[i].key@, value: entries[i].value@ })
}

/// The decimal digits of `n`, most significant first, without leading zeros.
pub open spec fn decimal(n: nat) -> Seq<u8>
    decreases n,
{
    if n < 10 {
        seq![(48 + n) as u8]
    } else {
        decimal(n / 10).push((48 + n % 10) as u8)
    }
}

/// The bencode text of an integer: `i`, the digits with a sign where negative, `e`.
pub open spec fn integer_encoding(n: int) -> Seq<u8> {
    if n < 0 {
        seq![105u8, 45u8] + decimal((-n) as nat) + seq![101u8]
    } else {
        seq![105u8] + decimal(n as nat) + seq![101u8]
    }
}

/// The bencode text of a byte string: its length in decimal, `:`, the bytes.
pub open spec fn bytes_encoding(s: Seq<u8>) -> Seq<u8> {
    decimal(s.len()) + seq![58u8] + s
}

/// The encodings of the first `n` items of a list, one after the other.
pub open spec fn items_encoding(items: Seq<Value>, n: nat) -> Seq<u8>
    decreases items, n,
{
    if n == 0 || n > items.len() {
        Seq::empty()
    } else {
        items_encoding(items, (n - 1) as nat) + encoding(items[n - 1])
    }
}

/// The encodings of the first `n` entries of a dictionary, key then value,
/// in the order in which the entries stand.
pub open spec fn entries_encoding(entries: Seq<Pair>, n: nat) -> Seq<u8>
    decreases entries, n,
{
    if n == 0 || n > entries.len() {
        Seq::empty()
    } else {
        entries_encoding(entries, (n - 1) as nat) + bytes_encoding(entries[n - 1].key) + encoding(
            entries[n - 1].value,
        )
    }
}

/// The bencode text of a value.
pub open spec fn encoding(v: Value) -> Seq<u8>
    decreases v, 0nat,
{
    match v {
        Value::Integer(n) => integer_encoding(n),
        Value::Bytes(s) => bytes_encoding(s),
        Value::List(items) => seq![108u8] + items_encoding(items, items.len()) + seq![101u8],
        Value::Dict(entries) => seq![100u8] + entries_encoding(entries, entries.len()) + seq![
            101u8,
        ],
    }
}

/// Appends the decimal digits of `n` to `out`.
fn push_decimal(out: &mut Vec<u8>, n: u64)
    ensures
        final(out)@ == old(out)@ + decimal(n as nat),
    decreases n,
{
    if n < 10 {
        out.push(48 + n as u8);
        assert(final(out)@ =~= old(out)@ + decimal(n as nat));
    } else {
        push_decimal(out, n / 10);
        out.push(48 + (n % 10) as u8);
        assert(final(out)@ =~= old(out)@ + decimal(n as nat));
    }
}

/// Appends the bencode text of the integer `n` to `out`.
fn push_integer(out: &mut Vec<u8>, n: i64)
    ensures
        final(out)@ == old(out)@ + integer_encoding(n as int),
{
    out.push(105);
    if n < 0 {
        out.push(45);
        let magnitude: u64 = (-(n + 1)) as u64 + 1;
        push_decimal(out, magnitude);
    } else {
        push_decimal(out, n as u64);
    }
    out.push(101);
    assert(final(out)@ =~= old(out)@ + integer_encoding(n as int));
}

/// Appends the bencode text of the byte string `s` to `out`.
fn push_bytes(out: &mut Vec<u8>, s: &Vec<u8>)
    ensures
        final(out)@ == old(out)@ + bytes_encoding(s@),
{
    push_decimal(out, s.len() as u64);
    out.push(58);
    let ghost before = out@;
    let mut i: usize = 0;
    while i < s.len()
        invariant
            i <= s.len(),
            out@ == before + s@.subrange(0, i as int),
        decreases s.len() - i,
    {
        out.push(s[i]);
        i = i + 1;
        assert(out@ =~= before + s@.subrange(0, i as int));
    }
    assert(s@.subrange(0, i as int) =~= s@);
    assert(final(out)@ =~= old(out)@ + bytes_encoding(s@));
}

/// Appends the bencode text of `v` to `out`, the entries of a dictionary in
/// the order in which they stand.
fn encode_into(v: &BencodeValue, out: &mut Vec<u8>)
    ensures
        final(out)@ == old(out)@ + encoding(v@),
    decreases v,
{
    match v {
        BencodeValue::Integer(n) => {
            push_integer(out, *n);
        },
        BencodeValue::ByteString(s) => {
            push_bytes(out, s);
        },
        BencodeValue::List(items) => {
            out.push(108);
            let ghost before = out@;
            let ghost model = item_models(items@);
            assert(v@->List_0 =~= model);
            let mut i: usize = 0;
            while i < items.len()
                invariant
                    i <= items.len(),
                    v == BencodeValue::List(*items),
                    model == v@->List_0,
                    model == item_models(items@),
                    out@ == before + items_encoding(model, i as nat),
                decreases items.len() - i,
            {
                encode_into(&items[i], out);
                i = i + 1;
                assert(out@ =~= before + items_encoding(model, i as nat));
            }
            out.push(101);
            assert(final(out)@ =~= old(out)@ + encoding(v@));
        },
        BencodeValue::Dict(entries) => {
            out.push(100);
            let ghost before = out@;
            let ghost model = entry_models(entries@);
            assert(v@->Dict_0 =~= model);
            let mut i: usize = 0;
            while i < entries.len()
                invariant
                    i <= entries.len(),
                    v == BencodeValue::Dict(*entries),
                    model == v@->Dict_0,
                    model == entry_models(entries@),
                    out@ == before + entries_encoding(model, i as nat),
                decreases entries.len() - i,
            {
                push_bytes(out, &entries[i].key);
                encode_into(&entries[i].value, out);
                i = i + 1;
                assert(out@ =~= before + entries_encoding(model, i as nat));
            }
            out.push(101);
            assert(final(out)@ =~= old(out)@ + encoding(v@));
        },
    }
}

/// Encodes a value as canonical bencode text: the text of its canonical
/// form. A canonical value is written as it stands, and its text decodes to it.
pub fn encode(v: &BencodeValue) -> (out: Vec<u8>)
    ensures
        out@ == encoding(normalized(v@)),
        canonical(v@, MAX_DEPTH as nat) ==> out@ == encoding(v@) && decoding(out@) == Ok::<
            Value,
            DecodeError,
        >(v@),
{
    let ordered = canonical_copy(v);
    let mut out: Vec<u8> = Vec::new();
    encode_into(&ordered, &mut out);
    assert(out@ =~= encoding(ordered@));
    proof {
        if canonical(v@, MAX_DEPTH as nat) {
            lemma_canonical_is_normalized(v@, MAX_DEPTH as nat);
            lemma_decode_encoded(v@);
        }
    }
    out
}

} // verus!
