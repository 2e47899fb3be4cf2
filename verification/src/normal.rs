//! Bringing a value into canonical form: the entries of every dictionary in
//! ascending order of their keys, and of two entries with one key the later.

use crate::bencode::{entry_models, item_models, BencodeValue, Entry, Pair, Value};
use crate::decode::{dict_insert, first_not_less, insert_entry, lex_lt};
use crate::roundtrip::{ascending, canonical, lemma_insert_ascending};
use vstd::prelude::*;

verus! {

/// The canonical form of a value.
pub open spec fn normalized(v: Value) -> Value
    decreases v, 0nat,
{
    match v {
        Value::Integer(n) => v,
        Value::Bytes(s) => v,
        Value::List(items) => Value::List(
            Seq::new(
                items.len(),
                |i: int|
                    if 0 <= i < items.len() {
                        normalized(items[i])
                    } else {
                        Value::Integer(0)
                    },
            ),
        ),
        Value::Dict(entries) => Value::Dict(bound(entries, entries.len())),
    }
}

/// The first `n` entries of a dictionary, each value in canonical form,
/// bound one after the other into an empty dictionary.
pub open spec fn bound(entries: Seq<Pair>, n: nat) -> Seq<Pair>
    decreases entries, n,
{
    if n == 0 || n > entries.len() {
        Seq::empty()
    } else {
        dict_insert(
            bound(entries, (n - 1) as nat),
            entries[n - 1].key,
            normalized(entries[n - 1].value),
        )
    }
}

proof fn lemma_append_greatest(held: Seq<Pair>, pair: Pair, from: int)
    requires
        0 <= from <= held.len(),
        forall|i: int| 0 <= i < held.len() ==> lex_lt((#[trigger] held[i]).key, pair.key, 0),
    ensures
        first_not_less(held, pair.key, from) == held.len(),
    decreases held.len() - from,
{
    if from < held.len() {
        lemma_append_greatest(held, pair, from + 1);
    }
}

/// The keys of a dictionary in canonical form ascend, in whatever order its
/// entries stood.
pub proof fn lemma_bound_ascending(entries: Seq<Pair>, n: nat)
    ensures
        ascending(bound(entries, n)),
    decreases n,
{
    if n != 0 && n <= entries.len() {
        lemma_bound_ascending(entries, (n - 1) as nat);
        lemma_insert_ascending(
            bound(entries, (n - 1) as nat),
            entries[n - 1].key,
            normalized(entries[n - 1].value),
        );
    }
}

/// A canonical value is its own canonical form.
pub proof fn lemma_canonical_is_normalized(v: Value, depth: nat)
    requires
        canonical(v, depth),
    ensures
        normalized(v) == v,
    decreases v, 0nat,
{
    match v {
        Value::Integer(n) => {},
        Value::Bytes(s) => {},
        Value::List(items) => {
            assert forall|i: int| 0 <= i < items.len() implies normalized(items[i])
                == items[i] by {
                lemma_canonical_is_normalized(items[i], (depth - 1) as nat);
            }
            assert(normalized(v)->List_0 =~= items);
        },
        Value::Dict(entries) => {
            lemma_bound_of_ascending(entries, entries.len(), (depth - 1) as nat);
            assert(entries.take(entries.len() as int) =~= entries);
        },
    }
}

proof fn lemma_bound_of_ascending(entries: Seq<Pair>, n: nat, depth: nat)
    requires
        n <= entries.len(),
        ascending(entries),
        forall|i: int| 0 <= i < entries.len() ==> canonical((#[trigger] entries[i]).value, depth),
    ensures
        bound(entries, n) == entries.take(n as int),
    decreases entries, n,
{
    if n == 0 {
        assert(entries.take(0) =~= Seq::<Pair>::empty());
    } else {
        let last = entries[n - 1];
        let held = entries.take(n - 1);
        lemma_bound_of_ascending(entries, (n - 1) as nat, depth);
        lemma_canonical_is_normalized(last.value, depth);
        assert forall|i: int| 0 <= i < held.len() implies lex_lt(
            (#[trigger] held[i]).key,
            last.key,
            0,
        ) by {
            assert(held[i] == entries[i]);
            assert(lex_lt(entries[i].key, entries[n - 1].key, 0));
        }
        lemma_append_greatest(held, last, 0);
        assert(held.insert(n - 1, last) =~= entries.take(n as int));
    }
}

/// Copies a value into canonical form.
pub fn canonical_copy(v: &BencodeValue) -> (r: BencodeValue)
    ensures
        r@ == normalized(v@),
    decreases v,
{
    match v {
        BencodeValue::Integer(n) => BencodeValue::Integer(*n),
        BencodeValue::ByteString(s) => BencodeValue::ByteString(s.clone()),
        BencodeValue::List(items) => {
            let ghost model = item_models(items@);
            assert(v@->List_0 =~= model);
            let mut copies: Vec<BencodeValue> = Vec::new();
            let mut i: usize = 0;
            while i < items.len()
                invariant
                    i <= items.len(),
                    v == BencodeValue::List(*items),
                    model == v@->List_0,
                    model == item_models(items@),
                    copies@.len() == i,
                    forall|j: int| 0 <= j < i ==> (#[trigger] copies@[j])@ == normalized(model[j]),
                decreases items.len() - i,
            {
                copies.push(canonical_copy(&items[i]));
                i = i + 1;
            }
            let r = BencodeValue::List(copies);
            assert(r@->List_0 =~= normalized(v@)->List_0);
            r
        },
        BencodeValue::Dict(entries) => {
            let ghost model = entry_models(entries@);
            assert(v@->Dict_0 =~= model);
            let mut copies: Vec<Entry> = Vec::new();
            assert(entry_models(copies@) =~= bound(model, 0));
            let mut i: usize = 0;
            while i < entries.len()
                invariant
                    i <= entries.len(),
                    v == BencodeValue::Dict(*entries),
                    model == v@->Dict_0,
                    model == entry_models(entries@),
                    entry_models(copies@) == bound(model, i as nat),
                decreases entries.len() - i,
            {
                let value = canonical_copy(&entries[i].value);
                insert_entry(&mut copies, entries[i].key.clone(), value);
                i = i + 1;
            }
            let r = BencodeValue::Dict(copies);
            assert(r@->Dict_0 =~= entry_models(copies@));
            r
        },
    }
}

} // verus!
