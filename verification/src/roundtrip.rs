//! Canonical values, and the proof that decoding the encoding of a canonical
//! value gives the value back.

use crate::bencode::{
    bytes_encoding, decimal, encoding, entries_encoding, integer_encoding, items_encoding, Pair,
    Value,
};
use crate::decode::{
    decoding, dict_insert, digits_end, digits_value, first_not_less, has_leading_zero, is_digit,
    lex_lt, parse_bytes, parse_entries, parse_integer, parse_items, parse_value, DecodeError,
    Parsed, MAX_DEPTH,
};
use vstd::prelude::*;

verus! {

/// Whether the keys of `entries` stand in strictly ascending byte order.
pub open spec fn ascending(entries: Seq<Pair>) -> bool {
    forall|i: int, j: int|
        #![trigger entries[i], entries[j]]
        0 <= i < j < entries.len() ==> lex_lt(entries[i].key, entries[j].key, 0)
}

/// Whether a value is canonical: every integer fits 64 bits, the keys of
/// every dictionary ascend, and lists and dictionaries are nested at most
/// `depth` deep.
pub open spec fn canonical(v: Value, depth: nat) -> bool
    decreases v,
{
    match v {
        Value::Integer(n) => -0x8000_0000_0000_0000 <= n <= 0x7fff_ffff_ffff_ffff,
        Value::Bytes(s) => true,
        Value::List(items) => depth > 0 && forall|i: int|
            0 <= i < items.len() ==> canonical(#[trigger] items[i], (depth - 1) as nat),
        Value::Dict(entries) => depth > 0 && ascending(entries) && forall|i: int|
            0 <= i < entries.len() ==> canonical((#[trigger] entries[i]).value, (depth - 1) as nat),
    }
}

/// Whether `b` holds the text `t` from position `p` on.
pub open spec fn holds_at(b: Seq<u8>, p: int, t: Seq<u8>) -> bool {
    0 <= p && p + t.len() <= b.len() && forall|j: int|
        0 <= j < t.len() ==> #[trigger] b[p + j] == t[j]
}

proof fn lemma_holds_split(b: Seq<u8>, p: int, x: Seq<u8>, y: Seq<u8>)
    requires
        holds_at(b, p, x + y),
    ensures
        holds_at(b, p, x),
        holds_at(b, p + x.len(), y),
{
    assert forall|j: int| 0 <= j < x.len() implies #[trigger] b[p + j] == x[j] by {
        assert((x + y)[j] == x[j]);
    }
    assert forall|j: int| 0 <= j < y.len() implies #[trigger] b[p + x.len() + j] == y[j] by {
        assert((x + y)[x.len() + j] == y[j]);
        assert(b[p + (x.len() + j)] == (x + y)[x.len() + j]);
    }
}

proof fn lemma_decimal_digits(n: nat)
    ensures
        decimal(n).len() >= 1,
        forall|k: int| 0 <= k < decimal(n).len() ==> is_digit(#[trigger] decimal(n)[k]),
        n > 0 ==> decimal(n)[0] != 48,
        n == 0 ==> decimal(n).len() == 1 && decimal(n)[0] == 48,
    decreases n,
{
    if n >= 10 {
        lemma_decimal_digits(n / 10);
    }
}

proof fn lemma_decimal_value(b: Seq<u8>, p: int, n: nat)
    requires
        holds_at(b, p, decimal(n)),
    ensures
        digits_value(b, p, p + decimal(n).len()) == n,
    decreases n,
{
    if n < 10 {
        assert(decimal(n).len() == 1);
        assert(b[p + 0] == decimal(n)[0]);
        assert(digits_value(b, p, p) == 0);
        assert(digits_value(b, p, p + 1) == digits_value(b, p, p) * 10 + (b[p] - 48));
    } else {
        let shorter = decimal(n / 10);
        let last = (48 + n % 10) as u8;
        assert(decimal(n) == shorter.push(last));
        assert(shorter.push(last) =~= shorter + seq![last]);
        lemma_holds_split(b, p, shorter, seq![last]);
        lemma_decimal_value(b, p, n / 10);
        let e = p + decimal(n).len();
        assert(b[p + shorter.len() + 0] == seq![last][0]);
        assert(digits_value(b, p, e) == digits_value(b, p, e - 1) * 10 + (b[e - 1] - 48));
    }
}

proof fn lemma_digits_end(b: Seq<u8>, p: int, e: int)
    requires
        0 <= p <= e <= b.len(),
        forall|k: int| p <= k < e ==> is_digit(#[trigger] b[k]),
        e < b.len() ==> !is_digit(b[e]),
    ensures
        digits_end(b, p) == e,
    decreases e - p,
{
    if p < e {
        lemma_digits_end(b, p + 1, e);
    }
}

/// What the decoder reads where `b` holds the digits of `n` and then a
/// byte that is no digit.
proof fn lemma_number_text(b: Seq<u8>, p: int, n: nat, stop: u8)
    requires
        holds_at(b, p, decimal(n) + seq![stop]),
        !is_digit(stop),
    ensures
        digits_end(b, p) == p + decimal(n).len(),
        digits_value(b, p, p + decimal(n).len()) == n,
        p < p + decimal(n).len() < b.len(),
        b[p + decimal(n).len()] == stop,
        !has_leading_zero(b, p, p + decimal(n).len()),
        is_digit(b[p]),
{
    let text = decimal(n);
    let e = p + text.len();
    lemma_holds_split(b, p, text, seq![stop]);
    lemma_decimal_digits(n);
    lemma_decimal_value(b, p, n);
    assert(b[e + 0] == seq![stop][0]);
    assert forall|k: int| p <= k < e implies is_digit(#[trigger] b[k]) by {
        assert(b[p + (k - p)] == text[k - p]);
    }
    lemma_digits_end(b, p, e);
    assert(b[p + 0] == text[0]);
}

proof fn lemma_integer_text(b: Seq<u8>, pos: int, n: int)
    requires
        holds_at(b, pos, integer_encoding(n)),
        -0x8000_0000_0000_0000 <= n <= 0x7fff_ffff_ffff_ffff,
    ensures
        b[pos] == 105,
        parse_integer(b, pos + 1) == Ok::<Parsed, DecodeError>(
            Parsed { value: Value::Integer(n), next: pos + integer_encoding(n).len() },
        ),
{
    if n < 0 {
        let m = (-n) as nat;
        let rest = decimal(m) + seq![101u8];
        assert(integer_encoding(n) =~= seq![105u8, 45u8] + rest);
        lemma_holds_split(b, pos, seq![105u8, 45u8], rest);
        assert(b[pos + 0] == seq![105u8, 45u8][0]);
        assert(b[pos + 1] == seq![105u8, 45u8][1]);
        lemma_number_text(b, pos + 2, m, 101u8);
        lemma_decimal_digits(m);
        assert(b[pos + 2 + 0] == rest[0]);
    } else {
        let m = n as nat;
        let rest = decimal(m) + seq![101u8];
        assert(integer_encoding(n) =~= seq![105u8] + rest);
        lemma_holds_split(b, pos, seq![105u8], rest);
        assert(b[pos + 0] == seq![105u8][0]);
        lemma_number_text(b, pos + 1, m, 101u8);
    }
}

proof fn lemma_bytes_text(b: Seq<u8>, pos: int, s: Seq<u8>)
    requires
        holds_at(b, pos, bytes_encoding(s)),
    ensures
        is_digit(b[pos]),
        parse_bytes(b, pos) == Ok::<Parsed, DecodeError>(
            Parsed { value: Value::Bytes(s), next: pos + bytes_encoding(s).len() },
        ),
{
    let head = decimal(s.len()) + seq![58u8];
    assert(bytes_encoding(s) =~= head + s);
    lemma_holds_split(b, pos, head, s);
    lemma_number_text(b, pos, s.len(), 58u8);
    let start = pos + head.len();
    assert(b.subrange(start, start + s.len()) =~= s) by {
        assert forall|j: int| 0 <= j < s.len() implies b.subrange(start, start + s.len())[j]
            == s[j] by {
            assert(b[start + j] == s[j]);
        }
    }
}

/// The first byte of an encoding is a type tag: never the terminator `e`.
proof fn lemma_first_byte(v: Value)
    ensures
        encoding(v).len() >= 2,
        encoding(v)[0] != 101,
        v is Bytes ==> is_digit(encoding(v)[0]),
{
    match v {
        Value::Integer(n) => {
            if n < 0 {
                lemma_decimal_digits((-n) as nat);
            } else {
                lemma_decimal_digits(n as nat);
            }
        },
        Value::Bytes(s) => {
            lemma_decimal_digits(s.len());
            assert(bytes_encoding(s)[0] == decimal(s.len())[0]);
        },
        Value::List(items) => {},
        Value::Dict(entries) => {},
    }
}

proof fn lemma_items_prefix(b: Seq<u8>, start: int, items: Seq<Value>, m: nat, n: nat)
    requires
        m <= n <= items.len(),
        holds_at(b, start, items_encoding(items, n)),
    ensures
        holds_at(b, start, items_encoding(items, m)),
    decreases n - m,
{
    if m < n {
        lemma_holds_split(
            b,
            start,
            items_encoding(items, (n - 1) as nat),
            encoding(items[n - 1]),
        );
        lemma_items_prefix(b, start, items, m, (n - 1) as nat);
    }
}

proof fn lemma_entries_prefix(b: Seq<u8>, start: int, entries: Seq<Pair>, m: nat, n: nat)
    requires
        m <= n <= entries.len(),
        holds_at(b, start, entries_encoding(entries, n)),
    ensures
        holds_at(b, start, entries_encoding(entries, m)),
    decreases n - m,
{
    if m < n {
        let before = entries_encoding(entries, (n - 1) as nat);
        let key = bytes_encoding(entries[n - 1].key);
        let value = encoding(entries[n - 1].value);
        assert(entries_encoding(entries, n) =~= before + (key + value));
        lemma_holds_split(b, start, before, key + value);
        lemma_entries_prefix(b, start, entries, m, (n - 1) as nat);
    }
}

proof fn lemma_insert_last(entries: Seq<Pair>, k: int, from: int)
    requires
        0 <= from <= k < entries.len(),
        ascending(entries),
    ensures
        first_not_less(entries.take(k), entries[k].key, from) == k,
    decreases k - from,
{
    let held = entries.take(k);
    if from < k {
        assert(held[from] == entries[from]);
        assert(lex_lt(entries[from].key, entries[k].key, 0));
        lemma_insert_last(entries, k, from + 1);
    }
}

/// Decoding reads back a canonical value from wherever its encoding stands.
pub proof fn lemma_parse_encoded(b: Seq<u8>, pos: int, v: Value, depth: nat)
    requires
        canonical(v, depth),
        holds_at(b, pos, encoding(v)),
    ensures
        parse_value(b, pos, depth) == Ok::<Parsed, DecodeError>(
            Parsed { value: v, next: pos + encoding(v).len() },
        ),
    decreases v, 0nat,
{
    lemma_first_byte(v);
    assert(b[pos + 0] == encoding(v)[0]);
    match v {
        Value::Integer(n) => {
            lemma_integer_text(b, pos, n);
        },
        Value::Bytes(s) => {
            lemma_bytes_text(b, pos, s);
        },
        Value::List(items) => {
            let body = items_encoding(items, items.len());
            assert(encoding(v) =~= seq![108u8] + (body + seq![101u8]));
            lemma_holds_split(b, pos, seq![108u8], body + seq![101u8]);
            assert(b[pos + 0] == seq![108u8][0]);
            assert(items.take(0) =~= Seq::<Value>::empty());
            lemma_parse_items(b, pos + 1, items, 0, (depth - 1) as nat);
        },
        Value::Dict(entries) => {
            let body = entries_encoding(entries, entries.len());
            assert(encoding(v) =~= seq![100u8] + (body + seq![101u8]));
            lemma_holds_split(b, pos, seq![100u8], body + seq![101u8]);
            assert(b[pos + 0] == seq![100u8][0]);
            assert(entries.take(0) =~= Seq::<Pair>::empty());
            lemma_parse_entries(b, pos + 1, entries, 0, (depth - 1) as nat);
        },
    }
}

proof fn lemma_parse_items(b: Seq<u8>, start: int, items: Seq<Value>, k: nat, depth: nat)
    requires
        k <= items.len(),
        forall|i: int| 0 <= i < items.len() ==> canonical(#[trigger] items[i], depth),
        holds_at(b, start, items_encoding(items, items.len()) + seq![101u8]),
    ensures
        parse_items(b, start + items_encoding(items, k).len(), depth, items.take(k as int)) == Ok::<
            Parsed,
            DecodeError,
        >(
            Parsed {
                value: Value::List(items),
                next: start + items_encoding(items, items.len()).len() + 1,
            },
        ),
    decreases items, items.len() - k,
{
    let body = items_encoding(items, items.len());
    let here = start + items_encoding(items, k).len();
    lemma_holds_split(b, start, body, seq![101u8]);
    assert(b[start + body.len() + 0] == seq![101u8][0]);
    if k == items.len() {
        assert(items.take(k as int) =~= items);
    } else {
        let item = items[k as int];
        let text = encoding(item);
        lemma_items_prefix(b, start, items, k + 1, items.len());
        assert(items_encoding(items, k + 1) == items_encoding(items, k) + text);
        lemma_holds_split(b, start, items_encoding(items, k), text);
        lemma_first_byte(item);
        assert(b[here + 0] == text[0]);
        lemma_parse_encoded(b, here, item, depth);
        assert(items.take(k as int).push(item) =~= items.take(k as int + 1));
        lemma_parse_items(b, start, items, k + 1, depth);
    }
}

proof fn lemma_parse_entries(b: Seq<u8>, start: int, entries: Seq<Pair>, k: nat, depth: nat)
    requires
        k <= entries.len(),
        ascending(entries),
        forall|i: int|
            0 <= i < entries.len() ==> canonical((#[trigger] entries[i]).value, depth),
        holds_at(b, start, entries_encoding(entries, entries.len()) + seq![101u8]),
    ensures
        parse_entries(b, start + entries_encoding(entries, k).len(), depth, entries.take(k as int))
            == Ok::<Parsed, DecodeError>(
            Parsed {
                value: Value::Dict(entries),
                next: start + entries_encoding(entries, entries.len()).len() + 1,
            },
        ),
    decreases entries, entries.len() - k,
{
    let body = entries_encoding(entries, entries.len());
    let here = start + entries_encoding(entries, k).len();
    lemma_holds_split(b, start, body, seq![101u8]);
    assert(b[start + body.len() + 0] == seq![101u8][0]);
    if k == entries.len() {
        assert(entries.take(k as int) =~= entries);
    } else {
        let entry = entries[k as int];
        let key_text = bytes_encoding(entry.key);
        let value_text = encoding(entry.value);
        lemma_entries_prefix(b, start, entries, k + 1, entries.len());
        assert(entries_encoding(entries, k + 1) =~= entries_encoding(entries, k) + (key_text
            + value_text));
        lemma_holds_split(b, start, entries_encoding(entries, k), key_text + value_text);
        lemma_holds_split(b, here, key_text, value_text);
        lemma_bytes_text(b, here, entry.key);
        lemma_first_byte(Value::Bytes(entry.key));
        lemma_first_byte(entry.value);
        lemma_parse_encoded(b, here + key_text.len(), entry.value, depth);
        lemma_insert_last(entries, k as int, 0);
        let held = entries.take(k as int);
        assert(dict_insert(held, entry.key, entry.value) =~= entries.take(k as int + 1)) by {
            assert(held.insert(k as int, entry) =~= entries.take(k as int + 1));
        }
        lemma_parse_entries(b, start, entries, k + 1, depth);
    }
}

proof fn lemma_lex_trans(a: Seq<u8>, b: Seq<u8>, c: Seq<u8>, i: int)
    requires
        0 <= i,
        lex_lt(a, b, i),
        lex_lt(b, c, i),
    ensures
        lex_lt(a, c, i),
    decreases c.len() - i,
{
    if i < a.len() && a[i] == c[i] {
        lemma_lex_trans(a, b, c, i + 1);
    }
}

proof fn lemma_lex_total(a: Seq<u8>, b: Seq<u8>, i: int)
    requires
        0 <= i <= a.len(),
        i <= b.len(),
        forall|k: int| 0 <= k < i ==> a[k] == b[k],
        a != b,
        !lex_lt(a, b, i),
    ensures
        lex_lt(b, a, i),
    decreases a.len() - i,
{
    if i >= b.len() {
        if i >= a.len() {
            assert(a =~= b);
        }
    } else if a[i] == b[i] {
        lemma_lex_total(a, b, i + 1);
    }
}

proof fn lemma_first_not_less(entries: Seq<Pair>, key: Seq<u8>, from: int)
    requires
        0 <= from <= entries.len(),
    ensures
        from <= first_not_less(entries, key, from) <= entries.len(),
        forall|j: int|
            from <= j < first_not_less(entries, key, from) ==> lex_lt(
                (#[trigger] entries[j]).key,
                key,
                0,
            ),
        first_not_less(entries, key, from) < entries.len() ==> !lex_lt(
            entries[first_not_less(entries, key, from)].key,
            key,
            0,
        ),
    decreases entries.len() - from,
{
    if from < entries.len() && lex_lt(entries[from].key, key, 0) {
        lemma_first_not_less(entries, key, from + 1);
    }
}

/// Binding a key in ascending entries leaves them ascending.
pub proof fn lemma_insert_ascending(entries: Seq<Pair>, key: Seq<u8>, value: Value)
    requires
        ascending(entries),
    ensures
        ascending(dict_insert(entries, key, value)),
{
    let at = first_not_less(entries, key, 0);
    let after = dict_insert(entries, key, value);
    lemma_first_not_less(entries, key, 0);
    if at < entries.len() && entries[at].key == key {
        assert forall|i: int, j: int| 0 <= i < j < after.len() implies lex_lt(
            #[trigger] after[i].key,
            #[trigger] after[j].key,
            0,
        ) by {
            assert(after[i].key == entries[i].key);
            assert(after[j].key == entries[j].key);
        }
    } else {
        if at < entries.len() {
            lemma_lex_total(entries[at].key, key, 0);
        }
        assert forall|i: int, j: int| 0 <= i < j < after.len() implies lex_lt(
            #[trigger] after[i].key,
            #[trigger] after[j].key,
            0,
        ) by {
            if j < at {
                assert(after[i] == entries[i] && after[j] == entries[j]);
            } else if j == at {
                assert(after[i] == entries[i]);
            } else if i < at {
                assert(after[i] == entries[i] && after[j] == entries[j - 1]);
            } else if i == at {
                assert(after[j] == entries[j - 1]);
                if j - 1 > at {
                    assert(lex_lt(entries[at].key, entries[j - 1].key, 0));
                    lemma_lex_trans(key, entries[at].key, entries[j - 1].key, 0);
                }
            } else {
                assert(after[i] == entries[i - 1] && after[j] == entries[j - 1]);
            }
        }
    }
}

/// Binding a key to a canonical value among canonical values leaves every
/// value canonical.
proof fn lemma_insert_canonical(entries: Seq<Pair>, key: Seq<u8>, value: Value, depth: nat)
    requires
        canonical(value, depth),
        forall|i: int| 0 <= i < entries.len() ==> canonical((#[trigger] entries[i]).value, depth),
    ensures
        forall|i: int|
            0 <= i < dict_insert(entries, key, value).len() ==> canonical(
                (#[trigger] dict_insert(entries, key, value)[i]).value,
                depth,
            ),
{
    let at = first_not_less(entries, key, 0);
    let after = dict_insert(entries, key, value);
    lemma_first_not_less(entries, key, 0);
    assert forall|i: int| 0 <= i < after.len() implies canonical(
        (#[trigger] after[i]).value,
        depth,
    ) by {
        if at < entries.len() && entries[at].key == key {
            if i != at {
                assert(after[i] == entries[i]);
            }
        } else {
            if i < at {
                assert(after[i] == entries[i]);
            } else if i > at {
                assert(after[i] == entries[i - 1]);
            }
        }
    }
}

proof fn lemma_digit_run(b: Seq<u8>, p: int)
    requires
        0 <= p <= b.len(),
    ensures
        p <= digits_end(b, p) <= b.len(),
        forall|k: int| p <= k < digits_end(b, p) ==> is_digit(#[trigger] b[k]),
    decreases b.len() - p,
{
    if p < b.len() && is_digit(b[p]) {
        lemma_digit_run(b, p + 1);
    }
}

proof fn lemma_run_value(b: Seq<u8>, p: int, e: int)
    requires
        0 <= p <= e <= b.len(),
        forall|k: int| p <= k < e ==> is_digit(#[trigger] b[k]),
    ensures
        digits_value(b, p, e) >= 0,
    decreases e - p,
{
    if p < e {
        lemma_run_value(b, p, e - 1);
    }
}

/// What decoding reads is canonical.
pub proof fn lemma_parsed_canonical(b: Seq<u8>, pos: int, depth: nat)
    ensures
        parse_value(b, pos, depth) matches Ok(p) ==> canonical(p.value, depth),
    decreases depth, b.len() - pos, 0nat,
{
    if 0 <= pos < b.len() {
        if b[pos] == 105 {
            let start = if pos + 1 < b.len() && b[pos + 1] == 45 {
                pos + 2
            } else {
                pos + 1
            };
            lemma_digit_run(b, start);
            lemma_run_value(b, start, digits_end(b, start));
        } else if is_digit(b[pos]) {
        } else if b[pos] == 108 && depth > 0 {
            lemma_items_canonical(b, pos + 1, (depth - 1) as nat, Seq::empty());
        } else if b[pos] == 100 && depth > 0 {
            lemma_entries_canonical(b, pos + 1, (depth - 1) as nat, Seq::empty());
        }
    }
}

proof fn lemma_items_canonical(b: Seq<u8>, pos: int, depth: nat, acc: Seq<Value>)
    requires
        forall|i: int| 0 <= i < acc.len() ==> canonical(#[trigger] acc[i], depth),
    ensures
        parse_items(b, pos, depth, acc) matches Ok(p) ==> canonical(p.value, depth + 1),
    decreases depth, b.len() - pos, 1nat,
{
    if 0 <= pos < b.len() && b[pos] != 101 {
        lemma_parsed_canonical(b, pos, depth);
        match parse_value(b, pos, depth) {
            Ok(item) => {
                if item.next > pos && item.next <= b.len() {
                    lemma_items_canonical(b, item.next, depth, acc.push(item.value));
                }
            },
            Err(_) => {},
        }
    }
}

proof fn lemma_entries_canonical(b: Seq<u8>, pos: int, depth: nat, acc: Seq<Pair>)
    requires
        ascending(acc),
        forall|i: int| 0 <= i < acc.len() ==> canonical((#[trigger] acc[i]).value, depth),
    ensures
        parse_entries(b, pos, depth, acc) matches Ok(p) ==> canonical(p.value, depth + 1),
    decreases depth, b.len() - pos, 1nat,
{
    if 0 <= pos < b.len() && b[pos] != 101 && is_digit(b[pos]) {
        match parse_bytes(b, pos) {
            Ok(key) => {
                if key.next > pos {
                    lemma_parsed_canonical(b, key.next, depth);
                    match parse_value(b, key.next, depth) {
                        Ok(item) => {
                            if item.next > key.next && item.next <= b.len() {
                                lemma_insert_ascending(acc, key.value->Bytes_0, item.value);
                                lemma_insert_canonical(
                                    acc,
                                    key.value->Bytes_0,
                                    item.value,
                                    depth,
                                );
                                lemma_entries_canonical(
                                    b,
                                    item.next,
                                    depth,
                                    dict_insert(acc, key.value->Bytes_0, item.value),
                                );
                            }
                        },
                        Err(_) => {},
                    }
                }
            },
            Err(_) => {},
        }
    }
}

/// Decoding the encoding of a canonical value gives the value back, so the
/// encoding of a canonical value is a fixed point of decoding and encoding
/// again.
pub proof fn lemma_decode_encoded(v: Value)
    requires
        canonical(v, MAX_DEPTH as nat),
    ensures
        decoding(encoding(v)) == Ok::<Value, DecodeError>(v),
{
    let b = encoding(v);
    assert(holds_at(b, 0, b));
    lemma_parse_encoded(b, 0, v, MAX_DEPTH as nat);
}

/// Whatever a buffer decodes to, encoding that value gives a text that
/// decodes to the same value: the canonical form of the buffer, which
/// further rounds of decoding and encoding leave as it is.
pub proof fn lemma_round_trip(b: Seq<u8>)
    ensures
        decoding(b) matches Ok(v) ==> canonical(v, MAX_DEPTH as nat) && decoding(encoding(v))
            == Ok::<Value, DecodeError>(v),
{
    lemma_parsed_canonical(b, 0, MAX_DEPTH as nat);
    match decoding(b) {
        Ok(v) => {
            lemma_decode_encoded(v);
        },
        Err(_) => {},
    }
}

} // verus!

