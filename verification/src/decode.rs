//! Decoding of bencode text: the grammar as a function on bytes, and the
//! decoder that computes it.

use crate::bencode::{encoding, entry_models, item_models, BencodeValue, Entry, Pair, Value};
use crate::roundtrip::{ascending, canonical, lemma_insert_ascending, lemma_round_trip};
use vstd::prelude::*;
use vstd::slice::{slice_subrange, slice_to_vec};

verus! {

/// Why a buffer does not hold a bencode value.
#[derive(Debug, Clone, Copy, PartialEq, Eq, Structural)]
pub enum DecodeError {
    /// The buffer ends before the value is complete.
    Truncated,
    /// A type tag, a length prefix or an integer is malformed.
    InvalidFormat,
    /// Lists and dictionaries are nested more deeply than `MAX_DEPTH`.
    TooDeep,
}

/// How many lists and dictionaries may stand inside one another.
pub const MAX_DEPTH: usize = 64;

/// A value read from a buffer, and the position that follows it.
pub struct Parsed {
    pub value: Value,
    pub next: int,
}

pub open spec fn is_digit(b: u8) -> bool {
    48 <= b <= 57
}

/// The first position at or after `pos` that holds no digit.
pub open spec fn digits_end(b: Seq<u8>, pos: int) -> int
    decreases b.len() - pos,
{
    if 0 <= pos < b.len() && is_digit(b[pos]) {
        digits_end(b, pos + 1)
    } else {
        pos
    }
}

/// The number that the digits from `from` up to `to` spell in decimal.
pub open spec fn digits_value(b: Seq<u8>, from: int, to: int) -> int
    decreases to - from,
{
    if to <= from {
        0
    } else {
        digits_value(b, from, to - 1) * 10 + (b[to - 1] - 48)
    }
}

/// Whether the digits from `from` up to `to` begin with a zero that is not
/// the whole number.
pub open spec fn has_leading_zero(b: Seq<u8>, from: int, to: int) -> bool {
    to - from > 1 && b[from] == 48
}

/// The integer whose text begins at `pos`, just behind the tag `i`.
pub open spec fn parse_integer(b: Seq<u8>, pos: int) -> Result<Parsed, DecodeError> {
    let negative = pos < b.len() && b[pos] == 45;
    let start = if negative {
        pos + 1
    } else {
        pos
    };
    let end = digits_end(b, start);
    let magnitude = digits_value(b, start, end);
    if end >= b.len() {
        Err(DecodeError::Truncated)
    } else if end == start || b[end] != 101 || has_leading_zero(b, start, end) {
        Err(DecodeError::InvalidFormat)
    } else if negative {
        if magnitude == 0 || magnitude > 0x8000_0000_0000_0000 {
            Err(DecodeError::InvalidFormat)
        } else {
            Ok(Parsed { value: Value::Integer(-magnitude), next: end + 1 })
        }
    } else {
        if magnitude > 0x7fff_ffff_ffff_ffff {
            Err(DecodeError::InvalidFormat)
        } else {
            Ok(Parsed { value: Value::Integer(magnitude), next: end + 1 })
        }
    }
}

/// The byte string whose length prefix begins at `pos`.
pub open spec fn parse_bytes(b: Seq<u8>, pos: int) -> Result<Parsed, DecodeError> {
    let end = digits_end(b, pos);
    let n = digits_value(b, pos, end);
    if end >= b.len() {
        Err(DecodeError::Truncated)
    } else if end == pos || b[end] != 58 || has_leading_zero(b, pos, end) {
        Err(DecodeError::InvalidFormat)
    } else if n > b.len() - (end + 1) {
        Err(DecodeError::Truncated)
    } else {
        Ok(Parsed { value: Value::Bytes(b.subrange(end + 1, end + 1 + n)), next: end + 1 + n })
    }
}

/// Whether `a` comes before `b` in lexicographic byte order, given that the
/// two agree before position `i`.
pub open spec fn lex_lt(a: Seq<u8>, b: Seq<u8>, i: int) -> bool
    decreases b.len() - i,
{
    if i < 0 || i >= b.len() {
        false
    } else if i >= a.len() {
        true
    } else if a[i] != b[i] {
        a[i] < b[i]
    } else {
        lex_lt(a, b, i + 1)
    }
}

/// The first position at or after `from` whose key does not come before `key`.
pub open spec fn first_not_less(entries: Seq<Pair>, key: Seq<u8>, from: int) -> int
    decreases entries.len() - from,
{
    if 0 <= from < entries.len() && lex_lt(entries[from].key, key, 0) {
        first_not_less(entries, key, from + 1)
    } else {
        from
    }
}

/// The entries with `key` bound to `value`: in place of the entry that has
/// that key, or else in front of the first entry with a greater key.
pub open spec fn dict_insert(entries: Seq<Pair>, key: Seq<u8>, value: Value) -> Seq<Pair> {
    let i = first_not_less(entries, key, 0);
    if 0 <= i < entries.len() && entries[i].key == key {
        entries.update(i, Pair { key, value })
    } else {
        entries.insert(i, Pair { key, value })
    }
}

/// The value whose text begins at `pos`, with `depth` levels of nesting left.
pub open spec fn parse_value(b: Seq<u8>, pos: int, depth: nat) -> Result<Parsed, DecodeError>
    decreases depth, b.len() - pos, 0nat,
{
    if pos < 0 || pos >= b.len() {
        Err(DecodeError::Truncated)
    } else if b[pos] == 105 {
        parse_integer(b, pos + 1)
    } else if is_digit(b[pos]) {
        parse_bytes(b, pos)
    } else if b[pos] == 108 {
        if depth == 0 {
            Err(DecodeError::TooDeep)
        } else {
            parse_items(b, pos + 1, (depth - 1) as nat, Seq::empty())
        }
    } else if b[pos] == 100 {
        if depth == 0 {
            Err(DecodeError::TooDeep)
        } else {
            parse_entries(b, pos + 1, (depth - 1) as nat, Seq::empty())
        }
    } else {
        Err(DecodeError::InvalidFormat)
    }
}

/// The list whose items from `pos` on follow those already read, `acc`.
pub open spec fn parse_items(b: Seq<u8>, pos: int, depth: nat, acc: Seq<Value>) -> Result<
    Parsed,
    DecodeError,
>
    decreases depth, b.len() - pos, 1nat,
{
    if pos < 0 || pos >= b.len() {
        Err(DecodeError::Truncated)
    } else if b[pos] == 101 {
        Ok(Parsed { value: Value::List(acc), next: pos + 1 })
    } else {
        match parse_value(b, pos, depth) {
            Err(e) => Err(e),
            Ok(item) => if item.next <= pos || item.next > b.len() {
                Err(DecodeError::InvalidFormat)
            } else {
                parse_items(b, item.next, depth, acc.push(item.value))
            },
        }
    }
}

/// The dictionary whose entries from `pos` on are added to those already
/// read, `acc`. A key must be a byte string; of two entries with one key the
/// later stays.
pub open spec fn parse_entries(b: Seq<u8>, pos: int, depth: nat, acc: Seq<Pair>) -> Result<
    Parsed,
    DecodeError,
>
    decreases depth, b.len() - pos, 1nat,
{
    if pos < 0 || pos >= b.len() {
        Err(DecodeError::Truncated)
    } else if b[pos] == 101 {
        Ok(Parsed { value: Value::Dict(acc), next: pos + 1 })
    } else if !is_digit(b[pos]) {
        Err(DecodeError::InvalidFormat)
    } else {
        match parse_bytes(b, pos) {
            Err(e) => Err(e),
            Ok(key) => if key.next <= pos {
                Err(DecodeError::InvalidFormat)
            } else {
                match parse_value(b, key.next, depth) {
                    Err(e) => Err(e),
                    Ok(item) => if item.next <= key.next || item.next > b.len() {
                        Err(DecodeError::InvalidFormat)
                    } else {
                        parse_entries(
                            b,
                            item.next,
                            depth,
                            dict_insert(acc, key.value->Bytes_0, item.value),
                        )
                    },
                }
            },
        }
    }
}

/// What decoding a buffer gives: the value at its start, or the error.
pub open spec fn decoding(b: Seq<u8>) -> Result<Value, DecodeError> {
    match parse_value(b, 0, MAX_DEPTH as nat) {
        Ok(p) => Ok(p.value),
        Err(e) => Err(e),
    }
}

proof fn lemma_digits_value_bounds(b: Seq<u8>, from: int, mid: int, to: int)
    requires
        0 <= from <= mid <= to <= b.len(),
        forall|k: int| from <= k < to ==> is_digit(#[trigger] b[k]),
    ensures
        0 <= digits_value(b, from, mid) <= digits_value(b, from, to),
    decreases to - from,
{
    if from < mid {
        lemma_digits_value_bounds(b, from, mid - 1, mid - 1);
    }
    if mid < to {
        lemma_digits_value_bounds(b, from, mid, to - 1);
    }
}

/// Finds where the run of digits that begins at `pos` ends.
fn scan_digits(b: &[u8], pos: usize) -> (end: usize)
    requires
        pos <= b@.len(),
    ensures
        end == digits_end(b@, pos as int),
        pos <= end <= b@.len(),
        forall|k: int| pos <= k < end ==> is_digit(#[trigger] b@[k]),
{
    let mut i: usize = pos;
    while i < b.len() && b[i] >= 48 && b[i] <= 57
        invariant
            pos <= i <= b@.len(),
            digits_end(b@, pos as int) == digits_end(b@, i as int),
            forall|k: int| pos <= k < i ==> is_digit(#[trigger] b@[k]),
        decreases b@.len() - i,
    {
        i = i + 1;
    }
    i
}

/// Reads the digits from `from` up to `to` as a number no greater than `limit`.
fn read_number(b: &[u8], from: usize, to: usize, limit: u64) -> (r: Option<u64>)
    requires
        from <= to <= b@.len(),
        forall|k: int| from <= k < to ==> is_digit(#[trigger] b@[k]),
    ensures
        match r {
            Some(n) => n == digits_value(b@, from as int, to as int) && n <= limit,
            None => digits_value(b@, from as int, to as int) > limit,
        },
{
    let mut acc: u64 = 0;
    let mut i: usize = from;
    while i < to
        invariant
            from <= i <= to <= b@.len(),
            acc == digits_value(b@, from as int, i as int),
            acc <= limit,
            forall|k: int| from <= k < to ==> is_digit(#[trigger] b@[k]),
        decreases to - i,
    {
        assert(is_digit(b@[i as int]));
        let d: u64 = (b[i] - 48) as u64;
        proof {
            lemma_digits_value_bounds(b@, from as int, i + 1, to as int);
        }
        if acc > limit / 10 {
            return None;
        }
        let t: u64 = acc * 10;
        if d > limit - t {
            return None;
        }
        acc = t + d;
        i = i + 1;
    }
    Some(acc)
}

/// Reads the integer whose text begins at `pos`, just behind the tag.
fn read_integer(b: &[u8], pos: usize) -> (r: Result<(i64, usize), DecodeError>)
    requires
        pos <= b@.len(),
    ensures
        match parse_integer(b@, pos as int) {
            Ok(p) => r matches Ok(t) && p.value == Value::Integer(t.0 as int) && p.next == t.1
                && pos < t.1 <= b@.len(),
            Err(e) => r matches Err(x) && x == e,
        },
{
    let negative: bool = pos < b.len() && b[pos] == 45;
    let start: usize = if negative {
        pos + 1
    } else {
        pos
    };
    let end: usize = scan_digits(b, start);
    if end >= b.len() {
        return Err(DecodeError::Truncated);
    }
    if end == start || b[end] != 101 || (end - start > 1 && b[start] == 48) {
        return Err(DecodeError::InvalidFormat);
    }
    if negative {
        match read_number(b, start, end, 0x8000_0000_0000_0000) {
            None => Err(DecodeError::InvalidFormat),
            Some(m) => {
                if m == 0 {
                    Err(DecodeError::InvalidFormat)
                } else if m == 0x8000_0000_0000_0000 {
                    Ok((i64::MIN, end + 1))
                } else {
                    Ok((-(m as i64), end + 1))
                }
            },
        }
    } else {
        match read_number(b, start, end, 0x7fff_ffff_ffff_ffff) {
            None => Err(DecodeError::InvalidFormat),
            Some(m) => Ok((m as i64, end + 1)),
        }
    }
}

/// Reads the byte string whose length prefix begins at `pos`.
fn read_bytes(b: &[u8], pos: usize) -> (r: Result<(Vec<u8>, usize), DecodeError>)
    requires
        pos <= b@.len(),
    ensures
        match parse_bytes(b@, pos as int) {
            Ok(p) => r matches Ok(t) && p.value == Value::Bytes(t.0@) && p.next == t.1 && pos
                < t.1 <= b@.len(),
            Err(e) => r matches Err(x) && x == e,
        },
{
    let end: usize = scan_digits(b, pos);
    if end >= b.len() {
        return Err(DecodeError::Truncated);
    }
    if end == pos || b[end] != 58 || (end - pos > 1 && b[pos] == 48) {
        return Err(DecodeError::InvalidFormat);
    }
    let room: usize = b.len() - (end + 1);
    match read_number(b, pos, end, room as u64) {
        None => Err(DecodeError::Truncated),
        Some(n) => {
            let stop: usize = end + 1 + n as usize;
            let s: Vec<u8> = slice_to_vec(slice_subrange(b, end + 1, stop));
            Ok((s, stop))
        },
    }
}

/// Whether `a` comes before `b` in lexicographic byte order.
pub fn bytes_less(a: &[u8], b: &[u8]) -> (r: bool)
    ensures
        r == lex_lt(a@, b@, 0),
{
    let mut i: usize = 0;
    while i < b.len() && i < a.len() && a[i] == b[i]
        invariant
            i <= a@.len(),
            i <= b@.len(),
            lex_lt(a@, b@, 0) == lex_lt(a@, b@, i as int),
        decreases b@.len() - i,
    {
        i = i + 1;
    }
    if i >= b.len() {
        false
    } else if i >= a.len() {
        true
    } else {
        a[i] < b[i]
    }
}

/// Whether `a` and `b` hold the same bytes.
pub fn bytes_equal(a: &[u8], b: &[u8]) -> (r: bool)
    ensures
        r == (a@ == b@),
{
    if a.len() != b.len() {
        return false;
    }
    let mut i: usize = 0;
    while i < a.len()
        invariant
            i <= a@.len(),
            a@.len() == b@.len(),
            forall|k: int| 0 <= k < i ==> a@[k] == b@[k],
        decreases a@.len() - i,
    {
        if a[i] != b[i] {
            return false;
        }
        i = i + 1;
    }
    assert(a@ =~= b@);
    true
}

/// Binds `key` to `value` in a dictionary's entries: in place of the entry
/// with that key, or else in front of the first entry with a greater key.
/// Entries whose keys ascend keep ascending keys.
pub fn insert_entry(entries: &mut Vec<Entry>, key: Vec<u8>, value: BencodeValue)
    ensures
        entry_models(final(entries)@) == dict_insert(entry_models(old(entries)@), key@, value@),
        ascending(entry_models(old(entries)@)) ==> ascending(entry_models(final(entries)@)),
{
    let ghost models = entry_models(entries@);
    proof {
        if ascending(models) {
            lemma_insert_ascending(models, key@, value@);
        }
    }
    let mut i: usize = 0;
    while i < entries.len() && bytes_less(entries[i].key.as_slice(), key.as_slice())
        invariant
            i <= entries@.len(),
            entries@ == old(entries)@,
            models == entry_models(entries@),
            first_not_less(models, key@, 0) == first_not_less(models, key@, i as int),
        decreases entries@.len() - i,
    {
        i = i + 1;
    }
    let ghost pair = Pair { key: key@, value: value@ };
    if i < entries.len() && bytes_equal(entries[i].key.as_slice(), key.as_slice()) {
        entries.set(i, Entry { key, value });
        assert(entry_models(entries@) =~= models.update(i as int, pair));
    } else {
        entries.insert(i, Entry { key, value });
        assert(entry_models(entries@) =~= models.insert(i as int, pair));
    }
}

/// Reads the value whose text begins at `pos`, with `depth` levels of nesting left.
fn read_value(b: &[u8], pos: usize, depth: usize) -> (r: Result<(BencodeValue, usize), DecodeError>)
    requires
        pos <= b@.len(),
    ensures
        match parse_value(b@, pos as int, depth as nat) {
            Ok(p) => r matches Ok(t) && t.0@ == p.value && t.1 == p.next && pos < t.1 <= b@.len(),
            Err(e) => r matches Err(x) && x == e,
        },
    decreases depth, b@.len() - pos,
{
    if pos >= b.len() {
        return Err(DecodeError::Truncated);
    }
    let tag: u8 = b[pos];
    if tag == 105 {
        match read_integer(b, pos + 1) {
            Ok((n, next)) => Ok((BencodeValue::Integer(n), next)),
            Err(e) => Err(e),
        }
    } else if tag >= 48 && tag <= 57 {
        match read_bytes(b, pos) {
            Ok((s, next)) => Ok((BencodeValue::ByteString(s), next)),
            Err(e) => Err(e),
        }
    } else if tag == 108 {
        if depth == 0 {
            return Err(DecodeError::TooDeep);
        }
        let mut items: Vec<BencodeValue> = Vec::new();
        let mut cur: usize = pos + 1;
        assert(item_models(items@) =~= Seq::empty());
        loop
            invariant
                pos < cur <= b@.len(),
                depth > 0,
                parse_value(b@, pos as int, depth as nat) == parse_items(
                    b@,
                    cur as int,
                    (depth - 1) as nat,
                    item_models(items@),
                ),
            decreases b@.len() - cur,
        {
            if cur >= b.len() {
                return Err(DecodeError::Truncated);
            }
            if b[cur] == 101 {
                let list = BencodeValue::List(items);
                assert(list@->List_0 =~= item_models(items@));
                return Ok((list, cur + 1));
            }
            match read_value(b, cur, depth - 1) {
                Err(e) => {
                    return Err(e);
                },
                Ok((item, next)) => {
                    let ghost before = item_models(items@);
                    items.push(item);
                    assert(item_models(items@) =~= before.push(item@));
                    cur = next;
                },
            }
        }
    } else if tag == 100 {
        if depth == 0 {
            return Err(DecodeError::TooDeep);
        }
        let mut entries: Vec<Entry> = Vec::new();
        let mut cur: usize = pos + 1;
        assert(entry_models(entries@) =~= Seq::empty());
        loop
            invariant
                pos < cur <= b@.len(),
                depth > 0,
                parse_value(b@, pos as int, depth as nat) == parse_entries(
                    b@,
                    cur as int,
                    (depth - 1) as nat,
                    entry_models(entries@),
                ),
            decreases b@.len() - cur,
        {
            if cur >= b.len() {
                return Err(DecodeError::Truncated);
            }
            if b[cur] == 101 {
                let dict = BencodeValue::Dict(entries);
                assert(dict@->Dict_0 =~= entry_models(entries@));
                return Ok((dict, cur + 1));
            }
            if b[cur] < 48 || b[cur] > 57 {
                return Err(DecodeError::InvalidFormat);
            }
            match read_bytes(b, cur) {
                Err(e) => {
                    return Err(e);
                },
                Ok((key, after_key)) => {
                    match read_value(b, after_key, depth - 1) {
                        Err(e) => {
                            return Err(e);
                        },
                        Ok((item, next)) => {
                            insert_entry(&mut entries, key, item);
                            cur = next;
                        },
                    }
                },
            }
        }
    } else {
        Err(DecodeError::InvalidFormat)
    }
}

/// Decodes the bencode value at the start of `bytes`. What follows the value
/// is not read. The value is canonical, and decoding its encoding gives it back.
pub fn decode(bytes: &[u8]) -> (r: Result<BencodeValue, DecodeError>)
    ensures
        match decoding(bytes@) {
            Ok(v) => r matches Ok(x) && x@ == v,
            Err(e) => r matches Err(x) && x == e,
        },
        r matches Ok(x) ==> canonical(x@, MAX_DEPTH as nat) && decoding(encoding(x@)) == Ok::<
            Value,
            DecodeError,
        >(x@),
{
    proof {
        lemma_round_trip(bytes@);
    }
    match read_value(bytes, 0, MAX_DEPTH) {
        Ok((v, _)) => Ok(v),
        Err(e) => Err(e),
    }
}

} // verus!
