//! Reading back what the derivation pass wrote: the encoded `info`
//! dictionary, wrapped as a torrent of its own, loads as the same `info`.

use crate::bencode::{bytes_encoding, decimal, encoding, entries_encoding, Pair, Value};
use crate::decode::{decoding, MAX_DEPTH};
use crate::fields::lookup;
use crate::keys::{key_text, Key};
use crate::roundtrip::{ascending, canonical, lemma_decode_encoded, lemma_round_trip};
use crate::torrent::{
    described, enriched, has_piece_length, info_encoding, info_hash_of, info_of, info_value,
    lemma_info_value_canonical, loaded, loading, refusal, torrent_of, FromBufferError,
    InfoModel, TorrentModel,
};
use vstd::prelude::*;
use vstd::utf8::{encode_utf8_decode_utf8, encode_utf8_valid_utf8};

verus! {

/// The text of a torrent that holds the `info` dictionary with the text
/// `info_text` and nothing else: `d4:info`, the text, `e`.
pub open spec fn wrapped(info_text: Seq<u8>) -> Seq<u8> {
    seq![100u8, 52u8, 58u8, 105u8, 110u8, 102u8, 111u8] + info_text + seq![101u8]
}

/// The torrent that holds `info` and nothing beside it.
pub open spec fn bare(info: InfoModel) -> TorrentModel {
    TorrentModel {
        info,
        info_buffer: Seq::empty(),
        info_hash: Seq::empty(),
        info_hash_buffer: Seq::empty(),
        name: Seq::empty(),
        announce: Seq::empty(),
        announce_list: Seq::empty(),
        creation_date: 0,
        comment: Seq::empty(),
        created_by: Seq::empty(),
        url_list: Seq::empty(),
        private: false,
        length: 0,
        pieces: Seq::empty(),
        last_piece_length: 0,
        piece_length: 0,
        files: Seq::empty(),
    }
}

/// Whether an `info` dictionary can be read back from its encoding: its
/// lengths fit a signed 64-bit integer, and its piece length is not zero
/// while it holds piece hashes.
pub open spec fn readable(info: InfoModel) -> bool {
    info.length <= i64::MAX && info.piece_length <= i64::MAX && !(info.piece_length == 0
        && info.pieces.len() > 0)
}

/// The entries of the hashed dictionary, read as an `info` dictionary, give
/// the `info` they were made of.
proof fn lemma_info_read_back(info: InfoModel)
    requires
        info.length <= i64::MAX,
        info.piece_length <= i64::MAX,
    ensures
        info_of(info_value(info)->Dict_0) == info,
        has_piece_length(info_value(info)->Dict_0),
{
    reveal_with_fuel(lookup, 6);
    let entries = info_value(info)->Dict_0;
    encode_utf8_valid_utf8(info.name);
    encode_utf8_decode_utf8(info.name);
    assert(key_text(Key::Length).len() == 6);
    assert(key_text(Key::Name).len() == 4);
    assert(key_text(Key::PieceLength).len() == 12);
    assert(key_text(Key::Pieces).len() == 6);
    assert(key_text(Key::Private).len() == 7);
    assert(key_text(Key::Length)[0] != key_text(Key::Pieces)[0]);
    assert(lookup(entries, key_text(Key::Length), 0) == Some(entries[0].value));
    assert(lookup(entries, key_text(Key::Name), 0) == Some(entries[1].value));
    assert(lookup(entries, key_text(Key::PieceLength), 0) == Some(entries[2].value));
    assert(lookup(entries, key_text(Key::Pieces), 0) == Some(entries[3].value));
    assert(lookup(entries, key_text(Key::Private), 0) == Some(entries[4].value));
}

/// The encoded `info` dictionary, wrapped as a torrent of its own, loads as
/// the torrent that holds that `info` and nothing beside it; the derivation
/// pass then writes the same encoded dictionary and the same info-hash.
pub proof fn lemma_wrapped_info_loads(info: InfoModel)
    requires
        readable(info),
    ensures
        loading(wrapped(info_encoding(info))) == Ok::<
            TorrentModel,
            FromBufferError,
        >(bare(info)),
        enriched(bare(info)).info == info,
        enriched(bare(info)).info_buffer == info_encoding(info),
        enriched(bare(info)).info_hash == info_hash_of(info),
{
    let inner = info_value(info);
    let top = seq![Pair { key: key_text(Key::Info), value: inner }];
    let whole = Value::Dict(top);
    lemma_info_value_canonical(info, (MAX_DEPTH - 1) as nat);
    assert(ascending(top));
    assert(canonical(whole, MAX_DEPTH as nat));
    assert(decimal(4) =~= seq![52u8]);
    assert(bytes_encoding(key_text(Key::Info)) =~= seq![52u8, 58u8, 105u8, 110u8, 102u8, 111u8]);
    assert(entries_encoding(top, 0) =~= Seq::<u8>::empty());
    assert(entries_encoding(top, 1) =~= bytes_encoding(key_text(Key::Info)) + encoding(inner));
    assert(encoding(whole) =~= wrapped(info_encoding(info)));
    lemma_decode_encoded(whole);
    lemma_info_read_back(info);
    reveal_with_fuel(lookup, 3);
    assert(lookup(top, key_text(Key::Info), 0) == Some(inner));
    lemma_only_info(top, inner);
    assert(torrent_of(top, inner->Dict_0).announce_list =~= Seq::empty());
    assert(torrent_of(top, inner->Dict_0).pieces =~= Seq::empty());
    assert(torrent_of(top, inner->Dict_0).files =~= Seq::empty());
    assert(torrent_of(top, inner->Dict_0) == bare(info));
    assert(described(whole) == Ok::<TorrentModel, FromBufferError>(bare(info)));
}

/// A dictionary whose one key is `info` binds nothing to any other key
/// that a torrent reads.
proof fn lemma_only_info(top: Seq<Pair>, inner: Value)
    requires
        top == seq![Pair { key: key_text(Key::Info), value: inner }],
    ensures
        forall|k: Key| k != Key::Info ==> (#[trigger] lookup(top, key_text(k), 0)) is None,
{
    reveal_with_fuel(lookup, 3);
    assert forall|k: Key| k != Key::Info implies (#[trigger] lookup(top, key_text(k), 0))
        is None by {
        let other = key_text(k);
        let own = key_text(Key::Info);
        assert(own.len() == 4);
        assert(own[0] == 105u8);
        if other.len() == 4 {
            assert(other[0] != own[0]);
        }
        assert(other != own);
    }
}

proof fn lemma_lookup_canonical(entries: Seq<Pair>, key: Seq<u8>, from: int, depth: nat)
    requires
        0 <= from,
        forall|i: int| 0 <= i < entries.len() ==> canonical((#[trigger] entries[i]).value, depth),
    ensures
        lookup(entries, key, from) matches Some(v) ==> canonical(v, depth),
    decreases entries.len() - from,
{
    if from < entries.len() && entries[from].key != key {
        lemma_lookup_canonical(entries, key, from + 1, depth);
    }
}

/// The `info` dictionary of a torrent that a buffer holds can be read back
/// from its encoding.
pub proof fn lemma_loaded_is_readable(b: Seq<u8>)
    ensures
        loading(b) matches Ok(t) ==> readable(t.info),
{
    lemma_round_trip(b);
    match decoding(b) {
        Ok(Value::Dict(top)) => {
            lemma_lookup_canonical(top, key_text(Key::Info), 0, (MAX_DEPTH - 1) as nat);
            match lookup(top, key_text(Key::Info), 0) {
                Some(Value::Dict(info)) => {
                    let depth = (MAX_DEPTH - 2) as nat;
                    lemma_lookup_canonical(info, key_text(Key::Length), 0, depth);
                    lemma_lookup_canonical(info, key_text(Key::PieceLength), 0, depth);
                },
                _ => {},
            }
        },
        _ => {},
    }
}

/// Whether a buffer loads as a torrent and holds neither an encoded `info`
/// dictionary nor an info-hash beside `info`.
pub open spec fn loads_underived(b: Seq<u8>) -> bool {
    match loading(b) {
        Ok(t) => loaded(b) is Ok && t.info_buffer.len() == 0 && t.info_hash.len() == 0,
        Err(_) => false,
    }
}

/// Whether the encoded `info` dictionary of a torrent, wrapped as a torrent
/// of its own, loads with the same `info`, the same encoded `info`
/// dictionary and the same info-hash.
pub open spec fn reloads_alike(t: TorrentModel) -> bool {
    loaded(wrapped(t.info_buffer)) matches Ok(again) && again.info == t.info && again.info_buffer
        == t.info_buffer && again.info_hash == t.info_hash
}

/// Loading is stable under a further round: where a buffer that holds
/// neither an encoded `info` dictionary nor an info-hash beside `info`
/// loads as a torrent, the encoded `info` dictionary of that torrent,
/// wrapped as a torrent of its own, loads too, with the same `info`, the
/// same encoded `info` dictionary and the same info-hash.
pub proof fn lemma_reload_is_stable(b: Seq<u8>)
    requires
        loads_underived(b),
    ensures
        reloads_alike(loaded(b)->Ok_0),
{
    let first = loading(b)->Ok_0;
    lemma_loaded_is_readable(b);
    lemma_wrapped_info_loads(first.info);
    assert(refusal(first) is None);
    assert(refusal(bare(first.info)) is None);
}

} // verus!
