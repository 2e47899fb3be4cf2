//! The torrent descriptor: its model, how it is read from a decoded
//! dictionary, and the pass that fills in the derived fields.

use crate::bencode::{encode, encoding, entry_models, BencodeValue, Entry, Pair, Value};
use crate::decode::{decode, decoding, lex_lt, DecodeError, MAX_DEPTH};
use crate::digest::{hex_digest, is_hex, sha1_hex, MAX_DIGEST_INPUT};
use crate::fields::{
    bytes_field, dict_field, find, lookup, number_field, read_bytes_field, read_number_field,
    read_text_field, text_field, text_from_bytes, text_of,
};
use crate::keys::{key_bytes, key_text, Key};
use crate::pieces::{record_views, segment_pieces, segments, SegmentError};
use crate::reload::{
    bare, lemma_reload_is_stable, lemma_wrapped_info_loads, loads_underived, readable,
    reloads_alike, wrapped,
};
use crate::roundtrip::{ascending, canonical, lemma_decode_encoded};
use vstd::prelude::*;
use vstd::string::*;
use vstd::utf8::encode_utf8;

verus! {

/// One file of the content that a torrent describes.
#[derive(Debug, Clone, PartialEq, Eq)]
pub struct File {
    pub name: String,
    pub path: String,
    pub length: u64,
    pub offset: u64,
    pub md5sum: String,
}

/// The `info` dictionary: what the content is called and how it is cut into pieces.
#[derive(Debug, Clone, PartialEq, Eq)]
pub struct Info {
    pub length: u64,
    pub name: String,
    pub pieces: Vec<u8>,
    pub piece_length: u64,
    pub private: u8,
}

/// The fields of `Info` that take part in the info-hash, ready to be encoded.
#[derive(Debug, Clone, PartialEq, Eq)]
pub struct InfoBuf {
    pub length: u64,
    pub name: String,
    pub pieces: Vec<u8>,
    pub piece_length: u64,
    pub private: u8,
}

/// A torrent: the `info` dictionary, the fields that stand beside it, and
/// the fields derived from both.
#[derive(Debug, Clone, PartialEq, Eq)]
pub struct Torrent {
    pub info: Info,
    pub info_buffer: Vec<u8>,
    pub info_hash: String,
    pub info_hash_buffer: Vec<u8>,
    pub name: String,
    pub announce: String,
    pub announce_list: Vec<Vec<String>>,
    pub creation_date: u64,
    pub comment: String,
    pub created_by: String,
    pub url_list: String,
    pub private: bool,
    pub length: u64,
    pub pieces: Vec<Vec<u8>>,
    pub last_piece_length: u64,
    pub piece_length: u64,
    pub files: Vec<File>,
}

/// The mathematical model of a `File`.
pub struct FileModel {
    pub name: Seq<char>,
    pub path: Seq<char>,
    pub length: u64,
    pub offset: u64,
    pub md5sum: Seq<char>,
}

/// The mathematical model of an `Info` and of an `InfoBuf`.
pub struct InfoModel {
    pub length: u64,
    pub name: Seq<char>,
    pub pieces: Seq<u8>,
    pub piece_length: u64,
    pub private: u8,
}

/// The mathematical model of a `Torrent`.
pub struct TorrentModel {
    pub info: InfoModel,
    pub info_buffer: Seq<u8>,
    pub info_hash: Seq<char>,
    pub info_hash_buffer: Seq<u8>,
    pub name: Seq<char>,
    pub announce: Seq<char>,
    pub announce_list: Seq<Seq<Seq<char>>>,
    pub creation_date: u64,
    pub comment: Seq<char>,
    pub created_by: Seq<char>,
    pub url_list: Seq<char>,
    pub private: bool,
    pub length: u64,
    pub pieces: Seq<Seq<u8>>,
    pub last_piece_length: u64,
    pub piece_length: u64,
    pub files: Seq<FileModel>,
}

impl View for File {
    type V = FileModel;

    open spec fn view(&self) -> FileModel {
        FileModel {
            name: self.name@,
            path: self.path@,
            length: self.length,
            offset: self.offset,
            md5sum: self.md5sum@,
        }
    }
}

impl View for Info {
    type V = InfoModel;

    open spec fn view(&self) -> InfoModel {
        InfoModel {
            length: self.length,
            name: self.name@,
            pieces: self.pieces@,
            piece_length: self.piece_length,
            private: self.private,
        }
    }
}

impl View for InfoBuf {
    type V = InfoModel;

    open spec fn view(&self) -> InfoModel {
        InfoModel {
            length: self.length,
            name: self.name@,
            pieces: self.pieces@,
            piece_length: self.piece_length,
            private: self.private,
        }
    }
}

/// The models of a list of files, in order.
pub open spec fn file_models(files: Seq<File>) -> Seq<FileModel> {
    Seq::new(files.len(), |i: int| files[i]@)
}

/// The texts of a list of strings, in order.
pub open spec fn text_views(texts: Seq<String>) -> Seq<Seq<char>> {
    Seq::new(texts.len(), |j: int| texts[j]@)
}

/// The texts of the tiers of an announce list, in order.
pub open spec fn tier_models(tiers: Seq<Vec<String>>) -> Seq<Seq<Seq<char>>> {
    Seq::new(tiers.len(), |i: int| text_views(tiers[i]@))
}

impl View for Torrent {
    type V = TorrentModel;

    open spec fn view(&self) -> TorrentModel {
        TorrentModel {
            info: self.info@,
            info_buffer: self.info_buffer@,
            info_hash: self.info_hash@,
            info_hash_buffer: self.info_hash_buffer@,
            name: self.name@,
            announce: self.announce@,
            announce_list: tier_models(self.announce_list@),
            creation_date: self.creation_date,
            comment: self.comment@,
            created_by: self.created_by@,
            url_list: self.url_list@,
            private: self.private,
            length: self.length,
            pieces: record_views(self.pieces@),
            last_piece_length: self.last_piece_length,
            piece_length: self.piece_length,
            files: file_models(self.files@),
        }
    }
}

/// The 64-bit signed integer with the same bits as `n`: the number that a
/// bencode integer holds for it.
pub open spec fn signed(n: u64) -> int {
    if n <= i64::MAX {
        n as int
    } else {
        n - 0x1_0000_0000_0000_0000
    }
}

/// The dictionary that is hashed: the five fields of `info`, each under its
/// key, the keys in ascending byte order.
pub open spec fn info_value(info: InfoModel) -> Value {
    Value::Dict(
        seq![
            Pair { key: key_text(Key::Length), value: Value::Integer(signed(info.length)) },
            Pair { key: key_text(Key::Name), value: Value::Bytes(encode_utf8(info.name)) },
            Pair {
                key: key_text(Key::PieceLength),
                value: Value::Integer(signed(info.piece_length)),
            },
            Pair { key: key_text(Key::Pieces), value: Value::Bytes(info.pieces) },
            Pair { key: key_text(Key::Private), value: Value::Integer(info.private as int) },
        ],
    )
}

/// The dictionary that is hashed is canonical wherever one level of
/// nesting is left: its keys ascend and its numbers fit 64 bits.
pub proof fn lemma_info_value_canonical(info: InfoModel, depth: nat)
    requires
        depth >= 1,
    ensures
        canonical(info_value(info), depth),
{
    reveal_with_fuel(lex_lt, 8);
    let entries = info_value(info)->Dict_0;
    assert(lex_lt(entries[0].key, entries[1].key, 0));
    assert(lex_lt(entries[1].key, entries[2].key, 0));
    assert(lex_lt(entries[2].key, entries[3].key, 0));
    assert(lex_lt(entries[3].key, entries[4].key, 0));
    assert(lex_lt(entries[0].key, entries[2].key, 0));
    assert(lex_lt(entries[0].key, entries[3].key, 0));
    assert(lex_lt(entries[0].key, entries[4].key, 0));
    assert(lex_lt(entries[1].key, entries[3].key, 0));
    assert(lex_lt(entries[1].key, entries[4].key, 0));
    assert(lex_lt(entries[2].key, entries[4].key, 0));
    assert(ascending(entries));
    assert forall|i: int| 0 <= i < entries.len() implies canonical(
        (#[trigger] entries[i]).value,
        (depth - 1) as nat,
    ) by {
        if i == 0 {
        } else if i == 1 {
        } else if i == 2 {
        } else if i == 3 {
        } else {
        }
    }
}

/// The canonical bytes of the `info` dictionary.
pub open spec fn info_encoding(info: InfoModel) -> Seq<u8> {
    encoding(info_value(info))
}

/// The canonical bytes of the `info` dictionary decode to that dictionary.
pub proof fn lemma_info_encoding_decodes(info: InfoModel)
    ensures
        decoding(info_encoding(info)) == Ok::<Value, DecodeError>(info_value(info)),
{
    lemma_info_value_canonical(info, MAX_DEPTH as nat);
    lemma_decode_encoded(info_value(info));
}

/// Why a buffer gives no torrent.
#[derive(Debug, Clone, Copy, PartialEq, Eq)]
pub enum FromBufferError {
    /// The buffer holds no bencode value.
    DecodeError(DecodeError),
    /// The value is no dictionary, or no dictionary is bound to `info` in it.
    MissingInfo,
    /// The `info` dictionary gives no piece length, or gives zero while it
    /// holds piece hashes.
    InvalidPieceLength,
}

/// Why a text gives no torrent.
#[derive(Debug, Clone, Copy, PartialEq, Eq)]
pub enum FromStringError {
    /// The text holds no bencode value.
    DecodeError(DecodeError),
    /// The value is no dictionary, or no dictionary is bound to `info` in it.
    MissingInfo,
    /// The `info` dictionary gives no piece length, or gives zero while it
    /// holds piece hashes.
    InvalidPieceLength,
}

/// Why the derived fields of a torrent cannot be filled in.
#[derive(Debug, Clone, Copy, PartialEq, Eq)]
pub enum UpdateError {
    /// The buffer of piece hashes cannot be cut into records.
    Segment(SegmentError),
    /// The encoded `info` dictionary is longer than the hasher takes.
    InfoTooLong,
}

/// Why a buffer gives no torrent with its derived fields filled in.
#[derive(Debug, Clone, Copy, PartialEq, Eq)]
pub enum LoadError {
    /// The buffer holds no torrent.
    Buffer(FromBufferError),
    /// The torrent's derived fields cannot be filled in.
    Update(UpdateError),
}

/// The error of `from_string` that stands for an error of `from_buffer`.
pub open spec fn string_error(e: FromBufferError) -> FromStringError {
    match e {
        FromBufferError::DecodeError(d) => FromStringError::DecodeError(d),
        FromBufferError::MissingInfo => FromStringError::MissingInfo,
        FromBufferError::InvalidPieceLength => FromStringError::InvalidPieceLength,
    }
}

/// The flag bound to `key`: the number there where it fits one byte, else 0.
pub open spec fn flag_field(entries: Seq<Pair>, key: Seq<u8>) -> u8 {
    let n = number_field(entries, key);
    if n <= 255 {
        n as u8
    } else {
        0
    }
}

/// The text that a value holds, or the empty text where it is no byte string.
pub open spec fn text_of_value(v: Value) -> Seq<char> {
    match v {
        Value::Bytes(s) => text_of(s),
        _ => Seq::empty(),
    }
}

/// One tier of an announce list: the texts of the items of a list, or no
/// text where the value is no list.
pub open spec fn tier_of(v: Value) -> Seq<Seq<char>> {
    match v {
        Value::List(items) => Seq::new(items.len(), |i: int| text_of_value(items[i])),
        _ => Seq::empty(),
    }
}

/// The announce list: one tier for each item of the list bound to its key.
pub open spec fn tiers_of(v: Option<Value>) -> Seq<Seq<Seq<char>>> {
    match v {
        Some(Value::List(items)) => Seq::new(items.len(), |i: int| tier_of(items[i])),
        _ => Seq::empty(),
    }
}

/// The bytes that a value holds, or none where it is no byte string.
pub open spec fn bytes_of_value(v: Value) -> Seq<u8> {
    match v {
        Value::Bytes(s) => s,
        _ => Seq::empty(),
    }
}

/// The piece hashes given as a list: the bytes of each item of the list.
pub open spec fn records_of(v: Option<Value>) -> Seq<Seq<u8>> {
    match v {
        Some(Value::List(items)) => Seq::new(items.len(), |i: int| bytes_of_value(items[i])),
        _ => Seq::empty(),
    }
}

/// The entries of a value that is a dictionary, and no entries otherwise.
pub open spec fn entries_of(v: Value) -> Seq<Pair> {
    match v {
        Value::Dict(entries) => entries,
        _ => Seq::empty(),
    }
}

/// One file as read from the entries of its dictionary.
pub open spec fn file_of(v: Value) -> FileModel {
    let entries = entries_of(v);
    FileModel {
        name: text_field(entries, key_text(Key::Name)),
        path: text_field(entries, key_text(Key::Path)),
        length: number_field(entries, key_text(Key::Length)),
        offset: number_field(entries, key_text(Key::Offset)),
        md5sum: text_field(entries, key_text(Key::Md5sum)),
    }
}

/// The file list: one file for each item of the list bound to its key.
pub open spec fn files_of(v: Option<Value>) -> Seq<FileModel> {
    match v {
        Some(Value::List(items)) => Seq::new(items.len(), |i: int| file_of(items[i])),
        _ => Seq::empty(),
    }
}

/// The `info` dictionary as read from its entries.
pub open spec fn info_of(info: Seq<Pair>) -> InfoModel {
    InfoModel {
        length: number_field(info, key_text(Key::Length)),
        name: text_field(info, key_text(Key::Name)),
        pieces: bytes_field(info, key_text(Key::Pieces)),
        piece_length: number_field(info, key_text(Key::PieceLength)),
        private: flag_field(info, key_text(Key::Private)),
    }
}

/// The torrent as read from the entries of the top-level dictionary and of
/// its `info` dictionary, before the derivation pass. A derived field holds
/// what the top-level dictionary binds to its key, which is mostly nothing.
pub open spec fn torrent_of(top: Seq<Pair>, info: Seq<Pair>) -> TorrentModel {
    TorrentModel {
        info: info_of(info),
        info_buffer: bytes_field(top, key_text(Key::InfoBuffer)),
        info_hash: text_field(top, key_text(Key::InfoHash)),
        info_hash_buffer: bytes_field(top, key_text(Key::InfoHashBuffer)),
        name: text_field(top, key_text(Key::Name)),
        announce: text_field(top, key_text(Key::Announce)),
        announce_list: tiers_of(lookup(top, key_text(Key::AnnounceList), 0)),
        creation_date: number_field(top, key_text(Key::CreationDate)),
        comment: text_field(top, key_text(Key::Comment)),
        created_by: text_field(top, key_text(Key::CreatedBy)),
        url_list: text_field(top, key_text(Key::UrlList)),
        private: number_field(top, key_text(Key::Private)) != 0,
        length: number_field(top, key_text(Key::Length)),
        pieces: records_of(lookup(top, key_text(Key::Pieces), 0)),
        last_piece_length: number_field(top, key_text(Key::LastPieceLength)),
        piece_length: number_field(top, key_text(Key::PieceLength)),
        files: files_of(lookup(top, key_text(Key::Files), 0)),
    }
}

/// Whether the `info` dictionary gives a piece length: a number that is not
/// negative, bound to its key.
pub open spec fn has_piece_length(info: Seq<Pair>) -> bool {
    match lookup(info, key_text(Key::PieceLength), 0) {
        Some(Value::Integer(n)) => 0 <= n,
        _ => false,
    }
}

/// The torrent that a decoded value describes, or why it describes none:
/// the value is no dictionary or binds no dictionary to `info`; or `info`
/// gives no piece length, or gives zero while it holds piece hashes.
pub open spec fn described(v: Value) -> Result<TorrentModel, FromBufferError> {
    match v {
        Value::Dict(top) => match dict_field(top, key_text(Key::Info)) {
            Some(info) => {
                let t = torrent_of(top, info);
                if !has_piece_length(info) {
                    Err(FromBufferError::InvalidPieceLength)
                } else if t.info.piece_length == 0 && t.info.pieces.len() > 0 {
                    Err(FromBufferError::InvalidPieceLength)
                } else {
                    Ok(t)
                }
            },
            None => Err(FromBufferError::MissingInfo),
        },
        _ => Err(FromBufferError::MissingInfo),
    }
}

/// The torrent that a buffer holds, or why it holds none.
pub open spec fn loading(b: Seq<u8>) -> Result<TorrentModel, FromBufferError> {
    match decoding(b) {
        Ok(v) => described(v),
        Err(e) => Err(FromBufferError::DecodeError(e)),
    }
}

/// A torrent with its derived fields filled in where they were empty or
/// zero: `records` for the piece hashes, `buffer` for the encoded `info`
/// dictionary, `digest` for the info-hash.
pub open spec fn derived(
    t: TorrentModel,
    records: Seq<Seq<u8>>,
    buffer: Seq<u8>,
    digest: Seq<char>,
) -> TorrentModel {
    let name = if t.name.len() == 0 {
        t.info.name
    } else {
        t.name
    };
    let length = if t.length == 0 {
        t.info.length
    } else {
        t.length
    };
    let piece_length = if t.piece_length == 0 {
        t.info.piece_length
    } else {
        t.piece_length
    };
    TorrentModel {
        name,
        length,
        piece_length,
        last_piece_length: if t.last_piece_length == 0 && piece_length > 0 {
            length % piece_length
        } else {
            t.last_piece_length
        },
        files: if t.files.len() == 0 {
            seq![
                FileModel {
                    name: t.info.name,
                    path: seq!['.', '/'] + t.info.name,
                    length,
                    offset: 0,
                    md5sum: Seq::empty(),
                },
            ]
        } else {
            t.files
        },
        pieces: if t.pieces.len() == 0 {
            records
        } else {
            t.pieces
        },
        info_buffer: if t.info_buffer.len() == 0 {
            buffer
        } else {
            t.info_buffer
        },
        info_hash: if t.info_hash.len() == 0 {
            digest
        } else {
            t.info_hash
        },
        ..t
    }
}

/// The info-hash of an `info` dictionary: the digest of its canonical bytes.
pub open spec fn info_hash_of(info: InfoModel) -> Seq<char> {
    sha1_hex(info_encoding(info))
}

/// A torrent after the derivation pass.
pub open spec fn enriched(t: TorrentModel) -> TorrentModel {
    derived(t, segments(t.info.pieces), info_encoding(t.info), info_hash_of(t.info))
}

/// Whether the derivation pass refuses a torrent, and why.
pub open spec fn refusal(t: TorrentModel) -> Option<UpdateError> {
    if t.info.pieces.len() % 20 != 0 {
        Some(UpdateError::Segment(SegmentError::MisalignedLength))
    } else if t.info_hash.len() == 0 && info_encoding(t.info).len() > MAX_DIGEST_INPUT {
        Some(UpdateError::InfoTooLong)
    } else {
        None
    }
}

/// The info-hash that the derivation pass gives depends on the `info`
/// dictionary and on the info-hash that the torrent already holds, and on
/// no other field: two torrents that agree on those two get the same.
pub proof fn lemma_info_hash_from_info_alone(a: TorrentModel, b: TorrentModel)
    requires
        a.info == b.info,
        a.info_hash == b.info_hash,
    ensures
        enriched(a).info_hash == enriched(b).info_hash,
        a.info_hash.len() == 0 ==> enriched(a).info_hash == info_hash_of(a.info),
{
}

/// The derivation pass changes nothing in a torrent that it has already
/// enriched, given that the info-hash it wrote is not the empty text.
pub proof fn lemma_enriched_twice(t: TorrentModel)
    requires
        enriched(t).info_hash.len() > 0,
    ensures
        enriched(enriched(t)) == enriched(t),
        refusal(t) is None ==> refusal(enriched(t)) is None,
{
    let once = enriched(t);
    let twice = enriched(once);
    assert(once.info == t.info);
    assert(twice.pieces =~= once.pieces);
    assert(twice.files =~= once.files);
    assert(twice.info_buffer =~= once.info_buffer) by {
        assert(info_encoding(t.info).len() > 0);
    }
}

/// The torrent that a buffer holds, after the derivation pass, or why
/// there is none.
pub open spec fn loaded(b: Seq<u8>) -> Result<TorrentModel, LoadError> {
    match loading(b) {
        Err(e) => Err(LoadError::Buffer(e)),
        Ok(t) => match refusal(t) {
            Some(e) => Err(LoadError::Update(e)),
            None => Ok(enriched(t)),
        },
    }
}

/// Gives the bencode integer that holds `n`, bit for bit.
fn signed_of(n: u64) -> (r: i64)
    ensures
        r == signed(n),
{
    if n <= 0x7fff_ffff_ffff_ffff {
        n as i64
    } else {
        (n - 0x8000_0000_0000_0000) as i64 + i64::MIN
    }
}

/// Reads the text that a value holds.
pub fn read_text(v: &BencodeValue) -> (r: String)
    ensures
        r@ == text_of_value(v@),
{
    match v {
        BencodeValue::ByteString(s) => text_from_bytes(s.as_slice()),
        _ => {
            let empty: Vec<u8> = Vec::new();
            text_from_bytes(empty.as_slice())
        },
    }
}

/// Reads one tier of an announce list.
pub fn read_tier(v: &BencodeValue) -> (r: Vec<String>)
    ensures
        text_views(r@) == tier_of(v@),
{
    let mut tier: Vec<String> = Vec::new();
    match v {
        BencodeValue::List(items) => {
            let mut i: usize = 0;
            while i < items.len()
                invariant
                    i <= items@.len(),
                    v == BencodeValue::List(*items),
                    tier@.len() == i,
                    forall|j: int|
                        0 <= j < i ==> (#[trigger] tier@[j])@ == text_of_value(items@[j]@),
                decreases items@.len() - i,
            {
                tier.push(read_text(&items[i]));
                i = i + 1;
            }
            assert(text_views(tier@) =~= tier_of(v@));
        },
        _ => {
            assert(text_views(tier@) =~= tier_of(v@));
        },
    }
    tier
}

/// Reads the announce list from the value bound to its key.
pub fn read_tiers(v: Option<&BencodeValue>) -> (r: Vec<Vec<String>>)
    ensures
        tier_models(r@) == tiers_of(
            match v {
                Some(x) => Some(x@),
                None => None,
            },
        ),
{
    let mut tiers: Vec<Vec<String>> = Vec::new();
    match v {
        Some(BencodeValue::List(items)) => {
            let mut i: usize = 0;
            while i < items.len()
                invariant
                    i <= items@.len(),
                    tiers@.len() == i,
                    forall|j: int|
                        0 <= j < i ==> text_views((#[trigger] tiers@[j])@) == tier_of(items@[j]@),
                decreases items@.len() - i,
            {
                tiers.push(read_tier(&items[i]));
                i = i + 1;
            }
            assert(BencodeValue::List(*items)@->List_0.len() == items@.len());
            assert(tier_models(tiers@) =~= tiers_of(Some(BencodeValue::List(*items)@)));
        },
        _ => {
            assert(tier_models(tiers@) =~= Seq::empty());
        },
    }
    tiers
}

/// Reads the piece hashes given as a list from the value bound to their key.
pub fn read_records(v: Option<&BencodeValue>) -> (r: Vec<Vec<u8>>)
    ensures
        record_views(r@) == records_of(
            match v {
                Some(x) => Some(x@),
                None => None,
            },
        ),
{
    let mut records: Vec<Vec<u8>> = Vec::new();
    match v {
        Some(BencodeValue::List(items)) => {
            let mut i: usize = 0;
            while i < items.len()
                invariant
                    i <= items@.len(),
                    records@.len() == i,
                    forall|j: int|
                        0 <= j < i ==> (#[trigger] records@[j])@ == bytes_of_value(items@[j]@),
                decreases items@.len() - i,
            {
                let record: Vec<u8> = match &items[i] {
                    BencodeValue::ByteString(s) => s.clone(),
                    _ => Vec::new(),
                };
                records.push(record);
                i = i + 1;
            }
            assert(BencodeValue::List(*items)@->List_0.len() == items@.len());
            assert(record_views(records@) =~= records_of(Some(BencodeValue::List(*items)@)));
        },
        _ => {
            assert(record_views(records@) =~= Seq::empty());
        },
    }
    records
}

impl File {
    /// Reads one file from its dictionary. A value that is no dictionary
    /// gives a file whose fields are all empty or zero.
    pub fn from_value(v: &BencodeValue) -> (r: File)
        ensures
            r@ == file_of(v@),
    {
        let none: Vec<Entry> = Vec::new();
        let entries: &Vec<Entry> = match v {
            BencodeValue::Dict(entries) => entries,
            _ => &none,
        };
        assert(entry_models(entries@) =~= entries_of(v@));
        File {
            name: read_text_field(entries, key_bytes(Key::Name).as_slice()),
            path: read_text_field(entries, key_bytes(Key::Path).as_slice()),
            length: read_number_field(entries, key_bytes(Key::Length).as_slice()),
            offset: read_number_field(entries, key_bytes(Key::Offset).as_slice()),
            md5sum: read_text_field(entries, key_bytes(Key::Md5sum).as_slice()),
        }
    }
}

/// Reads the file list from the value bound to its key.
pub fn read_files(v: Option<&BencodeValue>) -> (r: Vec<File>)
    ensures
        file_models(r@) == files_of(
            match v {
                Some(x) => Some(x@),
                None => None,
            },
        ),
{
    let mut files: Vec<File> = Vec::new();
    match v {
        Some(BencodeValue::List(items)) => {
            let mut i: usize = 0;
            while i < items.len()
                invariant
                    i <= items@.len(),
                    files@.len() == i,
                    forall|j: int| 0 <= j < i ==> (#[trigger] files@[j])@ == file_of(items@[j]@),
                decreases items@.len() - i,
            {
                files.push(File::from_value(&items[i]));
                i = i + 1;
            }
            assert(BencodeValue::List(*items)@->List_0.len() == items@.len());
            assert(file_models(files@) =~= files_of(Some(BencodeValue::List(*items)@)));
        },
        _ => {
            assert(file_models(files@) =~= Seq::empty());
        },
    }
    files
}

impl Info {
    /// Reads the `info` dictionary from its entries.
    pub fn from_entries(entries: &Vec<Entry>) -> (r: Info)
        ensures
            r@ == info_of(entry_models(entries@)),
    {
        let flag: u64 = read_number_field(entries, key_bytes(Key::Private).as_slice());
        Info {
            length: read_number_field(entries, key_bytes(Key::Length).as_slice()),
            name: read_text_field(entries, key_bytes(Key::Name).as_slice()),
            pieces: read_bytes_field(entries, key_bytes(Key::Pieces).as_slice()),
            piece_length: read_number_field(entries, key_bytes(Key::PieceLength).as_slice()),
            private: if flag <= 255 {
                flag as u8
            } else {
                0
            },
        }
    }
}

impl Torrent {
    /// Builds the dictionary that is hashed from the fields of `info`.
    pub fn to_bencode(&self) -> (r: BencodeValue)
        ensures
            r@ == info_value(self.info@),
            canonical(r@, MAX_DEPTH as nat),
    {
        proof {
            lemma_info_value_canonical(self.info@, MAX_DEPTH as nat);
        }
        let mut entries: Vec<Entry> = Vec::new();
        entries.push(
            Entry {
                key: key_bytes(Key::Length),
                value: BencodeValue::Integer(signed_of(self.info.length)),
            },
        );
        entries.push(
            Entry {
                key: key_bytes(Key::Name),
                value: BencodeValue::ByteString(self.info.name.as_str().as_bytes_vec()),
            },
        );
        entries.push(
            Entry {
                key: key_bytes(Key::PieceLength),
                value: BencodeValue::Integer(signed_of(self.info.piece_length)),
            },
        );
        entries.push(
            Entry {
                key: key_bytes(Key::Pieces),
                value: BencodeValue::ByteString(self.info.pieces.clone()),
            },
        );
        entries.push(
            Entry {
                key: key_bytes(Key::Private),
                value: BencodeValue::Integer(self.info.private as i64),
            },
        );
        assert(entries@[0].value@ == Value::Integer(signed(self.info.length)));
        assert(entries@[1].value@ == Value::Bytes(encode_utf8(self.info.name@)));
        assert(entries@[2].value@ == Value::Integer(signed(self.info.piece_length)));
        assert(entries@[3].value@ == Value::Bytes(self.info.pieces@));
        assert(entries@[4].value@ == Value::Integer(self.info.private as int));
        assert(entry_models(entries@) =~= info_value(self.info@)->Dict_0);
        let r = BencodeValue::Dict(entries);
        assert(r@->Dict_0 =~= info_value(self.info@)->Dict_0);
        r
    }

    /// Reads a torrent from a decoded value, without deriving any field.
    pub fn from_value(v: &BencodeValue) -> (r: Result<Torrent, FromBufferError>)
        ensures
            match described(v@) {
                Ok(t) => r matches Ok(x) && x@ == t,
                Err(e) => r matches Err(x) && x == e,
            },
    {
        let top: &Vec<Entry> = match v {
            BencodeValue::Dict(entries) => entries,
            _ => {
                return Err(FromBufferError::MissingInfo);
            },
        };
        assert(v@->Dict_0 =~= entry_models(top@));
        let inner: &Vec<Entry> = match find(top, key_bytes(Key::Info).as_slice()) {
            Some(BencodeValue::Dict(entries)) => {
                assert(BencodeValue::Dict(*entries)@->Dict_0 =~= entry_models(entries@));
                entries
            },
            _ => {
                return Err(FromBufferError::MissingInfo);
            },
        };
        match find(inner, key_bytes(Key::PieceLength).as_slice()) {
            Some(BencodeValue::Integer(n)) => {
                if *n < 0 {
                    return Err(FromBufferError::InvalidPieceLength);
                }
            },
            _ => {
                return Err(FromBufferError::InvalidPieceLength);
            },
        }
        let info: Info = Info::from_entries(inner);
        if info.piece_length == 0 && info.pieces.len() > 0 {
            return Err(FromBufferError::InvalidPieceLength);
        }
        let t = Torrent {
            info,
            info_buffer: read_bytes_field(top, key_bytes(Key::InfoBuffer).as_slice()),
            info_hash: read_text_field(top, key_bytes(Key::InfoHash).as_slice()),
            info_hash_buffer: read_bytes_field(top, key_bytes(Key::InfoHashBuffer).as_slice()),
            name: read_text_field(top, key_bytes(Key::Name).as_slice()),
            announce: read_text_field(top, key_bytes(Key::Announce).as_slice()),
            announce_list: read_tiers(find(top, key_bytes(Key::AnnounceList).as_slice())),
            creation_date: read_number_field(top, key_bytes(Key::CreationDate).as_slice()),
            comment: read_text_field(top, key_bytes(Key::Comment).as_slice()),
            created_by: read_text_field(top, key_bytes(Key::CreatedBy).as_slice()),
            url_list: read_text_field(top, key_bytes(Key::UrlList).as_slice()),
            private: read_number_field(top, key_bytes(Key::Private).as_slice()) != 0,
            length: read_number_field(top, key_bytes(Key::Length).as_slice()),
            pieces: read_records(find(top, key_bytes(Key::Pieces).as_slice())),
            last_piece_length: read_number_field(top, key_bytes(Key::LastPieceLength).as_slice()),
            piece_length: read_number_field(top, key_bytes(Key::PieceLength).as_slice()),
            files: read_files(find(top, key_bytes(Key::Files).as_slice())),
        };
        Ok(t)
    }

    /// Reads a torrent from the bencode text in `buffer`, without deriving
    /// any field.
    pub fn from_buffer(buffer: &[u8]) -> (r: Result<Torrent, FromBufferError>)
        ensures
            match loading(buffer@) {
                Ok(t) => r matches Ok(x) && x@ == t,
                Err(e) => r matches Err(x) && x == e,
            },
    {
        match decode(buffer) {
            Ok(v) => Torrent::from_value(&v),
            Err(e) => Err(FromBufferError::DecodeError(e)),
        }
    }

    /// Reads a torrent from the bencode text in `string`, taken as its bytes
    /// in UTF-8.
    pub fn from_string(string: &str) -> (r: Result<Torrent, FromStringError>)
        ensures
            match loading(string.spec_bytes()) {
                Ok(t) => r matches Ok(x) && x@ == t,
                Err(e) => r matches Err(x) && x == string_error(e),
            },
    {
        match Torrent::from_buffer(string.as_bytes()) {
            Ok(t) => Ok(t),
            Err(FromBufferError::DecodeError(e)) => Err(FromStringError::DecodeError(e)),
            Err(FromBufferError::MissingInfo) => Err(FromStringError::MissingInfo),
            Err(FromBufferError::InvalidPieceLength) => Err(FromStringError::InvalidPieceLength),
        }
    }

    /// Reads a torrent from the bencode text in `buffer` and runs the
    /// derivation pass on it. Where the buffer holds neither an encoded
    /// `info` dictionary nor an info-hash beside `info`, loading the encoded
    /// `info` dictionary of the result, wrapped as a torrent of its own,
    /// gives the same `info`, encoded dictionary and info-hash.
    pub fn load(buffer: &[u8]) -> (r: Result<Torrent, LoadError>)
        ensures
            match loaded(buffer@) {
                Ok(t) => r matches Ok(x) && x@ == t,
                Err(e) => r matches Err(x) && x == e,
            },
            r is Ok && loads_underived(buffer@) ==> reloads_alike(r->Ok_0@),
    {
        proof {
            if loads_underived(buffer@) {
                lemma_reload_is_stable(buffer@);
            }
        }
        let mut torrent: Torrent = match Torrent::from_buffer(buffer) {
            Ok(t) => t,
            Err(e) => {
                return Err(LoadError::Buffer(e));
            },
        };
        match torrent.update_torrent() {
            Ok(()) => Ok(torrent),
            Err(e) => Err(LoadError::Update(e)),
        }
    }

    /// Fills in each derived field that is empty or zero: the name, the
    /// lengths and the single file from `info`, and the piece hashes, the
    /// encoded `info` dictionary and the info-hash from the values given.
    pub fn apply_derived(&mut self, records: Vec<Vec<u8>>, buffer: Vec<u8>, digest: String)
        ensures
            final(self)@ == derived(old(self)@, record_views(records@), buffer@, digest@),
    {
        if self.name.as_str().is_empty() {
            self.name = self.info.name.clone();
        }
        if self.length == 0 {
            self.length = self.info.length;
        }
        if self.piece_length == 0 {
            self.piece_length = self.info.piece_length;
        }
        if self.last_piece_length == 0 && self.piece_length > 0 {
            self.last_piece_length = self.length % self.piece_length;
        }
        if self.files.len() == 0 {
            proof {
                reveal_strlit("./");
            }
            let path: String = String::from_str("./").concat(self.info.name.as_str());
            assert(path@ =~= seq!['.', '/'] + self.info.name@);
            self.files.push(
                File {
                    name: self.info.name.clone(),
                    path,
                    length: self.length,
                    offset: 0,
                    md5sum: String::new(),
                },
            );
        }
        if self.pieces.len() == 0 {
            self.pieces = records;
        }
        if self.info_buffer.len() == 0 {
            self.info_buffer = buffer;
        }
        if self.info_hash.as_str().is_empty() {
            self.info_hash = digest;
        }
        assert(final(self)@.files =~= derived(
            old(self)@,
            record_views(records@),
            buffer@,
            digest@,
        ).files);
    }

    /// The derivation pass. It fills in each derived field that is empty or
    /// zero; where the torrent is refused it is left as it was. A second
    /// pass changes nothing. An info-hash that the pass writes is 40 digits
    /// of lower-case hexadecimal, and an encoded `info` dictionary that it
    /// writes, wrapped as a torrent of its own, reads back as the same `info`.
    pub fn update_torrent(&mut self) -> (r: Result<(), UpdateError>)
        ensures
            match refusal(old(self)@) {
                Some(e) => r == Err::<(), UpdateError>(e) && final(self)@ == old(self)@,
                None => r is Ok && final(self)@ == enriched(old(self)@),
            },
            r is Ok ==> refusal(final(self)@) is None && enriched(final(self)@) == final(self)@,
            r is Ok ==> final(self)@.pieces.len() * 20 == final(self)@.info.pieces.len()
                || old(self)@.pieces.len() > 0,
            r is Ok && old(self)@.info_hash.len() == 0 ==> final(self)@.info_hash.len() == 40
                && is_hex(final(self)@.info_hash),
            r is Ok && old(self)@.info_buffer.len() == 0 && readable(final(self)@.info)
                ==> loading(wrapped(final(self)@.info_buffer)) == Ok::<
                TorrentModel,
                FromBufferError,
            >(bare(final(self)@.info)),
    {
        proof {
            if readable(self@.info) {
                lemma_wrapped_info_loads(self@.info);
            }
        }
        let records: Vec<Vec<u8>> = match segment_pieces(self.info.pieces.as_slice()) {
            Ok(records) => records,
            Err(e) => {
                return Err(UpdateError::Segment(e));
            },
        };
        let buffer: Vec<u8> = encode(&self.to_bencode());
        let digest: String = if self.info_hash.as_str().is_empty() {
            match hex_digest(buffer.as_slice()) {
                Some(digest) => digest,
                None => {
                    return Err(UpdateError::InfoTooLong);
                },
            }
        } else {
            String::new()
        };
        self.apply_derived(records, buffer, digest);
        proof {
            lemma_enriched_twice(old(self)@);
        }
        Ok(())
    }
}

} // verus!
